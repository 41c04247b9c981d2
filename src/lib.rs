//! Turns per-person module registrations into per-module rosters.
//!
//! Rows of a registration export are digested into persons and modules,
//! persons are ordered by registration time, modules by start time, and the
//! rosters are rendered as a nested text listing.

pub mod text;
pub mod schedule;
pub mod identity;
pub mod registrations;
pub mod ordering;
pub mod report;
pub mod laws;
