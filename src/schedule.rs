//! Start times of modules, recovered from their titles.

use vstd::prelude::*;

verus! {

/// Pattern of a start date and time in a module title: `day/month`, an
/// optional ignored `+ weekday. day2/month2` clause, then `, hour:minute`
/// (or `hour` `h` `minute`).
pub const START_PATTERN: &'static str = "([0-9]{1,2})/([0-9]{1,2})(?: \\+ [a-z]+. [0-9]+/[0-9]+)?, ([0-9]{1,2})[:h]([0-9]{1,2})";

/// A calendar date and a time of day, to the minute, in the report's local time.
#[derive(Clone, Copy, Debug, PartialEq, Eq, Structural)]
pub struct StartTime {
    pub year: i32,
    pub month: u8,
    pub day: u8,
    pub hour: u8,
    pub minute: u8,
}

/// When a module starts: a parsed time, or unknown (ordered after every known time).
#[derive(Clone, Copy, Debug, PartialEq, Eq, Structural)]
pub enum ModuleStart {
    Scheduled(StartTime),
    Unscheduled,
}

pub open spec fn is_leap_year(year: int) -> bool {
    year % 4 == 0 && (year % 100 != 0 || year % 400 == 0)
}

pub open spec fn days_in_month(year: int, month: int) -> int {
    if month == 2 {
        if is_leap_year(year) { 29 } else { 28 }
    } else if month == 4 || month == 6 || month == 9 || month == 11 {
        30
    } else {
        31
    }
}

pub open spec fn is_calendar_date(year: int, month: int, day: int) -> bool {
    1 <= month <= 12 && 1 <= day <= days_in_month(year, month)
}

pub open spec fn year_in_range(year: int) -> bool {
    -9999 <= year <= 9999
}

impl StartTime {
    /// A real date and time of day in a year that calendar arithmetic supports.
    pub open spec fn wf(self) -> bool {
        &&& year_in_range(self.year as int)
        &&& is_calendar_date(self.year as int, self.month as int, self.day as int)
        &&& self.hour < 24
        &&& self.minute < 60
    }
}

/// Sort key of the sentinel start: after every key of a real start time.
pub const UNSCHEDULED_KEY: i64 = 0x7fff_ffff_ffff_ffff;

impl ModuleStart {
    pub open spec fn wf(self) -> bool {
        match self {
            ModuleStart::Scheduled(t) => t.wf(),
            ModuleStart::Unscheduled => true,
        }
    }

    /// Minutes-like key that orders start times chronologically.
    pub open spec fn key(self) -> int {
        match self {
            ModuleStart::Scheduled(t) => (((t.year as int * 13 + t.month as int) * 32 + t.day as int) * 24
                + t.hour as int) * 60 + t.minute as int,
            ModuleStart::Unscheduled => UNSCHEDULED_KEY as int,
        }
    }

    pub fn sort_key(&self) -> (r: i64)
        requires
            self.wf(),
        ensures
            r as int == self.key(),
    {
        match self {
            ModuleStart::Scheduled(t) => {
                let y = t.year as i64;
                assert(-9999 * 13 <= y * 13 <= 9999 * 13) by (nonlinear_arith)
                    requires -9999 <= y <= 9999;
                let a = y * 13 + t.month as i64;
                assert(-9999 * 13 * 32 <= a * 32 <= (9999 * 13 + 12) * 32) by (nonlinear_arith)
                    requires -9999 * 13 <= a <= 9999 * 13 + 12;
                let b = a * 32 + t.day as i64;
                assert(-9999 * 13 * 32 * 24 <= b * 24 <= ((9999 * 13 + 12) * 32 + 31) * 24) by (nonlinear_arith)
                    requires -9999 * 13 * 32 <= b <= (9999 * 13 + 12) * 32 + 31;
                let c = b * 24 + t.hour as i64;
                assert(-9999 * 13 * 32 * 24 * 60 <= c * 60 <= (((9999 * 13 + 12) * 32 + 31) * 24 + 23) * 60) by (nonlinear_arith)
                    requires -9999 * 13 * 32 * 24 <= c <= ((9999 * 13 + 12) * 32 + 31) * 24 + 23;
                c * 60 + t.minute as i64
            },
            ModuleStart::Unscheduled => UNSCHEDULED_KEY,
        }
    }
}

/// A real start time sorts strictly before the sentinel, and its key fits an `i64`.
pub proof fn lemma_scheduled_before_unscheduled(t: StartTime)
    requires
        t.wf(),
    ensures
        -UNSCHEDULED_KEY < ModuleStart::Scheduled(t).key() < ModuleStart::Unscheduled.key(),
{
    let y = t.year as int;
    assert(-9999 * 13 <= y * 13 <= 9999 * 13) by (nonlinear_arith)
        requires -9999 <= y <= 9999;
    let a = y * 13 + t.month as int;
    assert(-9999 * 13 * 32 <= a * 32 <= (9999 * 13 + 12) * 32) by (nonlinear_arith)
        requires -9999 * 13 <= a <= 9999 * 13 + 12;
    let b = a * 32 + t.day as int;
    assert(-9999 * 13 * 32 * 24 <= b * 24 <= ((9999 * 13 + 12) * 32 + 31) * 24) by (nonlinear_arith)
        requires -9999 * 13 * 32 <= b <= (9999 * 13 + 12) * 32 + 31;
    let c = b * 24 + t.hour as int;
    assert(-9999 * 13 * 32 * 24 * 60 <= c * 60 <= (((9999 * 13 + 12) * 32 + 31) * 24 + 23) * 60) by (nonlinear_arith)
        requires -9999 * 13 * 32 * 24 <= c <= ((9999 * 13 + 12) * 32 + 31) * 24 + 23;
}

pub open spec fn is_digit(c: char) -> bool {
    '0' <= c <= '9'
}

pub open spec fn digit_value(c: char) -> int {
    c as int - '0' as int
}

/// The value of one or two decimal digits; nothing for any other text.
pub open spec fn small_number_of(s: Seq<char>) -> Option<u8> {
    if s.len() == 1 && is_digit(s[0]) {
        Some(digit_value(s[0]) as u8)
    } else if s.len() == 2 && is_digit(s[0]) && is_digit(s[1]) {
        Some((digit_value(s[0]) * 10 + digit_value(s[1])) as u8)
    } else {
        None
    }
}

/// Reads one or two decimal digits.
pub fn small_number(s: &str) -> (r: Option<u8>)
    ensures
        r == small_number_of(s@),
{
    let n = s.unicode_len();
    if n == 1 {
        let c = s.get_char(0);
        if '0' <= c && c <= '9' {
            Some((c as u32 - '0' as u32) as u8)
        } else {
            None
        }
    } else if n == 2 {
        let c0 = s.get_char(0);
        let c1 = s.get_char(1);
        if '0' <= c0 && c0 <= '9' && '0' <= c1 && c1 <= '9' {
            Some(((c0 as u32 - '0' as u32) * 10 + (c1 as u32 - '0' as u32)) as u8)
        } else {
            None
        }
    } else {
        None
    }
}

/// The capture groups of the leftmost match of a pattern in a text.
pub uninterp spec fn pattern_captures(pattern: Seq<char>, haystack: Seq<char>) -> Option<
    Seq<Seq<char>>,
>;

pub open spec fn groups_view(g: Option<Vec<String>>) -> Option<Seq<Seq<char>>> {
    match g {
        Some(v) => Some(v@.map_values(|s: String| s@)),
        None => None,
    }
}

/// Relies on `regex::Regex::new` and `regex::Regex::captures`: compiles the
/// pattern and returns the groups (after the whole match) of its leftmost
/// match, a group that took no part as empty text; nothing when there is no
/// match or the pattern does not compile.
#[verifier::external_body]
fn leftmost_captures(pattern: &str, haystack: &str) -> (r: Option<Vec<String>>)
    ensures
        groups_view(r) == pattern_captures(pattern@, haystack@),
{
    match regex::Regex::new(pattern) {
        Ok(re) => re.captures(haystack).map(
            |c| c.iter().skip(1).map(|g| g.map_or(String::new(), |m| m.as_str().to_string())).collect(),
        ),
        Err(_) => None,
    }
}

/// Relies on `time::Month::try_from` and `time::Date::from_calendar_date`:
/// whether `day` exists in `month` (1 to 12) of `year` in the Gregorian calendar.
#[verifier::external_body]
fn calendar_date_exists(year: i32, month: u8, day: u8) -> (r: bool)
    requires
        year_in_range(year as int),
    ensures
        r == is_calendar_date(year as int, month as int, day as int),
{
    match time::Month::try_from(month) {
        Ok(m) => time::Date::from_calendar_date(year, m, day).is_ok(),
        Err(_) => false,
    }
}

/// Relies on `time::Time::from_hms`: whether `hour:minute:00` is a time of day.
#[verifier::external_body]
fn time_of_day_exists(hour: u8, minute: u8) -> (r: bool)
    ensures
        r == (hour < 24 && minute < 60),
{
    time::Time::from_hms(hour, minute, 0).is_ok()
}

/// The start time that four captured groups (day, month, hour, minute) give in
/// `year`: the sentinel when they are missing, not numbers, or no real date
/// and time.
pub open spec fn start_of_groups(groups: Option<Seq<Seq<char>>>, year: i32) -> ModuleStart {
    match groups {
        Some(g) => {
            if g.len() == 4 && small_number_of(g[0]) is Some && small_number_of(g[1]) is Some
                && small_number_of(g[2]) is Some && small_number_of(g[3]) is Some {
                let t = StartTime {
                    year,
                    month: small_number_of(g[1])->0,
                    day: small_number_of(g[0])->0,
                    hour: small_number_of(g[2])->0,
                    minute: small_number_of(g[3])->0,
                };
                if is_calendar_date(year as int, t.month as int, t.day as int) && t.hour < 24
                    && t.minute < 60 {
                    ModuleStart::Scheduled(t)
                } else {
                    ModuleStart::Unscheduled
                }
            } else {
                ModuleStart::Unscheduled
            }
        },
        None => ModuleStart::Unscheduled,
    }
}

/// The start time of a module titled `title`, in `year`.
pub open spec fn start_of_title(title: Seq<char>, year: i32) -> ModuleStart {
    start_of_groups(pattern_captures(START_PATTERN@, title), year)
}

/// Builds a start time from the groups that the start pattern captured.
pub fn start_from_groups(groups: Option<Vec<String>>, year: i32) -> (r: ModuleStart)
    requires
        year_in_range(year as int),
    ensures
        r == start_of_groups(groups_view(groups), year),
        r.wf(),
{
    match groups {
        Some(g) => {
            if g.len() != 4 {
                return ModuleStart::Unscheduled;
            }
            let day = small_number(g[0].as_str());
            let month = small_number(g[1].as_str());
            let hour = small_number(g[2].as_str());
            let minute = small_number(g[3].as_str());
            match (day, month, hour, minute) {
                (Some(day), Some(month), Some(hour), Some(minute)) => {
                    if calendar_date_exists(year, month, day) && time_of_day_exists(hour, minute) {
                        ModuleStart::Scheduled(StartTime { year, month, day, hour, minute })
                    } else {
                        ModuleStart::Unscheduled
                    }
                },
                _ => ModuleStart::Unscheduled,
            }
        },
        None => ModuleStart::Unscheduled,
    }
}

/// Recovers the start time of a module from its title, in `year`; the
/// sentinel where the title holds no date and time, or an impossible one.
pub fn parse_start(title: &str, year: i32) -> (r: ModuleStart)
    requires
        year_in_range(year as int),
    ensures
        r == start_of_title(title@, year),
        r.wf(),
{
    let groups = leftmost_captures(START_PATTERN, title);
    start_from_groups(groups, year)
}

} // verus!
