//! Who a person is, and how they are shown in a roster.

use vstd::prelude::*;

verus! {

/// Name, contact address and affiliation (possibly empty) of an attendee.
#[derive(Debug)]
pub struct Identity {
    pub name: String,
    pub email_address: String,
    pub affiliation: String,
}

impl View for Identity {
    type V = (Seq<char>, Seq<char>, Seq<char>);

    open spec fn view(&self) -> (Seq<char>, Seq<char>, Seq<char>) {
        (self.name@, self.email_address@, self.affiliation@)
    }
}

/// Official names of the IJCLab laboratory, shown as its short name.
pub const IJCLAB_FULL_NAME: &'static str = "Laboratoire de Physique des 2 infinis Irène Joliot-Curie, Université Paris-Saclay, CNRS-IN2P3. Université Paris-Saclay, CNRS-IN2P3";
pub const IJCLAB_UPPER_NAME: &'static str = "IJCLAB - IN2P3 - CNRS";
pub const IJCLAB_MIXED_NAME: &'static str = "IJCLab - IN2P3 - CNRS";
pub const IJCLAB_SHORT_NAME: &'static str = "IJCLab";

/// The label under which an affiliation is shown: the short name for a known
/// alias, the affiliation itself otherwise.
pub open spec fn affiliation_label(a: Seq<char>) -> Seq<char> {
    if a == IJCLAB_FULL_NAME@ || a == IJCLAB_UPPER_NAME@ || a == IJCLAB_MIXED_NAME@ {
        IJCLAB_SHORT_NAME@
    } else {
        a
    }
}

/// `` `name <email>` ``, then ` from <label>` when the affiliation is not empty.
pub open spec fn identity_text(id: (Seq<char>, Seq<char>, Seq<char>)) -> Seq<char> {
    let core = "`"@ + id.0 + " <"@ + id.1 + ">`"@;
    if id.2.len() == 0 {
        core
    } else {
        core + " from "@ + affiliation_label(id.2)
    }
}

/// Shows an affiliation, replacing a known alias by the short name.
pub fn simplified_affiliation(affiliation: &String) -> (r: String)
    ensures
        r@ == affiliation_label(affiliation@),
{
    let full = String::from_str(IJCLAB_FULL_NAME);
    let upper = String::from_str(IJCLAB_UPPER_NAME);
    let mixed = String::from_str(IJCLAB_MIXED_NAME);
    if *affiliation == full || *affiliation == upper || *affiliation == mixed {
        String::from_str(IJCLAB_SHORT_NAME)
    } else {
        affiliation.clone()
    }
}

impl Identity {
    /// How the person is shown in a roster.
    pub fn to_text(&self) -> (r: String)
        ensures
            r@ == identity_text(self@),
    {
        let mut out = String::from_str("`");
        out.append(self.name.as_str());
        out.append(" <");
        out.append(self.email_address.as_str());
        out.append(">`");
        if !self.affiliation.as_str().is_empty() {
            out.append(" from ");
            let label = simplified_affiliation(&self.affiliation);
            out.append(label.as_str());
        }
        out
    }

    /// A second identity with the same fields.
    pub fn duplicate(&self) -> (r: Identity)
        ensures
            r@ == self@,
    {
        Identity {
            name: self.name.clone(),
            email_address: self.email_address.clone(),
            affiliation: self.affiliation.clone(),
        }
    }
}

} // verus!
