//! Rendering of the rosters as a nested text listing.

use vstd::prelude::*;
use crate::identity::identity_text;
use crate::ordering::{lemma_stable_order_of, roster_of, stable_order_of};
use crate::registrations::{ModuleId, PersonId, Registrations, module_names};
use crate::text::{decimal, decimal_text};

verus! {

/// First line of the report.
pub const REPORT_HEADING: &'static str = "# Registrations to each module\n";

/// The numbered lines of a roster, numbering from 1.
pub open spec fn member_lines(
    identities: Seq<(Seq<char>, Seq<char>, Seq<char>)>,
    members: Seq<PersonId>,
) -> Seq<char>
    decreases members.len(),
{
    if members.len() == 0 {
        Seq::empty()
    } else {
        member_lines(identities, members.drop_last()) + decimal(members.len() as nat) + ". "@
            + identity_text(identities[members.last() as int]) + "\n"@
    }
}

/// A module's section: a blank line, its title as a subheading, a blank line,
/// then its members.
pub open spec fn section_text(
    name: Seq<char>,
    identities: Seq<(Seq<char>, Seq<char>, Seq<char>)>,
    members: Seq<PersonId>,
) -> Seq<char> {
    "\n## "@ + name + "\n\n"@ + member_lines(identities, members)
}

/// The sections of the modules in `module_order`.
pub open spec fn sections_text(
    names: Seq<Seq<char>>,
    identities: Seq<(Seq<char>, Seq<char>, Seq<char>)>,
    module_order: Seq<ModuleId>,
    rosters: Seq<Seq<PersonId>>,
) -> Seq<char>
    decreases module_order.len(),
{
    if module_order.len() == 0 {
        Seq::empty()
    } else {
        let m = module_order.last() as int;
        sections_text(names, identities, module_order.drop_last(), rosters) + section_text(
            names[m],
            identities,
            rosters[m],
        )
    }
}

/// The whole report: the heading, then one section per module in `module_order`.
pub open spec fn report_text(
    names: Seq<Seq<char>>,
    identities: Seq<(Seq<char>, Seq<char>, Seq<char>)>,
    module_order: Seq<ModuleId>,
    rosters: Seq<Seq<PersonId>>,
) -> Seq<char> {
    REPORT_HEADING@ + sections_text(names, identities, module_order, rosters)
}

pub open spec fn rosters_view(rosters: Seq<Vec<PersonId>>) -> Seq<Seq<PersonId>> {
    rosters.map_values(|v: Vec<PersonId>| v@)
}

impl Registrations {
    /// Identities of the persons, by person index.
    pub open spec fn identities(&self) -> Seq<(Seq<char>, Seq<char>, Seq<char>)> {
        self.persons@.map_values(|p: crate::registrations::Person| p.identity@)
    }

    /// Persons in order of registration time, ties in input order.
    pub open spec fn person_order(&self) -> Seq<PersonId> {
        stable_order_of(self.registration_keys())
    }

    /// Modules in order of start time, unknown start times last, ties in first-seen order.
    pub open spec fn module_order(&self) -> Seq<ModuleId> {
        stable_order_of(self.start_keys())
    }

    /// The members of module `m`, in order of registration.
    pub open spec fn roster(&self, m: ModuleId) -> Seq<PersonId> {
        roster_of(self.choices(), self.person_order(), m)
    }

    /// The rosters of all modules, by module index.
    pub open spec fn all_rosters(&self) -> Seq<Seq<PersonId>> {
        Seq::new(self.modules.len() as nat, |m: int| self.roster(m as ModuleId))
    }

    /// The report of these registrations.
    pub open spec fn report(&self) -> Seq<char> {
        report_text(module_names(self.modules@), self.identities(), self.module_order(), self.all_rosters())
    }

    /// Orders persons and modules, builds the rosters and renders the report.
    pub fn roster_report(&self) -> (r: String)
        requires
            self.wf(),
        ensures
            r@ == self.report(),
    {
        let persons = self.persons_by_registration_time();
        proof {
            lemma_stable_order_of(self.registration_keys(), persons@);
        }
        let modules = self.modules_by_start_time();
        proof {
            lemma_stable_order_of(self.start_keys(), modules@);
        }
        let rosters = self.rosters(&persons);
        assert forall|m: int, j: int|
            0 <= m < rosters.len() && 0 <= j < rosters@[m].len() implies #[trigger] rosters@[m]@[j]
                < self.persons.len() by {
            crate::laws::lemma_roster_members(self.choices(), persons@, m as ModuleId, self.persons.len() as nat);
        }
        assert(rosters_view(rosters@) =~= self.all_rosters());
        self.render(&modules, &rosters)
    }

    /// Renders the report for modules in `module_order`, with the members of
    /// module `m` listed as `rosters[m]`.
    pub fn render(&self, module_order: &Vec<ModuleId>, rosters: &Vec<Vec<PersonId>>) -> (r: String)
        requires
            rosters.len() == self.modules.len(),
            forall|i: int| 0 <= i < module_order.len() ==> #[trigger] module_order@[i] < self.modules.len(),
            forall|m: int, j: int|
                0 <= m < rosters.len() && 0 <= j < rosters@[m].len() ==> #[trigger] rosters@[m]@[j]
                    < self.persons.len(),
        ensures
            r@ == report_text(
                module_names(self.modules@),
                self.identities(),
                module_order@,
                rosters_view(rosters@),
            ),
    {
        let ghost names = module_names(self.modules@);
        let ghost identities = self.identities();
        let ghost views = rosters_view(rosters@);
        let mut out = String::from_str(REPORT_HEADING);
        let mut i: usize = 0;
        while i < module_order.len()
            invariant
                rosters.len() == self.modules.len(),
                names == module_names(self.modules@),
                identities == self.identities(),
                views == rosters_view(rosters@),
                forall|a: int| 0 <= a < module_order.len() ==> #[trigger] module_order@[a] < self.modules.len(),
                forall|m: int, j: int|
                    0 <= m < rosters.len() && 0 <= j < rosters@[m].len() ==> #[trigger] rosters@[m]@[j]
                        < self.persons.len(),
                i <= module_order.len(),
                out@ == REPORT_HEADING@ + sections_text(
                    names,
                    identities,
                    module_order@.subrange(0, i as int),
                    views,
                ),
            decreases module_order.len() - i,
        {
            let m = module_order[i];
            let ghost before = out@;
            out.append("\n## ");
            out.append(self.modules[m].name.as_str());
            out.append("\n\n");
            let members = &rosters[m];
            let ghost head = out@;
            let mut k: usize = 0;
            while k < members.len()
                invariant
                    *members == rosters@[m as int],
                    m < rosters.len(),
                    identities == self.identities(),
                    forall|j: int| 0 <= j < members.len() ==> #[trigger] members@[j] < self.persons.len(),
                    k <= members.len(),
                    out@ == head + member_lines(identities, members@.subrange(0, k as int)),
                decreases members.len() - k,
            {
                let p = members[k];
                let ghost prev = out@;
                let number = decimal_text(k + 1);
                out.append(number.as_str());
                out.append(". ");
                let shown = self.persons[p].identity.to_text();
                out.append(shown.as_str());
                out.append("\n");
                assert(members@.subrange(0, k as int + 1).drop_last() =~= members@.subrange(0, k as int));
                assert(identities[p as int] == self.persons@[p as int].identity@);
                assert(out@ =~= head + member_lines(identities, members@.subrange(0, k as int + 1)));
                k = k + 1;
            }
            assert(members@.subrange(0, k as int) =~= members@);
            assert(views[m as int] == members@);
            assert(module_order@.subrange(0, i as int + 1).drop_last() =~= module_order@.subrange(0, i as int));
            assert(names[m as int] == self.modules@[m as int].name@);
            assert(out@ =~= REPORT_HEADING@ + sections_text(
                names,
                identities,
                module_order@.subrange(0, i as int + 1),
                views,
            ));
            i = i + 1;
        }
        assert(module_order@.subrange(0, i as int) =~= module_order@);
        out
    }
}

} // verus!
