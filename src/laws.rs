//! Properties of digestion, ordering and rosters that hold for every input.

use vstd::prelude::*;
use vstd::seq_lib::{lemma_multiset_commutative, to_multiset_build};
use crate::ordering::{is_stable_order, lemma_stable_order_exists, occurrences, precedes, roster_of};
use crate::registrations::{ModuleId, PersonId, RawRecord, Registrations, module_names, row_titles};
use crate::schedule::{
    ModuleStart, is_calendar_date, lemma_scheduled_before_unscheduled, small_number_of, start_of_groups,
};

verus! {

/// Each entry of `occurrences(choices, m, p)` is `p`, and there are as many as
/// `m` occurs in `choices`.
pub proof fn lemma_occurrences(choices: Seq<ModuleId>, m: ModuleId, p: PersonId)
    ensures
        forall|j: int| 0 <= j < occurrences(choices, m, p).len() ==> #[trigger] occurrences(choices, m, p)[j] == p,
        occurrences(choices, m, p).len() == choices.to_multiset().count(m),
        occurrences(choices, m, p).to_multiset().count(p) == choices.to_multiset().count(m),
        forall|q: PersonId| q != p ==> #[trigger] occurrences(choices, m, p).to_multiset().count(q) == 0,
    decreases choices.len(),
{
    broadcast use vstd::multiset::group_multiset_axioms;
    broadcast use to_multiset_build;
    broadcast use lemma_multiset_commutative;
    broadcast use vstd::seq_lib::to_multiset_contains;

    if choices.len() == 0 {
        assert(!choices.contains(m));
        assert forall|q: PersonId| #[trigger] occurrences(choices, m, p).to_multiset().count(q) == 0 by {
            assert(!occurrences(choices, m, p).contains(q));
        }
    } else {
        let init = choices.drop_last();
        lemma_occurrences(init, m, p);
        assert(choices =~= init.push(choices.last()));
        let tail: Seq<PersonId> = if choices.last() == m { seq![p] } else { Seq::empty() };
        if choices.last() == m {
            assert(tail =~= Seq::<PersonId>::empty().push(p));
        }
        assert(occurrences(choices, m, p) == occurrences(init, m, p) + tail);
        assert(choices.to_multiset() =~= init.to_multiset().insert(choices.last()));
        assert((occurrences(init, m, p) + tail).to_multiset() =~= occurrences(init, m, p).to_multiset().add(
            tail.to_multiset(),
        ));
        if choices.last() == m {
            assert(tail.to_multiset() =~= Seq::<PersonId>::empty().to_multiset().insert(p));
        } else {
            assert(tail.to_multiset() =~= Seq::<PersonId>::empty().to_multiset());
        }
        assert forall|j: int| 0 <= j < occurrences(choices, m, p).len() implies #[trigger] occurrences(choices, m, p)[j] == p by {
            if j < occurrences(init, m, p).len() {
                assert(occurrences(choices, m, p)[j] == occurrences(init, m, p)[j]);
            }
        }
    }
}

/// Every member of a roster is a person of `order` who chose module `m`, and
/// members come in the order of `order`.
pub proof fn lemma_roster_members(
    choices: Seq<Seq<ModuleId>>,
    order: Seq<PersonId>,
    m: ModuleId,
    n: nat,
)
    requires
        n <= choices.len(),
        forall|i: int| 0 <= i < order.len() ==> #[trigger] order[i] < n,
    ensures
        forall|j: int| 0 <= j < roster_of(choices, order, m).len() ==> {
            let q = #[trigger] roster_of(choices, order, m)[j];
            &&& q < n
            &&& order.contains(q)
            &&& choices[q as int].contains(m)
        },
    decreases order.len(),
{
    if order.len() > 0 {
        let init = order.drop_last();
        let p = order.last();
        lemma_roster_members(choices, init, m, n);
        lemma_occurrences(choices[p as int], m, p);
        let head = roster_of(choices, init, m);
        let tail = occurrences(choices[p as int], m, p);
        assert(roster_of(choices, order, m) == head + tail);
        assert forall|j: int| 0 <= j < roster_of(choices, order, m).len() implies {
            let q = #[trigger] roster_of(choices, order, m)[j];
            &&& q < n
            &&& order.contains(q)
            &&& choices[q as int].contains(m)
        } by {
            if j < head.len() {
                assert(roster_of(choices, order, m)[j] == head[j]);
                let q = head[j];
                let k = choose|k: int| 0 <= k < init.len() && init[k] == q;
                assert(order[k] == q);
            } else {
                assert(roster_of(choices, order, m)[j] == tail[j - head.len()]);
                assert(order[order.len() - 1] == p);
                assert(choices[p as int].to_multiset().count(m) > 0);
                vstd::seq_lib::to_multiset_contains(choices[p as int], m);
            }
        }
    }
}

/// A stable order lists no index twice.
pub proof fn lemma_stable_order_no_duplicates(keys: Seq<i128>, order: Seq<usize>)
    requires
        is_stable_order(keys, order),
    ensures
        order.no_duplicates(),
{
    assert forall|a: int, b: int| 0 <= a < order.len() && 0 <= b < order.len() && a != b
        implies order[a] != order[b] by {
        if a < b {
            assert(precedes(keys, order[a] as int, order[b] as int));
        } else {
            assert(precedes(keys, order[b] as int, order[a] as int));
        }
    }
}

/// Persons whose titles are equal after trimming chose the same module: for
/// any two titles in the rows, equal titles resolve to one module index.
pub proof fn lemma_module_dedup(
    rows: Seq<RawRecord>,
    year: i32,
    regs: Registrations,
    p1: int,
    j1: int,
    p2: int,
    j2: int,
)
    requires
        regs.digests(rows, year),
        0 <= p1 < rows.len(),
        0 <= j1 < row_titles(rows[p1]).len(),
        0 <= p2 < rows.len(),
        0 <= j2 < row_titles(rows[p2]).len(),
        row_titles(rows[p1])[j1] == row_titles(rows[p2])[j2],
    ensures
        regs.persons@[p1].choice_of_modules@[j1] == regs.persons@[p2].choice_of_modules@[j2],
{
    let m1 = regs.persons@[p1].choice_of_modules@[j1] as int;
    let m2 = regs.persons@[p2].choice_of_modules@[j2] as int;
    assert(regs.persons@[p1].choice_of_modules.len() == row_titles(rows[p1]).len());
    assert(regs.persons@[p2].choice_of_modules.len() == row_titles(rows[p2]).len());
    assert(module_names(regs.modules@)[m1] == module_names(regs.modules@)[m2]);
}

/// Persons taken in a sorted order give a roster in that order: along a
/// roster, each member equals or comes before the next by registration time,
/// ties by input position.
pub proof fn lemma_roster_in_order(
    choices: Seq<Seq<ModuleId>>,
    keys: Seq<i128>,
    order: Seq<PersonId>,
    m: ModuleId,
)
    requires
        choices.len() == keys.len(),
        forall|i: int| 0 <= i < order.len() ==> #[trigger] order[i] < keys.len(),
        forall|i: int, j: int|
            #![trigger order[i], order[j]]
            0 <= i < j < order.len() ==> precedes(keys, order[i] as int, order[j] as int),
    ensures
        forall|a: int, b: int|
            #![trigger roster_of(choices, order, m)[a], roster_of(choices, order, m)[b]]
            0 <= a < b < roster_of(choices, order, m).len() ==> {
                let x = roster_of(choices, order, m)[a];
                let y = roster_of(choices, order, m)[b];
                x == y || precedes(keys, x as int, y as int)
            },
    decreases order.len(),
{
    if order.len() > 0 {
        let init = order.drop_last();
        let p = order.last();
        lemma_roster_in_order(choices, keys, init, m);
        lemma_roster_members(choices, init, m, keys.len());
        lemma_occurrences(choices[p as int], m, p);
        let head = roster_of(choices, init, m);
        let tail = occurrences(choices[p as int], m, p);
        assert(roster_of(choices, order, m) == head + tail);
        let r = roster_of(choices, order, m);
        assert forall|a: int, b: int| 0 <= a < b < r.len() implies {
            let x = #[trigger] r[a];
            let y = #[trigger] r[b];
            x == y || precedes(keys, x as int, y as int)
        } by {
            if b < head.len() {
                assert(r[a] == head[a] && r[b] == head[b]);
            } else if a < head.len() {
                assert(r[a] == head[a]);
                assert(r[b] == tail[b - head.len()]);
                assert(init.contains(head[a]));
                let k = choose|k: int| 0 <= k < init.len() && init[k] == head[a];
                assert(order[k] == head[a] && order[order.len() - 1] == p);
            } else {
                assert(r[a] == tail[a - head.len()] && r[b] == tail[b - head.len()]);
            }
        }
    }
}

/// A person appears in a roster built from `order` as many times as they are
/// in `order`, times the number of times they chose the module.
pub proof fn lemma_roster_count(
    choices: Seq<Seq<ModuleId>>,
    order: Seq<PersonId>,
    m: ModuleId,
    q: PersonId,
)
    requires
        q < choices.len(),
        forall|i: int| 0 <= i < order.len() ==> #[trigger] order[i] < choices.len(),
    ensures
        roster_of(choices, order, m).to_multiset().count(q) == order.to_multiset().count(q)
            * choices[q as int].to_multiset().count(m),
    decreases order.len(),
{
    broadcast use vstd::multiset::group_multiset_axioms;
    broadcast use to_multiset_build;
    broadcast use lemma_multiset_commutative;
    broadcast use vstd::seq_lib::to_multiset_contains;

    if order.len() == 0 {
        assert(!order.contains(q));
        assert(!roster_of(choices, order, m).contains(q));
    } else {
        let init = order.drop_last();
        let p = order.last();
        lemma_roster_count(choices, init, m, q);
        lemma_occurrences(choices[p as int], m, p);
        let head = roster_of(choices, init, m);
        let tail = occurrences(choices[p as int], m, p);
        assert(roster_of(choices, order, m) == head + tail);
        assert(order =~= init.push(p));
        let c = choices[q as int].to_multiset().count(m);
        let before = init.to_multiset().count(q);
        if p == q {
            assert(order.to_multiset().count(q) == before + 1);
            assert((before + 1) * c == before * c + c) by (nonlinear_arith);
        } else {
            assert(order.to_multiset().count(q) == before);
        }
    }
}

/// Roster completeness: each module is listed once in the module order, and
/// person `q` appears in the roster of module `m` exactly as many times as
/// they chose `m`; so once when they chose it once, never when they did not.
pub proof fn lemma_roster_completeness(regs: Registrations, q: PersonId, m: ModuleId)
    requires
        regs.wf(),
        q < regs.persons.len(),
        m < regs.modules.len(),
    ensures
        regs.module_order().to_multiset().count(m) == 1,
        regs.roster(m).to_multiset().count(q) == regs.choices()[q as int].to_multiset().count(m),
        regs.choices()[q as int].no_duplicates() ==> regs.roster(m).to_multiset().count(q) == if regs.choices()[q as int].contains(m) { 1int } else { 0int },
{
    lemma_stable_order_exists(regs.start_keys());
    lemma_stable_order_no_duplicates(regs.start_keys(), regs.module_order());
    regs.module_order().lemma_multiset_has_no_duplicates();
    vstd::seq_lib::to_multiset_contains(regs.module_order(), m);

    let keys = regs.registration_keys();
    let order = regs.person_order();
    lemma_stable_order_exists(keys);
    lemma_stable_order_no_duplicates(keys, order);
    order.lemma_multiset_has_no_duplicates();
    vstd::seq_lib::to_multiset_contains(order, q);
    lemma_roster_count(regs.choices(), order, m, q);
    let c = regs.choices()[q as int];
    vstd::seq_lib::to_multiset_contains(c, m);
    if c.no_duplicates() {
        c.lemma_multiset_has_no_duplicates();
    }
}

/// Member ordering: along a roster, registration times never decrease, and
/// persons with equal times keep their input order.
pub proof fn lemma_members_in_registration_order(regs: Registrations, m: ModuleId)
    requires
        regs.wf(),
    ensures
        forall|a: int, b: int|
            #![trigger regs.roster(m)[a], regs.roster(m)[b]]
            0 <= a < b < regs.roster(m).len() ==> {
                let x = regs.roster(m)[a];
                let y = regs.roster(m)[b];
                x == y || precedes(regs.registration_keys(), x as int, y as int)
            },
{
    lemma_stable_order_exists(regs.registration_keys());
    assert(regs.choices().len() == regs.registration_keys().len());
    assert(is_stable_order(regs.registration_keys(), regs.person_order()));
    lemma_roster_in_order(regs.choices(), regs.registration_keys(), regs.person_order(), m);
}

/// Module ordering: every module is listed once, start-time keys never
/// decrease along the list, a module with an unknown start is followed only by
/// modules with an unknown start, and those keep first-seen order.
pub proof fn lemma_module_order(regs: Registrations)
    requires
        regs.wf(),
    ensures
        is_stable_order(regs.start_keys(), regs.module_order()),
        regs.module_order().no_duplicates(),
        forall|i: int, j: int|
            #![trigger regs.module_order()[i], regs.module_order()[j]]
            0 <= i < j < regs.module_order().len() ==> {
                let a = regs.modules@[regs.module_order()[i] as int].start_time;
                let b = regs.modules@[regs.module_order()[j] as int].start_time;
                &&& a.key() <= b.key()
                &&& a == ModuleStart::Unscheduled ==> b == ModuleStart::Unscheduled
                    && regs.module_order()[i] < regs.module_order()[j]
            },
{
    let order = regs.module_order();
    lemma_stable_order_exists(regs.start_keys());
    lemma_stable_order_no_duplicates(regs.start_keys(), order);
    assert forall|k: int| 0 <= k < regs.modules.len() implies regs.start_keys()[k] as int
        == (#[trigger] regs.modules@[k]).start_time.key() by {
        match regs.modules@[k].start_time {
            ModuleStart::Scheduled(t) => lemma_scheduled_before_unscheduled(t),
            ModuleStart::Unscheduled => {},
        }
    }
    assert forall|i: int, j: int|
        #![trigger order[i], order[j]]
        0 <= i < j < order.len() implies {
            let a = regs.modules@[order[i] as int].start_time;
            let b = regs.modules@[order[j] as int].start_time;
            &&& a.key() <= b.key()
            &&& a == ModuleStart::Unscheduled ==> b == ModuleStart::Unscheduled && order[i] < order[j]
        } by {
        assert(order[i] < regs.modules.len() && order[j] < regs.modules.len());
        assert(precedes(regs.start_keys(), order[i] as int, order[j] as int));
        let b = regs.modules@[order[j] as int].start_time;
        match b {
            ModuleStart::Scheduled(t) => lemma_scheduled_before_unscheduled(t),
            ModuleStart::Unscheduled => {},
        }
    }
}

/// Fallback safety: groups that read as numbers but name no real date or
/// time of day give the sentinel start, never a failure.
pub proof fn lemma_impossible_date_is_unscheduled(groups: Seq<Seq<char>>, year: i32)
    requires
        groups.len() == 4,
        small_number_of(groups[0]) is Some,
        small_number_of(groups[1]) is Some,
        small_number_of(groups[2]) is Some,
        small_number_of(groups[3]) is Some,
        !is_calendar_date(year as int, small_number_of(groups[1])->0 as int, small_number_of(groups[0])->0 as int)
            || small_number_of(groups[2])->0 >= 24 || small_number_of(groups[3])->0 >= 60,
    ensures
        start_of_groups(Some(groups), year) == ModuleStart::Unscheduled,
{
}

/// Determinism: any two digestions of the same rows give the same report.
pub proof fn lemma_same_rows_same_report(rows: Seq<RawRecord>, year: i32, a: Registrations, b: Registrations)
    requires
        a.digests(rows, year),
        b.digests(rows, year),
    ensures
        a.report() == b.report(),
{
    assert(module_names(a.modules@) == module_names(b.modules@));
    assert(a.modules.len() == b.modules.len()) by {
        assert(module_names(a.modules@).len() == module_names(b.modules@).len());
    }
    assert(a.identities() =~= b.identities());
    assert(a.registration_keys() =~= b.registration_keys());
    assert forall|k: int| 0 <= k < a.modules.len() implies a.start_keys()[k] == b.start_keys()[k] by {
        assert(module_names(a.modules@)[k] == module_names(b.modules@)[k]);
        assert(a.modules@[k].start_time == b.modules@[k].start_time);
    }
    assert(a.start_keys() =~= b.start_keys());
    assert forall|p: int| 0 <= p < a.persons.len() implies a.choices()[p] == b.choices()[p] by {
        let ca = a.persons@[p].choice_of_modules@;
        let cb = b.persons@[p].choice_of_modules@;
        assert(ca.len() == row_titles(rows[p]).len());
        assert(cb.len() == row_titles(rows[p]).len());
        assert forall|j: int| 0 <= j < ca.len() implies ca[j] == cb[j] by {
            assert(ca[j] < a.modules.len());
            assert(cb[j] < b.modules.len());
            assert(a.modules@[ca[j] as int].name@ == row_titles(rows[p])[j]);
            assert(b.modules@[cb[j] as int].name@ == row_titles(rows[p])[j]);
            assert(module_names(a.modules@)[ca[j] as int] == module_names(b.modules@)[cb[j] as int]);
            assert(module_names(a.modules@)[cb[j] as int] == module_names(b.modules@)[cb[j] as int]);
        }
        assert(ca =~= cb);
    }
    assert(a.choices() =~= b.choices());
    assert(a.all_rosters() =~= b.all_rosters());
}

} // verus!
