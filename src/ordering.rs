//! Orders persons by registration time and modules by start time, and builds
//! each module's roster.

use vstd::prelude::*;
use crate::registrations::{ModuleId, PersonId, Registrations};

verus! {

/// Index `a` comes before index `b`: a smaller key, or an equal key and a smaller index.
pub open spec fn precedes(keys: Seq<i128>, a: int, b: int) -> bool {
    keys[a] < keys[b] || (keys[a] == keys[b] && a < b)
}

/// `order` lists every index of `keys` once, by key, ties by index.
pub open spec fn is_stable_order(keys: Seq<i128>, order: Seq<usize>) -> bool {
    &&& order.len() == keys.len()
    &&& forall|i: int| 0 <= i < order.len() ==> #[trigger] order[i] < keys.len()
    &&& forall|i: int, j: int|
        #![trigger order[i], order[j]]
        0 <= i < j < order.len() ==> precedes(keys, order[i] as int, order[j] as int)
    &&& forall|k: usize| k < keys.len() ==> #[trigger] order.contains(k)
}

/// Indices of `keys` sorted by key, equal keys kept in index order.
pub fn stable_order(keys: &Vec<i128>) -> (r: Vec<usize>)
    ensures
        is_stable_order(keys@, r@),
        r@.no_duplicates(),
{
    let n = keys.len();
    let mut order: Vec<usize> = Vec::new();
    let mut i: usize = 0;
    while i < n
        invariant
            n == keys.len(),
            i <= n,
            order.len() == i,
            forall|a: int| 0 <= a < order.len() ==> #[trigger] order@[a] < i,
            forall|a: int, b: int|
                #![trigger order@[a], order@[b]]
                0 <= a < b < order.len() ==> precedes(keys@, order@[a] as int, order@[b] as int),
            forall|k: usize| k < i ==> #[trigger] order@.contains(k),
        decreases n - i,
    {
        let mut q: usize = 0;
        while q < order.len() && keys[order[q]] <= keys[i]
            invariant
                n == keys.len(),
                i < n,
                q <= order.len(),
                forall|a: int| 0 <= a < order.len() ==> #[trigger] order@[a] < i,
                forall|a: int| 0 <= a < q ==> keys@[#[trigger] order@[a] as int] <= keys@[i as int],
            decreases order.len() - q,
        {
            q = q + 1;
        }
        let ghost before = order@;
        proof {
            assert forall|b: int| q <= b < before.len() implies keys@[i as int] < keys@[#[trigger] before[b] as int] by {
                if q < b {
                    assert(precedes(keys@, before[q as int] as int, before[b] as int));
                }
            }
        }
        order.insert(q, i);
        assert(order@ == before.insert(q as int, i));
        assert forall|a: int, b: int|
            0 <= a < b < order.len() implies precedes(keys@, order@[a] as int, order@[b] as int) by {
            if b < q {
                assert(order@[a] == before[a] && order@[b] == before[b]);
            } else if b == q {
                assert(order@[a] == before[a]);
            } else if a < q {
                assert(order@[a] == before[a] && order@[b] == before[b - 1]);
            } else if a == q {
                assert(order@[b] == before[b - 1]);
            } else {
                assert(order@[a] == before[a - 1] && order@[b] == before[b - 1]);
            }
        }
        assert forall|k: usize| k < i + 1 implies #[trigger] order@.contains(k) by {
            if k < i {
                assert(before.contains(k));
                let a = choose|a: int| 0 <= a < before.len() && before[a] == k;
                if a < q {
                    assert(order@[a] == k);
                } else {
                    assert(order@[a + 1] == k);
                }
            } else {
                assert(order@[q as int] == i);
            }
        }
        assert forall|a: int| 0 <= a < order.len() implies #[trigger] order@[a] < i + 1 by {
            if a < q {
                assert(order@[a] == before[a]);
            } else if a > q {
                assert(order@[a] == before[a - 1]);
            }
        }
        i = i + 1;
    }
    assert forall|a: int, b: int| 0 <= a < order.len() && 0 <= b < order.len() && a != b
        implies order@[a] != order@[b] by {
        if a < b {
            assert(precedes(keys@, order@[a] as int, order@[b] as int));
        } else {
            assert(precedes(keys@, order@[b] as int, order@[a] as int));
        }
    }
    order
}

/// The one stable order of `keys`.
pub open spec fn stable_order_of(keys: Seq<i128>) -> Seq<usize> {
    choose|o: Seq<usize>| is_stable_order(keys, o)
}

/// `o` lists the indices below `n` once each, in stable order of `keys`.
pub open spec fn is_stable_prefix_order(keys: Seq<i128>, o: Seq<usize>, n: nat) -> bool {
    &&& o.len() == n
    &&& forall|a: int| 0 <= a < o.len() ==> #[trigger] o[a] < n
    &&& forall|a: int, b: int|
        #![trigger o[a], o[b]]
        0 <= a < b < o.len() ==> precedes(keys, o[a] as int, o[b] as int)
    &&& forall|k: usize| k < n ==> #[trigger] o.contains(k)
}

proof fn insertion_point(keys: Seq<i128>, o: Seq<usize>, key: i128, q: int) -> (r: int)
    requires
        0 <= q <= o.len(),
        forall|a: int| 0 <= a < o.len() ==> #[trigger] o[a] < keys.len(),
        forall|a: int| 0 <= a < q ==> keys[#[trigger] o[a] as int] <= key,
    ensures
        q <= r <= o.len(),
        forall|a: int| 0 <= a < r ==> keys[#[trigger] o[a] as int] <= key,
        r < o.len() ==> keys[o[r] as int] > key,
    decreases o.len() - q,
{
    if q < o.len() && keys[o[q] as int] <= key {
        insertion_point(keys, o, key, q + 1)
    } else {
        q
    }
}

/// Every prefix of indices has a stable order.
pub proof fn lemma_stable_prefix_order_exists(keys: Seq<i128>, n: nat)
    requires
        n <= keys.len() <= usize::MAX,
    ensures
        exists|o: Seq<usize>| #[trigger] is_stable_prefix_order(keys, o, n),
    decreases n,
{
    if n == 0 {
        assert(is_stable_prefix_order(keys, Seq::<usize>::empty(), 0));
    } else {
        let i = (n - 1) as usize;
        lemma_stable_prefix_order_exists(keys, (n - 1) as nat);
        let before = choose|o: Seq<usize>| #[trigger] is_stable_prefix_order(keys, o, (n - 1) as nat);
        let q = insertion_point(keys, before, keys[i as int], 0);
        assert forall|b: int| q <= b < before.len() implies keys[i as int] < keys[#[trigger] before[b] as int] by {
            if q < b {
                assert(precedes(keys, before[q] as int, before[b] as int));
            }
        }
        let o = before.insert(q, i);
        assert forall|a: int, b: int|
            #![trigger o[a], o[b]]
            0 <= a < b < o.len() implies precedes(keys, o[a] as int, o[b] as int) by {
            if b < q {
                assert(o[a] == before[a] && o[b] == before[b]);
            } else if b == q {
                assert(o[a] == before[a]);
            } else if a < q {
                assert(o[a] == before[a] && o[b] == before[b - 1]);
            } else if a == q {
                assert(o[b] == before[b - 1]);
            } else {
                assert(o[a] == before[a - 1] && o[b] == before[b - 1]);
            }
        }
        assert forall|k: usize| k < n implies #[trigger] o.contains(k) by {
            if k < i {
                assert(before.contains(k));
                let a = choose|a: int| 0 <= a < before.len() && before[a] == k;
                if a < q {
                    assert(o[a] == k);
                } else {
                    assert(o[a + 1] == k);
                }
            } else {
                assert(o[q] == i);
            }
        }
        assert forall|a: int| 0 <= a < o.len() implies #[trigger] o[a] < n by {
            if a < q {
                assert(o[a] == before[a]);
            } else if a > q {
                assert(o[a] == before[a - 1]);
            }
        }
        assert(is_stable_prefix_order(keys, o, n));
    }
}

/// The chosen stable order of `keys` is one.
pub proof fn lemma_stable_order_exists(keys: Seq<i128>)
    requires
        keys.len() <= usize::MAX,
    ensures
        is_stable_order(keys, stable_order_of(keys)),
{
    lemma_stable_prefix_order_exists(keys, keys.len());
    let o = choose|o: Seq<usize>| #[trigger] is_stable_prefix_order(keys, o, keys.len());
    assert(is_stable_order(keys, o));
}

/// A stable order of `keys` is the one stable order of `keys`.
pub proof fn lemma_stable_order_of(keys: Seq<i128>, o: Seq<usize>)
    requires
        is_stable_order(keys, o),
    ensures
        stable_order_of(keys) == o,
        is_stable_order(keys, stable_order_of(keys)),
{
    lemma_stable_order_unique(keys, o, stable_order_of(keys));
}

/// Two stable orders of the same keys are the same sequence.
pub proof fn lemma_stable_order_unique(keys: Seq<i128>, o1: Seq<usize>, o2: Seq<usize>)
    requires
        is_stable_order(keys, o1),
        is_stable_order(keys, o2),
    ensures
        o1 == o2,
{
    assert(o1.len() == o2.len());
    assert forall|i: int| 0 <= i < o1.len() implies o1[i] == o2[i] by {
        lemma_stable_order_agrees_at(keys, o1, o2, i);
    }
    assert(o1 =~= o2);
}

proof fn lemma_stable_order_agrees_at(keys: Seq<i128>, o1: Seq<usize>, o2: Seq<usize>, i: int)
    requires
        is_stable_order(keys, o1),
        is_stable_order(keys, o2),
        0 <= i < o1.len(),
    ensures
        forall|k: int| 0 <= k <= i ==> o1[k] == o2[k],
    decreases i,
{
    if i > 0 {
        lemma_stable_order_agrees_at(keys, o1, o2, i - 1);
    }
    if o1[i] != o2[i] {
        let x = o1[i];
        let y = o2[i];
        assert(o1[i] < keys.len());
        assert(o2[i] < keys.len());
        assert(o2.contains(x));
        assert(o1.contains(y));
        let jx = choose|j: int| 0 <= j < o2.len() && o2[j] == x;
        let jy = choose|j: int| 0 <= j < o1.len() && o1[j] == y;
        if jx < i {
            lemma_stable_order_agrees_below(keys, o1, o2, i, jx);
            assert(precedes(keys, o1[jx] as int, o1[i] as int));
        } else if jy < i {
            lemma_stable_order_agrees_below(keys, o1, o2, i, jy);
            assert(precedes(keys, o2[jy] as int, o2[i] as int));
        } else {
            assert(precedes(keys, o2[i] as int, o2[jx] as int));
            assert(precedes(keys, o1[i] as int, o1[jy] as int));
        }
    }
}

proof fn lemma_stable_order_agrees_below(keys: Seq<i128>, o1: Seq<usize>, o2: Seq<usize>, i: int, j: int)
    requires
        is_stable_order(keys, o1),
        is_stable_order(keys, o2),
        0 <= j < i < o1.len(),
        forall|k: int| 0 <= k < i ==> o1[k] == o2[k],
    ensures
        o1[j] == o2[j],
{
}

/// `p`, once for each time `m` occurs in `choices`.
pub open spec fn occurrences(choices: Seq<ModuleId>, m: ModuleId, p: PersonId) -> Seq<PersonId>
    decreases choices.len(),
{
    if choices.len() == 0 {
        Seq::empty()
    } else {
        occurrences(choices.drop_last(), m, p) + if choices.last() == m {
            seq![p]
        } else {
            Seq::empty()
        }
    }
}

/// The roster of module `m` when persons are taken in `order`: each person,
/// once per time they chose `m`.
pub open spec fn roster_of(choices: Seq<Seq<ModuleId>>, order: Seq<PersonId>, m: ModuleId) -> Seq<
    PersonId,
>
    decreases order.len(),
{
    if order.len() == 0 {
        Seq::empty()
    } else {
        roster_of(choices, order.drop_last(), m) + occurrences(choices[order.last() as int], m, order.last())
    }
}

impl Registrations {
    /// The module choices of each person.
    pub open spec fn choices(&self) -> Seq<Seq<ModuleId>> {
        self.persons@.map_values(|p: crate::registrations::Person| p.choice_of_modules@)
    }

    /// Registration times, one per person.
    pub open spec fn registration_keys(&self) -> Seq<i128> {
        self.persons@.map_values(|p: crate::registrations::Person| p.registration_time)
    }

    /// Start-time keys, one per module.
    pub open spec fn start_keys(&self) -> Seq<i128> {
        self.modules@.map_values(|m: crate::registrations::Module| m.start_time.key() as i128)
    }

    /// Persons by registration time, ties in input order.
    pub fn persons_by_registration_time(&self) -> (r: Vec<PersonId>)
        ensures
            is_stable_order(self.registration_keys(), r@),
            r@.no_duplicates(),
    {
        let mut keys: Vec<i128> = Vec::new();
        let mut i: usize = 0;
        while i < self.persons.len()
            invariant
                i <= self.persons.len(),
                keys@ == self.registration_keys().subrange(0, i as int),
            decreases self.persons.len() - i,
        {
            keys.push(self.persons[i].registration_time);
            i = i + 1;
            assert(keys@ =~= self.registration_keys().subrange(0, i as int));
        }
        assert(keys@ =~= self.registration_keys());
        stable_order(&keys)
    }

    /// Modules by start time, unknown start times last, ties in first-seen order.
    pub fn modules_by_start_time(&self) -> (r: Vec<ModuleId>)
        requires
            self.wf(),
        ensures
            is_stable_order(self.start_keys(), r@),
            r@.no_duplicates(),
    {
        let mut keys: Vec<i128> = Vec::new();
        let mut i: usize = 0;
        while i < self.modules.len()
            invariant
                self.wf(),
                i <= self.modules.len(),
                keys@ == self.start_keys().subrange(0, i as int),
            decreases self.modules.len() - i,
        {
            assert(self.modules@[i as int].start_time.wf());
            let k = self.modules[i].start_time.sort_key();
            keys.push(k as i128);
            i = i + 1;
            assert(keys@ =~= self.start_keys().subrange(0, i as int));
        }
        assert(keys@ =~= self.start_keys());
        stable_order(&keys)
    }

    /// For each module, the persons who chose it, taken in `order`.
    pub fn rosters(&self, order: &Vec<PersonId>) -> (r: Vec<Vec<PersonId>>)
        requires
            self.wf(),
            forall|i: int| 0 <= i < order.len() ==> #[trigger] order@[i] < self.persons.len(),
        ensures
            r.len() == self.modules.len(),
            forall|m: int| 0 <= m < r.len()
                ==> (#[trigger] r@[m])@ == roster_of(self.choices(), order@, m as ModuleId),
    {
        let mut result: Vec<Vec<PersonId>> = Vec::new();
        let mut m: usize = 0;
        while m < self.modules.len()
            invariant
                m <= self.modules.len(),
                result.len() == m,
                forall|k: int| 0 <= k < m ==> (#[trigger] result@[k])@ == Seq::<PersonId>::empty(),
            decreases self.modules.len() - m,
        {
            result.push(Vec::new());
            m = m + 1;
        }
        let mut i: usize = 0;
        while i < order.len()
            invariant
                self.wf(),
                forall|a: int| 0 <= a < order.len() ==> #[trigger] order@[a] < self.persons.len(),
                i <= order.len(),
                result.len() == self.modules.len(),
                forall|k: int| 0 <= k < result.len()
                    ==> (#[trigger] result@[k])@ == roster_of(self.choices(), order@.subrange(0, i as int), k as ModuleId),
            decreases order.len() - i,
        {
            let p = order[i];
            let choices = &self.persons[p].choice_of_modules;
            let ghost prefix = order@.subrange(0, i as int);
            let mut j: usize = 0;
            while j < choices.len()
                invariant
                    self.wf(),
                    p < self.persons.len(),
                    *choices == self.persons@[p as int].choice_of_modules,
                    j <= choices.len(),
                    result.len() == self.modules.len(),
                    forall|k: int| 0 <= k < result.len()
                        ==> (#[trigger] result@[k])@ == roster_of(self.choices(), prefix, k as ModuleId)
                            + occurrences(choices@.subrange(0, j as int), k as ModuleId, p),
                decreases choices.len() - j,
            {
                let mm = choices[j];
                assert(mm < self.modules.len());
                let ghost old_result = result@;
                let mut members: Vec<PersonId> = Vec::new();
                result.set_and_swap(mm, &mut members);
                members.push(p);
                result.set_and_swap(mm, &mut members);
                assert(choices@.subrange(0, j as int + 1).drop_last() =~= choices@.subrange(0, j as int));
                assert forall|k: int| 0 <= k < result.len() implies (#[trigger] result@[k])@
                    == roster_of(self.choices(), prefix, k as ModuleId)
                        + occurrences(choices@.subrange(0, j as int + 1), k as ModuleId, p) by {
                    if k != mm {
                        assert(result@[k] == old_result[k]);
                        assert(occurrences(choices@.subrange(0, j as int + 1), k as ModuleId, p)
                            =~= occurrences(choices@.subrange(0, j as int), k as ModuleId, p));
                    } else {
                        assert(result@[k]@ =~= old_result[k]@.push(p));
                    }
                }
                j = j + 1;
            }
            assert(choices@.subrange(0, j as int) =~= choices@);
            assert(order@.subrange(0, i as int + 1).drop_last() =~= prefix);
            assert(self.choices()[p as int] == choices@);
            i = i + 1;
        }
        assert(order@.subrange(0, i as int) =~= order@);
        result
    }
}

} // verus!
