//! Counters by name, in the order of the names.

use crate::clock::{clock_leq, component, merged};
use crate::text::{text_lt, text_lt_irreflexive, text_lt_transitive, text_order, Order};
use vstd::prelude::*;
use vstd::std_specs::cmp::PartialEqSpec;

verus! {

/// A map from names to counters, walked in the order of the names. This is the form in which
/// a clock stands in the log.
#[derive(Debug)]
pub struct ClockMap {
    entries: Vec<(String, u64)>,
}

spec fn has_entry(entries: Seq<(String, u64)>, k: Seq<char>) -> bool {
    exists|i: int| 0 <= i < entries.len() && (#[trigger] entries[i]).0@ == k
}

spec fn slot(entries: Seq<(String, u64)>, k: Seq<char>) -> int {
    choose|i: int| 0 <= i < entries.len() && (#[trigger] entries[i]).0@ == k
}

spec fn ascending(entries: Seq<(String, u64)>) -> bool {
    forall|i: int, j: int|
        0 <= i < j < entries.len() ==> text_lt((#[trigger] entries[i]).0@, (#[trigger] entries[j]).0@)
}

spec fn entries_map(entries: Seq<(String, u64)>) -> Map<Seq<char>, u64> {
    Map::new(|k: Seq<char>| has_entry(entries, k), |k: Seq<char>| entries[slot(entries, k)].1)
}

proof fn lemma_slot(entries: Seq<(String, u64)>, i: int)
    requires
        ascending(entries),
        0 <= i < entries.len(),
    ensures
        entries_map(entries).contains_key(entries[i].0@),
        entries_map(entries)[entries[i].0@] == entries[i].1,
{
    let k = entries[i].0@;
    assert(has_entry(entries, k));
    let j = slot(entries, k);
    assert(0 <= j < entries.len() && entries[j].0@ == k);
    text_lt_irreflexive(k);
}

impl View for ClockMap {
    type V = Map<Seq<char>, u64>;

    closed spec fn view(&self) -> Map<Seq<char>, u64> {
        entries_map(self.entries@)
    }
}

impl ClockMap {
    #[verifier::type_invariant]
    spec fn inv(self) -> bool {
        ascending(self.entries@)
    }

    /// The names in the map, in ascending order.
    pub closed spec fn names(&self) -> Seq<Seq<char>> {
        Seq::new(self.entries@.len(), |i: int| self.entries@[i].0@)
    }

    /// A map without entries.
    pub fn new() -> (r: Self)
        ensures
            r@ == Map::<Seq<char>, u64>::empty(),
            r.names().len() == 0,
    {
        let r = ClockMap { entries: Vec::new() };
        assert(r@ =~= Map::<Seq<char>, u64>::empty());
        r
    }

    /// The number of entries.
    pub fn len(&self) -> (r: usize)
        ensures
            r == self.names().len(),
    {
        self.entries.len()
    }

    /// The name at position `i` of the ascending order.
    pub fn name_at(&self, i: usize) -> (r: &str)
        requires
            i < self.names().len(),
        ensures
            r@ == self.names()[i as int],
            self@.contains_key(r@),
            forall|j: int| 0 <= j < i ==> text_lt(#[trigger] self.names()[j], r@),
    {
        proof {
            use_type_invariant(self);
            lemma_slot(self.entries@, i as int);
        }
        self.entries[i].0.as_str()
    }

    /// The counter at position `i` of the ascending order.
    pub fn value_at(&self, i: usize) -> (r: u64)
        requires
            i < self.names().len(),
        ensures
            r == self@[self.names()[i as int]],
    {
        proof {
            use_type_invariant(self);
            lemma_slot(self.entries@, i as int);
        }
        self.entries[i].1
    }

    /// Every name has its place in the order, and nothing else has.
    pub proof fn names_are_keys(&self, k: Seq<char>)
        ensures
            self.names().contains(k) <==> self@.contains_key(k),
    {
        if self@.contains_key(k) {
            let i = choose|i: int| 0 <= i < self.entries@.len() && (#[trigger] self.entries@[i]).0@ == k;
            assert(self.names()[i] == k);
        }
        if self.names().contains(k) {
            let i = choose|i: int| 0 <= i < self.names().len() && self.names()[i] == k;
            assert(self.entries@[i].0@ == k);
        }
    }

    /// Where `k` stands, or where it would have to be put.
    fn find(&self, k: &str) -> (r: (bool, usize))
        ensures
            r.1 <= self.entries@.len(),
            r.0 ==> r.1 < self.entries@.len() && self.entries@[r.1 as int].0@ == k@,
            !r.0 ==> {
                &&& forall|i: int| 0 <= i < r.1 ==> text_lt((#[trigger] self.entries@[i]).0@, k@)
                &&& forall|i: int|
                    r.1 <= i < self.entries@.len() ==> text_lt(k@, (#[trigger] self.entries@[i]).0@)
            },
    {
        proof {
            use_type_invariant(self);
        }
        let mut lo: usize = 0;
        let mut hi: usize = self.entries.len();
        while lo < hi
            invariant
                ascending(self.entries@),
                lo <= hi <= self.entries@.len(),
                forall|i: int| 0 <= i < lo ==> text_lt((#[trigger] self.entries@[i]).0@, k@),
                forall|i: int|
                    hi <= i < self.entries@.len() ==> text_lt(k@, (#[trigger] self.entries@[i]).0@),
            decreases hi - lo,
        {
            let mid: usize = lo + (hi - lo) / 2;
            match text_order(self.entries[mid].0.as_str(), k) {
                Order::Equal => {
                    return (true, mid);
                },
                Order::Less => {
                    assert forall|i: int| 0 <= i < mid + 1 implies text_lt(
                        (#[trigger] self.entries@[i]).0@,
                        k@,
                    ) by {
                        if i < mid {
                            text_lt_transitive(
                                self.entries@[i].0@,
                                self.entries@[mid as int].0@,
                                k@,
                            );
                        }
                    }
                    lo = mid + 1;
                },
                Order::Greater => {
                    assert forall|i: int| mid <= i < self.entries@.len() implies text_lt(
                        k@,
                        (#[trigger] self.entries@[i]).0@,
                    ) by {
                        if i > mid {
                            text_lt_transitive(
                                k@,
                                self.entries@[mid as int].0@,
                                self.entries@[i].0@,
                            );
                        }
                    }
                    hi = mid;
                },
            }
        }
        (false, lo)
    }

    /// The counter of `k`, if it has one.
    pub fn get(&self, k: &str) -> (r: Option<&u64>)
        ensures
            r is Some <==> self@.contains_key(k@),
            r matches Some(v) ==> *v == self@[k@],
    {
        proof {
            use_type_invariant(self);
        }
        let (found, at) = self.find(k);
        if found {
            proof {
                lemma_slot(self.entries@, at as int);
            }
            Some(&self.entries[at].1)
        } else {
            proof {
                text_lt_irreflexive(k@);
            }
            None
        }
    }

    /// The counter of `k`; a missing one counts as zero.
    pub fn component(&self, k: &str) -> (r: u64)
        ensures
            r == component(self@, k@),
    {
        match self.get(k) {
            Some(v) => *v,
            None => 0,
        }
    }

    /// Give `k` the counter `v`, in place of the one it had.
    pub fn insert(&mut self, k: String, v: u64) -> (r: Option<u64>)
        ensures
            final(self)@ == old(self)@.insert(k@, v),
            r is Some <==> old(self)@.contains_key(k@),
            r matches Some(u) ==> u == old(self)@[k@],
    {
        proof {
            use_type_invariant(&*self);
        }
        let ghost before = self.entries@;
        let (found, at) = self.find(k.as_str());
        let mut entries: Vec<(String, u64)> = Vec::new();
        std::mem::swap(&mut entries, &mut self.entries);
        let ghost key = k@;
        let r = if found {
            proof {
                lemma_slot(before, at as int);
            }
            let prior = entries[at].1;
            entries[at].1 = v;
            assert(entries@ =~= before.update(at as int, (before[at as int].0, v)));
            Some(prior)
        } else {
            proof {
                text_lt_irreflexive(key);
                assert(!has_entry(before, key));
            }
            entries.insert(at, (k, v));
            None
        };
        proof {
            let after = entries@;
            assert(ascending(after)) by {
                assert forall|i: int, j: int| 0 <= i < j < after.len() implies text_lt(
                    (#[trigger] after[i]).0@,
                    (#[trigger] after[j]).0@,
                ) by {
                    if found {
                        assert(after[i].0 == before[i].0);
                        assert(after[j].0 == before[j].0);
                    } else {
                        if i < at {
                            assert(after[i] == before[i]);
                        } else if i > at {
                            assert(after[i] == before[i - 1]);
                        }
                        if j < at {
                            assert(after[j] == before[j]);
                        } else if j > at {
                            assert(after[j] == before[j - 1]);
                        }
                    }
                }
            }
            assert(entries_map(after) =~= entries_map(before).insert(key, v)) by {
                lemma_slot(after, at as int);
                assert forall|q: Seq<char>| has_entry(after, q) <==> has_entry(before, q) || q
                    == key by {
                    if has_entry(before, q) {
                        let i = slot(before, q);
                        if found || i < at {
                            assert(after[i].0@ == q);
                        } else {
                            assert(after[i + 1].0@ == q);
                        }
                    }
                    if has_entry(after, q) {
                        let i = slot(after, q);
                        if found || i < at {
                            if i != at {
                                assert(before[i].0@ == q);
                            }
                        } else if i > at {
                            assert(before[i - 1].0@ == q);
                        }
                    }
                    assert(after[at as int].0@ == key);
                }
                assert forall|q: Seq<char>| has_entry(before, q) && q != key implies
                    entries_map(after)[q] == entries_map(before)[q] by {
                    let i = slot(before, q);
                    lemma_slot(before, i);
                    if found || i < at {
                        assert(after[i] == before[i]);
                        lemma_slot(after, i);
                    } else {
                        assert(after[i + 1] == before[i]);
                        lemma_slot(after, i + 1);
                    }
                }
            }
        }
        self.entries = entries;
        r
    }

    /// Whether every counter is at most the other map's.
    pub fn below(&self, other: &ClockMap) -> (r: bool)
        ensures
            r == clock_leq(self@, other@),
    {
        proof {
            use_type_invariant(self);
        }
        let mut i: usize = 0;
        while i < self.entries.len()
            invariant
                ascending(self.entries@),
                i <= self.entries@.len(),
                forall|j: int|
                    0 <= j < i ==> (#[trigger] self.entries@[j]).1 <= component(
                        other@,
                        self.entries@[j].0@,
                    ),
            decreases self.entries@.len() - i,
        {
            let there: u64 = other.component(self.entries[i].0.as_str());
            if self.entries[i].1 > there {
                proof {
                    lemma_slot(self.entries@, i as int);
                    assert(component(self@, self.entries@[i as int].0@) > component(
                        other@,
                        self.entries@[i as int].0@,
                    ));
                }
                return false;
            }
            i = i + 1;
        }
        assert forall|k: Seq<char>| #[trigger] component(self@, k) <= component(other@, k) by {
            if self@.contains_key(k) {
                let j = slot(self.entries@, k);
                assert(has_entry(self.entries@, k));
                assert(self.entries@[j].0@ == k);
            }
        }
        true
    }

    /// Whether every entry stands in the other map too, with the same counter.
    fn within(&self, other: &ClockMap) -> (r: bool)
        ensures
            r <==> forall|k: Seq<char>| #[trigger]
                self@.contains_key(k) ==> other@.contains_key(k) && other@[k] == self@[k],
    {
        proof {
            use_type_invariant(self);
        }
        let mut i: usize = 0;
        while i < self.entries.len()
            invariant
                ascending(self.entries@),
                i <= self.entries@.len(),
                forall|j: int|
                    0 <= j < i ==> other@.contains_key((#[trigger] self.entries@[j]).0@)
                        && other@[self.entries@[j].0@] == self.entries@[j].1,
            decreases self.entries@.len() - i,
        {
            proof {
                lemma_slot(self.entries@, i as int);
                assert(self@.contains_key(self.entries@[i as int].0@));
            }
            match other.get(self.entries[i].0.as_str()) {
                Some(v) => {
                    if *v != self.entries[i].1 {
                        return false;
                    }
                },
                None => {
                    return false;
                },
            }
            i = i + 1;
        }
        assert forall|k: Seq<char>| #[trigger] self@.contains_key(k) implies other@.contains_key(k)
            && other@[k] == self@[k] by {
            let j = slot(self.entries@, k);
            assert(has_entry(self.entries@, k));
            assert(self.entries@[j].0@ == k);
            lemma_slot(self.entries@, j);
        }
        true
    }

    /// Raise every counter to at least the other map's.
    pub fn raise_to(&mut self, other: &ClockMap)
        ensures
            final(self)@ == merged(old(self)@, other@),
    {
        proof {
            use_type_invariant(other);
        }
        let ghost start = self@;
        let mut i: usize = 0;
        while i < other.entries.len()
            invariant
                ascending(other.entries@),
                i <= other.entries@.len(),
                self@ == merged(start, entries_map(other.entries@.take(i as int))),
                start == old(self)@,
            decreases other.entries@.len() - i,
        {
            let ghost part = other.entries@.take(i as int);
            let ghost more = other.entries@.take(i + 1);
            let ghost key = other.entries@[i as int].0@;
            let v: u64 = other.entries[i].1;
            let mine: u64 = self.component(other.entries[i].0.as_str());
            proof {
                assert(ascending(part));
                assert(ascending(more));
                text_lt_irreflexive(key);
                assert(!has_entry(part, key)) by {
                    if has_entry(part, key) {
                        let j = slot(part, key);
                        assert(part[j] == other.entries@[j]);
                        assert(text_lt(other.entries@[j].0@, other.entries@[i as int].0@));
                    }
                }
                assert(more[i as int].0@ == key);
                lemma_slot(more, i as int);
                assert forall|q: Seq<char>| q != key implies (has_entry(more, q) <==> has_entry(
                    part,
                    q,
                )) && component(entries_map(more), q) == component(entries_map(part), q) by {
                    if has_entry(part, q) {
                        let j = slot(part, q);
                        assert(part[j].0@ == q);
                        assert(more[j] == part[j]);
                        lemma_slot(part, j);
                        lemma_slot(more, j);
                    }
                    if has_entry(more, q) {
                        let j = slot(more, q);
                        assert(more[j].0@ == q);
                        assert(part[j] == more[j]);
                    }
                }
            }
            self.insert(
                other.entries[i].0.clone(),
                if mine < v {
                    v
                } else {
                    mine
                },
            );
            assert(self@ =~= merged(start, entries_map(more)));
            i = i + 1;
        }
        assert(other.entries@.take(i as int) =~= other.entries@);
    }
}

impl Clone for ClockMap {
    fn clone(&self) -> (r: Self)
        ensures
            r@ == self@,
            r.names() == self.names(),
    {
        proof {
            use_type_invariant(self);
        }
        let mut entries: Vec<(String, u64)> = Vec::new();
        let mut i: usize = 0;
        while i < self.entries.len()
            invariant
                ascending(self.entries@),
                i <= self.entries@.len(),
                entries@ == self.entries@.take(i as int),
            decreases self.entries@.len() - i,
        {
            entries.push((self.entries[i].0.clone(), self.entries[i].1));
            assert(entries@ =~= self.entries@.take(i + 1));
            i = i + 1;
        }
        assert(entries@ =~= self.entries@);
        ClockMap { entries }
    }
}

impl PartialEq for ClockMap {
    fn eq(&self, other: &Self) -> (r: bool) {
        let r = self.within(other) && other.within(self);
        assert(r ==> self@ =~= other@);
        r
    }
}

impl vstd::std_specs::cmp::PartialEqSpecImpl for ClockMap {
    open spec fn obeys_eq_spec() -> bool {
        true
    }

    open spec fn eq_spec(&self, other: &Self) -> bool {
        self@ == other@
    }
}

/// Two maps are equal when they have the same entries.
pub proof fn equal_maps_have_the_same_entries(a: ClockMap, b: ClockMap)
    ensures
        a.eq_spec(&b) <==> a@ == b@,
{
}

} // verus!
