//! Vector clocks and Lamport stamps: the exact happens-before embedding.

use crate::clock_map::ClockMap;
use crate::text::{text_order, Order};
use std::sync::Arc;
use vstd::prelude::*;
use vstd::std_specs::cmp::{PartialEqSpec, PartialOrdSpec};

verus! {

/// The component of `actor`; a missing component counts as zero.
pub open spec fn component(m: Map<Seq<char>, u64>, actor: Seq<char>) -> u64 {
    if m.contains_key(actor) {
        m[actor]
    } else {
        0
    }
}

/// `a` is at most `b` in every component.
pub open spec fn clock_leq(a: Map<Seq<char>, u64>, b: Map<Seq<char>, u64>) -> bool {
    forall|k: Seq<char>| #[trigger] component(a, k) <= component(b, k)
}

/// Strict product order: `a` is at most `b` everywhere and smaller somewhere.
pub open spec fn clock_lt(a: Map<Seq<char>, u64>, b: Map<Seq<char>, u64>) -> bool {
    clock_leq(a, b) && !clock_leq(b, a)
}

/// The two clocks agree in every component.
pub open spec fn clock_same(a: Map<Seq<char>, u64>, b: Map<Seq<char>, u64>) -> bool {
    forall|k: Seq<char>| #[trigger] component(a, k) == component(b, k)
}

/// Neither clock is at most the other.
pub open spec fn clock_concurrent(a: Map<Seq<char>, u64>, b: Map<Seq<char>, u64>) -> bool {
    !clock_leq(a, b) && !clock_leq(b, a)
}

/// The clock after one more event of `actor`.
pub open spec fn ticked(m: Map<Seq<char>, u64>, actor: Seq<char>) -> Map<Seq<char>, u64> {
    m.insert(actor, (component(m, actor) + 1) as u64)
}

/// The larger of two counters.
pub open spec fn larger(x: u64, y: u64) -> u64 {
    if x < y {
        y
    } else {
        x
    }
}

/// The component-wise maximum.
pub open spec fn merged(a: Map<Seq<char>, u64>, b: Map<Seq<char>, u64>) -> Map<Seq<char>, u64> {
    Map::new(
        |k: Seq<char>| a.contains_key(k) || b.contains_key(k),
        |k: Seq<char>| larger(component(a, k), component(b, k)),
    )
}

/// Between two clocks exactly one relation holds: the first is before the second, after it,
/// the same, or concurrent with it.
pub proof fn exactly_one_relation(a: Map<Seq<char>, u64>, b: Map<Seq<char>, u64>)
    ensures
        clock_lt(a, b) || clock_lt(b, a) || clock_same(a, b) || clock_concurrent(a, b),
        clock_lt(a, b) ==> !clock_lt(b, a) && !clock_same(a, b) && !clock_concurrent(a, b),
        clock_lt(b, a) ==> !clock_same(a, b) && !clock_concurrent(a, b),
        clock_same(a, b) ==> !clock_concurrent(a, b),
{
    if clock_leq(a, b) && clock_leq(b, a) {
        assert forall|k: Seq<char>| #[trigger] component(a, k) == component(b, k) by {
            assert(component(b, k) <= component(a, k));
        }
    }
    if clock_same(a, b) {
        assert(clock_leq(a, b));
        assert forall|k: Seq<char>| #[trigger] component(b, k) <= component(a, k) by {
            assert(component(a, k) == component(b, k));
        }
    }
}

/// No clock is before itself.
pub proof fn happens_before_irreflexive(a: Map<Seq<char>, u64>)
    ensures
        !clock_lt(a, a),
{
}

/// What is before a clock that is before a third one is before that one too.
pub proof fn happens_before_transitive(
    a: Map<Seq<char>, u64>,
    b: Map<Seq<char>, u64>,
    c: Map<Seq<char>, u64>,
)
    requires
        clock_lt(a, b),
        clock_lt(b, c),
    ensures
        clock_lt(a, c),
{
    assert forall|k: Seq<char>| #[trigger] component(a, k) <= component(c, k) by {
        assert(component(b, k) <= component(c, k));
    }
    if clock_leq(c, a) {
        assert forall|k: Seq<char>| #[trigger] component(b, k) <= component(a, k) by {
            assert(component(b, k) <= component(c, k));
            assert(component(c, k) <= component(a, k));
        }
    }
}

/// Merging two clocks gives a clock that is at least both.
pub proof fn merge_dominates(a: Map<Seq<char>, u64>, b: Map<Seq<char>, u64>)
    ensures
        clock_leq(a, merged(a, b)),
        clock_leq(b, merged(a, b)),
{
}

/// No clock that is at least both operands is smaller than their merge.
pub proof fn merge_is_least(
    a: Map<Seq<char>, u64>,
    b: Map<Seq<char>, u64>,
    c: Map<Seq<char>, u64>,
)
    requires
        clock_leq(a, c),
        clock_leq(b, c),
    ensures
        clock_leq(merged(a, b), c),
{
    assert forall|k: Seq<char>| #[trigger] component(merged(a, b), k) <= component(c, k) by {
        assert(component(a, k) <= component(c, k));
        assert(component(b, k) <= component(c, k));
    }
}

/// An event moves the clock of its actor strictly forward.
pub proof fn tick_moves_forward(m: Map<Seq<char>, u64>, actor: Seq<char>)
    requires
        component(m, actor) < u64::MAX,
    ensures
        clock_lt(m, ticked(m, actor)),
{
    assert forall|k: Seq<char>| #[trigger] component(m, k) <= component(ticked(m, actor), k) by {
        if k == actor {
            assert(component(ticked(m, actor), k) == component(m, k) + 1);
        }
    }
    assert(component(ticked(m, actor), actor) > component(m, actor));
}

/// The name of an actor. Cloning copies a reference, not the text.
#[derive(PartialOrd, Eq, Ord, Hash, Debug)]
pub struct ActorId(Arc<String>);

impl View for ActorId {
    type V = Seq<char>;

    closed spec fn view(&self) -> Seq<char> {
        self.0@
    }
}

impl ActorId {
    /// The name as text.
    pub fn as_str(&self) -> (r: &str)
        ensures
            r@ == self@,
    {
        self.0.as_str()
    }

    /// A copy of the name as a string of its own.
    pub fn to_string(&self) -> (r: String)
        ensures
            r@ == self@,
    {
        (*self.0).clone()
    }
}

impl<'a> From<&'a str> for ActorId {
    fn from(s: &'a str) -> (r: Self)
        ensures
            r@ == s@,
    {
        ActorId(Arc::new(s.to_string()))
    }
}

impl<'a> vstd::std_specs::convert::FromSpecImpl<&'a str> for ActorId {
    open spec fn obeys_from_spec() -> bool {
        false
    }

    open spec fn from_spec(s: &'a str) -> Self {
        arbitrary()
    }
}

impl Clone for ActorId {
    fn clone(&self) -> (r: Self)
        ensures
            r@ == self@,
    {
        ActorId(self.0.clone())
    }
}

impl PartialEq for ActorId {
    fn eq(&self, other: &Self) -> (r: bool) {
        match text_order(self.as_str(), other.as_str()) {
            Order::Equal => true,
            _ => false,
        }
    }
}

impl vstd::std_specs::cmp::PartialEqSpecImpl for ActorId {
    open spec fn obeys_eq_spec() -> bool {
        true
    }

    open spec fn eq_spec(&self, other: &Self) -> bool {
        self@ == other@
    }
}

/// A vector clock: one counter for each actor that has been heard of.
#[derive(Debug)]
pub struct VectorClock(ClockMap);

impl View for VectorClock {
    type V = Map<Seq<char>, u64>;

    closed spec fn view(&self) -> Map<Seq<char>, u64> {
        self.0@
    }
}

impl VectorClock {
    /// The clock of an actor that has seen nothing.
    pub fn new() -> (r: Self)
        ensures
            r@ == Map::<Seq<char>, u64>::empty(),
    {
        VectorClock(ClockMap::new())
    }

    /// The component of `actor`; zero if it has none.
    pub fn get(&self, actor: &ActorId) -> (r: u64)
        ensures
            r == component(self@, actor@),
    {
        self.0.component(actor.as_str())
    }

    /// Set the component of `actor`.
    pub fn set(&mut self, actor: ActorId, value: u64)
        ensures
            final(self)@ == old(self)@.insert(actor@, value),
    {
        self.0.insert(actor.to_string(), value);
    }

    /// Count one more event of `actor`.
    pub fn increment(&mut self, actor: &ActorId)
        requires
            component(old(self)@, actor@) < u64::MAX,
        ensures
            final(self)@ == ticked(old(self)@, actor@),
    {
        let next: u64 = self.0.component(actor.as_str()) + 1;
        self.0.insert(actor.to_string(), next);
    }

    /// Take the component-wise maximum with `other`.
    pub fn merge(&mut self, other: &VectorClock)
        ensures
            final(self)@ == merged(old(self)@, other@),
    {
        self.0.raise_to(&other.0);
    }

    /// Whether this clock is strictly before `other`.
    pub fn happens_before(&self, other: &VectorClock) -> (r: bool)
        ensures
            r == clock_lt(self@, other@),
    {
        self.0.below(&other.0) && !other.0.below(&self.0)
    }

    /// Whether neither clock is before the other and they differ.
    pub fn concurrent(&self, other: &VectorClock) -> (r: bool)
        ensures
            r == clock_concurrent(self@, other@),
    {
        !self.0.below(&other.0) && !other.0.below(&self.0)
    }

    /// The clock in the form that stands in the log.
    pub fn to_string_map(&self) -> (r: ClockMap)
        ensures
            r@ == self@,
    {
        self.0.clone()
    }
}

impl Default for VectorClock {
    fn default() -> (r: Self)
        ensures
            r@ == Map::<Seq<char>, u64>::empty(),
    {
        VectorClock::new()
    }
}

impl Clone for VectorClock {
    fn clone(&self) -> (r: Self)
        ensures
            r@ == self@,
    {
        VectorClock(self.0.clone())
    }
}

impl PartialEq for VectorClock {
    fn eq(&self, other: &Self) -> (r: bool) {
        proof {
            exactly_one_relation(self@, other@);
        }
        self.0.below(&other.0) && other.0.below(&self.0)
    }
}

impl vstd::std_specs::cmp::PartialEqSpecImpl for VectorClock {
    open spec fn obeys_eq_spec() -> bool {
        true
    }

    open spec fn eq_spec(&self, other: &Self) -> bool {
        clock_same(self@, other@)
    }
}

impl Eq for VectorClock {

}

impl PartialOrd for VectorClock {
    fn partial_cmp(&self, other: &Self) -> (r: Option<std::cmp::Ordering>) {
        proof {
            exactly_one_relation(self@, other@);
        }
        match (self.0.below(&other.0), other.0.below(&self.0)) {
            (true, true) => Some(std::cmp::Ordering::Equal),
            (true, false) => Some(std::cmp::Ordering::Less),
            (false, true) => Some(std::cmp::Ordering::Greater),
            (false, false) => None,
        }
    }
}

impl vstd::std_specs::cmp::PartialOrdSpecImpl for VectorClock {
    open spec fn obeys_partial_cmp_spec() -> bool {
        true
    }

    open spec fn partial_cmp_spec(&self, other: &Self) -> Option<std::cmp::Ordering> {
        if clock_same(self@, other@) {
            Some(std::cmp::Ordering::Equal)
        } else if clock_lt(self@, other@) {
            Some(std::cmp::Ordering::Less)
        } else if clock_lt(other@, self@) {
            Some(std::cmp::Ordering::Greater)
        } else {
            None
        }
    }
}

/// A Lamport stamp.
#[derive(Clone, Copy, PartialEq, Eq, PartialOrd, Ord, Hash, Debug, Structural)]
pub struct Lamport(pub u64);

impl Lamport {
    /// A local event: advance by one and return the new stamp.
    pub fn tick(&mut self) -> (r: u64)
        requires
            old(self).0 < u64::MAX,
        ensures
            final(self).0 == old(self).0 + 1,
            r == final(self).0,
    {
        self.0 = self.0 + 1;
        self.0
    }

    /// A receipt: advance past both this stamp and the one that came with the message.
    pub fn update(&mut self, other: Lamport) -> (r: u64)
        requires
            old(self).0 < u64::MAX,
            other.0 < u64::MAX,
        ensures
            final(self).0 == larger(old(self).0, other.0) + 1,
            r == final(self).0,
    {
        if self.0 < other.0 {
            self.0 = other.0;
        }
        self.0 = self.0 + 1;
        self.0
    }
}

impl Default for Lamport {
    fn default() -> (r: Self)
        ensures
            r.0 == 0,
    {
        Lamport(0)
    }
}

// ---------------------------------------------------------------------------
// What the clocks are, entry by entry
// ---------------------------------------------------------------------------

/// A component is the entry of the actor; without an entry it is zero.
pub proof fn components_are_entries(m: Map<Seq<char>, u64>, k: Seq<char>, v: u64)
    ensures
        m.contains_key(k) ==> component(m, k) == m[k],
        component(m.insert(k, v), k) == v,
        component(m.remove(k), k) == 0,
        component(Map::empty(), k) == 0,
        forall|j: Seq<char>|
            j != k ==> #[trigger] component(m.insert(k, v), j) == component(m, j) && component(
                m.remove(k),
                j,
            ) == component(m, j),
{
}

/// One clock is at most another exactly when every entry above zero has an entry in the other
/// that is not smaller.
pub proof fn at_most_entry_by_entry(a: Map<Seq<char>, u64>, b: Map<Seq<char>, u64>)
    ensures
        clock_leq(a, b) <==> forall|k: Seq<char>| #[trigger]
            a.contains_key(k) && a[k] > 0 ==> b.contains_key(k) && a[k] <= b[k],
{
    if clock_leq(a, b) {
        assert forall|k: Seq<char>| #[trigger] a.contains_key(k) && a[k] > 0 implies b.contains_key(
            k,
        ) && a[k] <= b[k] by {
            assert(component(a, k) <= component(b, k));
        }
    }
}

/// Strictly before: at most the other, and smaller in some entry of it.
pub proof fn before_entry_by_entry(a: Map<Seq<char>, u64>, b: Map<Seq<char>, u64>)
    ensures
        clock_lt(a, b) <==> {
            &&& forall|k: Seq<char>| #[trigger]
                a.contains_key(k) && a[k] > 0 ==> b.contains_key(k) && a[k] <= b[k]
            &&& exists|k: Seq<char>| #[trigger]
                b.contains_key(k) && b[k] > 0 && (a.contains_key(k) ==> a[k] < b[k])
        },
{
    at_most_entry_by_entry(a, b);
    at_most_entry_by_entry(b, a);
    if clock_lt(a, b) {
        let k = choose|k: Seq<char>| #[trigger]
            b.contains_key(k) && b[k] > 0 && !(a.contains_key(k) && b[k] <= a[k]);
        assert(b.contains_key(k));
    }
}

/// Concurrent: each is ahead of the other in some entry.
pub proof fn concurrent_entry_by_entry(a: Map<Seq<char>, u64>, b: Map<Seq<char>, u64>)
    ensures
        clock_concurrent(a, b) <==> {
            &&& exists|k: Seq<char>| #[trigger]
                a.contains_key(k) && a[k] > 0 && (b.contains_key(k) ==> b[k] < a[k])
            &&& exists|k: Seq<char>| #[trigger]
                b.contains_key(k) && b[k] > 0 && (a.contains_key(k) ==> a[k] < b[k])
        },
{
    at_most_entry_by_entry(a, b);
    at_most_entry_by_entry(b, a);
    if clock_concurrent(a, b) {
        let k = choose|k: Seq<char>| #[trigger]
            a.contains_key(k) && a[k] > 0 && !(b.contains_key(k) && a[k] <= b[k]);
        assert(a.contains_key(k));
        let j = choose|j: Seq<char>| #[trigger]
            b.contains_key(j) && b[j] > 0 && !(a.contains_key(j) && b[j] <= a[j]);
        assert(b.contains_key(j));
    }
}

/// The same: the entries above zero are the same.
pub proof fn same_entry_by_entry(a: Map<Seq<char>, u64>, b: Map<Seq<char>, u64>)
    ensures
        clock_same(a, b) <==> {
            &&& forall|k: Seq<char>| #[trigger]
                a.contains_key(k) && a[k] > 0 ==> b.contains_key(k) && a[k] == b[k]
            &&& forall|k: Seq<char>| #[trigger]
                b.contains_key(k) && b[k] > 0 ==> a.contains_key(k) && a[k] == b[k]
        },
{
    if clock_same(a, b) {
        assert forall|k: Seq<char>| #[trigger] a.contains_key(k) && a[k] > 0 implies b.contains_key(
            k,
        ) && a[k] == b[k] by {
            assert(component(a, k) == component(b, k));
        }
        assert forall|k: Seq<char>| #[trigger] b.contains_key(k) && b[k] > 0 implies a.contains_key(
            k,
        ) && a[k] == b[k] by {
            assert(component(a, k) == component(b, k));
        }
    } else if (forall|k: Seq<char>| #[trigger]
        a.contains_key(k) && a[k] > 0 ==> b.contains_key(k) && a[k] == b[k]) && (forall|
        k: Seq<char>,
    | #[trigger]
        b.contains_key(k) && b[k] > 0 ==> a.contains_key(k) && a[k] == b[k]) {
        let k = choose|k: Seq<char>| component(a, k) != #[trigger] component(b, k);
        assert(a.contains_key(k) || b.contains_key(k));
    }
}

/// An event of an actor raises its entry by one, or makes one; all other entries stay.
pub proof fn a_tick_raises_one_entry(m: Map<Seq<char>, u64>, actor: Seq<char>)
    requires
        m.contains_key(actor) ==> m[actor] < u64::MAX,
    ensures
        ticked(m, actor).dom() == m.dom().insert(actor),
        m.contains_key(actor) ==> ticked(m, actor)[actor] == m[actor] + 1,
        !m.contains_key(actor) ==> ticked(m, actor)[actor] == 1,
        ticked(m, actor).remove(actor) == m.remove(actor),
{
    assert(ticked(m, actor).dom() =~= m.dom().insert(actor));
    assert(ticked(m, actor).remove(actor) =~= m.remove(actor));
}

/// A merge has the entries of both clocks; of two entries for one actor it has the larger.
pub proof fn a_merge_entry_by_entry(a: Map<Seq<char>, u64>, b: Map<Seq<char>, u64>, k: Seq<char>)
    ensures
        merged(a, b).contains_key(k) <==> a.contains_key(k) || b.contains_key(k),
        a.contains_key(k) && b.contains_key(k) ==> merged(a, b)[k] >= a[k] && merged(a, b)[k]
            >= b[k] && (merged(a, b)[k] == a[k] || merged(a, b)[k] == b[k]),
        a.contains_key(k) && !b.contains_key(k) ==> merged(a, b)[k] == a[k],
        !a.contains_key(k) && b.contains_key(k) ==> merged(a, b)[k] == b[k],
{
}

/// The larger of two numbers is one of them and not smaller than either.
pub proof fn the_larger_of_two(x: u64, y: u64)
    ensures
        larger(x, y) == x || larger(x, y) == y,
        larger(x, y) >= x,
        larger(x, y) >= y,
{
}

/// Two names are equal when they are the same text.
pub proof fn equal_names_are_the_same_text(a: ActorId, b: ActorId)
    ensures
        a.eq_spec(&b) <==> a@ == b@,
{
}

/// Two clocks are equal exactly when each is at most the other.
pub proof fn equal_clocks_are_at_most_each_other(a: VectorClock, b: VectorClock)
    ensures
        a.eq_spec(&b) <==> clock_leq(a@, b@) && clock_leq(b@, a@),
{
    exactly_one_relation(a@, b@);
    if clock_leq(a@, b@) && clock_leq(b@, a@) {
        assert(!clock_lt(a@, b@) && !clock_lt(b@, a@));
    }
}

/// Clocks compare as their order has it: equal, before, after, or not at all.
pub proof fn how_clocks_compare(a: VectorClock, b: VectorClock)
    ensures
        a.partial_cmp_spec(&b) == Some(std::cmp::Ordering::Equal) <==> clock_leq(a@, b@)
            && clock_leq(b@, a@),
        a.partial_cmp_spec(&b) == Some(std::cmp::Ordering::Less) <==> clock_leq(a@, b@)
            && !clock_leq(b@, a@),
        a.partial_cmp_spec(&b) == Some(std::cmp::Ordering::Greater) <==> !clock_leq(a@, b@)
            && clock_leq(b@, a@),
        a.partial_cmp_spec(&b) is None <==> !clock_leq(a@, b@) && !clock_leq(b@, a@),
{
    exactly_one_relation(a@, b@);
    exactly_one_relation(b@, a@);
}

} // verus!
