//! What the stamps of a run mean: an event's clock is before another's exactly when the event
//! happened before the other.

use crate::actor::received;
use crate::clock::{
    clock_concurrent, clock_leq, clock_lt, component, exactly_one_relation, larger, merged, ticked,
};
use vstd::prelude::*;

verus! {

/// One event of a run: its actor and, for a receipt, the event that sent the message.
pub struct Step {
    pub actor: Seq<char>,
    pub sender: Option<int>,
}

/// A run: events in some order in which they took place. Every message is sent before it is
/// received, and the event counters stay below their limit.
pub open spec fn is_run(run: Seq<Step>) -> bool {
    &&& run.len() < u64::MAX
    &&& forall|i: int|
        0 <= i < run.len() ==> ((#[trigger] run[i]).sender matches Some(s) ==> 0 <= s < i)
}

/// The last event of `actor` among the first `n`.
pub open spec fn latest(run: Seq<Step>, actor: Seq<char>, n: int) -> Option<int>
    decreases n,
{
    if n <= 0 {
        None
    } else if run[n - 1].actor == actor {
        Some(n - 1)
    } else {
        latest(run, actor, n - 1)
    }
}

/// The event of the same actor right before event `i`.
pub open spec fn predecessor(run: Seq<Step>, i: int) -> Option<int> {
    latest(run, run[i].actor, i)
}

/// Event `i` happened before event `j`: it is one of the two events that `j` directly
/// follows, the previous one of its actor and the sending of its message, or happened before
/// one of them.
pub open spec fn happened_before(run: Seq<Step>, i: int, j: int) -> bool
    decreases j,
{
    0 < j && ((predecessor(run, j) matches Some(p) && p < j && 0 <= p && (i == p || happened_before(
        run,
        i,
        p,
    ))) || (run[j].sender matches Some(s) && s < j && 0 <= s && (i == s || happened_before(
        run,
        i,
        s,
    ))))
}

/// The clock that event `i` is stamped with.
pub open spec fn stamp(run: Seq<Step>, i: int) -> Map<Seq<char>, u64>
    decreases i,
{
    let own = match predecessor(run, i) {
        Some(p) if 0 <= p < i => stamp(run, p),
        _ => Map::empty(),
    };
    match run[i].sender {
        Some(s) if 0 <= s < i => received(own, run[i].actor, stamp(run, s)),
        _ => ticked(own, run[i].actor),
    }
}

/// The Lamport stamp of event `i`.
pub open spec fn lamport_stamp(run: Seq<Step>, i: int) -> int
    decreases i,
{
    let own = match predecessor(run, i) {
        Some(p) if 0 <= p < i => lamport_stamp(run, p),
        _ => 0,
    };
    match run[i].sender {
        Some(s) if 0 <= s < i => if own < lamport_stamp(run, s) {
            lamport_stamp(run, s) + 1
        } else {
            own + 1
        },
        _ => own + 1,
    }
}

/// The clock that `actor` holds after the first `n` events: each event of its own moves it on,
/// by the rule for local events or by the rule for receipts, with the clock that the sender
/// held when it sent.
pub open spec fn clock_held(run: Seq<Step>, actor: Seq<char>, n: int) -> Map<Seq<char>, u64>
    decreases n,
{
    if n <= 0 {
        Map::empty()
    } else {
        let before = clock_held(run, actor, n - 1);
        let step = run[n - 1];
        if step.actor != actor {
            before
        } else {
            match step.sender {
                Some(s) if 0 <= s < n - 1 => received(
                    before,
                    actor,
                    clock_held(run, run[s].actor, s + 1),
                ),
                _ => ticked(before, actor),
            }
        }
    }
}

/// Actors that keep their clocks by the rules stamp their events as the run says: an actor
/// holds the stamp of its last event.
pub proof fn actors_hold_their_last_stamp(run: Seq<Step>, actor: Seq<char>, n: int)
    requires
        0 <= n <= run.len(),
    ensures
        clock_held(run, actor, n) == match latest(run, actor, n) {
            Some(p) => stamp(run, p),
            None => Map::empty(),
        },
    decreases n,
{
    if n > 0 {
        actors_hold_their_last_stamp(run, actor, n - 1);
        lemma_latest(run, actor, n - 1);
        if run[n - 1].actor == actor {
            if let Some(s) = run[n - 1].sender {
                if 0 <= s < n - 1 {
                    actors_hold_their_last_stamp(run, run[s].actor, s + 1);
                }
            }
        }
    }
}

/// How many of the first `n` events are of `actor`.
pub open spec fn count(run: Seq<Step>, actor: Seq<char>, n: int) -> int
    decreases n,
{
    if n <= 0 {
        0
    } else {
        count(run, actor, n - 1) + if run[n - 1].actor == actor {
            1int
        } else {
            0int
        }
    }
}

pub proof fn lemma_count_grows(run: Seq<Step>, actor: Seq<char>, m: int, n: int)
    requires
        0 <= m <= n,
    ensures
        0 <= count(run, actor, m) <= count(run, actor, n) <= n,
    decreases n,
{
    if m < n {
        lemma_count_grows(run, actor, m, n - 1);
    } else if n > 0 {
        lemma_count_grows(run, actor, m - 1, n - 1);
    }
}

pub proof fn lemma_latest(run: Seq<Step>, actor: Seq<char>, n: int)
    requires
        0 <= n,
    ensures
        match latest(run, actor, n) {
            Some(p) => 0 <= p < n && run[p].actor == actor && count(run, actor, p + 1) == count(
                run,
                actor,
                n,
            ),
            None => count(run, actor, n) == 0,
        },
    decreases n,
{
    if n > 0 && run[n - 1].actor != actor {
        lemma_latest(run, actor, n - 1);
    }
}

/// The clock of the actor of event `i` before the event.
spec fn own_before(run: Seq<Step>, i: int) -> Map<Seq<char>, u64> {
    match predecessor(run, i) {
        Some(p) if 0 <= p < i => stamp(run, p),
        _ => Map::empty(),
    }
}

/// The component of another actor comes from one of the two events that `i` follows.
proof fn lemma_stamp_components(run: Seq<Step>, i: int)
    requires
        is_run(run),
        0 <= i < run.len(),
    ensures
        component(stamp(run, i), run[i].actor) == count(run, run[i].actor, i + 1),
        forall|k: Seq<char>| #[trigger] component(stamp(run, i), k) <= count(run, k, i + 1),
        forall|k: Seq<char>|
            k != run[i].actor ==> #[trigger] component(stamp(run, i), k) == match run[i].sender {
                Some(s) => larger(component(own_before(run, i), k), component(stamp(run, s), k)),
                None => component(own_before(run, i), k),
            },
    decreases i,
{
    let a = run[i].actor;
    let own = own_before(run, i);
    lemma_latest(run, a, i);
    if let Some(p) = predecessor(run, i) {
        lemma_stamp_components(run, p);
    }
    assert(component(own, a) == count(run, a, i));
    assert forall|k: Seq<char>| #[trigger] component(own, k) <= count(run, k, i) by {
        if let Some(p) = predecessor(run, i) {
            assert(component(stamp(run, p), k) <= count(run, k, p + 1));
            lemma_count_grows(run, k, p + 1, i);
        } else {
            lemma_count_grows(run, k, 0, i);
        }
    }
    lemma_count_grows(run, a, 0, i);
    match run[i].sender {
        Some(s) => {
            lemma_stamp_components(run, s);
            let m = merged(own, stamp(run, s));
            assert forall|k: Seq<char>| #[trigger] component(stamp(run, s), k) <= count(
                run,
                k,
                i,
            ) by {
                lemma_count_grows(run, k, s + 1, i);
            }
            assert(component(stamp(run, s), a) <= count(run, a, i));
            assert(component(m, a) == component(own, a));
            assert(stamp(run, i) == ticked(m, a));
            assert forall|k: Seq<char>| #[trigger] component(stamp(run, i), k) <= count(
                run,
                k,
                i + 1,
            ) by {
                assert(component(own, k) <= count(run, k, i));
                assert(component(stamp(run, s), k) <= count(run, k, i));
                assert(component(m, k) == larger(component(own, k), component(stamp(run, s), k)));
            }
            assert forall|k: Seq<char>| k != a implies #[trigger] component(stamp(run, i), k)
                == larger(component(own, k), component(stamp(run, s), k)) by {
                assert(component(m, k) == larger(component(own, k), component(stamp(run, s), k)));
            }
        },
        None => {
            assert(stamp(run, i) == ticked(own, a));
            assert forall|k: Seq<char>| #[trigger] component(stamp(run, i), k) <= count(
                run,
                k,
                i + 1,
            ) by {
                assert(component(own, k) <= count(run, k, i));
            }
        },
    }
}

/// What happened before comes earlier in the run.
pub proof fn before_is_earlier(run: Seq<Step>, i: int, j: int)
    requires
        is_run(run),
        0 <= j < run.len(),
        happened_before(run, i, j),
    ensures
        0 <= i < j,
    decreases j,
{
    lemma_latest(run, run[j].actor, j);
    if let Some(p) = predecessor(run, j) {
        if i != p && happened_before(run, i, p) {
            before_is_earlier(run, i, p);
        }
    }
    if let Some(s) = run[j].sender {
        if i != s && happened_before(run, i, s) {
            before_is_earlier(run, i, s);
        }
    }
}

proof fn lemma_latest_is_last(run: Seq<Step>, actor: Seq<char>, n: int, i: int)
    requires
        0 <= i < n,
        run[i].actor == actor,
    ensures
        latest(run, actor, n) matches Some(p) && i <= p < n,
    decreases n,
{
    if run[n - 1].actor != actor {
        lemma_latest_is_last(run, actor, n - 1, i);
    }
}

/// What happened before something that happened before a third event happened before that one
/// too.
pub proof fn happened_before_transitive(run: Seq<Step>, i: int, j: int, k: int)
    requires
        happened_before(run, i, j),
        happened_before(run, j, k),
    ensures
        happened_before(run, i, k),
    decreases k,
{
    let via_own = predecessor(run, k) matches Some(p) && 0 <= p < k && (j == p || happened_before(
        run,
        j,
        p,
    ));
    if via_own {
        let p = predecessor(run, k)->0;
        if j != p {
            happened_before_transitive(run, i, j, p);
        }
    } else {
        let s = run[k].sender->0;
        if j != s {
            happened_before_transitive(run, i, j, s);
        }
    }
}

/// The events of one actor happened one before the other.
pub proof fn one_actor_is_in_order(run: Seq<Step>, i: int, j: int)
    requires
        is_run(run),
        0 <= i < j < run.len(),
        run[i].actor == run[j].actor,
    ensures
        happened_before(run, i, j),
    decreases j,
{
    lemma_latest_is_last(run, run[j].actor, j, i);
    lemma_latest(run, run[j].actor, j);
    let p = predecessor(run, j)->0;
    if i < p {
        one_actor_is_in_order(run, i, p);
    }
}

/// A message was sent before it was received.
pub proof fn a_send_is_before_its_receipt(run: Seq<Step>, j: int)
    requires
        is_run(run),
        0 <= j < run.len(),
        run[j].sender is Some,
    ensures
        happened_before(run, run[j].sender->0, j),
{
}

/// A clock has seen event `i` exactly when it belongs to the event or to a later one.
proof fn lemma_seen(run: Seq<Step>, i: int, j: int)
    requires
        is_run(run),
        0 <= i < run.len(),
        0 <= j < run.len(),
    ensures
        component(stamp(run, j), run[i].actor) >= count(run, run[i].actor, i + 1) <==> (i == j
            || happened_before(run, i, j)),
    decreases j,
{
    let k = run[i].actor;
    lemma_stamp_components(run, j);
    lemma_latest(run, run[j].actor, j);
    if happened_before(run, i, j) {
        before_is_earlier(run, i, j);
    }
    if k == run[j].actor {
        if i < j {
            one_actor_is_in_order(run, i, j);
            lemma_count_grows(run, k, i + 1, j + 1);
        } else if j < i {
            lemma_count_grows(run, k, j + 1, i);
        }
    } else {
        lemma_count_grows(run, k, 0, i);
        assert(component(stamp(run, j), k) == match run[j].sender {
            Some(s) => larger(component(own_before(run, j), k), component(stamp(run, s), k)),
            None => component(own_before(run, j), k),
        });
        if let Some(p) = predecessor(run, j) {
            lemma_seen(run, i, p);
        }
        if let Some(s) = run[j].sender {
            lemma_seen(run, i, s);
        }
    }
}

proof fn lemma_stamps_grow(run: Seq<Step>, i: int, j: int)
    requires
        is_run(run),
        0 <= j < run.len(),
        happened_before(run, i, j),
    ensures
        clock_leq(stamp(run, i), stamp(run, j)),
    decreases j,
{
    let a = run[j].actor;
    lemma_latest(run, a, j);
    lemma_stamp_components(run, j);
    lemma_count_grows(run, a, j, j + 1);
    let via_own = predecessor(run, j) matches Some(p) && (i == p || happened_before(run, i, p));
    if via_own {
        let p = predecessor(run, j)->0;
        lemma_stamp_components(run, p);
        if i != p {
            lemma_stamps_grow(run, i, p);
        }
        assert forall|k: Seq<char>| #[trigger] component(stamp(run, i), k) <= component(
            stamp(run, j),
            k,
        ) by {
            assert(component(stamp(run, i), k) <= component(stamp(run, p), k));
            assert(own_before(run, j) == stamp(run, p));
            if k == a {
                lemma_count_grows(run, a, p + 1, j + 1);
            }
        }
    } else {
        let s = run[j].sender->0;
        lemma_stamp_components(run, s);
        if i != s {
            lemma_stamps_grow(run, i, s);
        }
        assert forall|k: Seq<char>| #[trigger] component(stamp(run, i), k) <= component(
            stamp(run, j),
            k,
        ) by {
            assert(component(stamp(run, i), k) <= component(stamp(run, s), k));
            if k == a {
                assert(component(stamp(run, s), a) <= count(run, a, s + 1));
                lemma_count_grows(run, a, s + 1, j + 1);
            }
        }
    }
}

/// The embedding is exact: one clock is before another if and only if the one event happened
/// before the other.
pub proof fn clocks_tell_happened_before(run: Seq<Step>, i: int, j: int)
    requires
        is_run(run),
        0 <= i < run.len(),
        0 <= j < run.len(),
    ensures
        clock_lt(stamp(run, i), stamp(run, j)) <==> happened_before(run, i, j),
{
    let (a, b) = (stamp(run, i), stamp(run, j));
    lemma_stamp_components(run, i);
    lemma_stamp_components(run, j);
    lemma_seen(run, i, j);
    if happened_before(run, i, j) {
        before_is_earlier(run, i, j);
        lemma_stamps_grow(run, i, j);
        let k = run[j].actor;
        lemma_count_grows(run, k, i + 1, j);
        assert(component(a, k) <= count(run, k, i + 1));
        assert(component(b, k) > component(a, k));
        assert(!clock_leq(b, a));
    }
    if clock_lt(a, b) {
        assert(component(a, run[i].actor) <= component(b, run[i].actor));
        assert(i != j);
    }
}

/// Two clocks are concurrent if and only if they belong to two events of which neither
/// happened before the other.
pub proof fn clocks_tell_concurrency(run: Seq<Step>, i: int, j: int)
    requires
        is_run(run),
        0 <= i < run.len(),
        0 <= j < run.len(),
    ensures
        clock_concurrent(stamp(run, i), stamp(run, j)) <==> (i != j && !happened_before(run, i, j)
            && !happened_before(run, j, i)),
{
    let (a, b) = (stamp(run, i), stamp(run, j));
    clocks_tell_happened_before(run, i, j);
    clocks_tell_happened_before(run, j, i);
    exactly_one_relation(a, b);
    if i != j && !happened_before(run, i, j) && !happened_before(run, j, i) {
        lemma_seen(run, i, j);
        lemma_stamp_components(run, i);
        assert(component(a, run[i].actor) > component(b, run[i].actor));
    }
}

/// Lamport stamps respect the order: what happened before has the smaller stamp.
pub proof fn lamport_stamps_respect_happened_before(run: Seq<Step>, i: int, j: int)
    requires
        is_run(run),
        0 <= j < run.len(),
        happened_before(run, i, j),
    ensures
        lamport_stamp(run, i) < lamport_stamp(run, j),
    decreases j,
{
    lemma_latest(run, run[j].actor, j);
    let via_own = predecessor(run, j) matches Some(p) && (i == p || happened_before(run, i, p));
    if via_own {
        let p = predecessor(run, j)->0;
        if i != p {
            lamport_stamps_respect_happened_before(run, i, p);
        }
    } else {
        let s = run[j].sender->0;
        if i != s {
            lamport_stamps_respect_happened_before(run, i, s);
        }
    }
}

} // verus!
