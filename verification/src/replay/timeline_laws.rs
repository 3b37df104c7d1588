//! What the canonical order, the timeline and the concurrent pairs of a log are, in terms of its
//! events alone.

use crate::clock::clock_concurrent;
use crate::log::{log_model, texts, EventModel};
use crate::replay::engine::{
    concurrent_pairs, concurrent_with, is_replay_of, pair_texts, replayable, timeline, Replayed,
};
use crate::replay::extension::{canonical_order, ready};
use crate::replay::order_laws::{
    every_step_takes_the_smallest, full_order_holds_every_event, order_leaves_nothing_ready,
    order_respects_all_edges, validated_log_has_no_cycle,
};
use crate::replay::poset::{causal_edges, edge_in_range};
use crate::replay::poset_laws::causal_edges_are;
use crate::text::text_lt;
use vstd::prelude::*;

verus! {

/// Of all events that could be taken at a position of the canonical order, the one with the
/// smallest Lamport stamp is taken, whatever the events are; at equal stamps the one whose actor's
/// name comes first, then the one with the smaller counter, then the one that stands first in the
/// log. An event can be taken when all its direct causes have been.
pub proof fn the_smallest_ready_event_is_taken(
    log: Seq<EventModel>,
    edges: Seq<(usize, usize)>,
    k: int,
    j: usize,
)
    requires
        0 <= k < canonical_order(log, edges).len(),
        j < log.len(),
        !canonical_order(log, edges).take(k).contains(j),
        forall|e: int|
            0 <= e < edges.len() && (#[trigger] edges[e]).1 == j ==> canonical_order(
                log,
                edges,
            ).take(k).contains(edges[e].0),
        j != canonical_order(log, edges)[k],
    ensures
        ({
            let i = canonical_order(log, edges)[k] as int;
            let (x, y) = (log[i], log[j as int]);
            ||| x.lamport < y.lamport
            ||| x.lamport == y.lamport && text_lt(x.actor, y.actor)
            ||| x.lamport == y.lamport && x.actor == y.actor && x.seq < y.seq
            ||| x.lamport == y.lamport && x.actor == y.actor && x.seq == y.seq && i < j
        }),
{
    every_step_takes_the_smallest(log, edges, k);
    assert(ready(log.len(), edges, canonical_order(log, edges).take(k), j));
}

/// Whatever is taken at a position of the canonical order is an event of the log that was not
/// taken before, and all its direct causes were.
pub proof fn only_ready_events_are_taken(
    log: Seq<EventModel>,
    edges: Seq<(usize, usize)>,
    k: int,
)
    requires
        0 <= k < canonical_order(log, edges).len(),
    ensures
        canonical_order(log, edges)[k] < log.len(),
        !canonical_order(log, edges).take(k).contains(canonical_order(log, edges)[k]),
        forall|e: int|
            0 <= e < edges.len() && (#[trigger] edges[e]).1 == canonical_order(log, edges)[k]
                ==> canonical_order(log, edges).take(k).contains(edges[e].0),
{
    every_step_takes_the_smallest(log, edges, k);
}

/// The canonical order ends only when every event that is left over waits for another one.
pub proof fn every_event_that_can_be_taken_is(
    log: Seq<EventModel>,
    edges: Seq<(usize, usize)>,
    i: usize,
)
    requires
        log.len() <= usize::MAX,
        i < log.len(),
        forall|e: int|
            0 <= e < edges.len() && (#[trigger] edges[e]).1 == i ==> canonical_order(
                log,
                edges,
            ).contains(edges[e].0),
    ensures
        canonical_order(log, edges).contains(i),
{
    order_leaves_nothing_ready(log, edges, i);
}

/// The timeline of a log has the events of the log in canonical order: every event once, and
/// nothing else.
pub proof fn the_timeline_is_the_log_in_order(log: Seq<EventModel>)
    requires
        log.len() <= usize::MAX,
        replayable(log),
    ensures
        timeline(log).len() == log.len(),
        canonical_order(log, causal_edges(log)).len() == log.len(),
        canonical_order(log, causal_edges(log)).no_duplicates(),
        forall|p: int|
            0 <= p < log.len() ==> #[trigger] timeline(log)[p] == log[canonical_order(
                log,
                causal_edges(log),
            )[p] as int],
        forall|i: usize|
            i < log.len() ==> #[trigger] canonical_order(log, causal_edges(log)).contains(i),
{
    let edges = causal_edges(log);
    assert forall|k: int| 0 <= k < edges.len() implies edge_in_range(
        #[trigger] edges[k],
        log.len(),
    ) by {
        assert(edges.contains(edges[k]));
        causal_edges_are(log, edges[k].0, edges[k].1);
    }
    validated_log_has_no_cycle(log, edges);
    order_respects_all_edges(log, edges);
    assert forall|i: usize| i < log.len() implies #[trigger] canonical_order(log, edges).contains(
        i,
    ) by {
        full_order_holds_every_event(log, edges, i);
    }
}

/// A pair of positions comes before another one.
pub open spec fn pair_before(a: (int, int), b: (int, int)) -> bool {
    a.0 < b.0 || (a.0 == b.0 && a.1 < b.1)
}

/// `at` lists all pairs of positions of `t` below `n` whose clocks are concurrent, in order, and
/// `pairs` are the names of the events there.
pub open spec fn lists_concurrent(
    t: Seq<EventModel>,
    pairs: Seq<(Seq<char>, Seq<char>)>,
    at: Seq<(int, int)>,
) -> bool {
    &&& at.len() == pairs.len()
    &&& forall|x: int, y: int|
        0 <= x < y < at.len() ==> pair_before(#[trigger] at[x], #[trigger] at[y])
    &&& forall|x: int|
        0 <= x < at.len() ==> 0 <= (#[trigger] at[x]).0 < at[x].1 < t.len() && clock_concurrent(
            t[at[x].0].vclock,
            t[at[x].1].vclock,
        ) && pairs[x] == (t[at[x].0].id, t[at[x].1].id)
    &&& forall|i: int, j: int|
        0 <= i < j < t.len() && clock_concurrent(#[trigger] t[i].vclock, #[trigger] t[j].vclock)
            ==> at.contains((i, j))
}

proof fn lemma_concurrent_with(t: Seq<EventModel>, p: int, k: int) -> (at: Seq<(int, int)>)
    requires
        0 <= p < t.len(),
        k <= t.len(),
    ensures
        at.len() == concurrent_with(t, p, k).len(),
        forall|x: int, y: int|
            0 <= x < y < at.len() ==> pair_before(#[trigger] at[x], #[trigger] at[y]),
        forall|x: int|
            0 <= x < at.len() ==> (#[trigger] at[x]).0 == p && p < at[x].1 < k && clock_concurrent(
                t[at[x].0].vclock,
                t[at[x].1].vclock,
            ) && concurrent_with(t, p, k)[x] == (t[at[x].0].id, t[at[x].1].id),
        forall|j: int|
            p < j < k && clock_concurrent(t[p].vclock, #[trigger] t[j].vclock) ==> at.contains(
                (p, j),
            ),
    decreases k - p,
{
    if k <= p + 1 {
        seq![]
    } else {
        let less = lemma_concurrent_with(t, p, k - 1);
        if clock_concurrent(t[p].vclock, t[k - 1].vclock) {
            let at = less.push((p, k - 1));
            assert forall|j: int|
                p < j < k && clock_concurrent(
                    t[p].vclock,
                    #[trigger] t[j].vclock,
                ) implies at.contains((p, j)) by {
                if j == k - 1 {
                    assert(at[less.len() as int] == (p, j));
                } else {
                    let x = choose|x: int| 0 <= x < less.len() && less[x] == (p, j);
                    assert(at[x] == (p, j));
                }
            }
            at
        } else {
            less
        }
    }
}

proof fn lemma_concurrent_pairs(t: Seq<EventModel>, p: int) -> (at: Seq<(int, int)>)
    requires
        0 <= p <= t.len(),
    ensures
        at.len() == concurrent_pairs(t, p).len(),
        forall|x: int, y: int|
            0 <= x < y < at.len() ==> pair_before(#[trigger] at[x], #[trigger] at[y]),
        forall|x: int|
            0 <= x < at.len() ==> 0 <= (#[trigger] at[x]).0 < p && at[x].0 < at[x].1 < t.len()
                && clock_concurrent(t[at[x].0].vclock, t[at[x].1].vclock) && concurrent_pairs(
                t,
                p,
            )[x] == (t[at[x].0].id, t[at[x].1].id),
        forall|i: int, j: int|
            0 <= i < p && i < j < t.len() && clock_concurrent(
                #[trigger] t[i].vclock,
                #[trigger] t[j].vclock,
            ) ==> at.contains((i, j)),
    decreases p,
{
    if p == 0 {
        seq![]
    } else {
        let first = lemma_concurrent_pairs(t, p - 1);
        let second = lemma_concurrent_with(t, p - 1, t.len() as int);
        let at = first + second;
        assert forall|x: int| 0 <= x < at.len() implies 0 <= (#[trigger] at[x]).0 < p && at[x].0
            < at[x].1 < t.len() && clock_concurrent(t[at[x].0].vclock, t[at[x].1].vclock)
            && concurrent_pairs(t, p)[x] == (t[at[x].0].id, t[at[x].1].id) by {
            if x < first.len() {
                assert(at[x] == first[x]);
            } else {
                assert(at[x] == second[x - first.len()]);
            }
        }
        assert forall|x: int, y: int| 0 <= x < y < at.len() implies pair_before(
            #[trigger] at[x],
            #[trigger] at[y],
        ) by {
            if y < first.len() {
                assert(pair_before(first[x], first[y]));
            } else if x >= first.len() {
                assert(pair_before(second[x - first.len()], second[y - first.len()]));
            } else {
                assert(at[x] == first[x]);
                assert(at[y] == second[y - first.len()]);
            }
        }
        assert forall|i: int, j: int|
            0 <= i < p && i < j < t.len() && clock_concurrent(
                #[trigger] t[i].vclock,
                #[trigger] t[j].vclock,
            ) implies at.contains((i, j)) by {
            if i < p - 1 {
                let x = choose|x: int| 0 <= x < first.len() && first[x] == (i, j);
                assert(at[x] == (i, j));
            } else {
                let x = choose|x: int| 0 <= x < second.len() && second[x] == (i, j);
                assert(at[first.len() + x] == (i, j));
            }
        }
        at
    }
}

/// The concurrent pairs that a replay tells of are those of all positions `i < j` of the timeline
/// whose clocks are concurrent, neighbours or not: each once, in the order of the positions.
pub proof fn all_concurrent_pairs_are_told(r: Replayed, log: Seq<EventModel>)
    requires
        is_replay_of(r, log),
    ensures
        exists|at: Seq<(int, int)>| #[trigger]
            lists_concurrent(
                log_model(r.timeline@),
                pair_texts(r.poset_json.concurrent@),
                at,
            ),
{
    let t = timeline(log);
    let at = lemma_concurrent_pairs(t, t.len() as int);
    assert(lists_concurrent(t, pair_texts(r.poset_json.concurrent@), at));
}

/// Where the events of a timeline have names of their own, a pair of names is told exactly when
/// the clocks of the two events are concurrent, and it is told once.
pub proof fn concurrent_pairs_by_name(r: Replayed, log: Seq<EventModel>, i: int, j: int)
    requires
        is_replay_of(r, log),
        forall|x: int, y: int|
            0 <= x < y < r.timeline@.len() ==> (#[trigger] r.timeline@[x]).id@ != (
            #[trigger] r.timeline@[y]).id@,
        0 <= i < j < r.timeline@.len(),
    ensures
        pair_texts(r.poset_json.concurrent@).contains(
            (r.timeline@[i].id@, r.timeline@[j].id@),
        ) <==> clock_concurrent(r.timeline@[i].vclock@, r.timeline@[j].vclock@),
        !pair_texts(r.poset_json.concurrent@).contains((r.timeline@[j].id@, r.timeline@[i].id@)),
        pair_texts(r.poset_json.concurrent@).no_duplicates(),
{
    let t = log_model(r.timeline@);
    let pairs = pair_texts(r.poset_json.concurrent@);
    all_concurrent_pairs_are_told(r, log);
    let at = choose|at: Seq<(int, int)>| #[trigger] lists_concurrent(t, pairs, at);
    assert(t[i] == r.timeline@[i]@ && t[j] == r.timeline@[j]@);
    let pair = (t[i].id, t[j].id);
    if pairs.contains(pair) {
        let x = choose|x: int| 0 <= x < pairs.len() && pairs[x] == pair;
        lemma_same_name(r, at[x].0, i);
        lemma_same_name(r, at[x].1, j);
    }
    if clock_concurrent(t[i].vclock, t[j].vclock) {
        assert(at.contains((i, j)));
        let x = choose|x: int| 0 <= x < at.len() && at[x] == (i, j);
        assert(pairs[x] == pair);
    }
    if pairs.contains((t[j].id, t[i].id)) {
        let x = choose|x: int| 0 <= x < pairs.len() && pairs[x] == (t[j].id, t[i].id);
        lemma_same_name(r, at[x].0, j);
        lemma_same_name(r, at[x].1, i);
    }
    assert forall|x: int, y: int| 0 <= x < pairs.len() && 0 <= y < pairs.len() && x
        != y implies pairs[x] != pairs[y] by {
        if pairs[x] == pairs[y] {
            lemma_same_name(r, at[x].0, at[y].0);
            lemma_same_name(r, at[x].1, at[y].1);
            if x < y {
                assert(pair_before(at[x], at[y]));
            } else {
                assert(pair_before(at[y], at[x]));
            }
        }
    }
}

proof fn lemma_same_name(r: Replayed, x: int, y: int)
    requires
        forall|x: int, y: int|
            0 <= x < y < r.timeline@.len() ==> (#[trigger] r.timeline@[x]).id@ != (
            #[trigger] r.timeline@[y]).id@,
        0 <= x < r.timeline@.len(),
        0 <= y < r.timeline@.len(),
        log_model(r.timeline@)[x].id == log_model(r.timeline@)[y].id,
    ensures
        x == y,
{
    if x < y {
        assert(r.timeline@[x].id@ != r.timeline@[y].id@);
    } else if y < x {
        assert(r.timeline@[y].id@ != r.timeline@[x].id@);
    }
}

/// A replay tells of the events of its timeline by their names, in its order, and of the direct
/// causal edges by the names of their ends, in their order.
pub proof fn a_replay_names_its_events(r: Replayed, log: Seq<EventModel>)
    requires
        is_replay_of(r, log),
    ensures
        log_model(r.timeline@) == timeline(log),
        r.poset_json.events@.len() == r.timeline@.len(),
        forall|p: int|
            0 <= p < r.timeline@.len() ==> (#[trigger] r.poset_json.events@[p])@
                == r.timeline@[p].id@,
        r.poset_json.edges@.len() == causal_edges(log).len(),
        forall|k: int|
            0 <= k < r.poset_json.edges@.len() ==> (#[trigger] r.poset_json.edges@[k]).0@
                == log[causal_edges(log)[k].0 as int].id && r.poset_json.edges@[k].1@
                == log[causal_edges(log)[k].1 as int].id,
{
    let t = timeline(log);
    assert(texts(r.poset_json.events@).len() == r.poset_json.events@.len());
    assert(log_model(r.timeline@).len() == r.timeline@.len());
    assert forall|p: int| 0 <= p < r.timeline@.len() implies (#[trigger] r.poset_json.events@[p])@
        == r.timeline@[p].id@ by {
        assert(texts(r.poset_json.events@)[p] == t[p].id);
        assert(log_model(r.timeline@)[p] == r.timeline@[p]@);
    }
    let told = pair_texts(r.poset_json.edges@);
    assert(told.len() == r.poset_json.edges@.len());
    assert forall|k: int| 0 <= k < r.poset_json.edges@.len() implies (
    #[trigger] r.poset_json.edges@[k]).0@ == log[causal_edges(log)[k].0 as int].id
        && r.poset_json.edges@[k].1@ == log[causal_edges(log)[k].1 as int].id by {
        assert(told[k] == (r.poset_json.edges@[k].0@, r.poset_json.edges@[k].1@));
    }
}

} // verus!
