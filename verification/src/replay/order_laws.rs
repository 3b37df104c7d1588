//! What holds of the canonical order.

use crate::clock::{clock_lt, happens_before_irreflexive, happens_before_transitive};
use crate::log::EventModel;
use crate::replay::extension::{
    canonical_order, lemma_distinct_below, lemma_push_distinct, lemma_rank_is_strict_order,
    next_up, rank_lt, ready, schedule,
};
use crate::replay::poset::{clocks_follow, edge_holds, edge_in_range};
use vstd::prelude::*;

verus! {

/// All edges lie among `n` events.
pub open spec fn edges_in_range(edges: Seq<(usize, usize)>, n: nat) -> bool {
    forall|i: int| 0 <= i < edges.len() ==> edge_in_range(#[trigger] edges[i], n)
}

/// `a` stands in the order before position `q`.
pub open spec fn stands_before(order: Seq<usize>, a: usize, q: int) -> bool {
    exists|p: int| 0 <= p < q && p < order.len() && #[trigger] order[p] == a
}

/// An order of events in which nothing occurs twice and every event comes after all its
/// direct causes.
pub open spec fn respects(n: nat, edges: Seq<(usize, usize)>, order: Seq<usize>) -> bool {
    &&& order.no_duplicates()
    &&& forall|p: int| 0 <= p < order.len() ==> (#[trigger] order[p]) < n
    &&& forall|k: int, q: int|
        0 <= k < edges.len() && 0 <= q < order.len() && (#[trigger] edges[k]).1
            == #[trigger] order[q] ==> stands_before(order, edges[k].0, q)
}

proof fn lemma_taking_respects(n: nat, edges: Seq<(usize, usize)>, done: Seq<usize>, x: usize)
    requires
        respects(n, edges, done),
        ready(n, edges, done, x),
    ensures
        respects(n, edges, done.push(x)),
{
    let more = done.push(x);
    lemma_push_distinct(done, x);
    assert forall|k: int, q: int|
        0 <= k < edges.len() && 0 <= q < more.len() && (#[trigger] edges[k]).1
            == #[trigger] more[q] implies stands_before(more, edges[k].0, q) by {
        if q < done.len() {
            assert(done[q] == more[q]);
            assert(stands_before(done, edges[k].0, q));
            let p = choose|p: int| 0 <= p < q && p < done.len() && #[trigger] done[p] == edges[k].0;
            assert(more[p] == edges[k].0);
        } else {
            assert(done.contains(edges[k].0));
            let p = choose|p: int| 0 <= p < done.len() && done[p] == edges[k].0;
            assert(more[p] == edges[k].0);
        }
    }
}

proof fn lemma_schedule_respects(
    log: Seq<EventModel>,
    edges: Seq<(usize, usize)>,
    done: Seq<usize>,
)
    requires
        respects(log.len(), edges, done),
    ensures
        respects(log.len(), edges, schedule(log, edges, done)),
    decreases log.len() - done.len(),
{
    if done.len() < log.len() && exists|i: usize| #[trigger] next_up(log, edges, done, i) {
        let x = choose|i: usize| #[trigger] next_up(log, edges, done, i);
        lemma_taking_respects(log.len(), edges, done, x);
        lemma_schedule_respects(log, edges, done.push(x));
    }
}

/// The canonical order holds no event twice, and every event in it comes after all its direct
/// causes.
pub proof fn order_respects_all_edges(log: Seq<EventModel>, edges: Seq<(usize, usize)>)
    ensures
        respects(log.len(), edges, canonical_order(log, edges)),
        canonical_order(log, edges).len() <= log.len(),
{
    lemma_schedule_respects(log, edges, seq![]);
    lemma_distinct_below(canonical_order(log, edges), log.len());
}

/// A canonical order as long as the log holds every event.
pub proof fn full_order_holds_every_event(
    log: Seq<EventModel>,
    edges: Seq<(usize, usize)>,
    i: usize,
)
    requires
        canonical_order(log, edges).len() == log.len(),
        i < log.len(),
    ensures
        canonical_order(log, edges).contains(i),
{
    let o = canonical_order(log, edges);
    order_respects_all_edges(log, edges);
    if !o.contains(i) {
        lemma_push_distinct(o, i);
        lemma_distinct_below(o.push(i), log.len());
    }
}

proof fn lemma_schedule_steps(
    log: Seq<EventModel>,
    edges: Seq<(usize, usize)>,
    done: Seq<usize>,
)
    requires
        done.len() <= log.len(),
    ensures
        schedule(log, edges, done).len() >= done.len(),
        schedule(log, edges, done).take(done.len() as int) == done,
        forall|k: int|
            done.len() <= k < schedule(log, edges, done).len() ==> next_up(
                log,
                edges,
                schedule(log, edges, done).take(k),
                #[trigger] schedule(log, edges, done)[k],
            ),
    decreases log.len() - done.len(),
{
    let o = schedule(log, edges, done);
    if done.len() < log.len() && exists|i: usize| #[trigger] next_up(log, edges, done, i) {
        let x = choose|i: usize| #[trigger] next_up(log, edges, done, i);
        lemma_schedule_steps(log, edges, done.push(x));
        assert(o.take(done.len() as int) =~= o.take(done.len() as int + 1).take(done.len() as int));
        assert(done.push(x).take(done.len() as int) =~= done);
        assert(o[done.len() as int] == o.take(done.len() as int + 1)[done.len() as int]);
        assert forall|k: int| done.len() <= k < o.len() implies next_up(
            log,
            edges,
            o.take(k),
            #[trigger] o[k],
        ) by {
            if k == done.len() {
                assert(o[k] == x);
            }
        }
    } else {
        assert(o.take(done.len() as int) =~= done);
    }
}

/// At every position the canonical order takes the smallest of the events that are ready.
pub proof fn every_step_takes_the_smallest(
    log: Seq<EventModel>,
    edges: Seq<(usize, usize)>,
    k: int,
)
    requires
        0 <= k < canonical_order(log, edges).len(),
    ensures
        next_up(log, edges, canonical_order(log, edges).take(k), canonical_order(log, edges)[k]),
{
    lemma_schedule_steps(log, edges, seq![]);
}

/// Of the ready events below `m` there is a smallest, if there is any.
proof fn lemma_smallest_below(
    log: Seq<EventModel>,
    edges: Seq<(usize, usize)>,
    done: Seq<usize>,
    m: int,
) -> (r: Option<usize>)
    requires
        0 <= m <= log.len(),
        log.len() <= usize::MAX,
    ensures
        match r {
            Some(x) => {
                &&& ready(log.len(), edges, done, x)
                &&& forall|j: usize| #[trigger]
                    ready(log.len(), edges, done, j) && j < m ==> j == x || rank_lt(
                        log,
                        x as int,
                        j as int,
                    )
            },
            None => forall|j: usize| #[trigger] ready(log.len(), edges, done, j) ==> j >= m,
        },
    decreases m,
{
    if m == 0 {
        None
    } else {
        let prior = lemma_smallest_below(log, edges, done, m - 1);
        let y = (m - 1) as usize;
        if !ready(log.len(), edges, done, y) {
            prior
        } else {
            match prior {
                None => Some(y),
                Some(x) => {
                    lemma_rank_is_strict_order(log, x as int, y as int, x as int);
                    if rank_lt(log, y as int, x as int) {
                        assert forall|j: usize| #[trigger]
                            ready(log.len(), edges, done, j) && j < m implies j == y || rank_lt(
                            log,
                            y as int,
                            j as int,
                        ) by {
                            lemma_rank_is_strict_order(log, y as int, x as int, j as int);
                        }
                        Some(y)
                    } else {
                        Some(x)
                    }
                },
            }
        }
    }
}

proof fn lemma_schedule_exhausts(
    log: Seq<EventModel>,
    edges: Seq<(usize, usize)>,
    done: Seq<usize>,
)
    requires
        log.len() <= usize::MAX,
        respects(log.len(), edges, done),
    ensures
        forall|i: usize| !#[trigger] ready(log.len(), edges, schedule(log, edges, done), i),
    decreases log.len() - done.len(),
{
    if done.len() < log.len() && exists|i: usize| #[trigger] next_up(log, edges, done, i) {
        let x = choose|i: usize| #[trigger] next_up(log, edges, done, i);
        lemma_taking_respects(log.len(), edges, done, x);
        lemma_schedule_exhausts(log, edges, done.push(x));
        assert(schedule(log, edges, done) == schedule(log, edges, done.push(x)));
    } else {
        assert(schedule(log, edges, done) == done);
        assert forall|i: usize| !#[trigger] ready(log.len(), edges, done, i) by {
            if ready(log.len(), edges, done, i) {
                lemma_push_distinct(done, i);
                lemma_distinct_below(done.push(i), log.len());
                let s = lemma_smallest_below(log, edges, done, log.len() as int);
                assert(next_up(log, edges, done, s->0));
            }
        }
    }
}

/// The canonical order goes on as long as any event is ready.
pub proof fn order_leaves_nothing_ready(
    log: Seq<EventModel>,
    edges: Seq<(usize, usize)>,
    i: usize,
)
    requires
        log.len() <= usize::MAX,
    ensures
        !ready(log.len(), edges, canonical_order(log, edges), i),
{
    lemma_schedule_exhausts(log, edges, seq![]);
}

/// A set of events that wait for each other: each has a direct cause in the set.
pub open spec fn deadlocked(n: nat, edges: Seq<(usize, usize)>, s: Set<usize>) -> bool {
    &&& exists|i: usize| #[trigger] s.contains(i)
    &&& forall|i: usize| #[trigger] s.contains(i) ==> i < n && exists|k: int|
        0 <= k < edges.len() && (#[trigger] edges[k]).1 == i && s.contains(edges[k].0)
}

proof fn lemma_deadlock_is_never_taken(
    log: Seq<EventModel>,
    edges: Seq<(usize, usize)>,
    s: Set<usize>,
    k: int,
)
    requires
        deadlocked(log.len(), edges, s),
        0 <= k <= canonical_order(log, edges).len(),
    ensures
        forall|p: int| 0 <= p < k ==> !s.contains(#[trigger] canonical_order(log, edges)[p]),
    decreases k,
{
    let o = canonical_order(log, edges);
    if k > 0 {
        lemma_deadlock_is_never_taken(log, edges, s, k - 1);
        every_step_takes_the_smallest(log, edges, k - 1);
        let x = o[k - 1];
        if s.contains(x) {
            let e = choose|e: int|
                0 <= e < edges.len() && (#[trigger] edges[e]).1 == x && s.contains(edges[e].0);
            let taken = o.take(k - 1);
            assert(taken.contains(edges[e].0));
            let p = choose|p: int| 0 <= p < taken.len() && taken[p] == edges[e].0;
            assert(o[p] == edges[e].0);
        }
    }
}

proof fn lemma_leftovers_deadlock(log: Seq<EventModel>, edges: Seq<(usize, usize)>) -> (s: Set<
    usize,
>)
    requires
        log.len() <= usize::MAX,
        edges_in_range(edges, log.len()),
        canonical_order(log, edges).len() < log.len(),
    ensures
        deadlocked(log.len(), edges, s),
{
    let o = canonical_order(log, edges);
    let n = log.len();
    let s = Set::new(|i: usize| i < n && !o.contains(i));
    if forall|i: usize| i < n ==> #[trigger] o.contains(i) {
        lemma_all_present(o, n);
    }
    let i = choose|i: usize| i < n && !#[trigger] o.contains(i);
    assert(s.contains(i));
    assert forall|i: usize| #[trigger] s.contains(i) implies i < n && exists|k: int|
        0 <= k < edges.len() && (#[trigger] edges[k]).1 == i && s.contains(edges[k].0) by {
        order_leaves_nothing_ready(log, edges, i);
        let k = choose|k: int|
            0 <= k < edges.len() && (#[trigger] edges[k]).1 == i && !o.contains(edges[k].0);
        assert(edge_in_range(edges[k], n));
        assert(s.contains(edges[k].0));
    }
    s
}

proof fn lemma_deadlock_leaves_over(
    log: Seq<EventModel>,
    edges: Seq<(usize, usize)>,
    s: Set<usize>,
)
    requires
        deadlocked(log.len(), edges, s),
    ensures
        canonical_order(log, edges).len() < log.len(),
{
    let o = canonical_order(log, edges);
    order_respects_all_edges(log, edges);
    lemma_deadlock_is_never_taken(log, edges, s, o.len() as int);
    let i = choose|i: usize| #[trigger] s.contains(i);
    if o.len() == log.len() {
        full_order_holds_every_event(log, edges, i);
        let p = choose|p: int| 0 <= p < o.len() && o[p] == i;
        assert(s.contains(o[p]));
    }
}

/// Events are left over exactly when some events wait for each other.
pub proof fn events_left_over_iff_deadlocked(log: Seq<EventModel>, edges: Seq<(usize, usize)>)
    requires
        log.len() <= usize::MAX,
        edges_in_range(edges, log.len()),
    ensures
        canonical_order(log, edges).len() < log.len() <==> exists|s: Set<usize>| #[trigger]
            deadlocked(log.len(), edges, s),
{
    if canonical_order(log, edges).len() < log.len() {
        let s = lemma_leftovers_deadlock(log, edges);
        assert(deadlocked(log.len(), edges, s));
    }
    if exists|s: Set<usize>| #[trigger] deadlocked(log.len(), edges, s) {
        let s = choose|s: Set<usize>| #[trigger] deadlocked(log.len(), edges, s);
        lemma_deadlock_leaves_over(log, edges, s);
    }
}

/// A sequence that holds every number below `n` has at least `n` elements.
proof fn lemma_all_present(o: Seq<usize>, n: nat)
    requires
        n <= usize::MAX,
        forall|i: usize| i < n ==> #[trigger] o.contains(i),
    ensures
        o.len() >= n,
{
    let t = Seq::new(o.len(), |i: int| o[i] as int);
    vstd::set_lib::lemma_int_range(0, n as int);
    let all = vstd::set_lib::set_int_range(0, n as int);
    assert(all.subset_of(t.to_set())) by {
        assert forall|x: int| all.contains(x) implies t.to_set().contains(x) by {
            let i = x as usize;
            assert(o.contains(i));
            let p = choose|p: int| 0 <= p < o.len() && o[p] == i;
            assert(t[p] == x);
        }
    }
    t.lemma_cardinality_of_set();
    vstd::set_lib::lemma_len_subset(all, t.to_set());
}

/// A finite set of events with strictly ordered clocks has an event without a predecessor in it.
proof fn lemma_earliest_exists(log: Seq<EventModel>, s: Set<usize>) -> (r: usize)
    requires
        s.finite(),
        s.len() > 0,
    ensures
        s.contains(r),
        forall|i: usize| #[trigger]
            s.contains(i) ==> !clock_lt(log[i as int].vclock, log[r as int].vclock),
    decreases s.len(),
{
    let x = s.choose();
    let rest = s.remove(x);
    happens_before_irreflexive(log[x as int].vclock);
    if rest.len() == 0 {
        assert forall|i: usize| #[trigger] s.contains(i) implies !clock_lt(
            log[i as int].vclock,
            log[x as int].vclock,
        ) by {
            if i != x {
                assert(rest.contains(i));
            }
        }
        x
    } else {
        let m = lemma_earliest_exists(log, rest);
        if clock_lt(log[x as int].vclock, log[m as int].vclock) {
            assert forall|i: usize| #[trigger] s.contains(i) implies !clock_lt(
                log[i as int].vclock,
                log[x as int].vclock,
            ) by {
                if i != x && clock_lt(log[i as int].vclock, log[x as int].vclock) {
                    happens_before_transitive(
                        log[i as int].vclock,
                        log[x as int].vclock,
                        log[m as int].vclock,
                    );
                    assert(rest.contains(i));
                }
            }
            x
        } else {
            assert forall|i: usize| #[trigger] s.contains(i) implies !clock_lt(
                log[i as int].vclock,
                log[m as int].vclock,
            ) by {
                if i != x {
                    assert(rest.contains(i));
                }
            }
            m
        }
    }
}

/// A log whose clocks follow its edges is linearized completely: it holds no cycle.
pub proof fn validated_log_has_no_cycle(log: Seq<EventModel>, edges: Seq<(usize, usize)>)
    requires
        log.len() <= usize::MAX,
        edges_in_range(edges, log.len()),
        clocks_follow(log, edges),
    ensures
        canonical_order(log, edges).len() == log.len(),
{
    order_respects_all_edges(log, edges);
    events_left_over_iff_deadlocked(log, edges);
    if canonical_order(log, edges).len() < log.len() {
        let s = choose|s: Set<usize>| #[trigger] deadlocked(log.len(), edges, s);
        let all = Set::new(|i: usize| i < log.len());
        lemma_below_finite(log.len());
        assert(s.subset_of(all));
        vstd::set_lib::lemma_set_subset_finite(all, s);
        let i = choose|i: usize| #[trigger] s.contains(i);
        assert(s.len() > 0) by {
            if s.len() == 0 {
                assert(s =~= Set::empty());
            }
        }
        let m = lemma_earliest_exists(log, s);
        let k = choose|k: int|
            0 <= k < edges.len() && (#[trigger] edges[k]).1 == m && s.contains(edges[k].0);
        assert(edge_holds(log, edges, k));
    }
}

proof fn lemma_below_finite(n: nat)
    requires
        n <= usize::MAX,
    ensures
        Set::new(|i: usize| i < n).finite(),
    decreases n,
{
    let s = Set::new(|i: usize| i < n);
    if n == 0 {
        assert(s =~= Set::empty());
    } else {
        lemma_below_finite((n - 1) as nat);
        assert(s =~= Set::new(|i: usize| i < (n - 1) as nat).insert((n - 1) as usize));
    }
}

} // verus!
