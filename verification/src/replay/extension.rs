//! Linearization: one canonical order of the events that respects every causal edge.

use crate::log::{log_model, CausalEvent, EventModel};
use crate::replay::error::ReplayError;
use crate::replay::lines::{
    line_before, line_lt, line_lt_irreflexive, line_lt_total, line_lt_transitive,
};
use crate::replay::poset::{edge_in_range, Poset};
use vstd::prelude::*;

verus! {

/// The order in which ready events are taken: by Lamport stamp, then by actor, counter and
/// position.
pub open spec fn rank_lt(log: Seq<EventModel>, i: int, j: int) -> bool {
    log[i].lamport < log[j].lamport || (log[i].lamport == log[j].lamport && line_lt(log, i, j))
}

/// Event `i` can be taken after the events in `done`: it has not been taken, and all its
/// direct causes have.
pub open spec fn ready(n: nat, edges: Seq<(usize, usize)>, done: Seq<usize>, i: usize) -> bool {
    &&& i < n
    &&& !done.contains(i)
    &&& forall|k: int|
        0 <= k < edges.len() && (#[trigger] edges[k]).1 == i ==> done.contains(edges[k].0)
}

/// Event `i` is the one to take next.
pub open spec fn next_up(
    log: Seq<EventModel>,
    edges: Seq<(usize, usize)>,
    done: Seq<usize>,
    i: usize,
) -> bool {
    &&& ready(log.len(), edges, done, i)
    &&& forall|j: usize| #[trigger]
        ready(log.len(), edges, done, j) ==> j == i || rank_lt(log, i as int, j as int)
}

/// Take the events that follow `done`, one by one, until none is ready.
pub open spec fn schedule(
    log: Seq<EventModel>,
    edges: Seq<(usize, usize)>,
    done: Seq<usize>,
) -> Seq<usize>
    decreases log.len() - done.len(),
{
    if done.len() < log.len() && exists|i: usize| #[trigger] next_up(log, edges, done, i) {
        schedule(log, edges, done.push(choose|i: usize| #[trigger] next_up(log, edges, done, i)))
    } else {
        done
    }
}

/// The canonical order of a log. It leaves out the events that wait for each other in a cycle.
pub open spec fn canonical_order(log: Seq<EventModel>, edges: Seq<(usize, usize)>) -> Seq<usize> {
    schedule(log, edges, seq![])
}

pub proof fn lemma_rank_is_strict_order(log: Seq<EventModel>, i: int, j: int, k: int)
    ensures
        !rank_lt(log, i, i),
        rank_lt(log, i, j) && rank_lt(log, j, k) ==> rank_lt(log, i, k),
        i == j || rank_lt(log, i, j) || rank_lt(log, j, i),
{
    line_lt_irreflexive(log, i);
    line_lt_total(log, i, j);
    if line_lt(log, i, j) && line_lt(log, j, k) {
        line_lt_transitive(log, i, j, k);
    }
}

pub proof fn lemma_next_up_unique(
    log: Seq<EventModel>,
    edges: Seq<(usize, usize)>,
    done: Seq<usize>,
    i: usize,
    j: usize,
)
    requires
        next_up(log, edges, done, i),
        next_up(log, edges, done, j),
    ensures
        i == j,
{
    if i != j {
        lemma_rank_is_strict_order(log, i as int, j as int, i as int);
    }
}

// ---------------------------------------------------------------------------
// Counting the causes that are still missing
// ---------------------------------------------------------------------------

/// How many of the first `k` edges lead to `i` from an event that is not in `done`.
spec fn missing(edges: Seq<(usize, usize)>, done: Seq<usize>, i: usize, k: int) -> nat
    decreases k,
{
    if k < 1 {
        0
    } else {
        missing(edges, done, i, k - 1) + if edges[k - 1].1 == i && !done.contains(edges[k - 1].0) {
            1nat
        } else {
            0nat
        }
    }
}

/// The ends of those of the first `k` edges that start at `a`.
spec fn targets(edges: Seq<(usize, usize)>, a: usize, k: int) -> Seq<usize>
    decreases k,
{
    if k < 1 {
        seq![]
    } else if edges[k - 1].0 == a {
        targets(edges, a, k - 1).push(edges[k - 1].1)
    } else {
        targets(edges, a, k - 1)
    }
}

/// How often `j` occurs.
spec fn occurrences(s: Seq<usize>, j: usize) -> nat
    decreases s.len(),
{
    if s.len() == 0 {
        0
    } else {
        occurrences(s.drop_last(), j) + if s.last() == j {
            1nat
        } else {
            0nat
        }
    }
}

proof fn lemma_missing_bound(edges: Seq<(usize, usize)>, done: Seq<usize>, i: usize, k: int)
    requires
        0 <= k <= edges.len(),
    ensures
        missing(edges, done, i, k) <= k,
    decreases k,
{
    if k >= 1 {
        lemma_missing_bound(edges, done, i, k - 1);
    }
}

proof fn lemma_none_missing(edges: Seq<(usize, usize)>, done: Seq<usize>, i: usize, k: int)
    requires
        0 <= k <= edges.len(),
    ensures
        missing(edges, done, i, k) == 0 <==> forall|q: int|
            0 <= q < k && (#[trigger] edges[q]).1 == i ==> done.contains(edges[q].0),
    decreases k,
{
    if k >= 1 {
        lemma_none_missing(edges, done, i, k - 1);
        if missing(edges, done, i, k) == 0 {
            assert forall|q: int| 0 <= q < k && (#[trigger] edges[q]).1 == i implies done.contains(
                edges[q].0,
            ) by {
                if q == k - 1 {
                }
            }
        } else if missing(edges, done, i, k - 1) == 0 {
            assert(edges[k - 1].1 == i && !done.contains(edges[k - 1].0));
        }
    }
}

/// Taking `x` supplies exactly the edges from `x`.
proof fn lemma_taking_supplies(
    edges: Seq<(usize, usize)>,
    done: Seq<usize>,
    x: usize,
    j: usize,
    k: int,
)
    requires
        0 <= k <= edges.len(),
        !done.contains(x),
    ensures
        missing(edges, done, j, k) == missing(edges, done.push(x), j, k) + occurrences(
            targets(edges, x, k),
            j,
        ),
    decreases k,
{
    if k >= 1 {
        lemma_taking_supplies(edges, done, x, j, k - 1);
        let e = edges[k - 1];
        assert(done.push(x).contains(e.0) <==> done.contains(e.0) || e.0 == x) by {
            if done.contains(e.0) {
                let p = choose|p: int| 0 <= p < done.len() && done[p] == e.0;
                assert(done.push(x)[p] == e.0);
            }
            if e.0 == x {
                assert(done.push(x)[done.len() as int] == x);
            }
        }
        if e.0 == x {
            let t = targets(edges, x, k);
            assert(t.drop_last() =~= targets(edges, x, k - 1));
        }
    }
}

proof fn lemma_occurrences_grow(s: Seq<usize>, j: usize, t: int)
    requires
        0 <= t <= s.len(),
    ensures
        occurrences(s.take(t), j) <= occurrences(s, j),
    decreases s.len() - t,
{
    if t == s.len() {
        assert(s.take(t) =~= s);
    } else {
        lemma_occurrences_grow(s, j, t + 1);
        assert(s.take(t + 1).drop_last() =~= s.take(t));
    }
}

proof fn lemma_targets_in_range(edges: Seq<(usize, usize)>, a: usize, k: int, n: nat)
    requires
        0 <= k <= edges.len(),
        forall|i: int| 0 <= i < edges.len() ==> edge_in_range(#[trigger] edges[i], n),
    ensures
        forall|t: int| 0 <= t < targets(edges, a, k).len() ==> (#[trigger] targets(edges, a, k)[t]) < n,
    decreases k,
{
    if k >= 1 {
        lemma_targets_in_range(edges, a, k - 1, n);
        assert(edge_in_range(edges[k - 1], n));
        let prior = targets(edges, a, k - 1);
        assert forall|t: int| 0 <= t < targets(edges, a, k).len() implies (#[trigger] targets(
            edges,
            a,
            k,
        )[t]) < n by {
            if t < prior.len() {
                assert(prior[t] < n);
            }
        }
    }
}

/// Distinct numbers below `n` are at most `n`.
pub proof fn lemma_distinct_below(s: Seq<usize>, n: nat)
    requires
        s.no_duplicates(),
        forall|i: int| 0 <= i < s.len() ==> (#[trigger] s[i]) < n,
    ensures
        s.len() <= n,
{
    let t = Seq::new(s.len(), |i: int| s[i] as int);
    assert(t.no_duplicates());
    t.unique_seq_to_set();
    vstd::set_lib::lemma_int_range(0, n as int);
    assert(t.to_set().subset_of(vstd::set_lib::set_int_range(0, n as int)));
    vstd::set_lib::lemma_len_subset(t.to_set(), vstd::set_lib::set_int_range(0, n as int));
}

// ---------------------------------------------------------------------------
// The algorithm
// ---------------------------------------------------------------------------

fn rank_before(events: &[CausalEvent], i: usize, j: usize) -> (r: bool)
    requires
        i < events@.len(),
        j < events@.len(),
    ensures
        r == rank_lt(log_model(events@), i as int, j as int),
{
    events[i].lamport < events[j].lamport || (events[i].lamport == events[j].lamport && line_before(
        events,
        i,
        j,
    ))
}

/// The position in `waiting` of the event to take next.
fn least(events: &[CausalEvent], waiting: &Vec<usize>) -> (r: usize)
    requires
        waiting@.len() > 0,
        forall|i: int| 0 <= i < waiting@.len() ==> (#[trigger] waiting@[i]) < events@.len(),
    ensures
        r < waiting@.len(),
        forall|i: int|
            0 <= i < waiting@.len() ==> waiting@[r as int] == #[trigger] waiting@[i] || rank_lt(
                log_model(events@),
                waiting@[r as int] as int,
                waiting@[i] as int,
            ),
{
    let ghost log = log_model(events@);
    let mut best: usize = 0;
    let mut i: usize = 1;
    while i < waiting.len()
        invariant
            log == log_model(events@),
            forall|k: int| 0 <= k < waiting@.len() ==> (#[trigger] waiting@[k]) < events@.len(),
            best < i <= waiting@.len(),
            forall|k: int|
                0 <= k < i ==> waiting@[best as int] == #[trigger] waiting@[k] || rank_lt(
                    log,
                    waiting@[best as int] as int,
                    waiting@[k] as int,
                ),
        decreases waiting@.len() - i,
    {
        if rank_before(events, waiting[i], waiting[best]) {
            proof {
                assert forall|k: int| 0 <= k < i + 1 implies waiting@[i as int]
                    == #[trigger] waiting@[k] || rank_lt(
                    log,
                    waiting@[i as int] as int,
                    waiting@[k] as int,
                ) by {
                    lemma_rank_is_strict_order(
                        log,
                        waiting@[i as int] as int,
                        waiting@[best as int] as int,
                        waiting@[k] as int,
                    );
                }
            }
            best = i;
        } else {
            proof {
                lemma_rank_is_strict_order(
                    log,
                    waiting@[i as int] as int,
                    waiting@[best as int] as int,
                    0,
                );
            }
        }
        i = i + 1;
    }
    best
}

/// The canonical linear extension of the poset: ready events are taken smallest-first by
/// Lamport stamp, actor, counter and position, so that the result depends on the log alone.
pub fn linearize(poset: &Poset) -> (r: Result<Vec<usize>, ReplayError>)
    requires
        poset.well_formed(),
    ensures
        match r {
            Ok(order) => {
                &&& order@ == canonical_order(poset.log(), poset.edges@)
                &&& order@.len() == poset.events@.len()
            },
            Err(ReplayError::Cycle(left)) => {
                &&& left > 0
                &&& left == poset.events@.len() - canonical_order(poset.log(), poset.edges@).len()
            },
            Err(_) => false,
        },
{
    let n = poset.events.len();
    let ghost log = poset.log();
    let ghost edges = poset.edges@;

    let mut indeg: Vec<usize> = Vec::new();
    let mut succ: Vec<Vec<usize>> = Vec::new();
    let mut i: usize = 0;
    while i < n
        invariant
            i <= n,
            indeg@.len() == i,
            succ@.len() == i,
            forall|k: int| 0 <= k < i ==> (#[trigger] indeg@[k]) == 0,
            forall|k: int| 0 <= k < i ==> (#[trigger] succ@[k])@ == Seq::<usize>::empty(),
        decreases n - i,
    {
        indeg.push(0);
        succ.push(Vec::new());
        i = i + 1;
    }
    let ghost nobody = Seq::<usize>::empty();
    let mut e: usize = 0;
    while e < poset.edges.len()
        invariant
            n == poset.events@.len(),
            edges == poset.edges@,
            poset.well_formed(),
            nobody == Seq::<usize>::empty(),
            e <= edges.len(),
            indeg@.len() == n,
            succ@.len() == n,
            forall|k: usize|
                k < n ==> #[trigger] indeg@[k as int] == missing(edges, nobody, k, e as int),
            forall|k: usize|
                k < n ==> (#[trigger] succ@[k as int])@ == targets(edges, k, e as int),
        decreases edges.len() - e,
    {
        let (a, b) = poset.edges[e];
        assert(edge_in_range(edges[e as int], n as nat));
        proof {
            lemma_missing_bound(edges, nobody, b, e as int);
        }
        succ[a].push(b);
        indeg[b] = indeg[b] + 1;
        e = e + 1;
    }

    let mut waiting: Vec<usize> = Vec::new();
    let mut i: usize = 0;
    while i < n
        invariant
            n == poset.events@.len(),
            edges == poset.edges@,
            i <= n,
            indeg@.len() == n,
            nobody == Seq::<usize>::empty(),
            forall|k: usize|
                k < n ==> #[trigger] indeg@[k as int] == missing(
                    edges,
                    nobody,
                    k,
                    edges.len() as int,
                ),
            waiting@.no_duplicates(),
            forall|k: usize| #[trigger]
                waiting@.contains(k) <==> k < i && ready(n as nat, edges, nobody, k),
        decreases n - i,
    {
        proof {
            lemma_none_missing(edges, nobody, i, edges.len() as int);
        }
        if indeg[i] == 0 {
            let ghost before = waiting@;
            waiting.push(i);
            proof {
                assert(!before.contains(i));
                lemma_push_member(before, i);
                lemma_push_distinct(before, i);
            }
        }
        i = i + 1;
    }

    let mut order: Vec<usize> = Vec::new();
    while waiting.len() > 0
        invariant
            n == poset.events@.len(),
            log == poset.log(),
            edges == poset.edges@,
            poset.well_formed(),
            indeg@.len() == n,
            succ@.len() == n,
            forall|k: usize|
                k < n ==> #[trigger] indeg@[k as int] == missing(
                    edges,
                    order@,
                    k,
                    edges.len() as int,
                ),
            forall|k: usize|
                k < n ==> (#[trigger] succ@[k as int])@ == targets(edges, k, edges.len() as int),
            waiting@.no_duplicates(),
            forall|k: usize| #[trigger] waiting@.contains(k) <==> ready(n as nat, edges, order@, k),
            order@.no_duplicates(),
            forall|k: int| 0 <= k < order@.len() ==> (#[trigger] order@[k]) < n,
            forall|k: usize| #[trigger]
                order@.contains(k) ==> missing(edges, order@, k, edges.len() as int) == 0,
            schedule(log, edges, order@) == canonical_order(log, edges),
            order@.len() <= n,
        decreases n - order@.len(),
    {
        proof {
            assert forall|k: int| 0 <= k < waiting@.len() implies (#[trigger] waiting@[k])
                < poset.events@.len() by {
                assert(waiting@.contains(waiting@[k]));
            }
        }
        let at = least(poset.events, &waiting);
        let ghost w0 = waiting@;
        let ghost done = order@;
        let x = waiting.swap_remove(at);
        proof {
            assert(w0.contains(x));
            assert(next_up(log, edges, done, x)) by {
                assert forall|j: usize| #[trigger] ready(log.len(), edges, done, j) implies j == x
                    || rank_lt(log, x as int, j as int) by {
                    assert(w0.contains(j));
                    let p = choose|p: int| 0 <= p < w0.len() && w0[p] == j;
                    assert(w0[at as int] == w0[p] || rank_lt(log, w0[at as int] as int, w0[p] as int));
                }
            }
            let c = choose|c: usize| #[trigger] next_up(log, edges, done, c);
            lemma_next_up_unique(log, edges, done, c, x);
            lemma_push_member(done, x);
            lemma_push_distinct(done, x);
            lemma_distinct_below(done.push(x), n as nat);
            lemma_swap_removed(w0, waiting@, at as int);
            lemma_none_missing(edges, done, x, edges.len() as int);
        }
        order.push(x);
        let ghost full = succ@[x as int]@;
        proof {
            lemma_targets_in_range(edges, x, edges.len() as int, n as nat);
            assert forall|k: usize| k < n implies #[trigger] indeg@[k as int] == missing(
                edges,
                order@,
                k,
                edges.len() as int,
            ) + occurrences(full, k) - occurrences(full.take(0), k) by {
                lemma_taking_supplies(edges, done, x, k, edges.len() as int);
                assert(full.take(0) =~= Seq::<usize>::empty());
            }
            // Whatever was taken before had all its causes, so `x` is none of them.
            assert forall|k: usize| #[trigger] order@.contains(k) implies missing(
                edges,
                order@,
                k,
                edges.len() as int,
            ) == 0 && occurrences(full, k) == 0 by {
                lemma_taking_supplies(edges, done, x, k, edges.len() as int);
                if k != x {
                    assert(done.contains(k));
                }
            }
            assert forall|k: usize| #[trigger] waiting@.contains(k) <==> k < n && !order@.contains(k)
                && indeg@[k as int] == 0 by {
                if k < n {
                    lemma_none_missing(edges, done, k, edges.len() as int);
                }
            }
        }
        let mut t: usize = 0;
        while t < succ[x].len()
            invariant
                n == poset.events@.len(),
                x < n,
                indeg@.len() == n,
                succ@.len() == n,
                full == succ@[x as int]@,
                t <= full.len(),
                forall|q: int| 0 <= q < full.len() ==> (#[trigger] full[q]) < n,
                forall|k: usize|
                    k < n ==> #[trigger] indeg@[k as int] == missing(
                        edges,
                        order@,
                        k,
                        edges.len() as int,
                    ) + occurrences(full, k) - occurrences(full.take(t as int), k),
                forall|k: usize| #[trigger] order@.contains(k) ==> occurrences(full, k) == 0,
                waiting@.no_duplicates(),
                forall|k: usize| #[trigger]
                    waiting@.contains(k) <==> k < n && !order@.contains(k) && indeg@[k as int] == 0,
            decreases full.len() - t,
        {
            let j = succ[x][t];
            let ghost before = waiting@;
            let ghost indeg0 = indeg@;
            proof {
                assert(j == full[t as int]);
                assert forall|k: usize| #[trigger] occurrences(full.take(t + 1), k) == occurrences(
                    full.take(t as int),
                    k,
                ) + if k == j {
                    1nat
                } else {
                    0nat
                } by {
                    assert(full.take(t + 1).drop_last() =~= full.take(t as int));
                }
                lemma_occurrences_grow(full, j, t + 1);
                assert(indeg@[j as int] >= 1);
                if order@.contains(j) {
                    assert(occurrences(full, j) == 0);
                }
            }
            indeg[j] = indeg[j] - 1;
            if indeg[j] == 0 {
                waiting.push(j);
                proof {
                    assert(!before.contains(j));
                    lemma_push_member(before, j);
                    lemma_push_distinct(before, j);
                }
            }
            proof {
                assert forall|k: usize| k < n implies #[trigger] indeg@[k as int] == missing(
                    edges,
                    order@,
                    k,
                    edges.len() as int,
                ) + occurrences(full, k) - occurrences(full.take(t + 1), k) by {
                    assert(indeg0[k as int] == missing(edges, order@, k, edges.len() as int)
                        + occurrences(full, k) - occurrences(full.take(t as int), k));
                    assert(occurrences(full.take(t + 1), k) == occurrences(full.take(t as int), k)
                        + if k == j {
                        1nat
                    } else {
                        0nat
                    });
                }
                assert forall|k: usize| #[trigger] waiting@.contains(k) <==> k < n
                    && !order@.contains(k) && indeg@[k as int] == 0 by {
                    assert(before.contains(k) <==> k < n && !order@.contains(k)
                        && indeg0[k as int] == 0);
                }
            }
            t = t + 1;
        }
        proof {
            assert(full.take(full.len() as int) =~= full);
            assert forall|k: usize| #[trigger] waiting@.contains(k) <==> ready(
                n as nat,
                edges,
                order@,
                k,
            ) by {
                if k < n {
                    assert(indeg@[k as int] == missing(edges, order@, k, edges.len() as int));
                    lemma_none_missing(edges, order@, k, edges.len() as int);
                }
            }
        }
    }
    proof {
        assert forall|i: usize| !#[trigger] next_up(log, edges, order@, i) by {
            assert(!waiting@.contains(i));
        }
    }
    if order.len() != n {
        return Err(ReplayError::Cycle(n - order.len()));
    }
    Ok(order)
}

pub proof fn lemma_push_member(s: Seq<usize>, x: usize)
    ensures
        forall|k: usize| #[trigger] s.push(x).contains(k) <==> s.contains(k) || k == x,
{
    assert forall|k: usize| #[trigger] s.push(x).contains(k) <==> s.contains(k) || k == x by {
        if s.contains(k) {
            let p = choose|p: int| 0 <= p < s.len() && s[p] == k;
            assert(s.push(x)[p] == k);
        }
        if k == x {
            assert(s.push(x)[s.len() as int] == k);
        }
    }
}

pub proof fn lemma_push_distinct(s: Seq<usize>, x: usize)
    requires
        s.no_duplicates(),
        !s.contains(x),
    ensures
        s.push(x).no_duplicates(),
{
}

proof fn lemma_swap_removed(s: Seq<usize>, t: Seq<usize>, at: int)
    requires
        s.no_duplicates(),
        0 <= at < s.len(),
        t == s.update(at, s.last()).drop_last(),
    ensures
        t.no_duplicates(),
        forall|k: usize| #[trigger] t.contains(k) <==> s.contains(k) && k != s[at],
{
    assert forall|k: usize| #[trigger] t.contains(k) <==> s.contains(k) && k != s[at] by {
        if t.contains(k) {
            let p = choose|p: int| 0 <= p < t.len() && t[p] == k;
            if p == at {
                assert(s[s.len() - 1] == k);
            } else {
                assert(s[p] == k);
            }
        }
        if s.contains(k) && k != s[at] {
            let p = choose|p: int| 0 <= p < s.len() && s[p] == k;
            if p == s.len() - 1 {
                assert(t[at] == k);
            } else {
                assert(t[p] == k);
            }
        }
    }
}

} // verus!
