//! What the direct causal edges of a log are.

use crate::log::{EventModel, Op};
use crate::replay::lines::{line_leq, line_lt, lined_up_is_a_permutation};
use crate::replay::poset::{
    buildable, causal_edges, counters_distinct, joined_at, lemma_one_sender, message_edges,
    named_message, positions, program_edges, repeats_at, sender, sends, unmatched, world_lines,
};
use crate::text::{text_lt_irreflexive, text_lt_transitive};
use vstd::prelude::*;

verus! {

/// Event `b` is the next event of the actor of event `a`.
pub open spec fn successor(log: Seq<EventModel>, a: int, b: int) -> bool {
    &&& 0 <= a < log.len()
    &&& 0 <= b < log.len()
    &&& log[a].actor == log[b].actor
    &&& log[a].seq < log[b].seq
    &&& forall|c: int|
        0 <= c < log.len() && (#[trigger] log[c]).actor == log[a].actor ==> !(log[a].seq
            < log[c].seq && log[c].seq < log[b].seq)
}

/// Event `b` receives the message that event `a` sends.
pub open spec fn message_pair(log: Seq<EventModel>, a: int, b: int) -> bool {
    0 <= b < log.len() && log[b].op == Op::Recv && sends(log, a, named_message(log[b]))
}

/// The world-lines hold every event once, in line order.
pub proof fn lemma_world_lines(log: Seq<EventModel>)
    requires
        log.len() <= usize::MAX,
    ensures
        world_lines(log).len() == log.len(),
        world_lines(log).no_duplicates(),
        forall|p: int| 0 <= p < log.len() ==> (#[trigger] world_lines(log)[p]) < log.len(),
        forall|i: usize| i < log.len() ==> #[trigger] world_lines(log).contains(i),
        forall|p: int, q: int|
            0 <= p < q < log.len() ==> line_lt(
                log,
                #[trigger] world_lines(log)[p] as int,
                #[trigger] world_lines(log)[q] as int,
            ),
{
    let all = positions(log.len());
    let w = world_lines(log);
    lined_up_is_a_permutation(log, all);
    assert(all.no_duplicates());
    all.lemma_multiset_has_no_duplicates();
    w.lemma_multiset_has_no_duplicates_conv();
    assert forall|p: int| 0 <= p < w.len() implies (#[trigger] w[p]) < log.len() by {
        assert(w.contains(w[p]));
        assert(all.contains(w[p]));
    }
    assert forall|i: usize| i < log.len() implies #[trigger] w.contains(i) by {
        assert(all[i as int] == i);
        assert(all.contains(i));
    }
    assert forall|p: int, q: int| 0 <= p < q < log.len() implies line_lt(
        log,
        #[trigger] w[p] as int,
        #[trigger] w[q] as int,
    ) by {
        let leq = line_leq(log);
        assert(leq(w[p], w[q]));
    }
}

/// Between two events of one actor stand only events of that actor, with counters in between.
pub proof fn lemma_between(log: Seq<EventModel>, p: int, m: int, q: int)
    requires
        log.len() <= usize::MAX,
        0 <= p <= m <= q < log.len(),
        log[world_lines(log)[p] as int].actor == log[world_lines(log)[q] as int].actor,
    ensures
        log[world_lines(log)[m] as int].actor == log[world_lines(log)[p] as int].actor,
        log[world_lines(log)[p] as int].seq <= log[world_lines(log)[m] as int].seq
            <= log[world_lines(log)[q] as int].seq,
{
    lemma_world_lines(log);
    let w = world_lines(log);
    if p < m && m < q {
        assert(line_lt(log, w[p] as int, w[m] as int));
        assert(line_lt(log, w[m] as int, w[q] as int));
        let (a, b, c) = (log[w[p] as int].actor, log[w[m] as int].actor, log[w[q] as int].actor);
        if a != b {
            if b == c {
                text_lt_irreflexive(a);
            } else {
                text_lt_transitive(a, b, c);
                text_lt_irreflexive(a);
            }
        } else {
            text_lt_irreflexive(a);
        }
    } else if p < q {
        assert(line_lt(log, w[p] as int, w[q] as int));
        text_lt_irreflexive(log[w[p] as int].actor);
    }
}

proof fn lemma_counters_rise(log: Seq<EventModel>, p: int, q: int)
    requires
        log.len() <= usize::MAX,
        counters_distinct(log),
        0 <= p < q < log.len(),
        log[world_lines(log)[p] as int].actor == log[world_lines(log)[q] as int].actor,
    ensures
        log[world_lines(log)[p] as int].seq < log[world_lines(log)[q] as int].seq,
{
    lemma_world_lines(log);
    let w = world_lines(log);
    lemma_between(log, p, p + 1, q);
    assert(joined_at(log, w, p + 1));
    assert(!repeats_at(log, w, p + 1));
}

/// The counters of a log are distinct exactly when no two events share actor and counter.
pub proof fn counters_distinct_iff(log: Seq<EventModel>)
    requires
        log.len() <= usize::MAX,
    ensures
        counters_distinct(log) <==> forall|i: int, j: int|
            0 <= i < j < log.len() && (#[trigger] log[i]).actor == (#[trigger] log[j]).actor
                ==> log[i].seq != log[j].seq,
{
    lemma_world_lines(log);
    let w = world_lines(log);
    if counters_distinct(log) {
        assert forall|i: int, j: int|
            0 <= i < j < log.len() && (#[trigger] log[i]).actor == (#[trigger] log[j]).actor implies log[i].seq
            != log[j].seq by {
            assert(w.contains(i as usize));
            assert(w.contains(j as usize));
            let p = choose|p: int| 0 <= p < w.len() && w[p] == i as usize;
            let q = choose|q: int| 0 <= q < w.len() && w[q] == j as usize;
            if p < q {
                lemma_counters_rise(log, p, q);
            } else {
                lemma_counters_rise(log, q, p);
            }
        }
    } else {
        let p = choose|p: int| #[trigger] repeats_at(log, w, p);
        let i = w[p - 1] as int;
        let j = w[p] as int;
        assert(i != j);
        if i < j {
            assert(log[i].actor == log[j].actor);
        } else {
            assert(log[j].actor == log[i].actor);
        }
    }
}

proof fn lemma_program_edges(log: Seq<EventModel>, w: Seq<usize>, k: int, e: (usize, usize))
    requires
        0 <= k <= w.len(),
    ensures
        program_edges(log, w, k).contains(e) <==> exists|p: int|
            #![trigger joined_at(log, w, p)]
            1 <= p < k && joined_at(log, w, p) && e == (w[p - 1], w[p]),
    decreases k,
{
    if k >= 2 {
        lemma_program_edges(log, w, k - 1, e);
        let prior = program_edges(log, w, k - 1);
        if joined_at(log, w, k - 1) {
            let more = prior.push((w[k - 2], w[k - 1]));
            if prior.contains(e) {
                let x = choose|x: int| 0 <= x < prior.len() && prior[x] == e;
                assert(more[x] == e);
            }
            if e == (w[k - 2], w[k - 1]) {
                assert(more[prior.len() as int] == e);
            }
        }
    }
}

proof fn lemma_message_edges(log: Seq<EventModel>, k: int, e: (usize, usize))
    requires
        log.len() <= usize::MAX,
        buildable(log),
        0 <= k <= log.len(),
    ensures
        message_edges(log, k).contains(e) <==> e.1 < k && message_pair(log, e.0 as int, e.1 as int),
    decreases k,
{
    if k >= 1 {
        lemma_message_edges(log, k - 1, e);
        let prior = message_edges(log, k - 1);
        if log[k - 1].op == Op::Recv {
            let m = named_message(log[k - 1]);
            assert(!unmatched(log, k - 1));
            let s = choose|s: int| #[trigger] sends(log, s, m);
            lemma_one_sender(log, s, m);
            let last = (sender(log, m) as usize, (k - 1) as usize);
            let more = prior.push(last);
            if prior.contains(e) {
                let x = choose|x: int| 0 <= x < prior.len() && prior[x] == e;
                assert(more[x] == e);
            }
            if e == last {
                assert(more[prior.len() as int] == e);
            }
            if e.1 == k - 1 && message_pair(log, e.0 as int, e.1 as int) {
                lemma_one_sender(log, e.0 as int, m);
            }
        }
    }
}

/// The message edges lead from each send to its receipt.
pub proof fn lemma_message_edge_is(log: Seq<EventModel>, a: usize, b: usize)
    requires
        log.len() <= usize::MAX,
        buildable(log),
    ensures
        message_edges(log, log.len() as int).contains((a, b)) <==> message_pair(
            log,
            a as int,
            b as int,
        ),
{
    lemma_message_edges(log, log.len() as int, (a, b));
}

/// The program-order edges lead from each event to the next one of its actor.
proof fn lemma_program_edge_is(log: Seq<EventModel>, a: usize, b: usize)
    requires
        log.len() <= usize::MAX,
        buildable(log),
    ensures
        program_edges(log, world_lines(log), log.len() as int).contains((a, b)) <==> successor(
            log,
            a as int,
            b as int,
        ),
{
    let w = world_lines(log);
    let n = log.len() as int;
    let e = (a, b);
    lemma_world_lines(log);
    lemma_program_edges(log, w, n, e);
    let first = program_edges(log, w, n);
    if first.contains(e) {
        let p = choose|p: int|
            #![trigger joined_at(log, w, p)]
            1 <= p < n && joined_at(log, w, p) && e == (w[p - 1], w[p]);
        lemma_counters_rise(log, p - 1, p);
        assert forall|c: int|
            0 <= c < log.len() && (#[trigger] log[c]).actor == log[a as int].actor implies !(
        log[a as int].seq < log[c].seq && log[c].seq < log[b as int].seq) by {
            assert(w.contains(c as usize));
            let q = choose|q: int| 0 <= q < w.len() && w[q] == c as usize;
            if q < p - 1 {
                lemma_between(log, q, p - 1, p - 1);
            } else if q > p {
                lemma_between(log, p, q, q);
            }
        }
    }
    if successor(log, a as int, b as int) {
        assert(w.contains(a));
        assert(w.contains(b));
        let p = choose|p: int| 0 <= p < w.len() && w[p] == a;
        let q = choose|q: int| 0 <= q < w.len() && w[q] == b;
        if q < p {
            lemma_between(log, q, q, p);
        }
        if q > p + 1 {
            let c = w[p + 1] as int;
            lemma_between(log, p, p + 1, q);
            lemma_counters_rise(log, p, p + 1);
            lemma_counters_rise(log, p + 1, q);
            assert(log[c].actor == log[a as int].actor);
        }
        assert(joined_at(log, w, q));
    }
}

/// The direct causal edges of a log lead from each event to the next one of its actor, and
/// from each send to its receipt, and there are no others.
pub proof fn causal_edges_are(log: Seq<EventModel>, a: usize, b: usize)
    requires
        log.len() <= usize::MAX,
        buildable(log),
    ensures
        causal_edges(log).contains((a, b)) <==> successor(log, a as int, b as int) || message_pair(
            log,
            a as int,
            b as int,
        ),
{
    let w = world_lines(log);
    let n = log.len() as int;
    let e = (a, b);
    lemma_world_lines(log);
    lemma_message_edges(log, n, e);
    let first = program_edges(log, w, n);
    let second = message_edges(log, n);
    assert(causal_edges(log).contains(e) <==> first.contains(e) || second.contains(e)) by {
        if first.contains(e) {
            let x = choose|x: int| 0 <= x < first.len() && first[x] == e;
            assert((first + second)[x] == e);
        }
        if second.contains(e) {
            let x = choose|x: int| 0 <= x < second.len() && second[x] == e;
            assert((first + second)[first.len() + x] == e);
        }
        if causal_edges(log).contains(e) {
            let x = choose|x: int| 0 <= x < (first + second).len() && (first + second)[x] == e;
            if x < first.len() {
                assert(first[x] == e);
            } else {
                assert(second[x - first.len()] == e);
            }
        }
    }
    lemma_program_edge_is(log, a, b);
}

proof fn lemma_program_edges_distinct(log: Seq<EventModel>, w: Seq<usize>, k: int)
    requires
        0 <= k <= w.len(),
        w.no_duplicates(),
    ensures
        program_edges(log, w, k).no_duplicates(),
        forall|x: int|
            0 <= x < program_edges(log, w, k).len() ==> w.take(k).contains(
                (#[trigger] program_edges(log, w, k)[x]).1,
            ),
    decreases k,
{
    if k >= 2 {
        lemma_program_edges_distinct(log, w, k - 1);
        let prior = program_edges(log, w, k - 1);
        let all = program_edges(log, w, k);
        assert forall|x: int| 0 <= x < all.len() implies w.take(k).contains(
            (#[trigger] all[x]).1,
        ) by {
            if x < prior.len() {
                assert(w.take(k - 1).contains(prior[x].1));
                let short = w.take(k - 1);
                let p = choose|p: int| 0 <= p < short.len() && short[p] == prior[x].1;
                assert(w.take(k)[p] == all[x].1);
            } else {
                assert(w.take(k)[k - 1] == all[x].1);
            }
        }
        assert forall|x: int, y: int| 0 <= x < y < all.len() implies all[x] != all[y] by {
            if y == prior.len() {
                assert(w.take(k - 1).contains(prior[x].1));
                let short = w.take(k - 1);
                let p = choose|p: int| 0 <= p < short.len() && short[p] == prior[x].1;
                assert(w[p] != w[k - 1]);
            }
        }
    }
}

proof fn lemma_message_edges_distinct(log: Seq<EventModel>, k: int)
    requires
        0 <= k <= log.len(),
        log.len() <= usize::MAX,
    ensures
        message_edges(log, k).no_duplicates(),
        forall|x: int|
            0 <= x < message_edges(log, k).len() ==> (#[trigger] message_edges(log, k)[x]).1 < k,
    decreases k,
{
    if k >= 1 {
        lemma_message_edges_distinct(log, k - 1);
    }
}

proof fn lemma_counted_once(s: Seq<(usize, usize)>, e: (usize, usize))
    requires
        s.no_duplicates(),
    ensures
        s.to_multiset().count(e) == if s.contains(e) {
            1nat
        } else {
            0nat
        },
{
    broadcast use vstd::seq_lib::group_to_multiset_ensures;

    s.lemma_multiset_has_no_duplicates();
    assert(s.contains(e) <==> s.to_multiset().count(e) > 0);
    if s.to_multiset().count(e) > 0 {
        assert(s.to_multiset().contains(e));
    }
}

/// How often a pair of events is an edge: once if the second is the next event of the actor, and
/// once if it receives what the first sends.
pub proof fn causal_edges_count(log: Seq<EventModel>, a: usize, b: usize)
    requires
        log.len() <= usize::MAX,
        buildable(log),
    ensures
        causal_edges(log).to_multiset().count((a, b)) == (if successor(log, a as int, b as int) {
            1nat
        } else {
            0nat
        }) + (if message_pair(log, a as int, b as int) {
            1nat
        } else {
            0nat
        }),
{
    broadcast use vstd::multiset::group_multiset_axioms;

    let w = world_lines(log);
    let n = log.len() as int;
    let first = program_edges(log, w, n);
    let second = message_edges(log, n);
    lemma_world_lines(log);
    lemma_program_edge_is(log, a, b);
    lemma_message_edges(log, n, (a, b));
    lemma_program_edges_distinct(log, w, n);
    lemma_message_edges_distinct(log, n);
    lemma_counted_once(first, (a, b));
    lemma_counted_once(second, (a, b));
    vstd::seq_lib::lemma_multiset_commutative(first, second);
}

} // verus!
