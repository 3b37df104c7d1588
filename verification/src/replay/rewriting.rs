//! Neither the edges nor the timeline of a log depend on the order in which its lines were
//! written.

use crate::log::EventModel;
use crate::replay::engine::{arranged, timeline};
use crate::replay::extension::{
    canonical_order, lemma_next_up_unique, next_up, rank_lt, ready, schedule,
};
use crate::replay::poset::{
    buildable, causal_edges, counters_distinct, named_message, sends, sends_again, unmatched,
};
use crate::replay::poset_laws::{
    causal_edges_are, causal_edges_count, counters_distinct_iff, message_pair, successor,
};
use crate::text::text_lt_irreflexive;
use vstd::prelude::*;

verus! {

/// `b` holds the lines of `a` in another order: line `x` of `b` is line `from[x]` of `a`.
pub open spec fn rewritten(a: Seq<EventModel>, b: Seq<EventModel>, from: Seq<usize>) -> bool {
    &&& a.len() == b.len()
    &&& from.len() == b.len()
    &&& from.no_duplicates()
    &&& forall|x: int| 0 <= x < from.len() ==> (#[trigger] from[x]) < a.len()
    &&& forall|i: int| 0 <= i < a.len() ==> #[trigger] copied(from, i)
    &&& forall|x: int| 0 <= x < b.len() ==> #[trigger] b[x] == a[from[x] as int]
}

/// Line `i` was copied to somewhere.
pub open spec fn copied(from: Seq<usize>, i: int) -> bool {
    exists|x: int| 0 <= x < from.len() && #[trigger] from[x] == i
}

spec fn carried(from: Seq<usize>, s: Seq<usize>) -> Seq<usize> {
    Seq::new(s.len(), |k: int| from[s[k] as int])
}

proof fn lemma_buildable(a: Seq<EventModel>, b: Seq<EventModel>, from: Seq<usize>)
    requires
        a.len() <= usize::MAX,
        rewritten(a, b, from),
        buildable(a),
    ensures
        buildable(b),
{
    counters_distinct_iff(a);
    counters_distinct_iff(b);
    assert(counters_distinct(b)) by {
        assert forall|x: int, y: int|
            0 <= x < y < b.len() && (#[trigger] b[x]).actor == (#[trigger] b[y]).actor implies b[x].seq
            != b[y].seq by {
            let (i, j) = (from[x] as int, from[y] as int);
            assert(i != j);
            assert(a[i].actor == a[j].actor);
            if i < j {
                assert(a[i].seq != a[j].seq);
            } else {
                assert(a[j].seq != a[i].seq);
            }
        }
    }
    assert forall|x: int| !#[trigger] sends_again(b, x) by {
        if sends_again(b, x) {
            let (m, y) = choose|m: Seq<char>, y: int| #[trigger]
                sends(b, x, m) && y < x && #[trigger] sends(b, y, m);
            let (i, j) = (from[x] as int, from[y] as int);
            assert(i != j);
            assert(sends(a, i, m));
            assert(sends(a, j, m));
            if j < i {
                assert(sends_again(a, i));
            } else {
                assert(sends_again(a, j));
            }
        }
    }
    assert forall|x: int| !#[trigger] unmatched(b, x) by {
        if unmatched(b, x) {
            let i = from[x] as int;
            assert(!unmatched(a, i));
            let j = choose|j: int| #[trigger] sends(a, j, named_message(a[i]));
            assert(sends(a, j, named_message(a[i])));
            assert(copied(from, j));
            let y = choose|y: int| 0 <= y < from.len() && #[trigger] from[y] == j;
            assert(sends(b, y, named_message(b[x])));
        }
    }
}

/// Two lines stand in the same relations wherever they are written.
proof fn lemma_pairs(
    a: Seq<EventModel>,
    b: Seq<EventModel>,
    from: Seq<usize>,
    x: int,
    y: int,
)
    requires
        rewritten(a, b, from),
        0 <= x < b.len(),
        0 <= y < b.len(),
    ensures
        successor(b, x, y) <==> successor(a, from[x] as int, from[y] as int),
        message_pair(b, x, y) <==> message_pair(a, from[x] as int, from[y] as int),
{
    let (i, j) = (from[x] as int, from[y] as int);
    assert(b[x] == a[i]);
    assert(b[y] == a[j]);
    if successor(a, i, j) {
        assert forall|c: int|
            0 <= c < b.len() && (#[trigger] b[c]).actor == b[x].actor implies !(b[x].seq < b[c].seq
            && b[c].seq < b[y].seq) by {
            assert(a[from[c] as int] == b[c]);
        }
    }
    if successor(b, x, y) {
        assert forall|c: int|
            0 <= c < a.len() && (#[trigger] a[c]).actor == a[i].actor implies !(a[i].seq < a[c].seq
            && a[c].seq < a[j].seq) by {
            assert(copied(from, c));
            let z = choose|z: int| 0 <= z < from.len() && #[trigger] from[z] == c;
            assert(b[z] == a[c]);
        }
    }
}

proof fn lemma_edges(
    a: Seq<EventModel>,
    b: Seq<EventModel>,
    from: Seq<usize>,
    x: usize,
    y: usize,
)
    requires
        a.len() <= usize::MAX,
        rewritten(a, b, from),
        buildable(a),
        x < b.len(),
        y < b.len(),
    ensures
        causal_edges(b).contains((x, y)) <==> causal_edges(a).contains(
            (from[x as int], from[y as int]),
        ),
{
    lemma_buildable(a, b, from);
    causal_edges_are(a, from[x as int], from[y as int]);
    causal_edges_are(b, x, y);
    lemma_pairs(a, b, from, x as int, y as int);
}

proof fn lemma_edge_ends(log: Seq<EventModel>, k: int)
    requires
        log.len() <= usize::MAX,
        buildable(log),
        0 <= k < causal_edges(log).len(),
    ensures
        causal_edges(log)[k].0 < log.len(),
        causal_edges(log)[k].1 < log.len(),
{
    let e = causal_edges(log)[k];
    assert(causal_edges(log).contains(e));
    causal_edges_are(log, e.0, e.1);
}

proof fn lemma_contains(from: Seq<usize>, s: Seq<usize>, x: usize)
    requires
        from.no_duplicates(),
        x < from.len(),
        forall|k: int| 0 <= k < s.len() ==> (#[trigger] s[k]) < from.len(),
    ensures
        s.contains(x) <==> carried(from, s).contains(from[x as int]),
{
    let c = carried(from, s);
    if s.contains(x) {
        let k = choose|k: int| 0 <= k < s.len() && s[k] == x;
        assert(c[k] == from[x as int]);
    }
    if c.contains(from[x as int]) {
        let k = choose|k: int| 0 <= k < c.len() && c[k] == from[x as int];
        assert(from[s[k] as int] == from[x as int]);
        assert(s[k] == x);
    }
}

proof fn lemma_ready(
    a: Seq<EventModel>,
    b: Seq<EventModel>,
    from: Seq<usize>,
    done: Seq<usize>,
    x: usize,
)
    requires
        a.len() <= usize::MAX,
        rewritten(a, b, from),
        buildable(a),
        forall|k: int| 0 <= k < done.len() ==> (#[trigger] done[k]) < b.len(),
        x < b.len(),
    ensures
        ready(b.len(), causal_edges(b), done, x) <==> ready(
            a.len(),
            causal_edges(a),
            carried(from, done),
            from[x as int],
        ),
{
    lemma_buildable(a, b, from);
    let (ea, eb) = (causal_edges(a), causal_edges(b));
    let c = carried(from, done);
    let i = from[x as int];
    lemma_contains(from, done, x);
    if ready(b.len(), eb, done, x) {
        assert forall|k: int| 0 <= k < ea.len() && (#[trigger] ea[k]).1 == i implies c.contains(
            ea[k].0,
        ) by {
            lemma_edge_ends(a, k);
            let h = ea[k].0;
            assert(copied(from, h as int));
            let z = choose|z: int| 0 <= z < from.len() && #[trigger] from[z] == h as int;
            assert(ea.contains((from[z], from[x as int]))) by {
                assert(ea[k] == (from[z], from[x as int]));
            }
            lemma_edges(a, b, from, z as usize, x);
            let m = choose|m: int| 0 <= m < eb.len() && eb[m] == (z as usize, x);
            assert(eb[m].1 == x);
            lemma_contains(from, done, z as usize);
        }
    }
    if ready(a.len(), ea, c, i) {
        assert forall|k: int| 0 <= k < eb.len() && (#[trigger] eb[k]).1 == x implies done.contains(
            eb[k].0,
        ) by {
            lemma_edge_ends(b, k);
            let z = eb[k].0;
            assert(eb.contains((z, x))) by {
                assert(eb[k] == (z, x));
            }
            lemma_edges(a, b, from, z, x);
            let m = choose|m: int| 0 <= m < ea.len() && ea[m] == (from[z as int], i);
            assert(ea[m].1 == i);
            lemma_contains(from, done, z);
        }
    }
}

/// Lines that differ in actor or counter are ranked alike wherever they stand.
proof fn lemma_rank(a: Seq<EventModel>, b: Seq<EventModel>, from: Seq<usize>, x: usize, y: usize)
    requires
        a.len() <= usize::MAX,
        rewritten(a, b, from),
        buildable(a),
        x < b.len(),
        y < b.len(),
        x != y,
    ensures
        rank_lt(b, x as int, y as int) <==> rank_lt(a, from[x as int] as int, from[y as int] as int),
{
    counters_distinct_iff(a);
    let (i, j) = (from[x as int] as int, from[y as int] as int);
    assert(i != j);
    assert(b[x as int] == a[i]);
    assert(b[y as int] == a[j]);
    if a[i].actor == a[j].actor {
        text_lt_irreflexive(a[i].actor);
        if i < j {
            assert(a[i].seq != a[j].seq);
        } else {
            assert(a[j].seq != a[i].seq);
        }
    }
}

proof fn lemma_next_up(
    a: Seq<EventModel>,
    b: Seq<EventModel>,
    from: Seq<usize>,
    done: Seq<usize>,
    x: usize,
)
    requires
        a.len() <= usize::MAX,
        rewritten(a, b, from),
        buildable(a),
        forall|k: int| 0 <= k < done.len() ==> (#[trigger] done[k]) < b.len(),
        x < b.len(),
    ensures
        next_up(b, causal_edges(b), done, x) <==> next_up(
            a,
            causal_edges(a),
            carried(from, done),
            from[x as int],
        ),
{
    let (ea, eb) = (causal_edges(a), causal_edges(b));
    let c = carried(from, done);
    let i = from[x as int];
    lemma_ready(a, b, from, done, x);
    if next_up(b, eb, done, x) {
        assert forall|j: usize| #[trigger] ready(a.len(), ea, c, j) implies j == i || rank_lt(
            a,
            i as int,
            j as int,
        ) by {
            assert(copied(from, j as int));
            let y = choose|y: int| 0 <= y < from.len() && #[trigger] from[y] == j as int;
            lemma_ready(a, b, from, done, y as usize);
            if j != i {
                lemma_rank(a, b, from, x, y as usize);
            }
        }
    }
    if next_up(a, ea, c, i) {
        assert forall|y: usize| #[trigger] ready(b.len(), eb, done, y) implies y == x || rank_lt(
            b,
            x as int,
            y as int,
        ) by {
            lemma_ready(a, b, from, done, y);
            if y != x {
                assert(from[x as int] != from[y as int]);
                lemma_rank(a, b, from, x, y);
            }
        }
    }
}

proof fn lemma_schedule(
    a: Seq<EventModel>,
    b: Seq<EventModel>,
    from: Seq<usize>,
    done: Seq<usize>,
)
    requires
        a.len() <= usize::MAX,
        rewritten(a, b, from),
        buildable(a),
        forall|k: int| 0 <= k < done.len() ==> (#[trigger] done[k]) < b.len(),
    ensures
        carried(from, schedule(b, causal_edges(b), done)) == schedule(
            a,
            causal_edges(a),
            carried(from, done),
        ),
        forall|k: int|
            0 <= k < schedule(b, causal_edges(b), done).len() ==> (#[trigger] schedule(
                b,
                causal_edges(b),
                done,
            )[k]) < b.len(),
    decreases b.len() - done.len(),
{
    let (ea, eb) = (causal_edges(a), causal_edges(b));
    let c = carried(from, done);
    if done.len() < b.len() && exists|x: usize| #[trigger] next_up(b, eb, done, x) {
        let x = choose|x: usize| #[trigger] next_up(b, eb, done, x);
        assert(ready(b.len(), eb, done, x));
        lemma_next_up(a, b, from, done, x);
        let i = from[x as int];
        assert(next_up(a, ea, c, i));
        let j = choose|j: usize| #[trigger] next_up(a, ea, c, j);
        lemma_next_up_unique(a, ea, c, i, j);
        lemma_schedule(a, b, from, done.push(x));
        assert(carried(from, done.push(x)) =~= c.push(i));
    } else if done.len() < b.len() {
        if exists|i: usize| #[trigger] next_up(a, ea, c, i) {
            let i = choose|i: usize| #[trigger] next_up(a, ea, c, i);
            assert(ready(a.len(), ea, c, i));
            assert(copied(from, i as int));
            let x = choose|x: int| 0 <= x < from.len() && #[trigger] from[x] == i as int;
            lemma_next_up(a, b, from, done, x as usize);
            assert(next_up(b, eb, done, x as usize));
        }
    }
}

/// Two logs with the same lines, in whatever order, have the same timeline.
pub proof fn the_timeline_is_that_of_the_events(
    a: Seq<EventModel>,
    b: Seq<EventModel>,
    from: Seq<usize>,
)
    requires
        a.len() <= usize::MAX,
        rewritten(a, b, from),
        buildable(a),
    ensures
        timeline(a) == timeline(b),
{
    lemma_schedule(a, b, from, seq![]);
    assert(carried(from, seq![]) =~= seq![]);
    let (oa, ob) = (
        canonical_order(a, causal_edges(a)),
        canonical_order(b, causal_edges(b)),
    );
    assert(carried(from, ob) == oa);
    assert forall|k: int| 0 <= k < ob.len() implies arranged(a, oa)[k] == arranged(b, ob)[k] by {
        assert(oa[k] == from[ob[k] as int]);
        assert(b[ob[k] as int] == a[from[ob[k] as int] as int]);
    }
    assert(timeline(a) =~= timeline(b));
}

/// Edges between lines of a rewritten log, as edges between the lines that they were copied from.
pub open spec fn renamed(edges: Seq<(usize, usize)>, from: Seq<usize>) -> Seq<(usize, usize)> {
    Seq::new(edges.len(), |k: int| (from[edges[k].0 as int], from[edges[k].1 as int]))
}

proof fn lemma_renamed_count(edges: Seq<(usize, usize)>, from: Seq<usize>, x: usize, y: usize)
    requires
        from.no_duplicates(),
        x < from.len(),
        y < from.len(),
        forall|k: int|
            0 <= k < edges.len() ==> (#[trigger] edges[k]).0 < from.len() && edges[k].1
                < from.len(),
    ensures
        renamed(edges, from).to_multiset().count((from[x as int], from[y as int]))
            == edges.to_multiset().count((x, y)),
    decreases edges.len(),
{
    broadcast use vstd::multiset::group_multiset_axioms;
    broadcast use vstd::seq_lib::group_to_multiset_ensures;

    if edges.len() == 0 {
        assert(edges =~= seq![]);
        assert(renamed(edges, from) =~= seq![]);
    } else {
        let less = edges.drop_last();
        let e = edges.last();
        assert(e == edges[edges.len() - 1]);
        let f = (from[e.0 as int], from[e.1 as int]);
        assert forall|k: int| 0 <= k < less.len() implies (#[trigger] less[k]).0 < from.len()
            && less[k].1 < from.len() by {
            assert(less[k] == edges[k]);
        }
        lemma_renamed_count(less, from, x, y);
        assert(edges =~= less.push(e));
        assert(renamed(edges, from) =~= renamed(less, from).push(f));
        assert(e == (x, y) <==> f == (from[x as int], from[y as int]));
    }
}

proof fn lemma_not_an_edge(log: Seq<EventModel>, e: (usize, usize))
    requires
        log.len() <= usize::MAX,
        buildable(log),
        e.0 >= log.len() || e.1 >= log.len(),
    ensures
        causal_edges(log).to_multiset().count(e) == 0,
{
    causal_edges_count(log, e.0, e.1);
}

/// A log whose lines are written in another order has a happens-before order too, with the same
/// edges: each as often, between the same events.
pub proof fn the_edges_are_those_of_the_events(
    a: Seq<EventModel>,
    b: Seq<EventModel>,
    from: Seq<usize>,
)
    requires
        a.len() <= usize::MAX,
        rewritten(a, b, from),
        buildable(a),
    ensures
        buildable(b),
        renamed(causal_edges(b), from).to_multiset() == causal_edges(a).to_multiset(),
{
    broadcast use vstd::multiset::group_multiset_axioms;
    broadcast use vstd::seq_lib::group_to_multiset_ensures;

    lemma_buildable(a, b, from);
    let (ea, eb) = (causal_edges(a), causal_edges(b));
    let r = renamed(eb, from);
    assert forall|k: int| 0 <= k < eb.len() implies (#[trigger] eb[k]).0 < from.len() && eb[k].1
        < from.len() by {
        lemma_edge_ends(b, k);
    }
    assert forall|e: (usize, usize)| r.to_multiset().count(e) == #[trigger] ea.to_multiset().count(
        e,
    ) by {
        if e.0 < a.len() && e.1 < a.len() {
            assert(copied(from, e.0 as int));
            assert(copied(from, e.1 as int));
            let x = choose|x: int| 0 <= x < from.len() && #[trigger] from[x] == e.0 as int;
            let y = choose|y: int| 0 <= y < from.len() && #[trigger] from[y] == e.1 as int;
            lemma_renamed_count(eb, from, x as usize, y as usize);
            lemma_pairs(a, b, from, x, y);
            causal_edges_count(a, e.0, e.1);
            causal_edges_count(b, x as usize, y as usize);
        } else {
            lemma_not_an_edge(a, e);
            if r.contains(e) {
                let k = choose|k: int| 0 <= k < r.len() && r[k] == e;
                assert(from[eb[k].0 as int] < a.len());
                assert(from[eb[k].1 as int] < a.len());
            }
            assert(!r.contains(e));
        }
    }
    assert(r.to_multiset() =~= ea.to_multiset());
}

} // verus!
