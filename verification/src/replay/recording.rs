//! The log of a real run replays, along a linear extension of what happened before what.

use crate::causality::{
    a_send_is_before_its_receipt, clocks_tell_happened_before, count, happened_before, is_run,
    lemma_count_grows, lemma_latest, one_actor_is_in_order, predecessor, stamp, Step,
};
use crate::log::{EventModel, Op};
use crate::replay::engine::replayable;
use crate::replay::extension::canonical_order;
use crate::replay::order_laws::{order_respects_all_edges, stands_before};
use crate::replay::poset::{
    buildable, causal_edges, edge_holds, named_message, sends, sends_again, unmatched,
};
use crate::replay::poset_laws::{causal_edges_are, counters_distinct_iff, message_pair, successor};
use vstd::prelude::*;

verus! {

/// `log` records `run`, its lines in any order: line `x` is event `at[x]`, with the event's
/// actor, counter and clock. Receipts name the message of the send that they belong to, and no
/// two sends name the same message.
pub open spec fn records(log: Seq<EventModel>, run: Seq<Step>, at: Seq<int>) -> bool {
    &&& log.len() == run.len()
    &&& at.len() == run.len()
    &&& at.no_duplicates()
    &&& forall|x: int| 0 <= x < at.len() ==> 0 <= #[trigger] at[x] < run.len()
    &&& forall|i: int| 0 <= i < run.len() ==> #[trigger] line_of(at, i)
    &&& forall|x: int| 0 <= x < log.len() ==> line_records(#[trigger] log[x], run, at[x])
    &&& forall|x: int, y: int|
        0 <= x < log.len() && 0 <= y < log.len() && run[at[x]].sender == Some(at[y])
            ==> #[trigger] carries(log, y, x)
    &&& forall|x: int, y: int|
        0 <= x < log.len() && 0 <= y < log.len() && x != y && (#[trigger] log[x]).op == Op::Emit && (
        #[trigger] log[y]).op == Op::Emit ==> log[x].msg_id != log[y].msg_id
}

/// Some line is event `i`.
pub open spec fn line_of(at: Seq<int>, i: int) -> bool {
    exists|x: int| 0 <= x < at.len() && #[trigger] at[x] == i
}

/// The stamps of a line are those of event `i`.
pub open spec fn line_records(e: EventModel, run: Seq<Step>, i: int) -> bool {
    &&& e.actor == run[i].actor
    &&& e.seq == count(run, run[i].actor, i + 1)
    &&& e.vclock == stamp(run, i)
    &&& e.op == Op::Recv <==> run[i].sender is Some
}

/// Line `y` sends the message that line `x` receives.
pub open spec fn carries(log: Seq<EventModel>, y: int, x: int) -> bool {
    log[y].op == Op::Emit && log[y].msg_id is Some && log[x].msg_id == log[y].msg_id
}

proof fn lemma_counters(run: Seq<Step>, i: int, j: int)
    requires
        0 <= i < j < run.len(),
        run[i].actor == run[j].actor,
    ensures
        count(run, run[i].actor, i + 1) < count(run, run[i].actor, j + 1),
{
    lemma_count_grows(run, run[i].actor, i + 1, j);
}

proof fn lemma_recorded_is_buildable(log: Seq<EventModel>, run: Seq<Step>, at: Seq<int>)
    requires
        is_run(run),
        records(log, run, at),
        log.len() <= usize::MAX,
    ensures
        buildable(log),
{
    counters_distinct_iff(log);
    assert forall|x: int, y: int|
        0 <= x < y < log.len() && (#[trigger] log[x]).actor == (#[trigger] log[y]).actor implies log[x].seq
        != log[y].seq by {
        assert(at[x] != at[y]);
        if at[x] < at[y] {
            lemma_counters(run, at[x], at[y]);
        } else {
            lemma_counters(run, at[y], at[x]);
        }
    }
    assert forall|x: int| !#[trigger] sends_again(log, x) by {
        if sends_again(log, x) {
            let (m, y) = choose|m: Seq<char>, y: int| #[trigger]
                sends(log, x, m) && y < x && #[trigger] sends(log, y, m);
            assert(log[x].msg_id != log[y].msg_id);
        }
    }
    assert forall|x: int| !#[trigger] unmatched(log, x) by {
        if unmatched(log, x) {
            assert(line_records(log[x], run, at[x]));
            let s = run[at[x]].sender->0;
            assert(line_of(at, s));
            let y = choose|y: int| 0 <= y < at.len() && #[trigger] at[y] == s;
            assert(carries(log, y, x));
            assert(sends(log, y, named_message(log[x])));
        }
    }
}

/// The sender of a message in the log is its sender in the run.
proof fn lemma_message_pair(log: Seq<EventModel>, run: Seq<Step>, at: Seq<int>, y: int, x: int)
    requires
        is_run(run),
        records(log, run, at),
        message_pair(log, y, x),
    ensures
        run[at[x]].sender == Some(at[y]),
{
    assert(line_records(log[x], run, at[x]));
    let s = run[at[x]].sender->0;
    assert(line_of(at, s));
    let z = choose|z: int| 0 <= z < at.len() && #[trigger] at[z] == s;
    assert(carries(log, z, x));
    if y != z {
        assert(log[y].msg_id != log[z].msg_id);
    }
}

/// The log of a run is a faithful causal record, in whatever order its lines were written.
pub proof fn a_recorded_run_is_replayable(log: Seq<EventModel>, run: Seq<Step>, at: Seq<int>)
    requires
        is_run(run),
        records(log, run, at),
        log.len() <= usize::MAX,
    ensures
        replayable(log),
{
    lemma_recorded_is_buildable(log, run, at);
    let edges = causal_edges(log);
    assert forall|k: int| 0 <= k < edges.len() implies #[trigger] edge_holds(log, edges, k) by {
        let (a, b) = edges[k];
        assert(edges.contains(edges[k]));
        causal_edges_are(log, a, b);
        let (x, y) = (a as int, b as int);
        if successor(log, x, y) {
            assert(line_records(log[x], run, at[x]));
            assert(line_records(log[y], run, at[y]));
            if at[y] < at[x] {
                lemma_counters(run, at[y], at[x]);
            }
            one_actor_is_in_order(run, at[x], at[y]);
        } else {
            assert(message_pair(log, x, y));
            lemma_message_pair(log, run, at, x, y);
            a_send_is_before_its_receipt(run, at[y]);
        }
        assert(line_records(log[x], run, at[x]));
        assert(line_records(log[y], run, at[y]));
        clocks_tell_happened_before(run, at[x], at[y]);
    }
}

/// The canonical order of the log of a run is a linear extension: what happened before comes
/// before.
pub proof fn the_timeline_extends_happened_before(
    log: Seq<EventModel>,
    run: Seq<Step>,
    at: Seq<int>,
    x: usize,
    y: usize,
    q: int,
)
    requires
        is_run(run),
        records(log, run, at),
        log.len() <= usize::MAX,
        x < log.len(),
        y < log.len(),
        happened_before(run, at[x as int], at[y as int]),
        0 <= q < canonical_order(log, causal_edges(log)).len(),
        canonical_order(log, causal_edges(log))[q] == y,
    ensures
        stands_before(canonical_order(log, causal_edges(log)), x, q),
    decreases at[y as int],
{
    let edges = causal_edges(log);
    let order = canonical_order(log, edges);
    let (i, j) = (at[x as int], at[y as int]);
    lemma_recorded_is_buildable(log, run, at);
    order_respects_all_edges(log, edges);
    lemma_latest(run, run[j].actor, j);
    let via_own = predecessor(run, j) matches Some(p) && (i == p || happened_before(run, i, p));
    let c = if via_own {
        predecessor(run, j)->0
    } else {
        run[j].sender->0
    };
    assert(line_of(at, c));
    let z = choose|z: int| 0 <= z < at.len() && #[trigger] at[z] == c;
    let w = z as usize;
    assert(line_records(log[z], run, at[z]));
    assert(line_records(log[y as int], run, j));
    if via_own {
        assert(successor(log, z, y as int)) by {
            lemma_counters(run, c, j);
            assert forall|v: int|
                0 <= v < log.len() && (#[trigger] log[v]).actor == log[z].actor implies !(log[z].seq
                < log[v].seq && log[v].seq < log[y as int].seq) by {
                assert(line_records(log[v], run, at[v]));
            }
        }
    } else {
        assert(carries(log, z, y as int));
        assert(sends(log, z, named_message(log[y as int])));
        assert(message_pair(log, z, y as int));
    }
    causal_edges_are(log, w, y);
    let k = choose|k: int| 0 <= k < edges.len() && edges[k] == (w, y);
    assert(edges[k].1 == order[q]);
    assert(stands_before(order, w, q));
    if i != c {
        let p = choose|p: int| 0 <= p < q && p < order.len() && #[trigger] order[p] == w;
        the_timeline_extends_happened_before(log, run, at, x, w, p);
        let r = choose|r: int| 0 <= r < p && r < order.len() && #[trigger] order[r] == x;
        assert(order[r] == x);
    } else {
        assert(at[x as int] == at[z]);
        assert(x as int == z);
    }
}

} // verus!
