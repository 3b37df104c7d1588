//! Which logs have a happens-before order, what its direct edges are, and what is told of a log
//! without one: in terms of the events alone.

use crate::clock::clock_lt;
use crate::log::EventModel;
use crate::replay::engine::{replay_fails_with, replayable};
use crate::replay::error::ReplayError;
use crate::replay::index::{is_send_of, last_named, not_named, sends_among, sends_of};
use crate::replay::lines::line_lt;
use crate::replay::poset::{
    build_fails_with, buildable, causal_edges, edge_holds, joined_at,
    message_edges, messages_distinct, named_message, program_edges, repeats_at, sends, sends_again,
    unmatched, validate_fails_with, world_lines,
};
use crate::replay::poset_laws::{
    causal_edges_count, counters_distinct_iff, lemma_between,
    lemma_message_edge_is, lemma_world_lines, message_pair, successor,
};
use crate::text::{text_lt, text_lt_irreflexive};
use vstd::prelude::*;

verus! {

/// The name of the message that an event speaks of; the empty one if it speaks of none.
pub open spec fn message_told(e: EventModel) -> Seq<char> {
    if e.msg_id is Some {
        e.msg_id->0
    } else {
        Seq::empty()
    }
}

/// No two events share actor and counter.
pub open spec fn no_counter_twice(log: Seq<EventModel>) -> bool {
    forall|i: int, j: int|
        0 <= i < j < log.len() && (#[trigger] log[i]).actor == (#[trigger] log[j]).actor
            ==> log[i].seq != log[j].seq
}

/// No two sends name the same message.
pub open spec fn no_message_twice(log: Seq<EventModel>) -> bool {
    forall|i: int, j: int|
        0 <= i < j < log.len() && (#[trigger] log[i]).op is Emit && (#[trigger] log[j]).op is Emit
            && log[i].msg_id is Some ==> log[i].msg_id != log[j].msg_id
}

/// Some send names the message.
pub open spec fn is_sent(log: Seq<EventModel>, m: Seq<char>) -> bool {
    exists|j: int|
        0 <= j < log.len() && (#[trigger] log[j]).op is Emit && log[j].msg_id == Some(m)
}

/// If event `i` is a receipt, then some send names its message.
pub open spec fn has_its_send(log: Seq<EventModel>, i: int) -> bool {
    log[i].op is Recv ==> is_sent(log, message_told(log[i]))
}

proof fn lemma_messages_distinct(log: Seq<EventModel>)
    ensures
        messages_distinct(log) <==> no_message_twice(log),
{
    if messages_distinct(log) {
        assert forall|i: int, j: int|
            0 <= i < j < log.len() && (#[trigger] log[i]).op is Emit && (#[trigger] log[j]).op
                is Emit && log[i].msg_id is Some implies log[i].msg_id != log[j].msg_id by {
            if log[i].msg_id == log[j].msg_id {
                assert(sends(log, j, log[i].msg_id->0) && sends(log, i, log[i].msg_id->0));
                assert(sends_again(log, j));
            }
        }
    }
    if no_message_twice(log) {
        assert forall|j: int| !#[trigger] sends_again(log, j) by {
            if sends_again(log, j) {
                let (m, i) = choose|m: Seq<char>, i: int| #[trigger]
                    sends(log, j, m) && i < j && #[trigger] sends(log, i, m);
                assert(log[i].op is Emit && log[j].op is Emit);
            }
        }
    }
}

proof fn lemma_unmatched(log: Seq<EventModel>, i: int)
    ensures
        unmatched(log, i) <==> 0 <= i < log.len() && log[i].op is Recv && !is_sent(
            log,
            message_told(log[i]),
        ),
{
    let m = message_told(log[i]);
    assert(m =~= named_message(log[i]));
    if unmatched(log, i) && is_sent(log, m) {
        let j = choose|j: int|
            0 <= j < log.len() && (#[trigger] log[j]).op is Emit && log[j].msg_id == Some(m);
        assert(sends(log, j, m));
    }
    if 0 <= i < log.len() && log[i].op is Recv && !unmatched(log, i) {
        let j = choose|j: int| #[trigger] sends(log, j, m);
        assert(log[j].op is Emit);
    }
}

/// A log has a happens-before order exactly when no two of its events share actor and counter,
/// no two of its sends name the same message, and every receipt names a message that is sent.
pub proof fn which_logs_have_an_order(log: Seq<EventModel>)
    requires
        log.len() <= usize::MAX,
    ensures
        buildable(log) <==> {
            &&& no_counter_twice(log)
            &&& no_message_twice(log)
            &&& forall|i: int| 0 <= i < log.len() ==> #[trigger] has_its_send(log, i)
        },
{
    counters_distinct_iff(log);
    lemma_messages_distinct(log);
    if buildable(log) {
        assert forall|i: int| 0 <= i < log.len() implies #[trigger] has_its_send(log, i) by {
            lemma_unmatched(log, i);
        }
    } else if no_counter_twice(log) && no_message_twice(log) {
        let i = choose|i: int| #[trigger] unmatched(log, i);
        lemma_unmatched(log, i);
        assert(!has_its_send(log, i));
    }
}

/// A direct causal edge leads from an event to the one of the same actor with the next larger
/// counter, and from a send to every receipt that names its message; there are no others. A pair
/// that is both has two edges.
pub proof fn where_the_edges_lead(log: Seq<EventModel>, a: usize, b: usize)
    requires
        log.len() <= usize::MAX,
        buildable(log),
    ensures
        causal_edges(log).to_multiset().count((a, b)) == (if a < log.len() && b < log.len()
            && log[a as int].actor == log[b as int].actor && log[a as int].seq < log[b as int].seq
            && !(exists|c: int|
            0 <= c < log.len() && (#[trigger] log[c]).actor == log[a as int].actor
                && log[a as int].seq < log[c].seq < log[b as int].seq) {
            1nat
        } else {
            0nat
        }) + (if a < log.len() && b < log.len() && log[a as int].op is Emit && log[b as int].op
            is Recv && log[a as int].msg_id == Some(message_told(log[b as int])) {
            1nat
        } else {
            0nat
        }),
{
    causal_edges_count(log, a, b);
    assert(message_pair(log, a as int, b as int) <==> a < log.len() && b < log.len()
        && log[a as int].op is Emit && log[b as int].op is Recv && log[a as int].msg_id == Some(
        message_told(log[b as int]),
    ));
    if a < log.len() && b < log.len() && log[a as int].actor == log[b as int].actor
        && log[a as int].seq < log[b as int].seq && !successor(log, a as int, b as int) {
        let c = choose|c: int|
            0 <= c < log.len() && (#[trigger] log[c]).actor == log[a as int].actor && log[a as int].seq
                < log[c].seq && log[c].seq < log[b as int].seq;
        assert(log[a as int].seq < log[c].seq < log[b as int].seq);
    }
}

/// The edge leads from one of the first `k` events of the world-lines to the next.
spec fn links_neighbours(log: Seq<EventModel>, w: Seq<usize>, k: int, e: (usize, usize)) -> bool {
    exists|p: int|
        #![trigger joined_at(log, w, p)]
        1 <= p < k && joined_at(log, w, p) && e == (w[p - 1], w[p])
}

proof fn lemma_program_edges_ascend(log: Seq<EventModel>, w: Seq<usize>, k: int)
    requires
        w == world_lines(log),
        log.len() <= usize::MAX,
        0 <= k <= w.len(),
    ensures
        forall|x: int|
            0 <= x < program_edges(log, w, k).len() ==> links_neighbours(
                log,
                w,
                k,
                #[trigger] program_edges(log, w, k)[x],
            ),
        forall|x: int, y: int|
            0 <= x < y < program_edges(log, w, k).len() ==> line_lt(
                log,
                (#[trigger] program_edges(log, w, k)[x]).1 as int,
                (#[trigger] program_edges(log, w, k)[y]).1 as int,
            ),
    decreases k,
{
    if k >= 2 {
        lemma_program_edges_ascend(log, w, k - 1);
        lemma_world_lines(log);
        let less = program_edges(log, w, k - 1);
        let all = program_edges(log, w, k);
        assert forall|x: int| 0 <= x < all.len() implies links_neighbours(
            log,
            w,
            k,
            #[trigger] all[x],
        ) by {
            if x < less.len() {
                assert(links_neighbours(log, w, k - 1, less[x]));
                let p = choose|p: int|
                    #![trigger joined_at(log, w, p)]
                    1 <= p < k - 1 && joined_at(log, w, p) && less[x] == (w[p - 1], w[p]);
                assert(joined_at(log, w, p));
            } else {
                assert(joined_at(log, w, k - 1));
            }
        }
        assert forall|x: int, y: int| 0 <= x < y < all.len() implies line_lt(
            log,
            (#[trigger] all[x]).1 as int,
            (#[trigger] all[y]).1 as int,
        ) by {
            if y < less.len() {
                assert(line_lt(log, less[x].1 as int, less[y].1 as int));
            } else {
                assert(links_neighbours(log, w, k - 1, less[x]));
                let p = choose|p: int|
                    #![trigger joined_at(log, w, p)]
                    1 <= p < k - 1 && joined_at(log, w, p) && less[x] == (w[p - 1], w[p]);
                assert(line_lt(log, w[p] as int, w[k - 1] as int));
            }
        }
    }
}

proof fn lemma_message_edges_ascend(log: Seq<EventModel>, k: int)
    requires
        0 <= k <= log.len(),
        log.len() <= usize::MAX,
    ensures
        forall|x: int|
            0 <= x < message_edges(log, k).len() ==> (#[trigger] message_edges(log, k)[x]).1 < k
                && log[message_edges(log, k)[x].1 as int].op is Recv,
        forall|x: int, y: int|
            0 <= x < y < message_edges(log, k).len() ==> (#[trigger] message_edges(log, k)[x]).1 < (
            #[trigger] message_edges(log, k)[y]).1,
    decreases k,
{
    if k >= 1 {
        lemma_message_edges_ascend(log, k - 1);
    }
}

/// The edges come in order: first those along the world-lines, by the name of the actor and then
/// by its counter; then those from sends to receipts, by the position of the receipt in the log.
pub proof fn in_which_order_the_edges_come(log: Seq<EventModel>) -> (m: int)
    requires
        log.len() <= usize::MAX,
        buildable(log),
    ensures
        0 <= m <= causal_edges(log).len(),
        forall|x: int|
            0 <= x < m ==> {
                let (a, b) = #[trigger] causal_edges(log)[x];
                log[a as int].actor == log[b as int].actor && log[a as int].seq < log[b as int].seq
            },
        forall|x: int|
            m <= x < causal_edges(log).len() ==> {
                let (a, b) = #[trigger] causal_edges(log)[x];
                &&& log[a as int].op is Emit
                &&& log[b as int].op is Recv
                &&& log[a as int].msg_id == Some(message_told(log[b as int]))
            },
        forall|x: int, y: int|
            0 <= x < y < m ==> {
                let (b, d) = (
                    (#[trigger] causal_edges(log)[x]).1 as int,
                    (#[trigger] causal_edges(log)[y]).1 as int,
                );
                text_lt(log[b].actor, log[d].actor) || (log[b].actor == log[d].actor && log[b].seq
                    < log[d].seq)
            },
        forall|x: int, y: int|
            m <= x < y < causal_edges(log).len() ==> (#[trigger] causal_edges(log)[x]).1 < (
            #[trigger] causal_edges(log)[y]).1,
{
    let w = world_lines(log);
    let n = log.len() as int;
    let first = program_edges(log, w, n);
    let second = message_edges(log, n);
    let all = causal_edges(log);
    let m = first.len() as int;
    lemma_world_lines(log);
    lemma_program_edges_ascend(log, w, n);
    lemma_message_edges_ascend(log, n);
    counters_distinct_iff(log);
    assert forall|x: int| 0 <= x < m implies {
        let (a, b) = #[trigger] all[x];
        log[a as int].actor == log[b as int].actor && log[a as int].seq < log[b as int].seq
    } by {
        assert(all[x] == first[x]);
        assert(links_neighbours(log, w, n, first[x]));
        let p = choose|p: int|
            #![trigger joined_at(log, w, p)]
            1 <= p < n && joined_at(log, w, p) && first[x] == (w[p - 1], w[p]);
        lemma_between(log, p - 1, p - 1, p);
        lemma_counters_differ(log, w[p - 1] as int, w[p] as int);
    }
    assert forall|x: int| m <= x < all.len() implies {
        let (a, b) = #[trigger] all[x];
        &&& log[a as int].op is Emit
        &&& log[b as int].op is Recv
        &&& log[a as int].msg_id == Some(message_told(log[b as int]))
    } by {
        assert(all[x] == second[x - m]);
        let (a, b) = all[x];
        lemma_message_edge_is(log, a, b);
        assert(second.contains((a, b)));
    }
    assert forall|x: int, y: int| 0 <= x < y < m implies {
        let (b, d) = ((#[trigger] all[x]).1 as int, (#[trigger] all[y]).1 as int);
        text_lt(log[b].actor, log[d].actor) || (log[b].actor == log[d].actor && log[b].seq
            < log[d].seq)
    } by {
        let (b, d) = (first[x].1 as int, first[y].1 as int);
        assert(line_lt(log, b, d));
        assert(links_neighbours(log, w, n, first[x]));
        assert(links_neighbours(log, w, n, first[y]));
        let p = choose|p: int|
            #![trigger joined_at(log, w, p)]
            1 <= p < n && joined_at(log, w, p) && first[x] == (w[p - 1], w[p]);
        let q = choose|q: int|
            #![trigger joined_at(log, w, q)]
            1 <= q < n && joined_at(log, w, q) && first[y] == (w[q - 1], w[q]);
        if log[b].actor == log[d].actor && log[b].seq == log[d].seq {
            lemma_counters_differ(log, b, d);
        }
    }
    assert forall|x: int, y: int| m <= x < y < all.len() implies (#[trigger] all[x]).1 < (
    #[trigger] all[y]).1 by {
        assert(all[x] == second[x - m] && all[y] == second[y - m]);
    }
    m
}

proof fn lemma_counters_differ(log: Seq<EventModel>, i: int, j: int)
    requires
        no_counter_twice(log),
        0 <= i < log.len(),
        0 <= j < log.len(),
        log[i].actor == log[j].actor,
        i != j,
    ensures
        log[i].seq != log[j].seq,
{
    if i < j {
        assert(log[i].actor == log[j].actor);
    } else {
        assert(log[j].actor == log[i].actor);
    }
}

/// A log is a faithful record exactly when it has a happens-before order, and each event's clock
/// is strictly before those of the events that directly follow from it.
pub proof fn which_logs_are_faithful_records(log: Seq<EventModel>)
    requires
        log.len() <= usize::MAX,
    ensures
        replayable(log) <==> buildable(log) && forall|a: usize, b: usize|
            causal_edges(log).contains((a, b)) ==> #[trigger] clock_lt(
                log[a as int].vclock,
                log[b as int].vclock,
            ),
{
    let edges = causal_edges(log);
    if replayable(log) {
        assert forall|a: usize, b: usize| edges.contains((a, b)) implies #[trigger] clock_lt(
            log[a as int].vclock,
            log[b as int].vclock,
        ) by {
            let k = choose|k: int| 0 <= k < edges.len() && edges[k] == (a, b);
            assert(edge_holds(log, edges, k));
        }
    } else if buildable(log) {
        let k = choose|k: int| 0 <= k < edges.len() && !#[trigger] edge_holds(log, edges, k);
        assert(edges.contains((edges[k].0, edges[k].1)));
    }
}

/// A log is either replayed or refused, never both.
pub proof fn a_refused_log_is_no_record(log: Seq<EventModel>, e: ReplayError)
    requires
        replay_fails_with(log, e),
    ensures
        !replayable(log),
{
    if build_fails_with(log, e) {
        match e {
            ReplayError::DuplicateSeq(_, _) => {},
            ReplayError::DuplicateEmit(_) => {},
            _ => {},
        }
    }
}

/// A repeated counter is told first, before anything else that is wrong: of all actors with two
/// events under one counter, the one whose name comes first, with the smallest such counter.
pub proof fn a_repeated_counter_is_told(log: Seq<EventModel>, actor: String, seq: u64)
    requires
        log.len() <= usize::MAX,
        build_fails_with(log, ReplayError::DuplicateSeq(actor, seq)),
    ensures
        exists|i: int, j: int|
            0 <= i < j < log.len() && #[trigger] shares_counter(log, i, j) && log[i].actor == actor@
                && log[i].seq == seq,
        forall|i: int, j: int|
            0 <= i < j < log.len() && #[trigger] shares_counter(log, i, j) ==> text_lt(
                actor@,
                log[i].actor,
            ) || (log[i].actor == actor@ && seq <= log[i].seq),
{
    let w = world_lines(log);
    lemma_world_lines(log);
    let p = choose|p: int|
        {
            &&& #[trigger] repeats_at(log, w, p)
            &&& forall|q: int| q < p ==> !#[trigger] repeats_at(log, w, q)
            &&& actor@ == log[w[p] as int].actor
            &&& seq == log[w[p] as int].seq
        };
    let (x, y) = (w[p - 1] as int, w[p] as int);
    if x < y {
        assert(shares_counter(log, x, y));
    } else {
        assert(shares_counter(log, y, x));
    }
    assert forall|i: int, j: int|
        0 <= i < j < log.len() && #[trigger] shares_counter(log, i, j) implies text_lt(
        actor@,
        log[i].actor,
    ) || (log[i].actor == actor@ && seq <= log[i].seq) by {
        assert(w.contains(i as usize));
        assert(w.contains(j as usize));
        let s = choose|s: int| 0 <= s < w.len() && w[s] == i as usize;
        let t = choose|t: int| 0 <= t < w.len() && w[t] == j as usize;
        let (lo, hi) = if s < t {
            (s, t)
        } else {
            (t, s)
        };
        lemma_between(log, lo, lo + 1, hi);
        assert(repeats_at(log, w, lo + 1));
        if p < lo + 1 {
            assert(line_lt(log, w[p] as int, w[lo + 1] as int));
        }
    }
}

/// Two events share actor and counter.
pub open spec fn shares_counter(log: Seq<EventModel>, i: int, j: int) -> bool {
    log[i].actor == log[j].actor && log[i].seq == log[j].seq
}

/// A message that is sent twice is told when no counter is repeated: the one of the first send in
/// the log that repeats an earlier one.
pub proof fn a_repeated_message_is_told(log: Seq<EventModel>, m: String)
    requires
        log.len() <= usize::MAX,
        build_fails_with(log, ReplayError::DuplicateEmit(m)),
    ensures
        no_counter_twice(log),
        exists|i: int, j: int|
            {
                &&& 0 <= i < j < log.len()
                &&& (#[trigger] log[i]).op is Emit
                &&& (#[trigger] log[j]).op is Emit
                &&& log[i].msg_id == Some(m@)
                &&& log[j].msg_id == Some(m@)
                &&& no_message_twice(log.take(j))
            },
{
    counters_distinct_iff(log);
    let j = choose|j: int|
        {
            &&& #[trigger] sends_again(log, j)
            &&& forall|i: int| i < j ==> !#[trigger] sends_again(log, i)
            &&& log[j].msg_id == Some(m@)
        };
    let (k, i) = choose|k: Seq<char>, i: int| #[trigger]
        sends(log, j, k) && i < j && #[trigger] sends(log, i, k);
    assert(log[i].op is Emit && log[j].op is Emit);
    let less = log.take(j);
    assert forall|x: int, y: int|
        0 <= x < y < less.len() && (#[trigger] less[x]).op is Emit && (#[trigger] less[y]).op
            is Emit && less[x].msg_id is Some implies less[x].msg_id != less[y].msg_id by {
        if less[x].msg_id == less[y].msg_id {
            assert(sends(log, y, less[x].msg_id->0) && sends(log, x, less[x].msg_id->0));
            assert(sends_again(log, y));
        }
    }
}

/// A receipt without its send is told when nothing is repeated: the first one in the log, by its
/// name and the message that it names.
pub proof fn a_missing_send_is_told(log: Seq<EventModel>, id: String, m: String)
    requires
        log.len() <= usize::MAX,
        build_fails_with(log, ReplayError::MissingEmit(id, m)),
    ensures
        no_counter_twice(log),
        no_message_twice(log),
        exists|i: int|
            {
                &&& 0 <= i < log.len()
                &&& (#[trigger] log[i]).op is Recv
                &&& log[i].id == id@
                &&& message_told(log[i]) == m@
                &&& !is_sent(log, m@)
                &&& forall|j: int| 0 <= j < i ==> #[trigger] has_its_send(log, j)
            },
{
    counters_distinct_iff(log);
    lemma_messages_distinct(log);
    let i = choose|i: int|
        {
            &&& #[trigger] unmatched(log, i)
            &&& forall|j: int| j < i ==> !#[trigger] unmatched(log, j)
            &&& id@ == log[i].id
            &&& m@ == named_message(log[i])
        };
    lemma_unmatched(log, i);
    assert(message_told(log[i]) =~= named_message(log[i]));
    assert(log[i].op is Recv);
    assert forall|j: int| 0 <= j < i implies #[trigger] has_its_send(log, j) by {
        lemma_unmatched(log, j);
    }
}

/// Nothing else is told of a log without an order.
pub proof fn nothing_else_is_told(log: Seq<EventModel>, e: ReplayError)
    requires
        build_fails_with(log, e),
    ensures
        e is DuplicateSeq || e is DuplicateEmit || e is MissingEmit,
{
}

/// An edge that the clocks do not follow is told by the names of its ends: the first one in the
/// order of the edges.
pub proof fn a_broken_edge_is_told(
    log: Seq<EventModel>,
    edges: Seq<(usize, usize)>,
    e: ReplayError,
)
    requires
        validate_fails_with(log, edges, e),
    ensures
        e matches ReplayError::Inconsistent(x, y) && exists|k: int|
            {
                &&& 0 <= k < edges.len()
                &&& x@ == log[(#[trigger] edges[k]).0 as int].id
                &&& y@ == log[edges[k].1 as int].id
                &&& !clock_lt(log[edges[k].0 as int].vclock, log[edges[k].1 as int].vclock)
                &&& forall|j: int|
                    0 <= j < k ==> clock_lt(
                        log[(#[trigger] edges[j]).0 as int].vclock,
                        log[edges[j].1 as int].vclock,
                    )
            },
{
    if let ReplayError::Inconsistent(x, y) = e {
        let k = choose|k: int|
            {
                &&& 0 <= k < edges.len()
                &&& !#[trigger] edge_holds(log, edges, k)
                &&& forall|j: int| 0 <= j < k ==> #[trigger] edge_holds(log, edges, j)
                &&& x@ == log[edges[k].0 as int].id
                &&& y@ == log[edges[k].1 as int].id
            };
        assert forall|j: int| 0 <= j < k implies clock_lt(
            log[(#[trigger] edges[j]).0 as int].vclock,
            log[edges[j].1 as int].vclock,
        ) by {
            assert(edge_holds(log, edges, j));
        }
        assert(x@ == log[edges[k].0 as int].id);
    }
}

// ---------------------------------------------------------------------------
// The index
// ---------------------------------------------------------------------------

/// Under a name stands the last event of the log that has it; a name without an event is one
/// that no event has.
pub proof fn the_last_of_a_name_counts(log: Seq<EventModel>, id: Seq<char>, i: int)
    ensures
        last_named(log, id, i) <==> 0 <= i < log.len() && log[i].id == id && !(exists|j: int|
            i < j < log.len() && (#[trigger] log[j]).id == id),
        not_named(log, id) <==> !(exists|j: int| 0 <= j < log.len() && (#[trigger] log[j]).id == id),
{
}

proof fn lemma_sends_among(log: Seq<EventModel>, actor: Seq<char>, w: Seq<usize>) -> (at: Seq<int>)
    ensures
        at.len() == sends_among(log, actor, w).len(),
        forall|x: int, y: int| 0 <= x < y < at.len() ==> #[trigger] at[x] < #[trigger] at[y],
        forall|x: int|
            0 <= x < at.len() ==> 0 <= (#[trigger] at[x]) < w.len() && sends_among(log, actor, w)[x]
                == w[at[x]] && is_send_of(log, actor, w[at[x]]),
        forall|p: int|
            0 <= p < w.len() && is_send_of(log, actor, #[trigger] w[p]) ==> at.contains(p),
    decreases w.len(),
{
    if w.len() == 0 {
        seq![]
    } else {
        let less = lemma_sends_among(log, actor, w.drop_last());
        let last = w.len() - 1;
        if is_send_of(log, actor, w.last()) {
            let at = less.push(last);
            assert forall|p: int|
                0 <= p < w.len() && is_send_of(log, actor, #[trigger] w[p]) implies at.contains(
                p,
            ) by {
                if p == last {
                    assert(at[less.len() as int] == p);
                } else {
                    assert(w.drop_last()[p] == w[p]);
                    let x = choose|x: int| 0 <= x < less.len() && less[x] == p;
                    assert(at[x] == p);
                }
            }
            at
        } else {
            assert forall|p: int|
                0 <= p < w.len() && is_send_of(log, actor, #[trigger] w[p]) implies less.contains(
                p,
            ) by {
                assert(w.drop_last()[p] == w[p]);
            }
            less
        }
    }
}

/// The sends of an actor in the index are all events of the actor that send, and no others; they
/// come by their counter, and at equal counters by their position in the log.
pub proof fn the_sends_of_an_actor(log: Seq<EventModel>, actor: Seq<char>)
    requires
        log.len() <= usize::MAX,
    ensures
        forall|i: usize|
            i < log.len() ==> (#[trigger] sends_of(log, actor).contains(i) <==> log[i as int].op
                is Emit && log[i as int].actor == actor),
        forall|x: int| 0 <= x < sends_of(log, actor).len() ==> (#[trigger] sends_of(log, actor)[x])
            < log.len(),
        forall|x: int, y: int|
            0 <= x < y < sends_of(log, actor).len() ==> {
                let (i, j) = (
                    #[trigger] sends_of(log, actor)[x],
                    #[trigger] sends_of(log, actor)[y],
                );
                log[i as int].seq < log[j as int].seq || (log[i as int].seq == log[j as int].seq && i
                    < j)
            },
{
    let w = world_lines(log);
    let s = sends_of(log, actor);
    lemma_world_lines(log);
    let at = lemma_sends_among(log, actor, w);
    assert forall|i: usize| i < log.len() implies (#[trigger] s.contains(i) <==> log[i as int].op
        is Emit && log[i as int].actor == actor) by {
        if s.contains(i) {
            let x = choose|x: int| 0 <= x < s.len() && s[x] == i;
            assert(is_send_of(log, actor, w[at[x]]));
        }
        if log[i as int].op is Emit && log[i as int].actor == actor {
            assert(w.contains(i));
            let p = choose|p: int| 0 <= p < w.len() && w[p] == i;
            assert(is_send_of(log, actor, w[p]));
            assert(at.contains(p));
            let x = choose|x: int| 0 <= x < at.len() && at[x] == p;
            assert(s[x] == i);
        }
    }
    assert forall|x: int| 0 <= x < s.len() implies (#[trigger] s[x]) < log.len() by {
        assert(s[x] == w[at[x]]);
    }
    assert forall|x: int, y: int| 0 <= x < y < s.len() implies {
        let (i, j) = (#[trigger] s[x], #[trigger] s[y]);
        log[i as int].seq < log[j as int].seq || (log[i as int].seq == log[j as int].seq && i < j)
    } by {
        assert(at[x] < at[y]);
        assert(line_lt(log, w[at[x]] as int, w[at[y]] as int));
        text_lt_irreflexive(actor);
    }
}

} // verus!
