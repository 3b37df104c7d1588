//! What the operations of the library give, call by call, and how calls relate.

use crate::actor::{a_receipt_entry_by_entry, Actor, WorldLine};
use crate::addr::Addr;
use crate::clock::{
    a_merge_entry_by_entry, a_tick_raises_one_entry, before_entry_by_entry, clock_lt,
    concurrent_entry_by_entry, ActorId, Lamport, VectorClock,
};
use crate::clock_map::ClockMap;
use crate::context::Context;
use crate::dispatch::{Call, Deed, Dispatch};
use crate::envelope::{Envelope, Payload};
use crate::event::{
    compute_event, emit_event, event_name, event_names_differ, event_names_read_back, id_of,
    message_name_reads_back, mid, names_that_lead_to_a_message, parse_mid, recv_event,
};
use crate::log::{
    a_line_ends_at_its_line_feed, a_model_says_it_all, frame_line, log_lines, log_model, texts,
    the_last_line_needs_no_line_feed, CausalEvent, EventModel, Op,
};
use crate::mailbox::{AnySink, Sink};
use crate::prod::delivery::{send_external, Delivery};
use crate::prod::dispatch::{delivery_steps, how_a_delivery_goes, ProdDispatch};
use crate::prod::shared::{is_last, number_after};
use crate::prod::task::ActorTask;
use crate::prod::writer::{
    finds_and_deeds_are_as_they_are, what_the_writer_answers, Action, Found, LogWriter,
};
use crate::replay::build_laws::{
    a_broken_edge_is_told, a_missing_send_is_told, a_refused_log_is_no_record,
    a_repeated_counter_is_told, a_repeated_message_is_told, has_its_send, is_sent, message_told,
    no_counter_twice, no_message_twice, nothing_else_is_told, the_last_of_a_name_counts,
    the_sends_of_an_actor, where_the_edges_lead, which_logs_have_an_order,
};
use crate::replay::engine::{pair_texts, replay_log, replayable, timeline, Replayed};
use crate::replay::error::ReplayError;
use crate::replay::extension::{canonical_order, linearize};
use crate::replay::index::{last_named, vclock_from, RecordedIndex};
use crate::replay::order_laws::order_respects_all_edges;
use crate::replay::outcome::{
    fault_texts, find_divergences, is_outcome, number_of, Divergence, ReplayOutcome, Turn,
};
use crate::replay::poset::{causal_edges, edge_holds, edge_in_range, hb_strict, Poset};
use crate::replay::reexec::{casts_follow, ReplaySystem};
use crate::replay::report_laws::{
    agrees_with_the_last, below, left_out, told_of, what_a_verdict_tells,
};
use crate::replay::timeline_laws::{
    a_replay_names_its_events, all_concurrent_pairs_are_told, lists_concurrent,
    only_ready_events_are_taken, the_smallest_ready_event_is_taken,
    the_timeline_is_the_log_in_order,
};
use crate::text::{
    a_beginning_comes_first, blank, decimal, digits_value, text_lt, text_order,
    the_first_difference_decides, zeros_of, Order,
};
use vstd::prelude::*;

verus! {

/// The name that an event is given begins with the actor and a colon; the rest are digits that
/// read back to the counter. Calls that give the same name were made for the same event.
pub proof fn names_of_events(a: ActorId, x: u64, r: String, b: ActorId, y: u64, s: String)
    requires
        call_ensures(id_of, (&a, x), r),
        call_ensures(id_of, (&b, y), s),
    ensures
        r@.len() > a@.len() + 1,
        r@.take(a@.len() as int) == a@,
        r@[a@.len() as int] == ':',
        r@.skip(a@.len() as int + 1) == decimal(x as nat),
        digits_value(r@.skip(a@.len() as int + 1)) == x,
        r@ == s@ <==> a@ == b@ && x == y,
{
    event_names_read_back(a@, x);
    if r@ == s@ {
        event_names_differ(a@, x, b@, y);
    }
}

/// Every message number has a name, which reads back to it, so no two share one. A text reads as
/// the message `k` exactly if it is an `m`, perhaps a plus sign, perhaps zeros, and `k` in decimal.
pub proof fn names_of_messages(x: u64, m: Option<String>, s: &str, r: Option<u64>)
    requires
        call_ensures(mid, (x,), m),
        call_ensures(parse_mid, (s,), r),
    ensures
        m is Some,
        m->0@ == seq!['m'] + decimal(x as nat),
        s@ == m->0@ ==> r == Some(x),
        forall|k: u64|
            r == Some(k) <==> exists|zeros: nat|
                {
                    ||| s@ == seq!['m'] + #[trigger] zeros_of(zeros) + decimal(k as nat)
                    ||| s@ == seq!['m', '+'] + zeros_of(zeros) + decimal(k as nat)
                },
{
    message_name_reads_back(x);
    assert forall|k: u64|
        r == Some(k) <==> exists|zeros: nat|
            {
                ||| s@ == seq!['m'] + #[trigger] zeros_of(zeros) + decimal(k as nat)
                ||| s@ == seq!['m', '+'] + zeros_of(zeros) + decimal(k as nat)
            } by {
        names_that_lead_to_a_message(s@, k);
    }
}

/// The numbers handed out count up: each is one more than the last, below the limit.
pub proof fn numbers_of_messages(a: u64, x: u64, b: u64, y: u64)
    requires
        call_ensures(number_after, (a,), x),
        call_ensures(number_after, (b,), y),
    ensures
        a < u64::MAX ==> x == a + 1,
        a != b ==> x != y,
{
}

/// A send is recorded for its actor, under its counter and name, with everything that the
/// envelope says.
pub proof fn records_of_sends<P>(actor: ActorId, seq: u64, env: Envelope<P>, r: CausalEvent)
    requires
        call_ensures(emit_event::<P>, (&actor, seq, &env), r),
    ensures
        r.op == Op::Emit,
        r.actor@ == actor@,
        r.seq == seq,
        r.id@ == event_name(actor@, seq),
        r.vclock@ == env.vclock@,
        r.lamport == env.lamport.0,
        r.msg_id matches Some(m) && m@ == seq!['m'] + decimal(env.msg_id as nat),
        r.src matches Some(s) && s@ == env.src@,
        r.dst matches Some(s) && s@ == env.dst@,
        r.value is None,
        r.payload_hash is None,
{
}

/// A receipt is recorded for its actor, with the stamps of the receiver; it names the message and
/// the sender as the envelope does, and the actor as the receiver.
pub proof fn records_of_receipts<P>(
    actor: ActorId,
    seq: u64,
    clock: VectorClock,
    lamport: u64,
    env: Envelope<P>,
    r: CausalEvent,
)
    requires
        call_ensures(recv_event::<P>, (&actor, seq, &clock, lamport, &env), r),
    ensures
        r.op == Op::Recv,
        r.actor@ == actor@,
        r.seq == seq,
        r.id@ == event_name(actor@, seq),
        r.vclock@ == clock@,
        r.lamport == lamport,
        r.msg_id matches Some(m) && m@ == seq!['m'] + decimal(env.msg_id as nat),
        r.src matches Some(s) && s@ == env.src@,
        r.dst matches Some(s) && s@ == actor@,
        r.value is None,
        r.payload_hash is None,
{
}

/// A local event is recorded with the stamps of its actor, and names no message.
pub proof fn records_of_local_events(
    actor: ActorId,
    seq: u64,
    clock: VectorClock,
    lamport: u64,
    r: CausalEvent,
)
    requires
        call_ensures(compute_event, (&actor, seq, &clock, lamport), r),
    ensures
        r.op == Op::Compute,
        r.actor@ == actor@,
        r.seq == seq,
        r.id@ == event_name(actor@, seq),
        r.vclock@ == clock@,
        r.lamport == lamport,
        r.msg_id is None,
        r.src is None,
        r.dst is None,
        r.value is None,
        r.payload_hash is None,
{
}

/// Reading a text that begins with a line gives that line, unless it is blank, and then the lines
/// of the rest; the line ends at a line feed, with a carriage return before it or not.
pub proof fn lines_of_texts(
    line: Seq<char>,
    text: &str,
    lines: Vec<String>,
    rest: &str,
    others: Vec<String>,
)
    requires
        forall|i: int| 0 <= i < line.len() ==> #[trigger] line[i] != '\n',
        call_ensures(log_lines, (text,), lines),
        call_ensures(log_lines, (rest,), others),
    ensures
        ({
            ||| text@ == line + seq!['\n'] + rest@ && (line.len() == 0 || line.last() != '\r')
            ||| text@ == line + seq!['\r', '\n'] + rest@
        }) ==> texts(lines@) == if blank(line) {
            texts(others@)
        } else {
            seq![line] + texts(others@)
        },
        text@ == line ==> texts(lines@) == if blank(line) {
            seq![]
        } else {
            seq![line]
        },
{
    a_line_ends_at_its_line_feed(line, rest@);
    the_last_line_needs_no_line_feed(line);
    assert(Seq::<Seq<char>>::empty() + texts(others@) =~= texts(others@));
}

/// A framed line is the line and a line feed.
pub proof fn frames_of_lines(line: &str, r: String)
    requires
        call_ensures(frame_line, (line,), r),
    ensures
        r@ == line@ + seq!['\n'],
{
    assert(line@.push('\n') =~= line@ + seq!['\n']);
}

/// Texts are ordered by the first character in which they differ, and a beginning comes first.
pub proof fn orders_of_texts(
    a: &str,
    b: &str,
    r: Order,
    start: Seq<char>,
    c: char,
    d: char,
    x: Seq<char>,
    y: Seq<char>,
)
    requires
        call_ensures(text_order, (a, b), r),
    ensures
        r == Order::Equal <==> a@ == b@,
        a@ == start.push(c) + x && b@ == start.push(d) + y && c < d ==> r == Order::Less,
        a@ == start.push(d) + y && b@ == start.push(c) + x && c < d ==> r == Order::Greater,
        b@ == a@ + x && x.len() > 0 ==> r == Order::Less,
        a@ == b@ + x && x.len() > 0 ==> r == Order::Greater,
{
    if c < d {
        the_first_difference_decides(start, c, d, x, y);
    }
    if x.len() > 0 {
        a_beginning_comes_first(a@, x);
        a_beginning_comes_first(b@, x);
    }
}

/// One clock is before another when it is at most the other in every entry and smaller in some;
/// two clocks are concurrent when each is ahead of the other in some entry. The form in which a
/// clock stands in the log has the same entries, and the same order.
pub proof fn relations_of_clocks(
    a: VectorClock,
    b: VectorClock,
    before: bool,
    apart: bool,
    x: ClockMap,
    y: ClockMap,
    strict: bool,
)
    requires
        call_ensures(VectorClock::happens_before, (&a, &b), before),
        call_ensures(VectorClock::concurrent, (&a, &b), apart),
        call_ensures(VectorClock::to_string_map, (&a,), x),
        call_ensures(VectorClock::to_string_map, (&b,), y),
        call_ensures(hb_strict, (&x, &y), strict),
    ensures
        x@ == a@,
        strict == before,
        before <==> {
            &&& forall|k: Seq<char>| #[trigger]
                a@.contains_key(k) && a@[k] > 0 ==> b@.contains_key(k) && a@[k] <= b@[k]
            &&& exists|k: Seq<char>| #[trigger]
                b@.contains_key(k) && b@[k] > 0 && (a@.contains_key(k) ==> a@[k] < b@[k])
        },
        apart <==> {
            &&& exists|k: Seq<char>| #[trigger]
                a@.contains_key(k) && a@[k] > 0 && (b@.contains_key(k) ==> b@[k] < a@[k])
            &&& exists|k: Seq<char>| #[trigger]
                b@.contains_key(k) && b@[k] > 0 && (a@.contains_key(k) ==> a@[k] < b@[k])
        },
{
    before_entry_by_entry(a@, b@);
    concurrent_entry_by_entry(a@, b@);
}

/// The component of an actor is its entry, or zero.
pub proof fn components_of_clocks(a: VectorClock, k: ActorId, r: u64, m: ClockMap, s: VectorClock)
    requires
        call_ensures(VectorClock::get, (&a, &k), r),
        call_ensures(vclock_from, (&m,), s),
    ensures
        a@.contains_key(k@) ==> r == a@[k@],
        !a@.contains_key(k@) ==> r == 0,
        s@ == m@,
{
}

/// The order of a log is built exactly when no two events share actor and counter, no two sends
/// share a message, and every receipt has its send. It has the events of the log, and the edges
/// along the world-lines and from sends to receipts.
pub proof fn orders_of_logs<'a>(
    events: &'a [CausalEvent],
    r: Result<Poset<'a>, ReplayError>,
    a: usize,
    b: usize,
)
    requires
        call_ensures(Poset::<'a>::build, (events,), r),
        events@.len() <= usize::MAX,
    ensures
        r is Ok ==> no_counter_twice(log_model(events@)) && no_message_twice(log_model(events@)) && (
        forall|i: int|
            0 <= i < events@.len() ==> #[trigger] has_its_send(log_model(events@), i)),
        r matches Ok(p) ==> p.events@ == events@ && p.edges@ == causal_edges(log_model(events@)),
        r matches Ok(p) ==> {
            let (x, y) = (events@[a as int], events@[b as int]);
            let next = x.actor@ == y.actor@ && x.seq < y.seq && !(exists|c: int|
                0 <= c < events@.len() && (#[trigger] events@[c]).actor@ == x.actor@ && x.seq
                    < events@[c].seq < y.seq);
            let sent = x.op == Op::Emit && y.op == Op::Recv && x.msg_id is Some && x.msg_id->0@ == (
            if y.msg_id is Some {
                y.msg_id->0@
            } else {
                Seq::empty()
            });
            p.edges@.to_multiset().count((a, b)) == (if a < events@.len() && b < events@.len()
                && next {
                1nat
            } else {
                0nat
            }) + (if a < events@.len() && b < events@.len() && sent {
                1nat
            } else {
                0nat
            })
        },
        r matches Err(e) ==> {
            ||| e is DuplicateSeq && !no_counter_twice(log_model(events@))
            ||| e is DuplicateEmit && no_counter_twice(log_model(events@)) && !no_message_twice(
                log_model(events@),
            )
            ||| e is MissingEmit && no_counter_twice(log_model(events@)) && no_message_twice(
                log_model(events@),
            ) && exists|i: int|
                0 <= i < events@.len() && !#[trigger] has_its_send(log_model(events@), i)
        },
{
    let log = log_model(events@);
    which_logs_have_an_order(log);
    if r is Ok {
        where_the_edges_lead(log, a, b);
        if a < events@.len() && b < events@.len() {
            let (x, y) = (events@[a as int], events@[b as int]);
            a_model_says_it_all(x);
            a_model_says_it_all(y);
            assert(log[a as int] == x@ && log[b as int] == y@);
            if exists|c: int|
                0 <= c < log.len() && (#[trigger] log[c]).actor == log[a as int].actor
                    && log[a as int].seq < log[c].seq < log[b as int].seq {
                let c = choose|c: int|
                    0 <= c < log.len() && (#[trigger] log[c]).actor == log[a as int].actor
                        && log[a as int].seq < log[c].seq < log[b as int].seq;
                assert(events@[c].actor@ == x.actor@);
            }
            if exists|c: int|
                0 <= c < events@.len() && (#[trigger] events@[c]).actor@ == x.actor@ && x.seq
                    < events@[c].seq < y.seq {
                let c = choose|c: int|
                    0 <= c < events@.len() && (#[trigger] events@[c]).actor@ == x.actor@ && x.seq
                        < events@[c].seq < y.seq;
                assert(log[c].actor == log[a as int].actor);
            }
        }
    }
    if let Err(e) = r {
        nothing_else_is_told(log, e);
        match e {
            ReplayError::DuplicateSeq(actor, seq) => {
                a_repeated_counter_is_told(log, actor, seq);
            },
            ReplayError::DuplicateEmit(m) => {
                a_repeated_message_is_told(log, m);
            },
            ReplayError::MissingEmit(id, m) => {
                a_missing_send_is_told(log, id, m);
                let i = choose|i: int|
                    0 <= i < log.len() && (#[trigger] log[i]).op is Recv && message_told(log[i]) == m@
                        && !is_sent(log, m@);
                assert(!has_its_send(log, i));
            },
            _ => {},
        }
    }
}

/// Linearizing takes the smallest event that can be taken, again and again: by Lamport stamp, then
/// by actor, counter and position. It succeeds when that takes every event.
pub proof fn linear_orders_of_logs<'a>(
    poset: Poset<'a>,
    r: Result<Vec<usize>, ReplayError>,
    k: int,
    j: usize,
)
    requires
        call_ensures(linearize, (&poset,), r),
        r is Ok,
        0 <= k < poset.events@.len(),
        j < poset.events@.len(),
        j != r->Ok_0@[k],
        !r->Ok_0@.take(k).contains(j),
        forall|e: int|
            0 <= e < poset.edges@.len() && (#[trigger] poset.edges@[e]).1 == j
                ==> r->Ok_0@.take(k).contains(poset.edges@[e].0),
    ensures
        r->Ok_0@.len() == poset.events@.len(),
        r->Ok_0@[k] < poset.events@.len(),
        !r->Ok_0@.take(k).contains(r->Ok_0@[k]),
        forall|e: int|
            0 <= e < poset.edges@.len() && (#[trigger] poset.edges@[e]).1 == r->Ok_0@[k]
                ==> r->Ok_0@.take(k).contains(poset.edges@[e].0),
        ({
            let i = r->Ok_0@[k] as int;
            let (x, y) = (poset.events@[i], poset.events@[j as int]);
            ||| x.lamport < y.lamport
            ||| x.lamport == y.lamport && text_lt(x.actor@, y.actor@)
            ||| x.lamport == y.lamport && x.actor@ == y.actor@ && x.seq < y.seq
            ||| x.lamport == y.lamport && x.actor@ == y.actor@ && x.seq == y.seq && i < j
        }),
{
    the_smallest_ready_event_is_taken(poset.log(), poset.edges@, k, j);
    only_ready_events_are_taken(poset.log(), poset.edges@, k);
}

/// A log is replayed exactly when it is a faithful record. The timeline has the events of the log,
/// each once; the names told are those of the timeline; the edges told are the direct ones; and of
/// the pairs of the timeline all concurrent ones are told.
pub proof fn replays_of_logs(events: &[CausalEvent], r: Result<Replayed, ReplayError>)
    requires
        call_ensures(replay_log, (events,), r),
        events@.len() <= usize::MAX,
    ensures
        r is Ok <==> replayable(log_model(events@)),
        r matches Ok(o) ==> {
            let order = canonical_order(log_model(events@), causal_edges(log_model(events@)));
            &&& o.timeline@.len() == events@.len()
            &&& order.len() == events@.len()
            &&& order.no_duplicates()
            &&& forall|p: int|
                0 <= p < events@.len() ==> (#[trigger] o.timeline@[p])@ == events@[order[p] as int]@
                    && o.poset_json.events@[p]@ == o.timeline@[p].id@
            &&& o.poset_json.events@.len() == events@.len()
            &&& o.poset_json.edges@.len() == causal_edges(log_model(events@)).len()
            &&& exists|at: Seq<(int, int)>| #[trigger]
                lists_concurrent(
                    log_model(o.timeline@),
                    pair_texts(o.poset_json.concurrent@),
                    at,
                )
        },
{
    let log = log_model(events@);
    match r {
        Ok(o) => {
            the_timeline_is_the_log_in_order(log);
            a_replay_names_its_events(o, log);
            all_concurrent_pairs_are_told(o, log);
            order_respects_all_edges(log, causal_edges(log));
            let order = canonical_order(log, causal_edges(log));
            assert(log_model(o.timeline@).len() == o.timeline@.len());
            assert forall|p: int| 0 <= p < events@.len() implies (#[trigger] o.timeline@[p])@
                == events@[order[p] as int]@ && o.poset_json.events@[p]@ == o.timeline@[p].id@ by {
                assert(log_model(o.timeline@)[p] == o.timeline@[p]@);
                assert(timeline(log)[p] == log[order[p] as int]);
                assert(order[p] < log.len());
            }
        },
        Err(e) => {
            a_refused_log_is_no_record(log, e);
        },
    }
}

/// The number that an event speaks of is the one that the name of its message reads as.
pub proof fn numbers_of_events(e: CausalEvent, r: Option<u64>, s: &str, n: Option<u64>)
    requires
        call_ensures(number_of, (&e,), r),
        call_ensures(parse_mid, (s,), n),
    ensures
        e.msg_id is None ==> r is None,
        e.msg_id matches Some(m) ==> (m@ == s@ ==> r == n),
{
}

/// A counter that held one unit loses its last.
pub proof fn last_units(n: usize, r: bool)
    requires
        call_ensures(is_last, (n,), r),
    ensures
        r <==> n == 1,
{
}

/// There is room unless a counter is at its limit.
pub proof fn rooms_of_world_lines<P>(w: WorldLine, act: bool, env: Envelope<P>, receive: bool)
    requires
        call_ensures(WorldLine::can_act, (&w,), act),
        call_ensures(WorldLine::can_receive::<P>, (&w, &env), receive),
    ensures
        act <==> {
            &&& w.seq() < u64::MAX
            &&& w.lamport() < u64::MAX
            &&& w.clock().contains_key(w.name()) ==> w.clock()[w.name()] < u64::MAX
        },
        receive <==> {
            &&& act
            &&& env.lamport.0 < u64::MAX
            &&& env.vclock@.contains_key(w.name()) ==> env.vclock@[w.name()] < u64::MAX
        },
{
    w.where_there_is_room(env@.stamp);
}

/// The report on a re-execution: of every re-executed event that the recording does not have as it
/// is; of every message in excess; and of every recorded event that did not come about.
pub proof fn reports_of_re_executions<'a>(
    index: RecordedIndex<'a>,
    t: Vec<CausalEvent>,
    executed: Vec<CausalEvent>,
    extra: Vec<String>,
    turns: Vec<Turn>,
    r: Vec<Divergence>,
)
    requires
        call_ensures(find_divergences, (&index, &t, &executed, &extra, &turns), r),
        log_model(t@) == timeline(index.log()),
    ensures
        fault_texts(r@) == log_model(executed@).filter(
            |e: EventModel| !agrees_with_the_last(index.log(), e),
        ).map_values(|e: EventModel| told_of(index.log(), e)) + texts(extra@).map_values(
            |who: Seq<char>| (who, "more sends than recorded"@),
        ) + below(t@.len()).filter(
            |i: int| left_out(log_model(t@), turns@, log_model(executed@), i),
        ).map_values(|i: int| (log_model(t@)[i].id, "recorded event was not re-executed"@)),
{
    assert(log_model(t@).len() == t@.len());
    what_a_verdict_tells(index.log(), log_model(executed@), texts(extra@), turns@);
}

/// A local event advances a Lamport stamp by one. A receipt advances it to the next stamp after
/// both its own and the one that came with the message. Each gives the new stamp.
pub proof fn moves_of_stamps()
    ensures
        forall|a: &mut Lamport, r: u64| #[trigger]
            call_ensures(Lamport::tick, (a,), r) ==> final(a).0 == a.0 + 1 && r == a.0 + 1,
        forall|a: &mut Lamport, b: Lamport, r: u64| #[trigger]
            call_ensures(Lamport::update, (a, b), r) ==> {
                &&& final(a).0 == r
                &&& r > a.0
                &&& r > b.0
                &&& r == a.0 + 1 || r == b.0 + 1
            },
{
}

/// An event of an actor raises its entry in a clock by one, and no other. Merging gives every
/// entry of either clock, and of two the larger. Setting gives an entry the value.
pub proof fn moves_of_clocks(k: Seq<char>)
    ensures
        forall|c: &mut VectorClock, a: &ActorId| #[trigger]
            call_ensures(VectorClock::increment, (c, a), ()) && (c@.contains_key(a@) ==> c@[a@]
                < u64::MAX) ==> {
                &&& final(c)@.remove(a@) == c@.remove(a@)
                &&& final(c)@.contains_key(a@)
                &&& final(c)@[a@] == if c@.contains_key(a@) {
                    c@[a@] + 1
                } else {
                    1
                }
            },
        forall|c: &mut VectorClock, d: &VectorClock| #[trigger]
            call_ensures(VectorClock::merge, (c, d), ()) ==> {
                let (x, y, z) = (c@, d@, final(c)@);
                &&& z.contains_key(k) <==> x.contains_key(k) || y.contains_key(k)
                &&& x.contains_key(k) ==> z[k] >= x[k]
                &&& y.contains_key(k) ==> z[k] >= y[k]
                &&& z.contains_key(k) ==> (x.contains_key(k) && z[k] == x[k]) || (y.contains_key(k)
                    && z[k] == y[k])
            },
        forall|c: &mut VectorClock, a: ActorId, v: u64| #[trigger]
            call_ensures(VectorClock::set, (c, a, v), ()) ==> final(c)@ == c@.insert(a@, v),
{
    assert forall|c: &mut VectorClock, a: &ActorId| #[trigger]
        call_ensures(VectorClock::increment, (c, a), ()) && (c@.contains_key(a@) ==> c@[a@]
            < u64::MAX) implies {
        &&& final(c)@.remove(a@) == c@.remove(a@)
        &&& final(c)@.contains_key(a@)
        &&& final(c)@[a@] == if c@.contains_key(a@) {
            c@[a@] + 1
        } else {
            1
        }
    } by {
        a_tick_raises_one_entry(c@, a@);
    }
    assert forall|c: &mut VectorClock, d: &VectorClock| #[trigger]
        call_ensures(VectorClock::merge, (c, d), ()) implies {
        let (x, y, z) = (c@, d@, final(c)@);
        &&& z.contains_key(k) <==> x.contains_key(k) || y.contains_key(k)
        &&& x.contains_key(k) ==> z[k] >= x[k]
        &&& y.contains_key(k) ==> z[k] >= y[k]
        &&& z.contains_key(k) ==> (x.contains_key(k) && z[k] == x[k]) || (y.contains_key(k) && z[k]
            == y[k])
    } by {
        a_merge_entry_by_entry(c@, d@, k);
    }
}

/// The log writer writes every event with a line feed and counts it; it flushes when the channel
/// runs empty, or ends, after an event; and it ends with the count.
pub proof fn turns_of_the_writer()
    ensures
        forall|w: &mut LogWriter, found: Found, r: Action| #[trigger]
            call_ensures(LogWriter::next, (w, found), r) ==> {
                &&& found matches Found::Event(line) ==> (r matches Action::Write(text) && text@
                    == line@ + seq!['\n'])
                &&& found is Nothing ==> r is Flush
                &&& found is End && w.draining() ==> r is Flush
                &&& found is End && !w.draining() ==> (r matches Action::Finish(n) && n
                    == w.written())
                &&& final(w).written() == w.written() + (if found is Event {
                    1nat
                } else {
                    0nat
                })
                &&& final(w).draining() <==> found is Event
            },
{
    assert forall|w: &mut LogWriter, found: Found, r: Action| #[trigger]
        call_ensures(LogWriter::next, (w, found), r) implies {
        &&& found matches Found::Event(line) ==> (r matches Action::Write(text) && text@ == line@
            + seq!['\n'])
        &&& found is Nothing ==> r is Flush
        &&& found is End && w.draining() ==> r is Flush
        &&& found is End && !w.draining() ==> (r matches Action::Finish(n) && n == w.written())
        &&& final(w).written() == w.written() + (if found is Event {
            1nat
        } else {
            0nat
        })
        &&& final(w).draining() <==> found is Event
    } by {
        finds_and_deeds_are_as_they_are(found, r);
        what_the_writer_answers(w.draining(), w.written(), found@->Event_0);
    }
}

/// A receipt moves a world-line on: the counter by one, the Lamport stamp past both, and the clock
/// to what either knew, and one more event of the actor; it is recorded with these stamps.
pub proof fn receipts_on_world_lines<P>(k: Seq<char>)
    ensures
        forall|w: &mut WorldLine, env: &Envelope<P>, r: CausalEvent| #[trigger]
            call_ensures(WorldLine::receive::<P>, (w, env), r) && w.room_for(env@.stamp) ==> {
                let now = *final(w);
                &&& now.name() == w.name()
                &&& now.seq() == w.seq() + 1
                &&& now.lamport() > w.lamport() && now.lamport() > env.lamport.0
                &&& now.lamport() == w.lamport() + 1 || now.lamport() == env.lamport.0 + 1
                &&& now.clock().contains_key(k) <==> k == w.name() || w.clock().contains_key(k)
                    || env.vclock@.contains_key(k)
                &&& r.op == Op::Recv
                &&& r.actor@ == w.name()
                &&& r.seq == now.seq()
                &&& r.lamport == now.lamport()
                &&& r.vclock@ == now.clock()
                &&& r.id@ == event_name(w.name(), now.seq())
                &&& r.src matches Some(s) && s@ == env.src@
                &&& r.dst matches Some(s) && s@ == w.name()
                &&& r.msg_id matches Some(m) && m@ == seq!['m'] + decimal(env.msg_id as nat)
            },
{
    assert forall|w: &mut WorldLine, env: &Envelope<P>, r: CausalEvent| #[trigger]
        call_ensures(WorldLine::receive::<P>, (w, env), r) && w.room_for(env@.stamp) implies {
        let now = *final(w);
        &&& now.name() == w.name()
        &&& now.seq() == w.seq() + 1
        &&& now.lamport() > w.lamport() && now.lamport() > env.lamport.0
        &&& now.lamport() == w.lamport() + 1 || now.lamport() == env.lamport.0 + 1
        &&& now.clock().contains_key(k) <==> k == w.name() || w.clock().contains_key(k)
            || env.vclock@.contains_key(k)
        &&& r.op == Op::Recv
        &&& r.actor@ == w.name()
        &&& r.seq == now.seq()
        &&& r.lamport == now.lamport()
        &&& r.vclock@ == now.clock()
        &&& r.id@ == event_name(w.name(), now.seq())
        &&& r.src matches Some(s) && s@ == env.src@
        &&& r.dst matches Some(s) && s@ == w.name()
        &&& r.msg_id matches Some(m) && m@ == seq!['m'] + decimal(env.msg_id as nat)
    } by {
        w.where_there_is_room(env@.stamp);
        a_receipt_entry_by_entry(w.clock(), w.name(), env.vclock@, k);
        a_model_says_it_all(r);
    }
}

/// A send moves the actor on by one event: its own clock entry, Lamport stamp and counter. It takes
/// one number, records one event and gives one envelope for delivery, in this order, all with the
/// new stamps; the envelope carries the message.
pub proof fn sends_of_handlers<'a, B: ?Sized + Dispatch<P>, M, P: Payload<M>>()
    ensures
        forall|c: &mut Context<'a, B>, to: &Addr<M, P>, msg: M| #[trigger]
            call_ensures(Context::<'a, B>::send::<M, P>, (c, to, msg), ()) && c.has_room() ==> {
                let now = *final(c);
                let e = now.backend().recorded().last();
                let env = now.backend().sent().last().1;
                let id = now.backend().issued().last();
                &&& now.actor() == c.actor()
                &&& now.seq() == c.seq() + 1
                &&& now.lamport() == c.lamport() + 1
                &&& now.clock().remove(c.actor()) == c.clock().remove(c.actor())
                &&& now.clock().contains_key(c.actor())
                &&& now.clock()[c.actor()] == if c.clock().contains_key(c.actor()) {
                    c.clock()[c.actor()] + 1
                } else {
                    1
                }
                &&& now.backend().calls() == c.backend().calls() + seq![
                    Call::Numbered(id),
                    Call::Recorded(e),
                    Call::Delivered(to.target(), env),
                ]
                &&& now.backend().recorded() == c.backend().recorded().push(e)
                &&& e.op == Op::Emit
                &&& e.actor == c.actor() && e.seq == now.seq()
                &&& e.vclock == now.clock() && e.lamport == now.lamport()
                &&& e.src == Some(c.actor()) && e.dst == Some(to.name())
                &&& e.msg_id == Some(seq!['m'] + decimal(id as nat))
                &&& e.value is None && e.payload_hash is None
                &&& env.msg.carried() == Some(msg)
                &&& env.vclock@ == now.clock() && env.lamport.0 == now.lamport()
                &&& env.msg_id == id
                &&& env.src@ == c.actor() && env.dst@ == to.name()
            },
{
    assert forall|c: &mut Context<'a, B>, to: &Addr<M, P>, msg: M| #[trigger]
        call_ensures(Context::<'a, B>::send::<M, P>, (c, to, msg), ()) && c.has_room() implies {
                let now = *final(c);
                let e = now.backend().recorded().last();
                let env = now.backend().sent().last().1;
                let id = now.backend().issued().last();
                &&& now.actor() == c.actor()
                &&& now.seq() == c.seq() + 1
                &&& now.lamport() == c.lamport() + 1
                &&& now.clock().remove(c.actor()) == c.clock().remove(c.actor())
                &&& now.clock().contains_key(c.actor())
                &&& now.clock()[c.actor()] == if c.clock().contains_key(c.actor()) {
                    c.clock()[c.actor()] + 1
                } else {
                    1
                }
                &&& now.backend().calls() == c.backend().calls() + seq![
                    Call::Numbered(id),
                    Call::Recorded(e),
                    Call::Delivered(to.target(), env),
                ]
                &&& now.backend().recorded() == c.backend().recorded().push(e)
                &&& e.op == Op::Emit
                &&& e.actor == c.actor() && e.seq == now.seq()
                &&& e.vclock == now.clock() && e.lamport == now.lamport()
                &&& e.src == Some(c.actor()) && e.dst == Some(to.name())
                &&& e.msg_id == Some(seq!['m'] + decimal(id as nat))
                &&& e.value is None && e.payload_hash is None
                &&& env.msg.carried() == Some(msg)
                &&& env.vclock@ == now.clock() && env.lamport.0 == now.lamport()
                &&& env.msg_id == id
                &&& env.src@ == c.actor() && env.dst@ == to.name()
            } by {
        a_tick_raises_one_entry(c.clock(), c.actor());
        c.where_there_is_room();
    }
}

/// A local event moves the actor on in the same way, and records one event.
pub proof fn local_events_of_handlers<'a, B: ?Sized + Dispatch<P>, P>()
    ensures
        forall|c: &mut Context<'a, B>| #[trigger]
            call_ensures(Context::<'a, B>::compute::<P>, (c,), ()) && c.has_room() ==> {
                let now = *final(c);
                let e = now.backend().recorded().last();
                &&& now.actor() == c.actor()
                &&& now.seq() == c.seq() + 1
                &&& now.lamport() == c.lamport() + 1
                &&& now.clock().remove(c.actor()) == c.clock().remove(c.actor())
                &&& now.clock().contains_key(c.actor())
                &&& now.clock()[c.actor()] == if c.clock().contains_key(c.actor()) {
                    c.clock()[c.actor()] + 1
                } else {
                    1
                }
                &&& now.backend().calls() == c.backend().calls().push(Call::Recorded(e))
                &&& now.backend().recorded() == c.backend().recorded().push(e)
                &&& now.backend().issued() == c.backend().issued()
                &&& now.backend().sent() == c.backend().sent()
                &&& e.op == Op::Compute
                &&& e.actor == c.actor() && e.seq == now.seq()
                &&& e.vclock == now.clock() && e.lamport == now.lamport()
                &&& e.msg_id is None && e.src is None && e.dst is None
                &&& e.value is None && e.payload_hash is None
            },
{
    assert forall|c: &mut Context<'a, B>| #[trigger]
        call_ensures(Context::<'a, B>::compute::<P>, (c,), ()) && c.has_room() implies {
                let now = *final(c);
                let e = now.backend().recorded().last();
                &&& now.actor() == c.actor()
                &&& now.seq() == c.seq() + 1
                &&& now.lamport() == c.lamport() + 1
                &&& now.clock().remove(c.actor()) == c.clock().remove(c.actor())
                &&& now.clock().contains_key(c.actor())
                &&& now.clock()[c.actor()] == if c.clock().contains_key(c.actor()) {
                    c.clock()[c.actor()] + 1
                } else {
                    1
                }
                &&& now.backend().calls() == c.backend().calls().push(Call::Recorded(e))
                &&& now.backend().recorded() == c.backend().recorded().push(e)
                &&& now.backend().issued() == c.backend().issued()
                &&& now.backend().sent() == c.backend().sent()
                &&& e.op == Op::Compute
                &&& e.actor == c.actor() && e.seq == now.seq()
                &&& e.vclock == now.clock() && e.lamport == now.lamport()
                &&& e.msg_id is None && e.src is None && e.dst is None
                &&& e.value is None && e.payload_hash is None
            } by {
        a_tick_raises_one_entry(c.clock(), c.actor());
        c.where_there_is_room();
    }
}

/// The production backend takes one number for a number, sends an event to the log once, and
/// delivers an envelope by counting it in, handing it over, and counting it out if it came back.
pub proof fn steps_of_the_backend<P>()
    ensures
        forall|b: &mut ProdDispatch<P>, r: u64| #[trigger]
            call_ensures(<ProdDispatch<P> as Dispatch<P>>::next_msg_id, (b,), r) ==> final(b).deeds()
                == b.deeds().push(Deed::Numbered(r)) && final(b).issued() == b.issued().push(r),
        forall|b: &mut ProdDispatch<P>, e: CausalEvent| #[trigger]
            call_ensures(<ProdDispatch<P> as Dispatch<P>>::record, (b, e), ()) ==> final(b).deeds()
                == b.deeds().push(Deed::Logged(e@)) && final(b).recorded() == b.recorded().push(e@),
        forall|b: &mut ProdDispatch<P>, sink: &Sink<P>, env: Envelope<P>| #[trigger]
            call_ensures(<ProdDispatch<P> as Dispatch<P>>::deliver, (b, sink, env), ()) ==> {
                &&& final(b).sent() == b.sent().push((*sink, env))
                &&& exists|r: Result<(), Envelope<P>>| #[trigger]
                    sink.answers(env, r) && final(b).deeds() == b.deeds() + seq![
                        Deed::CountedIn,
                        if r is Ok {
                            Deed::HandedOver
                        } else {
                            Deed::Refused
                        },
                    ]
            },
{
    assert forall|b: &mut ProdDispatch<P>, sink: &Sink<P>, env: Envelope<P>| #[trigger]
        call_ensures(<ProdDispatch<P> as Dispatch<P>>::deliver, (b, sink, env), ()) implies {
        &&& final(b).sent() == b.sent().push((*sink, env))
        &&& exists|r: Result<(), Envelope<P>>| #[trigger]
            sink.answers(env, r) && final(b).deeds() == b.deeds() + seq![
                Deed::CountedIn,
                if r is Ok {
                    Deed::HandedOver
                } else {
                    Deed::Refused
                },
            ]
    } by {
        let r = choose|r: Result<(), Envelope<P>>| #[trigger]
            sink.answers(env, r) && final(b).deeds() == b.deeds() + delivery_steps(r is Ok);
        how_a_delivery_goes(r is Ok);
        assert(delivery_steps(r is Ok) =~= seq![
            Deed::CountedIn,
            if r is Ok {
                Deed::HandedOver
            } else {
                Deed::Refused
            },
        ]);
        assert(sink.answers(env, r));
    }
}

/// The index gives the last event of a name, or none if no event has it; and of an actor all of
/// its sends, by their counter.
pub proof fn answers_of_the_index<'a>(
    index: RecordedIndex<'a>,
    id: &str,
    e: Option<&CausalEvent>,
    actor: &str,
    sends: Vec<usize>,
)
    requires
        call_ensures(RecordedIndex::<'a>::event, (&index, id), e),
        call_ensures(RecordedIndex::<'a>::emits_of, (&index, actor), sends),
        index.log().len() <= usize::MAX,
    ensures
        e is None <==> !(exists|i: int|
            0 <= i < index.log().len() && (#[trigger] index.log()[i]).id == id@),
        e matches Some(x) ==> exists|i: int|
            {
                &&& 0 <= i < index.log().len()
                &&& #[trigger] index.log()[i] == x@
                &&& x@.id == id@
                &&& forall|j: int| i < j < index.log().len() ==> (#[trigger] index.log()[j]).id != id@
            },
        forall|i: usize|
            i < index.log().len() ==> (#[trigger] sends@.contains(i) <==> index.log()[i as int].op
                == Op::Emit && index.log()[i as int].actor == actor@),
        forall|x: int, y: int|
            0 <= x < y < sends@.len() ==> {
                let (i, j) = (#[trigger] sends@[x], #[trigger] sends@[y]);
                index.log()[i as int].seq < index.log()[j as int].seq || (index.log()[i as int].seq
                    == index.log()[j as int].seq && i < j)
            },
{
    let log = index.log();
    the_sends_of_an_actor(log, actor@);
    if let Some(x) = e {
        let i = choose|i: int| #[trigger] last_named(log, id@, i) && x@ == log[i];
        the_last_of_a_name_counts(log, id@, i);
        assert(log[i] == x@);
    } else {
        the_last_of_a_name_counts(log, id@, 0);
    }
}

/// An order is valid exactly when the clocks at the ends of every edge are strictly ordered;
/// otherwise the first edge where they are not is told.
pub proof fn checks_of_orders<'a>(poset: Poset<'a>, r: Result<(), ReplayError>)
    requires
        call_ensures(Poset::<'a>::validate, (&poset,), r),
        poset.well_formed(),
    ensures
        r is Ok <==> forall|k: int|
            0 <= k < poset.edges@.len() ==> clock_lt(
                poset.events@[(#[trigger] poset.edges@[k]).0 as int].vclock@,
                poset.events@[poset.edges@[k].1 as int].vclock@,
            ),
        r matches Err(e) ==> e is Inconsistent,
{
    let (log, edges) = (poset.log(), poset.edges@);
    match r {
        Ok(_) => {
            assert forall|k: int| 0 <= k < edges.len() implies clock_lt(
                poset.events@[(#[trigger] edges[k]).0 as int].vclock@,
                poset.events@[edges[k].1 as int].vclock@,
            ) by {
                assert(edge_holds(log, edges, k));
                assert(edge_in_range(edges[k], poset.events@.len()));
            }
        },
        Err(e) => {
            a_broken_edge_is_told(log, edges, e);
            let k = choose|k: int|
                0 <= k < edges.len() && !clock_lt(
                    log[(#[trigger] edges[k]).0 as int].vclock,
                    log[edges[k].1 as int].vclock,
                );
            assert(edge_in_range(edges[k], poset.events@.len()));
        },
    }
}

/// A re-execution reports what its course was: what it tells, how its steps went, and that every
/// actor was run for its own messages. No origin message is left over. A log that is no faithful
/// record is refused, and then nothing has changed.
pub proof fn re_executions_of_recordings<P>()
    ensures
        forall|s: &mut ReplaySystem<P>, log: &[CausalEvent], r: Result<ReplayOutcome, ReplayError>|
            #[trigger]
            call_ensures(ReplaySystem::<P>::replay, (s, log), r) ==> {
                let model = log_model(log@);
                let now = *final(s);
                &&& now.names() == s.names()
                &&& r is Ok ==> replayable(model)
                &&& r matches Ok(o) ==> is_outcome(
                    o,
                    model,
                    s.names(),
                    s.stimuli(),
                    now.course().opened,
                    now.course().steps,
                )
                &&& r is Ok ==> casts_follow(
                    model,
                    timeline(model),
                    s.names(),
                    s.cast(),
                    now.course(),
                ) && now.cast() == now.course().casts.last() && now.stimuli().len() == 0
                &&& r is Err && !(r->Err_0 is ClockExhausted) && !(r->Err_0 is WrongMessageType)
                    ==> !replayable(model) && now == *s
            },
{
    assert forall|s: &mut ReplaySystem<P>, log: &[CausalEvent], r: Result<ReplayOutcome, ReplayError>|
        #[trigger]
        call_ensures(ReplaySystem::<P>::replay, (s, log), r) && r is Err && !(r->Err_0
            is ClockExhausted) && !(r->Err_0 is WrongMessageType) implies !replayable(
        log_model(log@),
    ) by {
        a_refused_log_is_no_record(log_model(log@), r->Err_0);
    }
}

/// An actor takes a message when there is room for it: one of its own type is handled; one of
/// another is recorded, counted out, and skipped. Without room nothing is done.
pub proof fn messages_of_tasks<A: Actor<ProdDispatch<P>>, P: Payload<A::Msg>>()
    ensures
        forall|t: &mut ActorTask<A, P>, env: Envelope<P>, r: Delivery| #[trigger]
            call_ensures(ActorTask::<A, P>::take, (t, env), r) ==> {
                let now = *final(t);
                let room = t.world().room_for(env@.stamp);
                &&& r == Delivery::Exhausted <==> !room
                &&& r == Delivery::WrongType <==> room && env.msg.carried() is None
                &&& r == Delivery::Handled <==> room && env.msg.carried() is Some
                &&& !room ==> now == *t
                &&& room ==> now.heard() == t.heard().push(env@)
                &&& r == Delivery::WrongType ==> {
                    let e = now.backend().recorded().last();
                    &&& now.actor() == t.actor()
                    &&& now.backend().deeds() == t.backend().deeds() + seq![
                        Deed::Logged(e),
                        Deed::CountedOut,
                    ]
                    &&& e.op == Op::Recv
                    &&& e.seq == t.world().seq() + 1
                }
            },
{
}

/// A message from outside is an event on the world-line of whoever sends it: it is numbered,
/// recorded and delivered once. Without room nothing is done.
pub proof fn messages_from_outside<M, P: Payload<M>>()
    ensures
        forall|w: &mut WorldLine, b: &mut ProdDispatch<P>, to: &Addr<M, P>, msg: M, r: bool|
            #[trigger]
            call_ensures(send_external::<M, P>, (w, b, to, msg), r) ==> {
                let now = *final(w);
                let e = final(b).recorded().last();
                let env = final(b).sent().last().1;
                let id = final(b).issued().last();
                &&& r <==> w.has_room()
                &&& !r ==> now == *w && *final(b) == *b
                &&& r ==> now.seq() == w.seq() + 1 && now.lamport() == w.lamport() + 1
                &&& r ==> env.msg.carried() == Some(msg) && env.msg_id == id && env.dst@ == to.name()
                &&& r ==> e.op == Op::Emit && e.seq == now.seq() && e.lamport == now.lamport()
                &&& r ==> e.dst == Some(to.name()) && e.src == Some(w.name())
                &&& r ==> exists|x: Result<(), Envelope<P>>| #[trigger]
                    to.target().answers(env, x) && final(b).deeds() == b.deeds() + seq![
                        Deed::Numbered(id),
                        Deed::Logged(e),
                    ] + delivery_steps(x is Ok)
            },
{
}

/// An origin message goes to the end of those that are supplied, for the receiver named.
pub proof fn origins_of_re_executions<M, P: Payload<M>>()
    ensures
        forall|s: &mut ReplaySystem<P>, to: &Addr<M, P>, msg: M| #[trigger]
            call_ensures(ReplaySystem::<P>::origin::<M>, (s, to, msg), ()) ==> {
                let now = *final(s);
                &&& now.cast() == s.cast()
                &&& now.stimuli().len() == s.stimuli().len() + 1
                &&& now.stimuli().take(s.stimuli().len() as int) == s.stimuli()
                &&& now.stimuli().last().0 == to.name()
                &&& now.stimuli().last().1.carried() == Some(msg)
            },
{
    assert forall|s: &mut ReplaySystem<P>, to: &Addr<M, P>, msg: M| #[trigger]
        call_ensures(ReplaySystem::<P>::origin::<M>, (s, to, msg), ()) implies {
        let now = *final(s);
        &&& now.cast() == s.cast()
        &&& now.stimuli().len() == s.stimuli().len() + 1
        &&& now.stimuli().take(s.stimuli().len() as int) == s.stimuli()
        &&& now.stimuli().last().0 == to.name()
        &&& now.stimuli().last().1.carried() == Some(msg)
    } by {
        let now = *final(s);
        assert(now.stimuli().take(s.stimuli().len() as int) =~= now.stimuli().drop_last());
    }
}

} // verus!
