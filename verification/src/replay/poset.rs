//! The happens-before order of a recorded log.

use crate::clock::clock_lt;
use crate::clock_map::ClockMap;
use crate::log::{log_model, CausalEvent, EventModel, Op};
use crate::replay::error::ReplayError;
use crate::replay::lines::{line_up, lined_up};
use crate::text::{text_order, Order};
use vstd::hash_map::StringHashMap;
use vstd::prelude::*;

verus! {

// ---------------------------------------------------------------------------
// Program order
// ---------------------------------------------------------------------------

/// All positions of a log.
pub open spec fn positions(n: nat) -> Seq<usize> {
    Seq::new(n, |i: int| i as usize)
}

/// The events of a log, actor by actor, each actor's by its counter.
pub open spec fn world_lines(log: Seq<EventModel>) -> Seq<usize> {
    lined_up(log, positions(log.len()))
}

/// The events at `p - 1` and `p` of the world-lines belong to the same actor.
pub open spec fn joined_at(log: Seq<EventModel>, w: Seq<usize>, p: int) -> bool {
    1 <= p < w.len() && log[w[p - 1] as int].actor == log[w[p] as int].actor
}

/// Those two events also have the same counter.
pub open spec fn repeats_at(log: Seq<EventModel>, w: Seq<usize>, p: int) -> bool {
    joined_at(log, w, p) && log[w[p - 1] as int].seq == log[w[p] as int].seq
}

/// The edges between neighbours among the first `k` events of the world-lines.
pub open spec fn program_edges(log: Seq<EventModel>, w: Seq<usize>, k: int) -> Seq<(usize, usize)>
    decreases k,
{
    if k < 2 {
        seq![]
    } else if joined_at(log, w, k - 1) {
        program_edges(log, w, k - 1).push((w[k - 2], w[k - 1]))
    } else {
        program_edges(log, w, k - 1)
    }
}

// ---------------------------------------------------------------------------
// Message order
// ---------------------------------------------------------------------------

/// Event `i` sends the message `m`.
pub open spec fn sends(log: Seq<EventModel>, i: int, m: Seq<char>) -> bool {
    0 <= i < log.len() && log[i].op == Op::Emit && log[i].msg_id == Some(m)
}

/// Event `i` sends a message that an earlier event has sent.
pub open spec fn sends_again(log: Seq<EventModel>, i: int) -> bool {
    exists|m: Seq<char>, j: int| #[trigger] sends(log, i, m) && j < i && #[trigger] sends(log, j, m)
}

/// The message that an event names; none counts as the empty name.
pub open spec fn named_message(e: EventModel) -> Seq<char> {
    match e.msg_id {
        Some(m) => m,
        None => seq![],
    }
}

/// Event `i` receives a message that no event sends.
pub open spec fn unmatched(log: Seq<EventModel>, i: int) -> bool {
    &&& 0 <= i < log.len()
    &&& log[i].op == Op::Recv
    &&& forall|j: int| !#[trigger] sends(log, j, named_message(log[i]))
}

/// The event that sends the message `m`.
pub open spec fn sender(log: Seq<EventModel>, m: Seq<char>) -> int {
    choose|i: int| #[trigger] sends(log, i, m)
}

/// The edges from sends to receipts among the first `k` events.
pub open spec fn message_edges(log: Seq<EventModel>, k: int) -> Seq<(usize, usize)>
    decreases k,
{
    if k < 1 {
        seq![]
    } else if log[k - 1].op == Op::Recv {
        message_edges(log, k - 1).push(
            (sender(log, named_message(log[k - 1])) as usize, (k - 1) as usize),
        )
    } else {
        message_edges(log, k - 1)
    }
}

// ---------------------------------------------------------------------------
// The poset
// ---------------------------------------------------------------------------

/// No actor repeats a counter.
pub open spec fn counters_distinct(log: Seq<EventModel>) -> bool {
    forall|p: int| !#[trigger] repeats_at(log, world_lines(log), p)
}

/// No message is sent twice.
pub open spec fn messages_distinct(log: Seq<EventModel>) -> bool {
    forall|i: int| !#[trigger] sends_again(log, i)
}

/// Every message that is received is sent.
pub open spec fn receipts_matched(log: Seq<EventModel>) -> bool {
    forall|i: int| !#[trigger] unmatched(log, i)
}

/// The log has a happens-before order.
pub open spec fn buildable(log: Seq<EventModel>) -> bool {
    counters_distinct(log) && messages_distinct(log) && receipts_matched(log)
}

/// The direct causal edges of a log: program order, then message order.
pub open spec fn causal_edges(log: Seq<EventModel>) -> Seq<(usize, usize)> {
    program_edges(log, world_lines(log), log.len() as int) + message_edges(log, log.len() as int)
}

/// `e` tells what is wrong with a log that has no happens-before order: its first repeated
/// counter, or else its first message sent twice, or else its first unmatched receipt.
pub open spec fn build_fails_with(log: Seq<EventModel>, e: ReplayError) -> bool {
    match e {
        ReplayError::DuplicateSeq(actor, seq) => exists|p: int|
            {
                &&& #[trigger] repeats_at(log, world_lines(log), p)
                &&& forall|q: int| q < p ==> !#[trigger] repeats_at(log, world_lines(log), q)
                &&& actor@ == log[world_lines(log)[p] as int].actor
                &&& seq == log[world_lines(log)[p] as int].seq
            },
        ReplayError::DuplicateEmit(m) => counters_distinct(log) && exists|i: int|
            {
                &&& #[trigger] sends_again(log, i)
                &&& forall|j: int| j < i ==> !#[trigger] sends_again(log, j)
                &&& log[i].msg_id == Some(m@)
            },
        ReplayError::MissingEmit(id, m) => counters_distinct(log) && messages_distinct(log)
            && exists|i: int|
            {
                &&& #[trigger] unmatched(log, i)
                &&& forall|j: int| j < i ==> !#[trigger] unmatched(log, j)
                &&& id@ == log[i].id
                &&& m@ == named_message(log[i])
            },
        _ => false,
    }
}

/// Strict product order on clocks in their log form: at most the other everywhere and smaller
/// somewhere, where a missing component is zero.
pub fn hb_strict(a: &ClockMap, b: &ClockMap) -> (r: bool)
    ensures
        r == clock_lt(a@, b@),
{
    a.below(b) && !b.below(a)
}

/// The happens-before order of a recorded log. Nodes are the positions of the events; `edges`
/// are the direct causal edges.
#[derive(Debug)]
pub struct Poset<'a> {
    pub events: &'a [CausalEvent],
    pub edges: Vec<(usize, usize)>,
}

/// Both ends of an edge lie among `n` nodes.
pub open spec fn edge_in_range(e: (usize, usize), n: nat) -> bool {
    e.0 < n && e.1 < n
}

impl<'a> Poset<'a> {
    /// What the events say.
    pub open spec fn log(&self) -> Seq<EventModel> {
        log_model(self.events@)
    }

    /// All edges lie among the events.
    pub open spec fn well_formed(&self) -> bool {
        forall|i: int|
            0 <= i < self.edges@.len() ==> edge_in_range(#[trigger] self.edges@[i], self.events@.len())
    }
}

pub fn all_positions(n: usize) -> (r: Vec<usize>)
    ensures
        r@ == positions(n as nat),
{
    let mut out: Vec<usize> = Vec::new();
    let mut i: usize = 0;
    while i < n
        invariant
            i <= n,
            out@ == positions(i as nat),
        decreases n - i,
    {
        out.push(i);
        assert(out@ =~= positions((i + 1) as nat));
        i = i + 1;
    }
    out
}

proof fn lemma_world_lines_in_range(log: Seq<EventModel>)
    requires
        log.len() <= usize::MAX,
    ensures
        world_lines(log).len() == log.len(),
        forall|p: int| 0 <= p < log.len() ==> (#[trigger] world_lines(log)[p]) < log.len(),
{
    broadcast use vstd::seq_lib::group_to_multiset_ensures;

    crate::replay::lines::lined_up_is_a_permutation(log, positions(log.len()));
    let w = world_lines(log);
    assert forall|p: int| 0 <= p < w.len() implies (#[trigger] w[p]) < log.len() by {
        assert(w.contains(w[p]));
        assert(positions(log.len()).contains(w[p]));
    }
}

pub fn same_actor(events: &[CausalEvent], i: usize, j: usize) -> (r: bool)
    requires
        i < events@.len(),
        j < events@.len(),
    ensures
        r == (events@[i as int].actor@ == events@[j as int].actor@),
{
    match text_order(events[i].actor.as_str(), events[j].actor.as_str()) {
        Order::Equal => true,
        _ => false,
    }
}

/// The program-order edges, or the first repeated counter.
fn link_world_lines(events: &[CausalEvent], w: &Vec<usize>) -> (r: Result<
    Vec<(usize, usize)>,
    ReplayError,
>)
    requires
        w@ == world_lines(log_model(events@)),
        w@.len() == events@.len(),
        forall|p: int| 0 <= p < w@.len() ==> (#[trigger] w@[p]) < events@.len(),
    ensures
        match r {
            Ok(edges) => {
                &&& counters_distinct(log_model(events@))
                &&& edges@ == program_edges(log_model(events@), w@, w@.len() as int)
                &&& forall|i: int|
                    0 <= i < edges@.len() ==> edge_in_range(#[trigger] edges@[i], events@.len())
            },
            Err(e) => e is DuplicateSeq && build_fails_with(log_model(events@), e),
        },
{
    let ghost log = log_model(events@);
    let mut edges: Vec<(usize, usize)> = Vec::new();
    let mut p: usize = 1;
    while p < w.len()
        invariant
            log == log_model(events@),
            w@ == world_lines(log),
            w@.len() == events@.len(),
            forall|q: int| 0 <= q < w@.len() ==> (#[trigger] w@[q]) < events@.len(),
            1 <= p,
            p == 1 || p <= w@.len(),
            forall|q: int| q < p ==> !#[trigger] repeats_at(log, w@, q),
            edges@ == program_edges(log, w@, p as int),
            forall|i: int|
                0 <= i < edges@.len() ==> edge_in_range(#[trigger] edges@[i], events@.len()),
        decreases w@.len() - p,
    {
        let i = w[p - 1];
        let j = w[p];
        if same_actor(events, i, j) {
            assert(joined_at(log, w@, p as int));
            if events[i].seq == events[j].seq {
                assert(repeats_at(log, w@, p as int));
                return Err(ReplayError::DuplicateSeq(events[j].actor.clone(), events[j].seq));
            }
            edges.push((i, j));
        }
        p = p + 1;
    }
    assert(edges@ =~= program_edges(log, w@, w@.len() as int));
    Ok(edges)
}

/// The sending event of every message, or the first message sent twice.
fn index_sends(events: &[CausalEvent]) -> (r: Result<StringHashMap<usize>, ReplayError>)
    requires
        counters_distinct(log_model(events@)),
    ensures
        match r {
            Ok(found) => {
                &&& messages_distinct(log_model(events@))
                &&& forall|m: Seq<char>, j: int| #[trigger]
                    sends(log_model(events@), j, m) ==> found@.contains_key(m)
                &&& forall|m: Seq<char>| #[trigger]
                    found@.contains_key(m) ==> sends(log_model(events@), found@[m] as int, m)
            },
            Err(e) => e is DuplicateEmit && build_fails_with(log_model(events@), e),
        },
{
    let ghost log = log_model(events@);
    let mut found: StringHashMap<usize> = StringHashMap::new();
    let mut i: usize = 0;
    while i < events.len()
        invariant
            log == log_model(events@),
            counters_distinct(log),
            i <= events@.len(),
            forall|j: int| j < i ==> !#[trigger] sends_again(log, j),
            forall|m: Seq<char>, j: int|
                j < i && #[trigger] sends(log, j, m) ==> found@.contains_key(m),
            forall|m: Seq<char>| #[trigger]
                found@.contains_key(m) ==> found@[m] < i && sends(log, found@[m] as int, m),
        decreases events@.len() - i,
    {
        assert(log[i as int] == events@[i as int]@);
        match events[i].op {
            Op::Emit => {
                match &events[i].msg_id {
                    Some(m) => {
                        assert(sends(log, i as int, m@));
                        if found.contains_key(m.as_str()) {
                            assert(sends(log, found@[m@] as int, m@));
                            assert(sends_again(log, i as int));
                            return Err(ReplayError::DuplicateEmit(m.clone()));
                        }
                        assert(!sends_again(log, i as int));
                        found.insert(m.clone(), i);
                    },
                    None => {},
                }
            },
            _ => {},
        }
        i = i + 1;
    }
    assert forall|j: int| !#[trigger] sends_again(log, j) by {
        if j >= i && sends_again(log, j) {
            let m = choose|m: Seq<char>| #[trigger] sends(log, j, m);
        }
    }
    Ok(found)
}

/// Add the message edges, or tell the first unmatched receipt.
fn link_messages(
    events: &[CausalEvent],
    found: &StringHashMap<usize>,
    edges: &mut Vec<(usize, usize)>,
) -> (r: Result<(), ReplayError>)
    requires
        counters_distinct(log_model(events@)),
        messages_distinct(log_model(events@)),
        forall|m: Seq<char>, j: int| #[trigger]
            sends(log_model(events@), j, m) ==> found@.contains_key(m),
        forall|m: Seq<char>| #[trigger]
            found@.contains_key(m) ==> sends(log_model(events@), found@[m] as int, m),
        forall|i: int|
            0 <= i < old(edges)@.len() ==> edge_in_range(
                #[trigger] old(edges)@[i],
                events@.len(),
            ),
    ensures
        match r {
            Ok(_) => {
                &&& receipts_matched(log_model(events@))
                &&& final(edges)@ == old(edges)@ + message_edges(
                    log_model(events@),
                    events@.len() as int,
                )
                &&& forall|i: int|
                    0 <= i < final(edges)@.len() ==> edge_in_range(
                        #[trigger] final(edges)@[i],
                        events@.len(),
                    )
            },
            Err(e) => e is MissingEmit && build_fails_with(log_model(events@), e),
        },
{
    let ghost log = log_model(events@);
    let ghost start = edges@;
    let mut i: usize = 0;
    assert(edges@ =~= start + message_edges(log, 0));
    while i < events.len()
        invariant
            log == log_model(events@),
            counters_distinct(log),
            messages_distinct(log),
            i <= events@.len(),
            forall|m: Seq<char>, j: int| #[trigger] sends(log, j, m) ==> found@.contains_key(m),
            forall|m: Seq<char>| #[trigger]
                found@.contains_key(m) ==> sends(log, found@[m] as int, m),
            forall|j: int| j < i ==> !#[trigger] unmatched(log, j),
            edges@ == start + message_edges(log, i as int),
            forall|j: int|
                0 <= j < edges@.len() ==> edge_in_range(#[trigger] edges@[j], events@.len()),
        decreases events@.len() - i,
    {
        assert(log[i as int] == events@[i as int]@);
        match events[i].op {
            Op::Recv => {
                let m: &str = match &events[i].msg_id {
                    Some(m) => m.as_str(),
                    None => {
                        proof {
                            reveal_strlit("");
                        }
                        ""
                    },
                };
                assert(m@ =~= named_message(log[i as int]));
                match found.get(m) {
                    Some(at) => {
                        proof {
                            lemma_one_sender(log, *at as int, m@);
                        }
                        edges.push((*at, i));
                        assert(edges@ =~= start + message_edges(log, i + 1));
                    },
                    None => {
                        assert(unmatched(log, i as int)) by {
                            assert forall|j: int| !#[trigger] sends(log, j, m@) by {}
                        }
                        return Err(ReplayError::MissingEmit(events[i].id.clone(), m.to_string()));
                    },
                }
            },
            _ => {
                assert(edges@ =~= start + message_edges(log, i + 1));
            },
        }
        i = i + 1;
    }
    Ok(())
}

/// In a log that sends no message twice, a message has one sender.
pub proof fn lemma_one_sender(log: Seq<EventModel>, i: int, m: Seq<char>)
    requires
        messages_distinct(log),
        sends(log, i, m),
    ensures
        sender(log, m) == i,
{
    let j = sender(log, m);
    assert(sends(log, j, m));
    if j < i {
        assert(sends_again(log, i));
    } else if i < j {
        assert(sends_again(log, j));
    }
}

impl<'a> Poset<'a> {
    /// Rebuild the order from the events: an edge between neighbours on each actor's world-line
    /// and an edge from each send to its receipt.
    pub fn build(events: &'a [CausalEvent]) -> (r: Result<Poset<'a>, ReplayError>)
        ensures
            match r {
                Ok(p) => {
                    &&& buildable(log_model(events@))
                    &&& p.events@ == events@
                    &&& p.edges@ == causal_edges(log_model(events@))
                    &&& p.well_formed()
                },
                Err(e) => build_fails_with(log_model(events@), e),
            },
    {
        let n = events.len();
        let w = line_up(events, all_positions(n));
        proof {
            lemma_world_lines_in_range(log_model(events@));
        }
        let mut edges = match link_world_lines(events, &w) {
            Ok(edges) => edges,
            Err(e) => {
                return Err(e);
            },
        };
        let found = match index_sends(events) {
            Ok(found) => found,
            Err(e) => {
                return Err(e);
            },
        };
        match link_messages(events, &found, &mut edges) {
            Ok(_) => Ok(Poset { events, edges }),
            Err(e) => Err(e),
        }
    }

    /// Every edge must be reflected in the recorded clocks; a log that fails this is no
    /// faithful causal record.
    pub fn validate(&self) -> (r: Result<(), ReplayError>)
        requires
            self.well_formed(),
        ensures
            match r {
                Ok(_) => clocks_follow(self.log(), self.edges@),
                Err(e) => validate_fails_with(self.log(), self.edges@, e),
            },
    {
        let mut i: usize = 0;
        while i < self.edges.len()
            invariant
                self.well_formed(),
                i <= self.edges@.len(),
                forall|j: int| 0 <= j < i ==> #[trigger] edge_holds(self.log(), self.edges@, j),
            decreases self.edges@.len() - i,
        {
            let (a, b) = self.edges[i];
            assert(edge_in_range(self.edges@[i as int], self.events@.len()));
            if !hb_strict(&self.events[a].vclock, &self.events[b].vclock) {
                assert(!edge_holds(self.log(), self.edges@, i as int));
                return Err(
                    ReplayError::Inconsistent(
                        self.events[a].id.clone(),
                        self.events[b].id.clone(),
                    ),
                );
            }
            assert(edge_holds(self.log(), self.edges@, i as int));
            i = i + 1;
        }
        Ok(())
    }
}

/// The clocks at the ends of edge `i` are strictly ordered.
pub open spec fn edge_holds(log: Seq<EventModel>, edges: Seq<(usize, usize)>, i: int) -> bool {
    clock_lt(log[edges[i].0 as int].vclock, log[edges[i].1 as int].vclock)
}

/// The clocks at the ends of every edge are strictly ordered.
pub open spec fn clocks_follow(log: Seq<EventModel>, edges: Seq<(usize, usize)>) -> bool {
    forall|i: int| 0 <= i < edges.len() ==> #[trigger] edge_holds(log, edges, i)
}

/// `e` names the first edge whose clocks are not strictly ordered.
pub open spec fn validate_fails_with(
    log: Seq<EventModel>,
    edges: Seq<(usize, usize)>,
    e: ReplayError,
) -> bool {
    match e {
        ReplayError::Inconsistent(a, b) => exists|i: int|
            {
                &&& 0 <= i < edges.len()
                &&& !#[trigger] edge_holds(log, edges, i)
                &&& forall|j: int| 0 <= j < i ==> #[trigger] edge_holds(log, edges, j)
                &&& a@ == log[edges[i].0 as int].id
                &&& b@ == log[edges[i].1 as int].id
            },
        _ => false,
    }
}

} // verus!
