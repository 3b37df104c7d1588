//! From a recorded log to its canonical timeline and its order for display.

use crate::clock::clock_concurrent;
use crate::clock_map::ClockMap;
use crate::log::{log_model, texts, CausalEvent, EventModel};
use crate::replay::error::ReplayError;
use crate::replay::extension::{canonical_order, linearize};
use crate::replay::order_laws::{order_respects_all_edges, validated_log_has_no_cycle};
use crate::replay::poset::{
    build_fails_with, buildable, causal_edges, clocks_follow, edge_in_range, validate_fails_with,
    Poset,
};
use vstd::prelude::*;

verus! {

/// The order of a log in names of events.
#[derive(Debug)]
pub struct PosetJson {
    /// The events in the order of the timeline.
    pub events: Vec<String>,
    /// The direct causal edges.
    pub edges: Vec<(String, String)>,
    /// The pairs of events of which neither happens before the other.
    pub concurrent: Vec<(String, String)>,
}

/// The canonical timeline of a log and its order.
#[derive(Debug)]
pub struct Replayed {
    pub timeline: Vec<CausalEvent>,
    pub poset_json: PosetJson,
}

/// The texts of pairs of strings.
pub open spec fn pair_texts(v: Seq<(String, String)>) -> Seq<(Seq<char>, Seq<char>)> {
    Seq::new(v.len(), |i: int| (v[i].0@, v[i].1@))
}

/// The events of a log in a given order.
pub open spec fn arranged(log: Seq<EventModel>, order: Seq<usize>) -> Seq<EventModel> {
    Seq::new(order.len(), |i: int| log[order[i] as int])
}

/// The canonical timeline of a log.
pub open spec fn timeline(log: Seq<EventModel>) -> Seq<EventModel> {
    arranged(log, canonical_order(log, causal_edges(log)))
}

/// The names of events.
pub open spec fn names(t: Seq<EventModel>) -> Seq<Seq<char>> {
    Seq::new(t.len(), |i: int| t[i].id)
}

/// Edges in names of events.
pub open spec fn named_edges(log: Seq<EventModel>, edges: Seq<(usize, usize)>) -> Seq<
    (Seq<char>, Seq<char>),
> {
    Seq::new(edges.len(), |i: int| (log[edges[i].0 as int].id, log[edges[i].1 as int].id))
}

/// The events after `p` and before `k` that are concurrent with event `p`, each paired with it.
pub open spec fn concurrent_with(t: Seq<EventModel>, p: int, k: int) -> Seq<(Seq<char>, Seq<char>)>
    decreases k - p,
{
    if k <= p + 1 {
        seq![]
    } else if clock_concurrent(t[p].vclock, t[k - 1].vclock) {
        concurrent_with(t, p, k - 1).push((t[p].id, t[k - 1].id))
    } else {
        concurrent_with(t, p, k - 1)
    }
}

/// The concurrent pairs whose first event is one of the first `p`.
pub open spec fn concurrent_pairs(t: Seq<EventModel>, p: int) -> Seq<(Seq<char>, Seq<char>)>
    decreases p,
{
    if p <= 0 {
        seq![]
    } else {
        concurrent_pairs(t, p - 1) + concurrent_with(t, p - 1, t.len() as int)
    }
}

/// `r` is the replay of a log.
pub open spec fn is_replay_of(r: Replayed, log: Seq<EventModel>) -> bool {
    &&& log_model(r.timeline@) == timeline(log)
    &&& texts(r.poset_json.events@) == names(timeline(log))
    &&& pair_texts(r.poset_json.edges@) == named_edges(log, causal_edges(log))
    &&& pair_texts(r.poset_json.concurrent@) == concurrent_pairs(
        timeline(log),
        timeline(log).len() as int,
    )
}

/// The log is a faithful causal record.
pub open spec fn replayable(log: Seq<EventModel>) -> bool {
    buildable(log) && clocks_follow(log, causal_edges(log))
}

/// `e` tells why a log is no faithful causal record.
pub open spec fn replay_fails_with(log: Seq<EventModel>, e: ReplayError) -> bool {
    build_fails_with(log, e) || (buildable(log) && validate_fails_with(log, causal_edges(log), e))
}

/// Replay is deterministic: two replays of one log agree in everything that they say.
pub proof fn replay_is_deterministic(a: Replayed, b: Replayed, log: Seq<EventModel>)
    requires
        is_replay_of(a, log),
        is_replay_of(b, log),
    ensures
        log_model(a.timeline@) == log_model(b.timeline@),
        texts(a.poset_json.events@) == texts(b.poset_json.events@),
        pair_texts(a.poset_json.edges@) == pair_texts(b.poset_json.edges@),
        pair_texts(a.poset_json.concurrent@) == pair_texts(b.poset_json.concurrent@),
{
}

fn clocks_concurrent(a: &ClockMap, b: &ClockMap) -> (r: bool)
    ensures
        r == clock_concurrent(a@, b@),
{
    !a.below(b) && !b.below(a)
}

fn push_pair(out: &mut Vec<(String, String)>, a: &String, b: &String)
    ensures
        pair_texts(final(out)@) == pair_texts(old(out)@).push((a@, b@)),
{
    out.push((a.clone(), b.clone()));
    assert(pair_texts(out@) =~= pair_texts(old(out)@).push((a@, b@)));
}

fn find_concurrent(t: &Vec<CausalEvent>) -> (r: Vec<(String, String)>)
    ensures
        pair_texts(r@) == concurrent_pairs(log_model(t@), t@.len() as int),
{
    let ghost model = log_model(t@);
    let mut out: Vec<(String, String)> = Vec::new();
    let mut p: usize = 0;
    assert(pair_texts(out@) =~= concurrent_pairs(model, 0));
    while p < t.len()
        invariant
            model == log_model(t@),
            p <= t@.len(),
            pair_texts(out@) == concurrent_pairs(model, p as int),
        decreases t@.len() - p,
    {
        let ghost before = pair_texts(out@);
        let mut k: usize = p + 1;
        assert(pair_texts(out@) =~= before + concurrent_with(model, p as int, k as int));
        while k < t.len()
            invariant
                model == log_model(t@),
                p < k <= t@.len(),
                pair_texts(out@) == before + concurrent_with(model, p as int, k as int),
            decreases t@.len() - k,
        {
            if clocks_concurrent(&t[p].vclock, &t[k].vclock) {
                push_pair(&mut out, &t[p].id, &t[k].id);
            }
            assert(pair_texts(out@) =~= before + concurrent_with(model, p as int, k + 1));
            k = k + 1;
        }
        p = p + 1;
    }
    out
}

/// Rebuild the order of a log, check it against the recorded clocks, and linearize it into
/// one canonical timeline.
pub fn replay_log(events: &[CausalEvent]) -> (r: Result<Replayed, ReplayError>)
    ensures
        match r {
            Ok(replayed) => replayable(log_model(events@)) && is_replay_of(
                replayed,
                log_model(events@),
            ),
            Err(e) => replay_fails_with(log_model(events@), e),
        },
{
    let ghost log = log_model(events@);
    let n = events.len();
    let poset = match Poset::build(events) {
        Ok(poset) => poset,
        Err(e) => {
            return Err(e);
        },
    };
    assert(log_model(poset.events@) == log);
    match poset.validate() {
        Ok(_) => {},
        Err(e) => {
            return Err(e);
        },
    }
    proof {
        validated_log_has_no_cycle(log, poset.edges@);
        order_respects_all_edges(log, poset.edges@);
    }
    let order = match linearize(&poset) {
        Ok(order) => order,
        Err(e) => {
            return Err(e);
        },
    };
    let ghost t = timeline(log);
    let mut out: Vec<CausalEvent> = Vec::new();
    let mut ids: Vec<String> = Vec::new();
    let mut i: usize = 0;
    while i < order.len()
        invariant
            log == log_model(events@),
            t == timeline(log),
            order@ == canonical_order(log, causal_edges(log)),
            forall|p: int| 0 <= p < order@.len() ==> (#[trigger] order@[p]) < events@.len(),
            i <= order@.len(),
            log_model(out@) == t.take(i as int),
            texts(ids@) == names(t).take(i as int),
        decreases order@.len() - i,
    {
        let at = order[i];
        let ghost (out0, ids0) = (out@, ids@);
        out.push(events[at].clone());
        ids.push(events[at].id.clone());
        proof {
            assert(t[i as int] == events@[at as int]@);
            assert(log_model(out@) =~= log_model(out0).push(t[i as int]));
            assert(texts(ids@) =~= texts(ids0).push(t[i as int].id));
            assert(t.take(i + 1) =~= t.take(i as int).push(t[i as int]));
            assert(names(t).take(i + 1) =~= names(t).take(i as int).push(t[i as int].id));
        }
        i = i + 1;
    }
    assert(t.take(i as int) =~= t);
    assert(names(t).take(i as int) =~= names(t));

    let mut edges: Vec<(String, String)> = Vec::new();
    let mut k: usize = 0;
    let ghost named = named_edges(log, poset.edges@);
    assert(pair_texts(edges@) =~= named.take(0));
    while k < poset.edges.len()
        invariant
            log == log_model(events@),
            poset.well_formed(),
            poset.events@ == events@,
            named == named_edges(log, poset.edges@),
            k <= poset.edges@.len(),
            pair_texts(edges@) == named.take(k as int),
        decreases poset.edges@.len() - k,
    {
        let (a, b) = poset.edges[k];
        assert(edge_in_range(poset.edges@[k as int], poset.events@.len()));
        push_pair(&mut edges, &events[a].id, &events[b].id);
        assert(pair_texts(edges@) =~= named.take(k + 1));
        k = k + 1;
    }
    assert(named.take(k as int) =~= named);
    let concurrent = find_concurrent(&out);
    Ok(Replayed { timeline: out, poset_json: PosetJson { events: ids, edges, concurrent } })
}

/// The texts of pairs are those of each pair, in order.
pub proof fn pair_texts_are_in_order(v: Seq<(String, String)>)
    ensures
        pair_texts(v).len() == v.len(),
        forall|i: int| 0 <= i < v.len() ==> #[trigger] pair_texts(v)[i] == (v[i].0@, v[i].1@),
{
}

} // verus!
