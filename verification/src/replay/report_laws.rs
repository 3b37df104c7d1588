//! What the report of a re-execution says, in terms of the events alone.

use crate::log::{
    float_same, log_model, same_event, same_events_agree_in_every_field, texts, CausalEvent,
    EventModel,
};
use crate::replay::engine::timeline;
use crate::replay::index::{last_named, not_named};
use crate::replay::outcome::{
    confirmed, event_faults, excesses, executed_as, fault_texts, faithful,
    faithful_iff_no_divergences, is_outcome, omissions, verdict, Divergence,
    ReplayOutcome, Turn,
};
use crate::replay::stage::{Handling, Step};
use vstd::prelude::*;

verus! {

/// Two events agree in every field: all are the same, and the values are equal as numbers.
pub open spec fn agree(a: EventModel, b: EventModel) -> bool {
    &&& a.id == b.id && a.actor == b.actor && a.seq == b.seq && a.op == b.op
    &&& a.vclock == b.vclock && a.lamport == b.lamport
    &&& a.msg_id == b.msg_id && a.src == b.src && a.dst == b.dst
    &&& a.payload_hash == b.payload_hash
    &&& a.value is Some == b.value is Some
    &&& a.value is Some ==> float_same(a.value->0, b.value->0)
}

/// The recording has an event of that name.
pub open spec fn has_name(log: Seq<EventModel>, id: Seq<char>) -> bool {
    exists|i: int| 0 <= i < log.len() && (#[trigger] log[i]).id == id
}

/// The last event of that name in the recording agrees with `e`.
pub open spec fn agrees_with_the_last(log: Seq<EventModel>, e: EventModel) -> bool {
    exists|i: int|
        {
            &&& 0 <= i < log.len()
            &&& agree(e, #[trigger] log[i])
            &&& forall|j: int| i < j < log.len() ==> (#[trigger] log[j]).id != e.id
        }
}

/// What is to be told of a re-executed event that is not recorded as it is.
pub open spec fn told_of(log: Seq<EventModel>, e: EventModel) -> (Seq<char>, Seq<char>) {
    if has_name(log, e.id) {
        (e.id, "re-executed event differs from the recording"@)
    } else {
        (e.id, "re-executed event is not in the recording"@)
    }
}

/// Event `i` of the timeline did not come about: nothing of its name was re-executed, and it was
/// not an outsider's send that was supplied.
pub open spec fn left_out(
    t: Seq<EventModel>,
    turns: Seq<Turn>,
    executed: Seq<EventModel>,
    i: int,
) -> bool {
    !has_name(executed, t[i].id) && !(turns[i] is Supplied)
}

proof fn lemma_confirmed(log: Seq<EventModel>, e: EventModel)
    ensures
        confirmed(log, e) <==> agrees_with_the_last(log, e),
        not_named(log, e.id) <==> !has_name(log, e.id),
        agrees_with_the_last(log, e) ==> has_name(log, e.id),
{
    if confirmed(log, e) {
        let i = choose|i: int| #[trigger] last_named(log, e.id, i) && same_event(e, log[i]);
        same_events_agree_in_every_field(e, log[i]);
        assert(agree(e, log[i]));
    }
    if agrees_with_the_last(log, e) {
        let i = choose|i: int|
            {
                &&& 0 <= i < log.len()
                &&& agree(e, #[trigger] log[i])
                &&& forall|j: int| i < j < log.len() ==> (#[trigger] log[j]).id != e.id
            };
        assert(log[i].id == e.id);
        assert(e == (EventModel { value: e.value, ..log[i] }));
        same_events_agree_in_every_field(e, log[i]);
        assert(last_named(log, e.id, i));
    }
}

proof fn lemma_event_faults_are(log: Seq<EventModel>, executed: Seq<EventModel>, n: int)
    requires
        0 <= n <= executed.len(),
    ensures
        event_faults(log, executed, n) == executed.take(n).filter(
            |e: EventModel| !agrees_with_the_last(log, e),
        ).map_values(|e: EventModel| told_of(log, e)),
    decreases n,
{
    let bad = |e: EventModel| !agrees_with_the_last(log, e);
    let tell = |e: EventModel| told_of(log, e);
    reveal(Seq::filter);
    let now = executed.take(n);
    if n == 0 {
        assert(now.filter(bad).map_values(tell) =~= seq![]);
    } else {
        lemma_event_faults_are(log, executed, n - 1);
        let e = executed[n - 1];
        lemma_confirmed(log, e);
        assert(now.drop_last() =~= executed.take(n - 1));
        assert(now.last() == e);
        let less = executed.take(n - 1).filter(bad);
        if bad(e) {
            assert(now.filter(bad) == less.push(e));
            assert(less.push(e).map_values(tell) =~= less.map_values(tell).push(tell(e)));
        } else {
            assert(now.filter(bad) == less);
        }
    }
}

/// The numbers below `n`.
pub open spec fn below(n: nat) -> Seq<int> {
    Seq::new(n, |i: int| i)
}

proof fn lemma_omissions_are(
    t: Seq<EventModel>,
    turns: Seq<Turn>,
    executed: Seq<EventModel>,
    n: int,
)
    requires
        0 <= n <= t.len(),
    ensures
        omissions(t, turns, executed, n) == below(n as nat).filter(
            |i: int| left_out(t, turns, executed, i),
        ).map_values(|i: int| (t[i].id, "recorded event was not re-executed"@)),
    decreases n,
{
    let bad = |i: int| left_out(t, turns, executed, i);
    let tell = |i: int| (t[i].id, "recorded event was not re-executed"@);
    reveal(Seq::filter);
    let now = below(n as nat);
    if n == 0 {
        assert(now.filter(bad).map_values(tell) =~= seq![]);
    } else {
        lemma_omissions_are(t, turns, executed, n - 1);
        assert(now.drop_last() =~= below((n - 1) as nat));
        assert(now.last() == n - 1);
        let id = t[n - 1].id;
        assert(executed_as(executed, id) <==> has_name(executed, id));
        let less = below((n - 1) as nat).filter(bad);
        if bad(n - 1) {
            assert(now.filter(bad) == less.push(n - 1));
            assert(less.push(n - 1).map_values(tell) =~= less.map_values(tell).push(tell(n - 1)));
        } else {
            assert(now.filter(bad) == less);
        }
    }
}

/// A report tells of exactly these things, in this order: of every re-executed event that the
/// recording does not have as it is, once for each; of every message in excess of the recorded
/// ones, by its sender; and of every recorded event that did not come about.
pub proof fn what_a_report_tells<P>(
    o: ReplayOutcome,
    log: Seq<EventModel>,
    actors: Seq<Seq<char>>,
    stimuli: Seq<(Seq<char>, P)>,
    opened: Seq<Handling<P>>,
    steps: Seq<Step<P>>,
)
    requires
        is_outcome(o, log, actors, stimuli, opened, steps),
    ensures
        fault_texts(o.divergences@) == log_model(o.executed@).filter(
            |e: EventModel| !agrees_with_the_last(log, e),
        ).map_values(|e: EventModel| told_of(log, e)) + texts(o.extra_sends@).map_values(
            |who: Seq<char>| (who, "more sends than recorded"@),
        ) + below(timeline(log).len()).filter(
            |i: int| left_out(timeline(log), o.turns@, log_model(o.executed@), i),
        ).map_values(|i: int| (timeline(log)[i].id, "recorded event was not re-executed"@)),
{
    what_a_verdict_tells(log, log_model(o.executed@), texts(o.extra_sends@), o.turns@);
}

/// The mismatches between re-executed events, messages in excess and turns on the one hand, and
/// a recording on the other.
pub proof fn what_a_verdict_tells(
    log: Seq<EventModel>,
    executed: Seq<EventModel>,
    extra: Seq<Seq<char>>,
    turns: Seq<Turn>,
)
    ensures
        verdict(log, executed, extra, turns) == executed.filter(
            |e: EventModel| !agrees_with_the_last(log, e),
        ).map_values(|e: EventModel| told_of(log, e)) + extra.map_values(
            |who: Seq<char>| (who, "more sends than recorded"@),
        ) + below(timeline(log).len()).filter(
            |i: int| left_out(timeline(log), turns, executed, i),
        ).map_values(|i: int| (timeline(log)[i].id, "recorded event was not re-executed"@)),
{
    let t = timeline(log);
    lemma_event_faults_are(log, executed, executed.len() as int);
    assert(executed.take(executed.len() as int) =~= executed);
    lemma_omissions_are(t, turns, executed, t.len() as int);
    assert(excesses(extra) =~= extra.map_values(
        |who: Seq<char>| (who, "more sends than recorded"@),
    ));
}

/// A divergence says what its two texts say.
pub proof fn divergences_say_it_all(v: Seq<Divergence>)
    ensures
        fault_texts(v).len() == v.len(),
        forall|i: int|
            0 <= i < v.len() ==> #[trigger] fault_texts(v)[i] == (v[i].event_id@, v[i].detail@),
{
}

/// Where a report tells of nothing, every re-executed event stands in the recording with these
/// very fields, nobody sent more than recorded, and every recorded event was re-executed, under
/// its name, or supplied.
pub proof fn no_divergence_means_agreement<P>(
    o: ReplayOutcome,
    log: Seq<EventModel>,
    actors: Seq<Seq<char>>,
    stimuli: Seq<(Seq<char>, P)>,
    opened: Seq<Handling<P>>,
    steps: Seq<Step<P>>,
)
    requires
        is_outcome(o, log, actors, stimuli, opened, steps),
        o.divergences@.len() == 0,
    ensures
        forall|q: int|
            0 <= q < o.executed@.len() ==> exists|i: int|
                0 <= i < log.len() && agree((#[trigger] o.executed@[q])@, #[trigger] log[i]),
        o.extra_sends@.len() == 0,
        forall|i: int|
            0 <= i < timeline(log).len() ==> o.turns@[i] is Supplied || exists|q: int|
                0 <= q < o.executed@.len() && (#[trigger] o.executed@[q]).id@ == (
                #[trigger] timeline(log)[i]).id,
{
    faithful_iff_no_divergences(o, log, actors, stimuli, opened, steps);
    assert(faithful(o, log));
    assert forall|q: int| 0 <= q < o.executed@.len() implies exists|i: int|
        0 <= i < log.len() && agree((#[trigger] o.executed@[q])@, #[trigger] log[i]) by {
        assert(confirmed(log, o.executed@[q]@));
        lemma_confirmed(log, o.executed@[q]@);
    }
    assert forall|i: int| 0 <= i < timeline(log).len() implies o.turns@[i] is Supplied || exists|
        q: int,
    |
        0 <= q < o.executed@.len() && (#[trigger] o.executed@[q]).id@ == (
        #[trigger] timeline(log)[i]).id by {
        if !(o.turns@[i] is Supplied) {
            let executed = log_model(o.executed@);
            let q = choose|q: int|
                0 <= q < executed.len() && (#[trigger] executed[q]).id == timeline(log)[i].id;
            assert(o.executed@[q].id@ == timeline(log)[i].id);
        }
    }
}

/// A re-executed event that differs from the recording in any field is told of: under its name
/// the recording has another event, or none.
pub proof fn a_different_event_is_told<P>(
    o: ReplayOutcome,
    log: Seq<EventModel>,
    actors: Seq<Seq<char>>,
    stimuli: Seq<(Seq<char>, P)>,
    opened: Seq<Handling<P>>,
    steps: Seq<Step<P>>,
    e: CausalEvent,
)
    requires
        is_outcome(o, log, actors, stimuli, opened, steps),
        o.executed@.contains(e),
        forall|i: int| 0 <= i < log.len() ==> !agree(e@, #[trigger] log[i]),
    ensures
        o.divergences@.len() > 0,
{
    if o.divergences@.len() == 0 {
        no_divergence_means_agreement(o, log, actors, stimuli, opened, steps);
        let q = choose|q: int| 0 <= q < o.executed@.len() && o.executed@[q] == e;
        assert(exists|i: int|
            0 <= i < log.len() && agree((#[trigger] o.executed@[q])@, #[trigger] log[i]));
    }
}

} // verus!
