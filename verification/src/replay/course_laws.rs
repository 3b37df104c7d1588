//! What a re-execution does at each event, in terms of the events, the messages and the actors.

use crate::actor::a_receipt_entry_by_entry;
use crate::envelope::{EnvelopeModel, EnvelopeStamp};
use crate::event::{emit_model, message_name_reads_back, message_number, recv_model};
use crate::log::EventModel;
use crate::replay::engine::timeline;
use crate::replay::index::sends_of;
use crate::replay::outcome::{is_outcome, tells, ReplayOutcome, Turn};
use crate::replay::reexec::{cast_moves, casts_follow, is_nth, Course, Errand, Registered};
use crate::replay::stage::{
    after_handling, after_receipt, after_step, at_most, comes_to_receipt, deliverable, first_stage,
    handled_at, has_room_for, has_room_there, ids_left, ids_of, kept, lemma_first_named,
    lemma_first_numbered, lemma_played_so_far, message_at, open_numbers, origin_matches, place,
    played, receipt_stamps, received_message, recorded_number, recorded_stamp, repeated, slot,
    stage_after, started, step_fits, waits, Handling, Stage, Stamps, Step,
};
use vstd::prelude::*;

verus! {

/// The number of the message that an event speaks of is what the name of the message leads to.
pub proof fn numbers_are_read_from_names(e: EventModel)
    ensures
        e.msg_id is None ==> recorded_number(e) is None,
        e.msg_id matches Some(m) ==> recorded_number(e) == message_number(m),
{
}

/// The stamps of a send, read from its record, are those that the envelope had.
pub proof fn a_recorded_send_gives_its_stamps_back(actor: Seq<char>, seq: u64, env: EnvelopeStamp)
    requires
        env.src == actor,
    ensures
        recorded_stamp(emit_model(actor, seq, env)) == env,
        recorded_number(emit_model(actor, seq, env)) == Some(env.msg_id),
{
    message_name_reads_back(env.msg_id);
}

/// The stamps of a recorded send: its clock, its Lamport stamp, its number, the actor that it is
/// recorded for, and the receiver that it names.
pub proof fn the_stamps_of_a_recorded_send(e: EventModel)
    ensures
        recorded_stamp(e).vclock == e.vclock,
        recorded_stamp(e).lamport == e.lamport,
        recorded_stamp(e).src == e.actor,
        recorded_number(e) is Some ==> Some(recorded_stamp(e).msg_id) == recorded_number(e),
        e.dst is Some ==> Some(recorded_stamp(e).dst) == e.dst,
{
}

/// The numbers that an actor may use are those of its recorded sends, in the order of their
/// counters; a send without a number counts as zero.
pub proof fn the_numbers_of_an_actor(log: Seq<EventModel>, actor: Seq<char>)
    ensures
        ids_of(log, actor).len() == sends_of(log, actor).len(),
        forall|k: int|
            0 <= k < ids_of(log, actor).len() ==> {
                let e = log[sends_of(log, actor)[k] as int];
                &&& e.msg_id is None ==> (#[trigger] ids_of(log, actor)[k]) == 0
                &&& e.msg_id matches Some(m) ==> match message_number(m) {
                    Some(n) => ids_of(log, actor)[k] == n,
                    None => ids_of(log, actor)[k] == 0,
                }
            },
{
}

/// A name stands for the first actor that was registered under it.
pub proof fn a_name_stands_for_one_actor(actors: Seq<Seq<char>>, name: Seq<char>)
    requires
        exists|a: int| 0 <= a < actors.len() && #[trigger] actors[a] == name,
    ensures
        0 <= place(actors, name) < actors.len(),
        actors[place(actors, name)] == name,
        forall|b: int| 0 <= b < place(actors, name) ==> #[trigger] actors[b] != name,
{
    let a = choose|a: int| 0 <= a < actors.len() && #[trigger] actors[a] == name;
    assert(actors.contains(name));
    lemma_first_named(actors, name);
}

/// A receipt moves the stamps of its actor on: the counter by one, the Lamport stamp to one more
/// than the larger of the two, and the clock to everything that either knew, with one event more
/// of the actor.
pub proof fn the_stamps_of_a_receipt(
    s: Stamps,
    actor: Seq<char>,
    env: EnvelopeStamp,
    k: Seq<char>,
)
    requires
        has_room_for(s, actor, env),
    ensures
        receipt_stamps(s, actor, env).seq == s.seq + 1,
        receipt_stamps(s, actor, env).lamport == if s.lamport < env.lamport {
            env.lamport + 1
        } else {
            s.lamport + 1
        },
        receipt_stamps(s, actor, env).clock.contains_key(k) <==> k == actor || s.clock.contains_key(
            k,
        ) || env.vclock.contains_key(k),
        ({
            let own = if s.clock.contains_key(k) {
                s.clock[k] as int
            } else {
                0
            };
            let other = if env.vclock.contains_key(k) {
                env.vclock[k] as int
            } else {
                0
            };
            let most = if own < other {
                other
            } else {
                own
            };
            receipt_stamps(s, actor, env).clock.contains_key(k) ==> receipt_stamps(
                s,
                actor,
                env,
            ).clock[k] == most + if k == actor {
                1int
            } else {
                0int
            }
        }),
{
    a_receipt_entry_by_entry(s.clock, actor, env.vclock, k);
}

/// There is room for a receipt unless a counter that it moves is at its limit.
pub proof fn where_a_receipt_has_room(s: Stamps, actor: Seq<char>, env: EnvelopeStamp)
    ensures
        has_room_for(s, actor, env) <==> {
            &&& s.seq < u64::MAX
            &&& s.lamport < u64::MAX
            &&& env.lamport < u64::MAX
            &&& s.clock.contains_key(actor) ==> s.clock[actor] < u64::MAX
            &&& env.vclock.contains_key(actor) ==> env.vclock[actor] < u64::MAX
        },
{
}

/// Before anything happens no actor has any stamps, nothing waits, and nothing was done.
pub proof fn how_a_re_execution_begins<P>(actors: Seq<Seq<char>>, opened: Seq<Handling<P>>)
    ensures
        ({
            let st: Stage<P> = first_stage(actors);
            &&& st.lines.len() == actors.len()
            &&& forall|a: int|
                0 <= a < actors.len() ==> (#[trigger] st.lines[a]).used == 0 && st.lines[a].stamps.seq
                    == 0 && st.lines[a].stamps.lamport == 0 && st.lines[a].stamps.clock
                    == Map::<Seq<char>, u64>::empty()
            &&& st.mail.len() == 0 && st.executed.len() == 0 && st.extra.len() == 0 && st.origins
                == 0
        }),
{
}

/// What a handler of actor `a` did is taken over: its events and its messages, in order, of the
/// messages those for which the actor is recorded to have a number left; the stamps where it left
/// them; and a note for each number that it asked for beyond the recorded ones. Nobody else is
/// touched.
pub proof fn what_a_handler_did_is_taken_over<P>(
    log: Seq<EventModel>,
    actors: Seq<Seq<char>>,
    st: Stage<P>,
    a: int,
    h: Handling<P>,
)
    requires
        0 <= a < st.lines.len(),
        st.lines[a].used <= ids_of(log, actors[a]).len(),
    ensures
        ({
            let next = after_handling(log, actors, st, a, h);
            let left = ids_of(log, actors[a]).len() - st.lines[a].used;
            &&& next.executed == st.executed + h.events
            &&& next.origins == st.origins
            &&& next.lines.len() == st.lines.len()
            &&& forall|b: int|
                0 <= b < st.lines.len() && b != a ==> #[trigger] next.lines[b] == st.lines[b]
            &&& next.lines[a].stamps == h.after
            &&& h.sent.len() <= left ==> next.mail == st.mail + h.sent
            &&& h.sent.len() > left ==> next.mail == st.mail + h.sent.take(left)
            &&& h.issued <= left ==> next.lines[a].used == st.lines[a].used + h.issued && next.extra
                == st.extra
            &&& h.issued > left ==> next.lines[a].used == ids_of(log, actors[a]).len()
                && next.extra.len() == st.extra.len() + (h.issued - left)
            &&& next.extra.take(st.extra.len() as int) == st.extra
            &&& forall|k: int|
                st.extra.len() <= k < next.extra.len() ==> #[trigger] next.extra[k] == actors[a]
        }),
{
    let next = after_handling(log, actors, st, a, h);
    let left = ids_of(log, actors[a]).len() - st.lines[a].used;
    assert(open_numbers(log, actors, st, a) == left);
    if h.sent.len() <= left {
        assert(kept(h, left as nat) =~= h.sent);
    }
    if h.issued <= left {
        assert(next.extra =~= st.extra);
    }
    assert(next.extra.take(st.extra.len() as int) =~= st.extra);
}

/// The actors start one after the other, in the order of their registration.
pub proof fn the_actors_start_in_order<P>(
    log: Seq<EventModel>,
    actors: Seq<Seq<char>>,
    opened: Seq<Handling<P>>,
    h: Handling<P>,
)
    ensures
        started(log, actors, opened.push(h)) == after_handling(
            log,
            actors,
            started(log, actors, opened),
            opened.len() as int,
            h,
        ),
        started(log, actors, Seq::<Handling<P>>::empty()) == first_stage::<P>(actors),
{
    assert(opened.push(h).drop_last() =~= opened);
}

/// The events of the timeline have their steps one after the other, once all actors have started.
pub proof fn the_events_come_in_order<P>(
    log: Seq<EventModel>,
    t: Seq<EventModel>,
    actors: Seq<Seq<char>>,
    opened: Seq<Handling<P>>,
    steps: Seq<Step<P>>,
    step: Step<P>,
)
    ensures
        stage_after(log, t, actors, opened, steps.push(step)) == after_step(
            log,
            actors,
            stage_after(log, t, actors, opened, steps),
            t[steps.len() as int],
            step,
        ),
        stage_after(log, t, actors, opened, Seq::<Step<P>>::empty()) == started(
            log,
            actors,
            opened,
        ),
{
    assert(steps.push(step).drop_last() =~= steps);
}

/// A receipt takes the first message that waits under its number, that one alone, and is recorded
/// with the stamps that the handler begins with; then what the handler did is taken over.
pub proof fn what_a_receipt_does<P>(
    log: Seq<EventModel>,
    actors: Seq<Seq<char>>,
    st: Stage<P>,
    e: EventModel,
    h: Handling<P>,
) -> (j: int)
    requires
        recorded_number(e) matches Some(k) && exists|j: int|
            0 <= j < st.mail.len() && (#[trigger] st.mail[j]).stamp.msg_id == k,
    ensures
        0 <= j < st.mail.len(),
        Some(st.mail[j].stamp.msg_id) == recorded_number(e),
        forall|i: int| 0 <= i < j ==> Some((#[trigger] st.mail[i]).stamp.msg_id) != recorded_number(e),
        received_message(st, e) == st.mail[j],
        after_step(log, actors, st, e, Step::Received(h)) == after_handling(
            log,
            actors,
            (Stage {
                mail: st.mail.take(j) + st.mail.skip(j + 1),
                executed: st.executed + seq![
                    recv_model(
                        e.actor,
                        h.before.seq,
                        h.before.clock,
                        h.before.lamport,
                        st.mail[j].stamp,
                    ),
                ],
                lines: st.lines,
                extra: st.extra,
                origins: st.origins,
            }),
            place(actors, e.actor),
            h,
        ),
{
    let k = recorded_number(e)->0;
    assert(waits(st.mail, k));
    lemma_first_numbered(st.mail, k);
    let j = slot(st.mail, k);
    assert(st.mail.remove(j) =~= st.mail.take(j) + st.mail.skip(j + 1));
    assert(st.executed.push(
        recv_model(e.actor, h.before.seq, h.before.clock, h.before.lamport, st.mail[j].stamp),
    ) =~= st.executed + seq![
        recv_model(e.actor, h.before.seq, h.before.clock, h.before.lamport, st.mail[j].stamp),
    ]);
    j
}

/// An outsider's send puts one message at the end of those that wait, with the stamps of the
/// record, and uses up one origin message. No other step changes anything.
pub proof fn what_the_other_steps_do<P>(
    log: Seq<EventModel>,
    actors: Seq<Seq<char>>,
    st: Stage<P>,
    e: EventModel,
    msg: P,
)
    ensures
        after_step(log, actors, st, e, Step::Supplied(msg)) == (Stage {
            mail: st.mail + seq![EnvelopeModel { msg, stamp: recorded_stamp(e) }],
            origins: st.origins + 1,
            ..st
        }),
        after_step(log, actors, st, e, Step::Undelivered) == st,
        after_step(log, actors, st, e, Step::Unsupplied) == st,
        after_step(log, actors, st, e, Step::Followed) == st,
{
    assert(st.mail.push(EnvelopeModel { msg, stamp: recorded_stamp(e) }) =~= st.mail + seq![
        EnvelopeModel { msg, stamp: recorded_stamp(e) },
    ]);
}

/// A message waits under the number of the event.
pub open spec fn finds_its_message<P>(st: Stage<P>, e: EventModel) -> bool {
    recorded_number(e) matches Some(k) && exists|j: int|
        0 <= j < st.mail.len() && (#[trigger] st.mail[j]).stamp.msg_id == k
}

/// The next origin message goes to the receiver that the send names.
pub open spec fn finds_its_origin<P>(
    st: Stage<P>,
    e: EventModel,
    stimuli: Seq<(Seq<char>, P)>,
) -> bool {
    &&& recorded_number(e) is Some
    &&& st.origins < stimuli.len()
    &&& e.dst == Some(stimuli[st.origins as int].0)
}

/// What is done at an event: an actor of the topology receives exactly when its message waits; an
/// outsider's send is supplied exactly when the next origin message is the one it asks for, with
/// that very message; and at every other event nothing is done.
pub proof fn which_step_is_taken<P>(
    actors: Seq<Seq<char>>,
    stimuli: Seq<(Seq<char>, P)>,
    st: Stage<P>,
    e: EventModel,
    step: Step<P>,
)
    requires
        step_fits(actors, stimuli, st, e, step),
    ensures
        step is Received <==> actors.contains(e.actor) && e.op is Recv && finds_its_message(st, e),
        step is Undelivered <==> actors.contains(e.actor) && e.op is Recv && !finds_its_message(
            st,
            e,
        ),
        step is Supplied <==> !actors.contains(e.actor) && e.op is Emit && finds_its_origin(
            st,
            e,
            stimuli,
        ),
        step is Unsupplied <==> !actors.contains(e.actor) && e.op is Emit && !finds_its_origin(
            st,
            e,
            stimuli,
        ),
        step matches Step::Supplied(msg) ==> msg == stimuli[st.origins as int].1,
        step matches Step::Received(h) ==> h.before == receipt_stamps(
            st.lines[place(actors, e.actor)].stamps,
            e.actor,
            received_message(st, e).stamp,
        ) && has_room_for(
            st.lines[place(actors, e.actor)].stamps,
            e.actor,
            received_message(st, e).stamp,
        ),
{
    assert(deliverable(st, e) <==> finds_its_message(st, e));
    assert(origin_matches(e, stimuli, st.origins) <==> finds_its_origin(st, e, stimuli));
}

/// A report has one turn for each event of the timeline: of the kind of the step that was taken
/// there, and for a receipt with its position among the re-executed events and the numbers of the
/// messages that its handler sent and that are kept.
pub proof fn the_turns_tell_the_steps<P>(
    o: ReplayOutcome,
    log: Seq<EventModel>,
    actors: Seq<Seq<char>>,
    stimuli: Seq<(Seq<char>, P)>,
    opened: Seq<Handling<P>>,
    steps: Seq<Step<P>>,
    i: int,
)
    requires
        is_outcome(o, log, actors, stimuli, opened, steps),
        0 <= i < timeline(log).len(),
    ensures
        o.turns@.len() == timeline(log).len(),
        steps.len() == timeline(log).len(),
        o.turns@[i] is Received <==> steps[i] is Received,
        o.turns@[i] is Undelivered <==> steps[i] is Undelivered,
        o.turns@[i] is Supplied <==> steps[i] is Supplied,
        o.turns@[i] is Unsupplied <==> steps[i] is Unsupplied,
        o.turns@[i] is Followed <==> steps[i] is Followed,
        step_fits(
            actors,
            stimuli,
            stage_after(log, timeline(log), actors, opened, steps.take(i)),
            timeline(log)[i],
            steps[i],
        ),
        o.turns@[i] matches Turn::Received(q, sends) ==> {
            let st = stage_after(log, timeline(log), actors, opened, steps.take(i));
            let a = place(actors, timeline(log)[i].actor);
            let sent = steps[i]->Received_0.sent;
            &&& q == st.executed.len()
            &&& sends@.len() <= sent.len()
            &&& sends@.len() == sent.len() || sends@.len() == ids_of(log, actors[a]).len()
                - st.lines[a].used || ids_of(log, actors[a]).len() < st.lines[a].used
            &&& forall|k: int| 0 <= k < sends@.len() ==> #[trigger] sends@[k] == sent[k].stamp.msg_id
        },
        o.opening@.len() == started(log, actors, opened).mail.len(),
        forall|k: int|
            0 <= k < o.opening@.len() ==> #[trigger] o.opening@[k] == started(
                log,
                actors,
                opened,
            ).mail[k].stamp.msg_id,
{
    let t = timeline(log);
    let st = stage_after(log, t, actors, opened, steps.take(i));
    lemma_played_so_far(log, t, actors, stimuli, opened, steps, i);
    assert(tells(log, actors, st, t[i], o.turns@[i], steps[i]));
}

/// How often `who` occurs among the first `n` of `s`.
pub open spec fn times(s: Seq<Seq<char>>, who: Seq<char>, n: int) -> nat
    decreases n,
{
    if n <= 0 {
        0
    } else {
        times(s, who, n - 1) + if s[n - 1] == who {
            1nat
        } else {
            0nat
        }
    }
}

proof fn lemma_times_append(s: Seq<Seq<char>>, t: Seq<Seq<char>>, who: Seq<char>, n: int)
    requires
        0 <= n <= t.len(),
    ensures
        times(s + t, who, s.len() + n) == times(s, who, s.len() as int) + times(t, who, n),
    decreases n,
{
    if n > 0 {
        lemma_times_append(s, t, who, n - 1);
        assert((s + t)[s.len() + n - 1] == t[n - 1]);
    } else {
        lemma_times_prefix(s, t, who, s.len() as int);
    }
}

proof fn lemma_times_prefix(s: Seq<Seq<char>>, t: Seq<Seq<char>>, who: Seq<char>, n: int)
    requires
        0 <= n <= s.len(),
    ensures
        times(s + t, who, n) == times(s, who, n),
    decreases n,
{
    if n > 0 {
        lemma_times_prefix(s, t, who, n - 1);
    }
}

proof fn lemma_times_repeated(who: Seq<char>, by: Seq<char>, n: nat, k: int)
    requires
        0 <= k <= n,
    ensures
        times(repeated(by, n), who, k) == if by == who {
            k as nat
        } else {
            0nat
        },
    decreases k,
{
    if k > 0 {
        lemma_times_repeated(who, by, n, k - 1);
    }
}

/// How many message numbers actor `a` has asked for: as it started, and in its turns.
pub open spec fn asked_for<P>(
    t: Seq<EventModel>,
    actors: Seq<Seq<char>>,
    opened: Seq<Handling<P>>,
    steps: Seq<Step<P>>,
    a: int,
) -> nat
    decreases steps.len(),
{
    if steps.len() == 0 {
        if 0 <= a < opened.len() {
            opened[a].issued
        } else {
            0
        }
    } else {
        asked_for(t, actors, opened, steps.drop_last(), a) + match steps.last() {
            Step::Received(h) if t[steps.len() - 1].actor == actors[a] => h.issued,
            _ => 0,
        }
    }
}

/// The numbers of actor `a` are in order: those used are at most those recorded, and with the
/// excess they make up all that were asked for.
spec fn settled<P>(
    log: Seq<EventModel>,
    actors: Seq<Seq<char>>,
    st: Stage<P>,
    a: int,
    asked: nat,
) -> bool {
    &&& st.lines.len() == actors.len()
    &&& st.lines[a].used <= ids_of(log, actors[a]).len()
    &&& st.lines[a].used + times(st.extra, actors[a], st.extra.len() as int) == asked
    &&& times(st.extra, actors[a], st.extra.len() as int) > 0 ==> st.lines[a].used == ids_of(
        log,
        actors[a],
    ).len()
}

proof fn lemma_settled_handling<P>(
    log: Seq<EventModel>,
    actors: Seq<Seq<char>>,
    st: Stage<P>,
    a: int,
    asked: nat,
    b: int,
    h: Handling<P>,
)
    requires
        actors.no_duplicates(),
        0 <= a < actors.len(),
        0 <= b < actors.len(),
        settled(log, actors, st, a, asked),
    ensures
        settled(
            log,
            actors,
            after_handling(log, actors, st, b, h),
            a,
            asked + if a == b {
                h.issued
            } else {
                0
            },
        ),
{
    let open = open_numbers(log, actors, st, b);
    let over = (h.issued - at_most(h.issued, open)) as nat;
    let more = repeated(actors[b], over);
    lemma_times_append(st.extra, more, actors[a], over as int);
    lemma_times_repeated(actors[a], actors[b], over, over as int);
}

proof fn lemma_settled_start<P>(
    log: Seq<EventModel>,
    actors: Seq<Seq<char>>,
    opened: Seq<Handling<P>>,
    a: int,
)
    requires
        actors.no_duplicates(),
        0 <= a < actors.len(),
        opened.len() <= actors.len(),
    ensures
        settled(
            log,
            actors,
            started(log, actors, opened),
            a,
            if a < opened.len() {
                opened[a].issued
            } else {
                0
            },
        ),
    decreases opened.len(),
{
    if opened.len() > 0 {
        let less = opened.drop_last();
        lemma_settled_start(log, actors, less, a);
        let b = opened.len() - 1;
        let asked = if a < less.len() {
            less[a].issued
        } else {
            0
        };
        lemma_settled_handling(log, actors, started(log, actors, less), a, asked, b, opened[b]);
    }
}

/// Every message number that an actor asks for is accounted for: it is one of the recorded ones,
/// as long as there are any, or one in excess, which the report tells of.
pub proof fn every_number_is_accounted_for<P>(
    log: Seq<EventModel>,
    t: Seq<EventModel>,
    actors: Seq<Seq<char>>,
    stimuli: Seq<(Seq<char>, P)>,
    opened: Seq<Handling<P>>,
    steps: Seq<Step<P>>,
    a: int,
)
    requires
        actors.no_duplicates(),
        played(log, t, actors, stimuli, opened, steps),
        0 <= a < actors.len(),
    ensures
        ({
            let st = stage_after(log, t, actors, opened, steps);
            let asked = asked_for(t, actors, opened, steps, a);
            let recorded = ids_of(log, actors[a]).len();
            &&& st.lines[a].used == if asked <= recorded {
                asked
            } else {
                recorded
            }
            &&& times(st.extra, actors[a], st.extra.len() as int) == if asked <= recorded {
                0
            } else {
                asked - recorded
            }
        }),
    decreases steps.len(),
{
    lemma_settled(log, t, actors, stimuli, opened, steps, a);
}

proof fn lemma_settled<P>(
    log: Seq<EventModel>,
    t: Seq<EventModel>,
    actors: Seq<Seq<char>>,
    stimuli: Seq<(Seq<char>, P)>,
    opened: Seq<Handling<P>>,
    steps: Seq<Step<P>>,
    a: int,
)
    requires
        actors.no_duplicates(),
        played(log, t, actors, stimuli, opened, steps),
        0 <= a < actors.len(),
    ensures
        settled(
            log,
            actors,
            stage_after(log, t, actors, opened, steps),
            a,
            asked_for(t, actors, opened, steps, a),
        ),
    decreases steps.len(),
{
    if steps.len() == 0 {
        lemma_settled_start(log, actors, opened, a);
    } else {
        let less = steps.drop_last();
        lemma_settled(log, t, actors, stimuli, opened, less, a);
        let st = stage_after(log, t, actors, opened, less);
        let e = t[steps.len() - 1];
        let asked = asked_for(t, actors, opened, less, a);
        if let Step::Received(h) = steps.last() {
            lemma_first_named(actors, e.actor);
            let b = place(actors, e.actor);
            let mid = after_receipt(actors, st, e, h.before);
            assert(settled(log, actors, mid, a, asked));
            lemma_settled_handling(log, actors, mid, a, asked, b, h);
            assert(a == b <==> actors[a] == e.actor);
        }
    }
}

/// What actor `a` is to be run for in the first `n` steps: every message that it received there.
pub open spec fn messages_for<P>(
    log: Seq<EventModel>,
    t: Seq<EventModel>,
    names: Seq<Seq<char>>,
    c: Course<P>,
    a: int,
    n: int,
) -> Seq<Errand<P>>
    decreases n,
{
    if n <= 0 {
        seq![]
    } else {
        let before = messages_for(log, t, names, c, a, n - 1);
        if c.steps[n - 1] is Received && t[n - 1].actor == names[a] {
            before.push(Errand::Message(message_at(log, t, names, c.opened, c.steps, n - 1)))
        } else {
            before
        }
    }
}

/// Every actor is run to start, once, and then once for each message that it receives, in the
/// order of the timeline, and for nothing else; it keeps its name and the name it was registered
/// under.
pub proof fn every_actor_is_run_for_its_own<P>(
    log: Seq<EventModel>,
    t: Seq<EventModel>,
    names: Seq<Seq<char>>,
    stimuli: Seq<(Seq<char>, P)>,
    cast: Seq<Registered<P>>,
    c: Course<P>,
    a: int,
    n: int,
)
    requires
        names.no_duplicates(),
        names.len() == cast.len(),
        played(log, t, names, stimuli, c.opened, c.steps),
        casts_follow(log, t, names, cast, c),
        0 <= a < cast.len(),
        0 <= n <= c.steps.len(),
    ensures
        c.casts[n].len() == cast.len(),
        c.casts[n][a].name() == cast[a].name(),
        c.casts[n][a].tag() == cast[a].tag(),
        c.casts[n][a].runs() == cast[a].runs() + seq![Errand::<P>::Start] + messages_for(
            log,
            t,
            names,
            c,
            a,
            n,
        ),
    decreases n,
{
    if n == 0 {
        assert(c.casts[0][a].ran_for(cast[a], Errand::Start));
        assert(c.casts[0][a].runs() =~= cast[a].runs() + seq![Errand::<P>::Start] + messages_for(
            log,
            t,
            names,
            c,
            a,
            0,
        ));
    } else {
        let i = n - 1;
        every_actor_is_run_for_its_own(log, t, names, stimuli, cast, c, a, i);
        assert(cast_moves(log, t, names, c, i));
        assert(c.casts[n].len() == cast.len());
        if c.steps[i] is Received {
            lemma_played_so_far(log, t, names, stimuli, c.opened, c.steps, i);
            lemma_first_named(names, t[i].actor);
            let b = place(names, t[i].actor);
            if b == a {
                assert(c.casts[n][a].runs() =~= cast[a].runs() + seq![Errand::<P>::Start]
                    + messages_for(log, t, names, c, a, n));
            } else {
                assert(names[b] != names[a]);
                assert(c.casts[n][a] == c.casts[i][a]);
            }
        }
    }
}

/// Every step of a course fits its event, and every actor has started, without events, before the
/// first of them.
pub proof fn a_course_is_made_of_fitting_steps<P>(
    log: Seq<EventModel>,
    t: Seq<EventModel>,
    actors: Seq<Seq<char>>,
    stimuli: Seq<(Seq<char>, P)>,
    opened: Seq<Handling<P>>,
    steps: Seq<Step<P>>,
    i: int,
)
    requires
        played(log, t, actors, stimuli, opened, steps),
    ensures
        opened.len() == actors.len(),
        forall|a: int|
            0 <= a < opened.len() ==> (#[trigger] opened[a]).before.seq == 0
                && opened[a].before.lamport == 0 && opened[a].before.clock == Map::<
                Seq<char>,
                u64,
            >::empty(),
        steps.len() <= t.len() || steps.len() == 0,
        0 <= i < steps.len() ==> step_fits(
            actors,
            stimuli,
            stage_after(log, t, actors, opened, steps.take(i)),
            t[i],
            steps[i],
        ),
    decreases steps.len(),
{
    if 0 <= i < steps.len() {
        lemma_played_so_far(log, t, actors, stimuli, opened, steps, i);
    }
    if steps.len() > 0 {
        a_course_is_made_of_fitting_steps(
            log,
            t,
            actors,
            stimuli,
            opened,
            steps.drop_last(),
            -1,
        );
    }
}

/// A re-execution stops at a receipt of an actor of the topology whose message waits.
pub proof fn where_a_re_execution_stops<P>(
    log: Seq<EventModel>,
    t: Seq<EventModel>,
    actors: Seq<Seq<char>>,
    stimuli: Seq<(Seq<char>, P)>,
    opened: Seq<Handling<P>>,
    steps: Seq<Step<P>>,
    who: Seq<char>,
)
    requires
        comes_to_receipt(log, t, actors, stimuli, opened, steps, who),
    ensures
        played(log, t, actors, stimuli, opened, steps),
        steps.len() < t.len(),
        t[steps.len() as int].op is Recv,
        t[steps.len() as int].actor == who,
        actors.contains(who),
        finds_its_message(
            stage_after(log, t, actors, opened, steps),
            t[steps.len() as int],
        ),
        has_room_there(log, t, actors, opened, steps) <==> {
            let st = stage_after(log, t, actors, opened, steps);
            has_room_for(
                st.lines[place(actors, who)].stamps,
                who,
                received_message(st, t[steps.len() as int]).stamp,
            )
        },
{
}

/// A handler runs at step `i` exactly when a message is received there; the message is the one
/// that the receipt takes, and the numbers at hand are those that the actor has not used before.
pub proof fn what_is_handled_at_a_step<P>(
    log: Seq<EventModel>,
    t: Seq<EventModel>,
    actors: Seq<Seq<char>>,
    opened: Seq<Handling<P>>,
    steps: Seq<Step<P>>,
    i: int,
    h: Handling<P>,
)
    requires
        0 <= i < steps.len(),
    ensures
        handled_at(steps, i, h) <==> steps[i] == Step::Received(h),
        is_nth(opened, i, h) <==> i < opened.len() && opened[i] == h,
        ({
            let st = stage_after(log, t, actors, opened, steps.take(i));
            let used = st.lines[place(actors, t[i].actor)].used;
            &&& message_at(log, t, actors, opened, steps, i) == received_message(st, t[i]).msg
            &&& used <= ids_of(log, t[i].actor).len() ==> ids_of(log, t[i].actor) == ids_of(
                log,
                t[i].actor,
            ).take(used as int) + ids_left(log, t, actors, opened, steps, i)
        }),
{
    let st = stage_after(log, t, actors, opened, steps.take(i));
    let used = st.lines[place(actors, t[i].actor)].used;
    let ids = ids_of(log, t[i].actor);
    if used <= ids.len() {
        assert(ids =~= ids.take(used as int) + ids.skip(used as int));
    }
}

} // verus!
