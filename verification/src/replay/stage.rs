//! The course of a re-execution, as a model: where every actor stands, which messages wait, and
//! what one more event of the timeline does to that.

use crate::actor::received;
use crate::clock::{component, larger, merged};
use crate::envelope::{EnvelopeModel, EnvelopeStamp};
use crate::event::{message_number, recv_model};
use crate::log::{EventModel, Op};
use crate::replay::index::sends_of;
use vstd::prelude::*;

verus! {

/// Where a world-line stands.
pub struct Stamps {
    pub clock: Map<Seq<char>, u64>,
    pub lamport: u64,
    pub seq: u64,
}

/// What a handler did: where the world-line stood as the handler got it, the events that it
/// recorded, the messages that it sent, how many message numbers it asked for, and where it left
/// the world-line.
pub struct Handling<P> {
    pub before: Stamps,
    pub events: Seq<EventModel>,
    pub sent: Seq<EnvelopeModel<P>>,
    pub issued: nat,
    pub after: Stamps,
}

/// One actor: its stamps, and how many of its recorded message numbers are gone.
pub struct Standing {
    pub stamps: Stamps,
    pub used: nat,
}

/// Where a re-execution stands.
pub struct Stage<P> {
    /// The actors, in the order of their registration.
    pub lines: Seq<Standing>,
    /// The messages that wait to be received.
    pub mail: Seq<EnvelopeModel<P>>,
    /// The re-executed events.
    pub executed: Seq<EventModel>,
    /// The senders of the messages in excess of the recorded ones.
    pub extra: Seq<Seq<char>>,
    /// How many origin messages are gone.
    pub origins: nat,
}

/// What is done at one event of the timeline.
pub enum Step<P> {
    /// The actor received its message and handled it.
    Received(Handling<P>),
    /// There was no message to receive.
    Undelivered,
    /// An outsider's send was made with the next origin message.
    Supplied(P),
    /// There was no origin message for an outsider's send.
    Unsupplied,
    /// Nothing: a handler brings the event about, or nothing does.
    Followed,
}

/// At step `i` an actor received a message and did `h`.
pub open spec fn handled_at<P>(steps: Seq<Step<P>>, i: int, h: Handling<P>) -> bool {
    0 <= i < steps.len() && steps[i] == Step::Received(h)
}

/// The number of the message that an event is recorded with.
pub open spec fn recorded_number(e: EventModel) -> Option<u64> {
    match e.msg_id {
        Some(s) => message_number(s),
        None => None,
    }
}

/// The message numbers that an actor is recorded to have used; 0 for a send without one.
pub open spec fn ids_of(log: Seq<EventModel>, actor: Seq<char>) -> Seq<u64> {
    let sends = sends_of(log, actor);
    Seq::new(
        sends.len(),
        |i: int|
            match recorded_number(log[sends[i] as int]) {
                Some(k) => k,
                None => 0,
            },
    )
}

/// The numbers of messages.
pub open spec fn numbers<P>(mail: Seq<EnvelopeModel<P>>) -> Seq<u64> {
    Seq::new(mail.len(), |i: int| mail[i].stamp.msg_id)
}

/// The stamps of messages.
pub open spec fn stamps_of_mail<P>(mail: Seq<EnvelopeModel<P>>) -> Seq<EnvelopeStamp> {
    Seq::new(mail.len(), |i: int| mail[i].stamp)
}

/// The smaller of two numbers.
pub open spec fn at_most(n: nat, limit: nat) -> nat {
    if n <= limit {
        n
    } else {
        limit
    }
}

/// `who`, `n` times.
pub open spec fn repeated(who: Seq<char>, n: nat) -> Seq<Seq<char>> {
    Seq::new(n, |i: int| who)
}

/// The stamps of an actor without events.
pub open spec fn no_stamps() -> Stamps {
    Stamps { clock: Map::empty(), lamport: 0, seq: 0 }
}

/// Actor `a` is the first one with the name.
pub open spec fn first_named(actors: Seq<Seq<char>>, name: Seq<char>, a: int) -> bool {
    &&& 0 <= a < actors.len()
    &&& actors[a] == name
    &&& forall|b: int| 0 <= b < a ==> #[trigger] actors[b] != name
}

/// Which actor has the name.
pub open spec fn place(actors: Seq<Seq<char>>, name: Seq<char>) -> int {
    choose|a: int| first_named(actors, name, a)
}

/// Message `j` is the first one that waits with number `k`.
pub open spec fn first_numbered<P>(mail: Seq<EnvelopeModel<P>>, k: u64, j: int) -> bool {
    &&& 0 <= j < mail.len()
    &&& mail[j].stamp.msg_id == k
    &&& forall|i: int| 0 <= i < j ==> (#[trigger] mail[i]).stamp.msg_id != k
}

/// A message with number `k` waits.
pub open spec fn waits<P>(mail: Seq<EnvelopeModel<P>>, k: u64) -> bool {
    exists|j: int| 0 <= j < mail.len() && (#[trigger] mail[j]).stamp.msg_id == k
}

/// Where the message with number `k` waits.
pub open spec fn slot<P>(mail: Seq<EnvelopeModel<P>>, k: u64) -> int {
    choose|j: int| first_numbered(mail, k, j)
}

/// The stamps of a receipt.
pub open spec fn receipt_stamps(s: Stamps, actor: Seq<char>, env: EnvelopeStamp) -> Stamps {
    Stamps {
        clock: received(s.clock, actor, env.vclock),
        lamport: (larger(s.lamport, env.lamport) + 1) as u64,
        seq: (s.seq + 1) as u64,
    }
}

/// The counters stay below their limit at a receipt.
pub open spec fn has_room_for(s: Stamps, actor: Seq<char>, env: EnvelopeStamp) -> bool {
    &&& component(merged(s.clock, env.vclock), actor) < u64::MAX
    &&& s.lamport < u64::MAX
    &&& env.lamport < u64::MAX
    &&& s.seq < u64::MAX
}

/// How many recorded message numbers actor `a` has left.
pub open spec fn open_numbers<P>(
    log: Seq<EventModel>,
    actors: Seq<Seq<char>>,
    st: Stage<P>,
    a: int,
) -> nat {
    (ids_of(log, actors[a]).len() - st.lines[a].used) as nat
}

/// The messages that are kept of those that a handler sent: the ones with a recorded number.
pub open spec fn kept<P>(h: Handling<P>, open: nat) -> Seq<EnvelopeModel<P>> {
    h.sent.take(at_most(h.sent.len(), open) as int)
}

/// The stage after a handler of actor `a`.
pub open spec fn after_handling<P>(
    log: Seq<EventModel>,
    actors: Seq<Seq<char>>,
    st: Stage<P>,
    a: int,
    h: Handling<P>,
) -> Stage<P> {
    let open = open_numbers(log, actors, st, a);
    Stage {
        lines: st.lines.update(
            a,
            Standing { stamps: h.after, used: st.lines[a].used + at_most(h.issued, open) },
        ),
        mail: st.mail + kept(h, open),
        executed: st.executed + h.events,
        extra: st.extra + repeated(actors[a], (h.issued - at_most(h.issued, open)) as nat),
        origins: st.origins,
    }
}

/// The stage before anything happens.
pub open spec fn first_stage<P>(actors: Seq<Seq<char>>) -> Stage<P> {
    Stage {
        lines: Seq::new(actors.len(), |a: int| Standing { stamps: no_stamps(), used: 0 }),
        mail: seq![],
        executed: seq![],
        extra: seq![],
        origins: 0,
    }
}

/// The stage once the first actors have started.
pub open spec fn started<P>(
    log: Seq<EventModel>,
    actors: Seq<Seq<char>>,
    opened: Seq<Handling<P>>,
) -> Stage<P>
    decreases opened.len(),
{
    if opened.len() == 0 {
        first_stage(actors)
    } else {
        after_handling(
            log,
            actors,
            started(log, actors, opened.drop_last()),
            opened.len() - 1,
            opened.last(),
        )
    }
}

/// The message that a receipt `e` receives.
pub open spec fn received_message<P>(st: Stage<P>, e: EventModel) -> EnvelopeModel<P> {
    st.mail[slot(st.mail, recorded_number(e)->0)]
}

/// The stage at which the handler of a receipt `e` begins.
pub open spec fn after_receipt<P>(
    actors: Seq<Seq<char>>,
    st: Stage<P>,
    e: EventModel,
    before: Stamps,
) -> Stage<P> {
    Stage {
        mail: st.mail.remove(slot(st.mail, recorded_number(e)->0)),
        executed: st.executed.push(
            recv_model(
                e.actor,
                before.seq,
                before.clock,
                before.lamport,
                received_message(st, e).stamp,
            ),
        ),
        ..st
    }
}

/// The stamps of the message of a send, as recorded.
pub open spec fn recorded_stamp(e: EventModel) -> EnvelopeStamp {
    EnvelopeStamp {
        vclock: e.vclock,
        lamport: e.lamport,
        msg_id: recorded_number(e)->0,
        src: e.actor,
        dst: e.dst->0,
    }
}

/// The stage after one more event of the timeline.
pub open spec fn after_step<P>(
    log: Seq<EventModel>,
    actors: Seq<Seq<char>>,
    st: Stage<P>,
    e: EventModel,
    step: Step<P>,
) -> Stage<P> {
    match step {
        Step::Received(h) => after_handling(
            log,
            actors,
            after_receipt(actors, st, e, h.before),
            place(actors, e.actor),
            h,
        ),
        Step::Supplied(msg) => Stage {
            mail: st.mail.push(EnvelopeModel { msg, stamp: recorded_stamp(e) }),
            origins: st.origins + 1,
            ..st
        },
        _ => st,
    }
}

/// The message that `e` receives waits.
pub open spec fn deliverable<P>(st: Stage<P>, e: EventModel) -> bool {
    recorded_number(e) matches Some(k) && waits(st.mail, k)
}

/// The next origin message is the one that the send `e` asks for.
pub open spec fn origin_matches<P>(e: EventModel, stimuli: Seq<(Seq<char>, P)>, used: nat) -> bool {
    &&& recorded_number(e) is Some
    &&& used < stimuli.len()
    &&& e.dst == Some(stimuli[used as int].0)
}

/// `step` is what is to be done at the event `e`: an actor of the topology receives its message
/// if that message waits; an outsider's send is made if the next origin message is for its
/// receiver.
pub open spec fn step_fits<P>(
    actors: Seq<Seq<char>>,
    stimuli: Seq<(Seq<char>, P)>,
    st: Stage<P>,
    e: EventModel,
    step: Step<P>,
) -> bool {
    let own = actors.contains(e.actor);
    match step {
        Step::Received(h) => {
            let stamps = st.lines[place(actors, e.actor)].stamps;
            &&& own && e.op == Op::Recv && deliverable(st, e)
            &&& has_room_for(stamps, e.actor, received_message(st, e).stamp)
            &&& h.before == receipt_stamps(stamps, e.actor, received_message(st, e).stamp)
        },
        Step::Undelivered => own && e.op == Op::Recv && !deliverable(st, e),
        Step::Supplied(msg) => {
            &&& !own && e.op == Op::Emit && origin_matches(e, stimuli, st.origins)
            &&& msg == stimuli[st.origins as int].1
        },
        Step::Unsupplied => !own && e.op == Op::Emit && !origin_matches(e, stimuli, st.origins),
        Step::Followed => if own {
            e.op != Op::Recv
        } else {
            e.op != Op::Emit
        },
    }
}

/// The stage after some steps along the timeline `t`.
pub open spec fn stage_after<P>(
    log: Seq<EventModel>,
    t: Seq<EventModel>,
    actors: Seq<Seq<char>>,
    opened: Seq<Handling<P>>,
    steps: Seq<Step<P>>,
) -> Stage<P>
    decreases steps.len(),
{
    if steps.len() == 0 {
        started(log, actors, opened)
    } else {
        after_step(
            log,
            actors,
            stage_after(log, t, actors, opened, steps.drop_last()),
            t[steps.len() - 1],
            steps.last(),
        )
    }
}

/// The actors started, each without events, and then every event of the timeline `t` up to here
/// had its step.
pub open spec fn played<P>(
    log: Seq<EventModel>,
    t: Seq<EventModel>,
    actors: Seq<Seq<char>>,
    stimuli: Seq<(Seq<char>, P)>,
    opened: Seq<Handling<P>>,
    steps: Seq<Step<P>>,
) -> bool
    decreases steps.len(),
{
    if steps.len() == 0 {
        &&& opened.len() == actors.len()
        &&& forall|a: int| 0 <= a < opened.len() ==> (#[trigger] opened[a]).before == no_stamps()
    } else {
        &&& steps.len() <= t.len()
        &&& played(log, t, actors, stimuli, opened, steps.drop_last())
        &&& step_fits(
            actors,
            stimuli,
            stage_after(log, t, actors, opened, steps.drop_last()),
            t[steps.len() - 1],
            steps.last(),
        )
    }
}

/// A re-execution along `t` comes to a receipt of `who` whose message waits.
pub open spec fn comes_to_receipt<P>(
    log: Seq<EventModel>,
    t: Seq<EventModel>,
    actors: Seq<Seq<char>>,
    stimuli: Seq<(Seq<char>, P)>,
    opened: Seq<Handling<P>>,
    steps: Seq<Step<P>>,
    who: Seq<char>,
) -> bool {
    let st = stage_after(log, t, actors, opened, steps);
    let e = t[steps.len() as int];
    &&& played(log, t, actors, stimuli, opened, steps)
    &&& steps.len() < t.len()
    &&& e.op == Op::Recv
    &&& e.actor == who
    &&& actors.contains(who)
    &&& deliverable(st, e)
}

/// The counters of `who` have room for the message that the re-execution comes to.
pub open spec fn has_room_there<P>(
    log: Seq<EventModel>,
    t: Seq<EventModel>,
    actors: Seq<Seq<char>>,
    opened: Seq<Handling<P>>,
    steps: Seq<Step<P>>,
) -> bool {
    let st = stage_after(log, t, actors, opened, steps);
    let e = t[steps.len() as int];
    has_room_for(st.lines[place(actors, e.actor)].stamps, e.actor, received_message(st, e).stamp)
}

/// The recorded message numbers that the actor of event `i` has left at that event.
pub open spec fn ids_left<P>(
    log: Seq<EventModel>,
    t: Seq<EventModel>,
    actors: Seq<Seq<char>>,
    opened: Seq<Handling<P>>,
    steps: Seq<Step<P>>,
    i: int,
) -> Seq<u64> {
    let st = stage_after(log, t, actors, opened, steps.take(i));
    ids_of(log, t[i].actor).skip(st.lines[place(actors, t[i].actor)].used as int)
}

/// The message that the receipt at event `i` receives.
pub open spec fn message_at<P>(
    log: Seq<EventModel>,
    t: Seq<EventModel>,
    actors: Seq<Seq<char>>,
    opened: Seq<Handling<P>>,
    steps: Seq<Step<P>>,
    i: int,
) -> P {
    received_message(stage_after(log, t, actors, opened, steps.take(i)), t[i]).msg
}

/// What an actor has been through before event `i`, since it started: every message that it
/// received, with what it did.
pub open spec fn past_of<P>(
    log: Seq<EventModel>,
    t: Seq<EventModel>,
    actors: Seq<Seq<char>>,
    opened: Seq<Handling<P>>,
    steps: Seq<Step<P>>,
    actor: Seq<char>,
    i: int,
) -> Seq<(P, Handling<P>)>
    decreases i,
{
    if i <= 0 {
        seq![]
    } else {
        let before = past_of(log, t, actors, opened, steps, actor, i - 1);
        match steps[i - 1] {
            Step::Received(h) if t[i - 1].actor == actor => before.push(
                (message_at(log, t, actors, opened, steps, i - 1), h),
            ),
            _ => before,
        }
    }
}

/// Every part of a course is one.
pub proof fn lemma_played_so_far<P>(
    log: Seq<EventModel>,
    t: Seq<EventModel>,
    actors: Seq<Seq<char>>,
    stimuli: Seq<(Seq<char>, P)>,
    opened: Seq<Handling<P>>,
    steps: Seq<Step<P>>,
    n: int,
)
    requires
        0 <= n <= steps.len(),
        played(log, t, actors, stimuli, opened, steps),
    ensures
        played(log, t, actors, stimuli, opened, steps.take(n)),
        n < steps.len() ==> step_fits(
            actors,
            stimuli,
            stage_after(log, t, actors, opened, steps.take(n)),
            t[n],
            steps[n],
        ),
    decreases steps.len(),
{
    let less = steps.drop_last();
    if n == steps.len() {
        assert(steps.take(n) =~= steps);
    } else {
        assert(less.take(n) =~= steps.take(n));
        if n == less.len() {
            assert(less =~= steps.take(n));
        } else {
            lemma_played_so_far(log, t, actors, stimuli, opened, less, n);
        }
    }
}

/// There is one first actor of a name.
pub proof fn lemma_place(actors: Seq<Seq<char>>, name: Seq<char>, a: int)
    requires
        first_named(actors, name, a),
    ensures
        place(actors, name) == a,
        actors.contains(name),
{
    let b = place(actors, name);
    assert(first_named(actors, name, b));
    if a < b {
        assert(actors[a] != name);
    } else if b < a {
        assert(actors[b] != name);
    }
}

/// There is one first message of a number.
pub proof fn lemma_slot<P>(mail: Seq<EnvelopeModel<P>>, k: u64, j: int)
    requires
        first_numbered(mail, k, j),
    ensures
        slot(mail, k) == j,
        waits(mail, k),
{
    let i = slot(mail, k);
    assert(first_numbered(mail, k, i));
    if i < j {
        assert(mail[i].stamp.msg_id != k);
    } else if j < i {
        assert(mail[j].stamp.msg_id != k);
    }
}

/// Where a message waits, one is the first.
pub proof fn lemma_first_numbered<P>(mail: Seq<EnvelopeModel<P>>, k: u64)
    requires
        waits(mail, k),
    ensures
        first_numbered(mail, k, slot(mail, k)),
{
    let j = choose|j: int| 0 <= j < mail.len() && (#[trigger] mail[j]).stamp.msg_id == k;
    lemma_first_below(mail, k, j);
}

proof fn lemma_first_below<P>(mail: Seq<EnvelopeModel<P>>, k: u64, j: int)
    requires
        0 <= j < mail.len(),
        mail[j].stamp.msg_id == k,
    ensures
        exists|i: int| first_numbered(mail, k, i),
    decreases j,
{
    if forall|i: int| 0 <= i < j ==> (#[trigger] mail[i]).stamp.msg_id != k {
        assert(first_numbered(mail, k, j));
    } else {
        let i = choose|i: int| 0 <= i < j && (#[trigger] mail[i]).stamp.msg_id == k;
        lemma_first_below(mail, k, i);
    }
}

/// Every name in the topology has a first actor.
pub proof fn lemma_first_named(actors: Seq<Seq<char>>, name: Seq<char>)
    requires
        actors.contains(name),
    ensures
        first_named(actors, name, place(actors, name)),
{
    let a = choose|a: int| 0 <= a < actors.len() && actors[a] == name;
    lemma_first_named_below(actors, name, a);
}

proof fn lemma_first_named_below(actors: Seq<Seq<char>>, name: Seq<char>, a: int)
    requires
        0 <= a < actors.len(),
        actors[a] == name,
    ensures
        exists|b: int| first_named(actors, name, b),
    decreases a,
{
    if forall|b: int| 0 <= b < a ==> #[trigger] actors[b] != name {
        assert(first_named(actors, name, a));
    } else {
        let b = choose|b: int| 0 <= b < a && #[trigger] actors[b] == name;
        lemma_first_named_below(actors, name, b);
    }
}

} // verus!
