//! Actors and their world-lines.

use crate::clock::{
    clock_lt, component, happens_before_transitive, larger, merge_dominates, merged,
    tick_moves_forward, ticked, ActorId, Lamport, VectorClock,
};
use crate::context::Context;
use crate::envelope::{Envelope, EnvelopeStamp};
use crate::event::{recv_event, recv_model};
use crate::log::{CausalEvent, EventModel};
use vstd::prelude::*;

verus! {

/// A unit of computation that handles one message at a time. Handling is synchronous: a
/// handler may send and compute through its context, and never waits. The same actor runs
/// over every backend `B` that it is written for.
pub trait Actor<B: ?Sized>: Send + 'static {
    type Msg: Send + 'static;

    /// Run once before the first message.
    fn started(&mut self, _ctx: &mut Context<B>) {
    }

    /// Handle exactly one message.
    fn handle(&mut self, msg: Self::Msg, ctx: &mut Context<B>);
}

/// The stamps of one actor: its clock, its Lamport stamp and the number of its events.
#[derive(Debug)]
pub struct WorldLine {
    id: ActorId,
    clock: VectorClock,
    lamport: Lamport,
    seq: u64,
}

/// The clock of a receiver after a receipt: everything the sender knew, and one event more.
pub open spec fn received(
    clock: Map<Seq<char>, u64>,
    actor: Seq<char>,
    stamp: Map<Seq<char>, u64>,
) -> Map<Seq<char>, u64> {
    ticked(merged(clock, stamp), actor)
}

impl WorldLine {
    pub closed spec fn name(&self) -> Seq<char> {
        self.id@
    }

    pub closed spec fn clock(&self) -> Map<Seq<char>, u64> {
        self.clock@
    }

    pub closed spec fn lamport(&self) -> u64 {
        self.lamport.0
    }

    pub closed spec fn seq(&self) -> u64 {
        self.seq
    }

    /// The counters stay below their limit when `env` is received.
    pub open spec fn room_for(&self, env: EnvelopeStamp) -> bool {
        &&& component(merged(self.clock(), env.vclock), self.name()) < u64::MAX
        &&& self.lamport() < u64::MAX
        &&& env.lamport < u64::MAX
        &&& self.seq() < u64::MAX
    }

    /// The world-line of an actor that has had no events.
    pub fn new(id: ActorId) -> (r: Self)
        ensures
            r.name() == id@,
            r.clock() == Map::<Seq<char>, u64>::empty(),
            r.lamport() == 0,
            r.seq() == 0,
    {
        WorldLine { id, clock: VectorClock::new(), lamport: Lamport(0), seq: 0 }
    }

    /// The name of the actor.
    pub fn id(&self) -> (r: &ActorId)
        ensures
            r@ == self.name(),
    {
        &self.id
    }

    /// Whether the counters stay below their limit when `env` is received.
    pub fn can_receive<P>(&self, env: &Envelope<P>) -> (r: bool)
        ensures
            r == self.room_for(env@.stamp),
    {
        self.clock.get(&self.id) < u64::MAX && env.vclock.get(&self.id) < u64::MAX && self.lamport.0
            < u64::MAX && env.lamport.0 < u64::MAX && self.seq < u64::MAX
    }

    /// The counters stay below their limit at one more event.
    pub open spec fn has_room(&self) -> bool {
        &&& component(self.clock(), self.name()) < u64::MAX
        &&& self.lamport() < u64::MAX
        &&& self.seq() < u64::MAX
    }

    /// Whether the counters stay below their limit at one more event.
    pub fn can_act(&self) -> (r: bool)
        ensures
            r == self.has_room(),
    {
        self.clock.get(&self.id) < u64::MAX && self.lamport.0 < u64::MAX && self.seq < u64::MAX
    }

    /// The receive rule: merge the sender's clock, then count the receipt as an event.
    pub fn receive<P>(&mut self, env: &Envelope<P>) -> (r: CausalEvent)
        requires
            old(self).room_for(env@.stamp),
        ensures
            final(self).name() == old(self).name(),
            final(self).clock() == received(old(self).clock(), old(self).name(), env@.stamp.vclock),
            final(self).lamport() == larger(old(self).lamport(), env@.stamp.lamport) + 1,
            final(self).seq() == old(self).seq() + 1,
            r@ == recv_model(
                old(self).name(),
                final(self).seq(),
                final(self).clock(),
                final(self).lamport(),
                env@.stamp,
            ),
    {
        self.clock.merge(&env.vclock);
        self.clock.increment(&self.id);
        let lam: u64 = self.lamport.update(env.lamport);
        self.seq = self.seq + 1;
        recv_event(&self.id, self.seq, &self.clock, lam, env)
    }

    /// A context over this world-line.
    pub fn context<'a, B: ?Sized>(&'a mut self, backend: &'a mut B) -> (r: Context<'a, B>)
        ensures
            r.actor() == old(self).name(),
            r.clock() == old(self).clock(),
            r.lamport() == old(self).lamport(),
            r.seq() == old(self).seq(),
            r.backend() == &*old(backend),
            final(self).name() == old(self).name(),
            final(self).clock() == (*final(r.clock_cell()))@,
            final(self).lamport() == (*final(r.lamport_cell())).0,
            final(self).seq() == *final(r.seq_cell()),
            &*final(r.backend_cell()) == &*final(backend),
    {
        Context::new(&self.id, &mut self.clock, &mut self.lamport, &mut self.seq, backend)
    }
}

/// A receipt is strictly after both the sending of the message and everything that the
/// receiver had seen.
pub proof fn receipt_is_after(
    clock: Map<Seq<char>, u64>,
    actor: Seq<char>,
    stamp: Map<Seq<char>, u64>,
)
    requires
        component(merged(clock, stamp), actor) < u64::MAX,
    ensures
        clock_lt(stamp, received(clock, actor, stamp)),
        clock_lt(clock, received(clock, actor, stamp)),
{
    let m = merged(clock, stamp);
    merge_dominates(clock, stamp);
    tick_moves_forward(m, actor);
    let r = received(clock, actor, stamp);
    assert(component(r, actor) == component(m, actor) + 1);
    assert forall|k: Seq<char>| #[trigger] component(stamp, k) <= component(r, k) by {
        assert(component(stamp, k) <= component(m, k));
        assert(component(m, k) <= component(r, k));
    }
    assert forall|k: Seq<char>| #[trigger] component(clock, k) <= component(r, k) by {
        assert(component(clock, k) <= component(m, k));
        assert(component(m, k) <= component(r, k));
    }
    assert(component(r, actor) > component(stamp, actor)) by {
        assert(component(stamp, actor) <= component(m, actor));
    }
    assert(component(r, actor) > component(clock, actor)) by {
        assert(component(clock, actor) <= component(m, actor));
    }
}

/// An event of an actor, as far as its clock is concerned: one of its own, or a receipt of a
/// message with the given stamps.
pub enum Happening {
    Local,
    Receipt(Map<Seq<char>, u64>, u64),
}

/// The clock of an actor after some events.
pub open spec fn clock_through(actor: Seq<char>, events: Seq<Happening>) -> Map<Seq<char>, u64>
    decreases events.len(),
{
    if events.len() == 0 {
        Map::empty()
    } else {
        let before = clock_through(actor, events.drop_last());
        match events.last() {
            Happening::Local => ticked(before, actor),
            Happening::Receipt(stamp, _) => received(before, actor, stamp),
        }
    }
}

/// The Lamport stamp of an actor after some events.
pub open spec fn lamport_through(events: Seq<Happening>) -> int
    decreases events.len(),
{
    if events.len() == 0 {
        0
    } else {
        let before = lamport_through(events.drop_last());
        match events.last() {
            Happening::Receipt(_, lamport) if before < lamport => lamport + 1,
            _ => before + 1,
        }
    }
}

/// The events of an actor count up: the own component of the clock is the number of the event,
/// and every event is strictly after the one before it, by clock and by Lamport stamp. No
/// message can have been sent with knowledge of events of the actor that were still to come.
pub proof fn events_of_an_actor_count_up(actor: Seq<char>, events: Seq<Happening>)
    requires
        events.len() < u64::MAX,
        forall|i: int|
            0 <= i < events.len() ==> ((#[trigger] events[i]) matches Happening::Receipt(stamp, _)
                ==> component(stamp, actor) <= i),
    ensures
        component(clock_through(actor, events), actor) == events.len(),
        events.len() > 0 ==> clock_lt(
            clock_through(actor, events.drop_last()),
            clock_through(actor, events),
        ),
        events.len() > 0 ==> lamport_through(events.drop_last()) < lamport_through(events),
        events.len() > 0 ==> (events.last() matches Happening::Receipt(_, lamport) ==> lamport
            < lamport_through(events)),
    decreases events.len(),
{
    if events.len() > 0 {
        let less = events.drop_last();
        assert forall|i: int| 0 <= i < less.len() implies ((
        #[trigger] less[i]) matches Happening::Receipt(stamp, _) ==> component(stamp, actor)
            <= i) by {
            assert(less[i] == events[i]);
        }
        events_of_an_actor_count_up(actor, less);
        let before = clock_through(actor, less);
        match events.last() {
            Happening::Local => {
                tick_moves_forward(before, actor);
            },
            Happening::Receipt(stamp, _) => {
                assert(events[events.len() - 1] == events.last());
                receipt_is_after(before, actor, stamp);
            },
        }
    }
}

/// `e` is recorded as the last of the actor's `events`.
pub open spec fn is_stamped(actor: Seq<char>, events: Seq<Happening>, e: EventModel) -> bool {
    &&& e.actor == actor
    &&& e.seq == events.len()
    &&& e.vclock == clock_through(actor, events)
    &&& e.lamport == lamport_through(events)
}

/// The stamps of an actor, and the events that are recorded for it, are those of `events`: each
/// event is recorded once, in order, with the stamps that it has.
pub open spec fn in_step(
    actor: Seq<char>,
    events: Seq<Happening>,
    clock: Map<Seq<char>, u64>,
    lamport: u64,
    seq: u64,
    recorded: Seq<EventModel>,
) -> bool {
    &&& clock == clock_through(actor, events)
    &&& lamport == lamport_through(events)
    &&& seq == events.len()
    &&& recorded.len() == events.len()
    &&& forall|i: int|
        0 <= i < events.len() ==> is_stamped(actor, events.take(i + 1), #[trigger] recorded[i])
}

/// Recording one more event with its stamps keeps an actor in step.
pub proof fn lemma_in_step(
    actor: Seq<char>,
    events: Seq<Happening>,
    happening: Happening,
    clock: Map<Seq<char>, u64>,
    lamport: u64,
    seq: u64,
    recorded: Seq<EventModel>,
    e: EventModel,
)
    requires
        in_step(actor, events, clock, lamport, seq, recorded),
        e.actor == actor,
        e.seq == seq + 1,
        match happening {
            Happening::Local => e.vclock == ticked(clock, actor) && e.lamport == lamport + 1,
            Happening::Receipt(stamp, sent) => {
                &&& e.vclock == received(clock, actor, stamp)
                &&& e.lamport == larger(lamport, sent) + 1
            },
        },
    ensures
        in_step(
            actor,
            events.push(happening),
            e.vclock,
            e.lamport,
            e.seq,
            recorded.push(e),
        ),
{
    let more = events.push(happening);
    let written = recorded.push(e);
    assert(more.drop_last() =~= events);
    assert(more.last() == happening);
    assert(is_stamped(actor, more, e));
    assert forall|i: int| 0 <= i < more.len() implies is_stamped(
        actor,
        more.take(i + 1),
        #[trigger] written[i],
    ) by {
        if i < events.len() {
            assert(more.take(i + 1) =~= events.take(i + 1));
            assert(written[i] == recorded[i]);
        } else {
            assert(more.take(i + 1) =~= more);
        }
    }
}

proof fn lemma_recorded_in_order(actor: Seq<char>, events: Seq<Happening>, i: int, j: int)
    requires
        events.len() < u64::MAX,
        forall|k: int|
            0 <= k < events.len() ==> ((#[trigger] events[k]) matches Happening::Receipt(stamp, _)
                ==> component(stamp, actor) <= k),
        0 <= i < j <= events.len(),
    ensures
        clock_lt(clock_through(actor, events.take(i)), clock_through(actor, events.take(j))),
        lamport_through(events.take(i)) < lamport_through(events.take(j)),
    decreases j,
{
    let whole = events.take(j);
    assert forall|k: int| 0 <= k < whole.len() implies ((
    #[trigger] whole[k]) matches Happening::Receipt(stamp, _) ==> component(stamp, actor) <= k) by {
        assert(whole[k] == events[k]);
    }
    events_of_an_actor_count_up(actor, whole);
    assert(whole.drop_last() =~= events.take(j - 1));
    if i < j - 1 {
        lemma_recorded_in_order(actor, events, i, j - 1);
        happens_before_transitive(
            clock_through(actor, events.take(i)),
            clock_through(actor, events.take(j - 1)),
            clock_through(actor, whole),
        );
    }
}

/// What is recorded for an actor counts up: the events are numbered from one without gap or
/// repeat, the own component of each clock is the number of the event, and every event is strictly
/// after all that were recorded before it, by clock and by Lamport stamp.
pub proof fn recorded_events_count_up(
    actor: Seq<char>,
    events: Seq<Happening>,
    clock: Map<Seq<char>, u64>,
    lamport: u64,
    seq: u64,
    recorded: Seq<EventModel>,
)
    requires
        in_step(actor, events, clock, lamport, seq, recorded),
        events.len() < u64::MAX,
        forall|i: int|
            0 <= i < events.len() ==> ((#[trigger] events[i]) matches Happening::Receipt(stamp, _)
                ==> component(stamp, actor) <= i),
    ensures
        forall|i: int|
            0 <= i < recorded.len() ==> {
                &&& (#[trigger] recorded[i]).actor == actor
                &&& recorded[i].seq == i + 1
                &&& component(recorded[i].vclock, actor) == i + 1
            },
        forall|i: int, j: int|
            0 <= i < j < recorded.len() ==> clock_lt(
                (#[trigger] recorded[i]).vclock,
                (#[trigger] recorded[j]).vclock,
            ) && recorded[i].lamport < recorded[j].lamport,
{
    assert forall|i: int| 0 <= i < recorded.len() implies {
        &&& (#[trigger] recorded[i]).actor == actor
        &&& recorded[i].seq == i + 1
        &&& component(recorded[i].vclock, actor) == i + 1
    } by {
        let whole = events.take(i + 1);
        assert forall|k: int| 0 <= k < whole.len() implies ((
        #[trigger] whole[k]) matches Happening::Receipt(stamp, _) ==> component(stamp, actor)
            <= k) by {
            assert(whole[k] == events[k]);
        }
        events_of_an_actor_count_up(actor, whole);
    }
    assert forall|i: int, j: int| 0 <= i < j < recorded.len() implies clock_lt(
        (#[trigger] recorded[i]).vclock,
        (#[trigger] recorded[j]).vclock,
    ) && recorded[i].lamport < recorded[j].lamport by {
        lemma_recorded_in_order(actor, events, i + 1, j + 1);
    }
}

/// The clock after a receipt, entry by entry: the larger of what the receiver and the sender knew,
/// and for the receiver itself one more.
pub proof fn a_receipt_entry_by_entry(
    clock: Map<Seq<char>, u64>,
    actor: Seq<char>,
    stamp: Map<Seq<char>, u64>,
    k: Seq<char>,
)
    requires
        clock.contains_key(actor) ==> clock[actor] < u64::MAX,
        stamp.contains_key(actor) ==> stamp[actor] < u64::MAX,
    ensures
        received(clock, actor, stamp).contains_key(k) <==> k == actor || clock.contains_key(k)
            || stamp.contains_key(k),
        ({
            let own = if clock.contains_key(k) {
                clock[k] as int
            } else {
                0
            };
            let other = if stamp.contains_key(k) {
                stamp[k] as int
            } else {
                0
            };
            let most = if own < other {
                other
            } else {
                own
            };
            received(clock, actor, stamp).contains_key(k) ==> received(clock, actor, stamp)[k]
                == most + if k == actor {
                1int
            } else {
                0int
            }
        }),
{
}

impl WorldLine {
    /// There is room for an event, or for the receipt of a message, unless a counter that it moves
    /// is at its limit.
    pub proof fn where_there_is_room(&self, env: EnvelopeStamp)
        ensures
            self.has_room() <==> {
                &&& self.seq() < u64::MAX
                &&& self.lamport() < u64::MAX
                &&& self.clock().contains_key(self.name()) ==> self.clock()[self.name()] < u64::MAX
            },
            self.room_for(env) <==> {
                &&& self.has_room()
                &&& env.lamport < u64::MAX
                &&& env.vclock.contains_key(self.name()) ==> env.vclock[self.name()] < u64::MAX
            },
    {
    }
}

} // verus!
