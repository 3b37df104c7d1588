//! One actor of a running system, with its world-line and its backend.

use crate::actor::{
    in_step, received, recorded_events_count_up, Actor, Happening, WorldLine,
};
use crate::clock::{clock_lt, component, larger, ActorId};
use crate::context::Context;
use crate::dispatch::{Call, Deed, Dispatch};
use crate::envelope::{Envelope, EnvelopeModel, Payload};
use crate::event::recv_model;
use crate::prod::delivery::{receive, start, Delivery};
use crate::prod::dispatch::ProdDispatch;
use crate::prod::shared::SharedRuntime;
use std::sync::Arc;
use vstd::prelude::*;

verus! {

/// An actor that has started, and takes its messages one by one.
#[verifier::reject_recursive_types(P)]
pub struct ActorTask<A, P> {
    actor: A,
    world: WorldLine,
    backend: ProdDispatch<P>,
    heard: Ghost<Seq<EnvelopeModel<P>>>,
}

impl<A, P> ActorTask<A, P> {
    /// The actor.
    pub closed spec fn actor(&self) -> A {
        self.actor
    }

    /// The actor's world-line.
    pub closed spec fn world(&self) -> WorldLine {
        self.world
    }

    /// What the actor works on.
    pub closed spec fn backend(&self) -> ProdDispatch<P> {
        self.backend
    }

    /// The messages that the actor has received, in order.
    pub closed spec fn heard(&self) -> Seq<EnvelopeModel<P>> {
        self.heard@
    }

    /// The stamps and the record of the actor are those of `events`.
    pub open spec fn has_had(&self, events: Seq<Happening>) -> bool {
        in_step(
            self.world().name(),
            events,
            self.world().clock(),
            self.world().lamport(),
            self.world().seq(),
            self.backend().recorded(),
        )
    }

    /// Start an actor under its name. It starts once, here, before it can take a message; it has
    /// had no events by then, and its backend has done nothing yet.
    pub fn new(actor: A, id: ActorId, shared: Arc<SharedRuntime>) -> (r: Self) where
        A: Actor<ProdDispatch<P>>,

        ensures
            r.world().name() == id@,
            r.heard() == Seq::<EnvelopeModel<P>>::empty(),
            exists|a: &mut A, c: &mut Context<ProdDispatch<P>>|
                {
                    &&& #[trigger] call_ensures(A::started, (a, c), ())
                    &&& *a == actor
                    &&& *final(a) == r.actor()
                    &&& c.actor() == id@
                    &&& c.backend().runtime() == *shared
                    &&& c.backend().calls() == Seq::<Call<P>>::empty()
                    &&& c.backend().deeds() == Seq::<Deed>::empty()
                    &&& in_step(
                        id@,
                        Seq::empty(),
                        c.clock(),
                        c.lamport(),
                        c.seq(),
                        c.backend().recorded(),
                    )
                    &&& (*final(c.clock_cell()))@ == r.world().clock()
                    &&& (*final(c.lamport_cell())).0 == r.world().lamport()
                    &&& *final(c.seq_cell()) == r.world().seq()
                    &&& &*final(c.backend_cell()) == &r.backend()
                },
    {
        let mut actor = actor;
        let mut world = WorldLine::new(id);
        let mut backend: ProdDispatch<P> = ProdDispatch::new(shared);
        start(&mut actor, &mut world, &mut backend);
        ActorTask { actor, world, backend, heard: Ghost(Seq::empty()) }
    }

    /// The name of the actor.
    pub fn id(&self) -> (r: &ActorId)
        ensures
            r@ == self.world().name(),
    {
        self.world.id()
    }

    /// Take the next message through the actor: record the receipt, run the handler once if the
    /// message is of the actor's type, and count the message out once.
    pub fn take(&mut self, env: Envelope<P>) -> (r: Delivery) where
        A: Actor<ProdDispatch<P>>,
        P: Payload<A::Msg>,

        ensures
            final(self).world().name() == old(self).world().name(),
            r == if !old(self).world().room_for(env@.stamp) {
                Delivery::Exhausted
            } else if env.msg.carried() is None {
                Delivery::WrongType
            } else {
                Delivery::Handled
            },
            r == Delivery::Exhausted ==> *final(self) == *old(self),
            r != Delivery::Exhausted ==> final(self).heard() == old(self).heard().push(env@),
            r == Delivery::WrongType ==> {
                &&& final(self).actor() == old(self).actor()
                &&& final(self).world().clock() == received(
                    old(self).world().clock(),
                    old(self).world().name(),
                    env@.stamp.vclock,
                )
                &&& final(self).world().lamport() == larger(
                    old(self).world().lamport(),
                    env@.stamp.lamport,
                ) + 1
                &&& final(self).world().seq() == old(self).world().seq() + 1
                &&& final(self).backend().runtime() == old(self).backend().runtime()
                &&& final(self).backend().issued() == old(self).backend().issued()
                &&& final(self).backend().sent() == old(self).backend().sent()
                &&& final(self).backend().recorded() == old(self).backend().recorded().push(
                    recv_model(
                        old(self).world().name(),
                        final(self).world().seq(),
                        final(self).world().clock(),
                        final(self).world().lamport(),
                        env@.stamp,
                    ),
                )
                &&& final(self).backend().calls() == old(self).backend().calls().push(
                    Call::Recorded(final(self).backend().recorded().last()),
                )
                &&& final(self).backend().deeds() == old(self).backend().deeds() + seq![
                    Deed::Logged(final(self).backend().recorded().last()),
                    Deed::CountedOut,
                ]
                &&& forall|events: Seq<Happening>| #[trigger]
                    old(self).has_had(events) ==> final(self).has_had(
                        events.push(Happening::Receipt(env@.stamp.vclock, env@.stamp.lamport)),
                    )
            },
            r == Delivery::Handled ==> exists|a: &mut A, c: &mut Context<ProdDispatch<P>>|
                {
                    &&& #[trigger] call_ensures(A::handle, (a, env.msg.carried()->0, c), ())
                    &&& *a == old(self).actor()
                    &&& *final(a) == final(self).actor()
                    &&& c.actor() == old(self).world().name()
                    &&& c.clock() == received(
                        old(self).world().clock(),
                        old(self).world().name(),
                        env@.stamp.vclock,
                    )
                    &&& c.lamport() == larger(old(self).world().lamport(), env@.stamp.lamport) + 1
                    &&& c.seq() == old(self).world().seq() + 1
                    &&& c.backend().runtime() == old(self).backend().runtime()
                    &&& c.backend().issued() == old(self).backend().issued()
                    &&& c.backend().sent() == old(self).backend().sent()
                    &&& c.backend().recorded() == old(self).backend().recorded().push(
                        recv_model(
                            old(self).world().name(),
                            c.seq(),
                            c.clock(),
                            c.lamport(),
                            env@.stamp,
                        ),
                    )
                    &&& c.backend().calls() == old(self).backend().calls().push(
                        Call::Recorded(c.backend().recorded().last()),
                    )
                    &&& c.backend().deeds() == old(self).backend().deeds().push(
                        Deed::Logged(c.backend().recorded().last()),
                    )
                    &&& forall|events: Seq<Happening>| #[trigger]
                        old(self).has_had(events) ==> in_step(
                            old(self).world().name(),
                            events.push(Happening::Receipt(env@.stamp.vclock, env@.stamp.lamport)),
                            c.clock(),
                            c.lamport(),
                            c.seq(),
                            c.backend().recorded(),
                        )
                    &&& (*final(c.clock_cell()))@ == final(self).world().clock()
                    &&& (*final(c.lamport_cell())).0 == final(self).world().lamport()
                    &&& *final(c.seq_cell()) == final(self).world().seq()
                    &&& final(self).backend().runtime() == (*final(c.backend_cell())).runtime()
                    &&& final(self).backend().issued() == (*final(c.backend_cell())).issued()
                    &&& final(self).backend().sent() == (*final(c.backend_cell())).sent()
                    &&& final(self).backend().calls() == (*final(c.backend_cell())).calls()
                    &&& final(self).backend().recorded() == (*final(c.backend_cell())).recorded()
                    &&& final(self).backend().deeds() == (*final(c.backend_cell())).deeds().push(
                        Deed::CountedOut,
                    )
                },
    {
        let ghost model = env@;
        let r = receive(&mut self.actor, &mut self.world, &mut self.backend, env);
        if r != Delivery::Exhausted {
            self.heard = Ghost(self.heard@.push(model));
        }
        r
    }
}

/// What is recorded for an actor of a running system counts up: its events are numbered from one
/// without gap or repeat, the own component of each clock is the number of the event, and every
/// event is strictly after all that were recorded before it. No message can have been sent with
/// knowledge of events of the actor that were still to come.
pub proof fn a_task_records_in_order<A, P>(task: ActorTask<A, P>, events: Seq<Happening>)
    requires
        task.has_had(events),
        events.len() < u64::MAX,
        forall|i: int|
            0 <= i < events.len() ==> ((#[trigger] events[i]) matches Happening::Receipt(stamp, _)
                ==> component(stamp, task.world().name()) <= i),
    ensures
        forall|i: int|
            0 <= i < task.backend().recorded().len() ==> {
                &&& (#[trigger] task.backend().recorded()[i]).actor == task.world().name()
                &&& task.backend().recorded()[i].seq == i + 1
                &&& component(task.backend().recorded()[i].vclock, task.world().name()) == i + 1
            },
        forall|i: int, j: int|
            0 <= i < j < task.backend().recorded().len() ==> {
                let (e, f) = (
                    #[trigger] task.backend().recorded()[i],
                    #[trigger] task.backend().recorded()[j],
                );
                clock_lt(e.vclock, f.vclock) && e.lamport < f.lamport
            },
{
    recorded_events_count_up(
        task.world().name(),
        events,
        task.world().clock(),
        task.world().lamport(),
        task.world().seq(),
        task.backend().recorded(),
    );
}

} // verus!
