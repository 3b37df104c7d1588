//! What an actor's task does between two waits.

use crate::actor::{in_step, lemma_in_step, received, Actor, Happening, WorldLine};
use crate::addr::Addr;
use crate::clock::{larger, ticked};
use crate::context::Context;
use crate::dispatch::{Call, Deed, Dispatch};
use crate::envelope::{Envelope, EnvelopeStamp, Payload};
use crate::event::{emit_model, recv_model};
use crate::prod::dispatch::{delivery_steps, ProdDispatch};
use crate::prod::quiescence::{made, Move};
use vstd::prelude::*;

verus! {

/// What became of a delivered message.
#[derive(Clone, Copy, Debug, PartialEq, Eq, Structural)]
pub enum Delivery {
    /// The actor received and handled it.
    Handled,
    /// The actor received it, but it is of another type than the actor's: a programming
    /// error, counted out and skipped.
    WrongType,
    /// A counter is at its limit; nothing was done.
    Exhausted,
}

/// Run an actor's `started`, with a context over its world-line and the backend. What that
/// leaves in the context is what the world-line and the backend are then.
pub fn start<A, P>(actor: &mut A, world: &mut WorldLine, backend: &mut ProdDispatch<P>) where
    A: Actor<ProdDispatch<P>>,

    ensures
        final(world).name() == old(world).name(),
        exists|a: &mut A, c: &mut Context<ProdDispatch<P>>|
            {
                &&& #[trigger] call_ensures(A::started, (a, c), ())
                &&& *a == *old(actor)
                &&& *final(a) == *final(actor)
                &&& c.actor() == old(world).name()
                &&& c.clock() == old(world).clock()
                &&& c.lamport() == old(world).lamport()
                &&& c.seq() == old(world).seq()
                &&& c.backend() == &*old(backend)
                &&& (*final(c.clock_cell()))@ == final(world).clock()
                &&& (*final(c.lamport_cell())).0 == final(world).lamport()
                &&& *final(c.seq_cell()) == final(world).seq()
                &&& &*final(c.backend_cell()) == &*final(backend)
            },
{
    let mut ctx = world.context(backend);
    actor.started(&mut ctx);
}

/// Stamp and record the receipt of a delivered message, and take the message out. `None` if it
/// is not of the type `M`: it counts as received all the same.
pub fn accept<M, P>(
    world: &mut WorldLine,
    backend: &mut ProdDispatch<P>,
    env: Envelope<P>,
) -> (r: Option<M>) where P: Payload<M>
    requires
        old(world).room_for(env@.stamp),
    ensures
        r == env.msg.carried(),
        final(world).name() == old(world).name(),
        final(world).clock() == received(old(world).clock(), old(world).name(), env@.stamp.vclock),
        final(world).lamport() == larger(old(world).lamport(), env@.stamp.lamport) + 1,
        final(world).seq() == old(world).seq() + 1,
        final(backend).runtime() == old(backend).runtime(),
        final(backend).calls() == old(backend).calls().push(
            Call::Recorded(final(backend).recorded().last()),
        ),
        final(backend).deeds() == old(backend).deeds().push(
            Deed::Logged(final(backend).recorded().last()),
        ),
        final(backend).issued() == old(backend).issued(),
        final(backend).sent() == old(backend).sent(),
        final(backend).recorded() == old(backend).recorded().push(
            recv_model(
                old(world).name(),
                final(world).seq(),
                final(world).clock(),
                final(world).lamport(),
                env@.stamp,
            ),
        ),
        forall|events: Seq<Happening>| #[trigger]
            in_step(
                old(world).name(),
                events,
                old(world).clock(),
                old(world).lamport(),
                old(world).seq(),
                old(backend).recorded(),
            ) ==> in_step(
                old(world).name(),
                events.push(Happening::Receipt(env@.stamp.vclock, env@.stamp.lamport)),
                final(world).clock(),
                final(world).lamport(),
                final(world).seq(),
                final(backend).recorded(),
            ),
{
    let event = world.receive(&env);
    backend.record(event);
    proof {
        assert forall|events: Seq<Happening>| #[trigger]
            in_step(
                old(world).name(),
                events,
                old(world).clock(),
                old(world).lamport(),
                old(world).seq(),
                old(backend).recorded(),
            ) implies in_step(
            old(world).name(),
            events.push(Happening::Receipt(env@.stamp.vclock, env@.stamp.lamport)),
            world.clock(),
            world.lamport(),
            world.seq(),
            backend.recorded(),
        ) by {
            lemma_in_step(
                old(world).name(),
                events,
                Happening::Receipt(env@.stamp.vclock, env@.stamp.lamport),
                old(world).clock(),
                old(world).lamport(),
                old(world).seq(),
                old(backend).recorded(),
                event@,
            );
        }
    }
    match env.msg.unwrap_msg() {
        Ok(msg) => Some(msg),
        Err(_) => None,
    }
}

/// Take a delivered message through an actor: stamp and record the receipt, hand the message
/// to the handler, and count it out. The messages that the handler sends are counted in by
/// then.
///
/// The handler finds the receipt recorded and its context stamped with it; what it leaves in the
/// context is what the world-line and the backend are then.
pub fn receive<A, P>(
    actor: &mut A,
    world: &mut WorldLine,
    backend: &mut ProdDispatch<P>,
    env: Envelope<P>,
) -> (r: Delivery) where A: Actor<ProdDispatch<P>>, P: Payload<A::Msg>
    ensures
        final(world).name() == old(world).name(),
        r == if !old(world).room_for(env@.stamp) {
            Delivery::Exhausted
        } else if env.msg.carried() is None {
            Delivery::WrongType
        } else {
            Delivery::Handled
        },
        r != Delivery::Handled ==> *final(actor) == *old(actor),
        r == Delivery::Exhausted ==> *final(world) == *old(world) && *final(backend) == *old(
            backend,
        ),
        r == Delivery::WrongType ==> {
            &&& final(world).clock() == received(
                old(world).clock(),
                old(world).name(),
                env@.stamp.vclock,
            )
            &&& final(world).lamport() == larger(old(world).lamport(), env@.stamp.lamport) + 1
            &&& final(world).seq() == old(world).seq() + 1
            &&& final(backend).runtime() == old(backend).runtime()
            &&& final(backend).calls() == old(backend).calls().push(
                Call::Recorded(final(backend).recorded().last()),
            )
            &&& final(backend).deeds() == old(backend).deeds() + seq![
                Deed::Logged(final(backend).recorded().last()),
                Deed::CountedOut,
            ]
            &&& final(backend).issued() == old(backend).issued()
            &&& final(backend).sent() == old(backend).sent()
            &&& final(backend).recorded() == old(backend).recorded().push(
                recv_model(
                    old(world).name(),
                    final(world).seq(),
                    final(world).clock(),
                    final(world).lamport(),
                    env@.stamp,
                ),
            )
            &&& forall|events: Seq<Happening>| #[trigger]
                in_step(
                    old(world).name(),
                    events,
                    old(world).clock(),
                    old(world).lamport(),
                    old(world).seq(),
                    old(backend).recorded(),
                ) ==> in_step(
                    old(world).name(),
                    events.push(Happening::Receipt(env@.stamp.vclock, env@.stamp.lamport)),
                    final(world).clock(),
                    final(world).lamport(),
                    final(world).seq(),
                    final(backend).recorded(),
                )
        },
        r == Delivery::Handled ==> exists|a: &mut A, c: &mut Context<ProdDispatch<P>>|
            {
                &&& #[trigger] call_ensures(A::handle, (a, env.msg.carried()->0, c), ())
                &&& *a == *old(actor)
                &&& *final(a) == *final(actor)
                &&& c.actor() == old(world).name()
                &&& c.clock() == received(old(world).clock(), old(world).name(), env@.stamp.vclock)
                &&& c.lamport() == larger(old(world).lamport(), env@.stamp.lamport) + 1
                &&& c.seq() == old(world).seq() + 1
                &&& c.backend().runtime() == old(backend).runtime()
                &&& c.backend().calls() == old(backend).calls().push(
                    Call::Recorded(c.backend().recorded().last()),
                )
                &&& c.backend().deeds() == old(backend).deeds().push(
                    Deed::Logged(c.backend().recorded().last()),
                )
                &&& c.backend().issued() == old(backend).issued()
                &&& c.backend().sent() == old(backend).sent()
                &&& c.backend().recorded() == old(backend).recorded().push(
                    recv_model(old(world).name(), c.seq(), c.clock(), c.lamport(), env@.stamp),
                )
                &&& forall|events: Seq<Happening>| #[trigger]
                    in_step(
                        old(world).name(),
                        events,
                        old(world).clock(),
                        old(world).lamport(),
                        old(world).seq(),
                        old(backend).recorded(),
                    ) ==> in_step(
                        old(world).name(),
                        events.push(Happening::Receipt(env@.stamp.vclock, env@.stamp.lamport)),
                        c.clock(),
                        c.lamport(),
                        c.seq(),
                        c.backend().recorded(),
                    )
                &&& (*final(c.clock_cell()))@ == final(world).clock()
                &&& (*final(c.lamport_cell())).0 == final(world).lamport()
                &&& *final(c.seq_cell()) == final(world).seq()
                &&& final(backend).runtime() == (*final(c.backend_cell())).runtime()
                &&& final(backend).calls() == (*final(c.backend_cell())).calls()
                &&& final(backend).issued() == (*final(c.backend_cell())).issued()
                &&& final(backend).recorded() == (*final(c.backend_cell())).recorded()
                &&& final(backend).sent() == (*final(c.backend_cell())).sent()
                &&& final(backend).deeds() == (*final(c.backend_cell())).deeds().push(
                    Deed::CountedOut,
                )
            },
        r != Delivery::Exhausted ==> exists|before: usize| #[trigger]
            made(final(backend).runtime(), Move::CountOut, before),
{
    if !world.can_receive(&env) {
        return Delivery::Exhausted;
    }
    let delivery = match accept(world, backend, env) {
        Some(msg) => {
            let mut ctx = world.context(backend);
            actor.handle(msg, &mut ctx);
            Delivery::Handled
        },
        None => Delivery::WrongType,
    };
    backend.count_out();
    delivery
}

/// Send a message from outside the actors: an event on the world-line of whoever sends it.
/// False, with nothing done, if a counter is at its limit.
pub fn send_external<M, P>(
    world: &mut WorldLine,
    backend: &mut ProdDispatch<P>,
    to: &Addr<M, P>,
    msg: M,
) -> (r: bool) where P: Payload<M>
    ensures
        final(world).name() == old(world).name(),
        r == old(world).has_room(),
        !r ==> *final(world) == *old(world) && *final(backend) == *old(backend),
        r ==> {
            let sent = final(backend).sent();
            &&& final(world).clock() == ticked(old(world).clock(), old(world).name())
            &&& final(world).lamport() == old(world).lamport() + 1
            &&& final(world).seq() == old(world).seq() + 1
            &&& final(backend).issued().len() == old(backend).issued().len() + 1
            &&& final(backend).issued().drop_last() == old(backend).issued()
            &&& sent.len() == old(backend).sent().len() + 1
            &&& sent.drop_last() == old(backend).sent()
            &&& sent.last().0 == to.target()
            &&& sent.last().1.msg.carried() == Some(msg)
            &&& sent.last().1@.stamp == (EnvelopeStamp {
                vclock: final(world).clock(),
                lamport: final(world).lamport(),
                msg_id: final(backend).issued().last(),
                src: old(world).name(),
                dst: to.name(),
            })
            &&& final(backend).recorded() == old(backend).recorded().push(
                emit_model(old(world).name(), final(world).seq(), sent.last().1@.stamp),
            )
            &&& final(backend).calls() == old(backend).calls() + seq![
                Call::Numbered(final(backend).issued().last()),
                Call::Recorded(final(backend).recorded().last()),
                Call::Delivered(to.target(), sent.last().1),
            ]
            &&& exists|x: Result<(), Envelope<P>>| #[trigger]
                to.target().answers(sent.last().1, x) && final(backend).deeds() == old(
                    backend,
                ).deeds() + seq![
                    Deed::Numbered(final(backend).issued().last()),
                    Deed::Logged(final(backend).recorded().last()),
                ] + delivery_steps(x is Ok)
            &&& forall|events: Seq<Happening>| #[trigger]
                in_step(
                    old(world).name(),
                    events,
                    old(world).clock(),
                    old(world).lamport(),
                    old(world).seq(),
                    old(backend).recorded(),
                ) ==> in_step(
                    old(world).name(),
                    events.push(Happening::Local),
                    final(world).clock(),
                    final(world).lamport(),
                    final(world).seq(),
                    final(backend).recorded(),
                )
        },
{
    if !world.can_act() {
        return false;
    }
    let mut ctx = world.context(backend);
    ctx.send(to, msg);
    ctx.finish();
    true
}

} // verus!
