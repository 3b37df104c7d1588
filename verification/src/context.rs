//! The actor's window onto the runtime.

use crate::actor::{in_step, lemma_in_step, Happening};
use crate::addr::Addr;
use crate::clock::{component, ticked, ActorId, Lamport, VectorClock};
use crate::dispatch::{Call, Deed, Dispatch};
use crate::envelope::{Envelope, EnvelopeStamp, Payload};
use crate::event::{compute_event, compute_model, emit_event, emit_model};
use vstd::prelude::*;

verus! {

/// What a handler may do: send messages and record local events. The rules that stamp them
/// are written here, once; what happens to the results is up to the backend.
#[verifier::reject_recursive_types(B)]
pub struct Context<'a, B: ?Sized> {
    id: &'a ActorId,
    clock: &'a mut VectorClock,
    lamport: &'a mut Lamport,
    seq: &'a mut u64,
    backend: &'a mut B,
}

impl<'a, B: ?Sized> Context<'a, B> {
    /// The clock that the context advances.
    pub closed spec fn clock_cell(&self) -> &'a mut VectorClock {
        self.clock
    }

    /// The Lamport stamp that the context advances.
    pub closed spec fn lamport_cell(&self) -> &'a mut Lamport {
        self.lamport
    }

    /// The event counter that the context advances.
    pub closed spec fn seq_cell(&self) -> &'a mut u64 {
        self.seq
    }

    /// The backend that the context writes to.
    pub closed spec fn backend_cell(&self) -> &'a mut B {
        self.backend
    }

    /// The name of the actor.
    pub closed spec fn actor(&self) -> Seq<char> {
        self.id@
    }

    /// The actor's clock.
    pub open spec fn clock(&self) -> Map<Seq<char>, u64> {
        self.clock_cell()@
    }

    /// The actor's Lamport stamp.
    pub open spec fn lamport(&self) -> u64 {
        self.lamport_cell().0
    }

    /// How many events the actor has had.
    pub open spec fn seq(&self) -> u64 {
        *self.seq_cell()
    }

    /// The backend.
    pub open spec fn backend(&self) -> &B {
        &*self.backend_cell()
    }

    /// The counters of the actor are below their limit.
    pub open spec fn has_room(&self) -> bool {
        &&& component(self.clock(), self.actor()) < u64::MAX
        &&& self.lamport() < u64::MAX
        &&& self.seq() < u64::MAX
    }

    /// A context for the actor `id` over its stamps and a backend.
    pub fn new(
        id: &'a ActorId,
        clock: &'a mut VectorClock,
        lamport: &'a mut Lamport,
        seq: &'a mut u64,
        backend: &'a mut B,
    ) -> (r: Self)
        ensures
            r.actor() == id@,
            r.clock() == old(clock)@,
            r.lamport() == old(lamport).0,
            r.seq() == *old(seq),
            r.backend() == &*old(backend),
            *final(r.clock_cell()) == *final(clock),
            *final(r.lamport_cell()) == *final(lamport),
            *final(r.seq_cell()) == *final(seq),
            &*final(r.backend_cell()) == &*final(backend),
    {
        Context { id, clock, lamport, seq, backend }
    }

    /// The name of the actor.
    pub fn id(&self) -> (r: &ActorId)
        ensures
            r@ == self.actor(),
    {
        self.id
    }

    /// End the context: what it stands for stays as it is now.
    pub fn finish(self)
        ensures
            *final(self.clock_cell()) == *self.clock_cell(),
            *final(self.lamport_cell()) == *self.lamport_cell(),
            *final(self.seq_cell()) == *self.seq_cell(),
            &*final(self.backend_cell()) == &*self.backend_cell(),
    {
    }

    /// Send `msg` to `to`. A local event: advance the own clock, Lamport stamp and counter,
    /// stamp the envelope with them, record `emit`, and then give the envelope to the backend.
    pub fn send<M, P>(&mut self, to: &Addr<M, P>, msg: M) where P: Payload<M>, B: Dispatch<P>
        requires
            old(self).has_room(),
        ensures
            final(self).actor() == old(self).actor(),
            final(self).clock() == ticked(old(self).clock(), old(self).actor()),
            final(self).lamport() == old(self).lamport() + 1,
            final(self).seq() == old(self).seq() + 1,
            final(self).backend().issued().len() == old(self).backend().issued().len() + 1,
            final(self).backend().issued().drop_last() == old(self).backend().issued(),
            final(self).backend().sent().len() == old(self).backend().sent().len() + 1,
            final(self).backend().sent().drop_last() == old(self).backend().sent(),
            final(self).backend().sent().last().0 == to.target(),
            final(self).backend().sent().last().1.msg.carried() == Some(msg),
            final(self).backend().sent().last().1@.stamp == (EnvelopeStamp {
                vclock: final(self).clock(),
                lamport: final(self).lamport(),
                msg_id: final(self).backend().issued().last(),
                src: old(self).actor(),
                dst: to.name(),
            }),
            final(self).backend().recorded() == old(self).backend().recorded().push(
                emit_model(
                    old(self).actor(),
                    final(self).seq(),
                    final(self).backend().sent().last().1@.stamp,
                ),
            ),
            final(self).backend().calls() == old(self).backend().calls() + seq![
                Call::Numbered(final(self).backend().issued().last()),
                Call::Recorded(final(self).backend().recorded().last()),
                Call::Delivered(to.target(), final(self).backend().sent().last().1),
            ],
            exists|x: &B, y: &B, a: Seq<Deed>, b: Seq<Deed>, c: Seq<Deed>|
                {
                    &&& #[trigger] old(self).backend().serves(
                        Call::Numbered(final(self).backend().issued().last()),
                        a,
                    )
                    &&& #[trigger] x.serves(
                        Call::Recorded(final(self).backend().recorded().last()),
                        b,
                    )
                    &&& #[trigger] y.serves(
                        Call::Delivered(to.target(), final(self).backend().sent().last().1),
                        c,
                    )
                    &&& final(self).backend().deeds() == old(self).backend().deeds() + a + b + c
                },
            forall|events: Seq<Happening>| #[trigger]
                in_step(
                    old(self).actor(),
                    events,
                    old(self).clock(),
                    old(self).lamport(),
                    old(self).seq(),
                    old(self).backend().recorded(),
                ) ==> in_step(
                    old(self).actor(),
                    events.push(Happening::Local),
                    final(self).clock(),
                    final(self).lamport(),
                    final(self).seq(),
                    final(self).backend().recorded(),
                ),
            *final(final(self).clock_cell()) == *final(old(self).clock_cell()),
            *final(final(self).lamport_cell()) == *final(old(self).lamport_cell()),
            *final(final(self).seq_cell()) == *final(old(self).seq_cell()),
            &*final(final(self).backend_cell()) == &*final(old(self).backend_cell()),
    {
        self.clock.increment(self.id);
        let lam: u64 = self.lamport.tick();
        *self.seq = *self.seq + 1;
        let msg_id: u64 = self.backend.next_msg_id();
        let env = Envelope {
            msg: P::wrap(msg),
            vclock: self.clock.clone(),
            lamport: Lamport(lam),
            msg_id,
            src: self.id.clone(),
            dst: to.id().clone(),
        };
        self.backend.record(emit_event(self.id, *self.seq, &env));
        self.backend.deliver(to.sink(), env);
        assert(self.backend.issued().drop_last() =~= old(self).backend().issued());
        assert(self.backend.sent().drop_last() =~= old(self).backend().sent());
        assert(self.backend.calls() =~= old(self).backend().calls() + seq![
            Call::Numbered(self.backend.issued().last()),
            Call::Recorded(self.backend.recorded().last()),
            Call::Delivered(to.target(), self.backend.sent().last().1),
        ]);
        proof {
            assert forall|events: Seq<Happening>| #[trigger]
                in_step(
                    old(self).actor(),
                    events,
                    old(self).clock(),
                    old(self).lamport(),
                    old(self).seq(),
                    old(self).backend().recorded(),
                ) implies in_step(
                old(self).actor(),
                events.push(Happening::Local),
                self.clock(),
                self.lamport(),
                self.seq(),
                self.backend().recorded(),
            ) by {
                lemma_in_step(
                    old(self).actor(),
                    events,
                    Happening::Local,
                    old(self).clock(),
                    old(self).lamport(),
                    old(self).seq(),
                    old(self).backend().recorded(),
                    self.backend().recorded().last(),
                );
            }
        }
    }

    /// Record a local event.
    pub fn compute<P>(&mut self) where B: Dispatch<P>
        requires
            old(self).has_room(),
        ensures
            final(self).actor() == old(self).actor(),
            final(self).clock() == ticked(old(self).clock(), old(self).actor()),
            final(self).lamport() == old(self).lamport() + 1,
            final(self).seq() == old(self).seq() + 1,
            final(self).backend().calls() == old(self).backend().calls().push(
                Call::Recorded(final(self).backend().recorded().last()),
            ),
            exists|steps: Seq<Deed>| #[trigger]
                old(self).backend().serves(
                    Call::Recorded(final(self).backend().recorded().last()),
                    steps,
                ) && final(self).backend().deeds() == old(self).backend().deeds() + steps,
            final(self).backend().issued() == old(self).backend().issued(),
            final(self).backend().sent() == old(self).backend().sent(),
            final(self).backend().recorded() == old(self).backend().recorded().push(
                compute_model(
                    old(self).actor(),
                    final(self).seq(),
                    final(self).clock(),
                    final(self).lamport(),
                ),
            ),
            forall|events: Seq<Happening>| #[trigger]
                in_step(
                    old(self).actor(),
                    events,
                    old(self).clock(),
                    old(self).lamport(),
                    old(self).seq(),
                    old(self).backend().recorded(),
                ) ==> in_step(
                    old(self).actor(),
                    events.push(Happening::Local),
                    final(self).clock(),
                    final(self).lamport(),
                    final(self).seq(),
                    final(self).backend().recorded(),
                ),
            *final(final(self).clock_cell()) == *final(old(self).clock_cell()),
            *final(final(self).lamport_cell()) == *final(old(self).lamport_cell()),
            *final(final(self).seq_cell()) == *final(old(self).seq_cell()),
            &*final(final(self).backend_cell()) == &*final(old(self).backend_cell()),
    {
        self.clock.increment(self.id);
        let lam: u64 = self.lamport.tick();
        *self.seq = *self.seq + 1;
        self.backend.record(compute_event(self.id, *self.seq, self.clock, lam));
        proof {
            assert forall|events: Seq<Happening>| #[trigger]
                in_step(
                    old(self).actor(),
                    events,
                    old(self).clock(),
                    old(self).lamport(),
                    old(self).seq(),
                    old(self).backend().recorded(),
                ) implies in_step(
                old(self).actor(),
                events.push(Happening::Local),
                self.clock(),
                self.lamport(),
                self.seq(),
                self.backend().recorded(),
            ) by {
                lemma_in_step(
                    old(self).actor(),
                    events,
                    Happening::Local,
                    old(self).clock(),
                    old(self).lamport(),
                    old(self).seq(),
                    old(self).backend().recorded(),
                    self.backend().recorded().last(),
                );
            }
        }
    }
}

impl<'a, B: ?Sized> Context<'a, B> {
    /// There is room for an event unless a counter that it moves is at its limit.
    pub proof fn where_there_is_room(&self)
        ensures
            self.has_room() <==> {
                &&& self.seq() < u64::MAX
                &&& self.lamport() < u64::MAX
                &&& self.clock().contains_key(self.actor()) ==> self.clock()[self.actor()]
                    < u64::MAX
            },
    {
    }
}

} // verus!
