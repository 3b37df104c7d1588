//! What one backend has done to the state that all tasks share.

use crate::dispatch::Deed;
use crate::envelope::Envelope;
use crate::log::CausalEvent;
use crate::mailbox::{AnySink, Sink};
use crate::prod::channel::sent_on;
use crate::prod::quiescence::{lemma_counted_out, made, Move};
use crate::prod::shared::{counted_in, next_number, number_taken, SharedRuntime};
use std::sync::Arc;
use vstd::prelude::*;

verus! {

/// A backend's hold on the shared state. There is no other way from a backend to that state, and
/// every step that is taken here is listed, in order.
pub struct Ledger {
    shared: Arc<SharedRuntime>,
    deeds: Ghost<Seq<Deed>>,
}

impl Ledger {
    /// The shared state.
    pub closed spec fn runtime(&self) -> SharedRuntime {
        *self.shared
    }

    /// The steps that were taken.
    pub closed spec fn deeds(&self) -> Seq<Deed> {
        self.deeds@
    }

    /// An empty list over the shared state.
    pub fn new(shared: Arc<SharedRuntime>) -> (r: Self)
        ensures
            r.runtime() == *shared,
            r.deeds() == Seq::<Deed>::empty(),
    {
        Ledger { shared, deeds: Ghost(Seq::empty()) }
    }

    /// Take a number from the shared counter.
    pub fn number(&mut self) -> (r: u64)
        ensures
            final(self).runtime() == old(self).runtime(),
            final(self).deeds() == old(self).deeds().push(Deed::Numbered(r)),
            exists|issued: u64| #[trigger]
                number_taken(old(self).runtime().numbers(), issued) && r == next_number(issued),
    {
        let id: u64 = self.shared.next_msg_id();
        self.deeds = Ghost(self.deeds@.push(Deed::Numbered(id)));
        id
    }

    /// Send an event on the shared channel to the log.
    pub fn log(&mut self, event: CausalEvent)
        ensures
            final(self).runtime() == old(self).runtime(),
            final(self).deeds() == old(self).deeds().push(Deed::Logged(event@)),
            exists|r: Result<(), CausalEvent>| #[trigger]
                sent_on(old(self).runtime().log(), event, r),
    {
        self.deeds = Ghost(self.deeds@.push(Deed::Logged(event@)));
        self.shared.record(event);
    }

    /// Count a message in.
    pub fn count_in(&mut self)
        ensures
            final(self).runtime() == old(self).runtime(),
            final(self).deeds() == old(self).deeds().push(Deed::CountedIn),
            exists|before: usize| #[trigger] made(old(self).runtime(), Move::CountIn, before),
    {
        self.deeds = Ghost(self.deeds@.push(Deed::CountedIn));
        self.shared.inc_in_flight();
        proof {
            let n = choose|n: usize| #[trigger] counted_in(self.runtime().flight(), n);
            assert(made(self.runtime(), Move::CountIn, n));
        }
    }

    /// Hand a message to its target, or get it back.
    pub fn hand_over<P>(&mut self, sink: &Sink<P>, env: Envelope<P>) -> (r: Result<
        (),
        Envelope<P>,
    >)
        ensures
            final(self).runtime() == old(self).runtime(),
            sink.answers(env, r),
            final(self).deeds() == if r is Ok {
                old(self).deeds().push(Deed::HandedOver)
            } else {
                old(self).deeds()
            },
    {
        let r = sink.deliver(env);
        if r.is_ok() {
            self.deeds = Ghost(self.deeds@.push(Deed::HandedOver));
        }
        r
    }

    /// Count a message out that its target handed back.
    pub fn refuse(&mut self)
        ensures
            final(self).runtime() == old(self).runtime(),
            final(self).deeds() == old(self).deeds().push(Deed::Refused),
            exists|before: usize| #[trigger] made(old(self).runtime(), Move::Refuse, before),
    {
        self.deeds = Ghost(self.deeds@.push(Deed::Refused));
        self.shared.dec_in_flight();
        proof {
            lemma_counted_out(self.runtime(), Move::Refuse);
        }
    }

    /// Count a message out that an actor is done with.
    pub fn count_out(&mut self)
        ensures
            final(self).runtime() == old(self).runtime(),
            final(self).deeds() == old(self).deeds().push(Deed::CountedOut),
            exists|before: usize| #[trigger] made(old(self).runtime(), Move::CountOut, before),
    {
        self.deeds = Ghost(self.deeds@.push(Deed::CountedOut));
        self.shared.dec_in_flight();
        proof {
            lemma_counted_out(self.runtime(), Move::CountOut);
        }
    }
}

} // verus!
