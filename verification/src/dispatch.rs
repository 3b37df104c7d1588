//! The backend that a context delegates to.

use crate::envelope::Envelope;
use crate::log::{CausalEvent, EventModel};
use crate::mailbox::Sink;
use vstd::prelude::*;

verus! {

/// One call of a backend, with what it was given or gave.
#[verifier::reject_recursive_types(P)]
pub enum Call<P> {
    /// A message number was handed out.
    Numbered(u64),
    /// An event was recorded.
    Recorded(EventModel),
    /// An envelope was given for delivery to a target.
    Delivered(Sink<P>, Envelope<P>),
}

/// A step that a backend takes on what tasks share.
pub enum Deed {
    /// A message number is taken from the shared counter.
    Numbered(u64),
    /// An event is sent to the log.
    Logged(EventModel),
    /// A message is counted as in flight.
    CountedIn,
    /// The target takes the message.
    HandedOver,
    /// The target handed the message back, and it is counted out.
    Refused,
    /// An actor is done with a message, and it is counted out.
    CountedOut,
}

/// The runtime behind a `Context`. A production backend writes events to the log and delivers
/// live; a replay backend collects both for the replay driver.
pub trait Dispatch<P> {
    /// All calls, in the order in which they were made.
    open spec fn calls(&self) -> Seq<Call<P>> {
        arbitrary()
    }

    /// The message numbers that were handed out, in order.
    open spec fn issued(&self) -> Seq<u64> {
        arbitrary()
    }

    /// The events that were recorded, in order.
    open spec fn recorded(&self) -> Seq<EventModel> {
        arbitrary()
    }

    /// The envelopes that were given for delivery, in order, each with its target.
    open spec fn sent(&self) -> Seq<(Sink<P>, Envelope<P>)> {
        arbitrary()
    }

    /// The steps that the backend took on what tasks share, in order.
    open spec fn deeds(&self) -> Seq<Deed> {
        arbitrary()
    }

    /// The backend, as it is, may take the `steps` for `call`.
    open spec fn serves(&self, call: Call<P>, steps: Seq<Deed>) -> bool {
        true
    }

    /// A number for the next message.
    fn next_msg_id(&mut self) -> (r: u64)
        ensures
            final(self).calls() == old(self).calls().push(Call::Numbered(r)),
            final(self).issued() == old(self).issued().push(r),
            exists|steps: Seq<Deed>| #[trigger]
                old(self).serves(Call::Numbered(r), steps) && final(self).deeds()
                    == old(self).deeds() + steps,
            final(self).recorded() == old(self).recorded(),
            final(self).sent() == old(self).sent(),
    ;

    /// Write an event to the log.
    fn record(&mut self, event: CausalEvent)
        ensures
            final(self).calls() == old(self).calls().push(Call::Recorded(event@)),
            final(self).issued() == old(self).issued(),
            final(self).recorded() == old(self).recorded().push(event@),
            exists|steps: Seq<Deed>| #[trigger]
                old(self).serves(Call::Recorded(event@), steps) && final(self).deeds()
                    == old(self).deeds() + steps,
            final(self).sent() == old(self).sent(),
    ;

    /// Deliver an envelope.
    fn deliver(&mut self, sink: &Sink<P>, env: Envelope<P>)
        ensures
            final(self).calls() == old(self).calls().push(Call::Delivered(*sink, env)),
            final(self).issued() == old(self).issued(),
            final(self).recorded() == old(self).recorded(),
            final(self).sent() == old(self).sent().push((*sink, env)),
            exists|steps: Seq<Deed>| #[trigger]
                old(self).serves(Call::Delivered(*sink, env), steps) && final(self).deeds()
                    == old(self).deeds() + steps,
    ;
}

} // verus!
