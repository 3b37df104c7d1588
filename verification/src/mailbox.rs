//! Mailboxes: where envelopes are delivered.

use crate::envelope::Envelope;
use std::sync::Arc;
use vstd::prelude::*;

verus! {

/// Producer half of a mailbox. Cheap to clone.
pub trait MailboxTx<P>: Send + Sync + Clone + 'static {
    /// Enqueue without blocking. A closed or full mailbox hands the envelope back.
    fn try_send(&self, env: Envelope<P>) -> (r: Result<(), Envelope<P>>)
        ensures
            r matches Err(back) ==> back == env,
    ;
}

/// A flavor of mailbox. The consumer half belongs to exactly one actor task.
pub trait Mailbox<P>: 'static {
    type Tx: MailboxTx<P>;

    type Rx: Send + 'static;

    /// A fresh mailbox without a bound.
    fn unbounded() -> (Self::Tx, Self::Rx);
}

/// A delivery target whose mailbox type is forgotten.
pub trait AnySink<P>: Send + Sync {
    /// `r` is an answer that the target may give to `env`.
    open spec fn answers(&self, env: Envelope<P>, r: Result<(), Envelope<P>>) -> bool {
        true
    }

    /// Deliver an envelope, or hand it back.
    fn deliver(&self, env: Envelope<P>) -> (r: Result<(), Envelope<P>>)
        ensures
            r matches Err(back) ==> back == env,
            self.answers(env, r),
    ;
}

impl<P, T: MailboxTx<P>> AnySink<P> for T {
    /// The answers of the mailbox.
    open spec fn answers(&self, env: Envelope<P>, r: Result<(), Envelope<P>>) -> bool {
        call_ensures(T::try_send, (self, env), r)
    }

    fn deliver(&self, env: Envelope<P>) -> (r: Result<(), Envelope<P>>) {
        self.try_send(env)
    }
}

/// A shared handle to a delivery target.
pub type Sink<P> = Arc<Box<dyn AnySink<P>>>;

} // verus!
