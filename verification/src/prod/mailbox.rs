//! The mailbox of the production executor: an unbounded channel.

use crate::envelope::Envelope;
use crate::mailbox::{Mailbox, MailboxTx};
use crate::prod::channel::{send_on, sent_on};
use tokio::sync::mpsc::{unbounded_channel, UnboundedReceiver, UnboundedSender};
use vstd::prelude::*;

verus! {

/// The baseline mailbox. Actors depend on the `Mailbox` traits alone, so that another flavor
/// can take its place.
pub struct TokioMailbox;

/// The producer half.
#[verifier::reject_recursive_types(P)]
pub struct TokioTx<P>(UnboundedSender<Envelope<P>>);

/// The consumer half.
#[verifier::reject_recursive_types(P)]
pub struct TokioRx<P>(pub UnboundedReceiver<Envelope<P>>);

impl<P> TokioTx<P> {
    /// The sending half of the channel.
    pub closed spec fn channel(&self) -> UnboundedSender<Envelope<P>> {
        self.0
    }
}

impl<P> Clone for TokioTx<P> {
    fn clone(&self) -> (r: Self)
        ensures
            r == *self,
    {
        TokioTx(self.0.clone())
    }
}

impl<P: Send + 'static> MailboxTx<P> for TokioTx<P> {
    fn try_send(&self, env: Envelope<P>) -> (r: Result<(), Envelope<P>>)
        ensures
            sent_on(self.channel(), env, r),
    {
        send_on(&self.0, env)
    }
}

impl<P: Send + 'static> Mailbox<P> for TokioMailbox {
    type Tx = TokioTx<P>;

    type Rx = TokioRx<P>;

    /// The two halves of one fresh channel.
    fn unbounded() -> (r: (TokioTx<P>, TokioRx<P>))
        ensures
            call_ensures(unbounded_channel::<Envelope<P>>, (), (r.0.channel(), r.1.0)),
    {
        let (tx, rx) = unbounded_channel();
        (TokioTx(tx), TokioRx(rx))
    }
}

} // verus!
