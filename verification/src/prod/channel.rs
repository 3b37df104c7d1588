//! The channels and the signal that tasks share.

use crate::prod::shared::counted_out;
use std::sync::atomic::AtomicUsize;
use tokio::sync::mpsc::{UnboundedReceiver, UnboundedSender};
use tokio::sync::Notify;
use vstd::prelude::*;

verus! {

/// The sending half of a channel, opaque here.
#[verifier::external_type_specification]
#[verifier::external_body]
#[verifier::reject_recursive_types(T)]
pub struct ExUnboundedSender<T>(tokio::sync::mpsc::UnboundedSender<T>);

/// The receiving half of a channel, opaque here.
#[verifier::external_type_specification]
#[verifier::external_body]
#[verifier::reject_recursive_types(T)]
pub struct ExUnboundedReceiver<T>(tokio::sync::mpsc::UnboundedReceiver<T>);

/// A signal between tasks, opaque here.
#[verifier::external_type_specification]
#[verifier::external_body]
pub struct ExNotify(tokio::sync::Notify);

/// `tokio::sync::mpsc::unbounded_channel` makes the two halves of a fresh channel. Nothing is
/// claimed of them: what a channel holds is shared between tasks.
pub assume_specification<T>[ tokio::sync::mpsc::unbounded_channel::<T> ]() -> (
    UnboundedSender<T>,
    UnboundedReceiver<T>,
);

/// `tokio::sync::mpsc::UnboundedSender::send` queues a value without waiting. It fails when
/// the receiver is closed or gone, and then the error holds the value that was to be sent.
/// Whether the receiver is still there depends on other tasks, and is left open.
#[verifier::external_body]
pub(crate) fn channel_send<T>(tx: &UnboundedSender<T>, value: T) -> (r: Result<(), T>)
    ensures
        r matches Err(back) ==> back == value,
{
    tx.send(value).map_err(|e| e.0)
}

/// `r` is what came of sending `value` on the channel of `tx`.
pub closed spec fn sent_on<T>(tx: UnboundedSender<T>, value: T, r: Result<(), T>) -> bool {
    call_ensures(channel_send::<T>, (&tx, value), r)
}

/// Send a value on a channel, or get it back.
pub(crate) fn send_on<T>(tx: &UnboundedSender<T>, value: T) -> (r: Result<(), T>)
    ensures
        sent_on(*tx, value, r),
        r matches Err(back) ==> back == value,
{
    channel_send(tx, value)
}

/// `Clone::clone` of a `tokio::sync::mpsc::UnboundedSender` makes another handle to the same
/// channel: the two share one channel, as two clones of an `Arc` share their value.
pub assume_specification<T>[ <tokio::sync::mpsc::UnboundedSender<T> as Clone>::clone ](
    tx: &UnboundedSender<T>,
) -> (r: UnboundedSender<T>)
    ensures
        r == *tx,
;

/// `tokio::sync::Notify::new` makes a signal that nobody has given yet.
pub assume_specification[ tokio::sync::Notify::new ]() -> Notify;

/// `tokio::sync::Notify::notify_one` wakes one waiting task, or the next one to wait. It
/// returns nothing, and whom it wakes depends on other tasks. It may be called for a counter
/// from which the last of its units was just taken, and for nothing else.
#[verifier::external_body]
#[allow(unused_variables)]
pub(crate) fn wake_one(signal: &Notify, counter: &AtomicUsize, before: usize)
    requires
        counted_out(*counter, before),
        before == 1,
{
    signal.notify_one();
}

/// The signal was given, for the counter.
pub closed spec fn signalled(signal: Notify, counter: AtomicUsize) -> bool {
    call_ensures(wake_one, (&signal, &counter, 1usize), ())
}

/// Give the signal that the last unit was taken from the counter.
pub(crate) fn give_signal(signal: &Notify, counter: &AtomicUsize, before: usize)
    requires
        counted_out(*counter, before),
        before == 1,
    ensures
        signalled(*signal, *counter),
{
    wake_one(signal, counter, before)
}

} // verus!
