//! The state that all tasks of a running system share. What its counters hold is up to all tasks
//! together, so contracts speak of the atomic operations that were made, by `call_ensures`. How
//! often and in which order a backend makes them is in its list of steps.

use crate::log::CausalEvent;
use crate::prod::channel::{give_signal, send_on, sent_on, signalled};
use std::sync::atomic::{AtomicU64, AtomicUsize, Ordering};
use tokio::sync::mpsc::UnboundedSender;
use tokio::sync::Notify;
use vstd::prelude::*;

verus! {

/// Message numbers, the count of messages in flight, the signal that there are none, and the
/// way to the log. No locks: the two counters are atomic, and events go over a channel.
pub struct SharedRuntime {
    msg_id: AtomicU64,
    in_flight: AtomicUsize,
    quiescent: Notify,
    events: UnboundedSender<CausalEvent>,
}

/// `issued` is what the counter of message numbers held when a number was taken from it.
pub open spec fn number_taken(counter: AtomicU64, issued: u64) -> bool {
    call_ensures(AtomicU64::fetch_add, (&counter, 1u64, Ordering::Relaxed), issued)
}

/// `before` is what the counter of messages in flight held when one was counted in.
pub open spec fn counted_in(counter: AtomicUsize, before: usize) -> bool {
    call_ensures(AtomicUsize::fetch_add, (&counter, 1usize, Ordering::AcqRel), before)
}

/// `before` is what the counter of messages in flight held when one was counted out.
pub open spec fn counted_out(counter: AtomicUsize, before: usize) -> bool {
    call_ensures(AtomicUsize::fetch_sub, (&counter, 1usize, Ordering::AcqRel), before)
}

/// `n` is what the counter of messages in flight held when it was read.
pub open spec fn found_in_flight(counter: AtomicUsize, n: usize) -> bool {
    call_ensures(AtomicUsize::load, (&counter, Ordering::Acquire), n)
}

/// The number that follows `issued`, the last one handed out. Numbers start at 1 and start
/// over at 0 after the largest.
pub open spec fn next_number(issued: u64) -> u64 {
    if issued < u64::MAX {
        (issued + 1) as u64
    } else {
        0
    }
}

/// The number that follows `issued`, the last one handed out.
pub fn number_after(issued: u64) -> (r: u64)
    ensures
        r == next_number(issued),
{
    issued.wrapping_add(1)
}

/// Whether the message that leaves flight, of `in_flight`, is the last.
pub fn is_last(in_flight: usize) -> (r: bool)
    ensures
        r == (in_flight == 1),
{
    in_flight == 1
}

impl SharedRuntime {
    /// Where events go.
    pub closed spec fn log(&self) -> UnboundedSender<CausalEvent> {
        self.events
    }

    /// The signal that no message is in flight.
    pub closed spec fn signal(&self) -> Notify {
        self.quiescent
    }

    /// The counter of message numbers.
    pub closed spec fn numbers(&self) -> AtomicU64 {
        self.msg_id
    }

    /// The counter of messages in flight.
    pub closed spec fn flight(&self) -> AtomicUsize {
        self.in_flight
    }

    /// A fresh state: no message numbered, none in flight.
    pub fn new(events: UnboundedSender<CausalEvent>) -> (r: Self)
        ensures
            r.log() == events,
            call_ensures(AtomicU64::new, (0u64,), r.numbers()),
            call_ensures(AtomicUsize::new, (0usize,), r.flight()),
            call_ensures(Notify::new, (), r.signal()),
    {
        SharedRuntime {
            msg_id: AtomicU64::new(0),
            in_flight: AtomicUsize::new(0),
            quiescent: Notify::new(),
            events,
        }
    }

    /// A number that no other message has: `number_after` the last one handed out, whichever
    /// task that went to.
    pub fn next_msg_id(&self) -> (r: u64)
        ensures
            exists|issued: u64| #[trigger]
                number_taken(self.numbers(), issued) && r == next_number(issued),
    {
        let issued: u64 = self.msg_id.fetch_add(1, Ordering::Relaxed);
        assert(number_taken(self.numbers(), issued));
        number_after(issued)
    }

    /// Hand an event to the log. When the writer is gone the run is shutting down, and the
    /// event is dropped.
    pub fn record(&self, ev: CausalEvent)
        ensures
            exists|r: Result<(), CausalEvent>| #[trigger] sent_on(self.log(), ev, r),
    {
        let r = send_on(&self.events, ev);
        assert(sent_on(self.log(), ev, r));
    }

    /// Count a message as in flight.
    pub fn inc_in_flight(&self)
        ensures
            exists|before: usize| #[trigger] counted_in(self.flight(), before),
    {
        let before: usize = self.in_flight.fetch_add(1, Ordering::AcqRel);
        assert(counted_in(self.flight(), before));
    }

    /// Count a message as no longer in flight. The last one gives the signal, and no other: there
    /// is no way to give it but for a count of one.
    pub fn dec_in_flight(&self)
        ensures
            exists|before: usize|
                {
                    &&& #[trigger] counted_out(self.flight(), before)
                    &&& before == 1 ==> signalled(self.signal(), self.flight())
                },
    {
        let before: usize = self.in_flight.fetch_sub(1, Ordering::AcqRel);
        assert(counted_out(self.flight(), before));
        if is_last(before) {
            give_signal(&self.quiescent, &self.in_flight, before);
        }
    }

    /// How many messages are in flight.
    pub fn in_flight(&self) -> (r: usize)
        ensures
            found_in_flight(self.flight(), r),
    {
        self.in_flight.load(Ordering::Acquire)
    }

    /// The signal that no message is in flight.
    pub fn quiescent(&self) -> (r: &Notify)
        ensures
            *r == self.signal(),
    {
        &self.quiescent
    }
}

/// Below the limit, the number handed out is one more than what the counter held; so messages
/// that were numbered from different counts have different numbers.
pub proof fn numbers_count_up(a: u64, b: u64)
    ensures
        a < u64::MAX ==> next_number(a) == a + 1,
        a != b ==> next_number(a) != next_number(b),
        a < b < u64::MAX ==> next_number(a) < next_number(b),
{
}

/// What the marks on the counters stand for: a number is taken by adding one to the counter of
/// numbers, a message is counted in by adding one to the counter of messages in flight, and counted
/// out by taking one from it.
pub proof fn what_is_done_to_the_counters(numbers: AtomicU64, flight: AtomicUsize, x: u64, n: usize)
    ensures
        number_taken(numbers, x) ==> call_ensures(
            AtomicU64::fetch_add,
            (&numbers, 1u64, Ordering::Relaxed),
            x,
        ),
        counted_in(flight, n) ==> call_ensures(
            AtomicUsize::fetch_add,
            (&flight, 1usize, Ordering::AcqRel),
            n,
        ),
        counted_out(flight, n) ==> call_ensures(
            AtomicUsize::fetch_sub,
            (&flight, 1usize, Ordering::AcqRel),
            n,
        ),
        found_in_flight(flight, n) ==> call_ensures(
            AtomicUsize::load,
            (&flight, Ordering::Acquire),
            n,
        ),
{
}

} // verus!
