//! Errors from rebuilding, linearizing or running a recorded log again.

use vstd::prelude::*;

verus! {

#[derive(Debug)]
pub enum ReplayError {
    /// A receipt whose message was never sent: the event and the name of the message.
    MissingEmit(String, String),
    /// Two sends of one message.
    DuplicateEmit(String),
    /// Two events of one actor with the same counter.
    DuplicateSeq(String, u64),
    /// A causal edge between two events whose clocks are not strictly ordered.
    Inconsistent(String, String),
    /// A cycle; so many events could not be scheduled.
    Cycle(usize),
    /// An actor was handed a message of a type that is not its own.
    WrongMessageType(String),
    /// A counter of the actor is at its limit.
    ClockExhausted(String),
}

} // verus!
