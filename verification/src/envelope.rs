//! Messages in transit.

use crate::clock::{ActorId, Lamport, VectorClock};
use vstd::prelude::*;

verus! {

/// What an envelope carries. A payload hides the type of its message: any message type that
/// it can wrap goes in, and `unwrap_msg` hands the message back to whoever asks for the right
/// type.
pub trait Payload<M>: Sized {
    /// The message of type `M` that the payload holds, if it holds one.
    open spec fn carried(&self) -> Option<M> {
        arbitrary()
    }

    /// Put a message in.
    fn wrap(msg: M) -> (r: Self)
        ensures
            r.carried() == Some(msg),
    ;

    /// Take the message out, or give the payload back when it holds none of this type.
    fn unwrap_msg(self) -> (r: Result<M, Self>)
        ensures
            r == match self.carried() {
                Some(msg) => Ok::<M, Self>(msg),
                None => Err::<M, Self>(self),
            },
    ;
}

/// A payload for systems with a single message type.
impl<M> Payload<M> for Box<M> {
    open spec fn carried(&self) -> Option<M> {
        Some(**self)
    }

    fn wrap(msg: M) -> (r: Self) {
        Box::new(msg)
    }

    fn unwrap_msg(self) -> (r: Result<M, Self>) {
        Ok(*self)
    }
}

/// A message in transit, with its causal stamps.
#[derive(Debug)]
pub struct Envelope<P> {
    pub msg: P,
    pub vclock: VectorClock,
    pub lamport: Lamport,
    pub msg_id: u64,
    pub src: ActorId,
    pub dst: ActorId,
}

/// The stamps of an envelope.
pub struct EnvelopeStamp {
    pub vclock: Map<Seq<char>, u64>,
    pub lamport: u64,
    pub msg_id: u64,
    pub src: Seq<char>,
    pub dst: Seq<char>,
}

/// An envelope: its message and its stamps.
pub struct EnvelopeModel<P> {
    pub msg: P,
    pub stamp: EnvelopeStamp,
}

impl<P> View for Envelope<P> {
    type V = EnvelopeModel<P>;

    open spec fn view(&self) -> EnvelopeModel<P> {
        EnvelopeModel {
            msg: self.msg,
            stamp: EnvelopeStamp {
                vclock: self.vclock@,
                lamport: self.lamport.0,
                msg_id: self.msg_id,
                src: self.src@,
                dst: self.dst@,
            },
        }
    }
}

/// The model of an envelope says all that the envelope says.
pub proof fn an_envelope_says_it_all<P>(env: Envelope<P>)
    ensures
        env@.msg == env.msg,
        env@.stamp.vclock == env.vclock@,
        env@.stamp.lamport == env.lamport.0,
        env@.stamp.msg_id == env.msg_id,
        env@.stamp.src == env.src@,
        env@.stamp.dst == env.dst@,
{
}

} // verus!
