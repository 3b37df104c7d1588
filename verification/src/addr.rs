//! Addresses of actors.

use crate::clock::ActorId;
use crate::envelope::Envelope;
use crate::mailbox::{AnySink, Sink};
use std::marker::PhantomData;
use vstd::prelude::*;

verus! {

/// A typed handle to an actor. `M` says which messages may be sent to it; the target behind
/// it is shared and untyped.
#[verifier::reject_recursive_types(P)]
pub struct Addr<M, P> {
    id: ActorId,
    sink: Sink<P>,
    message: PhantomData<M>,
}

impl<M, P> Addr<M, P> {
    /// The name of the actor.
    pub closed spec fn name(&self) -> Seq<char> {
        self.id@
    }

    /// Where messages to the actor go.
    pub closed spec fn target(&self) -> Sink<P> {
        self.sink
    }

    /// The address of the actor `id` with the given delivery target.
    pub fn new(id: ActorId, sink: Sink<P>) -> (r: Self)
        ensures
            r.name() == id@,
            r.target() == sink,
    {
        Addr { id, sink, message: PhantomData }
    }

    /// The name of the actor.
    pub fn id(&self) -> (r: &ActorId)
        ensures
            r@ == self.name(),
    {
        &self.id
    }

    /// The delivery target.
    pub fn sink(&self) -> (r: &Sink<P>)
        ensures
            *r == self.target(),
    {
        &self.sink
    }

    /// Deliver an envelope that is already stamped: what the target answers to it.
    pub fn deliver(&self, env: Envelope<P>) -> (r: Result<(), Envelope<P>>)
        ensures
            r matches Err(back) ==> back == env,
            self.target().answers(env, r),
    {
        self.sink.deliver(env)
    }
}

impl<M, P> Clone for Addr<M, P> {
    fn clone(&self) -> (r: Self)
        ensures
            r.name() == self.name(),
            r.target() == self.target(),
    {
        Addr { id: self.id.clone(), sink: self.sink.clone(), message: PhantomData }
    }
}

} // verus!
