//! The production backend.

use crate::dispatch::{Call, Deed, Dispatch};
use crate::envelope::Envelope;
use crate::log::{CausalEvent, EventModel};
use crate::mailbox::{AnySink, Sink};
use crate::prod::channel::sent_on;
use crate::prod::ledger::Ledger;
use crate::prod::quiescence::{made, Move};
use crate::prod::shared::{next_number, number_taken, SharedRuntime};
use std::sync::Arc;
use vstd::prelude::*;

verus! {

/// Records to the log, delivers live, and counts the messages in flight.
#[verifier::reject_recursive_types(P)]
pub struct ProdDispatch<P> {
    ledger: Ledger,
    issued: Ghost<Seq<u64>>,
    recorded: Ghost<Seq<EventModel>>,
    sent: Ghost<Seq<(Sink<P>, Envelope<P>)>>,
    calls: Ghost<Seq<Call<P>>>,
}

/// The steps of a delivery: the message is counted in, and then its target takes it. A message
/// that the target hands back will never be handled, and is counted out again.
pub open spec fn delivery_steps(taken: bool) -> Seq<Deed> {
    if taken {
        seq![Deed::CountedIn, Deed::HandedOver]
    } else {
        seq![Deed::CountedIn, Deed::Refused]
    }
}

/// The `steps` deliver `env` to the target, by what the target may answer.
pub open spec fn delivers<P>(sink: Sink<P>, env: Envelope<P>, steps: Seq<Deed>) -> bool {
    exists|r: Result<(), Envelope<P>>| #[trigger]
        sink.answers(env, r) && steps == delivery_steps(r is Ok)
}

impl<P> ProdDispatch<P> {
    /// The state that the backend writes to.
    pub closed spec fn runtime(&self) -> SharedRuntime {
        self.ledger.runtime()
    }

    /// A backend over the shared state.
    pub fn new(shared: Arc<SharedRuntime>) -> (r: Self)
        ensures
            r.runtime() == *shared,
            r.calls() == Seq::<Call<P>>::empty(),
            r.deeds() == Seq::<Deed>::empty(),
            r.issued() == Seq::<u64>::empty(),
            r.recorded() == Seq::<EventModel>::empty(),
            r.sent() == Seq::<(Sink<P>, Envelope<P>)>::empty(),
    {
        ProdDispatch {
            ledger: Ledger::new(shared),
            issued: Ghost(Seq::empty()),
            recorded: Ghost(Seq::empty()),
            sent: Ghost(Seq::empty()),
            calls: Ghost(Seq::empty()),
        }
    }

    /// Count a message out that an actor is done with.
    pub(crate) fn count_out(&mut self)
        ensures
            final(self).runtime() == old(self).runtime(),
            final(self).calls() == old(self).calls(),
            final(self).issued() == old(self).issued(),
            final(self).recorded() == old(self).recorded(),
            final(self).sent() == old(self).sent(),
            final(self).deeds() == old(self).deeds().push(Deed::CountedOut),
            exists|before: usize| #[trigger] made(old(self).runtime(), Move::CountOut, before),
    {
        self.ledger.count_out();
    }
}

impl<P> Dispatch<P> for ProdDispatch<P> {
    closed spec fn calls(&self) -> Seq<Call<P>> {
        self.calls@
    }

    closed spec fn issued(&self) -> Seq<u64> {
        self.issued@
    }

    closed spec fn recorded(&self) -> Seq<EventModel> {
        self.recorded@
    }

    closed spec fn sent(&self) -> Seq<(Sink<P>, Envelope<P>)> {
        self.sent@
    }

    closed spec fn deeds(&self) -> Seq<Deed> {
        self.ledger.deeds()
    }

    open spec fn serves(&self, call: Call<P>, steps: Seq<Deed>) -> bool {
        match call {
            Call::Numbered(id) => steps == seq![Deed::Numbered(id)],
            Call::Recorded(event) => steps == seq![Deed::Logged(event)],
            Call::Delivered(sink, env) => delivers(sink, env, steps),
        }
    }

    /// A number from the shared counter.
    fn next_msg_id(&mut self) -> (r: u64)
        ensures
            final(self).runtime() == old(self).runtime(),
            final(self).deeds() == old(self).deeds().push(Deed::Numbered(r)),
            exists|issued: u64| #[trigger]
                number_taken(old(self).runtime().numbers(), issued) && r == next_number(issued),
    {
        let id: u64 = self.ledger.number();
        self.calls = Ghost(self.calls@.push(Call::Numbered(id)));
        self.issued = Ghost(self.issued@.push(id));
        proof {
            let steps = seq![Deed::Numbered(id)];
            assert(old(self).serves(Call::Numbered(id), steps));
            assert(self.deeds() =~= old(self).deeds() + steps);
        }
        id
    }

    /// The event goes out on the shared channel to the log, once.
    fn record(&mut self, event: CausalEvent)
        ensures
            final(self).runtime() == old(self).runtime(),
            final(self).deeds() == old(self).deeds().push(Deed::Logged(event@)),
            exists|r: Result<(), CausalEvent>| #[trigger]
                sent_on(old(self).runtime().log(), event, r),
    {
        self.calls = Ghost(self.calls@.push(Call::Recorded(event@)));
        self.recorded = Ghost(self.recorded@.push(event@));
        self.ledger.log(event);
        proof {
            let steps = seq![Deed::Logged(event@)];
            assert(old(self).serves(Call::Recorded(event@), steps));
            assert(self.deeds() =~= old(self).deeds() + steps);
        }
    }

    /// The message counts as in flight before it is delivered, so that the count never drops
    /// to zero between its delivery and its handling. A message that a closed mailbox hands
    /// back will never be handled, and is counted out again.
    fn deliver(&mut self, sink: &Sink<P>, env: Envelope<P>)
        ensures
            final(self).runtime() == old(self).runtime(),
            exists|before: usize| #[trigger] made(old(self).runtime(), Move::CountIn, before),
            exists|r: Result<(), Envelope<P>>|
                {
                    &&& #[trigger] sink.answers(env, r)
                    &&& final(self).deeds() == old(self).deeds() + delivery_steps(r is Ok)
                    &&& r is Err ==> exists|before: usize| #[trigger]
                        made(old(self).runtime(), Move::Refuse, before)
                },
    {
        self.calls = Ghost(self.calls@.push(Call::Delivered(*sink, env)));
        self.sent = Ghost(self.sent@.push((*sink, env)));
        self.ledger.count_in();
        let answer = self.ledger.hand_over(sink, env);
        match answer {
            Ok(_) => {},
            Err(_) => {
                self.ledger.refuse();
            },
        }
        proof {
            let steps = delivery_steps(answer is Ok);
            assert(sink.answers(env, answer));
            assert(delivers(*sink, env, steps));
            assert(old(self).serves(Call::Delivered(*sink, env), steps));
            assert(self.deeds() =~= old(self).deeds() + steps);
        }
    }
}

/// A delivery takes two steps: the message is counted in, first and once; then it is handed over,
/// or, if the target did not take it, counted out.
pub proof fn how_a_delivery_goes(taken: bool)
    ensures
        delivery_steps(taken).len() == 2,
        delivery_steps(taken)[0] is CountedIn,
        delivery_steps(taken)[1] is HandedOver <==> taken,
        delivery_steps(taken)[1] is Refused <==> !taken,
{
}

impl<P> ProdDispatch<P> {
    /// The backend does what it is asked for and nothing else: one number for each number, one
    /// line in the log for each event, and one delivery, by the answer of the target, for each
    /// envelope.
    pub proof fn does_what_it_is_asked_for(&self, call: Call<P>, steps: Seq<Deed>)
        requires
            self.serves(call, steps),
        ensures
            call matches Call::Numbered(id) ==> steps.len() == 1 && steps[0] == Deed::Numbered(id),
            call matches Call::Recorded(e) ==> steps.len() == 1 && steps[0] == Deed::Logged(e),
            call matches Call::Delivered(sink, env) ==> {
                &&& steps.len() == 2
                &&& steps[0] is CountedIn
                &&& steps[1] is HandedOver || steps[1] is Refused
                &&& exists|r: Result<(), Envelope<P>>| #[trigger]
                    sink.answers(env, r) && (r is Ok <==> steps[1] is HandedOver)
            },
    {
        if let Call::Delivered(sink, env) = call {
            let r = choose|r: Result<(), Envelope<P>>| #[trigger]
                sink.answers(env, r) && steps == delivery_steps(r is Ok);
            assert(sink.answers(env, r));
        }
    }
}

} // verus!
