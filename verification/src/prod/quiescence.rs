//! Why the count of messages in flight tells when a system is at rest.

use crate::dispatch::Deed;
use crate::prod::channel::signalled;
use crate::prod::dispatch::delivery_steps;
use crate::prod::shared::{counted_in, counted_out, SharedRuntime};
use vstd::prelude::*;

verus! {

/// Where the messages of a system are, and what the shared count says.
pub struct Flight {
    /// Counted in, and being delivered.
    pub sending: nat,
    /// In a mailbox.
    pub queued: nat,
    /// Taken out by an actor that has not counted it out yet.
    pub handling: nat,
    /// The shared count.
    pub counted: nat,
}

/// One move of one task.
pub enum Move {
    /// A sender counts a message in.
    CountIn,
    /// A mailbox takes the message.
    Deliver,
    /// A closed mailbox hands the message back, and the sender counts it out.
    Refuse,
    /// An actor takes a message out of its mailbox.
    Take,
    /// The actor has handled the message and counts it out.
    CountOut,
}

/// The count says how many messages are under way.
pub open spec fn accounted(s: Flight) -> bool {
    s.counted == s.sending + s.queued + s.handling
}

/// No message is under way.
pub open spec fn at_rest(s: Flight) -> bool {
    s.sending == 0 && s.queued == 0 && s.handling == 0
}

/// The move can be made.
pub open spec fn possible(s: Flight, m: Move) -> bool {
    match m {
        Move::CountIn => true,
        Move::Deliver => s.sending > 0,
        Move::Refuse => s.sending > 0,
        Move::Take => s.queued > 0,
        Move::CountOut => s.handling > 0,
    }
}

/// The move was made on the shared state: for the moves that count, the counter was changed, and
/// held `before` until then; the one that counts the last message out gives the signal.
pub open spec fn made(shared: SharedRuntime, m: Move, before: usize) -> bool {
    match m {
        Move::CountIn => counted_in(shared.flight(), before),
        Move::Refuse | Move::CountOut => {
            &&& counted_out(shared.flight(), before)
            &&& before == 1 ==> signalled(shared.signal(), shared.flight())
        },
        Move::Deliver | Move::Take => true,
    }
}

/// Counting a message out of the shared state is making such a move.
pub proof fn lemma_counted_out(shared: SharedRuntime, m: Move)
    requires
        m is Refuse || m is CountOut,
        exists|before: usize|
            {
                &&& #[trigger] counted_out(shared.flight(), before)
                &&& before == 1 ==> signalled(shared.signal(), shared.flight())
            },
    ensures
        exists|before: usize| #[trigger] made(shared, m, before),
{
    let before = choose|before: usize|
        {
            &&& #[trigger] counted_out(shared.flight(), before)
            &&& before == 1 ==> signalled(shared.signal(), shared.flight())
        };
    assert(made(shared, m, before));
}

/// The state after the move.
pub open spec fn after(s: Flight, m: Move) -> Flight {
    match m {
        Move::CountIn => Flight { sending: s.sending + 1, counted: s.counted + 1, ..s },
        Move::Deliver => Flight {
            sending: (s.sending - 1) as nat,
            queued: s.queued + 1,
            ..s
        },
        Move::Refuse => Flight {
            sending: (s.sending - 1) as nat,
            counted: (s.counted - 1) as nat,
            ..s
        },
        Move::Take => Flight { queued: (s.queued - 1) as nat, handling: s.handling + 1, ..s },
        Move::CountOut => Flight {
            handling: (s.handling - 1) as nat,
            counted: (s.counted - 1) as nat,
            ..s
        },
    }
}

/// The move that a backend's step makes, if it makes one.
pub open spec fn move_of(d: Deed) -> Option<Move> {
    match d {
        Deed::CountedIn => Some(Move::CountIn),
        Deed::HandedOver => Some(Move::Deliver),
        Deed::Refused => Some(Move::Refuse),
        Deed::CountedOut => Some(Move::CountOut),
        Deed::Numbered(_) | Deed::Logged(_) => None,
    }
}

/// The moves that some steps of a backend make, in order.
pub open spec fn moves_in(steps: Seq<Deed>) -> Seq<Move>
    decreases steps.len(),
{
    if steps.len() == 0 {
        seq![]
    } else {
        let before = moves_in(steps.drop_last());
        match move_of(steps.last()) {
            Some(m) => before.push(m),
            None => before,
        }
    }
}

/// The state after some moves.
pub open spec fn after_all(s: Flight, moves: Seq<Move>) -> Flight
    decreases moves.len(),
{
    if moves.len() == 0 {
        s
    } else {
        after(after_all(s, moves.drop_last()), moves.last())
    }
}

/// The moves can be made, one after the other.
pub open spec fn all_possible(s: Flight, moves: Seq<Move>) -> bool
    decreases moves.len(),
{
    moves.len() == 0 || {
        &&& all_possible(s, moves.drop_last())
        &&& possible(after_all(s, moves.drop_last()), moves.last())
    }
}

/// What some moves add to the count.
pub open spec fn balance(moves: Seq<Move>) -> int
    decreases moves.len(),
{
    if moves.len() == 0 {
        0
    } else {
        balance(moves.drop_last()) + match moves.last() {
            Move::CountIn => 1int,
            Move::Refuse | Move::CountOut => -1int,
            Move::Deliver | Move::Take => 0int,
        }
    }
}

/// The signal is given: a message is counted out of a count of one.
pub open spec fn signals(s: Flight, m: Move) -> bool {
    (m is Refuse || m is CountOut) && s.counted == 1
}

/// The count stays right through every move.
pub proof fn the_count_stays_right(s: Flight, m: Move)
    requires
        accounted(s),
        possible(s, m),
    ensures
        accounted(after(s, m)),
{
}

/// The count is zero exactly when no message is under way, even while one is on its way from
/// its sender to its receiver's handler.
pub proof fn zero_means_at_rest(s: Flight)
    requires
        accounted(s),
    ensures
        s.counted == 0 <==> at_rest(s),
{
}

/// The signal is given exactly by the move that brings the system to rest.
pub proof fn the_signal_tells_rest(s: Flight, m: Move)
    requires
        accounted(s),
        possible(s, m),
    ensures
        signals(s, m) <==> !at_rest(s) && at_rest(after(s, m)),
{
}

/// Whoever finds one message in the count when counting out has brought the system to rest, and
/// has given the signal.
pub proof fn the_last_one_out_signals(shared: SharedRuntime, s: Flight, m: Move, before: usize)
    requires
        accounted(s),
        possible(s, m),
        m is Refuse || m is CountOut,
        made(shared, m, before),
        before == s.counted,
    ensures
        before == 1 <==> at_rest(after(s, m)),
        at_rest(after(s, m)) ==> signalled(shared.signal(), shared.flight()),
{
    the_signal_tells_rest(s, m);
}

/// The count stays right through any number of moves, and changes by what they add to it.
pub proof fn the_count_follows_the_moves(s: Flight, moves: Seq<Move>)
    requires
        accounted(s),
        all_possible(s, moves),
    ensures
        accounted(after_all(s, moves)),
        after_all(s, moves).counted == s.counted + balance(moves),
    decreases moves.len(),
{
    if moves.len() > 0 {
        the_count_follows_the_moves(s, moves.drop_last());
        the_count_stays_right(after_all(s, moves.drop_last()), moves.last());
    }
}

proof fn lemma_moves_in_two(a: Deed, b: Deed)
    ensures
        moves_in(seq![a, b]) == match (move_of(a), move_of(b)) {
            (Some(m), Some(n)) => seq![m, n],
            (Some(m), None) => seq![m],
            (None, Some(n)) => seq![n],
            (None, None) => seq![],
        },
{
    let two = seq![a, b];
    let one = seq![a];
    assert(two.drop_last() =~= one);
    assert(one.drop_last() =~= Seq::<Deed>::empty());
    assert(moves_in(one.drop_last()) =~= Seq::<Move>::empty());
    assert(moves_in(one) =~= match move_of(a) {
        Some(m) => seq![m],
        None => seq![],
    });
    assert(moves_in(two) =~= match (move_of(a), move_of(b)) {
        (Some(m), Some(n)) => seq![m, n],
        (Some(m), None) => seq![m],
        (None, Some(n)) => seq![n],
        (None, None) => seq![],
    });
}

/// A delivery can be made at any time. It leaves the count one higher if the target took the
/// message, and as it was if not; and while the message is being handed over, the count holds
/// it already.
pub proof fn a_delivery_counts_one(s: Flight, taken: bool)
    requires
        accounted(s),
    ensures
        all_possible(s, moves_in(delivery_steps(taken))),
        after_all(s, moves_in(delivery_steps(taken))).counted == if taken {
            s.counted + 1
        } else {
            s.counted
        },
        after_all(s, moves_in(delivery_steps(taken).take(1))).counted == s.counted + 1,
        after_all(s, moves_in(delivery_steps(taken))).queued == if taken {
            s.queued + 1
        } else {
            s.queued
        },
{
    let second = if taken {
        Deed::HandedOver
    } else {
        Deed::Refused
    };
    let steps = delivery_steps(taken);
    lemma_moves_in_two(Deed::CountedIn, second);
    let moves = moves_in(steps);
    let one = seq![Move::CountIn];
    assert(moves.drop_last() =~= one);
    assert(one.drop_last() =~= Seq::<Move>::empty());
    assert(after_all(s, one.drop_last()) == s);
    assert(after_all(s, one) == after(s, Move::CountIn));
    assert(all_possible(s, one.drop_last()));
    assert(all_possible(s, one));
    let first = steps.take(1);
    assert(first.drop_last() =~= Seq::<Deed>::empty());
    assert(moves_in(first.drop_last()) =~= Seq::<Move>::empty());
    assert(moves_in(first) =~= one);
}

/// A handler that sends keeps the system from coming to rest: its message is counted in before
/// the one that it handles is counted out.
pub proof fn a_send_while_handling_keeps_it_going(s: Flight)
    requires
        accounted(s),
        s.handling > 0,
    ensures
        !signals(after(s, Move::CountIn), Move::CountOut),
        after(after(s, Move::CountIn), Move::CountOut).counted > 0,
{
}

/// What a move does to the shared state: counting in and counting out each change the counter, and
/// who counts the last message out gives the signal.
pub proof fn what_a_move_does(shared: SharedRuntime, before: usize)
    ensures
        made(shared, Move::CountIn, before) ==> counted_in(shared.flight(), before),
        made(shared, Move::CountOut, before) ==> counted_out(shared.flight(), before),
        made(shared, Move::Refuse, before) ==> counted_out(shared.flight(), before),
        made(shared, Move::CountOut, 1) ==> signalled(shared.signal(), shared.flight()),
        made(shared, Move::Refuse, 1) ==> signalled(shared.signal(), shared.flight()),
{
}

/// What the moves mean: a message is counted in as it is sent, changes hands, and is counted out
/// once it is handled or handed back. No move does anything else.
pub proof fn what_the_moves_mean(s: Flight)
    ensures
        after(s, Move::CountIn) == (Flight { sending: s.sending + 1, counted: s.counted + 1, ..s }),
        s.sending > 0 ==> after(s, Move::Deliver) == (Flight {
            sending: (s.sending - 1) as nat,
            queued: s.queued + 1,
            ..s
        }),
        s.queued > 0 ==> after(s, Move::Take) == (Flight {
            queued: (s.queued - 1) as nat,
            handling: s.handling + 1,
            ..s
        }),
        s.sending > 0 && s.counted > 0 ==> after(s, Move::Refuse).sending + 1 == s.sending && after(
            s,
            Move::Refuse,
        ).counted + 1 == s.counted,
        s.handling > 0 && s.counted > 0 ==> after(s, Move::CountOut).handling + 1 == s.handling
            && after(s, Move::CountOut).counted + 1 == s.counted,
{
}

} // verus!
