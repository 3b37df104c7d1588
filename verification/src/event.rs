//! The events that the stamping rules write to the log.

use crate::clock::{ActorId, VectorClock};
use crate::envelope::{Envelope, EnvelopeStamp};
use crate::log::{CausalEvent, EventModel, Op};
use crate::text::{
    chars_of, decimal, decimal_reads_back, digits_are_a_number, digits_value, is_digit,
    push_decimal, zeros_before_a_number, zeros_of,
};
use vstd::prelude::*;
use vstd::string::*;

verus! {

/// The name of the `seq`-th event of `actor`.
pub open spec fn event_name(actor: Seq<char>, seq: u64) -> Seq<char> {
    actor.push(':') + decimal(seq as nat)
}

/// The name of a message.
pub open spec fn message_name(msg_id: u64) -> Seq<char> {
    seq!['m'] + decimal(msg_id as nat)
}

/// `actor:seq`.
pub fn id_of(actor: &ActorId, seq: u64) -> (r: String)
    ensures
        r@ == event_name(actor@, seq),
{
    let mut s = actor.to_string();
    s.push(':');
    push_decimal(&mut s, seq);
    s
}

/// `m` and the number of the message.
pub fn mid(msg_id: u64) -> (r: Option<String>)
    ensures
        r matches Some(s) && s@ == message_name(msg_id),
{
    let mut s = String::new();
    s.push('m');
    push_decimal(&mut s, msg_id);
    assert(s@ =~= message_name(msg_id));
    Some(s)
}

/// A run of ASCII digits that writes a number below 2^64.
pub open spec fn number(s: Seq<char>) -> Option<u64> {
    if s.len() > 0 && (forall|i: int| 0 <= i < s.len() ==> is_digit(#[trigger] s[i]))
        && digits_value(s) <= u64::MAX {
        Some(digits_value(s) as u64)
    } else {
        None
    }
}

/// The message that a name stands for: `m`, an optional plus sign, and the number.
pub open spec fn message_number(s: Seq<char>) -> Option<u64> {
    if s.len() > 0 && s[0] == 'm' {
        if s.len() > 1 && s[1] == '+' {
            number(s.skip(2))
        } else {
            number(s.skip(1))
        }
    } else {
        None
    }
}

/// The name of a message leads back to its number.
pub proof fn message_name_reads_back(msg_id: u64)
    ensures
        message_number(message_name(msg_id)) == Some(msg_id),
{
    let d = decimal(msg_id as nat);
    let s = message_name(msg_id);
    decimal_reads_back(msg_id as nat);
    assert(s[1] == d[0]);
    assert(s.skip(1) =~= d);
}

/// Two messages never share a name.
pub proof fn message_names_differ(a: u64, b: u64)
    requires
        a != b,
    ensures
        message_name(a) != message_name(b),
{
    message_name_reads_back(a);
    message_name_reads_back(b);
}

proof fn lemma_digits_grow(s: Seq<char>, i: int)
    requires
        0 <= i <= s.len(),
        forall|j: int| 0 <= j < s.len() ==> is_digit(#[trigger] s[j]),
    ensures
        digits_value(s.take(i)) <= digits_value(s),
    decreases s.len() - i,
{
    if i == s.len() {
        assert(s.take(i) =~= s);
    } else {
        lemma_digits_grow(s, i + 1);
        assert(s.take(i + 1).drop_last() =~= s.take(i));
        assert(is_digit(s[i]));
    }
}

fn digit_of(c: char) -> (r: Option<u64>)
    ensures
        r is Some <==> is_digit(c),
        r matches Some(d) ==> d == c as int - 48,
{
    let n: u32 = c as u32;
    if 48 <= n && n <= 57 {
        Some((n - 48) as u64)
    } else {
        None
    }
}

fn read_number(cs: &Vec<char>, from: usize) -> (r: Option<u64>)
    requires
        from <= cs@.len(),
    ensures
        r == number(cs@.skip(from as int)),
{
    let ghost s = cs@.skip(from as int);
    if from == cs.len() {
        return None;
    }
    let mut i: usize = from;
    let mut acc: u64 = 0;
    assert(s.take(0) =~= Seq::<char>::empty());
    while i < cs.len()
        invariant
            s == cs@.skip(from as int),
            from <= i <= cs@.len(),
            acc == digits_value(s.take(i - from)),
            forall|j: int| 0 <= j < i - from ==> is_digit(#[trigger] s[j]),
        decreases cs@.len() - i,
    {
        let ghost k: int = i - from;
        assert(s[k] == cs@[i as int]);
        assert(s.take(k + 1).drop_last() =~= s.take(k));
        match digit_of(cs[i]) {
            None => {
                assert(!is_digit(s[k]));
                return None;
            },
            Some(d) => {
                if acc > (u64::MAX - d) / 10 {
                    proof {
                        assert(acc * 10 + d > u64::MAX);
                        if forall|j: int| 0 <= j < s.len() ==> is_digit(#[trigger] s[j]) {
                            lemma_digits_grow(s, k + 1);
                        }
                    }
                    return None;
                }
                acc = acc * 10 + d;
            },
        }
        i = i + 1;
    }
    assert(s.take(i - from) =~= s);
    Some(acc)
}

/// Read the name of a message back to its number.
pub fn parse_mid(s: &str) -> (r: Option<u64>)
    ensures
        r == message_number(s@),
{
    let cs = chars_of(s);
    if cs.len() == 0 || cs[0] != 'm' {
        return None;
    }
    if cs.len() > 1 && cs[1] == '+' {
        read_number(&cs, 2)
    } else {
        read_number(&cs, 1)
    }
}

/// The event of sending `env`.
pub open spec fn emit_model(actor: Seq<char>, seq: u64, env: EnvelopeStamp) -> EventModel {
    EventModel {
        id: event_name(actor, seq),
        actor,
        seq,
        op: Op::Emit,
        vclock: env.vclock,
        lamport: env.lamport,
        msg_id: Some(message_name(env.msg_id)),
        src: Some(env.src),
        dst: Some(env.dst),
        value: None,
        payload_hash: None,
    }
}

/// The event of receiving `env`, with the receiver's stamps after the receipt.
pub open spec fn recv_model(
    actor: Seq<char>,
    seq: u64,
    clock: Map<Seq<char>, u64>,
    lamport: u64,
    env: EnvelopeStamp,
) -> EventModel {
    EventModel {
        id: event_name(actor, seq),
        actor,
        seq,
        op: Op::Recv,
        vclock: clock,
        lamport,
        msg_id: Some(message_name(env.msg_id)),
        src: Some(env.src),
        dst: Some(actor),
        value: None,
        payload_hash: None,
    }
}

/// A local event.
pub open spec fn compute_model(
    actor: Seq<char>,
    seq: u64,
    clock: Map<Seq<char>, u64>,
    lamport: u64,
) -> EventModel {
    EventModel {
        id: event_name(actor, seq),
        actor,
        seq,
        op: Op::Compute,
        vclock: clock,
        lamport,
        msg_id: None,
        src: None,
        dst: None,
        value: None,
        payload_hash: None,
    }
}

/// `emit`: the sender's clock after its own step is the one in the envelope.
pub fn emit_event<P>(actor: &ActorId, seq: u64, env: &Envelope<P>) -> (r: CausalEvent)
    ensures
        r@ == emit_model(actor@, seq, env@.stamp),
{
    CausalEvent {
        id: id_of(actor, seq),
        actor: actor.to_string(),
        seq,
        op: Op::Emit,
        vclock: env.vclock.to_string_map(),
        lamport: env.lamport.0,
        msg_id: mid(env.msg_id),
        src: Some(env.src.to_string()),
        dst: Some(env.dst.to_string()),
        value: None,
        payload_hash: None,
    }
}

/// `recv`: `clock` and `lamport` are the receiver's after the receipt.
pub fn recv_event<P>(
    actor: &ActorId,
    seq: u64,
    clock: &VectorClock,
    lamport: u64,
    env: &Envelope<P>,
) -> (r: CausalEvent)
    ensures
        r@ == recv_model(actor@, seq, clock@, lamport, env@.stamp),
{
    CausalEvent {
        id: id_of(actor, seq),
        actor: actor.to_string(),
        seq,
        op: Op::Recv,
        vclock: clock.to_string_map(),
        lamport,
        msg_id: mid(env.msg_id),
        src: Some(env.src.to_string()),
        dst: Some(actor.to_string()),
        value: None,
        payload_hash: None,
    }
}

/// `compute`: a local event, without a message.
pub fn compute_event(actor: &ActorId, seq: u64, clock: &VectorClock, lamport: u64) -> (r: CausalEvent)
    ensures
        r@ == compute_model(actor@, seq, clock@, lamport),
{
    CausalEvent {
        id: id_of(actor, seq),
        actor: actor.to_string(),
        seq,
        op: Op::Compute,
        vclock: clock.to_string_map(),
        lamport,
        msg_id: None,
        src: None,
        dst: None,
        value: None,
        payload_hash: None,
    }
}

// ---------------------------------------------------------------------------
// What the names and the events are
// ---------------------------------------------------------------------------

/// The name of an event is the actor, a colon and the counter in decimal; the digits after the
/// colon read back to the counter.
pub proof fn event_names_read_back(actor: Seq<char>, seq: u64)
    ensures
        event_name(actor, seq).len() > actor.len() + 1,
        event_name(actor, seq).take(actor.len() as int) == actor,
        event_name(actor, seq)[actor.len() as int] == ':',
        event_name(actor, seq).skip(actor.len() as int + 1) == decimal(seq as nat),
        digits_value(event_name(actor, seq).skip(actor.len() as int + 1)) == seq,
        forall|i: int|
            actor.len() < i < event_name(actor, seq).len() ==> '0' <= #[trigger] event_name(
                actor,
                seq,
            )[i] <= '9',
{
    let d = decimal(seq as nat);
    let s = event_name(actor, seq);
    decimal_reads_back(seq as nat);
    assert(s.take(actor.len() as int) =~= actor);
    assert(s.skip(actor.len() as int + 1) =~= d);
    assert forall|i: int| actor.len() < i < s.len() implies '0' <= #[trigger] s[i] <= '9' by {
        assert(s[i] == d[i - actor.len() - 1]);
        assert(is_digit(d[i - actor.len() - 1]));
    }
}

/// Two events never share a name: it tells both the actor and the counter.
pub proof fn event_names_differ(a: Seq<char>, x: u64, b: Seq<char>, y: u64)
    requires
        event_name(a, x) == event_name(b, y),
    ensures
        a == b,
        x == y,
{
    let s = event_name(a, x);
    event_names_read_back(a, x);
    event_names_read_back(b, y);
    if a.len() < b.len() {
        assert('0' <= s[b.len() as int] <= '9');
    } else if b.len() < a.len() {
        assert('0' <= s[a.len() as int] <= '9');
    }
}

/// The name of a message is an `m` and its number in decimal.
pub proof fn message_names_are_decimal(msg_id: u64)
    ensures
        message_name(msg_id) == seq!['m'] + decimal(msg_id as nat),
        message_name(msg_id)[0] == 'm',
        digits_value(message_name(msg_id).skip(1)) == msg_id,
{
    decimal_reads_back(msg_id as nat);
    assert(message_name(msg_id).skip(1) =~= decimal(msg_id as nat));
}

/// Exactly these names lead to the message `k`: an `m`, a plus sign or none, and `k` in decimal,
/// with zeros before it or not.
pub proof fn names_that_lead_to_a_message(s: Seq<char>, k: u64)
    ensures
        message_number(s) == Some(k) <==> exists|zeros: nat|
            {
                ||| s == seq!['m'] + #[trigger] zeros_of(zeros) + decimal(k as nat)
                ||| s == seq!['m', '+'] + zeros_of(zeros) + decimal(k as nat)
            },
{
    if message_number(s) == Some(k) {
        let from = if s.len() > 1 && s[1] == '+' {
            2int
        } else {
            1int
        };
        let d = s.skip(from);
        assert(number(d) == Some(k));
        assert forall|i: int| 0 <= i < d.len() implies '0' <= #[trigger] d[i] <= '9' by {
            assert(is_digit(d[i]));
        }
        digits_are_a_number(d);
        let z = choose|z: nat| d == #[trigger] zeros_of(z) + decimal(digits_value(d));
        let tail = zeros_of(z) + decimal(k as nat);
        assert(d == tail);
        assert(s =~= s.take(from) + d);
        if from == 2 {
            assert(s.take(2) =~= seq!['m', '+']);
            assert(seq!['m', '+'] + tail =~= seq!['m', '+'] + zeros_of(z) + decimal(k as nat));
        } else {
            assert(s.take(1) =~= seq!['m']);
            assert(seq!['m'] + tail =~= seq!['m'] + zeros_of(z) + decimal(k as nat));
        }
    }
    assert forall|zeros: nat|
        ({
            ||| s == seq!['m'] + #[trigger] zeros_of(zeros) + decimal(k as nat)
            ||| s == seq!['m', '+'] + zeros_of(zeros) + decimal(k as nat)
        }) implies message_number(s) == Some(k) by {
        let d = zeros_of(zeros) + decimal(k as nat);
        zeros_before_a_number(zeros, k as nat);
        decimal_reads_back(k as nat);
        assert forall|i: int| 0 <= i < d.len() implies is_digit(#[trigger] d[i]) by {
            assert('0' <= d[i] <= '9');
        }
        if s == seq!['m'] + zeros_of(zeros) + decimal(k as nat) {
            assert(s =~= seq!['m'] + d);
            assert(s[1] == d[0]);
            assert(is_digit(d[0]));
            assert(s.skip(1) =~= d);
        } else {
            assert(s =~= seq!['m', '+'] + d);
            assert(s.skip(2) =~= d);
        }
    }
}

/// A send is recorded on the world-line of the sender, under its counter, with everything that
/// the envelope says: stamps, number, sender and receiver. It has neither value nor hash.
pub proof fn a_send_is_recorded_as_it_is(actor: Seq<char>, seq: u64, env: EnvelopeStamp)
    ensures
        emit_model(actor, seq, env).op is Emit,
        emit_model(actor, seq, env).actor == actor,
        emit_model(actor, seq, env).seq == seq,
        emit_model(actor, seq, env).vclock == env.vclock,
        emit_model(actor, seq, env).lamport == env.lamport,
        emit_model(actor, seq, env).src == Some(env.src),
        emit_model(actor, seq, env).dst == Some(env.dst),
        emit_model(actor, seq, env).msg_id matches Some(m) && message_number(m) == Some(env.msg_id),
        emit_model(actor, seq, env).id == event_name(actor, seq),
        emit_model(actor, seq, env).value is None,
        emit_model(actor, seq, env).payload_hash is None,
{
    message_name_reads_back(env.msg_id);
}

/// A receipt is recorded on the world-line of the receiver, with the receiver's stamps; it names
/// the message and its sender as the send does, and the receiver itself as the one it went to.
pub proof fn a_receipt_is_recorded_as_it_is(
    actor: Seq<char>,
    seq: u64,
    clock: Map<Seq<char>, u64>,
    lamport: u64,
    env: EnvelopeStamp,
    sent: u64,
)
    ensures
        recv_model(actor, seq, clock, lamport, env).op is Recv,
        recv_model(actor, seq, clock, lamport, env).actor == actor,
        recv_model(actor, seq, clock, lamport, env).seq == seq,
        recv_model(actor, seq, clock, lamport, env).vclock == clock,
        recv_model(actor, seq, clock, lamport, env).lamport == lamport,
        recv_model(actor, seq, clock, lamport, env).msg_id == emit_model(
            env.src,
            sent,
            env,
        ).msg_id,
        recv_model(actor, seq, clock, lamport, env).src == Some(env.src),
        recv_model(actor, seq, clock, lamport, env).dst == Some(actor),
        recv_model(actor, seq, clock, lamport, env).id == event_name(actor, seq),
        recv_model(actor, seq, clock, lamport, env).value is None,
        recv_model(actor, seq, clock, lamport, env).payload_hash is None,
{
}

/// A local event is recorded with the stamps of its actor and names no message.
pub proof fn a_local_event_is_recorded_as_it_is(
    actor: Seq<char>,
    seq: u64,
    clock: Map<Seq<char>, u64>,
    lamport: u64,
)
    ensures
        compute_model(actor, seq, clock, lamport).op is Compute,
        compute_model(actor, seq, clock, lamport).actor == actor,
        compute_model(actor, seq, clock, lamport).seq == seq,
        compute_model(actor, seq, clock, lamport).vclock == clock,
        compute_model(actor, seq, clock, lamport).lamport == lamport,
        compute_model(actor, seq, clock, lamport).msg_id is None,
        compute_model(actor, seq, clock, lamport).src is None,
        compute_model(actor, seq, clock, lamport).dst is None,
        compute_model(actor, seq, clock, lamport).id == event_name(actor, seq),
        compute_model(actor, seq, clock, lamport).value is None,
        compute_model(actor, seq, clock, lamport).payload_hash is None,
{
}

} // verus!
