//! The causal event log: one event per line.

use crate::clock_map::ClockMap;
use crate::text::{blank, is_blank};
use vstd::prelude::*;
use vstd::std_specs::cmp::PartialEqSpec;
use vstd::string::*;

verus! {

/// What happened at an event.
#[derive(Clone, Copy, Debug, PartialEq, Eq, Structural)]
pub enum Op {
    Emit,
    Recv,
    Compute,
    Report,
    Drop,
}

/// A double-precision number, held as its IEEE 754 bits.
#[derive(Clone, Copy, Debug)]
pub struct FloatBits(pub u64);

/// The bits without the sign bit.
pub open spec fn magnitude(bits: u64) -> int {
    bits as int % 0x8000_0000_0000_0000
}

/// Equality of numbers: no NaN is equal to anything, and the two zeros are equal.
pub open spec fn float_same(a: FloatBits, b: FloatBits) -> bool {
    &&& magnitude(a.0) <= 0x7ff0_0000_0000_0000
    &&& magnitude(b.0) <= 0x7ff0_0000_0000_0000
    &&& (a.0 == b.0 || (magnitude(a.0) == 0 && magnitude(b.0) == 0))
}

impl PartialEq for FloatBits {
    fn eq(&self, other: &Self) -> (r: bool) {
        let a: u64 = self.0 % 0x8000_0000_0000_0000;
        let b: u64 = other.0 % 0x8000_0000_0000_0000;
        a <= 0x7ff0_0000_0000_0000 && b <= 0x7ff0_0000_0000_0000 && (self.0 == other.0 || (a == 0
            && b == 0))
    }
}

impl vstd::std_specs::cmp::PartialEqSpecImpl for FloatBits {
    open spec fn obeys_eq_spec() -> bool {
        true
    }

    open spec fn eq_spec(&self, other: &Self) -> bool {
        float_same(*self, *other)
    }
}

/// One event of a run, with its causal stamps.
#[derive(Debug)]
pub struct CausalEvent {
    pub id: String,
    pub actor: String,
    pub seq: u64,
    pub op: Op,
    pub vclock: ClockMap,
    pub lamport: u64,
    pub msg_id: Option<String>,
    pub src: Option<String>,
    pub dst: Option<String>,
    pub value: Option<FloatBits>,
    pub payload_hash: Option<String>,
}

/// What an event says.
pub struct EventModel {
    pub id: Seq<char>,
    pub actor: Seq<char>,
    pub seq: u64,
    pub op: Op,
    pub vclock: Map<Seq<char>, u64>,
    pub lamport: u64,
    pub msg_id: Option<Seq<char>>,
    pub src: Option<Seq<char>>,
    pub dst: Option<Seq<char>>,
    pub value: Option<FloatBits>,
    pub payload_hash: Option<Seq<char>>,
}

/// The text of an optional string.
pub open spec fn opt_text(o: Option<String>) -> Option<Seq<char>> {
    match o {
        Some(s) => Some(s@),
        None => None,
    }
}

impl View for CausalEvent {
    type V = EventModel;

    open spec fn view(&self) -> EventModel {
        EventModel {
            id: self.id@,
            actor: self.actor@,
            seq: self.seq,
            op: self.op,
            vclock: self.vclock@,
            lamport: self.lamport,
            msg_id: opt_text(self.msg_id),
            src: opt_text(self.src),
            dst: opt_text(self.dst),
            value: self.value,
            payload_hash: opt_text(self.payload_hash),
        }
    }
}

/// What a log says.
pub open spec fn log_model(events: Seq<CausalEvent>) -> Seq<EventModel> {
    Seq::new(events.len(), |i: int| events[i]@)
}

/// Equality of events: field by field, the value as a number.
pub open spec fn same_event(a: EventModel, b: EventModel) -> bool {
    &&& a.id == b.id
    &&& a.actor == b.actor
    &&& a.seq == b.seq
    &&& a.op == b.op
    &&& a.vclock == b.vclock
    &&& a.lamport == b.lamport
    &&& a.msg_id == b.msg_id
    &&& a.src == b.src
    &&& a.dst == b.dst
    &&& match (a.value, b.value) {
        (Some(x), Some(y)) => float_same(x, y),
        (None, None) => true,
        _ => false,
    }
    &&& a.payload_hash == b.payload_hash
}

fn opt_same(a: &Option<String>, b: &Option<String>) -> (r: bool)
    ensures
        r == (opt_text(*a) == opt_text(*b)),
{
    match (a, b) {
        (Some(x), Some(y)) => *x == *y,
        (None, None) => true,
        _ => false,
    }
}

fn opt_clone(a: &Option<String>) -> (r: Option<String>)
    ensures
        opt_text(r) == opt_text(*a),
{
    match a {
        Some(x) => Some(x.clone()),
        None => None,
    }
}

impl Clone for CausalEvent {
    fn clone(&self) -> (r: Self)
        ensures
            r@ == self@,
    {
        CausalEvent {
            id: self.id.clone(),
            actor: self.actor.clone(),
            seq: self.seq,
            op: self.op,
            vclock: self.vclock.clone(),
            lamport: self.lamport,
            msg_id: opt_clone(&self.msg_id),
            src: opt_clone(&self.src),
            dst: opt_clone(&self.dst),
            value: self.value,
            payload_hash: opt_clone(&self.payload_hash),
        }
    }
}

impl PartialEq for CausalEvent {
    fn eq(&self, other: &Self) -> (r: bool) {
        let values = match (&self.value, &other.value) {
            (Some(x), Some(y)) => *x == *y,
            (None, None) => true,
            _ => false,
        };
        self.id == other.id && self.actor == other.actor && self.seq == other.seq && self.op
            == other.op && self.vclock == other.vclock && self.lamport == other.lamport && opt_same(
            &self.msg_id,
            &other.msg_id,
        ) && opt_same(&self.src, &other.src) && opt_same(&self.dst, &other.dst) && values
            && opt_same(&self.payload_hash, &other.payload_hash)
    }
}

impl vstd::std_specs::cmp::PartialEqSpecImpl for CausalEvent {
    open spec fn obeys_eq_spec() -> bool {
        true
    }

    open spec fn eq_spec(&self, other: &Self) -> bool {
        same_event(self@, other@)
    }
}

// ---------------------------------------------------------------------------
// Lines
// ---------------------------------------------------------------------------

/// `String::push` of the standard library appends one character.
pub assume_specification[ String::push ](s: &mut String, c: char)
    ensures
        final(s)@ == old(s)@.push(c),
;

/// The position of the first line feed, or the length if there is none.
pub open spec fn first_newline(s: Seq<char>) -> int
    decreases s.len(),
{
    if s.len() == 0 {
        0
    } else if s[0] == '\n' {
        0
    } else {
        1 + first_newline(s.drop_first())
    }
}

/// The first line feed lies within the text or at its end.
pub proof fn first_newline_in_range(s: Seq<char>)
    ensures
        0 <= first_newline(s) <= s.len(),
    decreases s.len(),
{
    if s.len() > 0 && s[0] != '\n' {
        first_newline_in_range(s.drop_first());
    }
}

/// A line without the carriage return that stood before its line feed.
pub open spec fn strip_cr(s: Seq<char>) -> Seq<char> {
    if s.len() > 0 && s.last() == '\r' {
        s.drop_last()
    } else {
        s
    }
}

/// One line, unless it is blank.
pub open spec fn kept(line: Seq<char>) -> Seq<Seq<char>> {
    if blank(line) {
        seq![]
    } else {
        seq![line]
    }
}

/// The lines of a log text: each ends at a line feed or at the end of the text, a carriage
/// return before the line feed belongs to the ending, and blank lines are skipped.
pub open spec fn text_lines(s: Seq<char>) -> Seq<Seq<char>>
    decreases s.len(),
{
    proof {
        first_newline_in_range(s);
    }
    let k = first_newline(s);
    if k < s.len() {
        kept(strip_cr(s.take(k))) + text_lines(s.skip(k + 1))
    } else if s.len() == 0 {
        seq![]
    } else {
        kept(s)
    }
}

proof fn lemma_first_newline(a: Seq<char>, s: Seq<char>)
    requires
        forall|i: int| 0 <= i < a.len() ==> #[trigger] a[i] != '\n',
        s.len() == 0 || s[0] == '\n',
    ensures
        first_newline(a + s) == a.len(),
    decreases a.len(),
{
    if a.len() == 0 {
        assert(a + s =~= s);
    } else {
        assert((a + s).drop_first() =~= a.drop_first() + s);
        assert forall|i: int| 0 <= i < a.drop_first().len() implies #[trigger] a.drop_first()[i]
            != '\n' by {
            assert(a.drop_first()[i] == a[i + 1]);
        }
        assert((a + s)[0] == a[0]);
        lemma_first_newline(a.drop_first(), s);
    }
}

proof fn lemma_line_then_rest(a: Seq<char>, rest: Seq<char>)
    requires
        forall|i: int| 0 <= i < a.len() ==> #[trigger] a[i] != '\n',
    ensures
        text_lines(a.push('\n') + rest) == kept(strip_cr(a)) + text_lines(rest),
{
    let s = a.push('\n') + rest;
    let tail = seq!['\n'] + rest;
    assert(s =~= a + tail);
    lemma_first_newline(a, tail);
    assert(s.take(a.len() as int) =~= a);
    assert(s.skip(a.len() as int + 1) =~= rest);
}

proof fn lemma_last_line(a: Seq<char>)
    requires
        forall|i: int| 0 <= i < a.len() ==> #[trigger] a[i] != '\n',
    ensures
        text_lines(a) == if a.len() == 0 {
            Seq::<Seq<char>>::empty()
        } else {
            kept(a)
        },
{
    lemma_first_newline(a, Seq::<char>::empty());
    assert(a + Seq::<char>::empty() =~= a);
}

/// The texts of a vector of strings.
pub open spec fn texts(v: Seq<String>) -> Seq<Seq<char>> {
    Seq::new(v.len(), |i: int| v[i]@)
}

fn keep_line(out: &mut Vec<String>, line: String)
    ensures
        texts(final(out)@) == texts(old(out)@) + kept(line@),
{
    if !is_blank(line.as_str()) {
        out.push(line);
    }
    assert(texts(out@) =~= texts(old(out)@) + kept(line@));
}

/// Split a log text into its lines, without the blank ones.
pub fn log_lines(text: &str) -> (r: Vec<String>)
    ensures
        texts(r@) == text_lines(text@),
{
    let mut out: Vec<String> = Vec::new();
    // The current line is `line`, and one more carriage return when `cr` is set.
    let mut line: String = String::new();
    let mut cr: bool = false;
    assert(texts(out@) =~= Seq::<Seq<char>>::empty());
    assert(text@.take(0) =~= Seq::<char>::empty());
    assert(line@ + text@.skip(0) =~= text@);
    assert(Seq::<Seq<char>>::empty() + text_lines(text@) =~= text_lines(text@));
    for c in it: text.chars()
        invariant
            it.seq() == text@,
            forall|i: int| 0 <= i < line@.len() ==> #[trigger] line@[i] != '\n',
            !cr ==> line@.len() == 0 || line@.last() != '\r',
            texts(out@) + text_lines(
                with_cr(line@, cr) + text@.skip(it.index() as int),
            ) == text_lines(text@),
    {
        let ghost current = line@;
        let ghost before = with_cr(line@, cr);
        let ghost kept_before = texts(out@);
        let ghost rest = text@.skip(it.index() + 1);
        proof {
            assert(text@.skip(it.index() as int) =~= seq![c] + rest);
            assert(before + text@.skip(it.index() as int) =~= before.push(c) + rest);
        }
        if c == '\n' {
            keep_line(&mut out, line);
            proof {
                lemma_line_then_rest(before, rest);
                assert(with_cr(Seq::<char>::empty(), false) + rest =~= rest);
                assert(strip_cr(before) =~= current);
                assert(kept_before + (kept(current) + text_lines(rest)) =~= kept_before + kept(
                    current,
                ) + text_lines(rest));
            }
            line = String::new();
            cr = false;
        } else {
            if cr {
                line.push('\r');
            }
            if c == '\r' {
                cr = true;
            } else {
                cr = false;
                line.push(c);
            }
            assert(with_cr(line@, cr) =~= before.push(c));
        }
    }
    proof {
        assert(text@.skip(text@.len() as int) =~= Seq::<char>::empty());
        assert(with_cr(line@, cr) + Seq::<char>::empty() =~= with_cr(line@, cr));
        lemma_last_line(with_cr(line@, cr));
    }
    if cr {
        line.push('\r');
    }
    keep_line(&mut out, line);
    out
}

spec fn with_cr(line: Seq<char>, cr: bool) -> Seq<char> {
    if cr {
        line.push('\r')
    } else {
        line
    }
}

/// One line of a log text.
pub fn frame_line(line: &str) -> (r: String)
    ensures
        r@ == line@.push('\n'),
{
    let mut out = line.to_string();
    out.push('\n');
    out
}

/// A log text made of framed lines.
pub open spec fn framed(lines: Seq<Seq<char>>) -> Seq<char>
    decreases lines.len(),
{
    if lines.len() == 0 {
        seq![]
    } else {
        lines[0].push('\n') + framed(lines.drop_first())
    }
}

/// A line that survives framing: it is not blank, holds no line feed, and does not end in a
/// carriage return. Every line that holds one JSON object is such a line.
pub open spec fn frameable(line: Seq<char>) -> bool {
    &&& !blank(line)
    &&& forall|i: int| 0 <= i < line.len() ==> #[trigger] line[i] != '\n'
    &&& line.len() > 0 ==> line.last() != '\r'
}

/// Reading back a log that was written line by line gives the lines that were written.
pub proof fn written_lines_read_back(lines: Seq<Seq<char>>)
    requires
        forall|i: int| 0 <= i < lines.len() ==> frameable(#[trigger] lines[i]),
    ensures
        text_lines(framed(lines)) == lines,
    decreases lines.len(),
{
    if lines.len() == 0 {
        assert(text_lines(framed(lines)) =~= lines);
    } else {
        let rest = lines.drop_first();
        assert(frameable(lines[0]));
        assert forall|i: int| 0 <= i < rest.len() implies frameable(#[trigger] rest[i]) by {
            assert(rest[i] == lines[i + 1]);
        }
        written_lines_read_back(rest);
        lemma_line_then_rest(lines[0], framed(rest));
        assert(strip_cr(lines[0]) == lines[0]);
        assert(seq![lines[0]] + rest =~= lines);
    }
}

/// How many line feeds a text holds.
pub open spec fn line_feeds(s: Seq<char>) -> nat
    decreases s.len(),
{
    if s.len() == 0 {
        0
    } else {
        line_feeds(s.drop_last()) + if s.last() == '\n' {
            1nat
        } else {
            0nat
        }
    }
}

proof fn lemma_line_feeds_append(a: Seq<char>, b: Seq<char>)
    ensures
        line_feeds(a + b) == line_feeds(a) + line_feeds(b),
    decreases b.len(),
{
    if b.len() == 0 {
        assert(a + b =~= a);
    } else {
        lemma_line_feeds_append(a, b.drop_last());
        assert((a + b).drop_last() =~= a + b.drop_last());
    }
}

proof fn lemma_no_line_feeds(s: Seq<char>)
    requires
        forall|i: int| 0 <= i < s.len() ==> #[trigger] s[i] != '\n',
    ensures
        line_feeds(s) == 0,
    decreases s.len(),
{
    if s.len() > 0 {
        assert forall|i: int| 0 <= i < s.drop_last().len() implies #[trigger] s.drop_last()[i]
            != '\n' by {
            assert(s[i] == s.drop_last()[i]);
        }
        lemma_no_line_feeds(s.drop_last());
    }
}

/// A log holds one line feed for each of its lines.
pub proof fn one_line_feed_per_line(lines: Seq<Seq<char>>)
    requires
        forall|i: int| 0 <= i < lines.len() ==> frameable(#[trigger] lines[i]),
    ensures
        line_feeds(framed(lines)) == lines.len(),
    decreases lines.len(),
{
    if lines.len() > 0 {
        let rest = lines.drop_first();
        assert forall|i: int| 0 <= i < rest.len() implies frameable(#[trigger] rest[i]) by {
            assert(rest[i] == lines[i + 1]);
        }
        one_line_feed_per_line(rest);
        assert(frameable(lines[0]));
        lemma_no_line_feeds(lines[0]);
        assert(lines[0].push('\n').drop_last() =~= lines[0]);
        lemma_line_feeds_append(lines[0].push('\n'), framed(rest));
    }
}

/// The log text of events, each written as a line by `encode`.
pub open spec fn log_text(
    events: Seq<EventModel>,
    encode: spec_fn(EventModel) -> Seq<char>,
) -> Seq<char> {
    framed(Seq::new(events.len(), |i: int| encode(events[i])))
}

/// Events that were written read back, for every encoding of an event as a line that `decode`
/// undoes: the same events in the same order, with one line feed each.
pub proof fn written_events_read_back(
    events: Seq<EventModel>,
    encode: spec_fn(EventModel) -> Seq<char>,
    decode: spec_fn(Seq<char>) -> Option<EventModel>,
)
    requires
        forall|i: int|
            0 <= i < events.len() ==> frameable(encode(#[trigger] events[i])) && decode(
                encode(events[i]),
            ) == Some(events[i]),
    ensures
        text_lines(log_text(events, encode)).len() == events.len(),
        forall|i: int|
            0 <= i < events.len() ==> decode(
                #[trigger] text_lines(log_text(events, encode))[i],
            ) == Some(events[i]),
        line_feeds(log_text(events, encode)) == events.len(),
{
    let lines = Seq::new(events.len(), |i: int| encode(events[i]));
    assert forall|i: int| 0 <= i < lines.len() implies frameable(#[trigger] lines[i]) by {
        assert(lines[i] == encode(events[i]));
    }
    written_lines_read_back(lines);
    one_line_feed_per_line(lines);
}

// ---------------------------------------------------------------------------
// What equality and the lines are
// ---------------------------------------------------------------------------

/// The bits of a double that is not a number: all exponent bits are set, and not all of the
/// others are zero.
pub open spec fn is_nan(bits: u64) -> bool {
    bits as int / 0x10_0000_0000_0000 % 0x800 == 0x7ff && bits as int % 0x10_0000_0000_0000 != 0
}

/// Numbers are equal as IEEE 754 has it: what is not a number equals nothing, itself included;
/// the two zeros are equal; all other numbers equal themselves alone.
pub proof fn numbers_are_equal_as_such(a: FloatBits, b: FloatBits)
    ensures
        float_same(a, a) <==> !is_nan(a.0),
        float_same(a, b) == float_same(b, a),
        float_same(FloatBits(0), FloatBits(0x8000_0000_0000_0000)),
        float_same(a, b) && a.0 != b.0 ==> (a.0 == 0 && b.0 == 0x8000_0000_0000_0000) || (b.0 == 0
            && a.0 == 0x8000_0000_0000_0000),
{
    lemma_not_a_number(a.0);
    assert(a.0 as int == magnitude(a.0) || a.0 as int == magnitude(a.0) + 0x8000_0000_0000_0000);
    assert(b.0 as int == magnitude(b.0) || b.0 as int == magnitude(b.0) + 0x8000_0000_0000_0000);
}

proof fn lemma_not_a_number(bits: u64)
    ensures
        is_nan(bits) <==> magnitude(bits) > 0x7ff0_0000_0000_0000,
{
    assert((bits / 0x10_0000_0000_0000 % 0x800 == 0x7ff && bits % 0x10_0000_0000_0000 != 0) <==> bits
        % 0x8000_0000_0000_0000 > 0x7ff0_0000_0000_0000) by (bit_vector);
}

/// Two events are equal exactly when they agree in every field: in name, actor, counter, kind,
/// clock and stamp, in the message, its sender and its receiver, in the hash, and in the value as
/// a number, if they have one.
pub proof fn equal_events_agree_in_every_field(a: CausalEvent, b: CausalEvent)
    ensures
        a.eq_spec(&b) <==> {
            &&& a.id@ == b.id@
            &&& a.actor@ == b.actor@
            &&& a.seq == b.seq
            &&& a.op == b.op
            &&& a.vclock@ == b.vclock@
            &&& a.lamport == b.lamport
            &&& a.msg_id is Some == b.msg_id is Some
            &&& a.msg_id is Some ==> a.msg_id->0@ == b.msg_id->0@
            &&& a.src is Some == b.src is Some
            &&& a.src is Some ==> a.src->0@ == b.src->0@
            &&& a.dst is Some == b.dst is Some
            &&& a.dst is Some ==> a.dst->0@ == b.dst->0@
            &&& a.value is Some == b.value is Some
            &&& a.value is Some ==> float_same(a.value->0, b.value->0)
            &&& a.payload_hash is Some == b.payload_hash is Some
            &&& a.payload_hash is Some ==> a.payload_hash->0@ == b.payload_hash->0@
        },
{
}

/// What an equality of events in a model says: every field is the same, the value as a number.
pub proof fn same_events_agree_in_every_field(a: EventModel, b: EventModel)
    ensures
        same_event(a, b) <==> {
            &&& a.value is Some == b.value is Some
            &&& a.value is Some ==> float_same(a.value->0, b.value->0)
            &&& a == (EventModel { value: a.value, ..b })
        },
{
}

/// The model of an event says all that the event says.
pub proof fn a_model_says_it_all(e: CausalEvent)
    ensures
        e@.id == e.id@,
        e@.actor == e.actor@,
        e@.seq == e.seq,
        e@.op == e.op,
        e@.vclock == e.vclock@,
        e@.lamport == e.lamport,
        e.msg_id is None ==> e@.msg_id is None,
        e.msg_id matches Some(s) ==> e@.msg_id == Some(s@),
        e.src is None ==> e@.src is None,
        e.src matches Some(s) ==> e@.src == Some(s@),
        e.dst is None ==> e@.dst is None,
        e.dst matches Some(s) ==> e@.dst == Some(s@),
        e@.value == e.value,
        e.payload_hash is None ==> e@.payload_hash is None,
        e.payload_hash matches Some(s) ==> e@.payload_hash == Some(s@),
{
}

/// The model of a log holds the models of its events, in order.
pub proof fn a_log_says_it_all(events: Seq<CausalEvent>)
    ensures
        log_model(events).len() == events.len(),
        forall|i: int| 0 <= i < events.len() ==> #[trigger] log_model(events)[i] == events[i]@,
{
}

/// A line ends at its line feed. A carriage return right before the line feed belongs to the
/// ending. A blank line is left out; any other is the next line of the text.
pub proof fn a_line_ends_at_its_line_feed(line: Seq<char>, rest: Seq<char>)
    requires
        forall|i: int| 0 <= i < line.len() ==> #[trigger] line[i] != '\n',
    ensures
        line.len() == 0 || line.last() != '\r' ==> text_lines(line + seq!['\n'] + rest) == (if blank(
            line,
        ) {
            seq![]
        } else {
            seq![line]
        }) + text_lines(rest),
        text_lines(line + seq!['\r', '\n'] + rest) == (if blank(line) {
            seq![]
        } else {
            seq![line]
        }) + text_lines(rest),
{
    assert(line + seq!['\n'] + rest =~= line.push('\n') + rest);
    lemma_line_then_rest(line, rest);
    let more = line.push('\r');
    assert(line + seq!['\r', '\n'] + rest =~= more.push('\n') + rest);
    lemma_line_then_rest(more, rest);
    assert(strip_cr(more) =~= line);
}

/// What follows the last line feed is a line too, unless it is blank, with all of its characters.
pub proof fn the_last_line_needs_no_line_feed(line: Seq<char>)
    requires
        forall|i: int| 0 <= i < line.len() ==> #[trigger] line[i] != '\n',
    ensures
        blank(line) ==> text_lines(line) == Seq::<Seq<char>>::empty(),
        !blank(line) ==> text_lines(line) == seq![line],
{
    lemma_last_line(line);
}

/// Framing writes every line with a line feed, one after the other.
pub proof fn framing_writes_line_by_line(a: Seq<Seq<char>>, b: Seq<Seq<char>>, line: Seq<char>)
    ensures
        framed(a + b) == framed(a) + framed(b),
        framed(seq![line]) == line + seq!['\n'],
        framed(Seq::empty()) == Seq::<char>::empty(),
    decreases a.len(),
{
    assert(seq![line].drop_first() =~= Seq::<Seq<char>>::empty());
    assert(framed(seq![line].drop_first()) =~= Seq::<char>::empty());
    assert(framed(seq![line]) =~= line + seq!['\n']);
    if a.len() == 0 {
        assert(a + b =~= b);
        assert(framed(a) + framed(b) =~= framed(b));
    } else {
        framing_writes_line_by_line(a.drop_first(), b, line);
        assert((a + b).drop_first() =~= a.drop_first() + b);
        assert(framed(a + b) =~= framed(a) + framed(b));
    }
}

/// The texts of strings are those of each string, in order.
pub proof fn texts_are_in_order(v: Seq<String>)
    ensures
        texts(v).len() == v.len(),
        forall|i: int| 0 <= i < v.len() ==> #[trigger] texts(v)[i] == v[i]@,
{
}

/// Values are compared as numbers.
pub proof fn values_are_compared_as_numbers(a: FloatBits, b: FloatBits)
    ensures
        a.eq_spec(&b) <==> float_same(a, b),
{
}

} // verus!
