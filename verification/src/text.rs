//! Text helpers: the order of strings, decimal numbers and blank lines.

use vstd::arithmetic::div_mod::lemma_div_denominator;
use vstd::arithmetic::power::{lemma_pow_positive, pow};
use vstd::prelude::*;
use vstd::string::*;
use vstd::utf8::*;

verus! {

/// The three ways in which two ordered values can stand.
#[derive(Clone, Copy, PartialEq, Eq, Debug, Structural)]
pub enum Order {
    Less,
    Equal,
    Greater,
}

/// `k` is where `a` first falls behind `b`: they agree before `k`, and at `k` either `a`
/// has ended or its byte is the smaller one.
pub open spec fn falls_behind_at(a: Seq<u8>, b: Seq<u8>, k: int) -> bool {
    &&& 0 <= k <= a.len()
    &&& k < b.len()
    &&& forall|i: int| 0 <= i < k ==> #[trigger] a[i] == b[i]
    &&& (k == a.len() || a[k] < b[k])
}

/// Lexicographic order on byte strings.
pub open spec fn bytes_lt(a: Seq<u8>, b: Seq<u8>) -> bool {
    exists|k: int| falls_behind_at(a, b, k)
}

/// The order of strings: lexicographic on their UTF-8 bytes.
pub open spec fn text_lt(a: Seq<char>, b: Seq<char>) -> bool {
    bytes_lt(encode_utf8(a), encode_utf8(b))
}

/// No text comes before itself.
pub proof fn text_lt_irreflexive(a: Seq<char>)
    ensures
        !text_lt(a, a),
{
}

/// The order of texts is transitive.
pub proof fn text_lt_transitive(a: Seq<char>, b: Seq<char>, c: Seq<char>)
    requires
        text_lt(a, b),
        text_lt(b, c),
    ensures
        text_lt(a, c),
{
    let (x, y, z) = (encode_utf8(a), encode_utf8(b), encode_utf8(c));
    let i = choose|i: int| falls_behind_at(x, y, i);
    let j = choose|j: int| falls_behind_at(y, z, j);
    let k = if i <= j { i } else { j };
    assert forall|l: int| 0 <= l < k implies #[trigger] x[l] == z[l] by {
        assert(x[l] == y[l]);
        assert(y[l] == z[l]);
    }
    if j < i {
        assert(x[j] == y[j]);
    } else if i < j {
        assert(y[i] == z[i]);
    }
    assert(falls_behind_at(x, z, k));
}

/// Two texts with the same bytes are the same text.
proof fn lemma_bytes_determine_text(a: Seq<char>, b: Seq<char>)
    requires
        encode_utf8(a) == encode_utf8(b),
    ensures
        a == b,
{
    encode_utf8_decode_utf8(a);
    encode_utf8_decode_utf8(b);
}

/// From the first `k` bytes on, two byte strings that agree so far are ordered or equal.
proof fn lemma_bytes_total_from(a: Seq<u8>, b: Seq<u8>, k: int)
    requires
        0 <= k <= a.len(),
        k <= b.len(),
        forall|i: int| 0 <= i < k ==> #[trigger] a[i] == b[i],
    ensures
        a == b || bytes_lt(a, b) || bytes_lt(b, a),
    decreases a.len() - k,
{
    if k == a.len() && k == b.len() {
        assert(a =~= b);
    } else if k == a.len() {
        assert(falls_behind_at(a, b, k));
    } else if k == b.len() {
        assert(falls_behind_at(b, a, k));
    } else if a[k] < b[k] {
        assert(falls_behind_at(a, b, k));
    } else if b[k] < a[k] {
        assert(falls_behind_at(b, a, k));
    } else {
        lemma_bytes_total_from(a, b, k + 1);
    }
}

/// Of two different texts one comes first.
pub proof fn text_lt_total(a: Seq<char>, b: Seq<char>)
    ensures
        a == b || text_lt(a, b) || text_lt(b, a),
{
    lemma_bytes_total_from(encode_utf8(a), encode_utf8(b), 0);
    if encode_utf8(a) == encode_utf8(b) {
        lemma_bytes_determine_text(a, b);
    }
}

/// Compare two strings.
pub fn text_order(a: &str, b: &str) -> (r: Order)
    ensures
        r == Order::Less <==> text_lt(a@, b@),
        r == Order::Equal <==> a@ == b@,
        r == Order::Greater <==> text_lt(b@, a@),
{
    let x = a.as_bytes();
    let y = b.as_bytes();
    proof {
        text_lt_irreflexive(a@);
        if text_lt(a@, b@) && text_lt(b@, a@) {
            text_lt_transitive(a@, b@, a@);
        }
    }
    let mut i: usize = 0;
    while i < x.len() && i < y.len()
        invariant
            x@ == encode_utf8(a@),
            y@ == encode_utf8(b@),
            i <= x@.len(),
            i <= y@.len(),
            forall|j: int| 0 <= j < i ==> #[trigger] x@[j] == y@[j],
            !text_lt(a@, a@),
            !(text_lt(a@, b@) && text_lt(b@, a@)),
        decreases x@.len() - i,
    {
        if x[i] < y[i] {
            assert(falls_behind_at(x@, y@, i as int));
            return Order::Less;
        }
        if y[i] < x[i] {
            assert(falls_behind_at(y@, x@, i as int));
            return Order::Greater;
        }
        i = i + 1;
    }
    if i < y.len() {
        assert(falls_behind_at(x@, y@, i as int));
        Order::Less
    } else if i < x.len() {
        assert(falls_behind_at(y@, x@, i as int));
        Order::Greater
    } else {
        assert(x@ =~= y@);
        proof {
            lemma_bytes_determine_text(a@, b@);
        }
        Order::Equal
    }
}

/// The digit `d` as a character.
pub open spec fn digit_char(d: nat) -> char {
    (48 + d) as char
}

/// `n` in decimal, without leading zeros.
pub open spec fn decimal(n: nat) -> Seq<char>
    decreases n,
{
    if n < 10 {
        seq![digit_char(n)]
    } else {
        decimal(n / 10).push(digit_char(n % 10))
    }
}

/// Whether `c` is one of the ten ASCII digits.
pub open spec fn is_digit(c: char) -> bool {
    48 <= c as int <= 57
}

/// The number that a row of ASCII digits writes.
pub open spec fn digits_value(s: Seq<char>) -> nat
    decreases s.len(),
{
    if s.len() == 0 {
        0
    } else {
        digits_value(s.drop_last()) * 10 + (s.last() as int - 48) as nat
    }
}

/// Writing a number and reading its digits gives the number back.
pub proof fn decimal_reads_back(n: nat)
    ensures
        decimal(n).len() > 0,
        forall|i: int| 0 <= i < decimal(n).len() ==> is_digit(#[trigger] decimal(n)[i]),
        digits_value(decimal(n)) == n,
    decreases n,
{
    if n < 10 {
        let s = decimal(n);
        assert(s.drop_last() =~= Seq::<char>::empty());
        assert(s.last() == digit_char(n));
        assert(digits_value(s.drop_last()) == 0);
    } else {
        decimal_reads_back(n / 10);
        let s = decimal(n);
        assert(s.drop_last() =~= decimal(n / 10));
        assert(s.last() == digit_char(n % 10));
        assert forall|i: int| 0 <= i < s.len() implies is_digit(#[trigger] s[i]) by {
            if i < s.len() - 1 {
                assert(s[i] == decimal(n / 10)[i]);
            }
        }
    }
}

fn digit_str(d: u64) -> (r: &'static str)
    requires
        d < 10,
    ensures
        r@ == seq![digit_char(d as nat)],
{
    proof {
        reveal_strlit("0");
        reveal_strlit("1");
        reveal_strlit("2");
        reveal_strlit("3");
        reveal_strlit("4");
        reveal_strlit("5");
        reveal_strlit("6");
        reveal_strlit("7");
        reveal_strlit("8");
        reveal_strlit("9");
    }
    if d == 0 {
        "0"
    } else if d == 1 {
        "1"
    } else if d == 2 {
        "2"
    } else if d == 3 {
        "3"
    } else if d == 4 {
        "4"
    } else if d == 5 {
        "5"
    } else if d == 6 {
        "6"
    } else if d == 7 {
        "7"
    } else if d == 8 {
        "8"
    } else {
        "9"
    }
}

/// Append `n` in decimal to `out`.
pub fn push_decimal(out: &mut String, n: u64)
    ensures
        final(out)@ == old(out)@ + decimal(n as nat),
    decreases n,
{
    if n >= 10 {
        push_decimal(out, n / 10);
    }
    out.append(digit_str(n % 10));
    assert(out@ =~= old(out)@ + decimal(n as nat));
}

/// The characters of a string.
pub fn chars_of(s: &str) -> (r: Vec<char>)
    ensures
        r@ == s@,
{
    let mut out: Vec<char> = Vec::new();
    for c in it: s.chars()
        invariant
            out@ == it.seq().take(it.index() as int),
            it.seq() == s@,
    {
        out.push(c);
        assert(out@ =~= it.seq().take(it.index() as int + 1));
    }
    assert(s@.take(s@.len() as int) =~= s@);
    out
}

/// The characters with the Unicode property `White_Space`.
pub open spec fn is_white(c: char) -> bool {
    let n = c as int;
    ||| 0x09 <= n <= 0x0d
    ||| n == 0x20
    ||| n == 0x85
    ||| n == 0xa0
    ||| n == 0x1680
    ||| 0x2000 <= n <= 0x200a
    ||| n == 0x2028
    ||| n == 0x2029
    ||| n == 0x202f
    ||| n == 0x205f
    ||| n == 0x3000
}

/// A text is blank when it holds white space only.
pub open spec fn blank(s: Seq<char>) -> bool {
    forall|i: int| 0 <= i < s.len() ==> is_white(#[trigger] s[i])
}

fn char_is_white(c: char) -> (r: bool)
    ensures
        r == is_white(c),
{
    let n: u32 = c as u32;
    (0x09 <= n && n <= 0x0d) || n == 0x20 || n == 0x85 || n == 0xa0 || n == 0x1680 || (0x2000 <= n
        && n <= 0x200a) || n == 0x2028 || n == 0x2029 || n == 0x202f || n == 0x205f || n == 0x3000
}

/// Whether a line holds white space only.
pub fn is_blank(s: &str) -> (r: bool)
    ensures
        r == blank(s@),
{
    let cs = chars_of(s);
    let mut i: usize = 0;
    while i < cs.len()
        invariant
            cs@ == s@,
            i <= cs@.len(),
            forall|j: int| 0 <= j < i ==> is_white(#[trigger] s@[j]),
        decreases cs@.len() - i,
    {
        if !char_is_white(cs[i]) {
            return false;
        }
        i = i + 1;
    }
    true
}

// ---------------------------------------------------------------------------
// What the order of texts, decimal numbers and blank lines are
// ---------------------------------------------------------------------------

proof fn lemma_encode_append(a: Seq<char>, b: Seq<char>)
    ensures
        encode_utf8(a + b) == encode_utf8(a) + encode_utf8(b),
    decreases a.len(),
{
    if a.len() == 0 {
        assert(a + b =~= b);
        assert(encode_utf8(a) + encode_utf8(b) =~= encode_utf8(b));
    } else {
        lemma_encode_append(a.drop_first(), b);
        assert((a + b).drop_first() =~= a.drop_first() + b);
        assert((a + b)[0] == a[0]);
        assert(encode_utf8(a + b) =~= encode_utf8(a) + encode_utf8(b));
    }
}

/// The bytes of the smaller of two scalars fall behind those of the larger, within both.
proof fn lemma_scalars_in_order(c: u32, d: u32)
    requires
        c < d,
        is_scalar(c),
        is_scalar(d),
    ensures
        exists|k: int|
            k < encode_scalar(c).len() && #[trigger] falls_behind_at(
                encode_scalar(c),
                encode_scalar(d),
                k,
            ),
{
    let (x, y) = (encode_scalar(c), encode_scalar(d));
    assert(c <= 0x7f ==> ((c & 0x7f) as u8) < 0x80 && ((c & 0x7f) as u8) as u32 == c)
        by (bit_vector);
    assert(d <= 0x7f ==> ((d & 0x7f) as u8) < 0x80 && ((d & 0x7f) as u8) as u32 == d)
        by (bit_vector);
    assert(0x80 <= c <= 0x7ff ==> 0xc0 <= (0xc0u8 | ((c >> 6) & 0x1f) as u8) < 0xe0)
        by (bit_vector);
    assert(0x80 <= d <= 0x7ff ==> 0xc0 <= (0xc0u8 | ((d >> 6) & 0x1f) as u8) < 0xe0)
        by (bit_vector);
    assert(0x800 <= c <= 0xffff ==> 0xe0 <= (0xe0u8 | ((c >> 12) & 0x0f) as u8) < 0xf0)
        by (bit_vector);
    assert(0x800 <= d <= 0xffff ==> 0xe0 <= (0xe0u8 | ((d >> 12) & 0x0f) as u8) < 0xf0)
        by (bit_vector);
    assert(0x10000 <= d <= 0x10ffff ==> 0xf0 <= (0xf0u8 | ((d >> 18) & 0x7) as u8))
        by (bit_vector);
    if c <= 0x7f && d <= 0x7f {
        assert(falls_behind_at(x, y, 0));
    } else if 0x80 <= c && d <= 0x7ff {
        assert((0xc0u8 | ((c >> 6) & 0x1f) as u8) < (0xc0u8 | ((d >> 6) & 0x1f) as u8) || ((0xc0u8
            | ((c >> 6) & 0x1f) as u8) == (0xc0u8 | ((d >> 6) & 0x1f) as u8) && (0x80u8 | (c
            & 0x3f) as u8) < (0x80u8 | (d & 0x3f) as u8))) by (bit_vector)
            requires
                c < d,
                0x80 <= c,
                d <= 0x7ff,
        ;
        assert(falls_behind_at(x, y, 0) || falls_behind_at(x, y, 1));
    } else if 0x800 <= c && d <= 0xffff {
        assert((0xe0u8 | ((c >> 12) & 0x0f) as u8) < (0xe0u8 | ((d >> 12) & 0x0f) as u8) || ((
        0xe0u8 | ((c >> 12) & 0x0f) as u8) == (0xe0u8 | ((d >> 12) & 0x0f) as u8) && ((0x80u8 | ((c
            >> 6) & 0x3f) as u8) < (0x80u8 | ((d >> 6) & 0x3f) as u8) || ((0x80u8 | ((c >> 6)
            & 0x3f) as u8) == (0x80u8 | ((d >> 6) & 0x3f) as u8) && (0x80u8 | (c & 0x3f) as u8) < (
        0x80u8 | (d & 0x3f) as u8))))) by (bit_vector)
            requires
                c < d,
                0x800 <= c,
                d <= 0xffff,
        ;
        assert(falls_behind_at(x, y, 0) || falls_behind_at(x, y, 1) || falls_behind_at(x, y, 2));
    } else if 0x10000 <= c {
        assert((0xf0u8 | ((c >> 18) & 0x7) as u8) < (0xf0u8 | ((d >> 18) & 0x7) as u8) || ((0xf0u8
            | ((c >> 18) & 0x7) as u8) == (0xf0u8 | ((d >> 18) & 0x7) as u8) && ((0x80u8 | ((c
            >> 12) & 0x3f) as u8) < (0x80u8 | ((d >> 12) & 0x3f) as u8) || ((0x80u8 | ((c >> 12)
            & 0x3f) as u8) == (0x80u8 | ((d >> 12) & 0x3f) as u8) && ((0x80u8 | ((c >> 6)
            & 0x3f) as u8) < (0x80u8 | ((d >> 6) & 0x3f) as u8) || ((0x80u8 | ((c >> 6)
            & 0x3f) as u8) == (0x80u8 | ((d >> 6) & 0x3f) as u8) && (0x80u8 | (c & 0x3f) as u8) < (
        0x80u8 | (d & 0x3f) as u8))))))) by (bit_vector)
            requires
                c < d,
                0x10000 <= c,
                d <= 0x10ffff,
        ;
        assert(falls_behind_at(x, y, 0) || falls_behind_at(x, y, 1) || falls_behind_at(x, y, 2)
            || falls_behind_at(x, y, 3));
    } else {
        assert(falls_behind_at(x, y, 0));
    }
}

/// A text comes before every longer one that begins with it.
pub proof fn a_beginning_comes_first(a: Seq<char>, more: Seq<char>)
    requires
        more.len() > 0,
    ensures
        text_lt(a, a + more),
{
    lemma_encode_append(a, more);
    encode_utf8_decode_utf8(more);
    let (x, y) = (encode_utf8(a), encode_utf8(a + more));
    assert(encode_utf8(more).len() > 0) by {
        assert(encode_scalar(more[0] as u32).len() > 0);
    }
    assert(falls_behind_at(x, y, x.len() as int));
}

/// Of two texts that begin alike, the one with the smaller character where they first differ
/// comes first, whatever follows.
pub proof fn the_first_difference_decides(
    start: Seq<char>,
    c: char,
    d: char,
    a: Seq<char>,
    b: Seq<char>,
)
    requires
        c < d,
    ensures
        text_lt(start.push(c) + a, start.push(d) + b),
        !text_lt(start.push(d) + b, start.push(c) + a),
{
    broadcast use char_is_scalar;

    let (s, t) = (start.push(c) + a, start.push(d) + b);
    assert(s =~= start + (seq![c] + a));
    assert(t =~= start + (seq![d] + b));
    lemma_encode_append(start, seq![c] + a);
    lemma_encode_append(start, seq![d] + b);
    assert((seq![c] + a).drop_first() =~= a);
    assert((seq![d] + b).drop_first() =~= b);
    let p = encode_utf8(start);
    let (x, y) = (encode_scalar(c as u32), encode_scalar(d as u32));
    assert(encode_utf8(s) =~= p + x + encode_utf8(a));
    assert(encode_utf8(t) =~= p + y + encode_utf8(b));
    assert(is_scalar(c as u32) && is_scalar(d as u32));
    lemma_scalars_in_order(c as u32, d as u32);
    let k = choose|k: int| k < x.len() && #[trigger] falls_behind_at(x, y, k);
    let (u, v) = (encode_utf8(s), encode_utf8(t));
    assert forall|i: int| 0 <= i < p.len() + k implies #[trigger] u[i] == v[i] by {
        if i >= p.len() {
            assert(x[i - p.len()] == y[i - p.len()]);
        }
    }
    assert(u[p.len() + k] == x[k]);
    assert(v[p.len() + k] == y[k]);
    assert(falls_behind_at(u, v, p.len() + k));
    if text_lt(t, s) {
        text_lt_transitive(s, t, s);
        text_lt_irreflexive(s);
    }
}

/// The digits of a number in decimal, by their places: the digit `k` places from the right is
/// the `k`-th one of the number, and the first digit is not a zero unless it is the only one.
pub proof fn decimal_is_positional(n: nat)
    ensures
        decimal(n).len() > 0,
        n < pow(10, decimal(n).len()),
        decimal(n).len() > 1 ==> pow(10, (decimal(n).len() - 1) as nat) <= n,
        forall|i: int|
            0 <= i < decimal(n).len() ==> (#[trigger] decimal(n)[i]) as int == '0' as int + (
            n as int / pow(10, (decimal(n).len() - 1 - i) as nat)) % 10,
    decreases n,
{
    let s = decimal(n);
    reveal(pow);
    if n < 10 {
        assert(pow(10, 0) == 1);
        assert(pow(10, 1) == 10 * pow(10, 0));
        assert(s.len() == 1);
        assert(s[0] == digit_char(n));
        assert(n as int / 1 == n);
    } else {
        let m = n / 10;
        let less = decimal(m);
        decimal_is_positional(m);
        assert(s.len() == less.len() + 1);
        assert(pow(10, s.len()) == 10 * pow(10, less.len()));
        if less.len() > 1 {
            assert(pow(10, less.len()) == 10 * pow(10, (less.len() - 1) as nat));
        } else {
            assert(pow(10, 0) == 1);
            assert(pow(10, 1) == 10 * pow(10, 0));
        }
        assert forall|i: int| 0 <= i < s.len() implies (#[trigger] s[i]) as int == '0' as int + (
        n as int / pow(10, (s.len() - 1 - i) as nat)) % 10 by {
            if i < less.len() {
                let e = (less.len() - 1 - i) as nat;
                assert(s[i] == less[i]);
                assert(pow(10, e + 1) == 10 * pow(10, e));
                lemma_pow_positive(10, e);
                lemma_div_denominator(n as int, 10, pow(10, e));
            } else {
                assert(s[i] == digit_char(n % 10));
                assert(pow(10, 0) == 1);
                assert(n as int / 1 == n);
            }
        }
    }
}

/// So many zeros.
pub open spec fn zeros_of(n: nat) -> Seq<char> {
    Seq::new(n, |i: int| '0')
}

/// Reading digits: one more digit at the end makes the number ten times as large, and adds the
/// digit.
pub proof fn a_digit_more(s: Seq<char>, c: char)
    requires
        '0' <= c <= '9',
    ensures
        digits_value(s.push(c)) == 10 * digits_value(s) + (c as int - '0' as int),
        digits_value(seq![c]) == c as int - '0' as int,
{
    assert(s.push(c).drop_last() =~= s);
    assert(seq![c].drop_last() =~= Seq::<char>::empty());
    assert(digits_value(seq![c].drop_last()) == 0);
}

/// A row of digits is a number in decimal, with zeros before it or not.
pub proof fn digits_are_a_number(s: Seq<char>)
    requires
        s.len() > 0,
        forall|i: int| 0 <= i < s.len() ==> '0' <= #[trigger] s[i] <= '9',
    ensures
        exists|zeros: nat| s == #[trigger] zeros_of(zeros) + decimal(digits_value(s)),
    decreases s.len(),
{
    let less = s.drop_last();
    let c = s.last();
    let d = (c as int - '0' as int) as nat;
    assert(s =~= less.push(c));
    assert('0' <= s[s.len() - 1] <= '9');
    a_digit_more(less, c);
    assert(digit_char(d) == c);
    if less.len() == 0 {
        assert(digits_value(less) == 0);
        assert(s =~= zeros_of(0) + decimal(d));
    } else {
        assert forall|i: int| 0 <= i < less.len() implies '0' <= #[trigger] less[i] <= '9' by {
            assert(less[i] == s[i]);
        }
        digits_are_a_number(less);
        let v = digits_value(less);
        let z = choose|zeros: nat| less == #[trigger] zeros_of(zeros) + decimal(v);
        if v == 0 {
            assert(decimal(0) =~= seq!['0']);
            assert(s =~= zeros_of(z + 1) + decimal(d));
        } else {
            assert((10 * v + d) / 10 == v);
            assert((10 * v + d) % 10 == d);
            assert(decimal(10 * v + d) == decimal(v).push(c));
            assert(s =~= zeros_of(z) + decimal(10 * v + d));
        }
    }
}

/// Zeros before a number do not change it.
pub proof fn zeros_before_a_number(zeros: nat, n: nat)
    ensures
        digits_value(zeros_of(zeros) + decimal(n)) == n,
        forall|i: int|
            0 <= i < zeros + decimal(n).len() ==> '0' <= #[trigger] (zeros_of(zeros)
                + decimal(n))[i] <= '9',
    decreases n,
{
    let z = zeros_of(zeros);
    let s = z + decimal(n);
    decimal_reads_back(n);
    assert forall|i: int| 0 <= i < s.len() implies '0' <= #[trigger] s[i] <= '9' by {
        if i >= zeros {
            assert(is_digit(decimal(n)[i - zeros]));
        }
    }
    if n < 10 {
        lemma_only_zeros(zeros);
        assert(s =~= z.push(digit_char(n)));
        a_digit_more(z, digit_char(n));
    } else {
        zeros_before_a_number(zeros, n / 10);
        assert(s =~= (z + decimal(n / 10)).push(digit_char(n % 10)));
        a_digit_more(z + decimal(n / 10), digit_char(n % 10));
    }
}

proof fn lemma_only_zeros(zeros: nat)
    ensures
        digits_value(zeros_of(zeros)) == 0,
    decreases zeros,
{
    if zeros > 0 {
        lemma_only_zeros((zeros - 1) as nat);
        let z = zeros_of(zeros);
        assert(z.drop_last() =~= zeros_of((zeros - 1) as nat));
    }
}

/// A text is blank exactly when every character of it is one of the twenty-five white ones.
pub proof fn blank_texts_hold_white_space(s: Seq<char>)
    ensures
        blank(s) <==> forall|i: int|
            0 <= i < s.len() ==> {
                ||| (#[trigger] s[i]) == '\t'
                ||| s[i] == '\n'
                ||| s[i] == '\u{b}'
                ||| s[i] == '\u{c}'
                ||| s[i] == '\r'
                ||| s[i] == ' '
                ||| s[i] == '\u{85}'
                ||| s[i] == '\u{a0}'
                ||| s[i] == '\u{1680}'
                ||| '\u{2000}' <= s[i] <= '\u{200a}'
                ||| s[i] == '\u{2028}'
                ||| s[i] == '\u{2029}'
                ||| s[i] == '\u{202f}'
                ||| s[i] == '\u{205f}'
                ||| s[i] == '\u{3000}'
            },
{
    assert forall|i: int| 0 <= i < s.len() && is_white(#[trigger] s[i]) implies {
        ||| s[i] == '\t'
        ||| s[i] == '\n'
        ||| s[i] == '\u{b}'
        ||| s[i] == '\u{c}'
        ||| s[i] == '\r'
        ||| s[i] == ' '
        ||| s[i] == '\u{85}'
        ||| s[i] == '\u{a0}'
        ||| s[i] == '\u{1680}'
        ||| '\u{2000}' <= s[i] <= '\u{200a}'
        ||| s[i] == '\u{2028}'
        ||| s[i] == '\u{2029}'
        ||| s[i] == '\u{202f}'
        ||| s[i] == '\u{205f}'
        ||| s[i] == '\u{3000}'
    } by {}
}

} // verus!
