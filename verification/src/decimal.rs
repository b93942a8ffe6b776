//! Signed decimal numerals in ASCII, as they appear on integer, length and
//! count lines of the wire protocol.

use crate::trusted::atoi_i64;
use vstd::prelude::*;

verus! {

/// The digit `0`. The other digits follow it in their order.
pub const ZERO: u8 = 48;

/// The digit `9`.
pub const NINE: u8 = 57;

/// The sign `+`.
pub const PLUS: u8 = 43;

/// The sign `-`.
pub const MINUS: u8 = 45;

/// Whether `b` is one of the ASCII digits `0` to `9`.
pub open spec fn is_digit(b: u8) -> bool {
    ZERO <= b <= NINE
}

/// How many ASCII digits `s` starts with.
pub open spec fn leading_digits(s: Seq<u8>) -> nat
    decreases s.len(),
{
    if s.len() > 0 && is_digit(s[0]) {
        1 + leading_digits(s.skip(1))
    } else {
        0
    }
}

/// The number that a run of ASCII digits denotes, most significant digit
/// first. The empty run denotes zero.
pub open spec fn digits_value(s: Seq<u8>) -> nat
    decreases s.len(),
{
    if s.len() == 0 {
        0
    } else {
        10 * digits_value(s.drop_last()) + (s.last() - ZERO) as nat
    }
}

/// Whether `text` starts with a `+` or `-` sign.
pub open spec fn has_sign(text: Seq<u8>) -> bool {
    text.len() > 0 && (text[0] == PLUS || text[0] == MINUS)
}

/// The signed number that `text` starts with, read leniently: an optional
/// sign, then the longest run of digits; whatever follows is ignored.
///
/// A sign with no digit behind it reads as zero. Without a sign at least one
/// digit is needed. A number outside the range of `i64` is no number.
#[verifier::opaque]
pub open spec fn parse_decimal(text: Seq<u8>) -> Option<i64> {
    let body = if has_sign(text) {
        text.skip(1)
    } else {
        text
    };
    let digits = body.take(leading_digits(body) as int);
    let magnitude = digits_value(digits) as int;
    let value = if has_sign(text) && text[0] == MINUS {
        -magnitude
    } else {
        magnitude
    };
    if !has_sign(text) && digits.len() == 0 {
        None
    } else if i64::MIN <= value <= i64::MAX {
        Some(value as i64)
    } else {
        None
    }
}

/// The signed number that `text` is, read strictly: an optional sign and then
/// digits, at least one, and nothing else.
pub open spec fn parse_integer_spec(text: Seq<u8>) -> Option<i64> {
    let body = if has_sign(text) {
        text.skip(1)
    } else {
        text
    };
    if body.len() > 0 && leading_digits(body) == body.len() {
        parse_decimal(text)
    } else {
        None
    }
}

/// The digits of `n` in base ten, without leading zeros; `0` is one digit.
pub open spec fn digits_of(n: nat) -> Seq<u8>
    decreases n,
{
    if n < 10 {
        seq![(ZERO + n) as u8]
    } else {
        digits_of(n / 10).push((ZERO + n % 10) as u8)
    }
}

/// The canonical numeral of `n`: a `-` for a negative number, then its
/// digits.
pub open spec fn decimal(n: int) -> Seq<u8> {
    if n < 0 {
        seq![MINUS] + digits_of((-n) as nat)
    } else {
        digits_of(n as nat)
    }
}

/// Every byte of `digits_of(n)` is a digit, and there is at least one.
pub proof fn lemma_digits_of_are_digits(n: nat)
    ensures
        digits_of(n).len() >= 1,
        forall|i: int| 0 <= i < digits_of(n).len() ==> is_digit(#[trigger] digits_of(n)[i]),
    decreases n,
{
    if n >= 10 {
        lemma_digits_of_are_digits(n / 10);
    }
}

/// The digits of `n` denote `n`.
pub proof fn lemma_digits_value_of(n: nat)
    ensures
        digits_value(digits_of(n)) == n,
    decreases n,
{
    let s = digits_of(n);
    if n < 10 {
        assert(s.drop_last() =~= Seq::<u8>::empty());
        assert(digits_value(s.drop_last()) == 0);
        assert(s.last() == (ZERO + n) as u8);
    } else {
        lemma_digits_value_of(n / 10);
        assert(s.drop_last() =~= digits_of(n / 10));
        assert(s.last() == (ZERO + n % 10) as u8);
    }
}

/// A run of digits followed by something that does not start with a digit
/// is counted in full.
pub proof fn lemma_leading_digits_run(run: Seq<u8>, rest: Seq<u8>)
    requires
        forall|i: int| 0 <= i < run.len() ==> is_digit(#[trigger] run[i]),
        rest.len() == 0 || !is_digit(rest[0]),
    ensures
        leading_digits(run + rest) == run.len(),
    decreases run.len(),
{
    if run.len() == 0 {
        assert(run + rest =~= rest);
    } else {
        assert((run + rest).skip(1) =~= run.skip(1) + rest);
        lemma_leading_digits_run(run.skip(1), rest);
    }
}

/// A canonical numeral is not empty, and each of its bytes is a digit or
/// the sign `-`.
pub proof fn lemma_decimal_bytes(n: int)
    ensures
        decimal(n).len() >= 1,
        forall|i: int|
            0 <= i < decimal(n).len() ==> is_digit(#[trigger] decimal(n)[i]) || decimal(n)[i]
                == MINUS,
{
    if n < 0 {
        lemma_digits_of_are_digits((-n) as nat);
    } else {
        lemma_digits_of_are_digits(n as nat);
    }
}

/// Reading the canonical numeral of `n` gives `n` back.
pub proof fn lemma_parse_decimal_of(n: i64)
    ensures
        parse_decimal(decimal(n as int)) == Some(n),
{
    reveal(parse_decimal);
    let text = decimal(n as int);
    let m: nat = if n < 0 { (-n) as nat } else { n as nat };
    let run = digits_of(m);
    lemma_digits_of_are_digits(m);
    lemma_digits_value_of(m);
    lemma_leading_digits_run(run, Seq::<u8>::empty());
    assert(run + Seq::<u8>::empty() =~= run);
    if n < 0 {
        assert(has_sign(text));
        assert(text.skip(1) =~= run);
        assert(run.take(run.len() as int) =~= run);
    } else {
        assert(text == run);
        assert(is_digit(run[0]));
        assert(!has_sign(text));
        assert(run.take(run.len() as int) =~= run);
    }
}

/// A numeral that reads as a negative number has a sign and a digit.
pub proof fn lemma_negative_numeral_len(text: Seq<u8>)
    requires
        parse_decimal(text) is Some,
        parse_decimal(text)->Some_0 < 0,
    ensures
        text.len() >= 2,
{
    reveal(parse_decimal);
    let body = text.skip(1);
    let digits = body.take(leading_digits(body) as int);
    if digits.len() == 0 {
        assert(digits_value(digits) == 0);
    }
    if body.len() == 0 {
        assert(leading_digits(body) == 0);
    }
}

/// Where every byte of `s` from `from` on is a digit, all of them count.
proof fn lemma_leading_digits_all(s: Seq<u8>)
    requires
        forall|i: int| 0 <= i < s.len() ==> is_digit(#[trigger] s[i]),
    ensures
        leading_digits(s) == s.len(),
    decreases s.len(),
{
    if s.len() > 0 {
        lemma_leading_digits_all(s.skip(1));
    }
}

/// The digits that `s` starts with are digits, and what follows them is none.
proof fn lemma_leading_digits_bounds(s: Seq<u8>)
    ensures
        leading_digits(s) <= s.len(),
        forall|i: int| 0 <= i < leading_digits(s) ==> is_digit(#[trigger] s[i]),
        leading_digits(s) < s.len() ==> !is_digit(s[leading_digits(s) as int]),
    decreases s.len(),
{
    if s.len() > 0 && is_digit(s[0]) {
        let t = s.skip(1);
        lemma_leading_digits_bounds(t);
        assert forall|i: int| 0 <= i < leading_digits(s) implies is_digit(#[trigger] s[i]) by {
            if i > 0 {
                assert(s[i] == t[i - 1]);
            }
        }
        if leading_digits(s) < s.len() {
            assert(s[leading_digits(s) as int] == t[leading_digits(t) as int]);
        }
    }
}

/// Reads `text` strictly as a signed number: an optional sign and then
/// digits, at least one, and nothing else.
pub fn parse_integer(text: &[u8]) -> (number: Option<i64>)
    ensures
        number == parse_integer_spec(text@),
{
    let start: usize = if text.len() > 0 && (text[0] == PLUS || text[0] == MINUS) {
        1
    } else {
        0
    };
    let ghost body = if has_sign(text@) {
        text@.skip(1)
    } else {
        text@
    };
    assert(body =~= text@.skip(start as int));
    if start == text.len() {
        return None;
    }
    let mut i: usize = start;
    while i < text.len()
        invariant
            start <= i <= text.len(),
            start < text.len(),
            body == text@.skip(start as int),
            parse_integer_spec(text@) == if leading_digits(body) == body.len() {
                parse_decimal(text@)
            } else {
                None
            },
            forall|j: int| start <= j < i ==> is_digit(#[trigger] text@[j]),
        decreases text.len() - i,
    {
        if !(ZERO <= text[i] && text[i] <= NINE) {
            proof {
                lemma_leading_digits_bounds(body);
                let run = leading_digits(body);
                if run == body.len() {
                    assert(is_digit(body[i - start]));
                }
            }
            return None;
        }
        i = i + 1;
    }
    proof {
        assert forall|j: int| 0 <= j < body.len() implies is_digit(#[trigger] body[j]) by {
            assert(body[j] == text@[j + start]);
        }
        lemma_leading_digits_all(body);
    }
    atoi_i64(text)
}

/// Appends the digits of `n` to `out`.
fn push_digits(out: &mut Vec<u8>, n: u64)
    ensures
        final(out)@ == old(out)@ + digits_of(n as nat),
    decreases n,
{
    if n >= 10 {
        push_digits(out, n / 10);
    }
    let digit: u8 = (n % 10) as u8;
    out.push(ZERO + digit);
}

/// Appends the canonical numeral of `n` to `out`.
pub fn push_decimal(out: &mut Vec<u8>, n: i64)
    ensures
        final(out)@ == old(out)@ + decimal(n as int),
{
    if n < 0 {
        out.push(MINUS);
        let magnitude: u64 = if n == i64::MIN {
            9223372036854775808u64
        } else {
            (-n) as u64
        };
        push_digits(out, magnitude);
    } else {
        push_digits(out, n as u64);
    }
}

/// Appends the canonical numeral of the length `n` to `out`.
pub fn push_length(out: &mut Vec<u8>, n: usize)
    ensures
        final(out)@ == old(out)@ + decimal(n as int),
{
    push_digits(out, n as u64);
}

} // verus!
