//! Decimal text for integers, as written and read by the standard library.

use vstd::prelude::*;

verus! {

/// ASCII code of the digit `d` (`0 <= d < 10`).
pub open spec fn digit_byte(d: int) -> u8 {
    (48 + d) as u8
}

/// `true` when `b` is one of the ASCII digits `0`..`9`.
pub open spec fn is_digit(b: u8) -> bool {
    48 <= b <= 57
}

/// The shortest decimal rendering of `n`, most significant digit first.
pub open spec fn decimal_digits(n: nat) -> Seq<u8>
    decreases n,
{
    if n < 10 {
        seq![digit_byte(n as int)]
    } else {
        decimal_digits(n / 10).push(digit_byte((n % 10) as int))
    }
}

/// Text of a signed 32-bit integer: a minus sign for negative values, then the digits.
pub open spec fn decimal_i32(n: i32) -> Seq<u8> {
    if n < 0 {
        seq![45u8] + decimal_digits((-n) as nat)
    } else {
        decimal_digits(n as nat)
    }
}

/// Value of a run of ASCII digits read most significant first.
pub open spec fn digits_value(s: Seq<u8>) -> int
    decreases s.len(),
{
    if s.len() == 0 {
        0
    } else {
        digits_value(s.drop_last()) * 10 + (s.last() - 48)
    }
}

/// Every byte of `s` is an ASCII digit.
pub open spec fn all_digits(s: Seq<u8>) -> bool {
    forall|i: int| 0 <= i < s.len() ==> is_digit(#[trigger] s[i])
}

/// Why a text is not a 32-bit integer, as `std::num::IntErrorKind` tells it.
#[derive(Clone, Copy, Debug, PartialEq, Eq, Structural)]
pub enum IntErrorKind {
    /// The text is empty.
    Empty,
    /// A byte that is not a digit where a digit belongs.
    InvalidDigit,
    /// The value is above `i32::MAX`.
    PosOverflow,
    /// The value is below `i32::MIN`.
    NegOverflow,
}

/// Number of leading ASCII digits of `s`.
pub open spec fn digit_run(s: Seq<u8>) -> int
    decreases s.len(),
{
    if s.len() == 0 || !is_digit(s[0]) {
        0
    } else {
        1 + digit_run(s.drop_first())
    }
}

/// What `str::parse::<i32>` gives on the text `s`: an optional `+` or `-`,
/// then ASCII digits and nothing else, with a value in range. Digits are
/// read left to right and the first fault met decides the error: a value
/// that has left the range before the first non-digit is an overflow,
/// otherwise that non-digit is an invalid digit; a sign alone is an
/// invalid digit, and an empty text is `Empty`.
pub open spec fn parse_i32_spec(s: Seq<u8>) -> Result<i32, IntErrorKind> {
    let neg = s.len() > 0 && s[0] == 45u8;
    let signed = s.len() > 0 && (s[0] == 45u8 || s[0] == 43u8);
    let body = if signed { s.drop_first() } else { s };
    let k = digit_run(body);
    let v = digits_value(body.take(k));
    if s.len() == 0 {
        Err(IntErrorKind::Empty)
    } else if body.len() == 0 {
        Err(IntErrorKind::InvalidDigit)
    } else if !neg && v > i32::MAX {
        Err(IntErrorKind::PosOverflow)
    } else if neg && -v < i32::MIN {
        Err(IntErrorKind::NegOverflow)
    } else if k < body.len() {
        Err(IntErrorKind::InvalidDigit)
    } else if neg {
        Ok((-v) as i32)
    } else {
        Ok(v as i32)
    }
}

/// Appends the decimal digits of `n` to `out`.
pub fn push_decimal(out: &mut Vec<u8>, n: u64)
    ensures
        final(out)@ == old(out)@ + decimal_digits(n as nat),
    decreases n,
{
    if n >= 10 {
        push_decimal(out, n / 10);
    }
    let d: u8 = (n % 10) as u8;
    out.push(48u8 + d);
    proof {
        if n >= 10 {
            assert(decimal_digits(n as nat) == decimal_digits((n / 10) as nat).push(digit_byte((n % 10) as int)));
        }
    }
}

/// The decimal text of `n`, as `n.to_string()` writes it.
pub fn format_u64(n: u64) -> (r: Vec<u8>)
    ensures
        r@ == decimal_digits(n as nat),
{
    let mut out: Vec<u8> = Vec::new();
    push_decimal(&mut out, n);
    assert(out@ =~= decimal_digits(n as nat));
    out
}

/// The decimal text of `n`, as `n.to_string()` writes it.
pub fn format_i32(n: i32) -> (r: Vec<u8>)
    ensures
        r@ == decimal_i32(n),
{
    let mut out: Vec<u8> = Vec::new();
    if n < 0 {
        out.push(45u8);
        let magnitude: u64 = (0i64 - (n as i64)) as u64;
        push_decimal(&mut out, magnitude);
    } else {
        push_decimal(&mut out, n as u64);
    }
    assert(out@ =~= decimal_i32(n));
    out
}

/// Bound at which the magnitude read so far is already out of range for an `i32`.
pub open spec fn saturated(v: int) -> int {
    if v < 2147483649 { v } else { 2147483649 }
}

proof fn lemma_saturated_step(v: int, d: int)
    requires
        v >= 0,
        0 <= d < 10,
    ensures
        saturated(saturated(v) * 10 + d) == saturated(v * 10 + d),
{
}

proof fn lemma_digits_value_nonneg(s: Seq<u8>)
    requires
        all_digits(s),
    ensures
        digits_value(s) >= 0,
    decreases s.len(),
{
    if s.len() > 0 {
        assert(all_digits(s.drop_last())) by {
            assert forall|i: int| 0 <= i < s.drop_last().len() implies is_digit(#[trigger] s.drop_last()[i]) by {
                assert(s.drop_last()[i] == s[i]);
            }
        }
        lemma_digits_value_nonneg(s.drop_last());
        assert(is_digit(s[s.len() - 1]));
    }
}

proof fn lemma_digit_run(s: Seq<u8>, k: int)
    requires
        0 <= k <= s.len(),
        forall|j: int| 0 <= j < k ==> is_digit(#[trigger] s[j]),
        k == s.len() || !is_digit(s[k]),
    ensures
        digit_run(s) == k,
    decreases k,
{
    if k > 0 {
        let t = s.drop_first();
        assert forall|j: int| 0 <= j < k - 1 implies is_digit(#[trigger] t[j]) by {
            assert(t[j] == s[j + 1]);
        }
        if k < s.len() {
            assert(t[k - 1] == s[k]);
        }
        assert(is_digit(s[0]));
        lemma_digit_run(t, k - 1);
    }
}

/// Reads a signed 32-bit integer from its text, as `str::parse::<i32>`
/// does on an ASCII string, with the same kind of error.
pub fn parse_i32(s: &[u8]) -> (r: Result<i32, IntErrorKind>)
    ensures
        r == parse_i32_spec(s@),
{
    let len = s.len();
    if len == 0 {
        return Err(IntErrorKind::Empty);
    }
    let neg = s[0] == 45u8;
    let signed = neg || s[0] == 43u8;
    let start: usize = if signed { 1 } else { 0 };
    let ghost body = if signed { s@.drop_first() } else { s@ };
    assert(body =~= s@.subrange(start as int, len as int));
    if start == len {
        return Err(IntErrorKind::InvalidDigit);
    }
    let mut acc: u64 = 0;
    let mut i: usize = start;
    while i < len
        invariant
            start <= i <= len,
            len == s@.len(),
            body == s@.subrange(start as int, len as int),
            all_digits(s@.subrange(start as int, i as int)),
            acc as int == saturated(digits_value(s@.subrange(start as int, i as int))),
        ensures
            start <= i <= len,
            all_digits(s@.subrange(start as int, i as int)),
            acc as int == saturated(digits_value(s@.subrange(start as int, i as int))),
            i == len || !is_digit(s@[i as int]),
        decreases len - i,
    {
        let b = s[i];
        if b < 48u8 || b > 57u8 {
            break;
        }
        let ghost prev = s@.subrange(start as int, i as int);
        let ghost next = s@.subrange(start as int, i + 1);
        assert(next.drop_last() =~= prev);
        assert(next.last() == b);
        proof {
            lemma_digits_value_nonneg(prev);
            lemma_saturated_step(digits_value(prev), b - 48);
        }
        let grown: u64 = acc * 10 + (b - 48u8) as u64;
        acc = if grown > 2147483649 { 2147483649 } else { grown };
        assert forall|j: int| 0 <= j < next.len() implies is_digit(#[trigger] next[j]) by {
            if j < prev.len() {
                assert(next[j] == prev[j]);
            }
        }
        i = i + 1;
    }
    let ghost k: int = i - start;
    proof {
        assert forall|j: int| 0 <= j < k implies is_digit(#[trigger] body[j]) by {
            assert(body[j] == s@.subrange(start as int, i as int)[j]);
        }
        if i < len {
            assert(body[k] == s@[i as int]);
        }
        lemma_digit_run(body, k);
        assert(body.take(k) =~= s@.subrange(start as int, i as int));
        lemma_digits_value_nonneg(body.take(k));
    }
    if !neg && acc > 2147483647 {
        Err(IntErrorKind::PosOverflow)
    } else if neg && acc > 2147483648 {
        Err(IntErrorKind::NegOverflow)
    } else if i < len {
        Err(IntErrorKind::InvalidDigit)
    } else if neg {
        Ok((0i64 - acc as i64) as i32)
    } else {
        Ok(acc as i32)
    }
}

proof fn lemma_decimal_digits(n: nat)
    ensures
        digits_value(decimal_digits(n)) == n,
        all_digits(decimal_digits(n)),
        decimal_digits(n).len() > 0,
    decreases n,
{
    let s = decimal_digits(n);
    if n >= 10 {
        lemma_decimal_digits(n / 10);
        assert(s.drop_last() =~= decimal_digits(n / 10));
        assert(s.last() == digit_byte((n % 10) as int));
        assert(digits_value(s) == digits_value(decimal_digits(n / 10)) * 10 + (s.last() - 48));
        assert forall|i: int| 0 <= i < s.len() implies is_digit(#[trigger] s[i]) by {
            if i < s.len() - 1 {
                assert(s[i] == decimal_digits(n / 10)[i]);
            }
        }
    } else {
        assert(s.drop_last() =~= Seq::<u8>::empty());
        assert(digits_value(Seq::<u8>::empty()) == 0);
        assert(digits_value(s) == digits_value(s.drop_last()) * 10 + (s.last() - 48));
    }
}

/// Law: the text that `format_i32` writes for an integer is read back by
/// `parse_i32` as the same integer.
pub proof fn lemma_i32_text_roundtrip(n: i32)
    ensures
        parse_i32_spec(decimal_i32(n)) == Ok::<i32, IntErrorKind>(n),
{
    if n < 0 {
        let d = decimal_digits((-n) as nat);
        lemma_decimal_digits((-n) as nat);
        assert((seq![45u8] + d).drop_first() =~= d);
        lemma_digit_run(d, d.len() as int);
        assert(d.take(d.len() as int) =~= d);
    } else {
        lemma_decimal_digits(n as nat);
        let d = decimal_digits(n as nat);
        assert(is_digit(d[0]));
        lemma_digit_run(d, d.len() as int);
        assert(d.take(d.len() as int) =~= d);
    }
}

} // verus!
