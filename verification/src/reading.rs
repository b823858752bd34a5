//! Fixed-point readings: text with one fractional digit, held as tenths.

use vstd::prelude::*;
use crate::error::ErrorKind;

verus! {

/// The byte `-`.
pub const MINUS: u8 = 45;

/// The byte `.`.
pub const POINT: u8 = 46;

/// The byte `0`.
pub const ZERO: u8 = 48;

/// Whether `b` is one of the bytes `0` to `9`.
pub open spec fn is_digit(b: u8) -> bool {
    ZERO <= b <= ZERO + 9
}

/// The number that the digit byte `b` stands for.
pub open spec fn digit_value(b: u8) -> int {
    b - ZERO
}

/// The digit byte that stands for `d`, for `d` below ten.
pub open spec fn digit_byte(d: int) -> u8 {
    (ZERO + d) as u8
}

/// Whether every byte of `s` is a digit.
pub open spec fn all_digits(s: Seq<u8>) -> bool {
    forall|i: int| 0 <= i < s.len() ==> is_digit(#[trigger] s[i])
}

/// The number written by the digits `s`, most significant first.
pub open spec fn decimal_value(s: Seq<u8>) -> int
    decreases s.len(),
{
    if s.len() == 0 {
        0
    } else {
        decimal_value(s.drop_last()) * 10 + digit_value(s.last())
    }
}

/// The digits of `n`, most significant first, without leading zeros.
pub open spec fn decimal_digits(n: nat) -> Seq<u8>
    decreases n,
{
    if n < 10 {
        seq![digit_byte(n as int)]
    } else {
        decimal_digits(n / 10).push(digit_byte((n % 10) as int))
    }
}

/// Whether `s` starts with a minus sign.
pub open spec fn has_sign(s: Seq<u8>) -> bool {
    s.len() > 0 && s[0] == MINUS
}

/// `s` without its leading minus sign, if it has one.
pub open spec fn unsigned_part(s: Seq<u8>) -> Seq<u8> {
    if has_sign(s) {
        s.skip(1)
    } else {
        s
    }
}

/// The grammar of a reading: an optional minus, one to three digits, a
/// point, one digit.
pub open spec fn is_reading(s: Seq<u8>) -> bool {
    let body = unsigned_part(s);
    let n = body.len() as int;
    &&& 3 <= n <= 5
    &&& all_digits(body.take(n - 2))
    &&& body[n - 2] == POINT
    &&& is_digit(body[n - 1])
}

/// The value in tenths of a text that `is_reading`.
pub open spec fn reading_value(s: Seq<u8>) -> int {
    let body = unsigned_part(s);
    let n = body.len() as int;
    let magnitude = decimal_value(body.take(n - 2)) * 10 + digit_value(body[n - 1]);
    if has_sign(s) {
        -magnitude
    } else {
        magnitude
    }
}

/// The text of a value in tenths: a minus if it is negative, the integer
/// part without leading zeros, a point, the tenths digit.
pub open spec fn render_tenths(v: int) -> Seq<u8> {
    let m = if v < 0 { -v } else { v };
    let sign = if v < 0 { seq![MINUS] } else { Seq::<u8>::empty() };
    sign + decimal_digits((m / 10) as nat) + seq![POINT, digit_byte(m % 10)]
}

fn is_digit_byte(b: u8) -> (r: bool)
    ensures
        r == is_digit(b),
{
    ZERO <= b && b <= ZERO + 9
}

/// Reads a reading, from its last byte towards its first, as tenths of a
/// degree. No floating point is involved.
pub fn parse_reading(input: &[u8]) -> (r: Result<i16, ErrorKind>)
    ensures
        match r {
            Ok(v) => is_reading(input@) && v == reading_value(input@),
            Err(e) => !is_reading(input@) && e == ErrorKind::MalformedReading,
        },
{
    let n: usize = input.len();
    if n < 3 {
        return Err(ErrorKind::MalformedReading);
    }
    let negative: bool = input[0] == MINUS;
    let start: usize = if negative { 1 } else { 0 };
    let ghost body = unsigned_part(input@);
    assert(body.len() == n - start);
    assert(forall|i: int| 0 <= i < body.len() ==> body[i] == input@[i + start]);
    if n - start < 3 || n - start > 5 {
        return Err(ErrorKind::MalformedReading);
    }
    if input[n - 2] != POINT || !is_digit_byte(input[n - 1]) {
        return Err(ErrorKind::MalformedReading);
    }
    let ghost whole = body.take(body.len() - 2);
    let mut value: i16 = 0;
    let mut i: usize = start;
    while i < n - 2
        invariant
            start <= i <= n - 2,
            n == input@.len(),
            3 <= n - start <= 5,
            body == unsigned_part(input@),
            body.len() == n - start,
            whole == body.take(body.len() - 2),
            forall|j: int| 0 <= j < body.len() ==> body[j] == input@[j + start],
            all_digits(whole.take(i - start)),
            value == decimal_value(whole.take(i - start)),
            i - start == 0 ==> value == 0,
            i - start == 1 ==> 0 <= value < 10,
            i - start == 2 ==> 0 <= value < 100,
            i - start == 3 ==> 0 <= value < 1000,
        decreases n - i,
    {
        let b: u8 = input[i];
        proof {
            let k = i - start;
            assert(whole.take(k + 1).drop_last() == whole.take(k));
            assert(whole.take(k + 1).last() == b);
        }
        if !is_digit_byte(b) {
            proof {
                assert(whole[i - start] == b);
            }
            return Err(ErrorKind::MalformedReading);
        }
        value = value * 10 + (b - ZERO) as i16;
        i = i + 1;
    }
    assert(whole.take(i - start) == whole);
    let tenths: i16 = (input[n - 1] - ZERO) as i16;
    let magnitude: i16 = value * 10 + tenths;
    if negative {
        Ok(-magnitude)
    } else {
        Ok(magnitude)
    }
}

/// The digits of a number are digits, there is at least one, and they
/// write that number.
pub proof fn decimal_digits_value(n: nat)
    ensures
        decimal_digits(n).len() >= 1,
        all_digits(decimal_digits(n)),
        decimal_value(decimal_digits(n)) == n,
    decreases n,
{
    if n < 10 {
        let s = decimal_digits(n);
        assert(s.drop_last() =~= Seq::<u8>::empty());
        assert(decimal_value(s.drop_last()) == 0);
    } else {
        let front = decimal_digits(n / 10);
        decimal_digits_value(n / 10);
        let s = decimal_digits(n);
        assert(s.drop_last() =~= front);
        assert forall|i: int| 0 <= i < s.len() implies is_digit(#[trigger] s[i]) by {
            if i < front.len() {
                assert(s[i] == front[i]);
            }
        }
    }
}

/// A number below a thousand has at most three digits.
pub proof fn decimal_digits_len(n: nat)
    requires
        n < 1000,
    ensures
        decimal_digits(n).len() <= 3,
{
    reveal_with_fuel(decimal_digits, 3);
}

/// Writing a value in tenths and reading the text back gives the value:
/// for every value from -9999 to 9999, which are those that the grammar of
/// readings can express.
pub proof fn reading_round_trip(v: int)
    requires
        -9999 <= v <= 9999,
    ensures
        is_reading(render_tenths(v)),
        reading_value(render_tenths(v)) == v,
{
    let m = if v < 0 { -v } else { v };
    let digits = decimal_digits((m / 10) as nat);
    let tail = seq![POINT, digit_byte(m % 10)];
    let text = render_tenths(v);
    decimal_digits_value((m / 10) as nat);
    decimal_digits_len((m / 10) as nat);
    assert(is_digit(digits[0]));
    let body = unsigned_part(text);
    if v < 0 {
        assert(text =~= seq![MINUS] + digits + tail);
        assert(text[0] == MINUS);
        assert(body =~= digits + tail);
    } else {
        assert(text =~= digits + tail);
        assert(text[0] == digits[0]);
        assert(body =~= digits + tail);
    }
    let n = body.len() as int;
    assert(body.take(n - 2) =~= digits);
    assert(body[n - 2] == POINT);
    assert(body[n - 1] == digit_byte(m % 10));
}

/// Appends the text of `v` tenths to `out`: a minus if `v` is negative, the
/// integer part, a point, the tenths digit.
pub fn format_tenths(v: i16, out: &mut Vec<u8>)
    ensures
        final(out)@ == old(out)@ + render_tenths(v as int),
{
    let ghost before = out@;
    let m: u16 = if v < 0 {
        out.push(MINUS);
        (-(v as i32)) as u16
    } else {
        v as u16
    };
    let ghost sign = if v < 0 { seq![MINUS] } else { Seq::<u8>::empty() };
    assert(out@ =~= before + sign);
    let whole: u16 = m / 10;
    let tenths: u16 = m % 10;
    proof {
        reveal_with_fuel(decimal_digits, 4);
    }
    let ghost digits = decimal_digits(whole as nat);
    if whole >= 1000 {
        out.push(ZERO + (whole / 1000) as u8);
    }
    if whole >= 100 {
        out.push(ZERO + ((whole / 100) % 10) as u8);
    }
    if whole >= 10 {
        out.push(ZERO + ((whole / 10) % 10) as u8);
    }
    out.push(ZERO + (whole % 10) as u8);
    assert(out@ =~= before + sign + digits);
    out.push(POINT);
    out.push(ZERO + tenths as u8);
    assert(out@ =~= before + render_tenths(v as int));
}

} // verus!
