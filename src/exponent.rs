use vstd::prelude::*;
use crate::atoi::{digits_value, digit_run_end, lemma_digit_run_end_bounds, lemma_digits_value_step};
use crate::digit::{
    is_digit, valid_radix, to_digit, ASCII_CARET, ASCII_LOWER_E, ASCII_MINUS, ASCII_PLUS,
    ASCII_UPPER_E,
};
use crate::error::{Error, ErrorCode};

verus! {

/// Whether `c` marks an exponent in `radix`: `e` or `E` below radix 15, where
/// `E` is no digit, and `^` from radix 15 on.
pub open spec fn is_exponent_marker(c: u8, radix: u32) -> bool {
    if radix < 15 {
        c == ASCII_LOWER_E || c == ASCII_UPPER_E
    } else {
        c == ASCII_CARET
    }
}

/// Exponent magnitude to which larger ones saturate.
pub open spec fn exponent_cap() -> int {
    i32::MAX as int
}

/// The exponent that a signed magnitude saturates to.
pub open spec fn saturated_exponent(neg: bool, m: nat) -> int {
    let c = if m <= exponent_cap() { m as int } else { exponent_cap() };
    if neg { -c } else { c }
}

/// Index of the first exponent digit in an exponent section `s` (marker first).
pub open spec fn exponent_digits_start(s: Seq<u8>) -> int {
    if s.len() > 1 && (s[1] == ASCII_PLUS || s[1] == ASCII_MINUS) { 2 } else { 1 }
}

/// What reading an exponent section from the start of `s` gives: `(0, 0)`
/// where `s` does not start with a marker; else the saturated exponent and
/// the index past its digits, or `EmptyExponent` at the index after the marker
/// and sign where no digit follows them.
pub open spec fn exponent_outcome(s: Seq<u8>, radix: u32) -> Result<(int, int), (ErrorCode, int)> {
    if s.len() == 0 || !is_exponent_marker(s[0], radix) {
        Ok((0, 0))
    } else {
        let st = exponent_digits_start(s);
        let end = digit_run_end(s, st, radix);
        let neg = s.len() > 1 && s[1] == ASCII_MINUS;
        if end == st {
            Err((ErrorCode::EmptyExponent, st))
        } else {
            Ok((saturated_exponent(neg, digits_value(s.subrange(st, end), radix)), end))
        }
    }
}

/// The index that an exponent section's outcome carries is within `s`.
pub proof fn lemma_exponent_outcome_bounds(s: Seq<u8>, radix: u32)
    requires
        valid_radix(radix),
    ensures
        match exponent_outcome(s, radix) {
            Ok((x, q)) => 0 <= q <= s.len(),
            Err((code, i)) => 0 <= i <= s.len(),
        },
{
    if s.len() > 0 && is_exponent_marker(s[0], radix) {
        lemma_digit_run_end_bounds(s, exponent_digits_start(s), radix);
    }
}

/// Whether `r` is that outcome.
pub open spec fn exponent_parse_ok(s: Seq<u8>, radix: u32, r: Result<(i32, usize), Error>) -> bool {
    match r {
        Ok((x, q)) => exponent_outcome(s, radix) == Ok::<(int, int), (ErrorCode, int)>(
            (x as int, q as int),
        ),
        Err(e) => exponent_outcome(s, radix) == Err::<(int, int), (ErrorCode, int)>(
            (e.code, e.index as int),
        ),
    }
}

/// Parse an exponent section: a marker, an optional sign and digits.
///
/// An exponent too large for `i32` does not fail: it saturates to
/// `i32::MAX` or `-i32::MAX`, and all of its digits are still read.
pub fn parse_exponent(radix: u32, bytes: &[u8]) -> (r: Result<(i32, usize), Error>)
    requires
        valid_radix(radix),
    ensures
        exponent_parse_ok(bytes@, radix, r),
        r is Ok ==> r->Ok_0.1 <= bytes.len(),
        r is Err ==> r->Err_0.index <= bytes.len(),
{
    let ghost s = bytes@;
    let len = bytes.len();
    let is_marker = len > 0 && if radix < 15 {
        bytes[0] == ASCII_LOWER_E || bytes[0] == ASCII_UPPER_E
    } else {
        bytes[0] == ASCII_CARET
    };
    if !is_marker {
        return Ok((0, 0));
    }
    let (st, neg): (usize, bool) = if len > 1 && bytes[1] == ASCII_PLUS {
        (2, false)
    } else if len > 1 && bytes[1] == ASCII_MINUS {
        (2, true)
    } else {
        (1, false)
    };
    proof {
        lemma_digit_run_end_bounds(s, st as int, radix);
        assert(s.subrange(st as int, st as int).len() == 0);
    }
    let mut acc: u64 = 0;
    let mut saturated = false;
    let mut i: usize = st;
    while i < len
        invariant
            s == bytes@,
            len == s.len(),
            valid_radix(radix),
            st <= i <= digit_run_end(s, st as int, radix),
            digit_run_end(s, i as int, radix) == digit_run_end(s, st as int, radix),
            !saturated ==> acc as int == digits_value(s.subrange(st as int, i as int), radix),
            !saturated ==> acc <= i32::MAX,
            saturated ==> digits_value(s.subrange(st as int, i as int), radix) > i32::MAX,
        ensures
            digit_run_end(s, i as int, radix) == i,
            digit_run_end(s, i as int, radix) == digit_run_end(s, st as int, radix),
            !saturated ==> acc as int == digits_value(s.subrange(st as int, i as int), radix),
            !saturated ==> acc <= i32::MAX,
            saturated ==> digits_value(s.subrange(st as int, i as int), radix) > i32::MAX,
        decreases len - i,
    {
        let d = match to_digit(bytes[i], radix) {
            Some(d) => d,
            None => {
                proof {
                    assert(digit_run_end(s, i as int, radix) == i);
                }
                break;
            },
        };
        proof {
            assert(digit_run_end(s, i as int, radix) == digit_run_end(s, i as int + 1, radix));
            lemma_digit_run_end_bounds(s, i as int + 1, radix);
            lemma_digits_value_step(s, st as int, i as int, radix);
            let v = digits_value(s.subrange(st as int, i as int), radix);
            assert(v <= v * radix) by (nonlinear_arith)
                requires
                    radix >= 1,
            ;
        }
        if !saturated {
            proof {
                assert(acc * radix <= i32::MAX * 36) by (nonlinear_arith)
                    requires
                        acc <= i32::MAX,
                        radix <= 36,
                ;
            }
            let next = acc * (radix as u64) + (d as u64);
            if next > i32::MAX as u64 {
                saturated = true;
            } else {
                acc = next;
            }
        }
        i = i + 1;
    }
    if i == st {
        return Err(Error::new(ErrorCode::EmptyExponent, st));
    }
    let magnitude: i32 = if saturated { i32::MAX } else { acc as i32 };
    let value: i32 = if neg { -magnitude } else { magnitude };
    Ok((value, i))
}

} // verus!
