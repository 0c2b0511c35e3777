use vstd::prelude::*;
use crate::digit::{digit_value, is_digit, valid_radix, to_digit, ASCII_0, ASCII_PLUS, ASCII_MINUS};
use crate::error::{Error, ErrorCode};
use crate::primitive::Primitive;

verus! {

/// Value of a string of digits in `radix`, most significant first.
pub open spec fn digits_value(s: Seq<u8>, radix: u32) -> nat
    decreases s.len(),
{
    if s.len() == 0 {
        0
    } else {
        (digits_value(s.drop_last(), radix) * radix + digit_value(s.last())) as nat
    }
}

/// Index of the first byte at or after `i` that is not a digit of `radix`
/// (the length of `s` if there is none).
pub open spec fn digit_run_end(s: Seq<u8>, i: int, radix: u32) -> int
    decreases s.len() - i,
{
    if i < 0 || i >= s.len() || !is_digit(s[i], radix) {
        if i < 0 { 0 } else if i > s.len() { s.len() as int } else { i }
    } else {
        digit_run_end(s, i + 1, radix)
    }
}

/// Number of sign bytes at the start of `s`: a `+`, or a `-` where signs are
/// accepted.
pub open spec fn sign_len(s: Seq<u8>, signed: bool) -> int {
    if s.len() > 0 && (s[0] == ASCII_PLUS || (signed && s[0] == ASCII_MINUS)) { 1 } else { 0 }
}

pub open spec fn is_negative(s: Seq<u8>, signed: bool) -> bool {
    s.len() > 0 && signed && s[0] == ASCII_MINUS
}

/// The magnitude of the digits of an integer: the digit run after the sign.
pub open spec fn int_magnitude(s: Seq<u8>, radix: u32, signed: bool) -> nat {
    let st = sign_len(s, signed);
    digits_value(s.subrange(st, digit_run_end(s, st, radix)), radix)
}

/// Largest magnitude that fits the range `[min, max]` with the given sign.
pub open spec fn magnitude_bound(neg: bool, min: int, max: int) -> int {
    if neg { -min } else { max }
}

pub proof fn lemma_digits_value_step(s: Seq<u8>, st: int, i: int, radix: u32)
    requires
        0 <= st <= i < s.len(),
    ensures
        digits_value(s.subrange(st, i + 1), radix)
            == digits_value(s.subrange(st, i), radix) * radix + digit_value(s[i]),
{
    assert(s.subrange(st, i + 1).drop_last() =~= s.subrange(st, i));
}

/// Appending digits never lowers the value of a digit string.
pub proof fn lemma_digits_value_monotone(s: Seq<u8>, st: int, i: int, j: int, radix: u32)
    requires
        0 <= st <= i <= j <= s.len(),
        valid_radix(radix),
    ensures
        digits_value(s.subrange(st, i), radix) <= digits_value(s.subrange(st, j), radix),
    decreases j - i,
{
    if i < j {
        lemma_digits_value_monotone(s, st, i, j - 1, radix);
        lemma_digits_value_step(s, st, j - 1, radix);
        let v = digits_value(s.subrange(st, j - 1), radix);
        assert(v <= v * radix) by (nonlinear_arith)
            requires
                radix >= 1,
        ;
    }
}

pub proof fn lemma_digit_run_end_bounds(s: Seq<u8>, i: int, radix: u32)
    requires
        0 <= i <= s.len(),
    ensures
        i <= digit_run_end(s, i, radix) <= s.len(),
        forall|j: int| i <= j < digit_run_end(s, i, radix) ==> is_digit(#[trigger] s[j], radix),
        digit_run_end(s, i, radix) < s.len() ==> !is_digit(s[digit_run_end(s, i, radix)], radix),
    decreases s.len() - i,
{
    if i < s.len() && is_digit(s[i], radix) {
        lemma_digit_run_end_bounds(s, i + 1, radix);
    }
}

/// Parse an integer of type `T` from the start of `bytes`.
///
/// An optional sign (a `-` only where `is_signed`) is followed by digits; the
/// first byte that is no digit ends the number. The value is accumulated by
/// its magnitude, so the smallest value of a signed type is reached without
/// an intermediate overflow. Returns the result and the index where parsing
/// stopped: the end of the digits, or the digit at which the value left the
/// range of `T`.
pub fn standalone<T: Primitive>(radix: u32, bytes: &[u8], is_signed: bool) -> (r: (
    Result<T, ErrorCode>,
    usize,
))
    requires
        valid_radix(radix),
    ensures
        ({
            let s = bytes@;
            let st = sign_len(s, is_signed);
            let end = digit_run_end(s, st, radix);
            let neg = is_negative(s, is_signed);
            let bound = magnitude_bound(neg, T::spec_min(), T::spec_max());
            let m = int_magnitude(s, radix, is_signed);
            if s.len() == 0 {
                r == (Err::<T, ErrorCode>(ErrorCode::Empty), 0usize)
            } else if st == s.len() {
                r.0 == Err::<T, ErrorCode>(ErrorCode::Empty) && r.1 == st
            } else if m <= bound {
                r.0 is Ok && r.0->Ok_0.spec_value() == (if neg { -m } else { m as int })
                    && r.1 == end
            } else {
                r.0 == Err::<T, ErrorCode>(
                    if neg { ErrorCode::Underflow } else { ErrorCode::Overflow },
                ) && st <= r.1 < end
                    && digits_value(s.subrange(st, r.1 + 1), radix) > bound
                    && digits_value(s.subrange(st, r.1 as int), radix) <= bound
            }
        }),
{
    let ghost s = bytes@;
    let len = bytes.len();
    if len == 0 {
        return (Err(ErrorCode::Empty), 0);
    }
    let (neg_bound, pos_bound) = T::magnitude_bounds();
    let (st, neg): (usize, bool) = if bytes[0] == ASCII_PLUS {
        (1, false)
    } else if is_signed && bytes[0] == ASCII_MINUS {
        (1, true)
    } else {
        (0, false)
    };
    if st == len {
        return (Err(ErrorCode::Empty), st);
    }
    let bound: u128 = if neg { neg_bound } else { pos_bound };
    proof {
        lemma_digit_run_end_bounds(s, st as int, radix);
        assert(s.subrange(st as int, st as int).len() == 0);
    }
    let mut acc: u128 = 0;
    let mut i: usize = st;
    while i < len
        invariant
            s == bytes@,
            len == s.len(),
            valid_radix(radix),
            st <= i <= digit_run_end(s, st as int, radix),
            digit_run_end(s, i as int, radix) == digit_run_end(s, st as int, radix),
            bound <= 0x1_0000_0000_0000_0000u128,
            st as int == sign_len(s, is_signed),
            neg == is_negative(s, is_signed),
            bound as int == magnitude_bound(neg, T::spec_min(), T::spec_max()),
            acc as int == digits_value(s.subrange(st as int, i as int), radix),
            acc <= bound,
        ensures
            digit_run_end(s, i as int, radix) == i,
            digit_run_end(s, i as int, radix) == digit_run_end(s, st as int, radix),
            acc as int == digits_value(s.subrange(st as int, i as int), radix),
            acc <= bound,
            st as int == sign_len(s, is_signed),
            neg == is_negative(s, is_signed),
            bound as int == magnitude_bound(neg, T::spec_min(), T::spec_max()),
        decreases len - i,
    {
        let d = match to_digit(bytes[i], radix) {
            Some(d) => d,
            None => {
                proof {
                    assert(digit_run_end(s, i as int, radix) == i);
                }
                break;
            },
        };
        proof {
            assert(digit_run_end(s, i as int, radix) == digit_run_end(s, i as int + 1, radix));
            lemma_digit_run_end_bounds(s, i as int + 1, radix);
            lemma_digits_value_step(s, st as int, i as int, radix);
            assert(acc * radix <= 0x1_0000_0000_0000_0000u128 * 36) by (nonlinear_arith)
                requires
                    acc <= 0x1_0000_0000_0000_0000u128,
                    radix <= 36,
            ;
        }
        let next = acc * (radix as u128) + (d as u128);
        if next > bound {
            proof {
                lemma_digits_value_monotone(
                    s,
                    st as int,
                    i + 1,
                    digit_run_end(s, st as int, radix),
                    radix,
                );
            }
            return (Err(if neg { ErrorCode::Underflow } else { ErrorCode::Overflow }), i);
        }
        acc = next;
        i = i + 1;
    }
    (Ok(T::from_magnitude(neg, acc)), i)
}

} // verus!

verus! {

/// The error that parsing an integer from the start of `s` into the range
/// `[min, max]` meets, if any.
pub open spec fn int_error(s: Seq<u8>, radix: u32, signed: bool, min: int, max: int) -> Option<
    ErrorCode,
> {
    let st = sign_len(s, signed);
    let neg = is_negative(s, signed);
    if s.len() == 0 || st == s.len() {
        Some(ErrorCode::Empty)
    } else if int_magnitude(s, radix, signed) <= magnitude_bound(neg, min, max) {
        None
    } else if neg {
        Some(ErrorCode::Underflow)
    } else {
        Some(ErrorCode::Overflow)
    }
}

/// Whether `p` is where that error is reported: after the sign when there are
/// no bytes to read, else the first digit at which the magnitude read so far
/// leaves the range.
pub open spec fn int_error_index(
    s: Seq<u8>,
    radix: u32,
    signed: bool,
    min: int,
    max: int,
    p: int,
) -> bool {
    let st = sign_len(s, signed);
    let bound = magnitude_bound(is_negative(s, signed), min, max);
    if s.len() == 0 || st == s.len() {
        p == st
    } else {
        &&& st <= p < digit_run_end(s, st, radix)
        &&& digits_value(s.subrange(st, p + 1), radix) > bound
        &&& digits_value(s.subrange(st, p), radix) <= bound
    }
}

/// Value of the integer at the start of `s`, when it is in range.
pub open spec fn int_value(s: Seq<u8>, radix: u32, signed: bool) -> int {
    let m = int_magnitude(s, radix, signed);
    if is_negative(s, signed) { -m } else { m as int }
}

/// Index just past the digits of the integer at the start of `s`.
pub open spec fn int_end(s: Seq<u8>, radix: u32, signed: bool) -> int {
    digit_run_end(s, sign_len(s, signed), radix)
}

/// Partial parse: the value and the number of bytes consumed, or the error
/// and its index.
pub open spec fn partial_parse_ok<T: Primitive>(
    s: Seq<u8>,
    radix: u32,
    signed: bool,
    r: Result<(T, usize), Error>,
) -> bool {
    let e = int_error(s, radix, signed, T::spec_min(), T::spec_max());
    match r {
        Ok((v, p)) => e is None && v.spec_value() == int_value(s, radix, signed) && p == int_end(
            s,
            radix,
            signed,
        ),
        Err(err) => e == Some(err.code) && int_error_index(
            s,
            radix,
            signed,
            T::spec_min(),
            T::spec_max(),
            err.index as int,
        ),
    }
}

/// Strict parse: as the partial parse, where bytes left after the number are
/// an `InvalidDigit` error at the first of them.
pub open spec fn strict_parse_ok<T: Primitive>(
    s: Seq<u8>,
    radix: u32,
    signed: bool,
    r: Result<T, Error>,
) -> bool {
    let e = int_error(s, radix, signed, T::spec_min(), T::spec_max());
    let end = int_end(s, radix, signed);
    match r {
        Ok(v) => e is None && end == s.len() && v.spec_value() == int_value(s, radix, signed),
        Err(err) => if e is None {
            end < s.len() && err == Error { code: ErrorCode::InvalidDigit, index: end as usize }
        } else {
            e == Some(err.code) && int_error_index(
                s,
                radix,
                signed,
                T::spec_min(),
                T::spec_max(),
                err.index as int,
            )
        },
    }
}

fn standalone_partial<T: Primitive>(radix: u32, bytes: &[u8], is_signed: bool) -> (r: Result<
    (T, usize),
    Error,
>)
    requires
        valid_radix(radix),
    ensures
        partial_parse_ok(bytes@, radix, is_signed, r),
{
    proof {
        lemma_digit_run_end_bounds(bytes@, sign_len(bytes@, is_signed), radix);
    }
    match standalone::<T>(radix, bytes, is_signed) {
        (Ok(value), p) => Ok((value, p)),
        (Err(code), p) => Err(Error::new(code, p)),
    }
}

/// Parse an unsigned integer, returning it with the number of bytes read.
/// A leading `-` is not accepted.
pub fn standalone_unsigned<T: Primitive>(radix: u32, bytes: &[u8]) -> (r: Result<(T, usize), Error>)
    requires
        valid_radix(radix),
    ensures
        partial_parse_ok(bytes@, radix, false, r),
{
    standalone_partial(radix, bytes, false)
}

/// Parse a signed integer, returning it with the number of bytes read.
pub fn standalone_signed<T: Primitive>(radix: u32, bytes: &[u8]) -> (r: Result<(T, usize), Error>)
    requires
        valid_radix(radix),
    ensures
        partial_parse_ok(bytes@, radix, true, r),
{
    standalone_partial(radix, bytes, true)
}

/// Parse an integer that must fill all of `bytes`.
pub fn parse_strict<T: Primitive>(radix: u32, bytes: &[u8], is_signed: bool) -> (r: Result<
    T,
    Error,
>)
    requires
        valid_radix(radix),
    ensures
        strict_parse_ok(bytes@, radix, is_signed, r),
{
    proof {
        lemma_digit_run_end_bounds(bytes@, sign_len(bytes@, is_signed), radix);
    }
    match standalone_partial::<T>(radix, bytes, is_signed) {
        Ok((value, p)) => if p == bytes.len() {
            Ok(value)
        } else {
            Err(Error::new(ErrorCode::InvalidDigit, p))
        },
        Err(e) => Err(e),
    }
}

} // verus!

verus! {

/// The decimal digits of `n`, most significant first, without leading zeros.
pub open spec fn decimal_digits(n: nat) -> Seq<u8>
    decreases n,
{
    if n < 10 {
        seq![(ASCII_0 + n) as u8]
    } else {
        decimal_digits(n / 10).push((ASCII_0 + n % 10) as u8)
    }
}

pub proof fn lemma_decimal_digits(n: nat)
    ensures
        decimal_digits(n).len() >= 1,
        digits_value(decimal_digits(n), 10) == n,
        forall|j: int|
            0 <= j < decimal_digits(n).len() ==> is_digit(#[trigger] decimal_digits(n)[j], 10),
    decreases n,
{
    let s = decimal_digits(n);
    if n < 10 {
        assert(s.drop_last() =~= Seq::<u8>::empty());
        assert(digits_value(Seq::<u8>::empty(), 10) == 0);
        assert(digits_value(s, 10) == digits_value(s.drop_last(), 10) * 10 + digit_value(
            s.last(),
        ));
    } else {
        lemma_decimal_digits(n / 10);
        assert(s.drop_last() =~= decimal_digits(n / 10));
        assert(digit_value(s.last()) == n % 10);
        assert(digits_value(s, 10) == digits_value(s.drop_last(), 10) * 10 + digit_value(
            s.last(),
        ));
        assert((n / 10) * 10 + n % 10 == n) by (nonlinear_arith);
        assert forall|j: int| 0 <= j < s.len() implies is_digit(#[trigger] s[j], 10) by {
            if j < s.len() - 1 {
                assert(s[j] == decimal_digits(n / 10)[j]);
            }
        }
    }
}

pub proof fn lemma_run_end_all_digits(s: Seq<u8>, i: int, radix: u32)
    requires
        0 <= i <= s.len(),
        forall|j: int| i <= j < s.len() ==> is_digit(#[trigger] s[j], radix),
    ensures
        digit_run_end(s, i, radix) == s.len(),
    decreases s.len() - i,
{
    if i < s.len() {
        lemma_run_end_all_digits(s, i + 1, radix);
    }
}

/// Every `n` in the range of an integer type, written in decimal digits,
/// parses back to `n` with all of its bytes read.
pub proof fn lemma_parse_decimal_digits<T: Primitive>(n: nat, r: Result<(T, usize), Error>)
    requires
        n <= T::spec_max(),
        partial_parse_ok(decimal_digits(n), 10, false, r),
    ensures
        r is Ok,
        r->Ok_0.0.spec_value() == n,
        r->Ok_0.1 == decimal_digits(n).len(),
{
    let s = decimal_digits(n);
    lemma_decimal_digits(n);
    assert(is_digit(s[0], 10));
    assert(sign_len(s, false) == 0);
    lemma_run_end_all_digits(s, 0, 10);
    assert(s.subrange(0, s.len() as int) =~= s);
}

/// The index that a parse returns never exceeds the input length; a success
/// reads at least the sign, and reads more exactly when a digit follows it.
pub proof fn lemma_position_bounds<T: Primitive>(
    s: Seq<u8>,
    radix: u32,
    signed: bool,
    r: Result<(T, usize), Error>,
)
    requires
        valid_radix(radix),
        partial_parse_ok(s, radix, signed, r),
    ensures
        r is Ok ==> sign_len(s, signed) <= r->Ok_0.1 <= s.len(),
        r is Ok ==> (r->Ok_0.1 > sign_len(s, signed) <==> is_digit(
            s[sign_len(s, signed)],
            radix,
        )),
        r is Err ==> r->Err_0.index <= s.len(),
{
    let st = sign_len(s, signed);
    if st <= s.len() {
        lemma_digit_run_end_bounds(s, st, radix);
    }
    if r is Ok && st < s.len() && is_digit(s[st], radix) {
        assert(digit_run_end(s, st, radix) == digit_run_end(s, st + 1, radix));
        lemma_digit_run_end_bounds(s, st + 1, radix);
    }
}

/// On an input that begins with an in-range number and has bytes after it,
/// the partial parse succeeds having read something, and the strict parse
/// fails with `InvalidDigit` exactly where the partial parse stopped.
pub proof fn lemma_valid_prefix<T: Primitive>(
    s: Seq<u8>,
    radix: u32,
    signed: bool,
    partial: Result<(T, usize), Error>,
    strict: Result<T, Error>,
)
    requires
        valid_radix(radix),
        sign_len(s, signed) < s.len(),
        is_digit(s[sign_len(s, signed)], radix),
        int_error(s, radix, signed, T::spec_min(), T::spec_max()) is None,
        int_end(s, radix, signed) < s.len(),
        partial_parse_ok(s, radix, signed, partial),
        strict_parse_ok(s, radix, signed, strict),
    ensures
        partial is Ok,
        partial->Ok_0.1 > 0,
        strict == Err::<T, Error>(Error { code: ErrorCode::InvalidDigit, index: partial->Ok_0.1 }),
{
    lemma_position_bounds(s, radix, signed, partial);
}

} // verus!

verus! {

/// A string of `k` digits in `radix` has a value below `radix^k`.
pub proof fn lemma_digits_value_bound(s: Seq<u8>, radix: u32)
    requires
        valid_radix(radix),
        forall|j: int| 0 <= j < s.len() ==> is_digit(#[trigger] s[j], radix),
    ensures
        digits_value(s, radix) < vstd::arithmetic::power::pow(radix as int, s.len()),
    decreases s.len(),
{
    if s.len() == 0 {
        vstd::arithmetic::power::lemma_pow0(radix as int);
    } else {
        let t = s.drop_last();
        assert forall|j: int| 0 <= j < t.len() implies is_digit(#[trigger] t[j], radix) by {
            assert(t[j] == s[j]);
        }
        lemma_digits_value_bound(t, radix);
        let k = t.len();
        vstd::arithmetic::power::lemma_pow_adds(radix as int, k, 1);
        vstd::arithmetic::power::lemma_pow1(radix as int);
        let p = vstd::arithmetic::power::pow(radix as int, k);
        let v = digits_value(t, radix);
        let d = digit_value(s.last());
        assert(is_digit(s[s.len() - 1], radix));
        assert(v * radix + d < p * radix) by (nonlinear_arith)
            requires
                v < p,
                d < radix,
                v >= 0,
        ;
    }
}

} // verus!

verus! {

/// The value of two digit strings put together.
pub proof fn lemma_digits_value_concat(a: Seq<u8>, b: Seq<u8>, radix: u32)
    ensures
        digits_value(a + b, radix) == digits_value(a, radix) * vstd::arithmetic::power::pow(
            radix as int,
            b.len(),
        ) + digits_value(b, radix),
    decreases b.len(),
{
    vstd::arithmetic::power::lemma_pow0(radix as int);
    if b.len() == 0 {
        assert(a + b =~= a);
    } else {
        let b1 = b.drop_last();
        lemma_digits_value_concat(a, b1, radix);
        assert((a + b).drop_last() =~= a + b1);
        assert((a + b).last() == b.last());
        vstd::arithmetic::power::lemma_pow_adds(radix as int, b1.len(), 1);
        vstd::arithmetic::power::lemma_pow1(radix as int);
        let p = vstd::arithmetic::power::pow(radix as int, b1.len());
        let va = digits_value(a, radix);
        let vb = digits_value(b1, radix);
        assert((va * p + vb) * radix == va * (p * radix) + vb * radix) by (nonlinear_arith);
    }
}

/// A string of `'0'` bytes has the value zero.
pub proof fn lemma_digits_value_zeros(z: Seq<u8>, radix: u32)
    requires
        forall|j: int| 0 <= j < z.len() ==> #[trigger] z[j] == ASCII_0,
    ensures
        digits_value(z, radix) == 0,
    decreases z.len(),
{
    if z.len() > 0 {
        assert forall|j: int| 0 <= j < z.drop_last().len() implies #[trigger] z.drop_last()[j]
            == ASCII_0 by {
            assert(z.drop_last()[j] == z[j]);
        }
        lemma_digits_value_zeros(z.drop_last(), radix);
        assert(z[z.len() - 1] == ASCII_0);
        assert(digit_value(z.last()) == 0);
        assert(digits_value(z, radix) == digits_value(z.drop_last(), radix) * radix + digit_value(
            z.last(),
        ));
        assert(0 * radix == 0);
    }
}

/// Where all bytes from `i` to `j` are digits, the digit runs from `i` and
/// from `j` end at the same index.
pub proof fn lemma_digit_run_end_skip(s: Seq<u8>, i: int, j: int, radix: u32)
    requires
        0 <= i <= j <= s.len(),
        forall|k: int| i <= k < j ==> is_digit(#[trigger] s[k], radix),
    ensures
        digit_run_end(s, i, radix) == digit_run_end(s, j, radix),
    decreases j - i,
{
    if i < j {
        lemma_digit_run_end_skip(s, i + 1, j, radix);
    }
}

} // verus!

verus! {

/// The decimal text of an integer: its digits, after a `-` where it is
/// negative.
pub open spec fn decimal_text(v: int) -> Seq<u8> {
    if v < 0 {
        seq![ASCII_MINUS] + decimal_digits((-v) as nat)
    } else {
        decimal_digits(v as nat)
    }
}

/// Every value of an integer type, written as decimal text, parses back to
/// itself with all of its bytes read (negative values by a parser that
/// accepts signs).
pub proof fn lemma_decimal_text_round_trip<T: Primitive>(
    v: int,
    signed: bool,
    r: Result<(T, usize), Error>,
)
    requires
        T::spec_min() <= v <= T::spec_max(),
        v < 0 ==> signed,
        partial_parse_ok(decimal_text(v), 10, signed, r),
    ensures
        r is Ok,
        r->Ok_0.0.spec_value() == v,
        r->Ok_0.1 == decimal_text(v).len(),
{
    if v >= 0 {
        let s = decimal_text(v);
        lemma_decimal_digits(v as nat);
        assert(is_digit(s[0], 10));
        assert(sign_len(s, signed) == 0);
        lemma_run_end_all_digits(s, 0, 10);
        assert(s.subrange(0, s.len() as int) =~= s);
    } else {
        let d = decimal_digits((-v) as nat);
        let s = decimal_text(v);
        lemma_decimal_digits((-v) as nat);
        assert(s[0] == ASCII_MINUS);
        assert(sign_len(s, signed) == 1);
        assert forall|j: int| 1 <= j < s.len() implies is_digit(#[trigger] s[j], 10) by {
            assert(s[j] == d[j - 1]);
        }
        lemma_run_end_all_digits(s, 1, 10);
        assert(s.subrange(1, s.len() as int) =~= d);
    }
}

} // verus!

verus! {

/// The decimal digits of a positive number do not start with `'0'`.
pub proof fn lemma_decimal_digits_lead(n: nat)
    requires
        n > 0,
    ensures
        decimal_digits(n)[0] != ASCII_0,
    decreases n,
{
    if n >= 10 {
        lemma_decimal_digits(n / 10);
        lemma_decimal_digits_lead(n / 10);
        assert(decimal_digits(n)[0] == decimal_digits(n / 10)[0]);
    }
}

} // verus!
