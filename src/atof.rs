use vstd::prelude::*;
use vstd::arithmetic::power2::pow2;
use crate::atoi::{
    digits_value, digit_run_end, lemma_digit_run_end_bounds, lemma_digit_run_end_skip,
    lemma_digits_value_bound, lemma_digits_value_concat, lemma_digits_value_zeros,
};
use crate::bignum::Bigint;
use crate::digit::{digit_value, is_digit, valid_radix, to_digit, ASCII_DOT, ASCII_MINUS, ASCII_PLUS};
use crate::error::{Error, ErrorCode};
use crate::exponent::{exponent_outcome, lemma_exponent_outcome_bounds, parse_exponent};
use crate::float::{
    FloatKind, correctly_rounded, lemma_correctly_rounded_rescale, lemma_huge_rounds_to_infinity,
    lemma_pow_ge_pow2, lemma_correctly_rounded_unique, lemma_tiny_rounds_to_zero,
    lemma_zero_rounds_to_zero, round_exact_with_hint,
};
use crate::precise::{
    is_halfway, normalized, parse_float, pow2_exponent, pow2_to_exact, saturate_i32, spec_pow2_exponent,
    to_exact,
};
use crate::extended::to_extended;
use crate::mantissa::{
    fit, lemma_fit_all, lemma_fit_bounds, lemma_fit_truncated, lemma_zero_run_end_bounds,
    mantissa_outcome, skip_digits, zero_run_end,
};

verus! {

/// Index past the integer digits of a float in `s`.
pub open spec fn float_int_end(s: Seq<u8>, radix: u32) -> int {
    digit_run_end(s, 0, radix)
}

/// Whether a `.` follows the integer digits.
pub open spec fn float_has_fraction(s: Seq<u8>, radix: u32) -> bool {
    let ie = float_int_end(s, radix);
    ie < s.len() && s[ie] == ASCII_DOT
}

/// Index past the digits of the float: past the fraction where there is one.
pub open spec fn float_digits_end(s: Seq<u8>, radix: u32) -> int {
    let ie = float_int_end(s, radix);
    if float_has_fraction(s, radix) { digit_run_end(s, ie + 1, radix) } else { ie }
}

/// All digits of the float, integer and fraction, without the dot.
pub open spec fn float_digits(s: Seq<u8>, radix: u32) -> Seq<u8> {
    let ie = float_int_end(s, radix);
    if float_has_fraction(s, radix) {
        s.subrange(0, ie) + s.subrange(ie + 1, float_digits_end(s, radix))
    } else {
        s.subrange(0, ie)
    }
}

/// Number of fraction digits.
pub open spec fn fraction_len(s: Seq<u8>, radix: u32) -> int {
    let ie = float_int_end(s, radix);
    if float_has_fraction(s, radix) { float_digits_end(s, radix) - (ie + 1) } else { 0 }
}

/// Whether `r` is the outcome of parsing a non-negative float from `s`.
///
/// The number is `digits ('.' digits?)? exponent?` or `'.' digits exponent?`;
/// its exact value is `float_digits(s) * radix^(exponent - fraction_len(s))`
/// with the exponent as `exponent_outcome` reads it. The result is that
/// value rounded to the nearest float, ties to even, with the count of bytes
/// read; or the exponent's error.
pub open spec fn float_parse_ok(
    kind: FloatKind,
    s: Seq<u8>,
    radix: u32,
    r: Result<(u64, usize), Error>,
) -> bool {
    let fe = float_digits_end(s, radix);
    match exponent_outcome(s.subrange(fe, s.len() as int), radix) {
        Ok((x, q)) => r is Ok && r->Ok_0.1 == fe + q && correctly_rounded(
            kind,
            digits_value(float_digits(s, radix), radix),
            radix as nat,
            x - fraction_len(s, radix),
            r->Ok_0.0 as nat,
        ),
        Err((code, i)) => r == Err::<(u64, usize), Error>(
            Error { code, index: (fe + i) as usize },
        ),
    }
}

/// The digits of a float end within `s`.
pub proof fn lemma_float_digits_end_bounds(s: Seq<u8>, radix: u32)
    requires
        valid_radix(radix),
    ensures
        0 <= float_int_end(s, radix) <= float_digits_end(s, radix) <= s.len(),
{
    lemma_digit_run_end_bounds(s, 0, radix);
    if float_has_fraction(s, radix) {
        lemma_digit_run_end_bounds(s, float_int_end(s, radix) + 1, radix);
    }
}

/// The mantissa parser reads the same bytes as the float's digits; when it
/// truncates nothing, its mantissa is their value and its dot shift the count
/// of fraction digits; and a zero mantissa was never truncated.
pub proof fn lemma_mantissa_matches_digits(s: Seq<u8>, radix: u32, max: nat)
    requires
        valid_radix(radix),
        max >= 36,
    ensures
        ({
            let o = mantissa_outcome(s, radix, max);
            &&& o.2 == float_digits_end(s, radix)
            &&& o.0 <= max
            &&& o.0 == 0 ==> !o.3
            &&& !o.3 ==> o.0 == digits_value(float_digits(s, radix), radix)
            &&& !o.3 && fraction_len(s, radix) <= i32::MAX ==> o.1 == fraction_len(s, radix)
        }),
{
    vstd::arithmetic::power::lemma_pow0(radix as int);
    let z = zero_run_end(s, 0);
    lemma_zero_run_end_bounds(s, 0);
    assert forall|k: int| 0 <= k < z implies is_digit(#[trigger] s[k], radix) by {
        assert(s[k] == crate::digit::ASCII_0);
    }
    lemma_digit_run_end_skip(s, 0, z, radix);
    let ie = digit_run_end(s, z, radix);
    lemma_digit_run_end_bounds(s, z, radix);
    lemma_float_digits_end_bounds(s, radix);
    let f1 = fit(s, z, ie, 0, radix, max);
    let m1 = f1.0;
    let k1 = f1.1;
    lemma_fit_bounds(s, z, ie, 0, radix, max);
    let t1 = ie - z - k1;
    // The integer digits' value skips the leading zeros.
    let zeros = s.subrange(0, z);
    assert forall|j: int| 0 <= j < zeros.len() implies #[trigger] zeros[j] == crate::digit::ASCII_0 by {
        assert(zeros[j] == s[j]);
    }
    lemma_digits_value_zeros(zeros, radix);
    assert(s.subrange(0, ie) =~= zeros + s.subrange(z, ie));
    lemma_digits_value_concat(zeros, s.subrange(z, ie), radix);
    let vi = digits_value(s.subrange(0, ie), radix);
    assert(vi == digits_value(s.subrange(z, ie), radix)) by {
        let p = vstd::arithmetic::power::pow(radix as int, (ie - z) as nat);
        assert(0 * p == 0);
    }
    if t1 == 0 {
        lemma_fit_all(s, z, ie, 0, radix, max);
        let p = vstd::arithmetic::power::pow(radix as int, (ie - z) as nat);
        assert(0 * p == 0);
        assert(m1 == vi);
    } else {
        lemma_fit_truncated(s, z, ie, 0, radix, max);
    }
    let has_fraction = ie < s.len() && s[ie] == ASCII_DOT;
    if has_fraction && t1 == 0 {
        let f = ie + 1;
        let fs = if m1 == 0 { zero_run_end(s, f) } else { f };
        lemma_zero_run_end_bounds(s, f);
        if m1 == 0 {
            assert forall|k: int| f <= k < fs implies is_digit(#[trigger] s[k], radix) by {
                assert(s[k] == crate::digit::ASCII_0);
            }
            lemma_digit_run_end_skip(s, f, fs, radix);
        }
        let fe = digit_run_end(s, fs, radix);
        lemma_digit_run_end_bounds(s, fs, radix);
        let f2 = fit(s, fs, fe, m1, radix, max);
        lemma_fit_bounds(s, fs, fe, m1, radix, max);
        let t2 = fe - fs - f2.1;
        if t2 == 0 {
            lemma_fit_all(s, fs, fe, m1, radix, max);
            let frac = s.subrange(f, fe);
            lemma_digits_value_concat(s.subrange(0, ie), frac, radix);
            let pf = vstd::arithmetic::power::pow(radix as int, frac.len());
            if m1 == 0 {
                let fz = s.subrange(f, fs);
                assert forall|j: int| 0 <= j < fz.len() implies #[trigger] fz[j]
                    == crate::digit::ASCII_0 by {
                    assert(fz[j] == s[f + j]);
                }
                lemma_digits_value_zeros(fz, radix);
                assert(frac =~= fz + s.subrange(fs, fe));
                lemma_digits_value_concat(fz, s.subrange(fs, fe), radix);
                let p2 = vstd::arithmetic::power::pow(radix as int, (fe - fs) as nat);
                assert(0 * p2 == 0);
                assert(0 * pf == 0);
            }
        } else {
            assert forall|k: int| fs <= k < fe implies is_digit(#[trigger] s[k], radix) by {
                lemma_digit_run_end_bounds(s, fs, radix);
            }
            lemma_fit_truncated(s, fs, fe, m1, radix, max);
        }
        assert(m1 <= max);
    } else if has_fraction {
        assert forall|k: int| z <= k < ie implies is_digit(#[trigger] s[k], radix) by {
        }
        lemma_fit_truncated(s, z, ie, 0, radix, max);
    } else {
        if t1 == 0 {
            assert(float_digits(s, radix) =~= s.subrange(0, ie));
        } else {
            lemma_fit_truncated(s, z, ie, 0, radix, max);
        }
    }
}

/// A successful parse gives the one float that is the IEEE-754
/// round-to-nearest-even representation of the exact value of its digits:
/// any pattern `b` that rounds that value correctly is the parsed one.
pub proof fn lemma_parse_is_nearest_even(
    kind: FloatKind,
    s: Seq<u8>,
    radix: u32,
    r: Result<(u64, usize), Error>,
    b: nat,
)
    requires
        valid_radix(radix),
        float_parse_ok(kind, s, radix, r),
        r is Ok,
        ({
            let fe = float_digits_end(s, radix);
            let x = exponent_outcome(s.subrange(fe, s.len() as int), radix)->Ok_0.0;
            correctly_rounded(
                kind,
                digits_value(float_digits(s, radix), radix),
                radix as nat,
                x - fraction_len(s, radix),
                b,
            )
        }),
    ensures
        r->Ok_0.0 == b,
{
    let fe = float_digits_end(s, radix);
    let x = exponent_outcome(s.subrange(fe, s.len() as int), radix)->Ok_0.0;
    lemma_correctly_rounded_unique(
        kind,
        digits_value(float_digits(s, radix), radix),
        radix as nat,
        x - fraction_len(s, radix),
        r->Ok_0.0 as nat,
        b,
    );
}

/// Append the digits `bytes[from..to]` to the number `n`, whose digits are
/// `prefix`.
fn accumulate_digits(
    n: Bigint,
    radix: u32,
    bytes: &[u8],
    from: usize,
    to: usize,
    Ghost(prefix): Ghost<Seq<u8>>,
) -> (r: Bigint)
    requires
        valid_radix(radix),
        from <= to <= bytes.len(),
        forall|j: int| from <= j < to ==> is_digit(#[trigger] bytes@[j], radix),
        n@ == digits_value(prefix, radix),
    ensures
        r@ == digits_value(prefix + bytes@.subrange(from as int, to as int), radix),
{
    let ghost s = bytes@;
    let mut cur = n;
    let mut i = from;
    proof {
        assert(prefix + s.subrange(from as int, from as int) =~= prefix);
    }
    while i < to
        invariant
            s == bytes@,
            valid_radix(radix),
            from <= i <= to <= s.len(),
            forall|j: int| from <= j < to ==> is_digit(#[trigger] s[j], radix),
            cur@ == digits_value(prefix + s.subrange(from as int, i as int), radix),
        decreases to - i,
    {
        let d: u32 = match to_digit(bytes[i], radix) {
            Some(d) => d,
            None => {
                proof {
                    assert(is_digit(s[i as int], radix));
                }
                0
            },
        };
        proof {
            let a = prefix + s.subrange(from as int, i as int);
            let b = prefix + s.subrange(from as int, i + 1);
            assert(b.drop_last() =~= a);
            assert(b.last() == s[i as int]);
            assert(d == digit_value(s[i as int]));
        }
        cur = cur.mul_add(radix as u64, d as u64);
        i = i + 1;
    }
    cur
}

/// The slow path: the value of all digits as an arbitrary-precision
/// integer, rounded with exact comparisons; `hint` is tried first.
///
/// Every digit takes part in the value, so the result is exact however many
/// digits there are; values past the largest float give infinity, values
/// below half the smallest subnormal give zero.
fn slow_path(kind: FloatKind, radix: u32, bytes: &[u8], hint: Option<u64>) -> (r: Result<
    (u64, usize),
    Error,
>)
    requires
        valid_radix(radix),
        bytes.len() <= isize::MAX,
    ensures
        float_parse_ok(kind, bytes@, radix, r),
        r is Ok ==> r->Ok_0.1 <= bytes.len(),
        r is Err ==> r->Err_0.index <= bytes.len(),
{
    let ghost s = bytes@;
    let len = bytes.len();
    proof {
        lemma_digit_run_end_bounds(s, 0, radix);
    }
    let ie = skip_digits(radix, bytes, 0);
    let has_fraction = ie < len && bytes[ie] == ASCII_DOT;
    proof {
        if has_fraction {
            lemma_digit_run_end_bounds(s, ie + 1, radix);
        }
    }
    let fe = if has_fraction {
        skip_digits(radix, bytes, ie + 1)
    } else {
        ie
    };
    let rest = vstd::slice::slice_subrange(bytes, fe, len);
    let (x, q) = match parse_exponent(radix, rest) {
        Ok(v) => v,
        Err(e) => {
            return Err(Error::new(e.code, fe + e.index));
        },
    };
    let zero = Bigint::from_u64(0);
    proof {
        assert(Seq::<u8>::empty() + s.subrange(0, ie as int) =~= s.subrange(0, ie as int));
        assert(digits_value(Seq::<u8>::empty(), radix) == 0);
    }
    let n1 = accumulate_digits(zero, radix, bytes, 0, ie, Ghost(Seq::<u8>::empty()));
    let n = if has_fraction {
        accumulate_digits(n1, radix, bytes, ie + 1, fe, Ghost(s.subrange(0, ie as int)))
    } else {
        n1
    };
    let frac_len: usize = if has_fraction {
        fe - ie - 1
    } else {
        0
    };
    let digit_count: usize = ie + frac_len;
    let e: i128 = x as i128 - frac_len as i128;
    let ghost digits = float_digits(s, radix);
    proof {
        assert(digits.len() == digit_count);
        assert forall|j: int| 0 <= j < digits.len() implies is_digit(#[trigger] digits[j], radix) by {
            if j < ie {
                assert(digits[j] == s[j]);
            } else {
                assert(digits[j] == s[j + 1]);
            }
        }
        lemma_digits_value_bound(digits, radix);
    }
    let bits: u64 = if n.is_zero() {
        proof {
            lemma_zero_rounds_to_zero(kind, radix as nat, e as int);
        }
        0
    } else if e > 1100 {
        proof {
            lemma_huge_rounds_to_infinity(kind, n@, radix as nat, e as int);
        }
        kind.infinity_bits()
    } else if e + (digit_count as i128) < -1200 {
        proof {
            lemma_tiny_rounds_to_zero(kind, n@, radix as nat, e as int, digit_count as nat);
        }
        0
    } else {
        round_exact_with_hint(kind, &n, radix, e, hint)
    };
    proof {
        assert(fe as int == float_digits_end(s, radix));
        assert(frac_len as int == fraction_len(s, radix));
        if has_fraction {
            assert(n@ == digits_value(digits, radix));
        } else {
            assert(digits =~= s.subrange(0, ie as int));
            assert(n@ == digits_value(digits, radix));
        }
        assert(rest@ == s.subrange(fe as int, s.len() as int));
    }
    Ok((bits, fe + q))
}

/// Parse a non-negative float of `kind` from the start of `bytes`: the bit
/// pattern of its value rounded to nearest, ties to even, and the count of
/// bytes read.
///
/// The mantissa and exponent are read first. A zero mantissa gives zero.
/// Where no digit was truncated and the exponent is in range, the fast paths
/// take the mantissa: the power-of-two path for radices 2, 4, 8, 16 and 32;
/// else the exact path where the mantissa fits the significand and the
/// radix power is small; else the extended-precision path where its error
/// count decides the rounding. Everything else goes to the slow path, which
/// reads all digits; for a truncated mantissa, the power-of-two or extended
/// estimate is its first candidate, except on the halfway pattern.
pub fn to_native(kind: FloatKind, radix: u32, bytes: &[u8]) -> (r: Result<(u64, usize), Error>)
    requires
        valid_radix(radix),
        bytes.len() <= isize::MAX,
    ensures
        float_parse_ok(kind, bytes@, radix, r),
        r is Ok ==> r->Ok_0.1 <= bytes.len(),
        r is Err ==> r->Err_0.index <= bytes.len(),
{
    let ghost s = bytes@;
    let ghost o = mantissa_outcome(s, radix, u64::MAX as nat);
    proof {
        lemma_mantissa_matches_digits(s, radix, u64::MAX as nat);
        lemma_float_digits_end_bounds(s, radix);
        lemma_exponent_outcome_bounds(
            s.subrange(float_digits_end(s, radix), s.len() as int),
            radix,
        );
    }
    let (mantissa, exponent, p, truncated) = match parse_float::<u64>(radix, bytes) {
        Ok(v) => v,
        Err(e) => {
            return Err(e);
        },
    };
    let ghost fe = float_digits_end(s, radix);
    let ghost x = exponent_outcome(s.subrange(fe, s.len() as int), radix)->Ok_0.0;
    let ghost e0 = x - fraction_len(s, radix);
    if mantissa == 0 {
        proof {
            let k = choose|k: nat|
                o.0 == mantissa * vstd::arithmetic::power::pow(radix as int, k) && exponent
                    == saturate_i32(saturate_i32(x - o.1) + k);
            assert(o.0 == 0);
            lemma_zero_rounds_to_zero(kind, radix as nat, e0);
        }
        return Ok((0, p));
    }
    if !truncated && len_fits_i32(bytes) && exponent > i32::MIN + 128 && exponent < i32::MAX {
        let ghost k = choose|k: nat|
            o.0 == mantissa * vstd::arithmetic::power::pow(radix as int, k) && exponent
                == saturate_i32(saturate_i32(x - o.1) + k);
        proof {
            let pk = vstd::arithmetic::power::pow(radix as int, k);
            lemma_pow_ge_pow2(radix as nat, k);
            assert(o.0 >= pk) by (nonlinear_arith)
                requires
                    o.0 == mantissa * pk,
                    mantissa >= 1,
                    pk >= 0,
            ;
            assert(o.0 <= u64::MAX);
            assert(k < 64) by {
                if k >= 64 {
                    vstd::arithmetic::power2::lemma2_to64_rest();
                    if k > 64 {
                        vstd::arithmetic::power2::lemma_pow2_strictly_increases(64, k);
                    }
                    assert(pow2(k) >= pow2(64));
                    assert(false);
                }
            }
            assert(o.1 == fraction_len(s, radix));
            assert(exponent == e0 + k);
        }
        let pow2_exp = pow2_exponent(radix);
        if pow2_exp != 0 {
            let bits = pow2_to_exact(kind, mantissa, radix, pow2_exp, exponent);
            proof {
                lemma_correctly_rounded_rescale(kind, mantissa as nat, radix as nat, e0, k, bits as nat);
            }
            return Ok((bits, p));
        }
        let (bits, valid) = to_exact(kind, mantissa, radix, exponent);
        if valid {
            proof {
                lemma_correctly_rounded_rescale(kind, mantissa as nat, radix as nat, e0, k, bits as nat);
            }
            return Ok((bits, p));
        }
        // Moderate path: the extended-precision estimate, where it decides.
        let (bits, accurate) = to_extended(kind, mantissa, radix, exponent, false);
        if accurate {
            proof {
                lemma_correctly_rounded_rescale(kind, mantissa as nat, radix as nat, e0, k, bits as nat);
            }
            return Ok((bits, p));
        }
        return slow_path(kind, radix, bytes, None);
    }
    // A truncated mantissa: its estimates serve as the slow path's first
    // candidate. For a power-of-two radix, a mantissa on the halfway pattern
    // goes to the slow path with none, since the truncated digits decide the
    // tie.
    let pow2_exp = pow2_exponent(radix);
    let hint = if pow2_exp != 0 {
        if truncated && is_halfway(kind, mantissa) {
            None
        } else {
            Some(pow2_to_exact(kind, mantissa, radix, pow2_exp, exponent))
        }
    } else {
        let (estimate, accurate) = to_extended(kind, mantissa, radix, exponent, truncated);
        if accurate {
            Some(estimate)
        } else {
            None
        }
    };
    slow_path(kind, radix, bytes, hint)
}

/// Whether the length of `bytes` is at most `i32::MAX`.
fn len_fits_i32(bytes: &[u8]) -> (r: bool)
    ensures
        r == (bytes.len() <= i32::MAX),
{
    bytes.len() <= i32::MAX as usize
}

/// Parse a non-negative `f32` from the start of `bytes`: its bit pattern and
/// the count of bytes read.
pub fn atof(radix: u32, bytes: &[u8]) -> (r: Result<(u32, usize), Error>)
    requires
        valid_radix(radix),
        bytes.len() <= isize::MAX,
    ensures
        float_parse_ok(
            FloatKind::Single,
            bytes@,
            radix,
            match r {
                Ok((b, p)) => Ok((b as u64, p)),
                Err(e) => Err(e),
            },
        ),
{
    match to_native(FloatKind::Single, radix, bytes) {
        Ok((b, p)) => Ok((b as u32, p)),
        Err(e) => Err(e),
    }
}

/// Parse a non-negative `f64` from the start of `bytes`: its bit pattern and
/// the count of bytes read.
pub fn atod(radix: u32, bytes: &[u8]) -> (r: Result<(u64, usize), Error>)
    requires
        valid_radix(radix),
        bytes.len() <= isize::MAX,
    ensures
        float_parse_ok(FloatKind::Double, bytes@, radix, r),
{
    to_native(FloatKind::Double, radix, bytes)
}

/// Lossy `f32` parse. The bound it allows (one unit in the last place) is
/// met with room to spare: the result is the correctly rounded one.
pub fn atof_lossy(radix: u32, bytes: &[u8]) -> (r: Result<(u32, usize), Error>)
    requires
        valid_radix(radix),
        bytes.len() <= isize::MAX,
    ensures
        float_parse_ok(
            FloatKind::Single,
            bytes@,
            radix,
            match r {
                Ok((b, p)) => Ok((b as u64, p)),
                Err(e) => Err(e),
            },
        ),
{
    atof(radix, bytes)
}

/// Lossy `f64` parse; as `atof_lossy`, the result is the correctly rounded one.
pub fn atod_lossy(radix: u32, bytes: &[u8]) -> (r: Result<(u64, usize), Error>)
    requires
        valid_radix(radix),
        bytes.len() <= isize::MAX,
    ensures
        float_parse_ok(FloatKind::Double, bytes@, radix, r),
{
    atod(radix, bytes)
}

/// Bit of the sign in a pattern of `kind`.
pub open spec fn sign_bit(kind: FloatKind) -> nat {
    match kind {
        FloatKind::Single => 0x8000_0000,
        FloatKind::Double => 0x8000_0000_0000_0000,
    }
}

/// Number of sign bytes before a float: a `+` or a `-`.
pub open spec fn float_sign_len(s: Seq<u8>) -> int {
    if s.len() > 0 && (s[0] == ASCII_PLUS || s[0] == ASCII_MINUS) { 1 } else { 0 }
}

/// Whether `r` is the outcome of parsing a float with an optional sign from
/// `s`, as a leading parse (`strict` false) or as one that must use all of
/// `s`: a `-` sets the sign bit of the pattern of the magnitude, and with
/// `strict`, bytes left after the number are an `InvalidDigit` error at the
/// first of them.
pub open spec fn signed_float_parse_ok(
    kind: FloatKind,
    s: Seq<u8>,
    radix: u32,
    strict: bool,
    r: Result<(u64, usize), Error>,
) -> bool {
    let st = float_sign_len(s);
    let neg = s.len() > 0 && s[0] == ASCII_MINUS;
    let t = s.subrange(st, s.len() as int);
    let fe = float_digits_end(t, radix);
    match exponent_outcome(t.subrange(fe, t.len() as int), radix) {
        Ok((x, q)) => {
            let end = st + fe + q;
            if strict && end < s.len() {
                r == Err::<(u64, usize), Error>(
                    Error { code: ErrorCode::InvalidDigit, index: end as usize },
                )
            } else {
                r is Ok && r->Ok_0.1 == end && (neg ==> r->Ok_0.0 >= sign_bit(kind))
                    && correctly_rounded(
                    kind,
                    digits_value(float_digits(t, radix), radix),
                    radix as nat,
                    x - fraction_len(t, radix),
                    (if neg { r->Ok_0.0 - sign_bit(kind) } else { r->Ok_0.0 as int }) as nat,
                )
            }
        },
        Err((code, i)) => r == Err::<(u64, usize), Error>(
            Error { code, index: (st + fe + i) as usize },
        ),
    }
}

/// On an input whose number (after any sign) starts with a digit, has a
/// well-formed exponent if any, and has bytes after it, the leading parse
/// succeeds having read something, and the strict parse fails with
/// `InvalidDigit` exactly where the leading parse stopped.
pub proof fn lemma_float_valid_prefix(
    kind: FloatKind,
    s: Seq<u8>,
    radix: u32,
    leading: Result<(u64, usize), Error>,
    strict: Result<(u64, usize), Error>,
)
    requires
        valid_radix(radix),
        float_sign_len(s) < s.len(),
        is_digit(s[float_sign_len(s)], radix),
        ({
            let t = s.subrange(float_sign_len(s), s.len() as int);
            let fe = float_digits_end(t, radix);
            let o = exponent_outcome(t.subrange(fe, t.len() as int), radix);
            o is Ok && float_sign_len(s) + fe + o->Ok_0.1 < s.len()
        }),
        signed_float_parse_ok(kind, s, radix, false, leading),
        signed_float_parse_ok(kind, s, radix, true, strict),
    ensures
        leading is Ok,
        leading->Ok_0.1 > 0,
        strict == Err::<(u64, usize), Error>(
            Error { code: ErrorCode::InvalidDigit, index: leading->Ok_0.1 },
        ),
{
    let st = float_sign_len(s);
    let t = s.subrange(st, s.len() as int);
    assert(t[0] == s[st]);
    assert(digit_run_end(t, 0, radix) == digit_run_end(t, 1, radix));
    lemma_digit_run_end_bounds(t, 1, radix);
    lemma_float_digits_end_bounds(t, radix);
    let fe = float_digits_end(t, radix);
    lemma_exponent_outcome_bounds(t.subrange(fe, t.len() as int), radix);
}

/// Parse a float of `kind` with an optional sign: its bit pattern and the
/// count of bytes read. With `strict`, the number must fill `bytes`.
pub fn parse_signed_float(kind: FloatKind, radix: u32, bytes: &[u8], strict: bool) -> (r: Result<
    (u64, usize),
    Error,
>)
    requires
        valid_radix(radix),
        bytes.len() <= isize::MAX,
    ensures
        signed_float_parse_ok(kind, bytes@, radix, strict, r),
        r is Ok ==> r->Ok_0.1 <= bytes.len(),
        r is Err ==> r->Err_0.index <= bytes.len(),
{
    let len = bytes.len();
    let st: usize = if len > 0 && (bytes[0] == ASCII_PLUS || bytes[0] == ASCII_MINUS) {
        1
    } else {
        0
    };
    let neg = len > 0 && bytes[0] == ASCII_MINUS;
    let rest = vstd::slice::slice_subrange(bytes, st, len);
    let ghost stg: int = if bytes@.len() > 0 && (bytes@[0] == ASCII_PLUS || bytes@[0] == ASCII_MINUS) {
        1
    } else {
        0
    };
    proof {
        let t = bytes@.subrange(stg, bytes@.len() as int);
        lemma_float_digits_end_bounds(t, radix);
        lemma_exponent_outcome_bounds(
            t.subrange(float_digits_end(t, radix), t.len() as int),
            radix,
        );
        assert(st as int == stg);
        assert(rest@ == bytes@.subrange(stg, bytes@.len() as int));
        assert(neg == (bytes@.len() > 0 && bytes@[0] == ASCII_MINUS));
    }
    match to_native(kind, radix, rest) {
        Ok((b, p)) => {
            let end = st + p;
            if strict && end < len {
                Err(Error::new(ErrorCode::InvalidDigit, end))
            } else {
                let bits = if neg {
                    b + match kind {
                        FloatKind::Single => 0x8000_0000u64,
                        FloatKind::Double => 0x8000_0000_0000_0000u64,
                    }
                } else {
                    b
                };
                proof {
                    assert(b <= kind.spec_infinity_bits());
                }
                Ok((bits, end))
            }
        },
        Err(e) => Err(Error::new(e.code, st + e.index)),
    }
}

} // verus!

verus! {

/// Every `n` that fits the mantissa type, written in decimal digits, is read
/// back by the mantissa parser whole: value `n`, dot shift 0, all bytes, no
/// truncation.
pub proof fn lemma_parse_mantissa_decimal(n: nat, max: nat, r: (nat, int, int, bool))
    requires
        u64::MAX <= max,
        n <= max,
        r == mantissa_outcome(crate::atoi::decimal_digits(n), 10, max),
    ensures
        r == (n, 0int, crate::atoi::decimal_digits(n).len() as int, false),
{
    let s = crate::atoi::decimal_digits(n);
    crate::atoi::lemma_decimal_digits(n);
    crate::atoi::lemma_run_end_all_digits(s, 0, 10);
    lemma_mantissa_matches_digits(s, 10, max);
    lemma_zero_run_end_bounds(s, 0);
    let z = zero_run_end(s, 0);
    assert forall|k: int| z <= k < s.len() implies is_digit(#[trigger] s[k], 10) by {}
    lemma_digit_run_end_skip(s, 0, z, 10);
    lemma_float_digits_end_bounds(s, 10);
    assert(!float_has_fraction(s, 10));
    assert(s.subrange(0, s.len() as int) =~= s);
    if n > 0 {
        crate::atoi::lemma_decimal_digits_lead(n);
        assert(z == 0);
        assert(s.subrange(0, 0).len() == 0);
        crate::mantissa::lemma_fit_takes_all(s, 0, 0, s.len() as int, 10, max);
    } else {
        assert(s =~= seq![crate::digit::ASCII_0]);
        assert(s[0] == crate::digit::ASCII_0);
        assert(zero_run_end(s, 1) == 1);
        assert(zero_run_end(s, 0) == zero_run_end(s, 1));
        assert(z == 1);
        assert(s.subrange(1, 1).len() == 0);
    }
}

} // verus!

verus! {

/// A digit run that ends within a prefix ends at the same place in it.
proof fn lemma_run_end_prefix(s: Seq<u8>, i: int, end: int, radix: u32)
    requires
        0 <= i <= end <= s.len(),
        digit_run_end(s, i, radix) <= end,
    ensures
        digit_run_end(s.subrange(0, end), i, radix) == digit_run_end(s, i, radix),
    decreases s.len() - i,
{
    let p = s.subrange(0, end);
    lemma_digit_run_end_bounds(s, i, radix);
    if i < end && is_digit(s[i], radix) {
        assert(p[i] == s[i]);
        assert(digit_run_end(s, i, radix) == digit_run_end(s, i + 1, radix));
        lemma_run_end_prefix(s, i + 1, end, radix);
    } else if i < end {
        assert(p[i] == s[i]);
    }
}

/// The exponent section reads the same from a prefix that holds all of it.
proof fn lemma_exponent_prefix(r: Seq<u8>, radix: u32, x: int, q: int)
    requires
        valid_radix(radix),
        exponent_outcome(r, radix) == Ok::<(int, int), (ErrorCode, int)>((x, q)),
    ensures
        exponent_outcome(r.subrange(0, q), radix) == Ok::<(int, int), (ErrorCode, int)>((x, q)),
{
    let rp = r.subrange(0, q);
    if r.len() > 0 && crate::exponent::is_exponent_marker(r[0], radix) {
        let st = crate::exponent::exponent_digits_start(r);
        lemma_digit_run_end_bounds(r, st, radix);
        assert(q > st);
        assert(rp[0] == r[0]);
        assert(rp.len() > 1 && rp[1] == r[1]);
        assert(crate::exponent::exponent_digits_start(rp) == st);
        lemma_run_end_prefix(r, st, q, radix);
        assert(rp.subrange(st, q) =~= r.subrange(st, q));
    } else {
        assert(q == 0);
        assert(rp.len() == 0);
    }
}

/// Parsing a float from an input gives the same pattern as parsing the
/// number alone: the bytes after it are not read.
pub proof fn lemma_float_prefix(
    kind: FloatKind,
    s: Seq<u8>,
    radix: u32,
    r: Result<(u64, usize), Error>,
    rp: Result<(u64, usize), Error>,
)
    requires
        valid_radix(radix),
        float_parse_ok(kind, s, radix, r),
        r is Ok,
        r->Ok_0.1 <= s.len(),
        float_parse_ok(kind, s.subrange(0, r->Ok_0.1 as int), radix, rp),
    ensures
        rp == r,
{
    let end = r->Ok_0.1 as int;
    let p = s.subrange(0, end);
    let fe = float_digits_end(s, radix);
    let ie = float_int_end(s, radix);
    lemma_float_digits_end_bounds(s, radix);
    let rest = s.subrange(fe, s.len() as int);
    let (x, q) = exponent_outcome(rest, radix)->Ok_0;
    lemma_exponent_outcome_bounds(rest, radix);
    assert(end == fe + q);
    lemma_run_end_prefix(s, 0, end, radix);
    assert(float_int_end(p, radix) == ie);
    if float_has_fraction(s, radix) {
        lemma_digit_run_end_bounds(s, ie + 1, radix);
        assert(p[ie] == s[ie]);
        lemma_run_end_prefix(s, ie + 1, end, radix);
    } else if ie < end {
        assert(p[ie] == s[ie]);
    }
    assert(float_digits_end(p, radix) == fe);
    assert(float_digits(p, radix) =~= float_digits(s, radix));
    assert(fraction_len(p, radix) == fraction_len(s, radix));
    lemma_exponent_prefix(rest, radix, x, q);
    assert(p.subrange(fe, p.len() as int) =~= rest.subrange(0, q));
    lemma_correctly_rounded_unique(
        kind,
        digits_value(float_digits(s, radix), radix),
        radix as nat,
        x - fraction_len(s, radix),
        r->Ok_0.0 as nat,
        rp->Ok_0.0 as nat,
    );
}

} // verus!

verus! {

/// `c` with an ASCII capital letter made lowercase.
pub open spec fn ascii_lower(c: u8) -> u8 {
    if crate::digit::ASCII_UPPER_A <= c <= crate::digit::ASCII_UPPER_Z {
        (c + 32) as u8
    } else {
        c
    }
}

/// `s` with its ASCII capital letters made lowercase.
pub open spec fn lowercase(s: Seq<u8>) -> Seq<u8> {
    Seq::new(s.len(), |i: int| ascii_lower(s[i]))
}

/// Whether two inputs read alike in `radix`: at every index the same digit
/// value, and the same zero, dot, sign and exponent-marker bytes.
pub open spec fn reads_alike(s: Seq<u8>, t: Seq<u8>, radix: u32) -> bool {
    &&& s.len() == t.len()
    &&& forall|i: int|
        0 <= i < s.len() ==> {
            &&& digit_value(#[trigger] s[i]) == digit_value(t[i])
            &&& (s[i] == crate::digit::ASCII_0) == (t[i] == crate::digit::ASCII_0)
            &&& (s[i] == ASCII_DOT) == (t[i] == ASCII_DOT)
            &&& (s[i] == ASCII_PLUS) == (t[i] == ASCII_PLUS)
            &&& (s[i] == ASCII_MINUS) == (t[i] == ASCII_MINUS)
            &&& crate::exponent::is_exponent_marker(s[i], radix)
                == crate::exponent::is_exponent_marker(t[i], radix)
        }
}

proof fn lemma_lowercase_reads_alike(s: Seq<u8>, radix: u32)
    ensures
        reads_alike(s, lowercase(s), radix),
{
}

proof fn lemma_alike_subrange(s: Seq<u8>, t: Seq<u8>, radix: u32, i: int, j: int)
    requires
        reads_alike(s, t, radix),
        0 <= i <= j <= s.len(),
    ensures
        reads_alike(s.subrange(i, j), t.subrange(i, j), radix),
{
    assert forall|k: int| 0 <= k < j - i implies {
        &&& digit_value(#[trigger] s.subrange(i, j)[k]) == digit_value(t.subrange(i, j)[k])
        &&& (s.subrange(i, j)[k] == crate::digit::ASCII_0) == (t.subrange(i, j)[k]
            == crate::digit::ASCII_0)
        &&& (s.subrange(i, j)[k] == ASCII_DOT) == (t.subrange(i, j)[k] == ASCII_DOT)
        &&& (s.subrange(i, j)[k] == ASCII_PLUS) == (t.subrange(i, j)[k] == ASCII_PLUS)
        &&& (s.subrange(i, j)[k] == ASCII_MINUS) == (t.subrange(i, j)[k] == ASCII_MINUS)
        &&& crate::exponent::is_exponent_marker(s.subrange(i, j)[k], radix)
            == crate::exponent::is_exponent_marker(t.subrange(i, j)[k], radix)
    } by {
        assert(s.subrange(i, j)[k] == s[i + k]);
        assert(t.subrange(i, j)[k] == t[i + k]);
    }
}

proof fn lemma_alike_run_end(s: Seq<u8>, t: Seq<u8>, radix: u32, i: int)
    requires
        reads_alike(s, t, radix),
        0 <= i <= s.len(),
    ensures
        digit_run_end(s, i, radix) == digit_run_end(t, i, radix),
        zero_run_end(s, i) == zero_run_end(t, i),
    decreases s.len() - i,
{
    if i < s.len() {
        lemma_alike_run_end(s, t, radix, i + 1);
    }
}

proof fn lemma_alike_digits_value(s: Seq<u8>, t: Seq<u8>, radix: u32)
    requires
        reads_alike(s, t, radix),
    ensures
        digits_value(s, radix) == digits_value(t, radix),
    decreases s.len(),
{
    if s.len() > 0 {
        lemma_alike_subrange(s, t, radix, 0, s.len() - 1);
        assert(s.drop_last() =~= s.subrange(0, s.len() - 1));
        assert(t.drop_last() =~= t.subrange(0, t.len() - 1));
        lemma_alike_digits_value(s.drop_last(), t.drop_last(), radix);
        assert(digit_value(s[s.len() - 1]) == digit_value(t[t.len() - 1]));
    }
}

proof fn lemma_alike_fit(s: Seq<u8>, t: Seq<u8>, radix: u32, i: int, end: int, m: nat, max: nat)
    requires
        reads_alike(s, t, radix),
        0 <= i <= end <= s.len(),
    ensures
        fit(s, i, end, m, radix, max) == fit(t, i, end, m, radix, max),
    decreases end - i,
{
    if i < end {
        assert(digit_value(s[i]) == digit_value(t[i]));
        let n = m * radix + digit_value(s[i]);
        if n <= max {
            lemma_alike_fit(s, t, radix, i + 1, end, n as nat, max);
        }
    }
}

proof fn lemma_alike_exponent(s: Seq<u8>, t: Seq<u8>, radix: u32)
    requires
        reads_alike(s, t, radix),
    ensures
        exponent_outcome(s, radix) == exponent_outcome(t, radix),
{
    if s.len() > 0 {
        assert(crate::exponent::is_exponent_marker(s[0], radix)
            == crate::exponent::is_exponent_marker(t[0], radix));
    }
    if s.len() > 1 {
        assert((s[1] == ASCII_PLUS) == (t[1] == ASCII_PLUS));
        assert((s[1] == ASCII_MINUS) == (t[1] == ASCII_MINUS));
    }
    let st = crate::exponent::exponent_digits_start(s);
    assert(st == crate::exponent::exponent_digits_start(t));
    if st <= s.len() {
        lemma_alike_run_end(s, t, radix, st);
        lemma_digit_run_end_bounds(s, st, radix);
        let end = digit_run_end(s, st, radix);
        lemma_alike_subrange(s, t, radix, st, end);
        lemma_alike_digits_value(s.subrange(st, end), t.subrange(st, end), radix);
    }
}

/// Lowercasing an input changes neither what the mantissa parser reads nor
/// what the exponent parser reads after it: `A + k` and `a + k` are the same
/// digit, and `E` and `e` are both markers below radix 15.
pub proof fn lemma_lowercase_outcomes(s: Seq<u8>, radix: u32, max: nat)
    requires
        valid_radix(radix),
    ensures
        mantissa_outcome(lowercase(s), radix, max) == mantissa_outcome(s, radix, max),
        ({
            let o = mantissa_outcome(s, radix, max);
            exponent_outcome(lowercase(s).subrange(o.2, s.len() as int), radix) == exponent_outcome(
                s.subrange(o.2, s.len() as int),
                radix,
            )
        }),
{
    let t = lowercase(s);
    lemma_lowercase_reads_alike(s, radix);
    lemma_alike_run_end(s, t, radix, 0);
    let z = zero_run_end(s, 0);
    lemma_zero_run_end_bounds(s, 0);
    lemma_alike_run_end(s, t, radix, z);
    lemma_digit_run_end_bounds(s, z, radix);
    let ie = digit_run_end(s, z, radix);
    lemma_alike_fit(s, t, radix, z, ie, 0, max);
    let (m1, k1) = fit(s, z, ie, 0, radix, max);
    if ie < s.len() {
        assert((s[ie] == ASCII_DOT) == (t[ie] == ASCII_DOT));
        let f = ie + 1;
        lemma_alike_run_end(s, t, radix, f);
        lemma_zero_run_end_bounds(s, f);
        let fs = if m1 == 0 { zero_run_end(s, f) } else { f };
        lemma_alike_run_end(s, t, radix, fs);
        lemma_digit_run_end_bounds(s, fs, radix);
        lemma_alike_fit(s, t, radix, fs, digit_run_end(s, fs, radix), m1, max);
    }
    let o = mantissa_outcome(s, radix, max);
    lemma_mantissa_matches_digits_end(s, radix, max);
    lemma_alike_subrange(s, t, radix, o.2, s.len() as int);
    lemma_alike_exponent(s.subrange(o.2, s.len() as int), t.subrange(o.2, s.len() as int), radix);
}

/// The end of the mantissa lies within the input.
proof fn lemma_mantissa_matches_digits_end(s: Seq<u8>, radix: u32, max: nat)
    requires
        valid_radix(radix),
    ensures
        0 <= mantissa_outcome(s, radix, max).2 <= s.len(),
{
    lemma_zero_run_end_bounds(s, 0);
    lemma_digit_run_end_bounds(s, zero_run_end(s, 0), radix);
    let ie = digit_run_end(s, zero_run_end(s, 0), radix);
    if ie < s.len() {
        lemma_digit_run_end_bounds(s, ie + 1, radix);
        lemma_zero_run_end_bounds(s, ie + 1);
        lemma_digit_run_end_bounds(s, zero_run_end(s, ie + 1), radix);
    }
}

} // verus!

verus! {

/// A float parses to the same pattern and length after lowercasing.
pub proof fn lemma_float_lowercase(
    kind: FloatKind,
    s: Seq<u8>,
    radix: u32,
    r1: Result<(u64, usize), Error>,
    r2: Result<(u64, usize), Error>,
)
    requires
        valid_radix(radix),
        float_parse_ok(kind, s, radix, r1),
        float_parse_ok(kind, lowercase(s), radix, r2),
    ensures
        r1 == r2,
{
    let t = lowercase(s);
    lemma_lowercase_reads_alike(s, radix);
    lemma_alike_run_end(s, t, radix, 0);
    lemma_float_digits_end_bounds(s, radix);
    let ie = float_int_end(s, radix);
    if ie < s.len() {
        assert((s[ie] == ASCII_DOT) == (t[ie] == ASCII_DOT));
        lemma_alike_run_end(s, t, radix, ie + 1);
    }
    let fe = float_digits_end(s, radix);
    assert(fe == float_digits_end(t, radix));
    lemma_alike_subrange(s, t, radix, 0, ie);
    if float_has_fraction(s, radix) {
        lemma_digit_run_end_bounds(s, ie + 1, radix);
        lemma_alike_subrange(s, t, radix, ie + 1, fe);
        let a = s.subrange(0, ie);
        let b = s.subrange(ie + 1, fe);
        crate::atoi::lemma_digits_value_concat(a, b, radix);
        crate::atoi::lemma_digits_value_concat(t.subrange(0, ie), t.subrange(ie + 1, fe), radix);
        lemma_alike_digits_value(a, t.subrange(0, ie), radix);
        lemma_alike_digits_value(b, t.subrange(ie + 1, fe), radix);
    } else {
        lemma_alike_digits_value(s.subrange(0, ie), t.subrange(0, ie), radix);
    }
    lemma_alike_subrange(s, t, radix, fe, s.len() as int);
    lemma_alike_exponent(s.subrange(fe, s.len() as int), t.subrange(fe, s.len() as int), radix);
    let n = digits_value(float_digits(s, radix), radix);
    assert(n == digits_value(float_digits(t, radix), radix));
    if r1 is Ok {
        let x = exponent_outcome(s.subrange(fe, s.len() as int), radix)->Ok_0.0;
        lemma_correctly_rounded_unique(
            kind,
            n,
            radix as nat,
            x - fraction_len(s, radix),
            r1->Ok_0.0 as nat,
            r2->Ok_0.0 as nat,
        );
    }
}

} // verus!
