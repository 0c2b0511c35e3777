use vstd::prelude::*;
use vstd::arithmetic::power::{pow, lemma_pow0, lemma_pow1, lemma_pow_adds};
use crate::digit::valid_radix;
use crate::error::Error;
use crate::exponent::{exponent_outcome, parse_exponent};
use crate::mantissa::{Mantissa, mantissa_outcome, parse_mantissa};
use crate::float::{
    FloatKind, correctly_rounded, exponent_limit, lemma_large_rounds_to_infinity,
    lemma_small_rounds_to_zero, overflow_exponent, round_exact, spec_exponent_limit,
};
use crate::bignum::Bigint;
use vstd::arithmetic::power2::{pow2, lemma2_to64, lemma2_to64_rest};

verus! {

/// `x` saturated to the range of `i32`.
pub open spec fn saturate_i32(x: int) -> int {
    if x > i32::MAX { i32::MAX as int } else if x < i32::MIN { i32::MIN as int } else { x }
}

/// The exponent of the integer mantissa: the parsed exponent less the dot
/// shift, saturated to `i32`.
pub fn normalize_exponent(exponent: i32, dot_shift: i32) -> (r: i32)
    ensures
        r as int == saturate_i32(exponent - dot_shift),
{
    saturating_i32(exponent as i64 - dot_shift as i64)
}

/// `x` saturated to the range of `i32`.
fn saturating_i32(x: i64) -> (r: i32)
    ensures
        r as int == saturate_i32(x as int),
{
    if x > i32::MAX as i64 {
        i32::MAX
    } else if x < i32::MIN as i64 {
        i32::MIN
    } else {
        x as i32
    }
}

/// Whether `(m, e)` is `(m0, e0)` with every factor `radix` moved from the
/// mantissa to the exponent (saturated to `i32`).
pub open spec fn normalized(m0: nat, e0: int, radix: u32, m: nat, e: int) -> bool {
    &&& m0 > 0 ==> m % (radix as nat) != 0
    &&& exists|k: nat| m0 == m * pow(radix as int, k) && e == saturate_i32(e0 + k)
}

proof fn lemma_exact_div(m: nat, d: nat)
    requires
        d > 1,
        m % d == 0,
    ensures
        m == (m / d) * d,
        m > 0 ==> m / d < m,
{
    vstd::arithmetic::div_mod::lemma_fundamental_div_mod(m as int, d as int);
    let q = m / d;
    assert(m == d * q);
    assert(d * q == q * d) by (nonlinear_arith);
    if m > 0 {
        assert(q < m) by (nonlinear_arith)
            requires
                m == q * d,
                d > 1,
                m > 0,
                q >= 0,
        ;
    }
}

proof fn lemma_divide_out(m: nat, q: nat, b: nat, m0: nat, k: nat)
    requires
        b > 0,
        m == q * b,
        m0 == m * pow(b as int, k),
    ensures
        m0 == q * pow(b as int, k + 1),
{
    lemma_pow1(b as int);
    lemma_pow_adds(b as int, k, 1);
    assert(q * b * pow(b as int, k) == q * (b * pow(b as int, k))) by (nonlinear_arith);
    assert(pow(b as int, k + 1) == pow(b as int, k) * b);
}

/// Move factors of the radix from the mantissa to the exponent, by powers
/// `radix^4`, then `radix^2`, then `radix`, until none is left.
pub fn normalize_mantissa<M: Mantissa>(mantissa: M, radix: u32, exponent: i32) -> (r: (M, i32))
    requires
        valid_radix(radix),
    ensures
        normalized(
            mantissa.spec_value(),
            exponent as int,
            radix,
            r.0.spec_value(),
            r.1 as int,
        ),
{
    let ghost m0 = mantissa.spec_value();
    let mut m = mantissa.to_wide();
    let mut e = exponent;
    let b = radix as u128;
    proof {
        assert(b * b <= 36 * 36) by (nonlinear_arith)
            requires
                b <= 36,
        ;
    }
    let b2 = b * b;
    proof {
        assert(b2 * b2 <= 1296 * 1296) by (nonlinear_arith)
            requires
                b2 <= 1296,
        ;
        assert(b2 >= 4 && b2 * b2 >= 16) by (nonlinear_arith)
            requires
                b2 == b * b,
                b >= 2,
        ;
    }
    let b4 = b2 * b2;
    let ghost mut k: nat = 0;
    proof {
        lemma_pow0(radix as int);
    }
    while m >= b4 && m % b4 == 0
        invariant
            b == radix,
            valid_radix(radix),
            b2 == b * b,
            b4 == b2 * b2,
            b2 >= 4,
            b4 >= 16,
            m <= m0,
            m0 == m * pow(radix as int, k),
            e as int == saturate_i32(exponent + k),
        decreases m,
    {
        let ghost old_m = m;
        let q = m / b4;
        proof {
            lemma_exact_div(m as nat, b4 as nat);
            assert(m == q * b4);
            assert(q * b4 == q * b2 * b * b) by (nonlinear_arith)
                requires
                    b4 == b2 * b2,
                    b2 == b * b,
            ;
            assert(q * b2 == q * b * b) by (nonlinear_arith)
                requires
                    b2 == b * b,
            ;
            lemma_divide_out(old_m as nat, (q * b2 * b) as nat, b as nat, m0, k);
            lemma_divide_out((q * b2 * b) as nat, (q * b2) as nat, b as nat, m0, k + 1);
            lemma_divide_out((q * b2) as nat, (q * b) as nat, b as nat, m0, k + 2);
            lemma_divide_out((q * b) as nat, q as nat, b as nat, m0, k + 3);
            k = k + 4;
        }
        m = q;
        e = saturating_i32(e as i64 + 4);
    }
    while m >= b2 && m % b2 == 0
        invariant
            b == radix,
            valid_radix(radix),
            b2 == b * b,
            b2 >= 4,
            m <= m0,
            m0 == m * pow(radix as int, k),
            e as int == saturate_i32(exponent + k),
        decreases m,
    {
        let ghost old_m = m;
        let q = m / b2;
        proof {
            lemma_exact_div(m as nat, b2 as nat);
            assert(m == q * b2);
            assert(q * b2 == q * b * b) by (nonlinear_arith)
                requires
                    b2 == b * b,
            ;
            lemma_divide_out(old_m as nat, (q * b) as nat, b as nat, m0, k);
            lemma_divide_out((q * b) as nat, q as nat, b as nat, m0, k + 1);
            k = k + 2;
        }
        m = q;
        e = saturating_i32(e as i64 + 2);
    }
    if m % b == 0 {
        let q = m / b;
        proof {
            lemma_exact_div(m as nat, b as nat);
            assert(m == q * b);
            lemma_divide_out(m as nat, q as nat, b as nat, m0, k);
            if m0 > 0 && q % b == 0 {
                let p = q / b;
                assert(m == p * b2) by (nonlinear_arith)
                    requires
                        m == q * b,
                        q == p * b,
                        b2 == b * b,
                ;
                assert(m % b2 == 0) by (nonlinear_arith)
                    requires
                        m == p * b2,
                        b2 > 0,
                ;
                assert(m > 0) by (nonlinear_arith)
                    requires
                        m0 == m * pow(radix as int, k),
                        m0 > 0,
                ;
                assert(m >= b2) by (nonlinear_arith)
                    requires
                        m == p * b2,
                        m > 0,
                        b2 > 0,
                ;
            }
            k = k + 1;
        }
        m = q;
        e = saturating_i32(e as i64 + 1);
    }
    (M::from_wide(m), e)
}

/// Read a float's mantissa and exponent from `bytes`.
///
/// Gives the mantissa with all factors of the radix moved out of it, the
/// exponent of the radix that goes with it, the index past the number, and
/// whether mantissa digits were truncated; or the exponent's error, at its
/// index in `bytes`.
pub fn parse_float<M: Mantissa>(radix: u32, bytes: &[u8]) -> (r: Result<
    (M, i32, usize, bool),
    Error,
>)
    requires
        valid_radix(radix),
    ensures
        ({
            let s = bytes@;
            let o = mantissa_outcome(s, radix, M::spec_max());
            match exponent_outcome(s.subrange(o.2, s.len() as int), radix) {
                Ok((x, q)) => r is Ok && ({
                    let (m, e, p, t) = r->Ok_0;
                    &&& p as int == o.2 + q
                    &&& t == o.3
                    &&& normalized(o.0, saturate_i32(x - o.1), radix, m.spec_value(), e as int)
                }),
                Err((code, i)) => r == Err::<(M, i32, usize, bool), Error>(
                    Error { code, index: (o.2 + i) as usize },
                ),
            }
        }),
        r is Ok ==> r->Ok_0.2 <= bytes.len(),
{
    let (mantissa, dot_shift, p, truncated) = parse_mantissa::<M>(radix, bytes);
    let rest = vstd::slice::slice_subrange(bytes, p, bytes.len());
    match parse_exponent(radix, rest) {
        Ok((exponent, q)) => {
            let exponent = normalize_exponent(exponent, dot_shift);
            let (mantissa, exponent) = normalize_mantissa(mantissa, radix, exponent);
            Ok((mantissa, exponent, p + q, truncated))
        },
        Err(e) => Err(Error::new(e.code, p + e.index)),
    }
}

} // verus!

verus! {

/// `p` where `radix` is `2^p` with `p >= 1`, else 0.
pub open spec fn spec_pow2_exponent(radix: u32) -> int {
    match radix {
        2 => 1,
        4 => 2,
        8 => 3,
        16 => 4,
        32 => 5,
        _ => 0,
    }
}

/// The power of two that `radix` is, or 0 for a radix that is none.
pub fn pow2_exponent(radix: u32) -> (r: i32)
    ensures
        r as int == spec_pow2_exponent(radix),
        r != 0 ==> radix as int == pow(2, r as nat),
{
    proof {
        vstd::arithmetic::power::lemma_pow1(2);
        reveal_with_fuel(pow, 6);
    }
    match radix {
        2 => 1,
        4 => 2,
        8 => 3,
        16 => 4,
        32 => 5,
        _ => 0,
    }
}

/// Number of binary digits of `x`.
pub open spec fn bit_length(x: nat) -> nat
    decreases x,
{
    if x == 0 { 0 } else { 1 + bit_length(x / 2) }
}

/// `x` without its trailing zero bits.
pub open spec fn odd_part(x: nat) -> nat
    decreases x,
{
    if x > 0 && x % 2 == 0 { odd_part(x / 2) } else { x }
}

/// Whether a truncated mantissa has exactly the bit pattern of a value
/// halfway between two floats of `kind`: its bits from the highest set one
/// to the lowest set one number the stored fraction bits plus two.
pub fn is_halfway(kind: FloatKind, mantissa: u64) -> (r: bool)
    ensures
        r == (mantissa > 0 && bit_length(odd_part(mantissa as nat)) == kind.spec_mantissa_size()
            + 2),
{
    let mut v = mantissa;
    while v > 0 && v % 2 == 0
        invariant
            odd_part(v as nat) == odd_part(mantissa as nat),
            v > 0 <==> mantissa > 0,
        decreases v,
    {
        v = v / 2;
    }
    let ghost odd = v as nat;
    let mut bits: u32 = 0;
    proof {
        lemma_bit_length_u64(v);
    }
    while v > 0
        invariant
            bits + bit_length(v as nat) == bit_length(odd),
            bits <= 64 - bit_length(v as nat),
            bit_length(v as nat) <= 64,
        decreases v,
    {
        proof {
            lemma_bit_length_u64(v);
        }
        v = v / 2;
        bits = bits + 1;
    }
    mantissa > 0 && bits == kind.mantissa_size() + 2
}

proof fn lemma_bit_length_u64(v: u64)
    ensures
        bit_length(v as nat) <= 64,
{
    lemma2_to64_rest();
    lemma_bit_length_bound(v as nat, 64);
}

proof fn lemma_bit_length_bound(x: nat, k: nat)
    requires
        x < pow2(k),
    ensures
        bit_length(x) <= k,
    decreases k,
{
    if x > 0 {
        if k == 0 {
            lemma2_to64();
        } else {
            vstd::arithmetic::power2::lemma_pow2_unfold(k);
            lemma_bit_length_bound(x / 2, (k - 1) as nat);
        }
    }
}

/// For a power-of-two radix `2^p`, the largest exponent limit is the last
/// below the overflow exponent.
proof fn lemma_pow2_radix_limit(kind: FloatKind, radix: u32)
    requires
        spec_pow2_exponent(radix) >= 1,
    ensures
        spec_pow2_exponent(radix) * (spec_exponent_limit(kind, radix).1 + 1) >= overflow_exponent(
            kind,
        ),
{
    if radix == 2 {
    } else if radix == 4 {
    } else if radix == 8 {
    } else if radix == 16 {
    } else {
    }
}

proof fn lemma_pow2_le(a: nat, b: nat)
    requires
        a <= b,
    ensures
        pow2(a) <= pow2(b),
{
    if a < b {
        vstd::arithmetic::power2::lemma_pow2_strictly_increases(a, b);
    }
}

/// `2^(p k)` as a power of the radix `2^p`.
proof fn lemma_pow_of_pow2(p: nat, k: nat)
    ensures
        pow(pow(2, p) as int, k) == pow2(p * k),
{
    vstd::arithmetic::power::lemma_pow_multiplies(2, p, k);
    vstd::arithmetic::power2::lemma_pow2(p * k);
}

/// The pattern of `mantissa * radix^exponent` for a radix that is `2^pow2_exp`.
///
/// Multiplying by a power of two changes only the binary exponent, so the
/// value is exact wherever it is in range: past the largest exponent it is
/// infinity, far enough below the smallest it is zero, and in between it is
/// rounded once.
pub fn pow2_to_exact(kind: FloatKind, mantissa: u64, radix: u32, pow2_exp: i32, exponent: i32) -> (bits: u64)
    requires
        mantissa > 0,
        pow2_exp >= 1,
        spec_pow2_exponent(radix) == pow2_exp,
    ensures
        correctly_rounded(kind, mantissa as nat, radix as nat, exponent as int, bits as nat),
{
    let (_min_exp, max_exp) = exponent_limit(kind, radix);
    let bias = kind.exponent_bias();
    let p = pow2_exp as i64;
    let ghost pn = p as nat;
    proof {
        reveal_with_fuel(pow, 6);
        lemma2_to64();
        lemma2_to64_rest();
        assert(radix as int == pow(2, pn));
        assert(1 <= p <= 5);
        assert(-5 * 0x8000_0000 <= p * (exponent as i64) <= 5 * 0x8000_0000) by (nonlinear_arith)
            requires
                1 <= p <= 5,
                -0x8000_0000 <= exponent < 0x8000_0000,
        ;
    }
    if exponent > max_exp {
        proof {
            let k = exponent as nat;
            lemma_pow_of_pow2(pn, k);
            lemma_pow2_radix_limit(kind, radix);
            assert(pn * k >= overflow_exponent(kind)) by (nonlinear_arith)
                requires
                    pn * (spec_exponent_limit(kind, radix).1 + 1) >= overflow_exponent(kind),
                    k >= spec_exponent_limit(kind, radix).1 + 1,
                    pn >= 1,
            ;
            lemma_pow2_le(overflow_exponent(kind), pn * k);
            assert(mantissa * pow2(pn * k) >= pow2(pn * k)) by (nonlinear_arith)
                requires
                    mantissa >= 1,
            ;
            lemma_large_rounds_to_infinity(kind, mantissa as nat, radix as nat, exponent as int);
        }
        kind.infinity_bits()
    } else if p * (exponent as i64) <= -(bias + 64) {
        proof {
            let k = (-exponent) as nat;
            assert(pn * k >= 64 + bias) by (nonlinear_arith)
                requires
                    p * exponent <= -(bias + 64),
                    pn == p,
                    k == -exponent,
                    bias >= 0,
            ;
            lemma_pow_of_pow2(pn, k);
            vstd::arithmetic::power2::lemma_pow2_adds(64, bias as nat);
            lemma_pow2_le((64 + bias) as nat, pn * k);
            let pb = pow2(bias as nat);
            vstd::arithmetic::power2::lemma_pow2_pos(bias as nat);
            assert(mantissa * pb < pow2(64) * pb) by (nonlinear_arith)
                requires
                    mantissa < pow2(64),
                    pb > 0,
            ;
            vstd::arithmetic::power2::lemma_pow2_pos(bias as nat);
            lemma_small_rounds_to_zero(kind, mantissa as nat, radix as nat, exponent as int);
        }
        0
    } else {
        let n = Bigint::from_u64(mantissa);
        round_exact(kind, &n, radix, exponent as i128)
    }
}

/// The pattern of `mantissa * radix^exponent` for a radix that is no power of
/// two, and whether this exact path applies: only where the mantissa fits
/// the significand and the exponent is within the radix's exponent limits.
pub fn to_exact(kind: FloatKind, mantissa: u64, radix: u32, exponent: i32) -> (r: (u64, bool))
    requires
        2 <= radix <= 36,
    ensures
        r.1 == (mantissa < pow2(kind.spec_mantissa_size()) && (exponent == 0 || (
        spec_exponent_limit(kind, radix).0 <= exponent <= spec_exponent_limit(kind, radix).1))),
        r.1 ==> correctly_rounded(kind, mantissa as nat, radix as nat, exponent as int, r.0 as nat),
        !r.1 ==> r.0 == 0,
{
    let (min_exp, max_exp) = exponent_limit(kind, radix);
    let unit = kind.hidden_bit();
    if mantissa >= unit {
        (0, false)
    } else if exponent == 0 || (exponent >= min_exp && exponent <= max_exp) {
        let n = Bigint::from_u64(mantissa);
        (round_exact(kind, &n, radix, exponent as i128), true)
    } else {
        (0, false)
    }
}

} // verus!

