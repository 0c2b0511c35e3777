use vstd::prelude::*;
use vstd::arithmetic::power2::{pow2, lemma2_to64, lemma2_to64_rest, lemma_pow2_unfold};
use crate::bignum::Bigint;
use crate::float::{
    FloatKind, correctly_rounded, mul_pow, nonneg, round_exact, lemma_pow_ge_pow2,
};
use crate::digit::valid_radix;
use vstd::arithmetic::power::pow;
use crate::mantissa::Mantissa;

verus! {

/// An extended-precision float: `frac * 2^exp`.
#[derive(Clone, Copy, Debug, PartialEq, Eq, Structural)]
pub struct ExtendedFloat<M> {
    pub frac: M,
    pub exp: i32,
}

impl ExtendedFloat<u64> {
    /// Shift the fraction left until its top bit is set, lowering the
    /// exponent to keep the value; gives the shift. Zero stays as it is.
    pub fn normalize(&mut self) -> (shift: u32)
        requires
            old(self).exp >= i32::MIN + 63,
        ensures
            shift <= 63,
            final(self).frac == old(self).frac * pow2(shift as nat),
            final(self).exp == old(self).exp - shift,
            old(self).frac != 0 ==> final(self).frac >= 0x8000_0000_0000_0000u64,
            old(self).frac == 0 ==> shift == 0,
    {
        proof {
            lemma2_to64();
            lemma2_to64_rest();
        }
        let ghost f0 = self.frac;
        let mut shift: u32 = 0;
        if self.frac == 0 {
            return 0;
        }
        while self.frac < 0x8000_0000_0000_0000u64
            invariant
                self.frac == f0 * pow2(shift as nat),
                self.exp == old(self).exp - shift,
                f0 == old(self).frac,
                f0 >= 1,
                self.frac >= pow2(shift as nat),
                old(self).exp >= i32::MIN + 63,
                shift <= 63,
                pow2(63) == 0x8000_0000_0000_0000u64,
            decreases 63 - shift,
        {
            proof {
                if shift >= 63 {
                    if shift > 63 {
                        vstd::arithmetic::power2::lemma_pow2_strictly_increases(63, shift as nat);
                    }
                    assert(false);
                }
                lemma_pow2_unfold((shift + 1) as nat);
                assert(f0 * pow2(shift as nat) * 2 == f0 * pow2((shift + 1) as nat))
                    by (nonlinear_arith)
                    requires
                        pow2((shift + 1) as nat) == 2 * pow2(shift as nat),
                ;
            }
            self.frac = self.frac * 2;
            self.exp = self.exp - 1;
            shift = shift + 1;
        }
        shift
    }

    /// The pattern of the float of `kind` nearest to `frac * 2^exp`, ties to
    /// even.
    pub fn to_float_bits(&self, kind: FloatKind) -> (bits: u64)
        ensures
            correctly_rounded(kind, self.frac as nat, 2, self.exp as int, bits as nat),
    {
        let n = Bigint::from_u64(self.frac);
        round_exact(kind, &n, 2, self.exp as i128)
    }

    /// The product of two normalized extended floats, with the fraction
    /// rounded to the nearest, half up: `(a * b + 2^63) / 2^64`.
    pub fn mul(&self, b: &ExtendedFloat<u64>) -> (r: ExtendedFloat<u64>)
        requires
            i32::MIN <= self.exp + b.exp + 64 <= i32::MAX,
        ensures
            r.frac as int == (self.frac * b.frac + 0x8000_0000_0000_0000int) / 0x1_0000_0000_0000_0000int,
            r.exp == self.exp + b.exp + 64,
    {
        proof {
            assert((self.frac as u128) * (b.frac as u128) <= 0xFFFF_FFFF_FFFF_FFFFu128
                * 0xFFFF_FFFF_FFFF_FFFFu128) by (nonlinear_arith);
        }
        let p: u128 = (self.frac as u128) * (b.frac as u128);
        let q = (p + 0x8000_0000_0000_0000u128) / 0x1_0000_0000_0000_0000u128;
        let exp = (self.exp as i64 + b.exp as i64 + 64) as i32;
        ExtendedFloat { frac: q as u64, exp }
    }
}

/// Number of bits below the target significand in a normalized 64-bit
/// fraction with exponent `exp`: more where the value is subnormal.
pub open spec fn extra_bits(kind: FloatKind, exp: int) -> int {
    let m = kind.spec_mantissa_size() as int;
    let denormal_exp = -(kind.spec_exponent_bias() - m) - 63;
    if exp <= denormal_exp { 64 - m + denormal_exp - exp } else { 63 - m }
}

/// Whether a 64-bit extended float with error `count` (in halves of a unit
/// of its last place) rounds the same way wherever in its error its true
/// value lies: the bits below the significand are not within `count` of
/// halfway. Past 65 extra bits it is zero whatever the error; at 65 it is
/// accurate where the error cannot carry out of the fraction.
pub open spec fn extended_is_accurate(kind: FloatKind, count: nat, frac: nat, exp: int) -> bool {
    let eb = extra_bits(kind, exp);
    if eb > 65 {
        true
    } else if eb == 65 {
        frac + count <= u64::MAX
    } else {
        let extra = frac % pow2(eb as nat);
        let halfway = pow2((eb - 1) as nat);
        extra < halfway - count || extra > halfway + count
    }
}

/// Error accounting for extended floats over a mantissa type.
pub trait FloatErrors: Mantissa {
    /// Scale of the error counter.
    spec fn spec_error_scale() -> nat;

    /// Whether an extended float with this error is accurate enough.
    spec fn spec_error_is_accurate(kind: FloatKind, count: nat, frac: Self, exp: int) -> bool;

    /// The full error scale.
    fn error_scale() -> (r: u32)
        ensures
            r == Self::spec_error_scale(),
    ;

    /// Half the error scale.
    fn error_halfscale() -> (r: u32)
        ensures
            r == Self::spec_error_scale() / 2,
    ;

    /// Whether the number of errors is tolerable for the precision of `kind`.
    fn error_is_accurate(kind: FloatKind, count: u32, fp: &ExtendedFloat<Self>) -> (r: bool)
        ensures
            r == Self::spec_error_is_accurate(kind, count as nat, fp.frac, fp.exp as int),
    ;
}

impl FloatErrors for u64 {
    open spec fn spec_error_scale() -> nat {
        8
    }

    open spec fn spec_error_is_accurate(kind: FloatKind, count: nat, frac: u64, exp: int) -> bool {
        extended_is_accurate(kind, count, frac as nat, exp)
    }

    fn error_scale() -> (r: u32) {
        8
    }

    fn error_halfscale() -> (r: u32) {
        u64::error_scale() / 2
    }

    fn error_is_accurate(kind: FloatKind, count: u32, fp: &ExtendedFloat<u64>) -> (r: bool) {
        let m = kind.mantissa_size() as i64;
        let denormal_exp = -(kind.exponent_bias() - m) - 63;
        let exp = fp.exp as i64;
        let extrabits: i64 = if exp <= denormal_exp {
            64 - m + denormal_exp - exp
        } else {
            63 - m
        };
        if extrabits > 65 {
            true
        } else if extrabits == 65 {
            (fp.frac as u128) + (count as u128) <= u64::MAX as u128
        } else {
            let eb = extrabits as u32;
            let unit = pow2_u128(eb);
            let halfway = pow2_u128(eb - 1);
            let extra = (fp.frac as u128) % unit;
            let errors = count as u128;
            (extra as i128) < (halfway as i128) - (errors as i128) || extra > halfway + errors
        }
    }
}

impl FloatErrors for u128 {
    open spec fn spec_error_scale() -> nat {
        0
    }

    open spec fn spec_error_is_accurate(kind: FloatKind, count: nat, frac: u128, exp: int) -> bool {
        true
    }

    fn error_scale() -> (r: u32) {
        0
    }

    fn error_halfscale() -> (r: u32) {
        0
    }

    /// The 128-bit fraction always holds enough precision.
    fn error_is_accurate(kind: FloatKind, count: u32, fp: &ExtendedFloat<u128>) -> (r: bool) {
        true
    }
}

/// `2^k` for `k` up to 65.
fn pow2_u128(k: u32) -> (r: u128)
    requires
        k <= 65,
    ensures
        r == pow2(k as nat),
        0 < r <= 0x2_0000_0000_0000_0000u128,
{
    let mut r: u128 = 1;
    let mut i: u32 = 0;
    proof {
        lemma2_to64();
        lemma2_to64_rest();
        lemma_pow2_unfold(65);
    }
    while i < k
        invariant
            i <= k <= 65,
            r == pow2(i as nat),
            0 < r <= pow2(i as nat),
            pow2(65) == 0x2_0000_0000_0000_0000u128,
        decreases k - i,
    {
        proof {
            lemma_pow2_unfold((i + 1) as nat);
            vstd::arithmetic::power2::lemma_pow2_strictly_increases(i as nat, 66);
            lemma2_to64_rest();
            assert(pow2(66) == 2 * pow2(65) && pow2(65) == 2 * pow2(64)) by {
                lemma_pow2_unfold(66);
                lemma_pow2_unfold(65);
            }
        }
        r = r * 2;
        i = i + 1;
    }
    proof {
        if k < 65 {
            vstd::arithmetic::power2::lemma_pow2_strictly_increases(k as nat, 65);
        }
    }
    r
}

} // verus!

verus! {

/// Offset that makes the index of every exponent of the extended path
/// non-negative; below it the value is zero for both formats.
pub const POWER_BIAS: i64 = 1100;

/// Count of exponents that one large power covers.
pub const POWER_STEP: i64 = 10;

/// Count of large powers: indices up to `POWER_BIAS` above zero.
pub const LARGE_POWERS: i64 = 221;

/// Whether `f * 2^x <= a / b`.
pub open spec fn ext_le(f: nat, x: int, a: nat, b: nat) -> bool {
    f * pow2(nonneg(x)) * b <= a * pow2(nonneg(-x))
}

/// Whether `frac * 2^exp` is `a / b` truncated to a normalized 64-bit
/// fraction: `frac * 2^exp <= a / b < (frac + 1) * 2^exp`.
pub open spec fn is_truncation(frac: nat, exp: int, a: nat, b: nat) -> bool {
    &&& 0x8000_0000_0000_0000 <= frac <= u64::MAX
    &&& ext_le(frac, exp, a, b)
    &&& !ext_le(frac + 1, exp, a, b)
}

/// The error count of the extended product, in eighths of a unit in the
/// last place: under one unit for the truncation, and half a unit more for a
/// truncated mantissa.
pub open spec fn product_error_count(truncated: bool) -> nat {
    if truncated { 12 } else { 8 }
}

/// Scaling by 2 moves a power of two between the fraction and the exponent.
proof fn lemma_ext_le_double(f: nat, x: int, a: nat, b: nat)
    ensures
        ext_le(2 * f, x, a, b) == ext_le(f, x + 1, a, b),
{
    let pa = pow2(nonneg(-x));
    if x >= 0 {
        vstd::arithmetic::power2::lemma_pow2_unfold((x + 1) as nat);
        assert(nonneg(-x) == 0 && nonneg(-(x + 1)) == 0);
        assert(2 * f * pow2(x as nat) * b == f * (2 * pow2(x as nat)) * b) by (nonlinear_arith);
    } else {
        vstd::arithmetic::power2::lemma_pow2_unfold((-x) as nat);
        let q = pow2((-x - 1) as nat);
        assert(pa == 2 * q);
        assert(nonneg(x) == 0 && nonneg(x + 1) == 0);
        lemma2_to64();
        assert(2 * f * 1 * b == (f * 1 * b) * 2) by (nonlinear_arith);
        assert(a * pa == (a * q) * 2) by (nonlinear_arith)
            requires
                pa == 2 * q,
        ;
        crate::float::lemma_cancel_positive((f * 1 * b) as int, (a * q) as int, 2);
    }
}

/// Powers grow with their base.
proof fn lemma_pow_base_le(a: nat, b: nat, k: nat)
    requires
        1 <= a <= b,
    ensures
        pow(a as int, k) <= pow(b as int, k),
    decreases k,
{
    vstd::arithmetic::power::lemma_pow0(a as int);
    vstd::arithmetic::power::lemma_pow0(b as int);
    if k > 0 {
        lemma_pow_base_le(a, b, (k - 1) as nat);
        vstd::arithmetic::power::lemma_pow_adds(a as int, (k - 1) as nat, 1);
        vstd::arithmetic::power::lemma_pow_adds(b as int, (k - 1) as nat, 1);
        vstd::arithmetic::power::lemma_pow1(a as int);
        vstd::arithmetic::power::lemma_pow1(b as int);
        vstd::arithmetic::power::lemma_pow_positive(a as int, (k - 1) as nat);
        let pa = pow(a as int, (k - 1) as nat);
        let pb = pow(b as int, (k - 1) as nat);
        assert(pa * a <= pb * b) by (nonlinear_arith)
            requires
                0 <= pa <= pb,
                0 <= a <= b,
        ;
    }
}

/// `radix^k <= 2^(6 k)` for a radix of at most 64.
proof fn lemma_pow_le_pow2(radix: nat, k: nat)
    requires
        1 <= radix <= 64,
    ensures
        pow(radix as int, k) <= pow2(6 * k),
    decreases k,
{
    vstd::arithmetic::power::lemma_pow0(radix as int);
    lemma2_to64();
    if k > 0 {
        lemma_pow_le_pow2(radix, (k - 1) as nat);
        vstd::arithmetic::power::lemma_pow_adds(radix as int, (k - 1) as nat, 1);
        vstd::arithmetic::power::lemma_pow1(radix as int);
        vstd::arithmetic::power2::lemma_pow2_adds(6 * (k - 1) as nat, 6);
        assert(6 * (k - 1) as nat + 6 == 6 * k);
        vstd::arithmetic::power::lemma_pow_positive(radix as int, (k - 1) as nat);
        let p = pow(radix as int, (k - 1) as nat);
        assert(p * radix <= pow2(6 * (k - 1) as nat) * 64) by (nonlinear_arith)
            requires
                p <= pow2(6 * (k - 1) as nat),
                radix <= 64,
                p >= 0,
        ;
    }
}

/// Whether `f * 2^x <= a / b`, by exact comparison.
fn ext_le_exec(f: u64, x: i32, a: &Bigint, b: &Bigint) -> (r: bool)
    requires
        -10_000 <= x <= 10_000,
    ensures
        r == ext_le(f as nat, x as int, a@, b@),
{
    let up: u32 = if x > 0 {
        x as u32
    } else {
        0
    };
    let down: u32 = if x < 0 {
        (-x) as u32
    } else {
        0
    };
    let lhs = b.mul_small(f).shl(up);
    let rhs = a.shl(down);
    proof {
        assert(b@ * f * pow2(up as nat) == f * pow2(nonneg(x as int)) * b@) by (nonlinear_arith)
            requires
                up as nat == nonneg(x as int),
        ;
    }
    lhs.compare(&rhs) <= 0
}

/// `a / b` truncated to a normalized extended float, where
/// `2^-7000 <= a / b < 2^7000`.
fn truncate_ratio(a: &Bigint, b: &Bigint) -> (r: ExtendedFloat<u64>)
    requires
        ext_le(0x8000_0000_0000_0000, -7063, a@, b@),
        !ext_le(0x8000_0000_0000_0000, 6937, a@, b@),
    ensures
        is_truncation(r.frac as nat, r.exp as int, a@, b@),
{
    // The exponent: the last at which 2^63 * 2^x does not pass a / b.
    let top: u64 = 0x8000_0000_0000_0000;
    let mut lo: i32 = -7063;
    let mut hi: i32 = 6937;
    while hi - lo > 1
        invariant
            -7063 <= lo < hi <= 6937,
            ext_le(top as nat, lo as int, a@, b@),
            !ext_le(top as nat, hi as int, a@, b@),
        decreases hi - lo,
    {
        let mid = lo + (hi - lo) / 2;
        if ext_le_exec(top, mid, a, b) {
            lo = mid;
        } else {
            hi = mid;
        }
    }
    let x = lo;
    proof {
        assert(hi == x + 1);
        lemma_ext_le_double(top as nat, x as int, a@, b@);
    }
    // The fraction: the last in [2^63, 2^64) whose multiple does not pass.
    let mut flo: u64 = top;
    let mut fhi: u128 = 0x1_0000_0000_0000_0000;
    while fhi - (flo as u128) > 1
        invariant
            top <= flo,
            (flo as u128) < fhi <= 0x1_0000_0000_0000_0000u128,
            ext_le(flo as nat, x as int, a@, b@),
            !ext_le(fhi as nat, x as int, a@, b@),
            -7063 <= x <= 6937,
        decreases fhi - flo,
    {
        let mid: u64 = (flo as u128 + (fhi - flo as u128) / 2) as u64;
        if ext_le_exec(mid, x, a, b) {
            flo = mid;
        } else {
            fhi = mid as u128;
        }
    }
    ExtendedFloat { frac: flo, exp: x }
}

/// Multiply the extended float `fp` (with exponent 0) by `radix^exponent`.
///
/// Exponents whose index `exponent + POWER_BIAS` is negative give zero, and
/// those past the last large power give the infinity sentinel; both are
/// exact. In between, the product is `fp.frac * radix^exponent` truncated to
/// a normalized 64-bit fraction, computed exactly; its error count is
/// `product_error_count(truncated)`, and the flag says whether that count
/// leaves the rounding decided.
pub fn multiply_exponent_extended(
    kind: FloatKind,
    fp: ExtendedFloat<u64>,
    radix: u32,
    exponent: i32,
    truncated: bool,
) -> (r: (ExtendedFloat<u64>, bool))
    requires
        valid_radix(radix),
        fp.exp == 0,
    ensures
        exponent + POWER_BIAS < 0 ==> r == (ExtendedFloat { frac: 0u64, exp: 0i32 }, true),
        exponent + POWER_BIAS >= POWER_STEP * LARGE_POWERS ==> r == (
            ExtendedFloat { frac: 0x8000_0000_0000_0000u64, exp: 0x7FFi32 },
            true,
        ),
        0 <= exponent + POWER_BIAS < POWER_STEP * LARGE_POWERS && fp.frac == 0 ==> r == (fp, false),
        0 <= exponent + POWER_BIAS < POWER_STEP * LARGE_POWERS && fp.frac != 0
            ==> extended_product_ok(kind, fp.frac, radix, exponent, truncated, r),
{
    let idx: i64 = exponent as i64 + POWER_BIAS;
    if idx < 0 {
        return (ExtendedFloat { frac: 0, exp: 0 }, true);
    }
    if idx / POWER_STEP >= LARGE_POWERS {
        return (ExtendedFloat { frac: 0x8000_0000_0000_0000u64, exp: 0x7FF }, true);
    }
    if fp.frac == 0 {
        return (fp, false);
    }
    let m = Bigint::from_u64(fp.frac);
    let one = Bigint::from_u64(1);
    let (a, b) = if exponent >= 0 {
        (mul_pow(&m, radix, exponent as u64), one)
    } else {
        (m.mul_small(1), mul_pow(&one, radix, (-exponent) as u64))
    };
    proof {
        lemma2_to64();
        lemma2_to64_rest();
        vstd::arithmetic::power::lemma_pow0(radix as int);
        let k = nonneg(exponent as int);
        let j = nonneg(-exponent);
        assert(k <= 1110 && j <= 1100);
        lemma_pow_le_pow2(radix as nat, k);
        lemma_pow_le_pow2(radix as nat, j);
        vstd::arithmetic::power::lemma_pow_positive(radix as int, k);
        vstd::arithmetic::power::lemma_pow_positive(radix as int, j);
        let pk = pow(radix as int, k);
        let pj = pow(radix as int, j);
        assert(a@ == fp.frac * pk);
        assert(b@ == pj);
        assert(a@ >= pk) by (nonlinear_arith)
            requires
                a@ == fp.frac * pk,
                fp.frac >= 1,
                pk >= 1,
        ;
        // Lower bound: 2^63 * 2^-7063 <= a / b, as 2^63 * b <= a * 2^7063.
        vstd::arithmetic::power2::lemma_pow2_adds(6 * j, (7000 - 6 * j) as nat);
        vstd::arithmetic::power2::lemma_pow2_adds(63, 7000);
        vstd::arithmetic::power2::lemma_pow2_pos((7000 - 6 * j) as nat);
        assert(nonneg(-7063) == 0 && nonneg(7063) == 7063);
        assert(pow2(7063) == pow2(63) * pow2(7000));
        assert(pow2(7000) == pow2(6 * j) * pow2((7000 - 6 * j) as nat));
        assert(0x8000_0000_0000_0000 * 1 * pj <= a@ * pow2(7063)) by (nonlinear_arith)
            requires
                pj <= pow2(6 * j),
                a@ >= pk,
                pk >= 1,
                pow2(7063) == pow2(63) * pow2(7000),
                pow2(7000) == pow2(6 * j) * pow2((7000 - 6 * j) as nat),
                pow2((7000 - 6 * j) as nat) >= 1,
                pow2(63) == 0x8000_0000_0000_0000,
        ;
        // Upper bound: a / b < 2^63 * 2^6937 = 2^7000, as a < 2^7000 * b.
        vstd::arithmetic::power2::lemma_pow2_adds(64, 6 * k);
        vstd::arithmetic::power2::lemma_pow2_adds(64 + 6 * k, (6936 - 6 * k) as nat);
        vstd::arithmetic::power2::lemma_pow2_adds(63, 6937);
        vstd::arithmetic::power2::lemma_pow2_pos((6936 - 6 * k) as nat);
        assert(nonneg(6937) == 6937 && nonneg(-6937) == 0);
        let big = pow2(7000);
        assert(big == pow2(63) * pow2(6937));
        assert(a@ < pow2(64 + 6 * k)) by (nonlinear_arith)
            requires
                a@ == fp.frac * pk,
                fp.frac < pow2(64),
                pk <= pow2(6 * k),
                pow2(64 + 6 * k) == pow2(64) * pow2(6 * k),
                pk >= 1,
        ;
        assert(pow2(64 + 6 * k) <= big) by (nonlinear_arith)
            requires
                big == pow2(64 + 6 * k) * pow2((6936 - 6 * k) as nat),
                pow2((6936 - 6 * k) as nat) >= 1,
                pow2(64 + 6 * k) >= 0,
        ;
        assert(0x8000_0000_0000_0000 * pow2(6937) * pj > a@ * 1) by (nonlinear_arith)
            requires
                a@ < big,
                big == 0x8000_0000_0000_0000 * pow2(6937),
                pj >= 1,
        ;
    }
    let product = truncate_ratio(&a, &b);
    let count: u32 = if truncated {
        12
    } else {
        8
    };
    let accurate = u64::error_is_accurate(kind, count, &product);
    (product, accurate)
}

/// Raising the error count can only turn an accurate verdict inaccurate.
pub proof fn lemma_accuracy_monotone(kind: FloatKind, c1: nat, c2: nat, frac: nat, exp: int)
    requires
        c1 <= c2,
        extended_is_accurate(kind, c2, frac, exp),
    ensures
        extended_is_accurate(kind, c1, frac, exp),
{
}

/// The extended-precision path: the float of `kind` nearest to
/// `mantissa * radix^exponent`, and whether the path decided it.
///
/// Past either end of the powers the value is zero or infinite, and so is
/// the pattern (below them a binary value may still be subnormal, so radix 2
/// is left undecided there). Otherwise the product comes from
/// `multiply_exponent_extended`. Where its error
/// count leaves the rounding decided, the truncated product is rounded, and
/// the pattern is confirmed by exact comparisons: it is the correctly rounded
/// float of `mantissa * radix^exponent`, and where digits were truncated,
/// `(mantissa + 1) * radix^exponent` does not pass its upper midpoint, so every
/// value in between rounds to it too. Otherwise the pattern is 0 and the
/// flag false.
pub fn to_extended(kind: FloatKind, mantissa: u64, radix: u32, exponent: i32, truncated: bool) -> (r: (
    u64,
    bool,
))
    requires
        valid_radix(radix),
    ensures
        !r.1 ==> r.0 == 0,
        r.1 ==> correctly_rounded(kind, mantissa as nat, radix as nat, exponent as int, r.0 as nat),
        r.1 && truncated && r.0 < kind.spec_infinity_bits() ==> crate::float::at_most_midpoint(
            kind,
            (mantissa + 1) as nat,
            radix as nat,
            exponent as int,
            r.0 as nat,
        ),
        r.1 && 0 <= exponent + POWER_BIAS < POWER_STEP * LARGE_POWERS && mantissa != 0 ==> exists|
            f: nat,
            x: int,
        |
            #![trigger is_truncation(f, x, (mantissa * pow(radix as int, nonneg(exponent as int))) as nat, pow(radix as int, nonneg(-exponent)) as nat)]
            is_truncation(
                f,
                x,
                (mantissa * pow(radix as int, nonneg(exponent as int))) as nat,
                pow(radix as int, nonneg(-exponent)) as nat,
            ) && extended_is_accurate(kind, product_error_count(truncated), f, x),
{
    if mantissa == 0 {
        return (0, false);
    }
    let idx: i64 = exponent as i64 + POWER_BIAS;
    if idx < 0 && radix == 2 {
        // Binary values this small may still be subnormal floats.
        return (0, false);
    }
    if idx < 0 || idx / POWER_STEP >= LARGE_POWERS {
        // Past either end of the powers the value is zero or infinite.
        proof {
            lemma2_to64();
            lemma2_to64_rest();
            if idx < 0 {
                let j = (-exponent) as nat;
                let bias = kind.spec_exponent_bias() as nat;
                lemma_pow_base_le(3, radix as nat, j);
                vstd::arithmetic::power::lemma_pow_increases(3, 1100, j);
                vstd::arithmetic::power::lemma_pow_multiplies(3, 2, 550);
                reveal_with_fuel(pow, 3);
                assert(pow(3, 2) == 9);
                lemma_pow_base_le(8, 9, 550);
                vstd::arithmetic::power::lemma_pow_multiplies(2, 3, 550);
                assert(pow(2, 3) == 8);
                vstd::arithmetic::power2::lemma_pow2(1650);
                vstd::arithmetic::power2::lemma_pow2_adds(64, bias);
                vstd::arithmetic::power2::lemma_pow2_strictly_increases(64 + bias, 1650);
                vstd::arithmetic::power2::lemma_pow2_pos(bias);
                let pb = pow2(bias);
                assert((mantissa + 1) * pb <= pow2(64) * pb) by (nonlinear_arith)
                    requires
                        mantissa + 1 <= pow2(64),
                        pb > 0,
                ;
                assert(pow(8, 550) == pow2(1650));
                assert(pow(3, 1100) == pow(9, 550));
                assert(pow2(64) * pb == pow2(64 + bias));
                assert(pow2(64 + bias) < pow(radix as int, j));
                assert(mantissa * pb < (mantissa + 1) * pb) by (nonlinear_arith)
                    requires
                        pb > 0,
                ;
                crate::float::lemma_small_rounds_to_zero(kind, mantissa as nat, radix as nat, exponent as int);
                crate::float::lemma_small_rounds_to_zero(kind, (mantissa + 1) as nat, radix as nat, exponent as int);
            } else {
                let k = exponent as nat;
                lemma_pow_ge_pow2(radix as nat, k);
                vstd::arithmetic::power2::lemma_pow2_strictly_increases(
                    crate::float::overflow_exponent(kind),
                    k,
                );
                let pk = pow(radix as int, k);
                assert(mantissa * pk >= pk) by (nonlinear_arith)
                    requires
                        mantissa >= 1,
                        pk >= 0,
                ;
                crate::float::lemma_large_rounds_to_infinity(kind, mantissa as nat, radix as nat, exponent as int);
            }
        }
        return if idx < 0 {
            (0, true)
        } else {
            (kind.infinity_bits(), true)
        };
    }
    let fp = ExtendedFloat { frac: mantissa, exp: 0 };
    let (product, accurate) = multiply_exponent_extended(kind, fp, radix, exponent, truncated);
    if !accurate {
        return (0, false);
    }
    proof {
        let a = (mantissa * pow(radix as int, nonneg(exponent as int))) as nat;
        let b = pow(radix as int, nonneg(-exponent)) as nat;
        if 0 <= exponent + POWER_BIAS < POWER_STEP * LARGE_POWERS && mantissa != 0 {
            assert(is_truncation(product.frac as nat, product.exp as int, a, b));
        }
    }
    let estimate = product.to_float_bits(kind);
    let n = Bigint::from_u64(mantissa);
    if !crate::float::confirms(kind, &n, radix, exponent as i128, estimate) {
        return (0, false);
    }
    if truncated && estimate < kind.infinity_bits() {
        let n1 = Bigint::from_u64(mantissa).mul_add(1, 1);
        if !crate::float::at_most_midpoint_exec(kind, &n1, radix, exponent as i128, estimate) {
            return (0, false);
        }
    }
    (estimate, true)
}

} // verus!

verus! {

/// A smaller fraction at the same exponent stays below `a / b` too.
proof fn lemma_ext_le_smaller(f: nat, g: nat, x: int, a: nat, b: nat)
    requires
        f <= g,
        ext_le(g, x, a, b),
    ensures
        ext_le(f, x, a, b),
{
    let p = pow2(nonneg(x));
    assert(f * p * b <= g * p * b) by (nonlinear_arith)
        requires
            f <= g,
    ;
}

/// A lower exponent stays below `a / b` too.
proof fn lemma_ext_le_lower(f: nat, x: int, y: int, a: nat, b: nat)
    requires
        x <= y,
        ext_le(f, y, a, b),
    ensures
        ext_le(f, x, a, b),
    decreases y - x,
{
    if x < y {
        lemma_ext_le_double(f, y - 1, a, b);
        lemma_ext_le_smaller(f, 2 * f, y - 1, a, b);
        lemma_ext_le_lower(f, x, y - 1, a, b);
    }
}

/// A normalized truncation of `a / b` is unique.
pub proof fn lemma_truncation_unique(f1: nat, x1: int, f2: nat, x2: int, a: nat, b: nat)
    requires
        is_truncation(f1, x1, a, b),
        is_truncation(f2, x2, a, b),
    ensures
        f1 == f2,
        x1 == x2,
{
    let top: nat = 0x8000_0000_0000_0000;
    if x1 < x2 {
        lemma_ext_le_smaller(top, f2, x2, a, b);
        lemma_ext_le_lower(top, x1 + 1, x2, a, b);
        lemma_ext_le_double(top, x1, a, b);
        lemma_ext_le_smaller(f1 + 1, 2 * top, x1, a, b);
    } else if x2 < x1 {
        lemma_ext_le_smaller(top, f1, x1, a, b);
        lemma_ext_le_lower(top, x2 + 1, x1, a, b);
        lemma_ext_le_double(top, x2, a, b);
        lemma_ext_le_smaller(f2 + 1, 2 * top, x2, a, b);
    } else if f1 < f2 {
        lemma_ext_le_smaller(f1 + 1, f2, x1, a, b);
    } else if f2 < f1 {
        lemma_ext_le_smaller(f2 + 1, f1, x1, a, b);
    }
}

/// Whether `r` is what `multiply_exponent_extended` gives for an in-range
/// exponent and a non-zero fraction.
pub open spec fn extended_product_ok(
    kind: FloatKind,
    frac: u64,
    radix: u32,
    exponent: i32,
    truncated: bool,
    r: (ExtendedFloat<u64>, bool),
) -> bool {
    &&& is_truncation(
        r.0.frac as nat,
        r.0.exp as int,
        (frac * pow(radix as int, nonneg(exponent as int))) as nat,
        pow(radix as int, nonneg(-exponent)) as nat,
    )
    &&& r.1 == extended_is_accurate(
        kind,
        product_error_count(truncated),
        r.0.frac as nat,
        r.0.exp as int,
    )
}

/// A truncated mantissa never changes the extended product, and only makes
/// the accuracy verdict stricter.
pub proof fn lemma_truncation_keeps_product(
    kind: FloatKind,
    frac: u64,
    radix: u32,
    exponent: i32,
    rt: (ExtendedFloat<u64>, bool),
    rf: (ExtendedFloat<u64>, bool),
)
    requires
        extended_product_ok(kind, frac, radix, exponent, true, rt),
        extended_product_ok(kind, frac, radix, exponent, false, rf),
    ensures
        rt.0 == rf.0,
        rt.1 ==> rf.1,
{
    let a = (frac * pow(radix as int, nonneg(exponent as int))) as nat;
    let b = pow(radix as int, nonneg(-exponent)) as nat;
    lemma_truncation_unique(
        rt.0.frac as nat,
        rt.0.exp as int,
        rf.0.frac as nat,
        rf.0.exp as int,
        a,
        b,
    );
    if rt.1 {
        lemma_accuracy_monotone(kind, 8, 12, rf.0.frac as nat, rf.0.exp as int);
    }
}

} // verus!
