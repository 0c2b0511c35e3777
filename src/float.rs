use vstd::prelude::*;
use vstd::arithmetic::power::{pow, lemma_pow0, lemma_pow1, lemma_pow_adds};
use vstd::arithmetic::power2::{pow2, lemma2_to64, lemma2_to64_rest};
use crate::bignum::Bigint;

verus! {

/// The binary interchange formats that floats are parsed into.
///
/// A float is handled as its IEEE-754 bit pattern: sign 0, then the biased
/// exponent, then the stored fraction bits.
#[derive(Clone, Copy, Debug, PartialEq, Eq, Structural)]
pub enum FloatKind {
    /// binary32 (`f32`): 23 fraction bits.
    Single,
    /// binary64 (`f64`): 52 fraction bits.
    Double,
}

impl FloatKind {
    /// Number of stored fraction bits.
    pub open spec fn spec_mantissa_size(self) -> nat {
        match self {
            FloatKind::Single => 23,
            FloatKind::Double => 52,
        }
    }

    /// Bias between the biased exponent and the exponent of the integer
    /// significand: a normal float is `significand * 2^(biased - bias)`.
    pub open spec fn spec_exponent_bias(self) -> int {
        match self {
            FloatKind::Single => 150,
            FloatKind::Double => 1075,
        }
    }

    /// Bit pattern of positive infinity.
    pub open spec fn spec_infinity_bits(self) -> nat {
        match self {
            FloatKind::Single => 0x7F80_0000,
            FloatKind::Double => 0x7FF0_0000_0000_0000,
        }
    }

    /// `2^mantissa_size`: the hidden bit of a normal significand.
    pub fn hidden_bit(self) -> (r: u64)
        ensures
            r as nat == pow2(self.spec_mantissa_size()),
    {
        proof {
            lemma2_to64();
            lemma2_to64_rest();
        }
        match self {
            FloatKind::Single => 0x80_0000,
            FloatKind::Double => 0x10_0000_0000_0000,
        }
    }

    pub fn mantissa_size(self) -> (r: u32)
        ensures
            r as nat == self.spec_mantissa_size(),
    {
        match self {
            FloatKind::Single => 23,
            FloatKind::Double => 52,
        }
    }

    pub fn exponent_bias(self) -> (r: i64)
        ensures
            r as int == self.spec_exponent_bias(),
    {
        match self {
            FloatKind::Single => 150,
            FloatKind::Double => 1075,
        }
    }

    pub fn infinity_bits(self) -> (r: u64)
        ensures
            r as nat == self.spec_infinity_bits(),
    {
        match self {
            FloatKind::Single => 0x7F80_0000,
            FloatKind::Double => 0x7FF0_0000_0000_0000,
        }
    }
}

/// Integer significand of the float with bit pattern `b`.
pub open spec fn significand(kind: FloatKind, b: nat) -> nat {
    let h = pow2(kind.spec_mantissa_size());
    if b / h == 0 { b % h } else { b % h + h }
}

/// Binary exponent of the float with bit pattern `b`: its value is
/// `significand(b) * 2^binary_exponent(b)`. The pattern of infinity reads as
/// the power of two just above the largest finite float.
pub open spec fn binary_exponent(kind: FloatKind, b: nat) -> int {
    let biased = b / pow2(kind.spec_mantissa_size());
    (if biased == 0 { 1 } else { biased as int }) - kind.spec_exponent_bias()
}

pub open spec fn nonneg(x: int) -> nat {
    if x > 0 { x as nat } else { 0 }
}

/// `n * radix^e` scaled to an integer for comparing with `m * 2^t`.
pub open spec fn scaled_value(n: nat, radix: nat, e: int, t: int) -> int {
    n * pow(radix as int, nonneg(e)) * pow2(nonneg(-t))
}

/// `m * 2^t` scaled by the same factor as `scaled_value`.
pub open spec fn scaled_bound(m: nat, radix: nat, e: int, t: int) -> int {
    m * pow2(nonneg(t)) * pow(radix as int, nonneg(-e))
}

/// Whether `n * radix^e` is nearer to the float after `b` than to `b`: it
/// lies above their midpoint `(2 significand(b) + 1) * 2^(binary_exponent(b) - 1)`,
/// or on it where `b` is odd, so that the tie goes to the even one.
pub open spec fn rounds_up(kind: FloatKind, n: nat, radix: nat, e: int, b: nat) -> bool {
    let m = 2 * significand(kind, b) + 1;
    let t = binary_exponent(kind, b) - 1;
    let v = scaled_value(n, radix, e, t);
    let w = scaled_bound(m, radix, e, t);
    v > w || (v == w && b % 2 == 1)
}

/// Whether `bits` is the IEEE-754 round-to-nearest-even float of the exact
/// value `n * radix^e`: infinity past the largest finite float, and no float
/// pattern is nearer.
pub open spec fn correctly_rounded(kind: FloatKind, n: nat, radix: nat, e: int, bits: nat) -> bool {
    &&& bits <= kind.spec_infinity_bits()
    &&& bits < kind.spec_infinity_bits() ==> !rounds_up(kind, n, radix, e, bits)
    &&& bits > 0 ==> rounds_up(kind, n, radix, e, (bits - 1) as nat)
}

/// `x * radix^k`.
pub fn mul_pow(x: &Bigint, radix: u32, k: u64) -> (r: Bigint)
    ensures
        r@ == x@ * pow(radix as int, k as nat),
{
    let mut cur = x.mul_small(1);
    let mut i: u64 = 0;
    proof {
        lemma_pow0(radix as int);
    }
    while i < k
        invariant
            i <= k,
            cur@ == x@ * pow(radix as int, i as nat),
        decreases k - i,
    {
        let next = cur.mul_small(radix as u64);
        proof {
            lemma_pow1(radix as int);
            lemma_pow_adds(radix as int, i as nat, 1);
            assert(x@ * pow(radix as int, i as nat) * radix == x@ * (pow(radix as int, i as nat)
                * pow(radix as int, 1))) by (nonlinear_arith)
                requires
                    pow(radix as int, 1) == radix,
            ;
        }
        cur = next;
        i = i + 1;
    }
    cur
}

/// Whether the value `a / base` rounds past the float `b`, where
/// `a = n * radix^max(e, 0)` and `base = radix^max(-e, 0)`.
fn rounds_up_scaled(
    kind: FloatKind,
    a: &Bigint,
    base: &Bigint,
    b: u64,
    Ghost(n): Ghost<nat>,
    Ghost(radix): Ghost<nat>,
    Ghost(e): Ghost<int>,
) -> (r: bool)
    requires
        a@ == n * pow(radix as int, nonneg(e)),
        base@ == pow(radix as int, nonneg(-e)),
        b <= kind.spec_infinity_bits(),
    ensures
        r == rounds_up(kind, n, radix, e, b as nat),
{
    let c = midpoint_compare(kind, a, base, b, Ghost(n), Ghost(radix), Ghost(e));
    c > 0 || (c == 0 && b % 2 == 1)
}

/// The sign of `n * radix^e` less the midpoint above the float `b`, where
/// `a = n * radix^max(e, 0)` and `base = radix^max(-e, 0)`.
fn midpoint_compare(
    kind: FloatKind,
    a: &Bigint,
    base: &Bigint,
    b: u64,
    Ghost(n): Ghost<nat>,
    Ghost(radix): Ghost<nat>,
    Ghost(e): Ghost<int>,
) -> (c: i8)
    requires
        a@ == n * pow(radix as int, nonneg(e)),
        base@ == pow(radix as int, nonneg(-e)),
        b <= kind.spec_infinity_bits(),
    ensures
        ({
            let m = 2 * significand(kind, b as nat) + 1;
            let t = binary_exponent(kind, b as nat) - 1;
            let v = scaled_value(n, radix, e, t);
            let w = scaled_bound(m, radix, e, t);
            c == (if v < w { -1i8 } else if v == w { 0i8 } else { 1i8 })
        }),
{
    let unit = kind.hidden_bit();
    proof {
        lemma2_to64();
        lemma2_to64_rest();
    }
    let biased = b / unit;
    let f = b % unit;
    proof {
        vstd::arithmetic::div_mod::lemma_div_is_ordered(
            b as int,
            kind.spec_infinity_bits() as int,
            unit as int,
        );
        assert(biased <= 2047);
    }
    let sig: u64 = if biased == 0 {
        f
    } else {
        f + unit
    };
    let exp: i64 = (if biased == 0 {
        1
    } else {
        biased as i64
    }) - kind.exponent_bias();
    let t: i64 = exp - 1;
    let m: u64 = 2 * sig + 1;
    let left_shift: u32 = if t < 0 {
        (-t) as u32
    } else {
        0
    };
    let right_shift: u32 = if t > 0 {
        t as u32
    } else {
        0
    };
    let lhs = a.shl(left_shift);
    let rhs = base.mul_small(m).shl(right_shift);
    let c = lhs.compare(&rhs);
    proof {
        let p = pow(radix as int, nonneg(-e));
        let q = pow2(nonneg(t as int));
        assert(right_shift as nat == nonneg(t as int));
        assert(left_shift as nat == nonneg(-t));
        assert(rhs@ == p * m * q);
        assert(p * m * q == m * q * p) by (nonlinear_arith);
        assert(sig as nat == significand(kind, b as nat));
        assert(t as int == binary_exponent(kind, b as nat) - 1);
    }
    c
}

/// Whether `n * radix^e` stays at or below the midpoint above the float `b`:
/// every value from the float up to it then rounds no higher than `b`.
pub open spec fn at_most_midpoint(kind: FloatKind, n: nat, radix: nat, e: int, b: nat) -> bool {
    let m = 2 * significand(kind, b) + 1;
    let t = binary_exponent(kind, b) - 1;
    scaled_value(n, radix, e, t) <= scaled_bound(m, radix, e, t)
}

/// `n * radix^max(e, 0)` and `radix^max(-e, 0)`.
fn scaled_operands(n: &Bigint, radix: u32, e: i128) -> (r: (Bigint, Bigint))
    requires
        -(u64::MAX as int) <= e <= u64::MAX,
    ensures
        r.0@ == n@ * pow(radix as int, nonneg(e as int)),
        r.1@ == pow(radix as int, nonneg(-e)),
{
    let one = Bigint::from_u64(1);
    proof {
        lemma_pow0(radix as int);
    }
    if e >= 0 {
        (mul_pow(n, radix, e as u64), one)
    } else {
        (n.mul_small(1), mul_pow(&one, radix, (-e) as u64))
    }
}

/// Whether the pattern `b` is the correctly rounded float of `n * radix^e`,
/// by two exact comparisons; a `false` decides nothing.
pub fn confirms(kind: FloatKind, n: &Bigint, radix: u32, e: i128, b: u64) -> (r: bool)
    requires
        -(u64::MAX as int) <= e <= u64::MAX,
    ensures
        r ==> correctly_rounded(kind, n@, radix as nat, e as int, b as nat),
{
    let inf = kind.infinity_bits();
    if b > inf {
        return false;
    }
    let (a, base) = scaled_operands(n, radix, e);
    let below_ok = b == 0 || rounds_up_scaled(
        kind,
        &a,
        &base,
        b - 1,
        Ghost(n@),
        Ghost(radix as nat),
        Ghost(e as int),
    );
    below_ok && (b == inf || !rounds_up_scaled(
        kind,
        &a,
        &base,
        b,
        Ghost(n@),
        Ghost(radix as nat),
        Ghost(e as int),
    ))
}

/// Whether `n * radix^e` stays at or below the midpoint above the float `b`.
pub fn at_most_midpoint_exec(kind: FloatKind, n: &Bigint, radix: u32, e: i128, b: u64) -> (r: bool)
    requires
        -(u64::MAX as int) <= e <= u64::MAX,
        b <= kind.spec_infinity_bits(),
    ensures
        r == at_most_midpoint(kind, n@, radix as nat, e as int, b as nat),
{
    let (a, base) = scaled_operands(n, radix, e);
    midpoint_compare(kind, &a, &base, b, Ghost(n@), Ghost(radix as nat), Ghost(e as int)) <= 0
}

/// The bit pattern of `n * radix^e` rounded to the nearest float of `kind`,
/// ties to even.
///
/// Exact arithmetic decides every comparison: a binary search over the bit
/// patterns finds the first one that the value does not round past.
pub fn round_exact(kind: FloatKind, n: &Bigint, radix: u32, e: i128) -> (bits: u64)
    requires
        -(u64::MAX as int) <= e <= u64::MAX,
    ensures
        correctly_rounded(kind, n@, radix as nat, e as int, bits as nat),
{
    round_exact_with_hint(kind, n, radix, e, None)
}

/// As `round_exact`, trying the pattern `hint` first: two exact comparisons
/// confirm or refuse it before any search.
pub fn round_exact_with_hint(kind: FloatKind, n: &Bigint, radix: u32, e: i128, hint: Option<u64>) -> (bits: u64)
    requires
        -(u64::MAX as int) <= e <= u64::MAX,
    ensures
        correctly_rounded(kind, n@, radix as nat, e as int, bits as nat),
{
    let one = Bigint::from_u64(1);
    proof {
        lemma_pow0(radix as int);
    }
    let (a, base) = if e >= 0 {
        (mul_pow(n, radix, e as u64), one)
    } else {
        (n.mul_small(1), mul_pow(&one, radix, (-e) as u64))
    };
    let inf = kind.infinity_bits();
    if let Some(b) = hint {
        if b <= inf {
            let below_ok = b == 0 || rounds_up_scaled(
                kind,
                &a,
                &base,
                b - 1,
                Ghost(n@),
                Ghost(radix as nat),
                Ghost(e as int),
            );
            if below_ok && (b == inf || !rounds_up_scaled(
                kind,
                &a,
                &base,
                b,
                Ghost(n@),
                Ghost(radix as nat),
                Ghost(e as int),
            )) {
                return b;
            }
        }
    }
    let mut lo: u64 = 0;
    let mut hi: u64 = inf;
    while lo < hi
        invariant
            lo <= hi <= inf,
            inf as nat == kind.spec_infinity_bits(),
            a@ == n@ * pow(radix as int, nonneg(e as int)),
            base@ == pow(radix as int, nonneg(-e)),
            lo > 0 ==> rounds_up(kind, n@, radix as nat, e as int, (lo - 1) as nat),
            hi < inf ==> !rounds_up(kind, n@, radix as nat, e as int, hi as nat),
        decreases hi - lo,
    {
        let mid = lo + (hi - lo) / 2;
        if rounds_up_scaled(kind, &a, &base, mid, Ghost(n@), Ghost(radix as nat), Ghost(e as int)) {
            lo = mid + 1;
        } else {
            hi = mid;
        }
    }
    lo
}

} // verus!

verus! {

/// `radix^k >= 2^k` for every radix of at least 2.
pub proof fn lemma_pow_ge_pow2(radix: nat, k: nat)
    requires
        radix >= 2,
    ensures
        pow(radix as int, k) >= pow2(k),
    decreases k,
{
    if k == 0 {
        lemma_pow0(radix as int);
        lemma2_to64();
    } else {
        lemma_pow_ge_pow2(radix, (k - 1) as nat);
        vstd::arithmetic::power2::lemma_pow2_unfold(k);
        lemma_pow_adds(radix as int, (k - 1) as nat, 1);
        lemma_pow1(radix as int);
        let a = pow(radix as int, (k - 1) as nat);
        let b = pow2((k - 1) as nat);
        assert(pow(radix as int, k) == a * radix);
        assert(pow2(k) == 2 * b);
        assert(a * radix >= 2 * b) by (nonlinear_arith)
            requires
                radix >= 2,
                a >= b,
                b >= 0,
        ;
    }
}

/// A value of at least `radix^1101` rounds to infinity in both formats.
pub proof fn lemma_huge_rounds_to_infinity(kind: FloatKind, n: nat, radix: nat, e: int)
    requires
        radix >= 2,
        n >= 1,
        e >= 1101,
    ensures
        correctly_rounded(kind, n, radix, e, kind.spec_infinity_bits()),
{
    lemma2_to64();
    lemma2_to64_rest();
    let inf = kind.spec_infinity_bits();
    let b = (inf - 1) as nat;
    let h = pow2(kind.spec_mantissa_size());
    let m = 2 * significand(kind, b) + 1;
    let t = binary_exponent(kind, b) - 1;
    assert(m < pow2(55));
    assert(0 <= t <= 970);
    lemma_pow_ge_pow2(radix, e as nat);
    lemma_pow0(radix as int);
    vstd::arithmetic::power2::lemma_pow2_strictly_increases((55 + t) as nat, e as nat);
    vstd::arithmetic::power2::lemma_pow2_adds(55, t as nat);
    let pt = pow2(t as nat);
    let pe = pow(radix as int, e as nat);
    vstd::arithmetic::power2::lemma_pow2_pos(t as nat);
    assert(m * pt < pow2(55) * pt) by (nonlinear_arith)
        requires
            m < pow2(55),
            pt > 0,
    ;
    assert(n * pe >= pe) by (nonlinear_arith)
        requires
            n >= 1,
            pe >= 0,
    ;
    assert(nonneg(-t) == 0);
    assert(nonneg(-e) == 0);
    assert(nonneg(e) == e);
    assert(pow2(0) == 1);
    assert(pow(radix as int, 0) == 1);
    assert(n * pe * 1 == n * pe);
    assert(m * pt * 1 == m * pt);
}

/// A value below `2^-1201` rounds to zero in both formats.
pub proof fn lemma_tiny_rounds_to_zero(kind: FloatKind, n: nat, radix: nat, e: int, len: nat)
    requires
        radix >= 2,
        n < pow(radix as int, len),
        e + len <= -1201,
    ensures
        correctly_rounded(kind, n, radix, e, 0),
{
    lemma2_to64();
    lemma2_to64_rest();
    vstd::arithmetic::power2::lemma_pow2_pos(kind.spec_mantissa_size());
    let t = binary_exponent(kind, 0) - 1;
    let bias = kind.spec_exponent_bias();
    assert(t == -bias);
    assert(significand(kind, 0) == 0);
    let k = (-e - len) as nat;
    lemma_pow_adds(radix as int, len, k);
    lemma_pow_ge_pow2(radix, k);
    vstd::arithmetic::power2::lemma_pow2_strictly_increases(bias as nat, k);
    vstd::arithmetic::power2::lemma_pow2_pos(bias as nat);
    let pl = pow(radix as int, len);
    let pk = pow(radix as int, k);
    let pb = pow2(bias as nat);
    assert(n * pb < pl * pk) by (nonlinear_arith)
        requires
            n < pl,
            pb <= pk,
            pb > 0,
            n >= 0,
    ;
    lemma_pow0(radix as int);
    assert(scaled_value(n, radix, e, t) == n * pb);
    assert(nonneg(t) == 0);
    assert(nonneg(-e) == len + k);
    assert(nonneg(e) == 0);
    assert(pow2(0) == 1);
    assert(pow(radix as int, (len + k) as nat) == pl * pk);
    let pp = pow(radix as int, (len + k) as nat);
    assert(1 * pow2(0) * pp == pp) by (nonlinear_arith)
        requires
            pow2(0) == 1,
    ;
}

/// Zero rounds to the pattern of zero.
pub proof fn lemma_zero_rounds_to_zero(kind: FloatKind, radix: nat, e: int)
    requires
        radix >= 2,
    ensures
        correctly_rounded(kind, 0, radix, e, 0),
{
    lemma2_to64();
    lemma2_to64_rest();
    vstd::arithmetic::power2::lemma_pow2_pos(kind.spec_mantissa_size());
    let t = binary_exponent(kind, 0) - 1;
    vstd::arithmetic::power2::lemma_pow2_pos(nonneg(t));
    vstd::arithmetic::power::lemma_pow_positive(radix as int, nonneg(-e));
    let a = pow2(nonneg(t));
    let c = pow(radix as int, nonneg(-e));
    assert(1 * a * c > 0) by (nonlinear_arith)
        requires
            a > 0,
            c > 0,
    ;
    assert(significand(kind, 0) == 0);
    let z = pow(radix as int, nonneg(e));
    let y = pow2(nonneg(-t));
    assert(0 * z * y == 0) by (nonlinear_arith);
}

} // verus!

verus! {

/// Exponent of the power of two at and above which every value rounds to
/// infinity.
pub open spec fn overflow_exponent(kind: FloatKind) -> nat {
    match kind {
        FloatKind::Single => 128,
        FloatKind::Double => 1024,
    }
}

/// A value of at least `2^overflow_exponent` rounds to infinity.
pub proof fn lemma_large_rounds_to_infinity(kind: FloatKind, n: nat, radix: nat, e: int)
    requires
        radix >= 2,
        e >= 0,
        n * pow(radix as int, e as nat) >= pow2(overflow_exponent(kind)),
    ensures
        correctly_rounded(kind, n, radix, e, kind.spec_infinity_bits()),
{
    lemma2_to64();
    lemma2_to64_rest();
    let inf = kind.spec_infinity_bits();
    let b = (inf - 1) as nat;
    let m = 2 * significand(kind, b) + 1;
    let t = binary_exponent(kind, b) - 1;
    assert(m < pow2(55));
    let top = overflow_exponent(kind);
    assert(0 <= t && t + (top - t) == top);
    let pt = pow2(t as nat);
    let pe = pow(radix as int, e as nat);
    vstd::arithmetic::power2::lemma_pow2_pos(t as nat);
    vstd::arithmetic::power2::lemma_pow2_adds(t as nat, (top - t) as nat);
    match kind {
        FloatKind::Single => {
            assert(m < pow2(25));
            assert(top - t == 25);
        },
        FloatKind::Double => {
            assert(top - t == 54);
        },
    }
    let q = pow2((top - t) as nat);
    assert(m < q);
    assert(m * pt < q * pt) by (nonlinear_arith)
        requires
            m < q,
            pt > 0,
    ;
    assert(pow2(top) == pt * q);
    assert(q * pt == pt * q) by (nonlinear_arith);
    lemma_pow0(radix as int);
    assert(nonneg(-t) == 0);
    assert(nonneg(-e) == 0);
    assert(nonneg(e) == e);
    assert(n * pe * 1 == n * pe);
    assert(m * pt * 1 == m * pt);
}

/// A value below `2^-exponent_bias` (half the smallest subnormal) rounds to
/// zero.
pub proof fn lemma_small_rounds_to_zero(kind: FloatKind, n: nat, radix: nat, e: int)
    requires
        radix >= 2,
        e <= 0,
        n * pow2(kind.spec_exponent_bias() as nat) < pow(radix as int, (-e) as nat),
    ensures
        correctly_rounded(kind, n, radix, e, 0),
{
    lemma2_to64();
    lemma2_to64_rest();
    vstd::arithmetic::power2::lemma_pow2_pos(kind.spec_mantissa_size());
    let t = binary_exponent(kind, 0) - 1;
    assert(t == -kind.spec_exponent_bias());
    assert(significand(kind, 0) == 0);
    lemma_pow0(radix as int);
    assert(nonneg(t) == 0);
    assert(nonneg(e) == 0);
    assert(pow2(0) == 1);
    let pp = pow(radix as int, (-e) as nat);
    assert(1 * pow2(0) * pp == pp) by (nonlinear_arith)
        requires
            pow2(0) == 1,
    ;
    assert(n * 1 * pow2(nonneg(-t)) == n * pow2(nonneg(-t)));
}

} // verus!

verus! {

/// Range of exponents `k` for which the fast exact paths take
/// `mantissa * radix^k`: for a power-of-two radix, those where `radix^k` is a
/// finite float, subnormal ones too; for another radix, `[-K, K]` with
/// `K` the largest power of the radix's odd part that the significand holds,
/// so that `radix^K` and `radix^-K` scale a value with one rounding.
pub open spec fn spec_exponent_limit(kind: FloatKind, radix: u32) -> (int, int) {
    match kind {
        FloatKind::Single => match radix {
            2 => (-149, 127),
            3 => (-15, 15),
            4 => (-74, 63),
            5 => (-10, 10),
            6 => (-15, 15),
            7 => (-8, 8),
            8 => (-49, 42),
            9 => (-7, 7),
            10 => (-10, 10),
            11 => (-6, 6),
            12 => (-15, 15),
            13 => (-6, 6),
            14 => (-8, 8),
            15 => (-6, 6),
            16 => (-37, 31),
            17 => (-5, 5),
            18 => (-7, 7),
            19 => (-5, 5),
            20 => (-10, 10),
            21 => (-5, 5),
            22 => (-6, 6),
            23 => (-5, 5),
            24 => (-15, 15),
            25 => (-5, 5),
            26 => (-6, 6),
            27 => (-5, 5),
            28 => (-8, 8),
            29 => (-4, 4),
            30 => (-6, 6),
            31 => (-4, 4),
            32 => (-29, 25),
            33 => (-4, 4),
            34 => (-5, 5),
            35 => (-4, 4),
            36 => (-7, 7),
            _ => (0, 0),
        },
        FloatKind::Double => match radix {
            2 => (-1074, 1023),
            3 => (-33, 33),
            4 => (-537, 511),
            5 => (-22, 22),
            6 => (-33, 33),
            7 => (-18, 18),
            8 => (-358, 341),
            9 => (-16, 16),
            10 => (-22, 22),
            11 => (-15, 15),
            12 => (-33, 33),
            13 => (-14, 14),
            14 => (-18, 18),
            15 => (-13, 13),
            16 => (-268, 255),
            17 => (-12, 12),
            18 => (-16, 16),
            19 => (-12, 12),
            20 => (-22, 22),
            21 => (-12, 12),
            22 => (-15, 15),
            23 => (-11, 11),
            24 => (-33, 33),
            25 => (-11, 11),
            26 => (-14, 14),
            27 => (-11, 11),
            28 => (-18, 18),
            29 => (-10, 10),
            30 => (-13, 13),
            31 => (-10, 10),
            32 => (-214, 204),
            33 => (-10, 10),
            34 => (-12, 12),
            35 => (-10, 10),
            36 => (-16, 16),
            _ => (0, 0),
        },
    }
}

/// The exponent limits of `kind` for `radix`.
pub fn exponent_limit(kind: FloatKind, radix: u32) -> (r: (i32, i32))
    ensures
        r.0 as int == spec_exponent_limit(kind, radix).0,
        r.1 as int == spec_exponent_limit(kind, radix).1,
        -1074 <= r.0 <= 0 <= r.1 <= 1023,
{
    match kind {
        FloatKind::Single => match radix {
            2 => (-149, 127),
            3 => (-15, 15),
            4 => (-74, 63),
            5 => (-10, 10),
            6 => (-15, 15),
            7 => (-8, 8),
            8 => (-49, 42),
            9 => (-7, 7),
            10 => (-10, 10),
            11 => (-6, 6),
            12 => (-15, 15),
            13 => (-6, 6),
            14 => (-8, 8),
            15 => (-6, 6),
            16 => (-37, 31),
            17 => (-5, 5),
            18 => (-7, 7),
            19 => (-5, 5),
            20 => (-10, 10),
            21 => (-5, 5),
            22 => (-6, 6),
            23 => (-5, 5),
            24 => (-15, 15),
            25 => (-5, 5),
            26 => (-6, 6),
            27 => (-5, 5),
            28 => (-8, 8),
            29 => (-4, 4),
            30 => (-6, 6),
            31 => (-4, 4),
            32 => (-29, 25),
            33 => (-4, 4),
            34 => (-5, 5),
            35 => (-4, 4),
            36 => (-7, 7),
            _ => (0, 0),
        },
        FloatKind::Double => match radix {
            2 => (-1074, 1023),
            3 => (-33, 33),
            4 => (-537, 511),
            5 => (-22, 22),
            6 => (-33, 33),
            7 => (-18, 18),
            8 => (-358, 341),
            9 => (-16, 16),
            10 => (-22, 22),
            11 => (-15, 15),
            12 => (-33, 33),
            13 => (-14, 14),
            14 => (-18, 18),
            15 => (-13, 13),
            16 => (-268, 255),
            17 => (-12, 12),
            18 => (-16, 16),
            19 => (-12, 12),
            20 => (-22, 22),
            21 => (-12, 12),
            22 => (-15, 15),
            23 => (-11, 11),
            24 => (-33, 33),
            25 => (-11, 11),
            26 => (-14, 14),
            27 => (-11, 11),
            28 => (-18, 18),
            29 => (-10, 10),
            30 => (-13, 13),
            31 => (-10, 10),
            32 => (-214, 204),
            33 => (-10, 10),
            34 => (-12, 12),
            35 => (-10, 10),
            36 => (-16, 16),
            _ => (0, 0),
        },
    }
}

} // verus!

verus! {

pub proof fn lemma_cancel_positive(x: int, y: int, c: int)
    requires
        c > 0,
    ensures
        (x * c > y * c) == (x > y),
        (x * c == y * c) == (x == y),
{
    if x > y {
        assert(x * c > y * c) by (nonlinear_arith)
            requires
                x > y,
                c > 0,
        ;
    } else if x < y {
        assert(x * c < y * c) by (nonlinear_arith)
            requires
                x < y,
                c > 0,
        ;
    }
}

/// Moving `k` factors of the radix from the exponent into the integer does
/// not change whether a value rounds past a float.
pub proof fn lemma_rounds_up_rescale(kind: FloatKind, n: nat, radix: nat, e: int, k: nat, b: nat)
    requires
        radix >= 2,
    ensures
        rounds_up(kind, (n * pow(radix as int, k)) as nat, radix, e, b) == rounds_up(
            kind,
            n,
            radix,
            e + k,
            b,
        ),
{
    let r = radix as int;
    let m = 2 * significand(kind, b) + 1;
    let t = binary_exponent(kind, b) - 1;
    let a2 = pow2(nonneg(-t));
    let b2 = pow2(nonneg(t));
    let rk = pow(r, k);
    vstd::arithmetic::power::lemma_pow_positive(r, k);
    lemma_pow0(r);
    let n1 = (n * rk) as nat;
    assert(n * rk >= 0) by (nonlinear_arith)
        requires
            n >= 0,
            rk >= 0,
    ;
    let v1 = scaled_value(n1, radix, e, t);
    let w1 = scaled_bound(m, radix, e, t);
    let v2 = scaled_value(n, radix, e + k, t);
    let w2 = scaled_bound(m, radix, e + k, t);
    if e >= 0 {
        lemma_pow_adds(r, k, e as nat);
        assert(nonneg(e + k) == k + e);
        assert(v1 == n * rk * pow(r, e as nat) * a2);
        assert(n * rk * pow(r, e as nat) * a2 == n * (rk * pow(r, e as nat)) * a2)
            by (nonlinear_arith);
        assert(v1 == v2);
        assert(w1 == w2);
    } else if e + k >= 0 {
        let c = pow(r, (-e) as nat);
        vstd::arithmetic::power::lemma_pow_positive(r, (-e) as nat);
        lemma_pow_adds(r, (e + k) as nat, (-e) as nat);
        assert(((e + k) as nat + (-e) as nat) as nat == k);
        let q = pow(r, (e + k) as nat);
        assert(rk == q * c);
        assert(v1 == n * rk * 1 * a2);
        assert(v2 == n * q * a2);
        assert(n * rk * 1 * a2 == (n * q * a2) * c) by (nonlinear_arith)
            requires
                rk == q * c,
        ;
        assert(w1 == m * b2 * c);
        assert(w2 == m * b2 * 1);
        assert(m * b2 * c == (m * b2 * 1) * c) by (nonlinear_arith);
        lemma_cancel_positive(v2, w2, c);
    } else {
        lemma_pow_adds(r, (-e - k) as nat, k);
        assert(((-e - k) as nat + k) as nat == (-e) as nat);
        let q = pow(r, (-e - k) as nat);
        assert(pow(r, (-e) as nat) == q * rk);
        assert(v1 == n * rk * 1 * a2);
        assert(v2 == n * 1 * a2);
        assert(n * rk * 1 * a2 == (n * 1 * a2) * rk) by (nonlinear_arith);
        assert(w1 == m * b2 * (q * rk));
        assert(w2 == m * b2 * q);
        assert(m * b2 * (q * rk) == (m * b2 * q) * rk) by (nonlinear_arith);
        lemma_cancel_positive(v2, w2, rk);
    }
}

/// Hence the correctly rounded pattern of `n * radix^(e + k)` is that of
/// `(n * radix^k) * radix^e`.
pub proof fn lemma_correctly_rounded_rescale(
    kind: FloatKind,
    n: nat,
    radix: nat,
    e: int,
    k: nat,
    bits: nat,
)
    requires
        radix >= 2,
        correctly_rounded(kind, n, radix, e + k, bits),
    ensures
        correctly_rounded(kind, (n * pow(radix as int, k)) as nat, radix, e, bits),
{
    lemma_rounds_up_rescale(kind, n, radix, e, k, bits);
    if bits > 0 {
        lemma_rounds_up_rescale(kind, n, radix, e, k, (bits - 1) as nat);
    }
}

} // verus!

verus! {

/// Midpoint above the float `b`, scaled by `2^exponent_bias` to an integer:
/// `(2 significand(b) + 1) * 2^(binary_exponent(b) - 1 + exponent_bias)`.
pub open spec fn scaled_midpoint(kind: FloatKind, b: nat) -> nat {
    let m = 2 * significand(kind, b) + 1;
    let t = binary_exponent(kind, b) - 1;
    m * pow2((t + kind.spec_exponent_bias()) as nat)
}

/// `rounds_up` compares `n * radix^max(e, 0) * 2^exponent_bias` with the
/// scaled midpoint times `radix^max(-e, 0)`.
proof fn lemma_rounds_up_canonical(kind: FloatKind, n: nat, radix: nat, e: int, b: nat)
    requires
        radix >= 2,
    ensures
        ({
            let v = n * pow(radix as int, nonneg(e)) * pow2(kind.spec_exponent_bias() as nat);
            let w = scaled_midpoint(kind, b) * pow(radix as int, nonneg(-e));
            rounds_up(kind, n, radix, e, b) == (v > w || (v == w && b % 2 == 1))
        }),
{
    lemma2_to64();
    lemma2_to64_rest();
    vstd::arithmetic::power2::lemma_pow2_pos(kind.spec_mantissa_size());
    let bias = kind.spec_exponent_bias();
    let m = 2 * significand(kind, b) + 1;
    let t = binary_exponent(kind, b) - 1;
    assert(t >= -bias) by {
        assert(b / pow2(kind.spec_mantissa_size()) >= 0);
    }
    let a = n * pow(radix as int, nonneg(e));
    let d = pow(radix as int, nonneg(-e));
    let v0 = scaled_value(n, radix, e, t);
    let w0 = scaled_bound(m, radix, e, t);
    let c = pow2((bias - nonneg(-t)) as nat);
    vstd::arithmetic::power2::lemma_pow2_pos((bias - nonneg(-t)) as nat);
    vstd::arithmetic::power2::lemma_pow2_adds(nonneg(-t), (bias - nonneg(-t)) as nat);
    vstd::arithmetic::power2::lemma_pow2_adds(nonneg(t), (bias - nonneg(-t)) as nat);
    assert(nonneg(-t) + (bias - nonneg(-t)) == bias);
    assert(nonneg(t) + (bias - nonneg(-t)) == t + bias);
    let p1 = pow2(nonneg(-t));
    let p2 = pow2(nonneg(t));
    assert(v0 == a * p1);
    assert(w0 == m * p2 * d);
    assert(a * p1 * c == a * pow2(bias as nat)) by (nonlinear_arith)
        requires
            p1 * c == pow2(bias as nat),
    ;
    assert(m * p2 * d * c == m * pow2((t + bias) as nat) * d) by (nonlinear_arith)
        requires
            p2 * c == pow2((t + bias) as nat),
    ;
    lemma_cancel_positive(v0, w0, c as int);
}

} // verus!

verus! {

/// Midpoints grow with the bit pattern.
proof fn lemma_midpoint_step(kind: FloatKind, b: nat)
    ensures
        scaled_midpoint(kind, b) < scaled_midpoint(kind, b + 1),
{
    lemma2_to64();
    lemma2_to64_rest();
    let ms = kind.spec_mantissa_size();
    let h = pow2(ms);
    vstd::arithmetic::power2::lemma_pow2_pos(ms);
    vstd::arithmetic::power2::lemma_pow2_unfold(ms + 1);
    let bias = kind.spec_exponent_bias();
    let beta = b / h;
    let f = b % h;
    vstd::arithmetic::div_mod::lemma_fundamental_div_mod(b as int, h as int);
    assert(b == beta * h + f);
    if f + 1 < h {
        vstd::arithmetic::div_mod::lemma_fundamental_div_mod_converse(
            (b + 1) as int,
            h as int,
            beta as int,
            (f + 1) as int,
        );
        let k = if beta == 0 { 0nat } else { (beta - 1) as nat };
        let p = pow2(k);
        vstd::arithmetic::power2::lemma_pow2_pos(k);
        if beta == 0 {
            assert(scaled_midpoint(kind, b) == (2 * f + 1) * pow2(0));
            assert(scaled_midpoint(kind, b + 1) == (2 * (f + 1) + 1) * pow2(0));
        } else {
            assert(binary_exponent(kind, b) - 1 + bias == k);
            assert(binary_exponent(kind, b + 1) - 1 + bias == k);
            assert((2 * (f + h) + 1) * p < (2 * (f + 1 + h) + 1) * p) by (nonlinear_arith)
                requires
                    p > 0,
            ;
        }
    } else {
        assert(f + 1 == h);
        vstd::arithmetic::div_mod::lemma_fundamental_div_mod_converse(
            (b + 1) as int,
            h as int,
            (beta + 1) as int,
            0,
        );
        if beta == 0 {
            assert(scaled_midpoint(kind, b) == (2 * f + 1) * pow2(0));
            assert(binary_exponent(kind, b + 1) - 1 + bias == 0);
            assert(scaled_midpoint(kind, b + 1) == (2 * h + 1) * pow2(0));
        } else {
            let k = (beta - 1) as nat;
            let p = pow2(k);
            vstd::arithmetic::power2::lemma_pow2_pos(k);
            vstd::arithmetic::power2::lemma_pow2_unfold(k + 1);
            assert(binary_exponent(kind, b) - 1 + bias == k);
            assert(binary_exponent(kind, b + 1) - 1 + bias == k + 1);
            assert(scaled_midpoint(kind, b) == (2 * (f + h) + 1) * p);
            assert(scaled_midpoint(kind, b + 1) == (2 * h + 1) * pow2(k + 1));
            assert((2 * (f + h) + 1) * p < (2 * h + 1) * (2 * p)) by (nonlinear_arith)
                requires
                    f + 1 == h,
                    p > 0,
            ;
        }
    }
}

/// Midpoints grow with the bit pattern, over any distance.
proof fn lemma_midpoint_increasing(kind: FloatKind, c: nat, d: nat)
    requires
        c < d,
    ensures
        scaled_midpoint(kind, c) < scaled_midpoint(kind, d),
    decreases d - c,
{
    lemma_midpoint_step(kind, c);
    if c + 1 < d {
        lemma_midpoint_increasing(kind, c + 1, d);
    }
}

/// A value that rounds past a float rounds past every float below it.
proof fn lemma_rounds_up_downward(kind: FloatKind, n: nat, radix: nat, e: int, c: nat, d: nat)
    requires
        radix >= 2,
        c < d,
        rounds_up(kind, n, radix, e, d),
    ensures
        rounds_up(kind, n, radix, e, c),
{
    lemma_rounds_up_canonical(kind, n, radix, e, c);
    lemma_rounds_up_canonical(kind, n, radix, e, d);
    lemma_midpoint_increasing(kind, c, d);
    vstd::arithmetic::power::lemma_pow_positive(radix as int, nonneg(-e));
    let q = pow(radix as int, nonneg(-e));
    let mc = scaled_midpoint(kind, c);
    let md = scaled_midpoint(kind, d);
    assert(mc * q < md * q) by (nonlinear_arith)
        requires
            mc < md,
            q > 0,
    ;
}

/// At most one bit pattern is the correctly rounded float of a value.
pub proof fn lemma_correctly_rounded_unique(
    kind: FloatKind,
    n: nat,
    radix: nat,
    e: int,
    b1: nat,
    b2: nat,
)
    requires
        radix >= 2,
        correctly_rounded(kind, n, radix, e, b1),
        correctly_rounded(kind, n, radix, e, b2),
    ensures
        b1 == b2,
{
    if b1 < b2 {
        if b1 < b2 - 1 {
            lemma_rounds_up_downward(kind, n, radix, e, b1, (b2 - 1) as nat);
        }
    } else if b2 < b1 {
        if b2 < b1 - 1 {
            lemma_rounds_up_downward(kind, n, radix, e, b2, (b1 - 1) as nat);
        }
    }
}

} // verus!
