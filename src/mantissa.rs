use vstd::prelude::*;
use crate::atof::{float_digits, float_digits_end, fraction_len, lemma_mantissa_matches_digits};
use crate::atoi::{digit_run_end, digits_value, lemma_digit_run_end_bounds, lemma_digits_value_concat};
use crate::digit::{digit_value, is_digit, valid_radix, to_digit, ASCII_0, ASCII_DOT};

verus! {

/// An unsigned integer type that can hold a float's mantissa while it is read.
pub trait Mantissa: Sized + Copy {
    /// Largest value of the type.
    spec fn spec_max() -> nat;

    /// Mathematical value of `self`.
    spec fn spec_value(self) -> nat;

    /// The largest value, widened.
    fn max_wide() -> (r: u128)
        ensures
            r as nat == Self::spec_max(),
            r >= u64::MAX,
    ;

    /// `self`, widened.
    fn to_wide(self) -> (r: u128)
        ensures
            r as nat == self.spec_value(),
            r as nat <= Self::spec_max(),
    ;

    /// The value `v`, narrowed.
    fn from_wide(v: u128) -> (r: Self)
        requires
            v as nat <= Self::spec_max(),
        ensures
            r.spec_value() == v as nat,
    ;
}

impl Mantissa for u64 {
    open spec fn spec_max() -> nat { u64::MAX as nat }
    open spec fn spec_value(self) -> nat { self as nat }

    fn max_wide() -> (r: u128) {
        u64::MAX as u128
    }

    fn to_wide(self) -> (r: u128) {
        self as u128
    }

    fn from_wide(v: u128) -> (r: u64) {
        v as u64
    }
}

impl Mantissa for u128 {
    open spec fn spec_max() -> nat { u128::MAX as nat }
    open spec fn spec_value(self) -> nat { self as nat }

    fn max_wide() -> (r: u128) {
        u128::MAX
    }

    fn to_wide(self) -> (r: u128) {
        self
    }

    fn from_wide(v: u128) -> (r: u128) {
        v
    }
}

/// Index of the first byte at or after `i` that is not `'0'`.
pub open spec fn zero_run_end(s: Seq<u8>, i: int) -> int
    decreases s.len() - i,
{
    if i < 0 {
        0
    } else if i >= s.len() || s[i] != ASCII_0 {
        if i > s.len() { s.len() as int } else { i }
    } else {
        zero_run_end(s, i + 1)
    }
}

/// Greedy accumulation of the digits `s[i..end]` onto `m`: each digit is
/// taken while `m * radix + digit` stays at most `max`, and the first that
/// does not fit stops it. Gives the value and the number of digits taken.
pub open spec fn fit(s: Seq<u8>, i: int, end: int, m: nat, radix: u32, max: nat) -> (nat, nat)
    decreases end - i,
{
    if i < 0 || i >= end || i >= s.len() {
        (m, 0)
    } else {
        let n = m * radix + digit_value(s[i]);
        if n > max {
            (m, 0)
        } else {
            let r = fit(s, i + 1, end, n as nat, radix, max);
            (r.0, r.1 + 1)
        }
    }
}

/// A count as an `i32`, saturated at `i32::MAX`.
pub open spec fn clamp_count(n: int) -> int {
    if n > i32::MAX { i32::MAX as int } else { n }
}

/// What reading a mantissa from `s` gives: the mantissa, the dot shift, the
/// index past the mantissa, and whether digits were truncated.
///
/// Leading zeros are skipped; integer digits are accumulated while they fit
/// in `max`. Where a `.` follows and nothing was truncated, the fraction's
/// digits are accumulated too (after skipping its leading zeros while the
/// mantissa is still zero), and the dot shift is the count of fraction bytes
/// read less the count truncated. Otherwise the fraction's digits are
/// skipped, and the dot shift is minus the count of integer digits truncated.
pub open spec fn mantissa_outcome(s: Seq<u8>, radix: u32, max: nat) -> (nat, int, int, bool) {
    let z = zero_run_end(s, 0);
    let ie = digit_run_end(s, z, radix);
    let (m1, k1) = fit(s, z, ie, 0, radix, max);
    let t1 = ie - z - k1;
    let has_fraction = ie < s.len() && s[ie] == ASCII_DOT;
    if has_fraction && t1 == 0 {
        let f = ie + 1;
        let fs = if m1 == 0 { zero_run_end(s, f) } else { f };
        let fe = digit_run_end(s, fs, radix);
        let (m2, k2) = fit(s, fs, fe, m1, radix, max);
        let t2 = fe - fs - k2;
        (m2, clamp_count(fe - f) - clamp_count(t2), fe, t2 != 0)
    } else if has_fraction {
        (m1, -clamp_count(t1), digit_run_end(s, ie + 1, radix), true)
    } else {
        (m1, -clamp_count(t1), ie, t1 != 0)
    }
}

pub proof fn lemma_zero_run_end_bounds(s: Seq<u8>, i: int)
    requires
        0 <= i <= s.len(),
    ensures
        i <= zero_run_end(s, i) <= s.len(),
        forall|k: int| i <= k < zero_run_end(s, i) ==> #[trigger] s[k] == ASCII_0,
    decreases s.len() - i,
{
    if i < s.len() && s[i] == ASCII_0 {
        lemma_zero_run_end_bounds(s, i + 1);
    }
}

pub proof fn lemma_fit_bounds(s: Seq<u8>, i: int, end: int, m: nat, radix: u32, max: nat)
    requires
        0 <= i <= end <= s.len(),
        m <= max,
    ensures
        fit(s, i, end, m, radix, max).1 <= end - i,
        fit(s, i, end, m, radix, max).0 <= max,
    decreases end - i,
{
    if i < end {
        let n = m * radix + digit_value(s[i]);
        if n <= max {
            lemma_fit_bounds(s, i + 1, end, n as nat, radix, max);
        }
    }
}

/// Index of the first byte at or after `i` that is not `'0'`.
fn skip_zeros(bytes: &[u8], i: usize) -> (r: usize)
    requires
        i <= bytes.len(),
    ensures
        r as int == zero_run_end(bytes@, i as int),
{
    let mut j = i;
    while j < bytes.len() && bytes[j] == ASCII_0
        invariant
            i <= j <= bytes.len(),
            zero_run_end(bytes@, j as int) == zero_run_end(bytes@, i as int),
        decreases bytes.len() - j,
    {
        j = j + 1;
    }
    j
}

/// Index of the first byte at or after `i` that is no digit of `radix`.
pub fn skip_digits(radix: u32, bytes: &[u8], i: usize) -> (r: usize)
    requires
        valid_radix(radix),
        i <= bytes.len(),
    ensures
        r as int == digit_run_end(bytes@, i as int, radix),
{
    let mut j = i;
    while j < bytes.len() && to_digit(bytes[j], radix).is_some()
        invariant
            valid_radix(radix),
            i <= j <= bytes.len(),
            digit_run_end(bytes@, j as int, radix) == digit_run_end(bytes@, i as int, radix),
        decreases bytes.len() - j,
    {
        j = j + 1;
    }
    j
}

/// Accumulate the digits `bytes[start..end]` onto `m0` while the value stays
/// at most `max`; gives the value and the number of digits taken.
fn checked_accumulate(radix: u32, bytes: &[u8], start: usize, end: usize, m0: u128, max: u128) -> (r: (
    u128,
    usize,
))
    requires
        valid_radix(radix),
        start <= end <= bytes.len(),
        end as int == digit_run_end(bytes@, start as int, radix),
        m0 <= max,
    ensures
        r.0 as nat == fit(bytes@, start as int, end as int, m0 as nat, radix, max as nat).0,
        r.1 as nat == fit(bytes@, start as int, end as int, m0 as nat, radix, max as nat).1,
        r.0 <= max,
        r.1 <= end - start,
{
    let ghost s = bytes@;
    proof {
        lemma_digit_run_end_bounds(s, start as int, radix);
    }
    let mut m = m0;
    let mut i = start;
    while i < end
        invariant
            s == bytes@,
            valid_radix(radix),
            start <= i <= end <= s.len(),
            forall|j: int| start <= j < end ==> is_digit(#[trigger] s[j], radix),
            m <= max,
            fit(s, start as int, end as int, m0 as nat, radix, max as nat).0 == fit(
                s,
                i as int,
                end as int,
                m as nat,
                radix,
                max as nat,
            ).0,
            fit(s, start as int, end as int, m0 as nat, radix, max as nat).1 == (i - start) + fit(
                s,
                i as int,
                end as int,
                m as nat,
                radix,
                max as nat,
            ).1,
        ensures
            start <= i <= end,
            m <= max,
            fit(s, start as int, end as int, m0 as nat, radix, max as nat).0 == m,
            fit(s, start as int, end as int, m0 as nat, radix, max as nat).1 == i - start,
        decreases end - i,
    {
        let d = match to_digit(bytes[i], radix) {
            Some(d) => d,
            None => {
                assert(false);
                break;
            },
        };
        let next: Option<u128> = match m.checked_mul(radix as u128) {
            Some(p) => p.checked_add(d as u128),
            None => None,
        };
        match next {
            Some(n) => {
                if n > max {
                    break;
                }
                m = n;
            },
            None => {
                proof {
                    assert(m * radix + d > u128::MAX) by (nonlinear_arith)
                        requires
                            m * radix > u128::MAX || m * radix + d > u128::MAX,
                            d >= 0,
                    ;
                }
                break;
            },
        }
        i = i + 1;
    }
    (m, i - start)
}

/// Read the mantissa of a float from `bytes`: the mantissa, the dot shift,
/// the index past the mantissa's bytes, and whether digits were truncated.
///
/// The bytes read are the float's digits. Without truncation the mantissa is
/// their value with the dot left out and the dot shift is the count of
/// fraction digits; `mantissa_outcome` also fixes what a truncated read
/// keeps.
pub fn parse_mantissa<M: Mantissa>(radix: u32, bytes: &[u8]) -> (r: (M, i32, usize, bool))
    requires
        valid_radix(radix),
    ensures
        ({
            let o = mantissa_outcome(bytes@, radix, M::spec_max());
            &&& r.0.spec_value() == o.0
            &&& r.1 as int == o.1
            &&& r.2 as int == o.2
            &&& r.3 == o.3
        }),
        r.2 <= bytes.len(),
        r.2 as int == float_digits_end(bytes@, radix),
        r.0.spec_value() == 0 ==> !r.3,
        !r.3 ==> r.0.spec_value() == digits_value(float_digits(bytes@, radix), radix),
        !r.3 && fraction_len(bytes@, radix) <= i32::MAX ==> r.1 as int == fraction_len(bytes@, radix),
{
    let ghost s = bytes@;
    let max = M::max_wide();
    proof {
        lemma_mantissa_matches_digits(s, radix, max as nat);
    }
    let len = bytes.len();
    let z = skip_zeros(bytes, 0);
    proof {
        lemma_zero_run_end_bounds(s, 0);
        lemma_digit_run_end_bounds(s, z as int, radix);
    }
    let ie = skip_digits(radix, bytes, z);
    let (m1, k1) = checked_accumulate(radix, bytes, z, ie, 0, max);
    let t1 = ie - z - k1;
    let has_fraction = ie < len && bytes[ie] == ASCII_DOT;
    if has_fraction && t1 == 0 {
        let f = ie + 1;
        let fs = if m1 == 0 { skip_zeros(bytes, f) } else { f };
        proof {
            lemma_zero_run_end_bounds(s, f as int);
            lemma_digit_run_end_bounds(s, fs as int, radix);
        }
        let fe = skip_digits(radix, bytes, fs);
        let (m2, k2) = checked_accumulate(radix, bytes, fs, fe, m1, max);
        let t2 = fe - fs - k2;
        let dot_shift = clamp_i32(fe - f) - clamp_i32(t2);
        (M::from_wide(m2), dot_shift, fe, t2 != 0)
    } else if has_fraction {
        proof {
            lemma_digit_run_end_bounds(s, ie as int + 1, radix);
        }
        let p = skip_digits(radix, bytes, ie + 1);
        (M::from_wide(m1), -clamp_i32(t1), p, true)
    } else {
        (M::from_wide(m1), -clamp_i32(t1), ie, t1 != 0)
    }
}

/// `n` as an `i32`, saturated at `i32::MAX`.
fn clamp_i32(n: usize) -> (r: i32)
    ensures
        r as int == clamp_count(n as int),
        r >= 0,
{
    if n > i32::MAX as usize {
        i32::MAX
    } else {
        n as i32
    }
}

} // verus!

verus! {

/// Where every digit is taken, the accumulation is `m * radix^count` plus
/// the value of the digits.
pub proof fn lemma_fit_all(s: Seq<u8>, i: int, end: int, m: nat, radix: u32, max: nat)
    requires
        0 <= i <= end <= s.len(),
        fit(s, i, end, m, radix, max).1 == end - i,
    ensures
        fit(s, i, end, m, radix, max).0 == m * vstd::arithmetic::power::pow(radix as int, (end - i) as nat)
            + digits_value(s.subrange(i, end), radix),
    decreases end - i,
{
    vstd::arithmetic::power::lemma_pow0(radix as int);
    if i == end {
        assert(s.subrange(i, end).len() == 0);
    } else {
        let n = (m * radix + digit_value(s[i])) as nat;
        lemma_fit_all(s, i + 1, end, n, radix, max);
        let rest = s.subrange(i + 1, end);
        assert(s.subrange(i, end) =~= seq![s[i]] + rest);
        lemma_digits_value_concat(seq![s[i]], rest, radix);
        assert(seq![s[i]].drop_last() =~= Seq::<u8>::empty());
        assert(digits_value(Seq::<u8>::empty(), radix) == 0);
        assert(seq![s[i]].last() == s[i]);
        assert(digits_value(seq![s[i]], radix) == digits_value(seq![s[i]].drop_last(), radix) * radix
            + digit_value(seq![s[i]].last()));
        assert(0 * radix == 0);
        assert(digits_value(seq![s[i]], radix) == digit_value(s[i]));
        let k = (end - i - 1) as nat;
        vstd::arithmetic::power::lemma_pow_adds(radix as int, 1, k);
        vstd::arithmetic::power::lemma_pow1(radix as int);
        assert((end - i) as nat == 1 + k);
        let p = vstd::arithmetic::power::pow(radix as int, k);
        let d = digit_value(s[i]);
        assert((m * radix + d) * p == m * (radix * p) + d * p) by (nonlinear_arith);
    }
}

/// Where a digit is left out, the accumulated value is not zero: it is what
/// made the next digit overflow.
pub proof fn lemma_fit_truncated(s: Seq<u8>, i: int, end: int, m: nat, radix: u32, max: nat)
    requires
        0 <= i <= end <= s.len(),
        valid_radix(radix),
        max >= 36,
        forall|k: int| i <= k < end ==> is_digit(#[trigger] s[k], radix),
        fit(s, i, end, m, radix, max).1 < end - i,
    ensures
        fit(s, i, end, m, radix, max).0 > 0,
    decreases end - i,
{
    let n = m * radix + digit_value(s[i]);
    assert(is_digit(s[i], radix));
    if n > max {
        assert(m * radix > 0);
        assert(m > 0) by (nonlinear_arith)
            requires
                m * radix > 0,
                m >= 0,
        ;
    } else {
        lemma_fit_truncated(s, i + 1, end, n as nat, radix, max);
    }
}

} // verus!


verus! {

/// Where the value of all the digits fits `max`, the accumulation takes
/// every digit.
pub proof fn lemma_fit_takes_all(s: Seq<u8>, st: int, i: int, end: int, radix: u32, max: nat)
    requires
        0 <= st <= i <= end <= s.len(),
        valid_radix(radix),
        digits_value(s.subrange(st, end), radix) <= max,
    ensures
        fit(s, i, end, digits_value(s.subrange(st, i), radix), radix, max).1 == end - i,
    decreases end - i,
{
    if i < end {
        crate::atoi::lemma_digits_value_step(s, st, i, radix);
        crate::atoi::lemma_digits_value_monotone(s, st, i + 1, end, radix);
        lemma_fit_takes_all(s, st, i + 1, end, radix, max);
    }
}

} // verus!
