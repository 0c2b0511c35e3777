use lexical_core::extended::{ExtendedFloat, FloatErrors};
use lexical_core::float::FloatKind;

#[test]
fn normalize_sets_top_bit() {
    let mut fp = ExtendedFloat { frac: 1u64, exp: 0 };
    assert_eq!(fp.normalize(), 63);
    assert_eq!(fp, ExtendedFloat { frac: 1u64 << 63, exp: -63 });
    let mut fp = ExtendedFloat { frac: 0x1234u64, exp: 10 };
    let shift = fp.normalize();
    assert_eq!(fp.frac, 0x1234u64 << shift);
    assert!(fp.frac >= 1 << 63);
    assert_eq!(fp.exp, 10 - shift as i32);
    let mut zero = ExtendedFloat { frac: 0u64, exp: 5 };
    assert_eq!(zero.normalize(), 0);
    assert_eq!(zero, ExtendedFloat { frac: 0u64, exp: 5 });
}

#[test]
fn multiply_rounds_half_up() {
    let a = ExtendedFloat { frac: 1u64 << 63, exp: -63 };
    let b = ExtendedFloat { frac: 3u64 << 62, exp: -62 };
    let c = a.mul(&b);
    assert_eq!(c, ExtendedFloat { frac: 3u64 << 61, exp: -61 });
    assert_eq!(f64::from_bits(c.to_float_bits(FloatKind::Double)), 3.0);
    let d = ExtendedFloat { frac: u64::MAX, exp: 0 }.mul(&ExtendedFloat { frac: u64::MAX, exp: 0 });
    assert_eq!(d.frac, u64::MAX - 1);
    assert_eq!(d.exp, 64);
}

#[test]
fn extended_to_float_bits() {
    let fp = ExtendedFloat { frac: (1u64 << 63) + (1u64 << 10), exp: -63 };
    // 1 + 2^-53 is halfway between 1 and the next double: ties to even.
    assert_eq!(f64::from_bits(fp.to_float_bits(FloatKind::Double)), 1.0);
    let fp = ExtendedFloat { frac: (1u64 << 63) + (1u64 << 10) + 1, exp: -63 };
    assert_eq!(f64::from_bits(fp.to_float_bits(FloatKind::Double)), 1.0 + f64::EPSILON);
    let fp = ExtendedFloat { frac: 1u64, exp: 2000 };
    assert_eq!(f64::from_bits(fp.to_float_bits(FloatKind::Double)), f64::INFINITY);
}

#[test]
fn error_scales() {
    assert_eq!(<u64 as FloatErrors>::error_scale(), 8);
    assert_eq!(<u64 as FloatErrors>::error_halfscale(), 4);
    assert_eq!(<u128 as FloatErrors>::error_scale(), 0);
    assert_eq!(<u128 as FloatErrors>::error_halfscale(), 0);
}

#[test]
fn error_is_accurate_near_halfway() {
    let kind = FloatKind::Double;
    // A normal double keeps 11 extra bits: halfway is 1 << 10.
    let exact_half = ExtendedFloat { frac: (1u64 << 63) | (1 << 10), exp: -63 };
    assert!(!u64::error_is_accurate(kind, 0, &exact_half));
    assert!(!u64::error_is_accurate(kind, 8, &exact_half));
    let near = ExtendedFloat { frac: (1u64 << 63) | ((1 << 10) + 5), exp: -63 };
    assert!(u64::error_is_accurate(kind, 4, &near));
    assert!(!u64::error_is_accurate(kind, 5, &near));
    let far = ExtendedFloat { frac: 1u64 << 63, exp: -63 };
    assert!(u64::error_is_accurate(kind, 100, &far));
    // Far below the smallest subnormal: always accurate.
    let tiny = ExtendedFloat { frac: 1u64 << 63, exp: -1200 };
    assert!(u64::error_is_accurate(kind, 1000, &tiny));
    // 65 extra bits: accurate unless the error carries out of the fraction.
    let edge = ExtendedFloat { frac: u64::MAX - 3, exp: -1139 };
    assert!(u64::error_is_accurate(kind, 3, &edge));
    assert!(!u64::error_is_accurate(kind, 4, &edge));
    let wide = ExtendedFloat { frac: 1u128, exp: 0 };
    assert!(u128::error_is_accurate(kind, 1000, &wide));
}

use lexical_core::extended::{multiply_exponent_extended, to_extended};

#[test]
fn to_float_extended_test() {
    // valid (overflowing small mult)
    let mantissa: u64 = 1 << 63;
    let (f, valid) = to_extended(FloatKind::Single, mantissa, 3, 1, false);
    assert_eq!(f32::from_bits(f as u32), 2.7670116e+19);
    assert!(valid, "exponent should be valid");

    let mantissa: u64 = 4746067219335938;
    let (f, valid) = to_extended(FloatKind::Single, mantissa, 15, -9, false);
    assert_eq!(f32::from_bits(f as u32), 123456.1);
    assert!(valid, "exponent should be valid");
}

#[test]
fn to_double_extended_test() {
    // valid (overflowing small mult)
    let mantissa: u64 = 1 << 63;
    let (f, valid) = to_extended(FloatKind::Double, mantissa, 3, 1, false);
    assert_eq!(f64::from_bits(f), 2.7670116110564327e+19);
    assert!(valid, "exponent should be valid");

    // valid (ends of the earth, salting the earth)
    let (f, valid) = to_extended(FloatKind::Double, mantissa, 3, -695, true);
    assert_eq!(f64::from_bits(f), 2.32069302345e-313);
    assert!(valid, "exponent should be valid");

    // "268A6.177777778", base 15: 123456.10000000001300614743687445,
    // exactly, should not round up. The product here is the exact truncation,
    // which leaves the rounding decided.
    let mantissa: u64 = 4746067219335938;
    let (f, valid) = to_extended(FloatKind::Double, mantissa, 15, -9, false);
    assert_eq!(f64::from_bits(f), 123456.1);
    assert!(valid, "exponent should be valid");
}

#[test]
fn extended_path_edges() {
    // Past either end of the powers.
    assert_eq!(to_extended(FloatKind::Double, 5, 10, -2000, false), (0, true));
    assert_eq!(to_extended(FloatKind::Double, 5, 10, 2000, false), (f64::INFINITY.to_bits(), true));
    assert_eq!(to_extended(FloatKind::Double, 5, 2, -2000, false), (0, false));
    assert_eq!(to_extended(FloatKind::Double, 0, 10, 3, false), (0, false));
    // An exact halfway value is never decided here.
    assert_eq!(to_extended(FloatKind::Double, 9007199254740993, 10, 0, false), (0, false));
    // A truncated mantissa: every value below its successor rounds the same.
    assert_eq!(
        to_extended(FloatKind::Double, 9007199254740992, 10, 0, true),
        (9007199254740992f64.to_bits(), true)
    );
    // A truncated mantissa whose successor rounds elsewhere is not decided.
    assert_eq!(to_extended(FloatKind::Double, 12345, 10, -4, true), (0, false));
    let (b, valid) = to_extended(FloatKind::Double, 12345, 10, -4, false);
    assert!(valid);
    assert_eq!(f64::from_bits(b), 1.2345);
}

#[test]
fn multiply_exponent_extended_truncates_exactly() {
    let fp = ExtendedFloat { frac: 3u64, exp: 0 };
    let (p, valid) = multiply_exponent_extended(FloatKind::Double, fp, 10, 2, false);
    assert_eq!(p, ExtendedFloat { frac: 300u64 << 55, exp: -55 });
    assert!(valid);
    let (q, _) = multiply_exponent_extended(FloatKind::Double, fp, 10, 2, true);
    assert_eq!(q, p);
    let (p, _) = multiply_exponent_extended(FloatKind::Double, ExtendedFloat { frac: 1u64, exp: 0 }, 3, -1, false);
    assert_eq!(p, ExtendedFloat { frac: 0xAAAA_AAAA_AAAA_AAAA, exp: -65 });
    assert_eq!(
        multiply_exponent_extended(FloatKind::Double, fp, 10, -1101, false),
        (ExtendedFloat { frac: 0u64, exp: 0 }, true)
    );
    assert_eq!(
        multiply_exponent_extended(FloatKind::Double, fp, 10, 1110, false),
        (ExtendedFloat { frac: 1u64 << 63, exp: 0x7FF }, true)
    );
}
