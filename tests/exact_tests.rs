use lexical_core::float::{exponent_limit, FloatKind};
use lexical_core::precise::{is_halfway, pow2_exponent, pow2_to_exact, to_exact};

const BASE_POW2: [u32; 5] = [2, 4, 8, 16, 32];
const BASE_POWN: [u32; 30] = [
    3, 5, 6, 7, 9, 10, 11, 12, 13, 14, 15, 17, 18, 19, 20, 21, 22, 23, 24, 25, 26, 27, 28, 29, 30,
    31, 33, 34, 35, 36,
];

const F32: FloatKind = FloatKind::Single;
const F64: FloatKind = FloatKind::Double;

#[test]
fn is_halfway_test() {
    // Variant of b1000000000000000000000001, a halfway value for f32.
    assert!(is_halfway(F32, 0x1000001));
    assert!(is_halfway(F32, 0x2000002));
    assert!(is_halfway(F32, 0x8000008000000000));
    assert!(!is_halfway(F64, 0x1000001));
    assert!(!is_halfway(F64, 0x2000002));
    assert!(!is_halfway(F64, 0x8000008000000000));

    // Variant of b10000000000000000000000001, which is 1-off a halfway value.
    assert!(!is_halfway(F32, 0x2000001));
    assert!(!is_halfway(F64, 0x2000001));

    // Variant of b100000000000000000000000000000000000000000000000000001,
    // a halfway value for f64
    assert!(!is_halfway(F32, 0x20000000000001));
    assert!(!is_halfway(F32, 0x40000000000002));
    assert!(!is_halfway(F32, 0x8000000000000400));
    assert!(is_halfway(F64, 0x20000000000001));
    assert!(is_halfway(F64, 0x40000000000002));
    assert!(is_halfway(F64, 0x8000000000000400));

    // Variant of b111111000000000000000000000000000000000000000000000001,
    // a halfway value for f64.
    assert!(!is_halfway(F32, 0x3f000000000001));
    assert!(!is_halfway(F32, 0xFC00000000000400));
    assert!(is_halfway(F64, 0x3f000000000001));
    assert!(is_halfway(F64, 0xFC00000000000400));

    // Variant of b1000000000000000000000000000000000000000000000000000001,
    // which is 1-off a halfway value.
    assert!(!is_halfway(F32, 0x40000000000001));
    assert!(!is_halfway(F64, 0x40000000000001));
}

#[test]
fn pow2_to_float_exact_test() {
    // Everything is valid.
    let mantissa = 1 << 63;
    for base in BASE_POW2.iter().cloned() {
        let (min_exp, max_exp) = exponent_limit(F32, base);
        let pow2_exp = pow2_exponent(base);
        for exp in min_exp - 20..max_exp + 30 {
            // Always valid, ignore result
            pow2_to_exact(F32, mantissa, base, pow2_exp, exp);
        }
    }
}

#[test]
fn pow2_to_double_exact_test() {
    // Everything is valid.
    let mantissa = 1 << 63;
    for base in BASE_POW2.iter().cloned() {
        let (min_exp, max_exp) = exponent_limit(F64, base);
        let pow2_exp = pow2_exponent(base);
        for exp in min_exp - 20..max_exp + 30 {
            // Ignore result, always valid
            pow2_to_exact(F64, mantissa, base, pow2_exp, exp);
        }
    }
}

#[test]
fn to_float_exact_test() {
    // valid
    let mantissa = 1 << (23 - 1);
    for base in BASE_POWN.iter().cloned() {
        let (min_exp, max_exp) = exponent_limit(F32, base);
        for exp in min_exp..max_exp + 1 {
            let (_, valid) = to_exact(F32, mantissa, base, exp);
            assert!(valid, "should be valid {:?}.", (mantissa, base, exp));
        }
    }

    // invalid mantissa
    let (_, valid) = to_exact(F32, 1 << 23, 3, 0);
    assert!(!valid, "invalid mantissa");

    // invalid exponents
    for base in BASE_POWN.iter().cloned() {
        let (min_exp, max_exp) = exponent_limit(F32, base);
        let (_, valid) = to_exact(F32, mantissa, base, min_exp - 1);
        assert!(!valid, "exponent under min_exp");

        let (_, valid) = to_exact(F32, mantissa, base, max_exp + 1);
        assert!(!valid, "exponent above max_exp");
    }
}

#[test]
fn to_double_exact_test() {
    // valid
    let mantissa = 1 << (52 - 1);
    for base in BASE_POWN.iter().cloned() {
        let (min_exp, max_exp) = exponent_limit(F64, base);
        for exp in min_exp..max_exp + 1 {
            let (_, valid) = to_exact(F64, mantissa, base, exp);
            assert!(valid, "should be valid {:?}.", (mantissa, base, exp));
        }
    }

    // invalid mantissa
    let (_, valid) = to_exact(F64, 1 << 52, 3, 0);
    assert!(!valid, "invalid mantissa");

    // invalid exponents
    for base in BASE_POWN.iter().cloned() {
        let (min_exp, max_exp) = exponent_limit(F64, base);
        let (_, valid) = to_exact(F64, mantissa, base, min_exp - 1);
        assert!(!valid, "exponent under min_exp");

        let (_, valid) = to_exact(F64, mantissa, base, max_exp + 1);
        assert!(!valid, "exponent above max_exp");
    }
}

#[test]
fn exact_paths_give_exact_values() {
    assert_eq!(f64::from_bits(pow2_to_exact(F64, 3, 2, 1, 10)), 3072.0);
    assert_eq!(f64::from_bits(pow2_to_exact(F64, 1, 16, 4, -2)), 1.0 / 256.0);
    assert_eq!(f64::from_bits(pow2_to_exact(F64, 1, 2, 1, -1074)), 4.9406564584124654e-324);
    assert_eq!(f64::from_bits(pow2_to_exact(F64, 1, 2, 1, -1076)), 0.0);
    assert_eq!(f64::from_bits(pow2_to_exact(F64, 1, 2, 1, 1024)), f64::INFINITY);
    assert_eq!(f32::from_bits(pow2_to_exact(F32, 1, 2, 1, 128) as u32), f32::INFINITY);
    assert_eq!(f32::from_bits(pow2_to_exact(F32, 0x1000001, 2, 1, 0) as u32), 16777216.0);
    assert_eq!(f32::from_bits(pow2_to_exact(F32, 0x1000003, 2, 1, 0) as u32), 16777220.0);
    let (bits, valid) = to_exact(F64, 12345, 10, -4);
    assert!(valid);
    assert_eq!(f64::from_bits(bits), 1.2345);
    let (bits, valid) = to_exact(F64, 12345, 10, 6);
    assert!(valid);
    assert_eq!(f64::from_bits(bits), 1.2345e10);
    assert_eq!(to_exact(F64, 12345, 10, 23).1, false);
    assert_eq!(pow2_exponent(8), 3);
    assert_eq!(pow2_exponent(10), 0);
    assert_eq!(exponent_limit(F64, 10), (-22, 22));
    assert_eq!(exponent_limit(F32, 10), (-10, 10));
}
