use lexical_core::error::{Error, ErrorCode};
use lexical_core::exponent::parse_exponent;
use lexical_core::mantissa::parse_mantissa;
use lexical_core::precise::{normalize_mantissa, parse_float};

fn check_parse_exponent(base: u32, s: &str, tup: (i32, usize)) {
    assert_eq!(parse_exponent(base, s.as_bytes()), Ok(tup));
}

#[test]
fn parse_exponent_test() {
    // empty
    check_parse_exponent(10, "", (0, 0));

    // lowercase
    check_parse_exponent(10, "e20", (20, 3));
    check_parse_exponent(10, "e+20", (20, 4));
    check_parse_exponent(10, "e-20", (-20, 4));

    // uppercase
    check_parse_exponent(10, "E20", (20, 3));
    check_parse_exponent(10, "E+20", (20, 4));
    check_parse_exponent(10, "E-20", (-20, 4));

    // >= base15
    check_parse_exponent(15, "^20", (30, 3));
    check_parse_exponent(15, "^+20", (30, 4));
    check_parse_exponent(15, "^-20", (-30, 4));

    // overflow
    check_parse_exponent(10, "e10000000000", (i32::max_value(), 12));
    check_parse_exponent(10, "e+10000000000", (i32::max_value(), 13));
    check_parse_exponent(10, "e-10000000000", (-i32::max_value(), 13));

    // trailing
    check_parse_exponent(10, "e20 ", (20, 3));
    check_parse_exponent(10, "e+20 ", (20, 4));
}

#[test]
fn parse_exponent_without_digits() {
    assert_eq!(parse_exponent(10, b"e"), Err(Error { code: ErrorCode::EmptyExponent, index: 1 }));
    assert_eq!(parse_exponent(10, b"e-"), Err(Error { code: ErrorCode::EmptyExponent, index: 2 }));
    assert_eq!(parse_exponent(16, b"e5"), Ok((0, 0)));
}

fn check_parse_mantissa_u64(base: u32, s: &str, tup: (u64, i32, usize, bool)) {
    assert_eq!(parse_mantissa::<u64>(base, s.as_bytes()), tup);
}

fn check_parse_mantissa_u128(base: u32, s: &str, tup: (u128, i32, usize, bool)) {
    assert_eq!(parse_mantissa::<u128>(base, s.as_bytes()), tup);
}

const LONG: &str = "179769313486231580793728971405303415079934132710037826936173778980444968292764750946649017977587207096330286416692887910946555547851940402630657488671505820681908902000708383676273854845817711531764475730270069855571366959622842914819860834936475292719074168444365510704342711559699508093042880177904174497791.9999999999999999999999999999999999999999999999999999999999999999999999";

#[test]
fn parse_mantissa_test() {
    // 64-bit
    check_parse_mantissa_u64(10, "1.2345", (12345, 4, 6, false));
    check_parse_mantissa_u64(10, "12.345", (12345, 3, 6, false));
    check_parse_mantissa_u64(10, "12345.6789", (123456789, 4, 10, false));
    check_parse_mantissa_u64(10, "1.2345e10", (12345, 4, 6, false));
    check_parse_mantissa_u64(10, "0.0000000000000000001", (1, 19, 21, false));
    check_parse_mantissa_u64(10, "0.00000000000000000000000000001", (1, 29, 31, false));
    check_parse_mantissa_u64(10, "100000000000000000000", (10000000000000000000, -1, 21, true));

    // Adapted from failures in strtod.
    check_parse_mantissa_u64(10, LONG, (17976931348623158079, -289, 380, true));

    // 128-bit
    check_parse_mantissa_u128(10, "1.2345", (12345, 4, 6, false));
    check_parse_mantissa_u128(10, "12.345", (12345, 3, 6, false));
    check_parse_mantissa_u128(10, "12345.6789", (123456789, 4, 10, false));
    check_parse_mantissa_u128(10, "1.2345e10", (12345, 4, 6, false));
    check_parse_mantissa_u128(10, "0.0000000000000000001", (1, 19, 21, false));
    check_parse_mantissa_u128(10, "0.00000000000000000000000000001", (1, 29, 31, false));
    check_parse_mantissa_u128(10, "100000000000000000000", (100000000000000000000, 0, 21, false));
}

#[test]
fn normalize_mantissa_test() {
    assert_eq!(normalize_mantissa::<u64>(100, 10, 0), (1, 2));
    assert_eq!(normalize_mantissa::<u64>(101, 10, 0), (101, 0));
    assert_eq!(normalize_mantissa::<u64>(110, 10, 0), (11, 1));
}

#[test]
fn normalize_mantissa_large_powers() {
    assert_eq!(normalize_mantissa::<u64>(10000000000000000000, 10, -3), (1, 16));
    assert_eq!(normalize_mantissa::<u128>(1000, 10, i32::MAX - 1), (1, i32::MAX));
    assert_eq!(normalize_mantissa::<u64>(4096, 2, 0), (1, 12));
}

fn check_parse_float_u64(base: u32, s: &str, tup: (u64, i32, usize, bool)) {
    assert_eq!(parse_float::<u64>(base, s.as_bytes()), Ok(tup));
}

fn check_parse_float_u128(base: u32, s: &str, tup: (u128, i32, usize, bool)) {
    assert_eq!(parse_float::<u128>(base, s.as_bytes()), Ok(tup));
}

#[test]
fn parse_float_test() {
    // 64-bit
    check_parse_float_u64(10, "1.2345", (12345, -4, 6, false));
    check_parse_float_u64(10, "12.345", (12345, -3, 6, false));
    check_parse_float_u64(10, "12345.6789", (123456789, -4, 10, false));
    check_parse_float_u64(10, "1.2345e10", (12345, 6, 9, false));
    check_parse_float_u64(10, "100000000000000000000", (1, 20, 21, true));
    check_parse_float_u64(10, "100000000000000000001", (1, 20, 21, true));

    // Adapted from failures in strtod.
    check_parse_float_u64(10, LONG, (17976931348623158079, 289, 380, true));

    // 128-bit
    check_parse_float_u128(10, "1.2345", (12345, -4, 6, false));
    check_parse_float_u128(10, "12.345", (12345, -3, 6, false));
    check_parse_float_u128(10, "12345.6789", (123456789, -4, 10, false));
    check_parse_float_u128(10, "1.2345e10", (12345, 6, 9, false));
    check_parse_float_u128(10, "100000000000000000000", (1, 20, 21, false));
    check_parse_float_u128(10, "100000000000000000001", (100000000000000000001, 0, 21, false));
}

#[test]
fn parse_float_reports_empty_exponent() {
    assert_eq!(parse_float::<u64>(10, b"1e"), Err(Error { code: ErrorCode::EmptyExponent, index: 2 }));
    assert_eq!(parse_float::<u64>(10, b"1.5e+x"), Err(Error { code: ErrorCode::EmptyExponent, index: 5 }));
}

#[test]
fn lowercase_input_parses_alike() {
    for (radix, s) in [(10u32, "1.25E+3"), (16, "FF.8^2"), (36, "ZZ.Y"), (12, "B.A"), (10, "7e-2")] {
        let lower = s.to_ascii_lowercase();
        assert_eq!(parse_float::<u64>(radix, s.as_bytes()), parse_float::<u64>(radix, lower.as_bytes()));
        assert_eq!(parse_mantissa::<u128>(radix, s.as_bytes()), parse_mantissa::<u128>(radix, lower.as_bytes()));
    }
}

#[test]
fn decimal_mantissas_read_back_whole() {
    for n in [0u64, 1, 9, 10, 12345, 10000000000000000000, u64::MAX] {
        let s = n.to_string();
        assert_eq!(parse_mantissa::<u64>(10, s.as_bytes()), (n, 0, s.len(), false));
    }
    let big = u128::MAX.to_string();
    assert_eq!(parse_mantissa::<u128>(10, big.as_bytes()), (u128::MAX, 0, big.len(), false));
}
