use lexical_core::atof::{atod, atod_lossy, atof, atof_lossy, parse_signed_float};
use lexical_core::error::{Error, ErrorCode};
use lexical_core::float::FloatKind;

fn check_atof(base: u32, s: &str, tup: (f32, usize)) {
    let (v, p) = atof(base, s.as_bytes()).unwrap();
    assert_eq!(f32::from_bits(v), tup.0);
    assert_eq!(p, tup.1);
}

fn check_atod(base: u32, s: &str, tup: (f64, usize)) {
    let (v, p) = atod(base, s.as_bytes()).unwrap();
    assert_eq!(f64::from_bits(v), tup.0);
    assert_eq!(p, tup.1);
}

fn check_atof_lossy(base: u32, s: &str, tup: (f32, usize)) {
    let (v, p) = atof_lossy(base, s.as_bytes()).unwrap();
    assert_eq!(f32::from_bits(v), tup.0);
    assert_eq!(p, tup.1);
}

fn check_atod_lossy(base: u32, s: &str, tup: (f64, usize)) {
    let (v, p) = atod_lossy(base, s.as_bytes()).unwrap();
    assert_eq!(f64::from_bits(v), tup.0);
    assert_eq!(p, tup.1);
}

#[test]
fn atof_test() {
    check_atof(10, "1.2345", (1.2345, 6));
    check_atof(10, "12.345", (12.345, 6));
    check_atof(10, "12345.6789", (12345.6789, 10));
    check_atof(10, "1.2345e10", (1.2345e10, 9));
    check_atof(10, "1.2345e-38", (1.2345e-38, 10));

    // Check expected rounding, using borderline cases.
    // Round-down, halfway
    check_atof(10, "16777216", (16777216.0, 8));
    check_atof(10, "16777217", (16777216.0, 8));
    check_atof(10, "16777218", (16777218.0, 8));
    check_atof(10, "33554432", (33554432.0, 8));
    check_atof(10, "33554434", (33554432.0, 8));
    check_atof(10, "33554436", (33554436.0, 8));
    check_atof(10, "17179869184", (17179869184.0, 11));
    check_atof(10, "17179870208", (17179869184.0, 11));
    check_atof(10, "17179871232", (17179871232.0, 11));

    // Round-up, halfway
    check_atof(10, "16777218", (16777218.0, 8));
    check_atof(10, "16777219", (16777220.0, 8));
    check_atof(10, "16777220", (16777220.0, 8));
    check_atof(10, "33554436", (33554436.0, 8));
    check_atof(10, "33554438", (33554440.0, 8));
    check_atof(10, "33554440", (33554440.0, 8));
    check_atof(10, "17179871232", (17179871232.0, 11));
    check_atof(10, "17179872256", (17179873280.0, 11));
    check_atof(10, "17179873280", (17179873280.0, 11));

    // Round-up, above halfway
    check_atof(10, "33554435", (33554436.0, 8));
    check_atof(10, "17179870209", (17179871232.0, 11));
}

#[test]
fn atod_test() {
    check_atod(10, "1.2345", (1.2345, 6));
    check_atod(10, "12.345", (12.345, 6));
    check_atod(10, "12345.6789", (12345.6789, 10));
    check_atod(10, "1.2345e10", (1.2345e10, 9));
    check_atod(10, "1.2345e-308", (1.2345e-308, 11));

    // Check expected rounding, using borderline cases.
    // Round-down, halfway
    check_atod(10, "9007199254740992", (9007199254740992.0, 16));
    check_atod(10, "9007199254740993", (9007199254740992.0, 16));
    check_atod(10, "9007199254740994", (9007199254740994.0, 16));
    check_atod(10, "18014398509481984", (18014398509481984.0, 17));
    check_atod(10, "18014398509481986", (18014398509481984.0, 17));
    check_atod(10, "18014398509481988", (18014398509481988.0, 17));
    check_atod(10, "9223372036854775808", (9223372036854775808.0, 19));
    check_atod(10, "9223372036854776832", (9223372036854775808.0, 19));
    check_atod(10, "9223372036854777856", (9223372036854777856.0, 19));
    check_atod(10, "11417981541647679048466287755595961091061972992", (11417981541647679048466287755595961091061972992.0, 47));
    check_atod(10, "11417981541647680316116887983825362587765178368", (11417981541647679048466287755595961091061972992.0, 47));
    check_atod(10, "11417981541647681583767488212054764084468383744", (11417981541647681583767488212054764084468383744.0, 47));

    // Round-up, halfway
    check_atod(10, "9007199254740994", (9007199254740994.0, 16));
    check_atod(10, "9007199254740995", (9007199254740996.0, 16));
    check_atod(10, "9007199254740996", (9007199254740996.0, 16));
    check_atod(10, "18014398509481988", (18014398509481988.0, 17));
    check_atod(10, "18014398509481990", (18014398509481992.0, 17));
    check_atod(10, "18014398509481992", (18014398509481992.0, 17));
    check_atod(10, "9223372036854777856", (9223372036854777856.0, 19));
    check_atod(10, "9223372036854778880", (9223372036854779904.0, 19));
    check_atod(10, "9223372036854779904", (9223372036854779904.0, 19));
    check_atod(10, "11417981541647681583767488212054764084468383744", (11417981541647681583767488212054764084468383744.0, 47));
    check_atod(10, "11417981541647682851418088440284165581171589120", (11417981541647684119068688668513567077874794496.0, 47));
    check_atod(10, "11417981541647684119068688668513567077874794496", (11417981541647684119068688668513567077874794496.0, 47));

    // Round-up, above halfway
    check_atod(10, "9223372036854776833", (9223372036854777856.0, 19));
    check_atod(10, "11417981541647680316116887983825362587765178369", (11417981541647681583767488212054764084468383744.0, 47));

    // Rounding error
    // Adapted from failures in strtod.
    check_atod(10, "2.2250738585072014e-308", (2.2250738585072014e-308, 23));
    check_atod(10, "2.22507385850720113605740979670913197593481954635164564802342610972482222202107694551652952390813508791414915891303962110687008643869459464552765720740782062174337998814106326732925355228688137214901298112245145188984905722230728525513315575501591439747639798341180199932396254828901710708185069063066665599493827577257201576306269066333264756530000924588831643303777979186961204949739037782970490505108060994073026293712895895000358379996720725430436028407889577179615094551674824347103070260914462157228988025818254518032570701886087211312807951223342628836862232150377566662250398253433597456888442390026549819838548794829220689472168983109969836584681402285424333066033985088644580400103493397042756718644338377048603786162277173854562306587467901408672332763671875e-308", (2.2250738585072014e-308, 774));
}

#[test]
fn atof_lossy_test() {
    check_atof_lossy(10, "1.2345", (1.2345, 6));
    check_atof_lossy(10, "12.345", (12.345, 6));
    check_atof_lossy(10, "12345.6789", (12345.6789, 10));
    check_atof_lossy(10, "1.2345e10", (1.2345e10, 9));
}

#[test]
fn atod_lossy_test() {
    check_atod_lossy(10, "1.2345", (1.2345, 6));
    check_atod_lossy(10, "12.345", (12.345, 6));
    check_atod_lossy(10, "12345.6789", (12345.6789, 10));
    check_atod_lossy(10, "1.2345e10", (1.2345e10, 9));
}

#[test]
fn scenario_round_to_even_and_slow_path() {
    check_atof(10, "16777217", (16777216.0, 8));
    check_atod(10, "9007199254740993", (9007199254740992.0, 16));
    let mut long = String::from("2.2250738585072014");
    for _ in 0..700 {
        long.push('0');
    }
    long.push_str("e-308");
    check_atod(10, &long, (2.2250738585072014e-308, long.len()));
}

#[test]
fn out_of_range_values_saturate() {
    check_atod(10, "1e400", (f64::INFINITY, 5));
    check_atof(10, "1e39", (f32::INFINITY, 4));
    check_atod(10, "1e-400", (0.0, 6));
    check_atod(10, "1e10000000000", (f64::INFINITY, 13));
    check_atod(10, "1e-10000000000", (0.0, 14));
    check_atod(10, "4.9406564584124654e-324", (4.9406564584124654e-324, 23));
    check_atod(10, "2.4703282292062327e-324", (0.0, 23));
    check_atod(10, "2.4703282292062328e-324", (4.9406564584124654e-324, 23));
    check_atod(10, "1.7976931348623157e308", (f64::MAX, 22));
    check_atod(10, "1.7976931348623159e308", (f64::INFINITY, 22));
    check_atof(10, "3.4028235e38", (f32::MAX, 12));
}

#[test]
fn non_decimal_radices() {
    check_atod(2, "1.1e10", (6.0, 6));
    check_atod(16, "ff.8", (255.5, 4));
    check_atod(16, "1^2", (256.0, 3));
    check_atof(8, "0.4", (0.5, 3));
    check_atod(36, "z", (35.0, 1));
    check_atod(3, "0.1", (1.0 / 3.0, 3));
}

#[test]
fn zeros_and_partial_input() {
    check_atod(10, "", (0.0, 0));
    check_atod(10, "0", (0.0, 1));
    check_atod(10, "000.000e5", (0.0, 9));
    check_atod(10, ".5", (0.5, 2));
    check_atod(10, "5.", (5.0, 2));
    check_atod(10, "1.5x", (1.5, 3));
    assert_eq!(atod(10, b"1.5e"), Err(Error { code: ErrorCode::EmptyExponent, index: 4 }));
}

#[test]
fn signed_and_strict_surfaces() {
    let (b, p) = parse_signed_float(FloatKind::Double, 10, b"-1.5", true).unwrap();
    assert_eq!((f64::from_bits(b), p), (-1.5, 4));
    let (b, p) = parse_signed_float(FloatKind::Single, 10, b"+2.5e1", true).unwrap();
    assert_eq!((f32::from_bits(b as u32), p), (25.0, 6));
    assert_eq!(
        parse_signed_float(FloatKind::Double, 10, b"1.5x", true),
        Err(Error { code: ErrorCode::InvalidDigit, index: 3 })
    );
    let (b, p) = parse_signed_float(FloatKind::Double, 10, b"1.5x", false).unwrap();
    assert_eq!((f64::from_bits(b), p), (1.5, 3));
    assert_eq!(
        parse_signed_float(FloatKind::Double, 10, b"-1e", false),
        Err(Error { code: ErrorCode::EmptyExponent, index: 3 })
    );
}

#[test]
fn formatted_floats_round_trip() {
    let mut x: u64 = 0x0123_4567_89ab_cdef;
    for _ in 0..300 {
        x ^= x << 13;
        x ^= x >> 7;
        x ^= x << 17;
        let d = f64::from_bits(x & 0x7fff_ffff_ffff_ffff);
        if d.is_finite() {
            for s in [format!("{:e}", d), format!("{}", d)] {
                let (v, p) = atod(10, s.as_bytes()).unwrap();
                assert_eq!(v, d.to_bits(), "{}", s);
                assert_eq!(p, s.len());
            }
        }
        let f = f32::from_bits((x >> 32) as u32 & 0x7fff_ffff);
        if f.is_finite() {
            let s = format!("{:e}", f);
            let (v, p) = atof(10, s.as_bytes()).unwrap();
            assert_eq!(v, f.to_bits(), "{}", s);
            assert_eq!(p, s.len());
        }
    }
}

#[test]
fn trailing_bytes_do_not_change_the_value() {
    for (s, n) in [("1.5e3,", 5), ("0.1 x", 3), ("123a", 3), ("9007199254740993z", 16)] {
        let whole = atod(10, s.as_bytes()).unwrap();
        let alone = atod(10, &s.as_bytes()[..n]).unwrap();
        assert_eq!(whole, alone);
        assert_eq!(whole.1, n);
    }
}
