//! Doubles and singles as bit patterns, against the machine's own arithmetic.

use ohc_ingest::double::{dyadic, equal, greater, is_finite, is_nan, negated, widen};
use ohc_ingest::rounding::{distance, multiply, narrow};

fn samples() -> Vec<f64> {
    vec![
        0.0,
        -0.0,
        1.0,
        -1.5,
        0.1,
        3989.244,
        1030.0,
        144.646083,
        1e-6,
        1e300,
        -1e308,
        f64::MAX,
        f64::MIN_POSITIVE,
        5e-324,
        -2.5e-320,
        1e-200,
        f64::EPSILON,
        1.0 + f64::EPSILON,
        9007199254740993.0,
        f64::INFINITY,
        f64::NEG_INFINITY,
        f64::NAN,
    ]
}

fn agrees(got: u64, want: f64) -> bool {
    if want.is_nan() {
        f64::from_bits(got).is_nan()
    } else {
        got == want.to_bits()
    }
}

#[test]
fn products_are_those_of_the_machine() {
    for a in samples() {
        for b in samples() {
            assert!(agrees(multiply(a.to_bits(), b.to_bits()), a * b), "{a} * {b}");
        }
    }
    assert_eq!(multiply(3989.244f64.to_bits(), 1030.0f64.to_bits()), 4706078252693045904);
}

#[test]
fn distances_are_those_of_the_machine() {
    for a in samples() {
        for b in samples() {
            assert!(agrees(distance(a.to_bits(), b.to_bits()), (a - b).abs()), "|{a} - {b}|");
        }
    }
    assert_eq!(distance(1.0f64.to_bits(), 0.25f64.to_bits()), 0.75f64.to_bits());
}

#[test]
fn narrowing_is_that_of_the_machine() {
    for a in samples() {
        let want = a as f32;
        let got = f32::from_bits(narrow(a.to_bits()));
        assert!(got.to_bits() == want.to_bits() || (got.is_nan() && want.is_nan()), "{a}");
    }
    for a in [1e-45, 1.4e-45, 7e-46, 1e-40, 3.4028235e38, 3.4028236e38, 1e39, -4827.46533203125] {
        assert_eq!(narrow(f64::to_bits(a)), (a as f32).to_bits());
    }
}

#[test]
fn widening_is_that_of_the_machine() {
    for a in [0.0f32, -0.0, 1.0, -4827.4653, 1e-45, 1e-40, f32::MAX, f32::MIN_POSITIVE, f32::INFINITY] {
        assert_eq!(widen(a.to_bits()), (a as f64).to_bits());
    }
    assert!(f64::from_bits(widen(f32::NAN.to_bits())).is_nan());
    for bits in [0u32, 1, 0x8000_0001, 0x007f_ffff, 0x3f80_0000, 0x7f7f_ffff, 0xff80_0000, 0x7fc0_1234] {
        assert_eq!(narrow(widen(bits)), bits);
    }
}

#[test]
fn comparisons_are_those_of_the_machine() {
    for a in samples() {
        assert_eq!(is_nan(a.to_bits()), a.is_nan());
        assert_eq!(is_finite(a.to_bits()), a.is_finite());
        assert_eq!(negated(a.to_bits()), (-a).to_bits());
        for b in samples() {
            assert_eq!(greater(a.to_bits(), b.to_bits()), a > b);
            assert_eq!(equal(a.to_bits(), b.to_bits()), a == b);
        }
    }
}

#[test]
fn dyadic_fractions_are_exact() {
    assert_eq!(dyadic(41, 1), 20.5f64.to_bits());
    assert_eq!(dyadic(-179, 1), (-89.5f64).to_bits());
    assert_eq!(dyadic(0, 7), 0.0f64.to_bits());
    assert_eq!(dyadic(-3, 64), (-3.0 / 18446744073709551616.0f64).to_bits());
    assert_eq!(dyadic(9007199254740991, 0), 9007199254740991.0f64.to_bits());
}
