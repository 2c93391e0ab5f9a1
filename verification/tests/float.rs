//! Bit-pattern floats agree with the machine's own `f64` operations.

use hyperopt_rs::float::FloatBits;

fn fb(x: f64) -> FloatBits {
    FloatBits::from_bits(x.to_bits())
}

fn samples() -> Vec<f64> {
    vec![
        0.0,
        -0.0,
        1.0,
        -1.0,
        0.5,
        -0.5,
        1.5,
        -1.5,
        2.5,
        -2.5,
        0.49999999999999994,
        3.7,
        -3.7,
        1e-300,
        -1e-300,
        f64::MIN_POSITIVE,
        5e-324,
        4503599627370495.5,
        4503599627370496.0,
        9007199254740993.0,
        9.2e18,
        -9.2e18,
        9.3e18,
        -9.3e18,
        1.8e19,
        1.9e19,
        1e300,
        -1e300,
        f64::MAX,
        f64::MIN,
        f64::INFINITY,
        f64::NEG_INFINITY,
        f64::NAN,
        -f64::NAN,
    ]
}

#[test]
fn comparisons_match_ieee() {
    for &a in &samples() {
        for &b in &samples() {
            assert_eq!(fb(a).lt(fb(b)), a < b, "{a} < {b}");
            assert_eq!(fb(a).le(fb(b)), a <= b, "{a} <= {b}");
            assert_eq!(fb(a).gt(fb(b)), a > b, "{a} > {b}");
            assert_eq!(
                fb(a).total_le(fb(b)),
                a.total_cmp(&b) != std::cmp::Ordering::Greater,
                "total {a} {b}"
            );
        }
    }
}

#[test]
fn classification_matches_ieee() {
    for &a in &samples() {
        assert_eq!(fb(a).is_nan(), a.is_nan(), "{a}");
        assert_eq!(fb(a).is_finite(), a.is_finite(), "{a}");
        assert_eq!(f64::from_bits(fb(a).neg().to_bits()).to_bits(), (-a).to_bits(), "{a}");
    }
}

#[test]
fn rounding_matches_casts() {
    for &a in &samples() {
        assert_eq!(fb(a).round_to_i64(), a.round() as i64, "round {a}");
        assert_eq!(fb(a).trunc_to_u64(), a as u64, "trunc {a}");
        assert_eq!(fb(a).trunc_to_u64() as usize, a as usize, "index {a}");
    }
    assert_eq!(fb(2.5).round_to_i64(), 3);
    assert_eq!(fb(-2.5).round_to_i64(), -3);
    assert_eq!(fb(3.99).trunc_to_u64(), 3);
}
