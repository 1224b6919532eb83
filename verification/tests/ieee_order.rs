use rsomics_binned_statistic::ieee::{float_le, float_lt, is_nan_bits, numpy_cmp, numpy_order_key};
use std::cmp::Ordering;

fn samples() -> Vec<f64> {
    vec![
        f64::NAN,
        -f64::NAN,
        f64::from_bits(0x7FF0_0000_0000_0001),
        f64::from_bits(0xFFF8_0000_0000_0123),
        f64::NEG_INFINITY,
        -1e300,
        -1.0,
        -f64::MIN_POSITIVE,
        -5e-324,
        -0.0,
        0.0,
        5e-324,
        f64::MIN_POSITIVE,
        0.5,
        1.0,
        1e300,
        f64::MAX,
        f64::INFINITY,
    ]
}

/// numpy's sort order, written with `f64` operations.
fn reference_numpy_cmp(a: f64, b: f64) -> Ordering {
    match (a.is_nan(), b.is_nan()) {
        (false, false) => a.total_cmp(&b),
        (false, true) => Ordering::Less,
        (true, false) => Ordering::Greater,
        (true, true) => Ordering::Equal,
    }
}

#[test]
fn comparisons_match_f64_operators() {
    for &a in &samples() {
        for &b in &samples() {
            assert_eq!(float_lt(a.to_bits(), b.to_bits()), a < b, "{a} < {b}");
            assert_eq!(float_le(a.to_bits(), b.to_bits()), a <= b, "{a} <= {b}");
        }
    }
}

#[test]
fn nan_test_matches_f64() {
    for &a in &samples() {
        assert_eq!(is_nan_bits(a.to_bits()), a.is_nan(), "{a}");
    }
}

#[test]
fn numpy_order_matches_total_cmp_with_nan_last() {
    for &a in &samples() {
        for &b in &samples() {
            assert_eq!(
                numpy_cmp(a.to_bits(), b.to_bits()),
                reference_numpy_cmp(a, b),
                "{a:?} vs {b:?}"
            );
        }
    }
}

#[test]
fn negative_nan_sorts_after_infinity() {
    let neg_nan = (-f64::NAN).to_bits();
    assert!(neg_nan >> 63 == 1);
    assert_eq!(numpy_cmp(neg_nan, f64::INFINITY.to_bits()), Ordering::Greater);
    assert_eq!(numpy_cmp(neg_nan, f64::NAN.to_bits()), Ordering::Equal);
    assert!(numpy_order_key(f64::INFINITY.to_bits()) < numpy_order_key(neg_nan));
}

#[test]
fn negative_zero_before_positive_zero_in_numpy_order() {
    assert_eq!(numpy_cmp((-0.0f64).to_bits(), 0.0f64.to_bits()), Ordering::Less);
    assert!(float_le((-0.0f64).to_bits(), 0.0f64.to_bits()));
    assert!(!float_lt((-0.0f64).to_bits(), 0.0f64.to_bits()));
}
