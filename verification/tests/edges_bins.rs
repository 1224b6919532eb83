use rsomics_binned_statistic::edges::{bin_number, data_range_positions, digitize};

fn bits(v: &[f64]) -> Vec<u64> {
    v.iter().map(|x| x.to_bits()).collect()
}

#[test]
fn digitize_matches_numpy_semantics() {
    let edges = bits(&[0.0, 5.0, 10.0]);
    let got: Vec<usize> = [-1.0f64, 0.0, 2.5, 5.0, 7.5, 10.0, 11.0]
        .iter()
        .map(|&v| digitize(v.to_bits(), &edges))
        .collect();
    assert_eq!(got, vec![0, 1, 1, 2, 2, 3, 3]);
}

#[test]
fn upper_edge_pulled_into_last_bin() {
    // The edges of two bins over [0, 10]; 10.0 is the last edge itself, so it
    // rounds to it at any precision.
    let edges = bits(&[0.0, 5.0, 10.0]);
    assert_eq!(bin_number(10.0f64.to_bits(), &edges, true), 2);
}

#[test]
fn outliers_get_zero_and_top() {
    let edges = bits(&[0.0, 5.0, 10.0]);
    // None of these values rounds to the last edge 10.0.
    let nums: Vec<usize> = [-1.0f64, 0.0, 5.0, 11.0]
        .iter()
        .map(|&v| bin_number(v.to_bits(), &edges, false))
        .collect();
    assert_eq!(nums, vec![0, 1, 2, 3]);
}

#[test]
fn above_range_without_rounding_match_stays_outlier() {
    let edges = bits(&[0.0, 5.0, 10.0]);
    assert_eq!(bin_number(10.0f64.to_bits(), &edges, false), 3);
    // A value just above the last edge that rounds to it joins the last bin.
    assert_eq!(bin_number(10.000_000_000_1f64.to_bits(), &edges, true), 2);
}

#[test]
fn nan_value_is_above_every_bin() {
    // numpy's digitize sorts a NaN above every edge: the upper outlier bin,
    // and the rightmost-edge correction never applies to it.
    let edges = bits(&[0.0, 5.0, 10.0]);
    assert_eq!(digitize(f64::NAN.to_bits(), &edges), 3);
    assert_eq!(digitize((-f64::NAN).to_bits(), &edges), 3);
    assert_eq!(bin_number(f64::NAN.to_bits(), &edges, false), 3);
    assert_eq!(bin_number(f64::NAN.to_bits(), &edges, true), 3);
}

#[test]
fn nan_edges_sort_above_numbers() {
    let edges = bits(&[f64::NAN, f64::NAN]);
    assert_eq!(digitize(1.0f64.to_bits(), &edges), 0);
    assert_eq!(digitize(f64::NAN.to_bits(), &edges), 2);
}

#[test]
fn negative_zero_sits_on_zero_edge() {
    let edges = bits(&[0.0, 5.0, 10.0]);
    assert_eq!(digitize((-0.0f64).to_bits(), &edges), 1);
}

#[test]
fn digitize_many_edges() {
    let e: Vec<f64> = (0..=100).map(f64::from).collect();
    let edges = bits(&e);
    for i in 0..100 {
        let v = i as f64 + 0.5;
        assert_eq!(digitize(v.to_bits(), &edges), i + 1);
        assert_eq!(digitize((i as f64).to_bits(), &edges), i + 1);
    }
    assert_eq!(digitize((-0.5f64).to_bits(), &edges), 0);
    assert_eq!(digitize(100.0f64.to_bits(), &edges), 101);
}

#[test]
fn degenerate_range_positions() {
    // All values equal: both ends are the first value, which the caller
    // widens to (2.5, 3.5).
    let x = bits(&[3.0, 3.0, 3.0]);
    let (lo, hi) = data_range_positions(&x);
    assert_eq!((lo, hi), (0, 0));
    assert_eq!(f64::from_bits(x[lo]), f64::from_bits(x[hi]));
}

#[test]
fn data_range_positions_pick_first_extremes() {
    let x = bits(&[1.0, 1.0, 2.0, 5.0, 7.0, 7.0, -2.0, -2.0]);
    assert_eq!(data_range_positions(&x), (6, 4));
}

#[test]
fn data_range_skips_nan_after_first() {
    let x = bits(&[2.0, f64::NAN, -1.0, 9.0]);
    assert_eq!(data_range_positions(&x), (2, 3));
}

#[test]
fn data_range_nan_first_stands() {
    let x = bits(&[f64::NAN, 1.0, 2.0]);
    assert_eq!(data_range_positions(&x), (0, 0));
}

#[test]
fn data_range_signed_zeros_keep_first() {
    let x = bits(&[0.0, -0.0, 1.0]);
    assert_eq!(data_range_positions(&x), (0, 2));
    let y = bits(&[-0.0, 0.0]);
    assert_eq!(data_range_positions(&y), (0, 0));
}

#[test]
fn bin_numbers_grow_with_value() {
    let edges = bits(&[-1.0, 0.0, 0.25, 3.0, 10.0]);
    let mut xs = vec![-5.0, -1.0, -0.5, -0.0, 0.0, 0.1, 0.25, 2.9, 3.0, 9.99, 10.0, 10.5, f64::INFINITY];
    xs.sort_by(|a, b| a.total_cmp(b));
    let nums: Vec<usize> = xs
        .iter()
        .map(|&v| bin_number(v.to_bits(), &edges, v == 10.0))
        .collect();
    assert_eq!(nums, vec![0, 1, 1, 2, 2, 2, 3, 3, 4, 4, 4, 5, 5]);
    assert!(nums.windows(2).all(|w| w[0] <= w[1]));
}
