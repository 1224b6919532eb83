use rsomics_binned_statistic::binned::{Extreme, bincount, core_bins, count, extreme, median_pairs};
use rsomics_binned_statistic::edges::bin_number;

fn bits(v: &[f64]) -> Vec<u64> {
    v.iter().map(|x| x.to_bits()).collect()
}

fn mean_of(pair: Option<(u64, u64)>) -> f64 {
    match pair {
        Some((a, b)) => (f64::from_bits(a) + f64::from_bits(b)) / 2.0,
        None => f64::NAN,
    }
}

fn value_or_nan(v: Option<u64>) -> f64 {
    v.map(f64::from_bits).unwrap_or(f64::NAN)
}

/// Bin numbers of `x` for ascending `edges`, where only values equal to the
/// last edge round to it.
fn numbers(x: &[f64], edges: &[f64]) -> Vec<usize> {
    let e = bits(edges);
    let last = *edges.last().unwrap();
    x.iter().map(|&v| bin_number(v.to_bits(), &e, v == last)).collect()
}

#[test]
fn sum_doc_example_bin_numbers() {
    let x = [1.0, 1.0, 2.0, 5.0, 7.0];
    let bn = numbers(&x, &[1.0, 4.0, 7.0]);
    assert_eq!(bn, vec![1, 1, 1, 2, 2]);
    assert_eq!(count(&bn, 4, 2), vec![3, 2]);
}

#[test]
fn mean_doc_example_bin_numbers() {
    let x = [1.0, 2.0, 1.0, 2.0, 4.0];
    let bn = numbers(&x, &[1.0, 2.0, 3.0, 4.0]);
    assert_eq!(bn, vec![1, 2, 1, 2, 3]);
    assert_eq!(count(&bn, 5, 3), vec![2, 2, 1]);
}

#[test]
fn counts_with_empty_bins_are_zero() {
    let x = [0.0, 0.1, 9.9, 10.0];
    let bn = numbers(&x, &[0.0, 2.0, 4.0, 6.0, 8.0, 10.0]);
    assert_eq!(bn, vec![1, 1, 5, 5]);
    assert_eq!(count(&bn, 7, 5), vec![2, 0, 0, 0, 2]);
    let v = bits(&[1.0, 2.0, 3.0, 4.0]);
    let mid = median_pairs(&v, &bn, 5);
    assert!(mid[1].is_none() && mid[2].is_none() && mid[3].is_none());
}

#[test]
fn median_even_count_two_middles() {
    let bn = vec![1, 1, 1, 1];
    let v = bits(&[1.0, 2.0, 3.0, 4.0]);
    let mid = median_pairs(&v, &bn, 1);
    assert_eq!(mid, vec![Some((2.0f64.to_bits(), 3.0f64.to_bits()))]);
    assert_eq!(mean_of(mid[0]), 2.5);
}

#[test]
fn median_odd_count_one_middle() {
    let bn = vec![1, 1, 1];
    let v = bits(&[9.0, 1.0, 4.0]);
    let mid = median_pairs(&v, &bn, 1);
    assert_eq!(mid, vec![Some((4.0f64.to_bits(), 4.0f64.to_bits()))]);
}

#[test]
fn min_max_per_bin_values() {
    let bn = numbers(&[0.0, 0.0, 9.0, 9.0], &[0.0, 5.0, 10.0]);
    let v = bits(&[5.0, 1.0, 7.0, 2.0]);
    let mn: Vec<f64> = extreme(&v, &bn, 2, Extreme::Min).into_iter().map(value_or_nan).collect();
    assert_eq!(mn, vec![1.0, 2.0]);
    let mx: Vec<f64> = extreme(&v, &bn, 2, Extreme::Max).into_iter().map(value_or_nan).collect();
    assert_eq!(mx, vec![5.0, 7.0]);
}

#[test]
fn nan_in_bin_orders_last() {
    // bin1 = {10, nan, 30}, bin2 = {5}; edges of two bins over [1, 2].
    let bn = numbers(&[1.0, 1.0, 1.0, 2.0], &[1.0, 1.5, 2.0]);
    assert_eq!(bn, vec![1, 1, 1, 2]);
    let v = bits(&[10.0, f64::NAN, 30.0, 5.0]);
    let med: Vec<f64> = median_pairs(&v, &bn, 2).into_iter().map(mean_of).collect();
    assert_eq!(med, vec![30.0, 5.0]);
    let mn: Vec<f64> = extreme(&v, &bn, 2, Extreme::Min).into_iter().map(value_or_nan).collect();
    assert_eq!(mn, vec![10.0, 5.0]);
    let mx: Vec<f64> = extreme(&v, &bn, 2, Extreme::Max).into_iter().map(value_or_nan).collect();
    assert!(mx[0].is_nan());
    assert_eq!(mx[1], 5.0);
    assert_eq!(count(&bn, 4, 2), vec![3, 1]);
}

#[test]
fn nan_at_median_middle() {
    let bn = vec![1, 1, 2, 2, 2, 2];
    let v = bits(&[5.0, f64::NAN, 1.0, 2.0, 3.0, f64::NAN]);
    let med: Vec<f64> = median_pairs(&v, &bn, 2).into_iter().map(mean_of).collect();
    assert!(med[0].is_nan());
    assert_eq!(med[1], 2.5);
    let mn: Vec<f64> = extreme(&v, &bn, 2, Extreme::Min).into_iter().map(value_or_nan).collect();
    assert_eq!(mn, vec![5.0, 1.0]);
    let mx: Vec<f64> = extreme(&v, &bn, 2, Extreme::Max).into_iter().map(value_or_nan).collect();
    assert!(mx[0].is_nan() && mx[1].is_nan());
}

#[test]
fn empty_middle_bin_for_every_reduction() {
    let bn = numbers(&[0.0, 10.0], &[0.0, 10.0 / 3.0, 20.0 / 3.0, 10.0]);
    assert_eq!(bn, vec![1, 3]);
    let v = bits(&[1.0, 2.0]);
    assert_eq!(median_pairs(&v, &bn, 3)[1], None);
    assert_eq!(extreme(&v, &bn, 3, Extreme::Min)[1], None);
    assert_eq!(extreme(&v, &bn, 3, Extreme::Max)[1], None);
    assert_eq!(count(&bn, 5, 3)[1], 0);
}

#[test]
fn outliers_do_not_reach_real_bins() {
    let bn = vec![0, 1, 3, 2, 3];
    let v = bits(&[100.0, 1.0, -50.0, 2.0, 200.0]);
    assert_eq!(count(&bn, 4, 2), vec![1, 1]);
    assert_eq!(bincount(&bn, 4), vec![1, 1, 1, 2]);
    assert_eq!(extreme(&v, &bn, 2, Extreme::Max), vec![Some(1.0f64.to_bits()), Some(2.0f64.to_bits())]);
    assert_eq!(median_pairs(&v, &bn, 2), vec![
        Some((1.0f64.to_bits(), 1.0f64.to_bits())),
        Some((2.0f64.to_bits(), 2.0f64.to_bits())),
    ]);
}

#[test]
fn ties_between_nans_keep_position_order() {
    // Two NaNs with different payloads in one bin: max takes the later one,
    // min (when only NaNs) the earlier one, as a stable sort leaves them.
    let n1 = 0x7FF8_0000_0000_0001u64;
    let n2 = 0xFFF8_0000_0000_0002u64;
    let bn = vec![1, 1];
    let v = vec![n1, n2];
    assert_eq!(extreme(&v, &bn, 1, Extreme::Max), vec![Some(n2)]);
    assert_eq!(extreme(&v, &bn, 1, Extreme::Min), vec![Some(n1)]);
    assert_eq!(median_pairs(&v, &bn, 1), vec![Some((n1, n2))]);
}

#[test]
fn counts_add_up_to_sample_count() {
    let bn = vec![0, 4, 1, 1, 2, 3, 3, 3, 0];
    let c = bincount(&bn, 5);
    assert_eq!(c.iter().sum::<usize>(), bn.len());
}

#[test]
fn core_strips_outlier_bins() {
    assert_eq!(core_bins(&[9, 1, 2, 3, 8], 3), vec![1, 2, 3]);
    assert_eq!(core_bins(&[0.5f64, 1.5, 2.5], 1), vec![1.5]);
}

#[test]
fn median_large_sample_matches_sorting() {
    let n = 5000;
    let mut state = 0x2545_F491_4F6C_DD1Du64;
    let mut next = || {
        state = state
            .wrapping_mul(6364136223846793005)
            .wrapping_add(1442695040888963407);
        (state >> 11) as f64 / (1u64 << 53) as f64
    };
    let bn: Vec<usize> = (0..n).map(|_| 1 + (next() * 7.0) as usize).collect();
    let vals: Vec<f64> = (0..n).map(|_| next() * 1000.0 - 500.0).collect();
    let v = bits(&vals);
    let mid = median_pairs(&v, &bn, 7);
    let mn = extreme(&v, &bn, 7, Extreme::Min);
    let mx = extreme(&v, &bn, 7, Extreme::Max);
    for b in 1..=7 {
        let mut members: Vec<f64> = (0..n).filter(|&i| bn[i] == b).map(|i| vals[i]).collect();
        members.sort_by(|a, c| a.total_cmp(c));
        let k = members.len();
        let want = (members[(k - 1) / 2].to_bits(), members[k / 2].to_bits());
        assert_eq!(mid[b - 1], Some(want));
        assert_eq!(mn[b - 1], Some(members[0].to_bits()));
        assert_eq!(mx[b - 1], Some(members[k - 1].to_bits()));
    }
}
