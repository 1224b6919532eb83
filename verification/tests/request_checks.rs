use rsomics_binned_statistic::request::{RequestError, check_bins, check_inputs};

fn b(v: f64) -> u64 {
    v.to_bits()
}

#[test]
fn zero_bins_refused() {
    assert_eq!(check_bins(0), Err(RequestError::NoBins));
    assert_eq!(check_bins(1), Ok(()));
    assert_eq!(check_bins(50), Ok(()));
}

#[test]
fn length_mismatch_refused_before_range() {
    assert_eq!(
        check_inputs(3, 2, &[b(1.0)]),
        Err(RequestError::LengthMismatch { x_len: 3, values_len: 2 })
    );
}

#[test]
fn range_forms() {
    assert_eq!(check_inputs(4, 4, &[]), Ok(None));
    assert_eq!(check_inputs(4, 4, &[b(0.0), b(10.0)]), Ok(Some((b(0.0), b(10.0)))));
    assert_eq!(check_inputs(4, 4, &[b(2.0), b(2.0)]), Ok(Some((b(2.0), b(2.0)))));
    assert_eq!(
        check_inputs(4, 4, &[b(10.0), b(0.0)]),
        Err(RequestError::RangeReversed { lo: b(10.0), hi: b(0.0) })
    );
    assert_eq!(check_inputs(4, 4, &[b(1.0)]), Err(RequestError::RangeArity { given: 1 }));
    assert_eq!(
        check_inputs(4, 4, &[b(1.0), b(2.0), b(3.0)]),
        Err(RequestError::RangeArity { given: 3 })
    );
}

#[test]
fn unordered_range_bounds_pass_as_floats_do() {
    // `hi < lo` is false when either bound is a NaN, so such a range passes.
    assert_eq!(
        check_inputs(1, 1, &[b(f64::NAN), b(0.0)]),
        Ok(Some((b(f64::NAN), b(0.0))))
    );
    // -0.0 and +0.0 are equal bounds.
    assert_eq!(check_inputs(1, 1, &[b(0.0), b(-0.0)]), Ok(Some((b(0.0), b(-0.0)))));
}
