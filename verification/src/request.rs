//! The checks a request must pass before any binning: at least one bin, as
//! many values as `x` samples, and a range that is absent or a pair `lo,hi`
//! with `lo <= hi` (range bounds are IEEE-754 bit patterns).

use crate::ieee::{float_lt, ieee_lt};
use vstd::prelude::*;

verus! {

/// A malformed request.
#[derive(Copy, Clone, Debug, PartialEq, Eq, Structural)]
pub enum RequestError {
    /// `--bins` is zero.
    NoBins,
    /// `x` and `values` differ in length.
    LengthMismatch { x_len: usize, values_len: usize },
    /// The range's stop is below its start.
    RangeReversed { lo: u64, hi: u64 },
    /// The range is given with a number of bounds other than two.
    RangeArity { given: usize },
}

/// At least one bin is asked for.
pub fn check_bins(bins: usize) -> (r: Result<(), RequestError>)
    ensures
        r == if bins >= 1 {
            Ok::<(), RequestError>(())
        } else {
            Err(RequestError::NoBins)
        },
{
    if bins < 1 {
        Err(RequestError::NoBins)
    } else {
        Ok(())
    }
}

/// What a request with inputs of these lengths and these range bounds comes
/// to: the range to bin over (`None` for the data range), or why the request
/// is refused. The lengths are checked first, then the range.
pub open spec fn request_outcome(x_len: usize, values_len: usize, range: Seq<u64>) -> Result<
    Option<(u64, u64)>,
    RequestError,
> {
    if x_len != values_len {
        Err(RequestError::LengthMismatch { x_len, values_len })
    } else if range.len() == 0 {
        Ok(None)
    } else if range.len() == 2 {
        if ieee_lt(range[1], range[0]) {
            Err(RequestError::RangeReversed { lo: range[0], hi: range[1] })
        } else {
            Ok(Some((range[0], range[1])))
        }
    } else {
        Err(RequestError::RangeArity { given: range.len() as usize })
    }
}

/// Checks that `x` and `values` match in length and that the range, if any,
/// is a pair `lo,hi` without `hi < lo`; hands back the range to bin over.
pub fn check_inputs(x_len: usize, values_len: usize, range: &[u64]) -> (r: Result<
    Option<(u64, u64)>,
    RequestError,
>)
    ensures
        r == request_outcome(x_len, values_len, range@),
        x_len != values_len ==> r == Err::<Option<(u64, u64)>, RequestError>(
            RequestError::LengthMismatch { x_len, values_len },
        ),
        r matches Ok(_) ==> x_len == values_len,
        r matches Ok(None) <==> (x_len == values_len && range.len() == 0),
        r matches Ok(Some((lo, hi))) ==> range@ == seq![lo, hi] && !ieee_lt(hi, lo),
{
    if x_len != values_len {
        return Err(RequestError::LengthMismatch { x_len, values_len });
    }
    if range.len() == 0 {
        Ok(None)
    } else if range.len() == 2 {
        let lo = range[0];
        let hi = range[1];
        if float_lt(hi, lo) {
            Err(RequestError::RangeReversed { lo, hi })
        } else {
            Ok(Some((lo, hi)))
        }
    } else {
        Err(RequestError::RangeArity { given: range.len() })
    }
}

/// An accepted range never has its stop below its start.
pub proof fn lemma_accepted_range_ordered(x_len: usize, values_len: usize, range: Seq<u64>)
    requires
        request_outcome(x_len, values_len, range) matches Ok(Some(_)),
    ensures
        request_outcome(x_len, values_len, range) matches Ok(Some((lo, hi))) && !ieee_lt(hi, lo),
        x_len == values_len,
{
}

/// Inputs of different lengths are always refused, whatever the range, and
/// with the two lengths reported; inputs of equal length are never refused
/// for their lengths.
pub proof fn lemma_length_mismatch_refused(x_len: usize, values_len: usize, range: Seq<u64>)
    ensures
        x_len != values_len ==> request_outcome(x_len, values_len, range) == Err::<
            Option<(u64, u64)>,
            RequestError,
        >(RequestError::LengthMismatch { x_len, values_len }),
        x_len == values_len ==> !(request_outcome(x_len, values_len, range) matches Err(
            RequestError::LengthMismatch { .. },
        )),
        request_outcome(x_len, values_len, range) matches Ok(_) ==> x_len == values_len,
{
}

/// With equal lengths, the range decides: none given is the data range, a
/// pair without `hi < lo` is accepted as given, a reversed pair and any other
/// number of bounds are refused.
pub proof fn lemma_range_outcomes(n: usize, range: Seq<u64>)
    ensures
        range.len() == 0 ==> request_outcome(n, n, range) == Ok::<
            Option<(u64, u64)>,
            RequestError,
        >(None),
        range.len() == 2 && !ieee_lt(range[1], range[0]) ==> request_outcome(n, n, range) == Ok::<
            Option<(u64, u64)>,
            RequestError,
        >(Some((range[0], range[1]))),
        range.len() == 2 && ieee_lt(range[1], range[0]) ==> request_outcome(n, n, range) matches Err(
            RequestError::RangeReversed { .. },
        ),
        range.len() != 0 && range.len() != 2 ==> request_outcome(n, n, range) matches Err(
            RequestError::RangeArity { .. },
        ),
{
}

} // verus!
