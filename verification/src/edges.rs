//! The order-only parts of binning: the data range, and the bin number of a
//! value among the bin edges (numpy's `digitize` with scipy's rightmost-edge
//! correction).
//!
//! Values and edges are IEEE-754 binary64 bit patterns; every comparison is
//! the IEEE-754 one (`ieee`), as the floating-point code makes it. The edges
//! themselves (`linspace`), the widening of a degenerate range and the
//! rounding that decides the rightmost-edge correction are arithmetic and are
//! done by the caller.

use crate::ieee::{
    float_le, float_lt, float_sorts_at_or_below, ieee_le, ieee_lt, is_nan, lemma_le_trans,
    lemma_lt_le_trans, lemma_lt_or_ge, sorts_at_or_below,
};
use vstd::prelude::*;

verus! {

/// `k` is the position at which a left-to-right scan for the minimum with
/// `<` settles: the first value, if it is a NaN; otherwise the first position
/// of the least value, where NaNs never take the place of a value and
/// `-0.0` and `+0.0` count as equal.
pub open spec fn is_first_minimum(x: Seq<u64>, k: int) -> bool {
    &&& 0 <= k < x.len()
    &&& (is_nan(x[0]) ==> k == 0)
    &&& forall|j: int| 0 <= j < x.len() ==> !#[trigger] ieee_lt(x[j], x[k])
    &&& forall|j: int| 0 <= j < k ==> #[trigger] ieee_lt(x[k], x[j]) || is_nan(x[j])
}

/// `k` is the position at which a left-to-right scan for the maximum with
/// `>` settles (see `is_first_minimum`).
pub open spec fn is_first_maximum(x: Seq<u64>, k: int) -> bool {
    &&& 0 <= k < x.len()
    &&& (is_nan(x[0]) ==> k == 0)
    &&& forall|j: int| 0 <= j < x.len() ==> !#[trigger] ieee_lt(x[k], x[j])
    &&& forall|j: int| 0 <= j < k ==> #[trigger] ieee_lt(x[j], x[k]) || is_nan(x[j])
}

/// The positions of the data range `(x.min(), x.max())` as `_bin_edges`
/// finds it: a scan that keeps the first of equal extremes and skips NaNs
/// (unless the first value is one).
///
/// The range is `(x[lo], x[hi])`; when the two are equal the caller widens
/// it by half a unit on each side.
pub fn data_range_positions(x: &[u64]) -> (r: (usize, usize))
    requires
        x.len() >= 1,
    ensures
        is_first_minimum(x@, r.0 as int),
        is_first_maximum(x@, r.1 as int),
{
    let mut lo: usize = 0;
    let mut hi: usize = 0;
    let mut i: usize = 1;
    while i < x.len()
        invariant
            1 <= i <= x.len(),
            is_first_minimum(x@.take(i as int), lo as int),
            is_first_maximum(x@.take(i as int), hi as int),
        decreases x.len() - i,
    {
        let v = x[i];
        let ghost prefix = x@.take(i as int);
        let ghost next = x@.take(i as int + 1);
        let ghost (lo0, hi0) = (lo as int, hi as int);
        proof {
            assert(prefix[0] == next[0]);
            assert forall|j: int| 0 <= j < i implies prefix[j] == #[trigger] next[j] by {}
        }
        if float_lt(v, x[lo]) {
            proof {
                assert forall|j: int| 0 <= j < i implies #[trigger] ieee_lt(next[i as int], next[j])
                    || is_nan(next[j]) by {
                    if !is_nan(next[j]) {
                        assert(!ieee_lt(prefix[j], prefix[lo0]));
                        lemma_lt_or_ge(prefix[j], prefix[lo0]);
                        lemma_lt_le_trans(v, prefix[lo0], prefix[j]);
                    }
                }
                assert forall|j: int| 0 <= j < i + 1 implies !#[trigger] ieee_lt(next[j], next[i as int]) by {
                    if j < i && !is_nan(next[j]) {
                        assert(ieee_lt(next[i as int], next[j]));
                        lemma_lt_or_ge(next[j], next[i as int]);
                    }
                }
            }
            lo = i;
        } else {
            proof {
                assert forall|j: int| 0 <= j < i + 1 implies !#[trigger] ieee_lt(next[j], next[lo0]) by {
                    if j < i {
                        assert(!ieee_lt(prefix[j], prefix[lo0]));
                    }
                }
            }
        }
        if float_lt(x[hi], v) {
            proof {
                assert forall|j: int| 0 <= j < i implies #[trigger] ieee_lt(next[j], next[i as int])
                    || is_nan(next[j]) by {
                    if !is_nan(next[j]) {
                        assert(!ieee_lt(prefix[hi0], prefix[j]));
                        lemma_lt_or_ge(prefix[hi0], prefix[j]);
                        crate::ieee::lemma_le_lt_trans(prefix[j], prefix[hi0], v);
                    }
                }
                assert forall|j: int| 0 <= j < i + 1 implies !#[trigger] ieee_lt(next[i as int], next[j]) by {
                    if j < i && !is_nan(next[j]) {
                        assert(ieee_lt(next[j], next[i as int]));
                        lemma_lt_or_ge(next[i as int], next[j]);
                    }
                }
            }
            hi = i;
        } else {
            proof {
                assert forall|j: int| 0 <= j < i + 1 implies !#[trigger] ieee_lt(next[hi0], next[j]) by {
                    if j < i {
                        assert(!ieee_lt(prefix[hi0], prefix[j]));
                    }
                }
            }
        }
        i = i + 1;
    }
    assert(x@.take(x.len() as int) =~= x@);
    (lo, hi)
}

/// The data range covers the data: unless the first value is a NaN (which
/// then stands for both ends), neither end is a NaN and every value that is
/// not a NaN lies between them.
pub proof fn lemma_data_range_covers(x: Seq<u64>, lo: int, hi: int)
    requires
        is_first_minimum(x, lo),
        is_first_maximum(x, hi),
        !is_nan(x[0]),
    ensures
        !is_nan(x[lo]),
        !is_nan(x[hi]),
        forall|j: int| 0 <= j < x.len() && !is_nan(x[j]) ==> ieee_le(x[lo], #[trigger] x[j]) && ieee_le(x[j], x[hi]),
{
    if lo > 0 {
        assert(ieee_lt(x[lo], x[0]) || is_nan(x[0]));
    }
    if hi > 0 {
        assert(ieee_lt(x[0], x[hi]) || is_nan(x[0]));
    }
    assert forall|j: int| 0 <= j < x.len() && !is_nan(x[j]) implies ieee_le(x[lo], #[trigger] x[j])
        && ieee_le(x[j], x[hi]) by {
        assert(!ieee_lt(x[j], x[lo]));
        assert(!ieee_lt(x[hi], x[j]));
        lemma_lt_or_ge(x[j], x[lo]);
        lemma_lt_or_ge(x[hi], x[j]);
    }
}

/// The positions of the data range are determined by the data.
pub proof fn lemma_data_range_unique(x: Seq<u64>, k1: int, k2: int)
    ensures
        is_first_minimum(x, k1) && is_first_minimum(x, k2) ==> k1 == k2,
        is_first_maximum(x, k1) && is_first_maximum(x, k2) ==> k1 == k2,
{
    if is_first_minimum(x, k1) && is_first_minimum(x, k2) && k1 != k2 {
        let (a, b) = if k1 < k2 {
            (k1, k2)
        } else {
            (k2, k1)
        };
        assert(ieee_lt(x[b], x[a]) || is_nan(x[a]));
        if is_nan(x[a]) {
            if a > 0 {
                assert(ieee_lt(x[a], x[0]) || is_nan(x[0]));
            }
        }
        assert(!ieee_lt(x[b], x[a]));
    }
    if is_first_maximum(x, k1) && is_first_maximum(x, k2) && k1 != k2 {
        let (a, b) = if k1 < k2 {
            (k1, k2)
        } else {
            (k2, k1)
        };
        assert(ieee_lt(x[a], x[b]) || is_nan(x[a]));
        if is_nan(x[a]) {
            if a > 0 {
                assert(ieee_lt(x[0], x[a]) || is_nan(x[0]));
            }
        }
        assert(!ieee_lt(x[a], x[b]));
    }
}

/// `d` is a point where `edges[d - 1] <= v` and `!(edges[d] <= v)`, the ends
/// counting as such, with `<=` in numpy's order (`sorts_at_or_below`, where a
/// NaN is above everything else): what numpy's `digitize` (a binary search
/// for the partition point of `edge <= v`) returns.
pub open spec fn is_boundary(edges: Seq<u64>, v: u64, d: int) -> bool {
    &&& 0 <= d <= edges.len()
    &&& (d == 0 || sorts_at_or_below(edges[d - 1], v))
    &&& (d == edges.len() || !sorts_at_or_below(edges[d], v))
}

/// `edges` is partitioned by `edge <= v` (in numpy's order): all edges at or
/// below `v` come before all the others.
pub open spec fn partitioned(edges: Seq<u64>, v: u64) -> bool {
    forall|i: int, j: int|
        0 <= i < j < edges.len() && #[trigger] sorts_at_or_below(edges[j], v) ==> #[trigger] sorts_at_or_below(edges[i], v)
}

/// The edges are ascending, and none is a NaN.
pub open spec fn ascending(edges: Seq<u64>) -> bool {
    &&& forall|i: int| 0 <= i < edges.len() ==> !is_nan(#[trigger] edges[i])
    &&& forall|i: int, j: int| 0 <= i < j < edges.len() ==> #[trigger] ieee_le(edges[i], edges[j])
}

/// `np.digitize(v, edges)` with `right=False`: the partition point of
/// `edge <= v` in numpy's order, found by binary search. For ascending edges
/// it is the index `i` with `edges[i-1] <= v < edges[i]`, `0` below the first
/// edge and `edges.len()` at or above the last (`lemma_digitize_brackets`); a
/// NaN sorts above every edge and gets `edges.len()`.
pub fn digitize(v: u64, edges: &[u64]) -> (d: usize)
    ensures
        is_boundary(edges@, v, d as int),
{
    let mut lo: usize = 0;
    let mut hi: usize = edges.len();
    while lo < hi
        invariant
            0 <= lo <= hi <= edges.len(),
            lo == 0 || sorts_at_or_below(edges@[lo - 1], v),
            hi == edges.len() || !sorts_at_or_below(edges@[hi as int], v),
        decreases hi - lo,
    {
        let mid = lo + (hi - lo) / 2;
        if float_sorts_at_or_below(edges[mid], v) {
            lo = mid + 1;
        } else {
            hi = mid;
        }
    }
    lo
}

/// Where the edges are partitioned by `edge <= v`, the boundary is unique:
/// it is the number of edges at or below `v`.
pub proof fn lemma_boundary_is_partition_point(edges: Seq<u64>, v: u64, d: int)
    requires
        partitioned(edges, v),
        is_boundary(edges, v, d),
    ensures
        forall|i: int| 0 <= i < d ==> #[trigger] sorts_at_or_below(edges[i], v),
        forall|i: int| d <= i < edges.len() ==> !#[trigger] sorts_at_or_below(edges[i], v),
        forall|d2: int| #[trigger] is_boundary(edges, v, d2) ==> d2 == d,
{
    assert forall|i: int| 0 <= i < d implies #[trigger] sorts_at_or_below(edges[i], v) by {
        if i < d - 1 {
            assert(sorts_at_or_below(edges[d - 1], v));
        }
    }
    assert forall|i: int| d <= i < edges.len() implies !#[trigger] sorts_at_or_below(edges[i], v) by {
        if i > d && sorts_at_or_below(edges[i], v) {
            assert(sorts_at_or_below(edges[d], v));
        }
    }
    assert forall|d2: int| #[trigger] is_boundary(edges, v, d2) implies d2 == d by {
        if d2 < d {
            assert(sorts_at_or_below(edges[d2], v));
        }
        if d2 > d {
            assert(!sorts_at_or_below(edges[d2 - 1], v));
        }
    }
}

/// For ascending edges and a value that is not a NaN, the bin number of
/// `digitize` brackets the value: `edges[d-1] <= v < edges[d]`, with `d == 0`
/// exactly below the first edge and `d == edges.len()` exactly at or above the
/// last.
pub proof fn lemma_digitize_brackets(edges: Seq<u64>, v: u64, d: int)
    requires
        ascending(edges),
        !is_nan(v),
        is_boundary(edges, v, d),
    ensures
        d < edges.len() ==> ieee_lt(v, edges[d]),
        forall|d2: int| #[trigger] is_boundary(edges, v, d2) ==> d2 == d,
        edges.len() > 0 ==> (d == 0 <==> ieee_lt(v, edges[0])),
        edges.len() > 0 ==> (d == edges.len() <==> ieee_le(edges[edges.len() - 1], v)),
{
    assert forall|i: int, j: int|
        0 <= i < j < edges.len() && #[trigger] sorts_at_or_below(edges[j], v) implies #[trigger] sorts_at_or_below(
        edges[i],
        v,
    ) by {
        lemma_le_trans(edges[i], edges[j], v);
    }
    lemma_boundary_is_partition_point(edges, v, d);
    if d < edges.len() {
        lemma_lt_or_ge(v, edges[d]);
    }
    if edges.len() > 0 {
        lemma_lt_or_ge(v, edges[0]);
        if d > 0 {
            assert(sorts_at_or_below(edges[0], v));
        }
        let last = edges[edges.len() - 1];
        assert(!is_nan(last));
        if d == edges.len() {
            assert(sorts_at_or_below(last, v));
        }
        if ieee_le(last, v) && d < edges.len() {
            assert(sorts_at_or_below(last, v));
        }
    }
}

/// scipy's rightmost-edge correction applied to a `digitize` result `d`: a
/// value at or above the last edge that rounds to it (at the edge-rounding
/// precision) is pulled from the upper outlier bin into the last real bin.
pub open spec fn corrected_bin(edges: Seq<u64>, v: u64, rounds_to_last: bool, d: int) -> int {
    if d > 0 && rounds_to_last && ieee_le(edges[edges.len() - 1], v) {
        d - 1
    } else {
        d
    }
}

/// The 1-based bin number of one value, as scipy's `_bin_numbers` gives it:
/// `digitize`, then a value on the rightmost edge is pulled into the last
/// real bin. `rounds_to_last` says whether the value and the last edge are
/// equal after rounding to scipy's precision (`round_to`), which the caller
/// computes.
///
/// `0` is below the range, `1..=nbins` a real bin, `nbins + 1` above the
/// range (`lemma_bin_number_ranges`).
pub fn bin_number(v: u64, edges: &[u64], rounds_to_last: bool) -> (r: usize)
    requires
        edges.len() >= 1,
    ensures
        exists|d: int| #[trigger] is_boundary(edges@, v, d) && r == corrected_bin(edges@, v, rounds_to_last, d),
{
    let d = digitize(v, edges);
    let last = edges[edges.len() - 1];
    if d > 0 && rounds_to_last && float_le(last, v) {
        d - 1
    } else {
        d
    }
}

/// The bin numbers partition the values: for ascending edges, a value below
/// the first edge gets `0`, a NaN the upper outlier bin `edges.len()`, a value in `[edges[i-1], edges[i])`
/// gets `i`, and a value at or above the last edge gets `edges.len()` (the
/// upper outlier bin), or `edges.len() - 1` (the last real bin) when it
/// rounds to the last edge.
pub proof fn lemma_bin_number_ranges(edges: Seq<u64>, v: u64, rounds_to_last: bool, r: int)
    requires
        ascending(edges),
        edges.len() >= 2,
        exists|d: int| #[trigger] is_boundary(edges, v, d) && r == corrected_bin(edges, v, rounds_to_last, d),
    ensures
        0 <= r <= edges.len(),
        is_nan(v) ==> r == edges.len(),
        !is_nan(v) && ieee_lt(v, edges[0]) ==> r == 0,
        !is_nan(v) && ieee_le(edges[0], v) && ieee_lt(v, edges[edges.len() - 1]) ==> {
            &&& 1 <= r < edges.len()
            &&& ieee_le(edges[r - 1], v)
            &&& ieee_lt(v, edges[r])
        },
        !is_nan(v) && ieee_le(edges[edges.len() - 1], v) ==> r == if rounds_to_last {
            edges.len() - 1
        } else {
            edges.len() as int
        },
{
    let d = choose|d: int| #[trigger] is_boundary(edges, v, d) && r == corrected_bin(edges, v, rounds_to_last, d);
    if is_nan(v) {
        if d < edges.len() {
            assert(sorts_at_or_below(edges[d], v));
        }
    } else {
        lemma_digitize_brackets(edges, v, d);
        let last = edges[edges.len() - 1];
        if ieee_le(edges[0], v) && ieee_lt(v, last) {
            lemma_lt_or_ge(v, last);
            assert(d < edges.len());
            assert(d > 0);
        }
    }
}

/// Bin numbers never decrease as the value grows: for ascending edges and
/// values `v1 <= v2` (neither a NaN), the bin of `v1` is at most the bin of
/// `v2`, provided the rounding to the last edge is monotone too (a value at or
/// above the last edge that rounds to it has every smaller such value round
/// to it as well).
pub proof fn lemma_bin_number_monotone(
    edges: Seq<u64>,
    v1: u64,
    f1: bool,
    r1: int,
    v2: u64,
    f2: bool,
    r2: int,
)
    requires
        ascending(edges),
        edges.len() >= 2,
        !is_nan(v1),
        !is_nan(v2),
        ieee_le(v1, v2),
        (f2 && ieee_le(edges[edges.len() - 1], v1)) ==> f1,
        exists|d: int| #[trigger] is_boundary(edges, v1, d) && r1 == corrected_bin(edges, v1, f1, d),
        exists|d: int| #[trigger] is_boundary(edges, v2, d) && r2 == corrected_bin(edges, v2, f2, d),
    ensures
        r1 <= r2,
{
    let n = edges.len() as int;
    let last = edges[n - 1];
    lemma_bin_number_ranges(edges, v1, f1, r1);
    lemma_bin_number_ranges(edges, v2, f2, r2);
    lemma_lt_or_ge(v1, edges[0]);
    lemma_lt_or_ge(v1, last);
    lemma_lt_or_ge(v2, last);
    if ieee_le(last, v1) {
        lemma_le_trans(last, v1, v2);
    } else if ieee_le(edges[0], v1) {
        if ieee_lt(v2, last) {
            lemma_le_trans(edges[0], v1, v2);
            if r2 < r1 {
                assert(ieee_le(edges[r2], edges[r1 - 1]) || r2 == r1 - 1);
                assert(ieee_le(edges[r1 - 1], v1));
                lemma_le_trans(edges[r2], edges[r1 - 1], v1);
                lemma_le_trans(edges[r2], v1, v2);
                lemma_lt_or_ge(v2, edges[r2]);
            }
        }
    }
}

/// For non-negative finite edges and a non-negative finite value (sign bit
/// clear, exponent bits not all set), the boundary that `digitize` finds
/// brackets the value in the order of the bit patterns, which for such
/// numbers is the order of their values: `edges[d-1] <= v < edges[d]`.
pub proof fn lemma_digitize_nonnegative_by_bits(edges: Seq<u64>, v: u64, d: int)
    requires
        forall|i: int|
            0 <= i < edges.len() ==> (#[trigger] edges[i] >> 63u64) == 0 && ((edges[i] >> 52u64)
                & 0x7FFu64) != 0x7FFu64,
        (v >> 63u64) == 0,
        ((v >> 52u64) & 0x7FFu64) != 0x7FFu64,
        is_boundary(edges, v, d),
    ensures
        d == 0 || edges[d - 1] <= v,
        d == edges.len() || v < edges[d],
{
    crate::ieee::lemma_nan_by_fields(v);
    if d > 0 {
        let e = edges[d - 1];
        crate::ieee::lemma_nan_by_fields(e);
        crate::ieee::lemma_total_key_follows_bits(v, e);
        crate::ieee::lemma_total_key_follows_bits(e, v);
        assert(sorts_at_or_below(e, v));
        assert((e >> 63u64) == 0 && (v >> 63u64) == 0 && (e & 0x7FFF_FFFF_FFFF_FFFFu64) == 0 && (v
            & 0x7FFF_FFFF_FFFF_FFFFu64) == 0 ==> e == v) by (bit_vector);
    }
    if d < edges.len() {
        let e = edges[d];
        crate::ieee::lemma_nan_by_fields(e);
        crate::ieee::lemma_total_key_follows_bits(e, v);
        crate::ieee::lemma_total_key_follows_bits(v, e);
        assert(!sorts_at_or_below(e, v));
    }
}

} // verus!
