//! Per-bin reductions that need no arithmetic on the values: how many samples
//! each bin holds, which sample is a bin's least or greatest, and which two
//! samples are a bin's middle ones.
//!
//! Bins are numbered in the flat layout of the bin numbers: `0` below the
//! range, `1..=nbins` the real bins, `nbins + 1` above the range. The results
//! handed back are for the real bins only, as `binned_statistic` reports
//! them. Samples are compared in numpy's sort order (see `ieee`), with ties
//! broken by position, exactly as a stable sort leaves them.

use crate::ieee::{numpy_cmp, numpy_key, numpy_order_key};
use std::cmp::Ordering;
use vstd::prelude::*;

verus! {

/// The number of entries of `s` equal to `b`.
pub open spec fn bin_size(s: Seq<usize>, b: int) -> nat
    decreases s.len(),
{
    if s.len() == 0 {
        0
    } else {
        bin_size(s.drop_last(), b) + if s.last() == b {
            1nat
        } else {
            0nat
        }
    }
}

/// The sum of `bin_size(s, b)` over the bins `b < k`.
pub open spec fn total_size(s: Seq<usize>, k: int) -> nat
    decreases k,
{
    if k <= 0 {
        0
    } else {
        total_size(s, k - 1) + bin_size(s, k - 1)
    }
}

/// Every bin number of `s` is below `flat`.
pub open spec fn all_below(s: Seq<usize>, flat: int) -> bool {
    forall|i: int| 0 <= i < s.len() ==> #[trigger] s[i] < flat
}

/// Sample `i` (one of the first `n`) falls in bin `b`.
pub open spec fn in_bin(binnumber: Seq<usize>, n: int, i: int, b: int) -> bool {
    0 <= i < n && binnumber[i] == b
}

/// Sample `i` comes before sample `j` in numpy's sort order, ties broken by
/// position.
pub open spec fn precedes(values: Seq<u64>, i: int, j: int) -> bool {
    ||| numpy_key(values[i]) < numpy_key(values[j])
    ||| (numpy_key(values[i]) == numpy_key(values[j]) && i < j)
}

/// `j` is the sample of bin `b` that comes last in the order of `precedes`.
pub open spec fn is_greatest_in_bin(values: Seq<u64>, binnumber: Seq<usize>, b: int, j: int) -> bool {
    &&& in_bin(binnumber, values.len() as int, j, b)
    &&& forall|i: int|
        in_bin(binnumber, values.len() as int, i, b) && i != j ==> #[trigger] precedes(values, i, j)
}

/// `j` is the sample of bin `b` that comes first in the order of `precedes`.
pub open spec fn is_least_in_bin(values: Seq<u64>, binnumber: Seq<usize>, b: int, j: int) -> bool {
    &&& in_bin(binnumber, values.len() as int, j, b)
    &&& forall|i: int|
        in_bin(binnumber, values.len() as int, i, b) && i != j ==> #[trigger] precedes(values, j, i)
}

/// Which extreme of a bin to take.
#[derive(Copy, Clone, Debug, PartialEq, Eq, Structural)]
pub enum Extreme {
    Min,
    Max,
}

/// The bin numbers are usable for `values`: one per sample (extra ones are
/// ignored), each within the flat layout of `nbins` real bins.
pub open spec fn bins_fit(values: Seq<u64>, binnumber: Seq<usize>, nbins: int) -> bool {
    &&& values.len() <= binnumber.len()
    &&& nbins + 2 <= usize::MAX
    &&& forall|i: int| 0 <= i < values.len() ==> #[trigger] binnumber[i] < nbins + 2
}

/// `np.bincount(binnumber)` with integer counts: `counts[b]` is the number of
/// samples whose bin number is `b`, for every `b` of the flat layout.
pub fn bincount(binnumber: &[usize], flat: usize) -> (counts: Vec<usize>)
    requires
        all_below(binnumber@, flat as int),
    ensures
        counts.len() == flat,
        forall|b: int| 0 <= b < flat ==> #[trigger] counts[b] == bin_size(binnumber@, b),
{
    let mut counts: Vec<usize> = Vec::new();
    let mut k: usize = 0;
    while k < flat
        invariant
            k <= flat,
            counts.len() == k,
            forall|b: int| 0 <= b < k ==> #[trigger] counts[b] == 0,
        decreases flat - k,
    {
        counts.push(0);
        k = k + 1;
    }
    assert forall|b: int| 0 <= b < flat implies #[trigger] counts[b] == bin_size(
        binnumber@.take(0),
        b,
    ) by {}
    let mut i: usize = 0;
    while i < binnumber.len()
        invariant
            i <= binnumber.len(),
            all_below(binnumber@, flat as int),
            counts.len() == flat,
            forall|b: int|
                0 <= b < flat ==> #[trigger] counts[b] == bin_size(binnumber@.take(i as int), b),
            forall|b: int| 0 <= b < flat ==> #[trigger] counts[b] <= i,
        decreases binnumber.len() - i,
    {
        let b = binnumber[i];
        assert(binnumber@[i as int] < flat);
        assert(binnumber@.take(i as int + 1).drop_last() =~= binnumber@.take(i as int));
        counts.set(b, counts[b] + 1);
        i = i + 1;
    }
    assert(binnumber@.take(binnumber.len() as int) =~= binnumber@);
    counts
}

/// scipy's per-bin `count` (an unweighted histogram): the number of samples
/// in each real bin; an empty bin counts `0`.
pub fn count(binnumber: &[usize], flat: usize, nbins: usize) -> (r: Vec<usize>)
    requires
        all_below(binnumber@, flat as int),
        nbins < flat,
    ensures
        r.len() == nbins,
        forall|k: int| 0 <= k < nbins ==> #[trigger] r[k] == bin_size(binnumber@, k + 1),
{
    let counts = bincount(binnumber, flat);
    let r = core_bins(&counts, nbins);
    assert forall|k: int| 0 <= k < nbins implies #[trigger] r[k] == bin_size(binnumber@, k + 1) by {
        assert(r@[k] == counts@[k + 1]);
    }
    r
}

/// A bin is empty (its size is `0`) exactly when no sample has its number.
pub proof fn lemma_empty_bin(s: Seq<usize>, b: int)
    ensures
        (bin_size(s, b) == 0) <==> (forall|i: int| 0 <= i < s.len() ==> #[trigger] s[i] != b),
    decreases s.len(),
{
    if s.len() > 0 {
        let p = s.drop_last();
        lemma_empty_bin(p, b);
        if forall|i: int| 0 <= i < s.len() ==> #[trigger] s[i] != b {
            assert forall|i: int| 0 <= i < p.len() implies #[trigger] p[i] != b by {
                assert(s[i] == p[i]);
            }
        }
        if bin_size(s, b) == 0 {
            assert forall|i: int| 0 <= i < s.len() implies #[trigger] s[i] != b by {
                if i < p.len() {
                    assert(p[i] == s[i]);
                }
            }
        }
    }
}

/// Every sample is counted in exactly one bin: the bin sizes over the flat
/// layout add up to the number of samples.
pub proof fn lemma_counts_add_up(binnumber: Seq<usize>, flat: int)
    requires
        all_below(binnumber, flat),
        flat >= 0,
    ensures
        total_size(binnumber, flat) == binnumber.len(),
    decreases binnumber.len(),
{
    if binnumber.len() == 0 {
        lemma_total_size_empty(binnumber, flat);
    } else {
        let s = binnumber.drop_last();
        assert(all_below(s, flat));
        lemma_counts_add_up(s, flat);
        lemma_total_size_push(s, binnumber.last(), flat);
        assert(s.push(binnumber.last()) =~= binnumber);
    }
}

proof fn lemma_total_size_empty(s: Seq<usize>, k: int)
    requires
        s.len() == 0,
    ensures
        total_size(s, k) == 0,
    decreases k,
{
    if k > 0 {
        lemma_total_size_empty(s, k - 1);
    }
}

proof fn lemma_total_size_push(s: Seq<usize>, x: usize, k: int)
    ensures
        total_size(s.push(x), k) == total_size(s, k) + if 0 <= x < k {
            1nat
        } else {
            0nat
        },
    decreases k,
{
    assert(s.push(x).drop_last() =~= s);
    if k > 0 {
        lemma_total_size_push(s, x, k - 1);
    }
}

/// The real bins of a flat per-bin result: entries `1..=nbins`, without the
/// two outlier bins.
pub fn core_bins<T: Copy>(flat: &[T], nbins: usize) -> (r: Vec<T>)
    requires
        nbins < flat.len(),
    ensures
        r@ == flat@.subrange(1, nbins + 1),
{
    let mut r: Vec<T> = Vec::new();
    let mut k: usize = 1;
    while k <= nbins
        invariant
            1 <= k <= nbins + 1,
            nbins < flat.len(),
            r@ == flat@.subrange(1, k as int),
        decreases nbins + 1 - k,
    {
        r.push(flat[k]);
        k = k + 1;
        assert(r@ =~= flat@.subrange(1, k as int));
    }
    r
}

/// `j` is the sample of bin `b` that `which` asks for: the greatest for
/// `Max`, the least for `Min`.
pub open spec fn is_extreme_in_bin(
    values: Seq<u64>,
    binnumber: Seq<usize>,
    which: Extreme,
    b: int,
    j: int,
) -> bool {
    if which == Extreme::Max {
        is_greatest_in_bin(values, binnumber, b, j)
    } else {
        is_least_in_bin(values, binnumber, b, j)
    }
}

/// Sample `q` gives way to sample `j` as the extreme `which` asks for.
spec fn yields_to(values: Seq<u64>, which: Extreme, q: int, j: int) -> bool {
    if which == Extreme::Max {
        precedes(values, q, j)
    } else {
        precedes(values, j, q)
    }
}

/// `best` is the extreme of bin `b` among the first `upto` samples, or
/// `None` if none of them is in bin `b`.
spec fn extreme_so_far(
    values: Seq<u64>,
    binnumber: Seq<usize>,
    which: Extreme,
    b: int,
    upto: int,
    best: Option<usize>,
) -> bool {
    match best {
        None => forall|q: int| 0 <= q < upto ==> binnumber[q] != b,
        Some(j) => {
            &&& j < upto
            &&& binnumber[j as int] == b
            &&& forall|q: int|
                0 <= q < upto && binnumber[q] == b && q != j ==> #[trigger] yields_to(
                    values,
                    which,
                    q,
                    j as int,
                )
        },
    }
}

/// scipy's per-bin `min` / `max`: for each real bin, the bit pattern of the
/// sample that comes first (for `Min`) or last (for `Max`) in numpy's sort
/// order, ties broken by position; `None` for an empty bin.
///
/// This is the value that scipy's argsort-and-scatter leaves as the last
/// write in each bin: a stable ascending sort for `max`, reversed for `min`.
pub fn extreme(values: &[u64], binnumber: &[usize], nbins: usize, which: Extreme) -> (r: Vec<
    Option<u64>,
>)
    requires
        bins_fit(values@, binnumber@, nbins as int),
    ensures
        r.len() == nbins,
        forall|k: int|
            0 <= k < nbins ==> match #[trigger] r[k] {
                None => forall|i: int| !#[trigger] in_bin(binnumber@, values.len() as int, i, k + 1),
                Some(v) => exists|j: int|
                    is_extreme_in_bin(values@, binnumber@, which, k + 1, j) && v == values@[j],
            },
{
    let flat = nbins + 2;
    let n = values.len();
    let mut best: Vec<Option<usize>> = Vec::new();
    let mut k: usize = 0;
    while k < flat
        invariant
            k <= flat,
            best.len() == k,
            forall|b: int| 0 <= b < k ==> #[trigger] best[b] is None,
        decreases flat - k,
    {
        best.push(None);
        k = k + 1;
    }
    let mut i: usize = 0;
    while i < n
        invariant
            i <= n,
            n == values.len(),
            flat == nbins + 2,
            bins_fit(values@, binnumber@, nbins as int),
            best.len() == flat,
            forall|b: int|
                0 <= b < flat ==> #[trigger] extreme_so_far(
                    values@,
                    binnumber@,
                    which,
                    b,
                    i as int,
                    best[b],
                ),
        decreases n - i,
    {
        let b = binnumber[i];
        assert(binnumber@[i as int] < flat);
        assert(extreme_so_far(values@, binnumber@, which, b as int, i as int, best@[b as int]));
        let replace = match best[b] {
            None => true,
            Some(j) => {
                let kj = numpy_order_key(values[j]);
                let ki = numpy_order_key(values[i]);
                match which {
                    Extreme::Max => kj <= ki,
                    Extreme::Min => ki < kj,
                }
            },
        };
        let ghost before = best@;
        if replace {
            best.set(b, Some(i));
        }
        proof {
            let ii = i as int;
            assert forall|c: int| 0 <= c < flat implies #[trigger] extreme_so_far(
                values@,
                binnumber@,
                which,
                c,
                ii + 1,
                best@[c],
            ) by {
                assert(extreme_so_far(values@, binnumber@, which, c, ii, before[c]));
                if c != b as int {
                    assert(best@[c] == before[c]);
                } else {
                    match before[c] {
                        None => {},
                        Some(j) => {
                            let j = j as int;
                            if replace {
                                assert(yields_to(values@, which, j, ii));
                                assert forall|q: int|
                                    0 <= q < ii + 1 && binnumber@[q] == c && q != ii implies #[trigger] yields_to(
                                    values@,
                                    which,
                                    q,
                                    ii,
                                ) by {
                                    if q != j {
                                        assert(yields_to(values@, which, q, j));
                                    }
                                }
                            } else {
                                assert(yields_to(values@, which, ii, j));
                            }
                        },
                    }
                }
            }
        }
        i = i + 1;
    }
    let mut r: Vec<Option<u64>> = Vec::new();
    let mut k: usize = 1;
    while k <= nbins
        invariant
            1 <= k <= nbins + 1,
            n == values.len(),
            flat == nbins + 2,
            bins_fit(values@, binnumber@, nbins as int),
            best.len() == flat,
            forall|b: int|
                0 <= b < flat ==> #[trigger] extreme_so_far(
                    values@,
                    binnumber@,
                    which,
                    b,
                    n as int,
                    best[b],
                ),
            r.len() == k - 1,
            forall|c: int|
                0 <= c < k - 1 ==> match #[trigger] r[c] {
                    None => forall|i: int|
                        !#[trigger] in_bin(binnumber@, values.len() as int, i, c + 1),
                    Some(v) => exists|j: int|
                        is_extreme_in_bin(values@, binnumber@, which, c + 1, j) && v == values@[j],
                },
        decreases nbins + 1 - k,
    {
        assert(extreme_so_far(values@, binnumber@, which, k as int, n as int, best@[k as int]));
        let e = match best[k] {
            None => None,
            Some(j) => Some(values[j]),
        };
        proof {
            let kk = k as int;
            assert(extreme_so_far(values@, binnumber@, which, kk, n as int, best@[kk]));
            match best@[kk] {
                None => {
                    assert forall|i: int| !#[trigger] in_bin(
                        binnumber@,
                        values.len() as int,
                        i,
                        kk,
                    ) by {}
                },
                Some(j) => {
                    let j = j as int;
                    if which == Extreme::Max {
                        assert forall|i: int|
                            in_bin(binnumber@, values.len() as int, i, kk) && i
                                != j implies #[trigger] precedes(values@, i, j) by {
                            assert(yields_to(values@, which, i, j));
                        }
                    } else {
                        assert forall|i: int|
                            in_bin(binnumber@, values.len() as int, i, kk) && i
                                != j implies #[trigger] precedes(values@, j, i) by {
                            assert(yields_to(values@, which, i, j));
                        }
                    }
                    assert(is_extreme_in_bin(values@, binnumber@, which, kk, j));
                },
            }
        }
        r.push(e);
        k = k + 1;
    }
    r
}

/// `s` lists the samples of bin `b`, each once, in the order of `precedes`.
pub open spec fn enumerates_bin(s: Seq<usize>, values: Seq<u64>, binnumber: Seq<usize>, b: int) -> bool {
    &&& forall|k: int| 0 <= k < s.len() ==> in_bin(binnumber, values.len() as int, #[trigger] s[k] as int, b)
    &&& forall|i: int| #[trigger] in_bin(binnumber, values.len() as int, i, b) ==> s.contains(i as usize)
    &&& forall|k: int, l: int|
        0 <= k < l < s.len() ==> #[trigger] precedes(values, s[k] as int, s[l] as int)
}

/// `(lo, hi)` are the two middle samples of bin `b` in numpy's sort order:
/// those at positions `floor((n - 1) / 2)` and `ceil((n - 1) / 2)` of the
/// bin's `n` samples. For an odd `n` both are the same sample.
pub open spec fn middle_pair(values: Seq<u64>, binnumber: Seq<usize>, b: int, lo: u64, hi: u64) -> bool {
    exists|s: Seq<usize>|
        {
            &&& #[trigger] enumerates_bin(s, values, binnumber, b)
            &&& s.len() > 0
            &&& lo == values[s[(s.len() - 1) / 2] as int]
            &&& hi == values[s[s.len() as int / 2] as int]
        }
}

/// The order in which the median sorts samples: by bin number, then in
/// numpy's sort order, then by position (what a stable sort of the positions
/// keeps).
pub open spec fn sorted_le(values: Seq<u64>, binnumber: Seq<usize>, a: int, b: int) -> bool {
    ||| binnumber[a] < binnumber[b]
    ||| (binnumber[a] == binnumber[b] && (a == b || precedes(values, a, b)))
}

/// `sorted_le` for two positions.
pub open spec fn sorted_le_at(values: Seq<u64>, binnumber: Seq<usize>, a: usize, b: usize) -> bool {
    sorted_le(values, binnumber, a as int, b as int)
}

/// The three-way comparison of two samples in the order of `sorted_le`.
pub open spec fn sorted_order(values: Seq<u64>, binnumber: Seq<usize>, a: usize, b: usize) -> Ordering {
    if a == b {
        Ordering::Equal
    } else if sorted_le_at(values, binnumber, a, b) {
        Ordering::Less
    } else {
        Ordering::Greater
    }
}

/// The bin number of sample `a`.
pub open spec fn bin_of(binnumber: Seq<usize>, a: usize) -> usize {
    binnumber[a as int]
}

/// The position of sample `a` in numpy's sort order.
pub open spec fn key_of(values: Seq<u64>, a: usize) -> u64 {
    numpy_key(values[a as int])
}

/// Compares samples `a` and `b` by bin number, then in numpy's sort order,
/// then by position: np.lexsort((values, binnumber)) on a stable sort.
pub fn median_order(values: &[u64], binnumber: &[usize], a: usize, b: usize) -> (r: Ordering)
    requires
        a < values.len(),
        b < values.len(),
        values.len() <= binnumber.len(),
    ensures
        r == sorted_order(values@, binnumber@, a, b),
        (r == Ordering::Equal) <==> a == b,
        a != b ==> ((r == Ordering::Less) <==> sorted_le_at(values@, binnumber@, a, b)),
        bin_of(binnumber@, a) < bin_of(binnumber@, b) ==> r == Ordering::Less,
        bin_of(binnumber@, b) < bin_of(binnumber@, a) ==> r == Ordering::Greater,
        bin_of(binnumber@, a) == bin_of(binnumber@, b) && key_of(values@, a) < key_of(values@, b)
            ==> r == Ordering::Less,
        bin_of(binnumber@, a) == bin_of(binnumber@, b) && key_of(values@, b) < key_of(values@, a)
            ==> r == Ordering::Greater,
{
    if binnumber[a] < binnumber[b] {
        return Ordering::Less;
    }
    if binnumber[b] < binnumber[a] {
        return Ordering::Greater;
    }
    match numpy_cmp(values[a], values[b]) {
        Ordering::Less => Ordering::Less,
        Ordering::Greater => Ordering::Greater,
        Ordering::Equal => {
            if a < b {
                Ordering::Less
            } else if b < a {
                Ordering::Greater
            } else {
                Ordering::Equal
            }
        },
    }
}

/// The comparison that the median sorts with keeps bins apart: a sample of
/// a lower bin number (the lower outlier bin included) always comes before a
/// sample of a higher one, so each bin's samples form one run of the sorted
/// order; within a bin it follows numpy's order, then position.
pub proof fn lemma_sorted_order_keeps_bins_apart(
    values: Seq<u64>,
    binnumber: Seq<usize>,
    a: usize,
    b: usize,
)
    ensures
        bin_of(binnumber, a) < bin_of(binnumber, b) ==> sorted_order(values, binnumber, a, b)
            == Ordering::Less,
        bin_of(binnumber, b) < bin_of(binnumber, a) ==> sorted_order(values, binnumber, a, b)
            == Ordering::Greater,
        bin_of(binnumber, a) == bin_of(binnumber, b) && key_of(values, a) < key_of(values, b)
            ==> sorted_order(values, binnumber, a, b) == Ordering::Less,
        bin_of(binnumber, a) == bin_of(binnumber, b) && key_of(values, a) == key_of(values, b)
            && a < b ==> sorted_order(values, binnumber, a, b) == Ordering::Less,
        (sorted_order(values, binnumber, a, b) == Ordering::Less) <==> (sorted_order(
            values,
            binnumber,
            b,
            a,
        ) == Ordering::Greater),
        (sorted_order(values, binnumber, a, b) == Ordering::Equal) <==> a == b,
{
}

/// The order of `sorted_le` is a total order on positions: reflexive,
/// antisymmetric, transitive and total, so `median_order` is a comparison
/// that `slice::sort_by` can sort with.
pub proof fn lemma_sorted_le_total_order(values: Seq<u64>, binnumber: Seq<usize>, a: int, b: int, c: int)
    ensures
        sorted_le(values, binnumber, a, a),
        sorted_le(values, binnumber, a, b) && sorted_le(values, binnumber, b, a) ==> a == b,
        sorted_le(values, binnumber, a, b) && sorted_le(values, binnumber, b, c) ==> sorted_le(
            values,
            binnumber,
            a,
            c,
        ),
        sorted_le(values, binnumber, a, b) || sorted_le(values, binnumber, b, a),
{
}

/// `slice::sort_by` with `median_order` as the comparison.
///
/// The std documentation promises that `sort_by` sorts the slice (for a
/// comparison that is a total order, as `median_order` is) and only permutes
/// its elements; the contract states exactly that: the result holds the same
/// elements and lists them in non-decreasing order of `sorted_le`.
#[verifier::external_body]
fn sort_by_bin_then_value(order: &mut Vec<usize>, values: &[u64], binnumber: &[usize])
    requires
        values.len() <= binnumber.len(),
        forall|p: int| 0 <= p < old(order).len() ==> #[trigger] old(order)@[p] < values.len(),
    ensures
        final(order)@.to_multiset() == old(order)@.to_multiset(),
        forall|p: int, q: int|
            0 <= p < q < final(order)@.len() ==> sorted_le_at(
                values@,
                binnumber@,
                #[trigger] final(order)@[p],
                #[trigger] final(order)@[q],
            ),
{
    order.sort_by(|a, b| median_order(values, binnumber, *a, *b));
}

/// A rearrangement of the positions `0..n` holds each of them exactly once.
proof fn lemma_permutation_of_positions(arr: Seq<usize>, n: int)
    requires
        0 <= n <= usize::MAX,
        arr.to_multiset() == Seq::new(n as nat, |p: int| p as usize).to_multiset(),
    ensures
        arr.len() == n,
        forall|p: int| 0 <= p < arr.len() ==> #[trigger] arr[p] < n,
        forall|j: int| 0 <= j < n ==> #[trigger] arr.contains(j as usize),
        arr.no_duplicates(),
{
    broadcast use vstd::seq_lib::group_to_multiset_ensures;

    let ids = Seq::new(n as nat, |p: int| p as usize);
    assert(arr.to_multiset().len() == ids.to_multiset().len());
    assert(ids.len() == arr.len());
    assert forall|p: int| 0 <= p < arr.len() implies #[trigger] arr[p] < n by {
        assert(arr.contains(arr[p]));
        assert(arr.to_multiset().count(arr[p]) > 0);
        assert(ids.contains(arr[p]));
    }
    assert forall|j: int| 0 <= j < n implies #[trigger] arr.contains(j as usize) by {
        assert(ids[j] == j as usize);
        assert(ids.contains(j as usize));
        assert(ids.to_multiset().count(j as usize) > 0);
    }
    assert(ids.no_duplicates());
    ids.lemma_multiset_has_no_duplicates();
    arr.lemma_multiset_has_no_duplicates_conv();
}

/// The facts about the sorted positions that the median relies on.
spec fn sorted_positions(arr: Seq<usize>, values: Seq<u64>, binnumber: Seq<usize>) -> bool {
    &&& arr.len() == values.len()
    &&& forall|p: int| 0 <= p < arr.len() ==> #[trigger] arr[p] < values.len()
    &&& forall|j: int| 0 <= j < values.len() ==> #[trigger] arr.contains(j as usize)
    &&& arr.no_duplicates()
    &&& forall|p: int, q: int|
        0 <= p < q < arr.len() ==> sorted_le(values, binnumber, #[trigger] arr[p] as int, #[trigger] arr[q] as int)
}

/// scipy's per-bin median, up to the final average: for each real bin, the
/// bit patterns of its two middle samples in numpy's sort order (the same
/// sample twice for an odd count); `None` for an empty bin.
///
/// The median of a non-empty bin is the mean of the pair.
pub fn median_pairs(values: &[u64], binnumber: &[usize], nbins: usize) -> (r: Vec<Option<(u64, u64)>>)
    requires
        bins_fit(values@, binnumber@, nbins as int),
    ensures
        r.len() == nbins,
        forall|k: int|
            0 <= k < nbins ==> match #[trigger] r[k] {
                None => forall|i: int| !#[trigger] in_bin(binnumber@, values.len() as int, i, k + 1),
                Some(pair) => middle_pair(values@, binnumber@, k + 1, pair.0, pair.1),
            },
{
    let flat = nbins + 2;
    let n = values.len();
    let mut order: Vec<usize> = Vec::new();
    let mut p: usize = 0;
    while p < n
        invariant
            p <= n,
            order@ == Seq::new(p as nat, |q: int| q as usize),
        decreases n - p,
    {
        order.push(p);
        p = p + 1;
        assert(order@ =~= Seq::new(p as nat, |q: int| q as usize));
    }
    sort_by_bin_then_value(&mut order, values, binnumber);
    proof {
        lemma_permutation_of_positions(order@, n as int);
    }
    let mut out: Vec<Option<(u64, u64)>> = Vec::new();
    let mut k: usize = 0;
    while k < flat
        invariant
            k <= flat,
            out.len() == k,
            forall|b: int| 0 <= b < k ==> #[trigger] out[b] is None,
        decreases flat - k,
    {
        out.push(None);
        k = k + 1;
    }
    let mut i: usize = 0;
    while i < n
        invariant
            i <= n,
            n == values.len(),
            flat == nbins + 2,
            bins_fit(values@, binnumber@, nbins as int),
            sorted_positions(order@, values@, binnumber@),
            out.len() == flat,
            0 < i < n ==> binnumber@[order@[i - 1] as int] != binnumber@[order@[i as int] as int],
            forall|b: int|
                0 <= b < flat ==> match #[trigger] out[b] {
                    None => forall|q: int| 0 <= q < i ==> binnumber@[order@[q] as int] != b,
                    Some(pair) => middle_pair(values@, binnumber@, b, pair.0, pair.1),
                },
        decreases n - i,
    {
        let bin = binnumber[order[i]];
        let start = i;
        while i < n && binnumber[order[i]] == bin
            invariant
                start <= i <= n,
                start < n,
                n == values.len(),
                sorted_positions(order@, values@, binnumber@),
                values.len() <= binnumber.len(),
                binnumber@[order@[start as int] as int] == bin,
                forall|q: int| start <= q < i ==> binnumber@[order@[q] as int] == bin,
            decreases n - i,
        {
            i = i + 1;
        }
        assert(i > start);
        let cnt = i - start;
        let lo = (cnt - 1) / 2;
        let hi = cnt / 2;
        let a = values[order[start + lo]];
        let b = values[order[start + hi]];
        assert(bin < flat) by {
            assert(order@[start as int] < n);
        }
        let ghost before = out@;
        out.set(bin, Some((a, b)));
        proof {
            let arr = order@;
            let s = arr.subrange(start as int, i as int);
            let bb = bin as int;
            assert forall|j: int| #[trigger] in_bin(binnumber@, n as int, j, bb) implies s.contains(
                j as usize,
            ) by {
                assert(arr.contains(j as usize));
                let q = choose|q: int| 0 <= q < arr.len() && arr[q] == j as usize;
                if q < start {
                    assert(sorted_le(values@, binnumber@, arr[q] as int, arr[start - 1] as int)
                        || q == start - 1);
                    assert(sorted_le(values@, binnumber@, arr[start - 1] as int, arr[start as int] as int));
                    assert(false);
                } else if q >= i {
                    assert(sorted_le(values@, binnumber@, arr[i - 1] as int, arr[i as int] as int));
                    assert(sorted_le(values@, binnumber@, arr[i as int] as int, arr[q] as int)
                        || q == i);
                    assert(false);
                }
                assert(s[q - start] == j as usize);
            }
            assert forall|k1: int, l1: int| 0 <= k1 < l1 < s.len() implies #[trigger] precedes(
                values@,
                s[k1] as int,
                s[l1] as int,
            ) by {
                assert(s[k1] == arr[start + k1]);
                assert(s[l1] == arr[start + l1]);
                assert(sorted_le(values@, binnumber@, arr[start + k1] as int, arr[start + l1] as int));
                assert(arr[start + k1] != arr[start + l1]);
            }
            assert forall|k1: int| 0 <= k1 < s.len() implies in_bin(
                binnumber@,
                values.len() as int,
                #[trigger] s[k1] as int,
                bb,
            ) by {
                assert(s[k1] == arr[start + k1]);
            }
            assert(enumerates_bin(s, values@, binnumber@, bb));
            assert(s.len() == cnt);
            assert(s[(s.len() - 1) / 2] == arr[start + lo]);
            assert(s[s.len() as int / 2] == arr[start + hi]);
            assert(middle_pair(values@, binnumber@, bb, a, b));
            assert forall|c: int| 0 <= c < flat implies match #[trigger] out@[c] {
                None => forall|q: int| 0 <= q < i ==> binnumber@[order@[q] as int] != c,
                Some(pair) => middle_pair(values@, binnumber@, c, pair.0, pair.1),
            } by {
                if c != bb {
                    assert(out@[c] == before[c]);
                }
            }
        }
    }
    proof {
        assert forall|c: int| 0 <= c < flat implies match #[trigger] out@[c] {
            None => forall|j: int| !#[trigger] in_bin(binnumber@, n as int, j, c),
            Some(pair) => middle_pair(values@, binnumber@, c, pair.0, pair.1),
        } by {
            if out@[c] is None {
                assert forall|j: int| !#[trigger] in_bin(binnumber@, n as int, j, c) by {
                    if in_bin(binnumber@, n as int, j, c) {
                        assert(order@.contains(j as usize));
                    }
                }
            }
        }
    }
    core_bins(&out, nbins)
}

/// A bin has at most one least and at most one greatest sample: what
/// `extreme` reports for a bin is determined by the samples alone.
pub proof fn lemma_extreme_unique(
    values: Seq<u64>,
    binnumber: Seq<usize>,
    which: Extreme,
    b: int,
    j1: int,
    j2: int,
)
    requires
        is_extreme_in_bin(values, binnumber, which, b, j1),
        is_extreme_in_bin(values, binnumber, which, b, j2),
    ensures
        j1 == j2,
{
    if j1 != j2 {
        if which == Extreme::Max {
            assert(precedes(values, j1, j2));
            assert(precedes(values, j2, j1));
        } else {
            assert(precedes(values, j1, j2));
            assert(precedes(values, j2, j1));
        }
    }
}

/// Two sequences that hold the same elements, each strictly increasing in the
/// order of `precedes`, are the same sequence.
proof fn lemma_strictly_sorted_unique(values: Seq<u64>, s1: Seq<usize>, s2: Seq<usize>)
    requires
        forall|k: int, l: int|
            0 <= k < l < s1.len() ==> #[trigger] precedes(values, s1[k] as int, s1[l] as int),
        forall|k: int, l: int|
            0 <= k < l < s2.len() ==> #[trigger] precedes(values, s2[k] as int, s2[l] as int),
        forall|x: usize| s1.contains(x) <==> s2.contains(x),
    ensures
        s1 == s2,
    decreases s1.len(),
{
    if s1.len() == 0 {
        if s2.len() > 0 {
            assert(s2.contains(s2[0]));
        }
        assert(s1 =~= s2);
    } else {
        assert(s1.contains(s1[0]));
        assert(s2.len() > 0);
        assert(s2.contains(s2[0]));
        let x = s1[0];
        let y = s2[0];
        let q = choose|q: int| 0 <= q < s2.len() && s2[q] == x;
        let p = choose|p: int| 0 <= p < s1.len() && s1[p] == y;
        if x != y {
            assert(precedes(values, s2[0] as int, s2[q] as int));
            assert(precedes(values, s1[0] as int, s1[p] as int));
            assert(false);
        }
        let t1 = s1.drop_first();
        let t2 = s2.drop_first();
        assert forall|z: usize| t1.contains(z) <==> t2.contains(z) by {
            if t1.contains(z) {
                let k = choose|k: int| 0 <= k < t1.len() && t1[k] == z;
                assert(precedes(values, s1[0] as int, s1[k + 1] as int));
                assert(s1.contains(z));
                let m = choose|m: int| 0 <= m < s2.len() && s2[m] == z;
                assert(m != 0);
                assert(t2[m - 1] == z);
            }
            if t2.contains(z) {
                let k = choose|k: int| 0 <= k < t2.len() && t2[k] == z;
                assert(precedes(values, s2[0] as int, s2[k + 1] as int));
                assert(s2.contains(z));
                let m = choose|m: int| 0 <= m < s1.len() && s1[m] == z;
                assert(m != 0);
                assert(t1[m - 1] == z);
            }
        }
        assert forall|k: int, l: int| 0 <= k < l < t1.len() implies #[trigger] precedes(
            values,
            t1[k] as int,
            t1[l] as int,
        ) by {
            assert(precedes(values, s1[k + 1] as int, s1[l + 1] as int));
        }
        assert forall|k: int, l: int| 0 <= k < l < t2.len() implies #[trigger] precedes(
            values,
            t2[k] as int,
            t2[l] as int,
        ) by {
            assert(precedes(values, s2[k + 1] as int, s2[l + 1] as int));
        }
        lemma_strictly_sorted_unique(values, t1, t2);
        assert(s1 =~= seq![x] + t1);
        assert(s2 =~= seq![y] + t2);
    }
}

/// A bin's samples can be listed in the order of `precedes` in one way only,
/// so the middle pair that `median_pairs` reports is determined by the
/// samples alone.
pub proof fn lemma_enumeration_unique(
    values: Seq<u64>,
    binnumber: Seq<usize>,
    b: int,
    s1: Seq<usize>,
    s2: Seq<usize>,
)
    requires
        enumerates_bin(s1, values, binnumber, b),
        enumerates_bin(s2, values, binnumber, b),
    ensures
        s1 == s2,
{
    assert forall|x: usize| s1.contains(x) <==> s2.contains(x) by {
        if s1.contains(x) {
            let k = choose|k: int| 0 <= k < s1.len() && s1[k] == x;
            assert(in_bin(binnumber, values.len() as int, s1[k] as int, b));
        }
        if s2.contains(x) {
            let k = choose|k: int| 0 <= k < s2.len() && s2[k] == x;
            assert(in_bin(binnumber, values.len() as int, s2[k] as int, b));
        }
    }
    lemma_strictly_sorted_unique(values, s1, s2);
}

/// The samples of bin `b` among the first `k`.
spec fn members_upto(binnumber: Seq<usize>, b: int, k: int) -> Set<usize> {
    Set::new(|i: usize| i < k && binnumber[i as int] == b)
}

proof fn lemma_members_upto_size(binnumber: Seq<usize>, b: int, k: int)
    requires
        0 <= k <= binnumber.len(),
        k <= usize::MAX,
    ensures
        members_upto(binnumber, b, k).finite(),
        members_upto(binnumber, b, k).len() == bin_size(binnumber.take(k), b),
    decreases k,
{
    if k == 0 {
        assert(members_upto(binnumber, b, 0) =~= Set::<usize>::empty());
        assert(binnumber.take(0) =~= Seq::<usize>::empty());
    } else {
        lemma_members_upto_size(binnumber, b, k - 1);
        let prev = members_upto(binnumber, b, k - 1);
        assert(binnumber.take(k).drop_last() =~= binnumber.take(k - 1));
        if binnumber[k - 1] == b {
            assert(members_upto(binnumber, b, k) =~= prev.insert((k - 1) as usize));
            assert(!prev.contains((k - 1) as usize));
        } else {
            assert(members_upto(binnumber, b, k) =~= prev);
        }
    }
}

/// A bin's listing in sorted order has one entry per sample of the bin: as
/// many as `count` reports for it.
pub proof fn lemma_enumeration_len(s: Seq<usize>, values: Seq<u64>, binnumber: Seq<usize>, b: int)
    requires
        enumerates_bin(s, values, binnumber, b),
        values.len() <= binnumber.len(),
        values.len() <= usize::MAX,
    ensures
        s.len() == bin_size(binnumber.take(values.len() as int), b),
{
    let n = values.len() as int;
    lemma_members_upto_size(binnumber, b, n);
    assert(s.no_duplicates()) by {
        assert forall|k: int, l: int| 0 <= k < s.len() && 0 <= l < s.len() && k != l implies s[k]
            != s[l] by {
            if k < l {
                assert(precedes(values, s[k] as int, s[l] as int));
            } else {
                assert(precedes(values, s[l] as int, s[k] as int));
            }
        }
    }
    assert(s.to_set() =~= members_upto(binnumber, b, n)) by {
        assert forall|i: usize| s.to_set().contains(i) implies members_upto(binnumber, b, n).contains(
            i,
        ) by {
            let k = choose|k: int| 0 <= k < s.len() && s[k] == i;
            assert(in_bin(binnumber, n, s[k] as int, b));
        }
        assert forall|i: usize| members_upto(binnumber, b, n).contains(i) implies s.to_set().contains(
            i,
        ) by {
            assert(in_bin(binnumber, n, i as int, b));
        }
    }
    s.unique_seq_to_set();
}

/// For a bin with an odd number of samples, both middle samples are the same
/// one, so the median is that sample itself.
pub proof fn lemma_odd_count_one_middle(
    values: Seq<u64>,
    binnumber: Seq<usize>,
    b: int,
    lo: u64,
    hi: u64,
)
    requires
        values.len() <= binnumber.len(),
        values.len() <= usize::MAX,
        middle_pair(values, binnumber, b, lo, hi),
        bin_size(binnumber.take(values.len() as int), b) % 2 == 1,
    ensures
        lo == hi,
{
    let s = choose|s: Seq<usize>|
        {
            &&& #[trigger] enumerates_bin(s, values, binnumber, b)
            &&& s.len() > 0
            &&& lo == values[s[(s.len() - 1) / 2] as int]
            &&& hi == values[s[s.len() as int / 2] as int]
        };
    lemma_enumeration_len(s, values, binnumber, b);
    assert((s.len() - 1) / 2 == s.len() as int / 2);
}

/// The first and last samples of a bin's sorted listing are its least and
/// greatest: the middle pair lies between the bin's `min` and `max`.
pub proof fn lemma_listing_ends_are_extremes(
    s: Seq<usize>,
    values: Seq<u64>,
    binnumber: Seq<usize>,
    b: int,
)
    requires
        enumerates_bin(s, values, binnumber, b),
        s.len() > 0,
        values.len() <= usize::MAX,
    ensures
        is_least_in_bin(values, binnumber, b, s[0] as int),
        is_greatest_in_bin(values, binnumber, b, s[s.len() - 1] as int),
{
    assert(in_bin(binnumber, values.len() as int, s[0] as int, b));
    assert(in_bin(binnumber, values.len() as int, s[s.len() - 1] as int, b));
    assert forall|i: int|
        in_bin(binnumber, values.len() as int, i, b) && i != s[0] as int implies #[trigger] precedes(
        values,
        s[0] as int,
        i,
    ) by {
        assert(s.contains(i as usize));
        let k = choose|k: int| 0 <= k < s.len() && s[k] == i as usize;
        assert(precedes(values, s[0] as int, s[k] as int));
    }
    assert forall|i: int|
        in_bin(binnumber, values.len() as int, i, b) && i != s[s.len() - 1] as int implies #[trigger] precedes(
        values,
        i,
        s[s.len() - 1] as int,
    ) by {
        assert(s.contains(i as usize));
        let k = choose|k: int| 0 <= k < s.len() && s[k] == i as usize;
        assert(precedes(values, s[k] as int, s[s.len() - 1] as int));
    }
}

} // verus!
