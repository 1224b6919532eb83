//! Order on IEEE-754 binary64 values, carried as their bit patterns.
//!
//! A sample is held as the `u64` whose bits are those of the `f64` (what
//! `f64::to_bits` gives). Two orders matter:
//!
//! * the comparison operators `<` and `<=` of IEEE-754, under which a NaN is
//!   unordered and `-0.0` equals `+0.0`;
//! * numpy's sort order, which places every NaN after every other value,
//!   whatever its sign bit, treats all NaNs as equal, and otherwise follows
//!   the total order of `f64::total_cmp` (where `-0.0` precedes `+0.0`).
//!
//! `f64::total_cmp` is documented as comparing the bit patterns after
//! flipping all bits of negative values and only the sign bit of positive
//! ones; `total_key` is that transformation, read as an unsigned integer.

use std::cmp::Ordering;
use vstd::prelude::*;

verus! {

/// The sign bit of a binary64 value.
pub const SIGN_BIT: u64 = 0x8000_0000_0000_0000u64;

/// Every bit but the sign bit: exponent and mantissa.
pub const MAGNITUDE_MASK: u64 = 0x7FFF_FFFF_FFFF_FFFFu64;

/// The bit pattern of `+inf`: all exponent bits set, zero mantissa.
pub const INFINITY_BITS: u64 = 0x7FF0_0000_0000_0000u64;

/// The pattern encodes a NaN: all exponent bits set and a non-zero mantissa.
pub open spec fn is_nan(b: u64) -> bool {
    (b & MAGNITUDE_MASK) > INFINITY_BITS
}

/// The pattern encodes `+0.0` or `-0.0`.
pub open spec fn is_zero(b: u64) -> bool {
    (b & MAGNITUDE_MASK) == 0
}

/// The key by which `f64::total_cmp` orders values: negative values with all
/// bits flipped, non-negative ones with the sign bit set.
pub open spec fn total_key(b: u64) -> u64 {
    if (b & SIGN_BIT) != 0 {
        !b
    } else {
        b | SIGN_BIT
    }
}

/// The key of numpy's sort order: every NaN at the very top, everything else
/// by `total_key`.
pub open spec fn numpy_key(b: u64) -> u64 {
    if is_nan(b) {
        u64::MAX
    } else {
        total_key(b)
    }
}

/// IEEE-754 `a < b`.
pub open spec fn ieee_lt(a: u64, b: u64) -> bool {
    &&& !is_nan(a)
    &&& !is_nan(b)
    &&& !(is_zero(a) && is_zero(b))
    &&& total_key(a) < total_key(b)
}

/// IEEE-754 `a <= b`.
pub open spec fn ieee_le(a: u64, b: u64) -> bool {
    &&& !is_nan(a)
    &&& !is_nan(b)
    &&& ((is_zero(a) && is_zero(b)) || total_key(a) <= total_key(b))
}

/// `e` does not sort above `v` in the order that numpy's `searchsorted` (and
/// so `digitize`) compares with: IEEE-754 order in which every NaN is greater
/// than every other value and equal to every NaN.
pub open spec fn sorts_at_or_below(e: u64, v: u64) -> bool {
    is_nan(v) || (!is_nan(e) && ieee_le(e, v))
}

/// The three-way comparison of two keys.
pub open spec fn order_of_keys(ka: u64, kb: u64) -> Ordering {
    if ka < kb {
        Ordering::Less
    } else if ka == kb {
        Ordering::Equal
    } else {
        Ordering::Greater
    }
}

/// `f64::is_nan` on the bit pattern.
pub fn is_nan_bits(b: u64) -> (r: bool)
    ensures
        r == is_nan(b),
{
    (b & MAGNITUDE_MASK) > INFINITY_BITS
}

/// The position of a value in numpy's sort order, as a key compared as an
/// unsigned integer.
pub fn numpy_order_key(b: u64) -> (r: u64)
    ensures
        r == numpy_key(b),
{
    if (b & MAGNITUDE_MASK) > INFINITY_BITS {
        u64::MAX
    } else if (b & SIGN_BIT) != 0 {
        !b
    } else {
        b | SIGN_BIT
    }
}

/// numpy's sort order: every NaN sorts after every other value regardless of
/// its sign bit, two NaNs compare equal, and everything else compares as
/// `f64::total_cmp` does.
pub fn numpy_cmp(a: u64, b: u64) -> (r: Ordering)
    ensures
        r == order_of_keys(numpy_key(a), numpy_key(b)),
{
    let ka = numpy_order_key(a);
    let kb = numpy_order_key(b);
    if ka < kb {
        Ordering::Less
    } else if ka == kb {
        Ordering::Equal
    } else {
        Ordering::Greater
    }
}

/// IEEE-754 `a < b` on two bit patterns.
pub fn float_lt(a: u64, b: u64) -> (r: bool)
    ensures
        r == ieee_lt(a, b),
{
    if is_nan_bits(a) || is_nan_bits(b) {
        return false;
    }
    if (a & MAGNITUDE_MASK) == 0 && (b & MAGNITUDE_MASK) == 0 {
        return false;
    }
    numpy_order_key(a) < numpy_order_key(b)
}

/// IEEE-754 `a <= b` on two bit patterns.
pub fn float_le(a: u64, b: u64) -> (r: bool)
    ensures
        r == ieee_le(a, b),
{
    if is_nan_bits(a) || is_nan_bits(b) {
        return false;
    }
    if (a & MAGNITUDE_MASK) == 0 && (b & MAGNITUDE_MASK) == 0 {
        return true;
    }
    numpy_order_key(a) <= numpy_order_key(b)
}

/// `sorts_at_or_below` on two bit patterns.
pub fn float_sorts_at_or_below(e: u64, v: u64) -> (r: bool)
    ensures
        r == sorts_at_or_below(e, v),
{
    is_nan_bits(v) || (!is_nan_bits(e) && float_le(e, v))
}

/// Every NaN sorts after every value that is not a NaN, whatever the sign bit
/// of either.
pub proof fn lemma_nan_sorts_last(nan: u64, v: u64)
    requires
        is_nan(nan),
        !is_nan(v),
    ensures
        numpy_key(v) < numpy_key(nan),
{
    assert(!((v & 0x7FFF_FFFF_FFFF_FFFFu64) > 0x7FF0_0000_0000_0000u64) ==> (if (v
        & 0x8000_0000_0000_0000u64) != 0 {
        !v
    } else {
        v | 0x8000_0000_0000_0000u64
    }) < 0xFFFF_FFFF_FFFF_FFFFu64) by (bit_vector);
}

/// Two values are equal in numpy's sort order exactly when they are both NaN
/// or have the same bit pattern.
pub proof fn lemma_numpy_equal(a: u64, b: u64)
    ensures
        (numpy_key(a) == numpy_key(b)) <==> ((is_nan(a) && is_nan(b)) || a == b),
{
    assert(((if (a & 0x8000_0000_0000_0000u64) != 0 {
        !a
    } else {
        a | 0x8000_0000_0000_0000u64
    }) == (if (b & 0x8000_0000_0000_0000u64) != 0 {
        !b
    } else {
        b | 0x8000_0000_0000_0000u64
    })) ==> a == b) by (bit_vector);
    if !is_nan(a) && is_nan(b) {
        lemma_nan_sorts_last(b, a);
    }
    if is_nan(a) && !is_nan(b) {
        lemma_nan_sorts_last(a, b);
    }
}

/// Where IEEE-754 orders two values strictly, numpy's sort order agrees.
pub proof fn lemma_lt_agrees_with_numpy(a: u64, b: u64)
    requires
        ieee_lt(a, b),
    ensures
        numpy_key(a) < numpy_key(b),
{
}

/// IEEE-754 `<` is irreflexive and `<=` is `<` or equality of values
/// (where `-0.0` equals `+0.0`).
pub proof fn lemma_le_is_lt_or_equal(a: u64, b: u64)
    ensures
        !ieee_lt(a, a),
        ieee_le(a, b) <==> (ieee_lt(a, b) || (!is_nan(a) && !is_nan(b) && (a == b || (is_zero(a)
            && is_zero(b))))),
{
    assert(((if (a & 0x8000_0000_0000_0000u64) != 0 {
        !a
    } else {
        a | 0x8000_0000_0000_0000u64
    }) == (if (b & 0x8000_0000_0000_0000u64) != 0 {
        !b
    } else {
        b | 0x8000_0000_0000_0000u64
    })) ==> a == b) by (bit_vector);
}

/// IEEE-754 order is transitive through a strict step: `a < b <= c` gives
/// `a < c`.
pub proof fn lemma_lt_le_trans(a: u64, b: u64, c: u64)
    requires
        ieee_lt(a, b),
        ieee_le(b, c),
    ensures
        ieee_lt(a, c),
{
    assert(ieee_lt(a, c)) by (bit_vector)
        requires
            ieee_lt(a, b),
            ieee_le(b, c),
    ;
}

/// IEEE-754 order is transitive through a strict step: `a <= b < c` gives
/// `a < c`.
pub proof fn lemma_le_lt_trans(a: u64, b: u64, c: u64)
    requires
        ieee_le(a, b),
        ieee_lt(b, c),
    ensures
        ieee_lt(a, c),
{
    assert(ieee_lt(a, c)) by (bit_vector)
        requires
            ieee_le(a, b),
            ieee_lt(b, c),
    ;
}

/// IEEE-754 `<=` is transitive.
pub proof fn lemma_le_trans(a: u64, b: u64, c: u64)
    requires
        ieee_le(a, b),
        ieee_le(b, c),
    ensures
        ieee_le(a, c),
{
    assert(ieee_le(a, c)) by (bit_vector)
        requires
            ieee_le(a, b),
            ieee_le(b, c),
    ;
}

/// Between two values that are not NaN, IEEE-754 order is total: either
/// `a < b` or `b <= a`.
pub proof fn lemma_lt_or_ge(a: u64, b: u64)
    requires
        !is_nan(a),
        !is_nan(b),
    ensures
        ieee_lt(a, b) || ieee_le(b, a),
        !(ieee_lt(a, b) && ieee_le(b, a)),
{
}

/// The NaNs are exactly the patterns whose 11 exponent bits (52..63) are
/// all set and whose 52 mantissa bits are not all clear; every other
/// pattern, every finite value and both infinities, is a number.
pub proof fn lemma_nan_by_fields(b: u64)
    ensures
        is_nan(b) <==> (((b >> 52u64) & 0x7FFu64) == 0x7FFu64 && (b & 0x000F_FFFF_FFFF_FFFFu64) != 0),
        ((b >> 52u64) & 0x7FFu64) != 0x7FFu64 ==> !is_nan(b),
{
    assert(((b & 0x7FFF_FFFF_FFFF_FFFFu64) > 0x7FF0_0000_0000_0000u64) <==> (((b >> 52u64)
        & 0x7FFu64) == 0x7FFu64 && (b & 0x000F_FFFF_FFFF_FFFFu64) != 0)) by (bit_vector);
}

/// `f64::total_cmp` orders patterns as their values: non-negative patterns
/// (sign bit clear) in the unsigned order of their bits, negative ones in
/// the reverse order, and every negative one before every non-negative one.
pub proof fn lemma_total_key_follows_bits(a: u64, b: u64)
    ensures
        (a >> 63u64) == 0 && (b >> 63u64) == 0 ==> (total_key(a) < total_key(b) <==> a < b),
        (a >> 63u64) == 1 && (b >> 63u64) == 1 ==> (total_key(a) < total_key(b) <==> b < a),
        (a >> 63u64) == 1 && (b >> 63u64) == 0 ==> total_key(a) < total_key(b),
        (total_key(a) == total_key(b)) <==> a == b,
{
    assert((a >> 63u64) == 0 && (b >> 63u64) == 0 ==> (total_key(a) < total_key(b) <==> a < b))
        by (bit_vector);
    assert((a >> 63u64) == 1 && (b >> 63u64) == 1 ==> (total_key(a) < total_key(b) <==> b < a))
        by (bit_vector);
    assert((a >> 63u64) == 1 && (b >> 63u64) == 0 ==> total_key(a) < total_key(b)) by (bit_vector);
    assert((total_key(a) == total_key(b)) <==> a == b) by (bit_vector);
}

/// numpy's sort order on patterns: every NaN (all exponent bits set, some
/// mantissa bit set) after every number; numbers as their values, that is
/// non-negative patterns by their unsigned bits, negative ones in reverse,
/// negatives first.
pub proof fn lemma_numpy_key_follows_bits(a: u64, b: u64)
    ensures
        ((a >> 52u64) & 0x7FFu64) == 0x7FFu64 && (a & 0x000F_FFFF_FFFF_FFFFu64) != 0 && !(((b
            >> 52u64) & 0x7FFu64) == 0x7FFu64 && (b & 0x000F_FFFF_FFFF_FFFFu64) != 0) ==> numpy_key(b)
            < numpy_key(a),
        !(((a >> 52u64) & 0x7FFu64) == 0x7FFu64 && (a & 0x000F_FFFF_FFFF_FFFFu64) != 0) && !(((b
            >> 52u64) & 0x7FFu64) == 0x7FFu64 && (b & 0x000F_FFFF_FFFF_FFFFu64) != 0) ==> {
            &&& (a >> 63u64) == 0 && (b >> 63u64) == 0 ==> (numpy_key(a) < numpy_key(b) <==> a < b)
            &&& (a >> 63u64) == 1 && (b >> 63u64) == 1 ==> (numpy_key(a) < numpy_key(b) <==> b < a)
            &&& (a >> 63u64) == 1 && (b >> 63u64) == 0 ==> numpy_key(a) < numpy_key(b)
        },
{
    lemma_nan_by_fields(a);
    lemma_nan_by_fields(b);
    lemma_total_key_follows_bits(a, b);
    if is_nan(a) && !is_nan(b) {
        lemma_nan_sorts_last(a, b);
    }
}

/// IEEE-754 `<` on patterns that are numbers (not all exponent bits set with
/// some mantissa bit set): non-negative numbers compare as their unsigned
/// bits, negative ones in reverse, a negative number is below a non-negative
/// one unless both are zeros, and a non-negative number is never below a
/// negative one. A NaN is below nothing and nothing is below a NaN.
pub proof fn lemma_lt_follows_bits(a: u64, b: u64)
    ensures
        ((a >> 52u64) & 0x7FFu64) == 0x7FFu64 && (a & 0x000F_FFFF_FFFF_FFFFu64) != 0 ==> !ieee_lt(
            a,
            b,
        ) && !ieee_lt(b, a),
        !(((a >> 52u64) & 0x7FFu64) == 0x7FFu64 && (a & 0x000F_FFFF_FFFF_FFFFu64) != 0) && !(((b
            >> 52u64) & 0x7FFu64) == 0x7FFu64 && (b & 0x000F_FFFF_FFFF_FFFFu64) != 0) ==> {
            &&& (a >> 63u64) == 0 && (b >> 63u64) == 0 ==> (ieee_lt(a, b) <==> a < b)
            &&& (a >> 63u64) == 1 && (b >> 63u64) == 1 ==> (ieee_lt(a, b) <==> b < a)
            &&& (a >> 63u64) == 1 && (b >> 63u64) == 0 ==> (ieee_lt(a, b) <==> !(a
                == 0x8000_0000_0000_0000u64 && b == 0))
            &&& (a >> 63u64) == 0 && (b >> 63u64) == 1 ==> !ieee_lt(a, b)
        },
{
    lemma_nan_by_fields(a);
    lemma_nan_by_fields(b);
    lemma_total_key_follows_bits(a, b);
    assert((a >> 63u64) == 1 && (b >> 63u64) == 1 ==> ((a & 0x7FFF_FFFF_FFFF_FFFFu64) == 0 && (b
        & 0x7FFF_FFFF_FFFF_FFFFu64) == 0 ==> a == b)) by (bit_vector);
    assert((a >> 63u64) == 0 && (b >> 63u64) == 0 ==> ((a & 0x7FFF_FFFF_FFFF_FFFFu64) == 0 && (b
        & 0x7FFF_FFFF_FFFF_FFFFu64) == 0 ==> a == b)) by (bit_vector);
    assert((a >> 63u64) == 1 && (b >> 63u64) == 0 ==> ((a & 0x7FFF_FFFF_FFFF_FFFFu64) == 0 && (b
        & 0x7FFF_FFFF_FFFF_FFFFu64) == 0 <==> (a == 0x8000_0000_0000_0000u64 && b == 0))) by (bit_vector);
    lemma_total_key_follows_bits(b, a);
}

} // verus!
