//! Scores as IEEE 754 single-precision bit patterns.
//!
//! Scores, probabilities and samples reach the library as the 32 bits of a
//! single-precision number. Nothing here computes with such numbers; they are
//! compared, selected and moved.

use vstd::prelude::*;

verus! {

/// The pattern of `0.5`.
pub const HALF: u32 = 0x3F00_0000;

/// The pattern of positive infinity.
pub const INFINITY: u32 = 0x7F80_0000;

/// The pattern of negative infinity.
pub const NEG_INFINITY: u32 = 0xFF80_0000;

/// The exponent and fraction bits of a pattern.
pub open spec fn magnitude(bits: u32) -> int {
    bits as int % 0x8000_0000
}

/// Whether the sign bit of a pattern is set.
pub open spec fn negative(bits: u32) -> bool {
    bits >= 0x8000_0000
}

/// Whether a pattern stands for no number.
pub open spec fn nan(bits: u32) -> bool {
    magnitude(bits) > 0x7F80_0000
}

/// Where the number of a pattern lies among all numbers. Both zeros have the
/// rank 0, and of two patterns that are no NaN the greater number has the
/// greater rank.
pub open spec fn rank(bits: u32) -> int {
    if negative(bits) {
        -magnitude(bits)
    } else {
        magnitude(bits)
    }
}

/// The number of `a` is greater than that of `b`. Never so of a NaN.
pub open spec fn above(a: u32, b: u32) -> bool {
    !nan(a) && !nan(b) && rank(a) > rank(b)
}

/// The number of `a` is at least that of `b`. Never so of a NaN.
pub open spec fn at_least(a: u32, b: u32) -> bool {
    !nan(a) && !nan(b) && rank(a) >= rank(b)
}

/// The position of a pattern in the total order of IEEE 754: negative NaN,
/// negative numbers, negative zero, positive zero, positive numbers, positive
/// NaN.
pub open spec fn total_rank(bits: u32) -> int {
    if negative(bits) {
        -1 - magnitude(bits)
    } else {
        magnitude(bits)
    }
}

/// Whether `bits` stands for no number.
pub fn is_nan(bits: u32) -> (b: bool)
    ensures
        b == nan(bits),
{
    bits % 0x8000_0000 > 0x7F80_0000
}

/// The rank of a pattern's number.
fn rank_of(bits: u32) -> (r: i64)
    ensures
        r == rank(bits),
        -0x8000_0000 < r < 0x8000_0000,
{
    if bits >= 0x8000_0000 {
        0x8000_0000i64 - bits as i64
    } else {
        bits as i64
    }
}

/// Whether the number of `a` is greater than that of `b`.
pub fn greater(a: u32, b: u32) -> (r: bool)
    ensures
        r == above(a, b),
{
    !is_nan(a) && !is_nan(b) && rank_of(a) > rank_of(b)
}

/// Whether the number of `a` is at least that of `b`.
pub fn greater_or_equal(a: u32, b: u32) -> (r: bool)
    ensures
        r == at_least(a, b),
{
    !is_nan(a) && !is_nan(b) && rank_of(a) >= rank_of(b)
}

/// A number that falls as the total rank of the pattern rises.
pub fn descending_key(bits: u32) -> (k: u64)
    ensures
        k == 0x7FFF_FFFF - total_rank(bits),
{
    if bits >= 0x8000_0000 {
        bits as u64
    } else {
        0x7FFF_FFFF - bits as u64
    }
}

/// The total order refines the order of the numbers: what is greater as a
/// number also has the greater total rank.
pub proof fn total_order_refines_numbers(a: u32, b: u32)
    requires
        above(a, b),
    ensures
        total_rank(a) > total_rank(b),
{
}

/// The total order tells any two patterns apart.
pub proof fn total_order_is_strict(a: u32, b: u32)
    ensures
        total_rank(a) == total_rank(b) <==> a == b,
{
}

/// Two numbers always compare: one is greater, or each is at least the other.
pub proof fn numbers_compare(a: u32, b: u32)
    requires
        !nan(a),
        !nan(b),
    ensures
        above(a, b) || above(b, a) || (at_least(a, b) && at_least(b, a)),
        at_least(a, b) <==> !above(b, a),
{
}

/// The order of the numbers carries over from one comparison to the next.
pub proof fn above_is_transitive(a: u32, b: u32, c: u32)
    requires
        above(a, b),
        above(b, c),
    ensures
        above(a, c),
{
}

/// The numbers of two patterns compare as the patterns do where both are
/// positive, the other way round where both are negative, and a positive number
/// is the greater of a positive and a negative one. Both zeros are one number,
/// and a NaN compares with nothing.
pub proof fn numbers_follow_their_patterns(a: u32, b: u32)
    ensures
        a <= 0x7F80_0000 && b <= 0x7F80_0000 ==> {
            &&& above(a, b) <==> a > b
            &&& at_least(a, b) <==> a >= b
        },
        0x8000_0000 <= a <= 0xFF80_0000 && 0x8000_0000 <= b <= 0xFF80_0000 ==> {
            &&& above(a, b) <==> a < b
            &&& at_least(a, b) <==> a <= b
        },
        a <= 0x7F80_0000 && 0x8000_0000 <= b <= 0xFF80_0000 ==> {
            &&& above(a, b) <==> !(a == 0 && b == 0x8000_0000)
            &&& at_least(a, b)
            &&& !above(b, a)
            &&& at_least(b, a) <==> a == 0 && b == 0x8000_0000
        },
        0x7F80_0000 < a < 0x8000_0000 || 0xFF80_0000 < a ==> {
            &&& nan(a)
            &&& !above(a, b) && !above(b, a)
            &&& !at_least(a, b) && !at_least(b, a)
        },
        a <= 0x7F80_0000 || 0x8000_0000 <= a <= 0xFF80_0000 ==> !nan(a),
{
}

/// A number is at least one half exactly where its pattern lies between that of
/// one half and that of infinity, and more than one half where it is not the
/// former.
pub proof fn halves_are_told_by_their_pattern(a: u32)
    ensures
        at_least(a, HALF) <==> 0x3F00_0000 <= a <= 0x7F80_0000,
        above(a, HALF) <==> 0x3F00_0000 < a <= 0x7F80_0000,
        above(a, 0) <==> 0 < a <= 0x7F80_0000,
        at_least(0, a) <==> a == 0 || 0x8000_0000 <= a <= 0xFF80_0000,
{
}

/// The total order lists the negative patterns from the greatest down, and
/// behind them the positive ones from the least up.
pub proof fn total_order_follows_the_patterns(a: u32, b: u32)
    ensures
        a < 0x8000_0000 && b < 0x8000_0000 ==> (total_rank(a) < total_rank(b) <==> a < b),
        0x8000_0000 <= a && 0x8000_0000 <= b ==> (total_rank(a) < total_rank(b) <==> a > b),
        0x8000_0000 <= a && b < 0x8000_0000 ==> total_rank(a) < total_rank(b),
{
}

} // verus!
