//! Comparing floating-point values by their bit patterns.
//!
//! A single-precision value is a sign bit above 31 magnitude bits, and the
//! magnitude bits of two numbers order them as their magnitudes do. So equality
//! and order can be told from the patterns alone, with no arithmetic on the
//! values.

use vstd::prelude::*;

verus! {

/// The sign bit of a single-precision bit pattern.
pub const SIGN: u32 = 0x8000_0000;

/// The pattern of positive infinity; larger magnitudes are not numbers.
pub const INFINITY: u32 = 0x7F80_0000;

/// The pattern of one.
pub const ONE: u32 = 0x3F80_0000;

/// The pattern without its sign bit.
pub open spec fn magnitude(bits: u32) -> int {
    if bits < SIGN {
        bits as int
    } else {
        bits - SIGN
    }
}

/// The pattern does not stand for a number.
pub open spec fn is_nan(bits: u32) -> bool {
    magnitude(bits) > INFINITY
}

/// An integer that orders numbers as their values: zero for both zeros, less for
/// less.
pub open spec fn rank(bits: u32) -> int {
    if bits < SIGN {
        bits as int
    } else {
        -magnitude(bits)
    }
}

/// An integer that orders all patterns as the IEEE 754 total order does: negative
/// zero below positive zero, and patterns that are not numbers beyond the
/// infinities of their sign.
pub open spec fn total_rank(bits: u32) -> int {
    if bits < SIGN {
        bits as int
    } else {
        -magnitude(bits) - 1
    }
}

/// The values compare equal: both are numbers, and the same one, either zero
/// counting as the other.
pub open spec fn float_eq(a: u32, b: u32) -> bool {
    !is_nan(a) && !is_nan(b) && rank(a) == rank(b)
}

/// The first value is the lesser one; nothing is less or greater than what is not
/// a number.
pub open spec fn float_lt(a: u32, b: u32) -> bool {
    !is_nan(a) && !is_nan(b) && rank(a) < rank(b)
}

fn nan(bits: u32) -> (yes: bool)
    ensures
        yes == is_nan(bits),
{
    if bits < SIGN {
        bits > INFINITY
    } else {
        bits - SIGN > INFINITY
    }
}

/// [`rank`], computed.
pub fn rank_of(bits: u32) -> (r: i64)
    ensures
        r == rank(bits),
{
    if bits < SIGN {
        bits as i64
    } else {
        -((bits - SIGN) as i64)
    }
}

/// [`total_rank`], computed.
pub fn total_rank_of(bits: u32) -> (r: i64)
    ensures
        r == total_rank(bits),
{
    if bits < SIGN {
        bits as i64
    } else {
        -((bits - SIGN) as i64) - 1
    }
}

/// Whether two values compare equal.
pub fn same(a: u32, b: u32) -> (yes: bool)
    ensures
        yes == float_eq(a, b),
{
    !nan(a) && !nan(b) && rank_of(a) == rank_of(b)
}

/// Whether the first value is less than the second.
pub fn less(a: u32, b: u32) -> (yes: bool)
    ensures
        yes == float_lt(a, b),
{
    !nan(a) && !nan(b) && rank_of(a) < rank_of(b)
}

/// The total order tells any two different patterns apart.
pub proof fn lemma_total_rank_injective(a: u32, b: u32)
    requires
        total_rank(a) == total_rank(b),
    ensures
        a == b,
{
}

/// On numbers the total order refines the order of their values.
pub proof fn lemma_total_rank_refines(a: u32, b: u32)
    requires
        float_lt(a, b),
    ensures
        total_rank(a) < total_rank(b),
{
}

/// Values are ordered as IEEE 754 orders them: what is not a number is neither less than nor
/// equal to anything; either zero is equal to the other; of two numbers without the sign the
/// one with the smaller pattern is less, with the sign that with the greater one; and one
/// with the sign is less than one without unless both are zero.
pub proof fn lemma_float_order(a: u32, b: u32)
    ensures
        is_nan(a) <==> 0x7F80_0000 < a < 0x8000_0000 || 0xFF80_0000 < a,
        is_nan(a) || is_nan(b) ==> !float_eq(a, b) && !float_lt(a, b),
        !is_nan(a) ==> float_eq(a, a),
        a <= 0x7F80_0000 && b <= 0x7F80_0000 ==> (float_lt(a, b) <==> a < b) && (float_eq(a, b)
            <==> a == b),
        0x8000_0000 <= a <= 0xFF80_0000 && 0x8000_0000 <= b <= 0xFF80_0000 ==> (float_lt(a, b)
            <==> a > b) && (float_eq(a, b) <==> a == b),
        0x8000_0000 <= a <= 0xFF80_0000 && b <= 0x7F80_0000 ==> (float_eq(a, b) <==> a
            == 0x8000_0000 && b == 0) && (float_lt(a, b) <==> !(a == 0x8000_0000 && b == 0))
            && !float_lt(b, a),
        !is_nan(a) && !is_nan(b) ==> float_lt(a, b) || float_eq(a, b) || float_lt(b, a),
        float_eq(a, b) == float_eq(b, a),
        !(float_lt(a, b) && float_lt(b, a)),
        !(float_lt(a, b) && float_eq(a, b)),
{
}

/// The total order puts patterns with the sign before those without, the latter by the
/// pattern, and the former the other way round.
pub proof fn lemma_total_order(a: u32, b: u32)
    ensures
        a < 0x8000_0000 && b < 0x8000_0000 ==> (total_rank(a) < total_rank(b) <==> a < b),
        a >= 0x8000_0000 && b >= 0x8000_0000 ==> (total_rank(a) < total_rank(b) <==> a > b),
        a >= 0x8000_0000 && b < 0x8000_0000 ==> total_rank(a) < total_rank(b),
{
}

} // verus!
