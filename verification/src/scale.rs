//! An integer scale for measured numbers.
//!
//! Measured numbers come to this library as the 64 bits of the IEEE 754
//! double format: a sign bit above 63 bits of magnitude. The rules of
//! a render mostly compare such numbers, and for that a number can
//! stand as any integer that keeps its order. This module makes that
//! integer. Among the numbers of the format a larger magnitude is a
//! number farther from zero, and the magnitudes above that of infinity
//! are no numbers at all.

use vstd::prelude::*;

verus! {

/// The sign bit of the format.
pub const SIGN: u64 = 0x8000_0000_0000_0000;

/// The magnitude of infinity, the largest that is a number.
pub const INFINITY: u64 = 0x7ff0_0000_0000_0000;

/// The bits of the number one.
pub const ONE: u64 = 0x3ff0_0000_0000_0000;

/// The magnitude in the bits: all of them but the sign.
pub open spec fn magnitude(bits: u64) -> int {
    if bits >= SIGN {
        bits - SIGN
    } else {
        bits as int
    }
}

/// The bits stand for a number: zero, a finite number or an infinity.
pub open spec fn is_number(bits: u64) -> bool {
    magnitude(bits) <= INFINITY
}

/// The number is above zero.
pub open spec fn is_positive(bits: u64) -> bool {
    is_number(bits) && 0 < bits < SIGN
}

/// The number is zero, with either sign.
pub open spec fn is_zero(bits: u64) -> bool {
    magnitude(bits) == 0
}

/// The number is below zero.
pub open spec fn is_negative(bits: u64) -> bool {
    is_number(bits) && bits > SIGN
}

/// The number is one or more.
pub open spec fn is_one_or_more(bits: u64) -> bool {
    is_number(bits) && ONE <= bits < SIGN
}

/// The place of the bits on the scale: the magnitude with its sign for
/// a number, so that both zeros are 0, and the lowest place of all for
/// what is no number.
pub open spec fn key_of(bits: u64) -> int {
    if !is_number(bits) {
        i64::MIN as int
    } else if bits >= SIGN {
        -magnitude(bits)
    } else {
        magnitude(bits)
    }
}

/// The place on the scale of a number that another is held against:
/// as `key_of`, but the highest place of all for what is no number.
pub open spec fn bound_of(bits: u64) -> int {
    if !is_number(bits) {
        i64::MAX as int
    } else {
        key_of(bits)
    }
}

/// The first number is greater than the second. With what is no number
/// on either side this never holds.
pub open spec fn is_greater(a: u64, b: u64) -> bool {
    key_of(a) > bound_of(b)
}

/// The scale keeps the order of numbers: of two numbers the one with
/// the sign bit set lies below, unless both are zero; of two without it
/// the larger magnitude lies above, and of two with it below.
pub proof fn lemma_key_keeps_order(a: u64, b: u64)
    requires
        is_number(a),
        is_number(b),
    ensures
        a < SIGN && b < SIGN ==> (key_of(a) < key_of(b) <==> a < b),
        a >= SIGN && b >= SIGN ==> (key_of(a) < key_of(b) <==> a > b),
        a >= SIGN && b < SIGN ==> (key_of(a) < key_of(b) <==> magnitude(a) > 0 || magnitude(b) > 0),
        key_of(a) == key_of(b) <==> a == b || (magnitude(a) == 0 && magnitude(b) == 0),
{
}

/// Between two numbers, one is greater than the other exactly where it
/// lies above it on the scale.
pub proof fn lemma_greater_among_numbers(a: u64, b: u64)
    requires
        is_number(a),
        is_number(b),
    ensures
        is_greater(a, b) <==> key_of(a) > key_of(b),
        !(is_greater(a, b) && is_greater(b, a)),
        !is_greater(a, a),
{
}

/// What is no number compares as the format has it: it is not greater
/// than anything, nothing is greater than it, and it is neither above
/// nor below zero.
pub proof fn lemma_no_number_compares_false(nan: u64, other: u64)
    requires
        !is_number(nan),
    ensures
        !is_greater(nan, other),
        !is_greater(other, nan),
        !is_positive(nan),
        !is_negative(nan),
        !is_zero(nan),
{
}

/// The zero of the scale is the number zero, with either sign; above it
/// lie the numbers above zero, and at or above the place of one the
/// numbers that are one or more. Below it lie the numbers below zero
/// and what is no number.
pub proof fn lemma_key_zero(bits: u64)
    ensures
        key_of(bits) == 0 <==> is_zero(bits),
        key_of(bits) > 0 <==> is_positive(bits),
        key_of(bits) >= ONE <==> is_one_or_more(bits),
        key_of(bits) < 0 <==> is_negative(bits) || !is_number(bits),
        is_number(bits) <==> is_negative(bits) || is_zero(bits) || is_positive(bits),
{
}

/// The place on the scale of the number with the given bits.
pub fn order_key(bits: u64) -> (key: i64)
    ensures
        key == key_of(bits),
{
    let negative = bits >= SIGN;
    let size: u64 = if negative {
        bits - SIGN
    } else {
        bits
    };
    if size > INFINITY {
        i64::MIN
    } else if negative {
        -(size as i64)
    } else {
        size as i64
    }
}

/// The place on the scale of a bound with the given bits.
pub fn bound_key(bits: u64) -> (key: i64)
    ensures
        key == bound_of(bits),
{
    let key = order_key(bits);
    if key == i64::MIN {
        i64::MAX
    } else {
        key
    }
}

} // verus!
