//! The double format, as far as the rules of a render compute with it.
//!
//! A finite number of the format is a whole number of at most 53 bits,
//! its significand, times a power of two. What is worked out here is
//! worked out on whole numbers and rounded as the format rounds: to 53
//! leading bits, to the nearer side, and in the middle to the side
//! whose last bit is zero.

use vstd::prelude::*;
use vstd::arithmetic::div_mod::lemma_div_denominator;
use vstd::arithmetic::power2::{
    pow2,
    lemma2_to64,
    lemma2_to64_rest,
    lemma_pow2_adds,
    lemma_pow2_pos,
    lemma_pow2_strictly_increases,
    lemma_pow2_unfold,
};
use crate::scale::{magnitude, INFINITY, SIGN};

verus! {

/// The lowest bit of the exponent: the bits below it are the fraction.
pub const HIDDEN: u64 = 0x10_0000_0000_0000;

/// The exponent in the bits, the eleven bits below the sign.
pub open spec fn exponent(bits: u64) -> int {
    magnitude(bits) / (HIDDEN as int)
}

/// The whole number of which a finite number is a binary fraction: the
/// 52 bits of its fraction, under one more bit where the exponent is
/// not zero.
pub open spec fn significand(bits: u64) -> int {
    if exponent(bits) == 0 {
        magnitude(bits) % (HIDDEN as int)
    } else {
        magnitude(bits) % (HIDDEN as int) + HIDDEN
    }
}

/// How far the significand of a finite number is shifted down: the
/// number is, apart from its sign, `significand / 2^shift`. Below zero
/// for the numbers from 2^53 on, which are shifted up.
pub open spec fn shift(bits: u64) -> int {
    if exponent(bits) == 0 {
        1074
    } else {
        1075 - exponent(bits)
    }
}

/// The power of two by which a number outgrows 53 bits: the least one
/// that divides it down to less than 2^53.
pub open spec fn unit_of(n: nat) -> nat
    decreases n,
{
    if n < 0x20_0000_0000_0000 {
        1
    } else {
        2 * unit_of(n / 2)
    }
}

/// A whole number rounded to its 53 leading bits, to the nearer side,
/// and in the middle to the side whose last bit is zero: the rounding
/// by which a whole number becomes a number of the double format.
pub open spec fn rounded(n: nat) -> nat {
    let unit = unit_of(n);
    let leading = n / unit;
    let rest = n % unit;
    if 2 * rest > unit || (2 * rest == unit && leading % 2 == 1) {
        (leading + 1) * unit
    } else {
        leading * unit
    }
}

/// A number below `2^(53 + k)` has a unit of at most `2^k`.
proof fn lemma_unit_of_bound(n: nat, k: nat)
    requires
        n < 0x20_0000_0000_0000 * pow2(k),
    ensures
        1 <= unit_of(n) <= pow2(k),
    decreases k,
{
    lemma2_to64();
    if n >= 0x20_0000_0000_0000 {
        if k == 0 {
            assert(false);
        } else {
            lemma_pow2_unfold(k);
            lemma_unit_of_bound(n / 2, (k - 1) as nat);
        }
    } else {
        lemma_pow2_pos(k);
    }
}

/// Rounding moves a number by less than its unit.
pub proof fn lemma_rounded_bounds(n: nat)
    ensures
        unit_of(n) >= 1,
        rounded(n) <= n + unit_of(n),
        rounded(n) + unit_of(n) > n,
        n < 0x20_0000_0000_0000 ==> rounded(n) == n,
{
    lemma_unit_of_positive(n);
    let unit = unit_of(n);
    assert(n == unit * (n / unit) + n % unit && 0 <= n % unit < unit) by (nonlinear_arith)
        requires
            unit > 0,
    ;
    assert((n / unit + 1) * unit == (n / unit) * unit + unit) by (nonlinear_arith);
    assert((n / unit) * unit == unit * (n / unit)) by (nonlinear_arith);
}

/// Every number has a unit of at least one.
proof fn lemma_unit_of_positive(n: nat)
    ensures
        unit_of(n) >= 1,
    decreases n,
{
    if n >= 0x20_0000_0000_0000 {
        lemma_unit_of_positive(n / 2);
    }
}

/// How often `power` is doubled until it reaches `n`.
pub open spec fn doublings(n: nat, power: nat) -> nat
    decreases
            (if power < n {
                n - power
            } else {
                0
            }),
{
    if power >= n || power == 0 {
        0
    } else {
        1 + doublings(n, 2 * power)
    }
}

/// The bits of the number nearest to `1 / n`, for a whole number `n`
/// that is itself a number of the format: the quotient is worked out
/// to 53 bits and rounded to the nearer side, and in the middle to the
/// side whose last bit is zero. The reciprocal of zero is infinity.
pub open spec fn reciprocal_of(n: nat) -> nat {
    if n == 0 {
        INFINITY as nat
    } else {
        let lift = 52 + doublings(n, 1);
        let quotient = pow2(lift) / n;
        let rest = pow2(lift) % n;
        let nearest = if 2 * rest > n || (2 * rest == n && quotient % 2 == 1) {
            quotient + 1
        } else {
            quotient
        };
        ((1074 - lift) * HIDDEN + nearest) as nat
    }
}

/// The bits stand for a finite number.
pub open spec fn is_finite(bits: u64) -> bool {
    magnitude(bits) < INFINITY
}

/// The whole number at or next below a finite number. What is not
/// finite has 0 here.
pub open spec fn floor_of(bits: u64) -> int {
    if !is_finite(bits) {
        0
    } else if shift(bits) <= 0 {
        if bits >= SIGN {
            -(significand(bits) * pow2((-shift(bits)) as nat))
        } else {
            significand(bits) * pow2((-shift(bits)) as nat)
        }
    } else if bits >= SIGN {
        -((significand(bits) + pow2(shift(bits) as nat) - 1) / (pow2(shift(bits) as nat) as int))
    } else {
        significand(bits) / (pow2(shift(bits) as nat) as int)
    }
}

/// A number below `2^(53 + spare)` rounded to its 53 leading bits.
pub fn round_to_leading_bits(n: u128, spare: u64) -> (r: u128)
    requires
        spare <= 64,
        n < 0x20_0000_0000_0000 * pow2(spare as nat),
    ensures
        r == rounded(n as nat),
        r <= n + pow2(spare as nat),
        r <= 0x20_0000_0000_0000 * pow2(spare as nat),
{
    let ghost limit = pow2(spare as nat);
    proof {
        lemma2_to64();
        lemma2_to64_rest();
        lemma_rounded_bounds(n as nat);
        lemma_unit_of_bound(n as nat, spare as nat);
        if spare < 64 {
            lemma_pow2_strictly_increases(spare as nat, 64);
        }
    }
    let mut unit: u128 = 1;
    let mut leading: u128 = n;
    while leading >= 0x20_0000_0000_0000
        invariant
            1 <= unit <= limit <= 0x1_0000_0000_0000_0000,
            leading == n / unit,
            unit * unit_of(leading as nat) == unit_of(n as nat),
            unit_of(n as nat) <= limit,
        decreases leading,
    {
        proof {
            lemma_div_denominator(n as int, unit as int, 2);
            assert(unit * (2 * unit_of((leading / 2) as nat)) == (unit * 2) * unit_of(
                (leading / 2) as nat,
            )) by (nonlinear_arith);
            lemma_unit_of_positive((leading / 2) as nat);
            assert(unit * 2 <= limit) by (nonlinear_arith)
                requires
                    unit * (2 * unit_of((leading / 2) as nat)) <= limit,
                    unit_of((leading / 2) as nat) >= 1,
                    unit >= 1,
            ;
        }
        leading = leading / 2;
        unit = unit * 2;
    }
    assert(unit * 1 == unit) by (nonlinear_arith);
    let rest: u128 = n % unit;
    assert(leading * unit <= n) by (nonlinear_arith)
        requires
            leading == n / unit,
            unit > 0,
    ;
    assert((leading + 1) * unit == leading * unit + unit) by (nonlinear_arith);
    assert((leading + 1) * unit <= 0x20_0000_0000_0000 * limit) by (nonlinear_arith)
        requires
            leading < 0x20_0000_0000_0000,
            unit <= limit,
            unit >= 1,
    ;
    if 2 * rest > unit || (2 * rest == unit && leading % 2 == 1) {
        (leading + 1) * unit
    } else {
        leading * unit
    }
}

/// The bits of the number nearest to `1 / n`.
pub fn reciprocal(n: u128) -> (bits: u64)
    requires
        n <= 0x1_0000_0000_0000_0000,
    ensures
        bits == reciprocal_of(n as nat),
{
    if n == 0 {
        return INFINITY;
    }
    proof {
        lemma2_to64();
        lemma2_to64_rest();
    }
    let mut power: u128 = 1;
    let mut count: u64 = 0;
    while power < n
        invariant
            0 < n <= 0x1_0000_0000_0000_0000,
            0 < power < 2 * n,
            count <= 64,
            power == pow2(count as nat),
            pow2(64) == 0x1_0000_0000_0000_0000,
            count + doublings(n as nat, power as nat) == doublings(n as nat, 1),
        decreases
                (if power < n {
                    n - power
                } else {
                    0
                }),
    {
        proof {
            lemma_pow2_unfold((count + 1) as nat);
            if count >= 64 {
                assert(false);
            }
        }
        power = power * 2;
        count = count + 1;
    }
    let lift: u64 = 52 + count;
    proof {
        lemma_pow2_adds(count as nat, 52);
    }
    assert(power * 0x10_0000_0000_0000 < 2 * n * 0x10_0000_0000_0000) by (nonlinear_arith)
        requires
            power < 2 * n,
    ;
    let scaled: u128 = power * 0x10_0000_0000_0000;
    let quotient: u128 = scaled / n;
    let rest: u128 = scaled % n;
    assert(quotient < 0x20_0000_0000_0000) by (nonlinear_arith)
        requires
            quotient == scaled / n,
            scaled < 2 * n * 0x10_0000_0000_0000,
            n > 0,
    ;
    let nearest: u128 = if 2 * rest > n || (2 * rest == n && quotient % 2 == 1) {
        quotient + 1
    } else {
        quotient
    };
    (((1074 - lift) as u128) * 0x10_0000_0000_0000 + nearest) as u64
}

/// Two to the power of `exponent`.
pub fn power_of_two(exponent: u64) -> (power: u64)
    requires
        exponent < 64,
    ensures
        power == pow2(exponent as nat),
{
    proof {
        lemma2_to64();
    }
    let mut power: u64 = 1;
    let mut at: u64 = 0;
    while at < exponent
        invariant
            at <= exponent < 64,
            power == pow2(at as nat),
            pow2(64) == 0x1_0000_0000_0000_0000,
        decreases exponent - at,
    {
        proof {
            lemma_pow2_unfold((at + 1) as nat);
            lemma_pow2_strictly_increases((at + 1) as nat, 64);
        }
        power = power * 2;
        at = at + 1;
    }
    power
}

} // verus!
