//! Integer square roots, the arithmetic behind every quadratic mean of
//! colour channels, and the number of real roots of a quadratic.

use vstd::prelude::*;
use crate::scale::{is_positive, is_zero, order_key, lemma_key_zero};

verus! {

/// How many real roots a quadratic has whose discriminant
/// `b * b - 4 * a * c` has the given bits: two above zero, one at zero,
/// and none below it or where the discriminant is no number.
pub open spec fn roots_of(discriminant: u64) -> nat {
    if is_zero(discriminant) {
        1
    } else if is_positive(discriminant) {
        2
    } else {
        0
    }
}

/// How many real roots a quadratic has, by the bits of its
/// discriminant.
pub fn root_count(discriminant: u64) -> (count: usize)
    ensures
        count == roots_of(discriminant),
        is_zero(discriminant) ==> count == 1,
        !is_zero(discriminant) && !is_positive(discriminant) ==> count == 0,
{
    proof {
        lemma_key_zero(discriminant);
    }
    let key = order_key(discriminant);
    if key == 0 {
        1
    } else if key > 0 {
        2
    } else {
        0
    }
}

/// `r` is the square root of `n`, rounded down.
pub open spec fn is_sqrt_floor(n: nat, r: nat) -> bool {
    r * r <= n < (r + 1) * (r + 1)
}

/// The square root of `n`, rounded down.
pub open spec fn sqrt_floor(n: nat) -> nat {
    choose|r: nat| is_sqrt_floor(n, r)
}

/// Squaring keeps the order of natural numbers.
proof fn lemma_square_monotonic(a: nat, b: nat)
    requires
        a <= b,
    ensures
        a * a <= b * b,
{
    assert(a * a <= b * b) by (nonlinear_arith)
        requires
            a <= b,
    ;
}

/// Every natural number has a rounded-down square root.
proof fn lemma_sqrt_floor_exists(n: nat) -> (r: nat)
    ensures
        is_sqrt_floor(n, r),
    decreases n,
{
    if n == 0 {
        assert(is_sqrt_floor(0, 0)) by (nonlinear_arith);
        0
    } else {
        let below = lemma_sqrt_floor_exists((n - 1) as nat);
        let above: nat = below + 1;
        if above * above <= n {
            assert((above + 1) * (above + 1) > above * above) by (nonlinear_arith);
            above
        } else {
            below
        }
    }
}

/// No natural number has two rounded-down square roots, so any `r`
/// that brackets `n` is `sqrt_floor(n)`.
pub proof fn lemma_sqrt_floor_unique(n: nat, r: nat)
    requires
        is_sqrt_floor(n, r),
    ensures
        sqrt_floor(n) == r,
{
    let s = sqrt_floor(n);
    assert(is_sqrt_floor(n, s));
    if s < r {
        lemma_square_monotonic(s + 1, r);
    } else if r < s {
        lemma_square_monotonic(r + 1, s);
    }
}

/// `sqrt_floor(n)` brackets `n` between two consecutive squares.
pub proof fn lemma_sqrt_floor_brackets(n: nat)
    ensures
        is_sqrt_floor(n, sqrt_floor(n)),
{
    let r = lemma_sqrt_floor_exists(n);
}

/// A larger number has no smaller root.
pub proof fn lemma_sqrt_floor_monotonic(m: nat, n: nat)
    requires
        m <= n,
    ensures
        sqrt_floor(m) <= sqrt_floor(n),
{
    lemma_sqrt_floor_brackets(m);
    lemma_sqrt_floor_brackets(n);
    if sqrt_floor(n) < sqrt_floor(m) {
        lemma_square_monotonic(sqrt_floor(n) + 1, sqrt_floor(m));
    }
}

/// The root of a perfect square is its base.
pub proof fn lemma_sqrt_floor_of_square(r: nat)
    ensures
        sqrt_floor(r * r) == r,
{
    assert(r * r < (r + 1) * (r + 1)) by (nonlinear_arith);
    lemma_sqrt_floor_unique(r * r, r);
}

/// The square root of `n`, rounded down.
pub fn isqrt(n: u64) -> (r: u64)
    ensures
        r == sqrt_floor(n as nat),
        r < 0x1_0000_0000,
{
    let mut lo: u64 = 0;
    let mut hi: u64 = 0x1_0000_0000;
    assert(0x1_0000_0000 * 0x1_0000_0000 > u64::MAX) by (nonlinear_arith);
    while hi - lo > 1
        invariant
            lo < hi <= 0x1_0000_0000,
            lo * lo <= n,
            n < hi * hi,
        decreases hi - lo,
    {
        let mid: u64 = lo + (hi - lo) / 2;
        assert(mid * mid < 0x1_0000_0000 * 0x1_0000_0000) by (nonlinear_arith)
            requires
                mid < 0x1_0000_0000,
        ;
        if mid * mid <= n {
            lo = mid;
        } else {
            hi = mid;
        }
    }
    proof {
        lemma_sqrt_floor_unique(n as nat, lo as nat);
    }
    lo
}

} // verus!
