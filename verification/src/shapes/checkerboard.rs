//! The two-coloured pattern of the checkerboard floor.

use vstd::prelude::*;
use vstd::arithmetic::div_mod::{lemma_basic_div, lemma_fundamental_div_mod_converse};
use vstd::arithmetic::power2::{
    pow2,
    lemma2_to64,
    lemma2_to64_rest,
    lemma_pow2_strictly_increases,
    lemma_pow2_unfold,
};
use crate::color::Color;
use crate::double::{floor_of, power_of_two, HIDDEN};
use crate::scale::{is_zero, order_key, lemma_key_zero, INFINITY, SIGN};

verus! {

/// The gray of the darker squares.
pub const DARK: u8 = 100;

/// The gray of the lighter squares.
pub const LIGHT: u8 = 128;

/// The unit square whose corner nearest the origin is `(cell_x, cell_y)`
/// is a dark one: those whose two coordinates sum to an odd number.
pub open spec fn is_dark(cell_x: int, cell_y: int) -> bool {
    (cell_x + cell_y) % 2 != 0
}

/// The colour of the unit square at `(cell_x, cell_y)`.
pub open spec fn tile(cell_x: int, cell_y: int) -> Color {
    if is_dark(cell_x, cell_y) {
        Color { r: DARK, g: DARK, b: DARK }
    } else {
        Color { r: LIGHT, g: LIGHT, b: LIGHT }
    }
}

/// Two squares that share an edge differ in colour.
pub proof fn lemma_neighbours_differ(cell_x: int, cell_y: int)
    ensures
        tile(cell_x + 1, cell_y) != tile(cell_x, cell_y),
        tile(cell_x, cell_y + 1) != tile(cell_x, cell_y),
{
}

/// The pattern repeats after two squares along either axis, and along
/// the diagonals after one.
pub proof fn lemma_pattern_repeats(cell_x: int, cell_y: int)
    ensures
        tile(cell_x + 2, cell_y) == tile(cell_x, cell_y),
        tile(cell_x, cell_y + 2) == tile(cell_x, cell_y),
        tile(cell_x + 1, cell_y + 1) == tile(cell_x, cell_y),
        tile(cell_x + 1, cell_y - 1) == tile(cell_x, cell_y),
{
}

/// How often a ray meets the floor: never where it runs level, its
/// direction having a height of zero with either sign, whatever its
/// origin; else once.
pub open spec fn hits_of(direction_height: u64) -> nat {
    if is_zero(direction_height) {
        0
    } else {
        1
    }
}

/// How often a ray meets the floor, by the bits of the height of its
/// direction.
pub fn hit_count(direction_height: u64) -> (count: usize)
    ensures
        count == hits_of(direction_height),
        is_zero(direction_height) ==> count == 0,
{
    proof {
        lemma_key_zero(direction_height);
    }
    if order_key(direction_height) == 0 {
        0
    } else {
        1
    }
}

/// The colour of the unit square at `(cell_x, cell_y)`: the coordinates
/// of a point of the floor, each rounded down.
pub fn tile_color(cell_x: i64, cell_y: i64) -> (color: Color)
    ensures
        color == tile(cell_x as int, cell_y as int),
{
    let odd_x = cell_x % 2 != 0;
    let odd_y = cell_y % 2 != 0;
    if odd_x != odd_y {
        Color::gray(DARK)
    } else {
        Color::gray(LIGHT)
    }
}

/// Whether the whole number at or next below the number with the
/// given bits is odd.
fn floor_is_odd(bits: u64) -> (odd: bool)
    ensures
        odd == (floor_of(bits) % 2 != 0),
{
    let negative = bits >= SIGN;
    let size: u64 = if negative {
        bits - SIGN
    } else {
        bits
    };
    if size >= INFINITY {
        return false;
    }
    let exponent: u64 = size / HIDDEN;
    let fraction: u64 = size % HIDDEN;
    let significand: u64 = if exponent == 0 {
        fraction
    } else {
        fraction + HIDDEN
    };
    proof {
        lemma2_to64();
        lemma2_to64_rest();
    }
    if exponent > 1075 {
        proof {
            let up = (exponent - 1075) as nat;
            lemma_pow2_unfold(up);
            assert(significand * (2 * pow2((up - 1) as nat)) == 2 * (significand * pow2(
                (up - 1) as nat,
            ))) by (nonlinear_arith);
        }
        false
    } else if exponent == 1075 {
        assert(significand * 1 == significand) by (nonlinear_arith);
        significand % 2 == 1
    } else {
        let shift: u64 = if exponent == 0 {
            1074
        } else {
            1075 - exponent
        };
        if shift >= 53 {
            proof {
                let power = pow2(shift as nat) as int;
                if shift > 53 {
                    lemma_pow2_strictly_increases(53, shift as nat);
                }
                lemma_basic_div(significand as int, power);
                if significand > 0 {
                    lemma_fundamental_div_mod_converse(
                        significand + power - 1,
                        power,
                        1,
                        significand - 1,
                    );
                } else {
                    lemma_basic_div(power - 1, power);
                }
            }
            negative && significand > 0
        } else {
            let power = power_of_two(shift);
            proof {
                lemma_pow2_strictly_increases(0, shift as nat);
            }
            let whole: u64 = significand / power;
            let rest: u64 = significand % power;
            proof {
                assert(significand == power * whole + rest) by (nonlinear_arith)
                    requires
                        whole == significand / power,
                        rest == significand % power,
                        power > 0,
                ;
                if rest > 0 {
                    assert((whole + 1) * power + (rest - 1) == significand + power - 1)
                        by (nonlinear_arith)
                        requires
                            significand == power * whole + rest,
                    ;
                    lemma_fundamental_div_mod_converse(
                        significand + power - 1,
                        power as int,
                        whole + 1,
                        rest - 1,
                    );
                } else {
                    assert(whole * power + (power - 1) == significand + power - 1)
                        by (nonlinear_arith)
                        requires
                            significand == power * whole + rest,
                            rest == 0,
                    ;
                    lemma_fundamental_div_mod_converse(
                        significand + power - 1,
                        power as int,
                        whole as int,
                        power - 1,
                    );
                }
            }
            if negative && rest > 0 {
                (whole + 1) % 2 == 1
            } else {
                whole % 2 == 1
            }
        }
    }
}

/// The colour of the floor under the point whose two level coordinates
/// have the given bits: that of the unit square that holds the point.
/// A coordinate that is not finite counts as 0.
pub fn color_at(x: u64, y: u64) -> (color: Color)
    ensures
        color == tile(floor_of(x), floor_of(y)),
{
    if floor_is_odd(x) != floor_is_odd(y) {
        Color::gray(DARK)
    } else {
        Color::gray(LIGHT)
    }
}

} // verus!
