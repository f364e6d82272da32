//! Eight-bit RGB colours and their blending.

use vstd::prelude::*;
use vstd::arithmetic::div_mod::lemma_basic_div;
use vstd::arithmetic::power2::{pow2, lemma2_to64, lemma2_to64_rest, lemma_pow2_strictly_increases};
use crate::math::{isqrt, sqrt_floor, lemma_sqrt_floor_monotonic, lemma_sqrt_floor_of_square};
use crate::double::{power_of_two, round_to_leading_bits, rounded, shift, significand, HIDDEN};
use crate::scale::{is_number, is_one_or_more, is_positive, order_key, lemma_key_zero, ONE};

verus! {

/// A colour with one byte per channel.
#[derive(Clone, Copy, Debug, PartialEq, Eq, Structural)]
pub struct Color {
    pub r: u8,
    pub g: u8,
    pub b: u8,
}

/// How much of a colour an illumination leaves.
#[derive(Clone, Copy, Debug, PartialEq, Eq, Structural)]
pub enum Exposure {
    /// Nothing: the illumination is zero or less.
    Dark,
    /// A part: the illumination lies between zero and one, or is no
    /// number.
    Partial,
    /// All: the illumination is one or more.
    Full,
}

/// What the illumination with the given bits leaves of a colour.
pub open spec fn exposure_of(illumination: u64) -> Exposure {
    if is_one_or_more(illumination) {
        Exposure::Full
    } else if is_positive(illumination) || !is_number(illumination) {
        Exposure::Partial
    } else {
        Exposure::Dark
    }
}

/// A channel under an illumination between zero and one: their product,
/// rounded as the double format rounds it and then cut down to a whole
/// number. Under what is no number a channel is 0.
pub open spec fn scaled_channel(channel: u8, illumination: u64) -> nat {
    if is_number(illumination) {
        rounded((channel * significand(illumination)) as nat) / pow2(shift(illumination) as nat)
    } else {
        0
    }
}

/// A colour under an illumination: black where nothing is left of it,
/// itself where all is left, and between the two scaled channel by
/// channel.
pub open spec fn dimmed(color: Color, illumination: u64) -> Color {
    match exposure_of(illumination) {
        Exposure::Dark => Color { r: 0, g: 0, b: 0 },
        Exposure::Partial => Color {
            r: scaled_channel(color.r, illumination) as u8,
            g: scaled_channel(color.g, illumination) as u8,
            b: scaled_channel(color.b, illumination) as u8,
        },
        Exposure::Full => color,
    }
}

/// The share of the second colour in a blend: `num / den`, and never
/// more than the whole.
pub open spec fn blend_weight(num: nat, den: nat) -> nat {
    if num < den {
        num
    } else {
        den
    }
}

/// The weighted mean of the squares of two channels, rounded down: the
/// second channel's square at the share `num / den`, the first one's at
/// what is left of the whole.
pub open spec fn blend_square(a: u8, b: u8, num: nat, den: nat) -> int
    recommends
        den > 0,
{
    let weight = blend_weight(num, den);
    ((den - weight) * (a * a) + weight * (b * b)) / (den as int)
}

/// One channel of a blend: the quadratic mean of the two channels, the
/// second at the share `num / den`, rounded down and cut off at 255. At
/// a share of one half this is the root of `(a * a + b * b) / 2`.
pub open spec fn blend_channel(a: u8, b: u8, num: nat, den: nat) -> nat
    recommends
        den > 0,
{
    let root = sqrt_floor(blend_square(a, b, num, den) as nat);
    if root < 255 {
        root
    } else {
        255
    }
}

/// The blend of two colours, channel by channel.
pub open spec fn blend_colors(first: Color, second: Color, num: nat, den: nat) -> Color
    recommends
        den > 0,
{
    Color {
        r: blend_channel(first.r, second.r, num, den) as u8,
        g: blend_channel(first.g, second.g, num, den) as u8,
        b: blend_channel(first.b, second.b, num, den) as u8,
    }
}

/// The mean of the squares lies between the squares of the two
/// channels.
proof fn lemma_blend_square_bounds(a: u8, b: u8, num: nat, den: nat, low: int, high: int)
    requires
        den > 0,
        0 <= low <= a <= high,
        low <= b <= high,
    ensures
        low * low <= blend_square(a, b, num, den) <= high * high,
{
    let weight = blend_weight(num, den) as int;
    let first = a * a;
    let second = b * b;
    let bottom = low * low;
    let top = high * high;
    assert(bottom <= first <= top && bottom <= second <= top) by (nonlinear_arith)
        requires
            0 <= low <= a <= high,
            low <= b <= high,
            first == a * a,
            second == b * b,
            bottom == low * low,
            top == high * high,
    ;
    let total = (den - weight) * first + weight * second;
    assert(den * bottom <= total <= den * top) by (nonlinear_arith)
        requires
            0 <= weight <= den,
            bottom <= first <= top,
            bottom <= second <= top,
            total == (den - weight) * first + weight * second,
    ;
    assert(bottom <= total / (den as int) <= top) by (nonlinear_arith)
        requires
            den > 0,
            den * bottom <= total <= den * top,
    ;
}

/// A blended channel lies between the two channels that it blends.
pub proof fn lemma_blend_channel_bounds(a: u8, b: u8, num: nat, den: nat)
    requires
        den > 0,
    ensures
        a <= b ==> a <= blend_channel(a, b, num, den) <= b,
        b <= a ==> b <= blend_channel(a, b, num, den) <= a,
        blend_channel(a, b, num, den) == sqrt_floor(blend_square(a, b, num, den) as nat),
{
    let low: int = if a <= b {
        a as int
    } else {
        b as int
    };
    let high: int = if a <= b {
        b as int
    } else {
        a as int
    };
    lemma_blend_square_bounds(a, b, num, den, low, high);
    assert(low * low >= 0) by (nonlinear_arith);
    lemma_sqrt_floor_of_square(low as nat);
    lemma_sqrt_floor_of_square(high as nat);
    lemma_sqrt_floor_monotonic((low * low) as nat, blend_square(a, b, num, den) as nat);
    lemma_sqrt_floor_monotonic(blend_square(a, b, num, den) as nat, (high * high) as nat);
}

/// The blend of a colour with itself is that colour, at any share.
pub proof fn lemma_blend_of_equals(color: Color, num: nat, den: nat)
    requires
        den > 0,
    ensures
        blend_colors(color, color, num, den) == color,
{
    lemma_blend_channel_bounds(color.r, color.r, num, den);
    lemma_blend_channel_bounds(color.g, color.g, num, den);
    lemma_blend_channel_bounds(color.b, color.b, num, den);
}

/// With no share for the second colour the blend is the first colour,
/// and with the whole share it is the second.
pub proof fn lemma_blend_ends(first: Color, second: Color, whole: nat, den: nat)
    requires
        den > 0,
        whole >= den,
    ensures
        blend_colors(first, second, 0, den) == first,
        blend_colors(first, second, whole, den) == second,
{
    assert forall|a: u8, b: u8|
        blend_channel(a, b, 0, den) == a && blend_channel(a, b, whole, den) == b by {
        let first_square = a * a;
        let second_square = b * b;
        assert(((den - 0) * first_square + 0 * second_square) / (den as int) == first_square)
            by (nonlinear_arith)
            requires
                den > 0,
        ;
        assert(((den - den) * first_square + den * second_square) / (den as int) == second_square)
            by (nonlinear_arith)
            requires
                den > 0,
        ;
        assert(first_square >= 0 && second_square >= 0) by (nonlinear_arith)
            requires
                first_square == a * a,
                second_square == b * b,
        ;
        lemma_sqrt_floor_of_square(a as nat);
        lemma_sqrt_floor_of_square(b as nat);
    }
}

/// Draws one byte from `rand`'s thread-local generator
/// (`rand::thread_rng().gen::<u8>()`). Nothing is claimed of the byte:
/// every value can come back. The generator seeds itself from the
/// operating system, on its first use in a thread and from time to
/// time after, and gives up where the system has no randomness to
/// give.
#[verifier::external_body]
fn random_channel() -> u8 {
    rand::Rng::gen::<u8>(&mut rand::thread_rng())
}

/// What the illumination with the given bits leaves of a colour.
pub fn exposure(illumination: u64) -> (left: Exposure)
    ensures
        left == exposure_of(illumination),
{
    proof {
        lemma_key_zero(illumination);
    }
    let key = order_key(illumination);
    if key >= ONE as i64 {
        Exposure::Full
    } else if key > 0 || key == i64::MIN {
        Exposure::Partial
    } else {
        Exposure::Dark
    }
}

/// A channel under an illumination that lies between zero and one, or
/// is no number.
fn scale_channel(channel: u8, illumination: u64) -> (scaled: u8)
    requires
        exposure_of(illumination) == Exposure::Partial,
    ensures
        scaled == scaled_channel(channel, illumination),
        scaled <= channel,
{
    if illumination >= ONE {
        return 0;
    }
    let exponent: u64 = illumination / HIDDEN;
    let fraction: u64 = illumination % HIDDEN;
    let significand: u64 = if exponent == 0 {
        fraction
    } else {
        fraction + HIDDEN
    };
    let shift: u64 = if exponent == 0 {
        1074
    } else {
        1075 - exponent
    };
    assert((channel as u64) * significand <= 255 * 0x1f_ffff_ffff_ffff) by (nonlinear_arith)
        requires
            channel <= 255,
            significand <= 0x1f_ffff_ffff_ffff,
    ;
    let product: u64 = (channel as u64) * significand;
    proof {
        lemma2_to64();
    }
    let rounded: u64 = round_to_leading_bits(product as u128, 8) as u64;
    proof {
        lemma2_to64_rest();
        assert(product <= channel * 0x1f_ffff_ffff_ffff) by (nonlinear_arith)
            requires
                product == channel * significand,
                significand <= 0x1f_ffff_ffff_ffff,
                channel >= 0,
        ;
    }
    if shift > 61 {
        proof {
            if shift > 62 {
                lemma_pow2_strictly_increases(62, shift as nat);
            }
            lemma_basic_div(rounded as int, pow2(shift as nat) as int);
        }
        0
    } else {
        let power = power_of_two(shift);
        proof {
            if shift > 53 {
                lemma_pow2_strictly_increases(53, shift as nat);
            }
        }
        assert(rounded / power <= channel) by (nonlinear_arith)
            requires
                rounded <= channel * 0x1f_ffff_ffff_ffff + 256,
                power >= 0x20_0000_0000_0000,
                channel >= 0,
        ;
        (rounded / power) as u8
    }
}

impl Color {
    /// The gray whose three channels all equal `brightness`.
    pub fn gray(brightness: u8) -> (c: Color)
        ensures
            c == (Color { r: brightness, g: brightness, b: brightness }),
    {
        Color { r: brightness, g: brightness, b: brightness }
    }

    /// The colour with the given channels.
    pub fn rgb(r: u8, g: u8, b: u8) -> (c: Color)
        ensures
            c == (Color { r, g, b }),
    {
        Color { r, g, b }
    }

    /// A colour whose three channels are drawn at random, one after
    /// the other. Any colour can come back.
    pub fn random() -> Color {
        let r = random_channel();
        let g = random_channel();
        let b = random_channel();
        Color::rgb(r, g, b)
    }

    /// The colour under the illumination with the given bits: black
    /// under an illumination of zero or less, the colour itself under
    /// one of one or more, and between the two each channel times the
    /// illumination, cut down to a whole number. Under what is no
    /// number the colour is black.
    pub fn dim(&self, illumination: u64) -> (color: Color)
        ensures
            color == dimmed(*self, illumination),
            is_one_or_more(illumination) ==> color == *self,
            is_number(illumination) && !is_positive(illumination) ==> color == (Color {
                r: 0,
                g: 0,
                b: 0,
            }),
            color.r <= self.r && color.g <= self.g && color.b <= self.b,
    {
        match exposure(illumination) {
            Exposure::Dark => Color::gray(0),
            Exposure::Partial => Color {
                r: scale_channel(self.r, illumination),
                g: scale_channel(self.g, illumination),
                b: scale_channel(self.b, illumination),
            },
            Exposure::Full => *self,
        }
    }

    /// One channel of a blend of `a` and `b`, with `b` at the share
    /// `num / den`.
    pub fn blend_component(a: u8, b: u8, num: u32, den: u32) -> (c: u8)
        requires
            den > 0,
        ensures
            c == blend_channel(a, b, num as nat, den as nat),
    {
        let weight: u64 = if num < den {
            num as u64
        } else {
            den as u64
        };
        let rest: u64 = den as u64 - weight;
        proof {
            lemma_blend_square_bounds(a, b, num as nat, den as nat, 0, 255);
            lemma_sqrt_floor_of_square(255);
            lemma_sqrt_floor_monotonic(blend_square(a, b, num as nat, den as nat) as nat, 65025);
        }
        assert(a * a <= 65025 && b * b <= 65025) by (nonlinear_arith)
            requires
                a <= 255,
                b <= 255,
        ;
        let first: u64 = (a as u64) * (a as u64);
        let second: u64 = (b as u64) * (b as u64);
        assert(rest * first <= 0xffff_ffff * 65025 && weight * second <= 0xffff_ffff * 65025)
            by (nonlinear_arith)
            requires
                first <= 65025,
                second <= 65025,
                rest <= 0xffff_ffff,
                weight <= 0xffff_ffff,
        ;
        let mean: u64 = (rest * first + weight * second) / (den as u64);
        let root = isqrt(mean);
        if root < 255 {
            root as u8
        } else {
            255
        }
    }

    /// The blend of this colour and `other`, with `other` at the share
    /// `num / den`, which counts as 1 where it is larger. Each channel
    /// is the quadratic mean of the two at these weights.
    pub fn blend(&self, other: &Color, num: u32, den: u32) -> (c: Color)
        requires
            den > 0,
        ensures
            c == blend_colors(*self, *other, num as nat, den as nat),
    {
        Color {
            r: Color::blend_component(self.r, other.r, num, den),
            g: Color::blend_component(self.g, other.g, num, den),
            b: Color::blend_component(self.b, other.b, num, den),
        }
    }
}

} // verus!
