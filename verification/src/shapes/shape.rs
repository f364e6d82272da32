//! The shadow rule that every surface follows.

use vstd::prelude::*;
use crate::scale::{
    bound_key,
    bound_of,
    is_greater,
    is_negative,
    order_key,
    lemma_key_zero,
};

verus! {

/// A place where the straight line from a lit point to a light meets a
/// surface, by the bits of three measured numbers.
#[derive(Clone, Copy, Debug, PartialEq, Eq, Structural)]
pub struct Obstacle {
    /// How far the place lies from the lit point.
    pub from_start: u64,
    /// How far the place lies from the light.
    pub from_end: u64,
    /// The product of the two directions from the place to the ends of
    /// the line: below zero where the place lies between them.
    pub side: u64,
}

/// The place throws a shadow: it lies between the two ends and farther
/// than `radius` from both. The radius keeps a surface from shading
/// the very point at which it is lit. What is no number is neither
/// greater than a radius nor below zero, and nothing is greater than a
/// radius that is no number.
pub open spec fn blocks(obstacle: Obstacle, radius: u64) -> bool {
    &&& is_greater(obstacle.from_start, radius)
    &&& is_greater(obstacle.from_end, radius)
    &&& is_negative(obstacle.side)
}

/// One of the places throws a shadow.
pub open spec fn any_blocks(obstacles: Seq<Obstacle>, radius: u64) -> bool {
    exists|i: int| 0 <= i < obstacles.len() && blocks(#[trigger] obstacles[i], radius)
}

/// A surface throws no shadow from within the radius of either end of
/// the line: a point is never in its own shadow.
pub proof fn lemma_no_shadow_within_radius(obstacles: Seq<Obstacle>, radius: u64)
    requires
        forall|i: int|
            0 <= i < obstacles.len() ==> !is_greater((#[trigger] obstacles[i]).from_start, radius)
                || !is_greater(obstacles[i].from_end, radius),
    ensures
        !any_blocks(obstacles, radius),
{
}

/// A surface that the line meets only beyond its ends throws no
/// shadow.
pub proof fn lemma_no_shadow_from_outside(obstacles: Seq<Obstacle>, radius: u64)
    requires
        forall|i: int| 0 <= i < obstacles.len() ==> !is_negative((#[trigger] obstacles[i]).side),
    ensures
        !any_blocks(obstacles, radius),
{
}

/// A wider radius never adds a shadow.
pub proof fn lemma_wider_radius_clears(obstacles: Seq<Obstacle>, radius: u64, wider: u64)
    requires
        bound_of(radius) <= bound_of(wider),
        !any_blocks(obstacles, radius),
    ensures
        !any_blocks(obstacles, wider),
{
    if any_blocks(obstacles, wider) {
        let i = choose|i: int| 0 <= i < obstacles.len() && blocks(#[trigger] obstacles[i], wider);
        assert(blocks(obstacles[i], radius));
    }
}

/// Whether a surface that the line meets at `obstacles` throws a
/// shadow on the lit point.
pub fn occludes(obstacles: &Vec<Obstacle>, radius: u64) -> (shadow: bool)
    ensures
        shadow == any_blocks(obstacles@, radius),
{
    let bound = bound_key(radius);
    let mut next: usize = 0;
    while next < obstacles.len()
        invariant
            next <= obstacles@.len(),
            bound == bound_of(radius),
            forall|i: int| 0 <= i < next ==> !blocks(#[trigger] obstacles@[i], radius),
        decreases obstacles@.len() - next,
    {
        let obstacle = obstacles[next];
        proof {
            lemma_key_zero(obstacle.side);
        }
        if order_key(obstacle.from_start) > bound && order_key(obstacle.from_end) > bound
            && bound_key(obstacle.side) < 0 {
            assert(blocks(obstacles@[next as int], radius));
            return true;
        }
        next = next + 1;
    }
    false
}

} // verus!
