//! What the surfaces of a scene decide on whole numbers: which square of
//! the floor has which colour, and when a surface casts a shadow.

pub mod checkerboard;
pub mod shape;
