//! The core of a small ray tracer, as far as it works on whole numbers:
//! colours and the framebuffer, the rules by which a render picks the
//! surface that a ray sees, follows it through mirrors and decides on
//! shadows, and the bookkeeping around a render. The geometry itself is
//! left to the caller, who hands in what it measured.

pub mod args;
pub mod camera;
pub mod canvas;
pub mod color;
pub mod double;
pub mod math;
pub mod progress_bar;
pub mod render;
pub mod scale;
pub mod scene;
pub mod shapes;
