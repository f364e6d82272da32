//! The scene: the shapes and lights of a render and the colour behind
//! them.

use vstd::prelude::*;
use crate::color::Color;

verus! {

/// What a render looks at: shapes of type `S`, lights of type `L` and a
/// background colour. Shapes and lights are only ever added, and stay in
/// the order in which they came.
pub struct Scene<S, L> {
    lights: Vec<L>,
    shapes: Vec<S>,
    background: Color,
}

impl<S, L> Scene<S, L> {
    /// The shapes, in the order in which they were added.
    pub closed spec fn spec_shapes(&self) -> Seq<S> {
        self.shapes@
    }

    /// The lights, in the order in which they were added.
    pub closed spec fn spec_lights(&self) -> Seq<L> {
        self.lights@
    }

    /// The colour of a ray that strikes nothing.
    pub closed spec fn spec_background(&self) -> Color {
        self.background
    }

    /// An empty scene in front of `background`.
    pub fn new(background: Color) -> (scene: Self)
        ensures
            scene.spec_shapes() == Seq::<S>::empty(),
            scene.spec_lights() == Seq::<L>::empty(),
            scene.spec_background() == background,
    {
        Scene { lights: Vec::new(), shapes: Vec::new(), background }
    }

    /// Adds a shape behind those that the scene holds, and hands the
    /// scene back for the next addition.
    pub fn add_shape(&mut self, shape: S) -> (scene: &mut Self)
        ensures
            scene.spec_shapes() == old(self).spec_shapes().push(shape),
            scene.spec_lights() == old(self).spec_lights(),
            scene.spec_background() == old(self).spec_background(),
            *final(self) == *final(scene),
    {
        self.shapes.push(shape);
        self
    }

    /// Adds a light behind those that the scene holds, and hands the
    /// scene back for the next addition.
    pub fn add_light(&mut self, light: L) -> (scene: &mut Self)
        ensures
            scene.spec_lights() == old(self).spec_lights().push(light),
            scene.spec_shapes() == old(self).spec_shapes(),
            scene.spec_background() == old(self).spec_background(),
            *final(self) == *final(scene),
    {
        self.lights.push(light);
        self
    }

    /// The shapes, in the order in which they were added.
    pub fn shapes(&self) -> (shapes: &Vec<S>)
        ensures
            shapes@ == self.spec_shapes(),
    {
        &self.shapes
    }

    /// The lights, in the order in which they were added.
    pub fn lights(&self) -> (lights: &Vec<L>)
        ensures
            lights@ == self.spec_lights(),
    {
        &self.lights
    }

    /// The colour of a ray that strikes nothing.
    pub fn background(&self) -> (color: Color)
        ensures
            color == self.spec_background(),
    {
        self.background
    }
}

} // verus!
