//! The renderable data model: a figure owns a flattened vertex list and
//! the primitive topology a renderer should draw it with; a scene is an
//! ordered collection of figures, rendered in the order appended.
//!
//! Neither issues draw calls itself: the graphics context consumes the
//! vertex list across this boundary.

use vstd::prelude::*;

use crate::geometry::Point;

verus! {

/// How consecutive vertices connect on the screen.
#[derive(Clone, Copy, Debug, PartialEq, Eq, Structural)]
pub enum Topology {
    LineStrip,
    TriangleStrip,
}

/// A flattened shape ready for rendering: vertices and their topology,
/// fixed at construction.
pub struct Figure {
    vertices: Vec<Point>,
    topology: Topology,
}

impl Figure {
    /// The owned vertex list.
    pub closed spec fn spec_vertices(&self) -> Seq<Point> {
        self.vertices@
    }

    /// The owned topology.
    pub closed spec fn spec_topology(&self) -> Topology {
        self.topology
    }

    /// Take ownership of a vertex list under a topology.
    pub fn new(vertices: Vec<Point>, topology: Topology) -> (r: Figure)
        ensures
            r.spec_vertices() == vertices@,
            r.spec_topology() == topology,
    {
        Figure { vertices, topology }
    }

    /// The vertices, for upload to a graphics context.
    pub fn vertices(&self) -> (r: &Vec<Point>)
        ensures
            r@ == self.spec_vertices(),
    {
        &self.vertices
    }

    /// The topology to draw with.
    pub fn topology(&self) -> (r: Topology)
        ensures
            r == self.spec_topology(),
    {
        self.topology
    }
}

/// An ordered collection of figures.
pub struct Scene {
    objects: Vec<Figure>,
}

impl Scene {
    /// The figures, in the order they were appended.
    pub closed spec fn spec_objects(&self) -> Seq<Figure> {
        self.objects@
    }

    /// Create an empty scene.
    pub fn new() -> (r: Scene)
        ensures
            r.spec_objects() == Seq::<Figure>::empty(),
    {
        Scene { objects: Vec::new() }
    }

    /// Append a figure; it will render after every figure already here.
    pub fn append(&mut self, figure: Figure)
        ensures
            final(self).spec_objects() == old(self).spec_objects().push(figure),
    {
        self.objects.push(figure);
    }

    /// How many figures the scene holds.
    pub fn len(&self) -> (r: usize)
        ensures
            r == self.spec_objects().len(),
    {
        self.objects.len()
    }

    /// The figure at position `i` in render order.
    pub fn get(&self, i: usize) -> (r: &Figure)
        requires
            i < self.spec_objects().len(),
        ensures
            *r == self.spec_objects()[i as int],
    {
        &self.objects[i]
    }
}

}
