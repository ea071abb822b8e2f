//! The output mesh type.

use vstd::prelude::*;

verus! {

/// An index into `Mesh::vertices`.
pub type VertexIndex = u32;

/// A 3D position in exact fixed-point units of one thousandth of a pixel.
/// Two vertices are the same exactly when all three coordinates are equal.
/// Every coordinate the pipeline produces comes from integer pixel
/// arithmetic plus a small set of exact nudges, so exact equality is
/// reliable; feeding coordinates from any other source would silently
/// defeat vertex welding.
#[derive(Clone, Copy, PartialEq, Eq, Structural, Debug)]
pub struct Vertex {
    pub x: i64,
    pub y: i64,
    pub z: i64,
}

/// An indexed triangle mesh: an ordered list of unique vertices plus a
/// flattened list of vertex-index triples, three per triangle.
#[derive(Debug)]
pub struct Mesh {
    pub vertices: Vec<Vertex>,
    pub faces: Vec<VertexIndex>,
}

impl Mesh {
    /// Every triangle index refers to a vertex.
    pub open spec fn wf(&self) -> bool {
        forall|i: int|
            0 <= i < self.faces@.len() ==> (#[trigger] self.faces@[i]) < self.vertices@.len()
    }

    pub fn new() -> (m: Mesh)
        ensures
            m.vertices@ == Seq::<Vertex>::empty(),
            m.faces@ == Seq::<VertexIndex>::empty(),
    {
        Mesh::from_geometry(Vec::new(), Vec::new())
    }

    pub fn from_geometry(vertices: Vec<Vertex>, faces: Vec<VertexIndex>) -> (m: Mesh)
        ensures
            m.vertices@ == vertices@,
            m.faces@ == faces@,
    {
        Mesh { vertices, faces }
    }
}

} // verus!
