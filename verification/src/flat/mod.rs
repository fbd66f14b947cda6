//! Annotated (polygonal) 2D complexes, such that the intersection of the boundaries of two
//! faces is connected, and the A* search over their faces.
//!
//! Vertices and faces are numbered with `u32` identifiers; a complex with `n` vertices
//! and `m` faces uses the identifiers `0..n` and `0..m`.

use vstd::prelude::*;

pub mod layer;
pub mod tesselation;
pub mod refine;
pub mod astar;

pub use layer::{GetLayerIds, LayerIds};
pub use tesselation::{Face, FrozenFace, FrozenFaceNeighbour, FrozenTesselation, Tesselation};

verus! {

/// A 2D complex: vertices with positions, faces given by their vertices, and the
/// adjacency between faces.
pub trait Topo2DComplex {
    /// The number of vertices.
    spec fn num_vertices(&self) -> nat;

    /// The number of faces.
    spec fn num_faces(&self) -> nat;

    /// Whether the complex is well formed: every identifier it hands out is in range.
    spec fn topo_wf(&self) -> bool;

    /// The position of vertex `vertex`.
    spec fn spec_vertex_position(&self, vertex: u32) -> [i32; 2];

    /// The faces that vertex `vertex` belongs to.
    spec fn spec_vertex_adjacent_faces(&self, vertex: u32) -> Seq<u32>;

    /// The vertices of face `face`.
    spec fn spec_face_adjacent_vertices(&self, face: u32) -> Seq<u32>;

    /// The faces that share an edge with face `face`.
    spec fn spec_face_adjacent_faces(&self, face: u32) -> Seq<u32>;

    /// The edge crossed when going from `face_from` to `face_to`, as `[left, right]`.
    spec fn spec_portal_between(&self, face_from: u32, face_to: u32) -> Option<[u32; 2]>;

    /// Every identifier that a well-formed complex hands out is in range.
    proof fn lemma_topo_wf(&self)
        requires
            self.topo_wf(),
        ensures
            self.num_vertices() <= u32::MAX + 1,
            self.num_faces() <= u32::MAX + 1,
            forall|v: u32, i: int| v < self.num_vertices() && 0 <= i < self.spec_vertex_adjacent_faces(v).len()
                ==> #[trigger] self.spec_vertex_adjacent_faces(v)[i] < self.num_faces(),
            forall|f: u32, i: int| f < self.num_faces() && 0 <= i < self.spec_face_adjacent_vertices(f).len()
                ==> #[trigger] self.spec_face_adjacent_vertices(f)[i] < self.num_vertices(),
            forall|f: u32, i: int| f < self.num_faces() && 0 <= i < self.spec_face_adjacent_faces(f).len()
                ==> #[trigger] self.spec_face_adjacent_faces(f)[i] < self.num_faces(),
            forall|f: u32, g: u32| f < self.num_faces() && (#[trigger] self.spec_portal_between(f, g)) is Some
                ==> self.spec_portal_between(f, g).unwrap()[0] < self.num_vertices()
                && self.spec_portal_between(f, g).unwrap()[1] < self.num_vertices(),
            forall|f: u32, g: u32| (f >= self.num_faces() || g >= self.num_faces())
                ==> (#[trigger] self.spec_portal_between(f, g)) is None,
    ;

    fn vertex_position(&self, vertex: u32) -> (r: [i32; 2])
        requires
            self.topo_wf(),
            vertex < self.num_vertices(),
        ensures
            r == self.spec_vertex_position(vertex),
    ;

    fn vertex_adjacent_faces(&self, vertex: u32) -> (r: Vec<u32>)
        requires
            self.topo_wf(),
            vertex < self.num_vertices(),
        ensures
            r@ == self.spec_vertex_adjacent_faces(vertex),
    ;

    fn face_adjacent_vertices(&self, face: u32) -> (r: Vec<u32>)
        requires
            self.topo_wf(),
            face < self.num_faces(),
        ensures
            r@ == self.spec_face_adjacent_vertices(face),
    ;

    fn face_adjacent_faces(&self, face: u32) -> (r: Vec<u32>)
        requires
            self.topo_wf(),
            face < self.num_faces(),
        ensures
            r@ == self.spec_face_adjacent_faces(face),
    ;

    /// The returned value (if any) is of the form `[left vertex, right vertex]`, i.e.
    /// ordered clockwise; `None` for a face out of range.
    fn portal_between(&self, face_from: u32, face_to: u32) -> (r: Option<[u32; 2]>)
        requires
            self.topo_wf(),
        ensures
            r == self.spec_portal_between(face_from, face_to),
    ;
}

/// A complex whose faces are each traversable on a set of layers.
pub trait MultiLayerNavmesh: Topo2DComplex {
    /// The layers on which face `face` can be traversed.
    spec fn spec_face_layers(&self, face: u32) -> Set<usize>;

    fn face_layers(&self, face: u32) -> (r: LayerIds)
        requires
            self.topo_wf(),
            face < self.num_faces(),
        ensures
            r@ == self.spec_face_layers(face),
    ;
}

} // verus!
