//! Navigation meshes whose nodes carry positions and links to other layers.

use vstd::prelude::*;

verus! {

/// A navigation mesh over coordinates of type `K`.
pub trait Navmesh<K> {
    type NavnodeId;

    /// Whether `node` is a node of the mesh.
    spec fn valid_node(&self, node: Self::NavnodeId) -> bool;

    /// The nodes that share an edge with `node`.
    fn adjacents(&self, node: Self::NavnodeId) -> Vec<Self::NavnodeId>
        requires
            self.valid_node(node),
    ;

    /// The nodes of the layer above that `node` is linked to, with the points of the links.
    fn upward_stitches(&self, node: Self::NavnodeId) -> Vec<([K; 2], Self::NavnodeId)>
        requires
            self.valid_node(node),
    ;

    /// The nodes of the layer below that `node` is linked to, with the points of the links.
    fn downward_stitches(&self, node: Self::NavnodeId) -> Vec<([K; 2], Self::NavnodeId)>
        requires
            self.valid_node(node),
    ;

    /// The position of `node`.
    fn position(&self, node: Self::NavnodeId) -> [K; 2]
        requires
            self.valid_node(node),
    ;
}

/// A navigation mesh that can be rebuilt from the shapes of its layers.
pub trait Remesh<K>: Navmesh<K> {
    /// Whether the mesh can be rebuilt from these shapes.
    spec fn remesh_ok(&self, shapes_per_layer: Seq<Vec<Vec<Vec<[K; 2]>>>>) -> bool;

    /// Rebuilds every layer; `shapes_per_layer[i]` holds the shapes (each a list of
    /// contours) of layer `i`.
    fn remesh(&mut self, shapes_per_layer: &[Vec<Vec<Vec<[K; 2]>>>])
        requires
            old(self).remesh_ok(shapes_per_layer@),
    ;
}

} // verus!
