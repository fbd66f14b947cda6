//! Multi-layer navigation meshes whose layers are linked triangle by triangle.

use vstd::prelude::*;

use crate::layer::LayerId;

pub mod delaunay;

verus! {

/// A multi-layer navigation mesh over coordinates of type `K`.
pub trait Navmesh<K> {
    type NavnodeId;

    /// Whether `node` is a node of the mesh.
    spec fn valid_node(&self, node: Self::NavnodeId) -> bool;

    /// The nodes that share an edge with `node`.
    fn adjacents(&self, node: Self::NavnodeId) -> Vec<Self::NavnodeId>
        requires
            self.valid_node(node),
    ;

    /// The nodes of the layer above that overlap `node`.
    fn upward_stitches(&self, node: Self::NavnodeId) -> Vec<Self::NavnodeId>
        requires
            self.valid_node(node),
    ;

    /// The nodes of the layer below that overlap `node`.
    fn downward_stitches(&self, node: Self::NavnodeId) -> Vec<Self::NavnodeId>
        requires
            self.valid_node(node),
    ;

    /// The position of `node`.
    fn position(&self, node: Self::NavnodeId) -> [K; 2]
        requires
            self.valid_node(node),
    ;
}

/// A multi-layer navigation mesh that can be rebuilt from the shapes of its layers.
pub trait Remesh<K>: Navmesh<K> {
    /// Whether the mesh can be rebuilt from these shapes.
    spec fn remesh_ok(&self, shapes_per_layer: Seq<Vec<Vec<Vec<[K; 2]>>>>) -> bool;

    /// Whether layer `layer_index` can be rebuilt from these shapes.
    spec fn remesh_at_ok(&self, layer_index: LayerId, shapes: Vec<Vec<Vec<[K; 2]>>>) -> bool;

    /// Rebuilds every layer; `shapes_per_layer[i]` holds the shapes of layer `i`.
    fn remesh(&mut self, shapes_per_layer: &[Vec<Vec<Vec<[K; 2]>>>])
        requires
            old(self).remesh_ok(shapes_per_layer@),
    ;

    /// Rebuilds layer `layer_index` from its shapes.
    fn remesh_at(&mut self, layer_index: LayerId, shapes: Vec<Vec<Vec<[K; 2]>>>)
        requires
            old(self).remesh_at_ok(layer_index, shapes),
    ;
}

/// `x / 3`, rounded toward zero.
pub open spec fn trunc_div3(x: int) -> int {
    if x >= 0 { x / 3 } else { -((-x) / 3) }
}

/// The centroid of a triangle, each coordinate rounded toward zero.
pub fn centroid(v: &[[i32; 2]; 3]) -> (r: [i32; 2])
    ensures
        r[0] == trunc_div3(v[0][0] + v[1][0] + v[2][0]),
        r[1] == trunc_div3(v[0][1] + v[1][1] + v[2][1]),
{
    let sx = v[0][0] as i64 + v[1][0] as i64 + v[2][0] as i64;
    let sy = v[0][1] as i64 + v[1][1] as i64 + v[2][1] as i64;
    let qx = if sx >= 0 { sx / 3 } else { -((-sx) / 3) };
    let qy = if sy >= 0 { sy / 3 } else { -((-sy) / 3) };
    [qx as i32, qy as i32]
}

} // verus!
