//! A navigation mesh made of one Delaunay triangulation per layer.

use vstd::prelude::*;

use crate::navmesh::{Navmesh, Remesh};
use i_triangle::i_overlay::i_float::int::point::IntPoint;
use i_triangle::int::triangulatable::IntTriangulatable;

verus! {

/// The shapes of a layer as plain sequences.
pub open spec fn shapes_view(shapes: Vec<Vec<Vec<[i32; 2]>>>) -> Seq<Seq<Seq<[i32; 2]>>> {
    shapes@.map_values(|s: Vec<Vec<[i32; 2]>>| s@.map_values(|c: Vec<[i32; 2]>| c@))
}

/// Whether a point lies in the safe coordinate range of the `i32` engine of `i_overlay`
/// (each coordinate strictly between `-2^30` and `2^30`, as `IntPoint::is_in_safe_range`
/// states it), outside of which its results are not defined.
pub open spec fn in_overlay_range(p: [i32; 2]) -> bool {
    &&& -0x4000_0000 < p[0] < 0x4000_0000
    &&& -0x4000_0000 < p[1] < 0x4000_0000
}

/// Whether every point of the shapes lies in the coordinate range of `i_overlay`.
pub open spec fn shapes_in_overlay_range(shapes: Seq<Seq<Seq<[i32; 2]>>>) -> bool {
    forall|i: int, j: int, k: int|
        0 <= i < shapes.len() && 0 <= j < shapes[i].len() && 0 <= k < shapes[i][j].len() ==> in_overlay_range(
            #[trigger] shapes[i][j][k],
        )
}

/// The constrained Delaunay triangulation that `i_triangle` computes for some shapes: its
/// points, the corner indices of its triangles (three per triangle) and, per triangle, the
/// indices of its three neighbours (`usize::MAX` where there is none).
pub uninterp spec fn delaunay_of(shapes: Seq<Seq<Seq<[i32; 2]>>>) -> (Seq<[i32; 2]>, Seq<usize>, Seq<[usize; 3]>);

/// `IntTriangulatable::triangulate` of `i_triangle` on the shapes, refined by
/// `into_delaunay`, read back through `points`, `triangle_indices` and
/// `triangle_neighbors`. The source gives three indices per triangle and one neighbour
/// triple per triangle; that each index is below the number of points is not stated.
#[verifier::external_body]
pub(crate) fn delaunay_triangulation(shapes: &Vec<Vec<Vec<[i32; 2]>>>) -> (r: (Vec<[i32; 2]>, Vec<usize>, Vec<[usize; 3]>))
    requires
        shapes_in_overlay_range(shapes_view(*shapes)),
    ensures
        (r.0@, r.1@, r.2@) == delaunay_of(shapes_view(*shapes)),
        r.1@.len() == 3 * r.2@.len(),
{
    let int_shapes: Vec<Vec<Vec<IntPoint<i32>>>> = shapes.iter().map(|shape| {
        shape.iter().map(|c| c.iter().map(|p| IntPoint::new(p[0], p[1])).collect()).collect()
    }).collect();
    let raw = int_shapes.triangulate().into_delaunay().into_raw();
    let points = raw.points().iter().map(|p| [p.x, p.y]).collect();
    (points, raw.triangle_indices::<usize>(), raw.triangle_neighbors())
}

/// Whether every corner index of a complete triple (the first `3 * (len / 3)` indices) is
/// below `n`; indices after the last complete triple are not read.
pub open spec fn triple_indices_below(indices: Seq<usize>, n: int) -> bool {
    forall|i: int| 0 <= i < 3 * (indices.len() / 3) ==> (#[trigger] indices[i]) < n
}

/// The identifier of a triangle: its layer and its index in that layer.
#[derive(Clone, Copy, Debug, Eq, Ord, PartialEq, PartialOrd, Structural)]
pub struct DelaunayTriangleId {
    layer: usize,
    index: usize,
}

impl DelaunayTriangleId {
    /// The identifier of triangle `index` of layer `layer`.
    pub closed spec fn spec_new(layer: usize, index: usize) -> Self {
        DelaunayTriangleId { layer, index }
    }

    /// The parts of an identifier made by [`Self::spec_new`].
    pub proof fn lemma_spec_new(layer: usize, index: usize)
        ensures
            Self::spec_new(layer, index).spec_layer() == layer,
            Self::spec_new(layer, index).spec_index() == index,
    {
    }

    /// The layer of the triangle.
    pub closed spec fn spec_layer(self) -> usize {
        self.layer
    }

    /// The index of the triangle in its layer.
    pub closed spec fn spec_index(self) -> usize {
        self.index
    }

    /// The identifier of triangle `index` of layer `layer`.
    pub fn new(layer: usize, index: usize) -> (r: Self)
        ensures
            r == Self::spec_new(layer, index),
            r.spec_layer() == layer,
            r.spec_index() == index,
    {
        Self { layer, index }
    }

    /// The layer of the triangle.
    pub fn layer(&self) -> (r: usize)
        ensures
            r == self.spec_layer(),
    {
        self.layer
    }

    /// The index of the triangle in its layer.
    pub fn index(&self) -> (r: usize)
        ensures
            r == self.spec_index(),
    {
        self.index
    }

    /// Identifiers are equal exactly when their layers and indices are.
    pub proof fn lemma_id_eq(a: Self, b: Self)
        ensures
            a == b <==> (a.spec_layer() == b.spec_layer() && a.spec_index() == b.spec_index()),
    {
    }
}

/// The triangles of one layer: their corners and their neighbours.
#[derive(Debug)]
pub struct DelaunayTriangulation<K> {
    vertices: Vec<[[K; 2]; 3]>,
    adjacents: Vec<[DelaunayTriangleId; 3]>,
}

impl<K> DelaunayTriangulation<K> {
    /// The corners of the triangles.
    pub closed spec fn spec_vertices(&self) -> Seq<[[K; 2]; 3]> {
        self.vertices@
    }

    /// The neighbours of the triangles.
    pub closed spec fn spec_adjacents(&self) -> Seq<[DelaunayTriangleId; 3]> {
        self.adjacents@
    }

    /// The corners of the triangles.
    pub fn vertices(&self) -> (r: &[[[K; 2]; 3]])
        ensures
            r@ == self.spec_vertices(),
    {
        self.vertices.as_slice()
    }

    /// The neighbours of the triangles.
    pub fn adjacents(&self) -> (r: &[[DelaunayTriangleId; 3]])
        ensures
            r@ == self.spec_adjacents(),
    {
        self.adjacents.as_slice()
    }
}

/// A layer: its triangulation and the links of its triangles to the layers above and below.
#[derive(Debug)]
pub struct DelaunayNavmeshLayer<K> {
    triangulation: DelaunayTriangulation<K>,
    upward_stitches: Vec<Vec<([K; 2], DelaunayTriangleId)>>,
    downward_stitches: Vec<Vec<([K; 2], DelaunayTriangleId)>>,
}

impl<K> DelaunayNavmeshLayer<K> {
    /// The triangulation of the layer.
    pub closed spec fn spec_triangulation(&self) -> DelaunayTriangulation<K> {
        self.triangulation
    }

    /// The links of each triangle to the layer above.
    pub closed spec fn spec_upward_stitches(&self) -> Seq<Vec<([K; 2], DelaunayTriangleId)>> {
        self.upward_stitches@
    }

    /// The links of each triangle to the layer below.
    pub closed spec fn spec_downward_stitches(&self) -> Seq<Vec<([K; 2], DelaunayTriangleId)>> {
        self.downward_stitches@
    }

    /// The triangulation of the layer.
    pub fn triangulation(&self) -> (r: &DelaunayTriangulation<K>)
        ensures
            *r == self.spec_triangulation(),
    {
        &self.triangulation
    }
}

/// A navigation mesh with one triangulated layer per index.
#[derive(Debug)]
pub struct DelaunayNavmesh<K> {
    layers: Vec<DelaunayNavmeshLayer<K>>,
}

impl<K> DelaunayNavmesh<K> {
    /// The layers of the mesh.
    pub closed spec fn spec_layers(&self) -> Seq<DelaunayNavmeshLayer<K>> {
        self.layers@
    }

    /// The layers of the mesh.
    pub fn layers(&self) -> (r: &[DelaunayNavmeshLayer<K>])
        ensures
            r@ == self.spec_layers(),
    {
        self.layers.as_slice()
    }
}

/// The triangles described by the corner indices `indices` (three per triangle, a
/// shorter remainder being ignored) into the points `positions`.
pub open spec fn spec_triangle_corners<K>(positions: Seq<[K; 2]>, indices: Seq<usize>) -> Seq<[[K; 2]; 3]> {
    Seq::new(
        indices.len() / 3,
        |t: int| [positions[indices[3 * t] as int], positions[indices[3 * t + 1] as int], positions[indices[3 * t + 2] as int]],
    )
}

/// A neighbour index as an identifier: `usize::MAX` is the outside, `boundary_id`.
pub open spec fn spec_neighbour_id(layer_index: usize, boundary_id: DelaunayTriangleId, n: usize) -> DelaunayTriangleId {
    if n == usize::MAX {
        boundary_id
    } else {
        DelaunayTriangleId::spec_new(layer_index, n)
    }
}

/// The neighbour identifiers of each triangle.
pub open spec fn spec_neighbour_ids(layer_index: usize, boundary_id: DelaunayTriangleId, neighbors: Seq<[usize; 3]>) -> Seq<[DelaunayTriangleId; 3]> {
    neighbors.map_values(|n: [usize; 3]| [
        spec_neighbour_id(layer_index, boundary_id, n[0]),
        spec_neighbour_id(layer_index, boundary_id, n[1]),
        spec_neighbour_id(layer_index, boundary_id, n[2]),
    ])
}

/// A neighbour index as an identifier (see [`spec_neighbour_id`]).
fn neighbour_id(layer_index: usize, boundary_id: DelaunayTriangleId, n: usize) -> (r: DelaunayTriangleId)
    ensures
        r == spec_neighbour_id(layer_index, boundary_id, n),
{
    if n == usize::MAX {
        boundary_id
    } else {
        DelaunayTriangleId::new(layer_index, n)
    }
}

/// An empty layer.
fn empty_layer<K>() -> (r: DelaunayNavmeshLayer<K>)
    ensures
        r.spec_triangulation().spec_vertices() == Seq::<[[K; 2]; 3]>::empty(),
        r.spec_triangulation().spec_adjacents() == Seq::<[DelaunayTriangleId; 3]>::empty(),
        r.spec_upward_stitches() == Seq::<Vec<([K; 2], DelaunayTriangleId)>>::empty(),
        r.spec_downward_stitches() == Seq::<Vec<([K; 2], DelaunayTriangleId)>>::empty(),
{
    DelaunayNavmeshLayer {
        triangulation: DelaunayTriangulation { vertices: Vec::new(), adjacents: Vec::new() },
        upward_stitches: Vec::new(),
        downward_stitches: Vec::new(),
    }
}

/// Stores a triangulation as layer `layer_index`, adding empty layers below it where
/// there are none yet. The links of the layer are kept.
pub(crate) fn store_delaunay_in_navmesh_layer<K: Copy>(
    layers: &mut Vec<DelaunayNavmeshLayer<K>>,
    layer_index: usize,
    boundary_id: DelaunayTriangleId,
    corner_positions: &[[K; 2]],
    triangle_indices: &[usize],
    triangle_neighbors: Vec<[usize; 3]>,
)
    requires
        layer_index < usize::MAX,
        triple_indices_below(triangle_indices@, corner_positions@.len() as int),
    ensures
        final(layers)@.len() == if layer_index < old(layers)@.len() { old(layers)@.len() as int } else { layer_index + 1 },
        forall|j: int| 0 <= j < final(layers)@.len() && j != layer_index ==> {
            if j < old(layers)@.len() {
                #[trigger] final(layers)@[j] == old(layers)@[j]
            } else {
                &&& final(layers)@[j].spec_triangulation().spec_vertices().len() == 0
                &&& final(layers)@[j].spec_triangulation().spec_adjacents().len() == 0
                &&& final(layers)@[j].spec_upward_stitches().len() == 0
                &&& final(layers)@[j].spec_downward_stitches().len() == 0
            }
        },
        final(layers)@[layer_index as int].spec_triangulation().spec_vertices() == spec_triangle_corners(
            corner_positions@,
            triangle_indices@,
        ),
        final(layers)@[layer_index as int].spec_triangulation().spec_adjacents() == spec_neighbour_ids(
            layer_index,
            boundary_id,
            triangle_neighbors@,
        ),
        layer_index < old(layers)@.len() ==> final(layers)@[layer_index as int].spec_upward_stitches()
            == old(layers)@[layer_index as int].spec_upward_stitches(),
        layer_index < old(layers)@.len() ==> final(layers)@[layer_index as int].spec_downward_stitches()
            == old(layers)@[layer_index as int].spec_downward_stitches(),
        layer_index >= old(layers)@.len() ==> final(layers)@[layer_index as int].spec_upward_stitches().len() == 0,
        layer_index >= old(layers)@.len() ==> final(layers)@[layer_index as int].spec_downward_stitches().len() == 0,
{
    let mut vertices: Vec<[[K; 2]; 3]> = Vec::new();
    let ntri = triangle_indices.len() / 3;
    let mut t: usize = 0;
    while t < ntri
        invariant
            ntri == triangle_indices@.len() / 3,
            triangle_indices@.len() <= usize::MAX,
            t <= ntri,
            triple_indices_below(triangle_indices@, corner_positions@.len() as int),
            vertices@ == spec_triangle_corners(corner_positions@, triangle_indices@).take(t as int),
        decreases ntri - t,
    {
        assert(3 * t + 2 < triangle_indices@.len()) by (nonlinear_arith)
            requires
                t < ntri,
                ntri == triangle_indices@.len() / 3;
        let a = triangle_indices[3 * t];
        let b = triangle_indices[3 * t + 1];
        let c = triangle_indices[3 * t + 2];
        vertices.push([corner_positions[a], corner_positions[b], corner_positions[c]]);
        t = t + 1;
        assert(vertices@ =~= spec_triangle_corners(corner_positions@, triangle_indices@).take(t as int));
    }
    assert(vertices@ =~= spec_triangle_corners(corner_positions@, triangle_indices@));

    let mut adjacents: Vec<[DelaunayTriangleId; 3]> = Vec::new();
    let mut k: usize = 0;
    while k < triangle_neighbors.len()
        invariant
            k <= triangle_neighbors@.len(),
            adjacents@ == spec_neighbour_ids(layer_index, boundary_id, triangle_neighbors@).take(k as int),
        decreases triangle_neighbors@.len() - k,
    {
        let n = triangle_neighbors[k];
        let i0 = neighbour_id(layer_index, boundary_id, n[0]);
        let i1 = neighbour_id(layer_index, boundary_id, n[1]);
        let i2 = neighbour_id(layer_index, boundary_id, n[2]);
        let ids = [i0, i1, i2];
        adjacents.push(ids);
        k = k + 1;
        assert(adjacents@ =~= spec_neighbour_ids(layer_index, boundary_id, triangle_neighbors@).take(k as int));
    }
    assert(adjacents@ =~= spec_neighbour_ids(layer_index, boundary_id, triangle_neighbors@));

    let ghost old_layers = layers@;
    while layers.len() <= layer_index
        invariant
            layer_index < usize::MAX,
            old_layers.len() <= layers@.len() <= (if layer_index < old_layers.len() { old_layers.len() as int } else { layer_index + 1 }),
            layer_index < old_layers.len() ==> layers@.len() == old_layers.len(),
            forall|j: int| 0 <= j < old_layers.len() ==> #[trigger] layers@[j] == old_layers[j],
            forall|j: int| old_layers.len() <= j < layers@.len() ==> {
                &&& (#[trigger] layers@[j]).spec_triangulation().spec_vertices().len() == 0
                &&& layers@[j].spec_triangulation().spec_adjacents().len() == 0
                &&& layers@[j].spec_upward_stitches().len() == 0
                &&& layers@[j].spec_downward_stitches().len() == 0
            },
        decreases layer_index + 1 - layers@.len(),
    {
        layers.push(empty_layer());
    }
    let mut layer = empty_layer();
    core::mem::swap(&mut layer, &mut layers[layer_index]);
    layer.triangulation = DelaunayTriangulation { vertices, adjacents };
    layers.set(layer_index, layer);
}

impl Navmesh<i32> for DelaunayNavmesh<i32> {
    type NavnodeId = DelaunayTriangleId;

    open spec fn valid_node(&self, node: DelaunayTriangleId) -> bool {
        &&& node.spec_layer() < self.spec_layers().len()
        &&& node.spec_index() < self.spec_layers()[node.spec_layer() as int].spec_triangulation().spec_vertices().len()
        &&& node.spec_index() < self.spec_layers()[node.spec_layer() as int].spec_triangulation().spec_adjacents().len()
        &&& node.spec_index() < self.spec_layers()[node.spec_layer() as int].spec_upward_stitches().len()
        &&& node.spec_index() < self.spec_layers()[node.spec_layer() as int].spec_downward_stitches().len()
    }

    fn adjacents(&self, node: DelaunayTriangleId) -> (r: Vec<DelaunayTriangleId>)
        ensures
            r@ == self.spec_layers()[node.spec_layer() as int].spec_triangulation().spec_adjacents()[node.spec_index() as int]@,
    {
        let a = self.layers[node.layer()].triangulation.adjacents[node.index()];
        let r = vec![a[0], a[1], a[2]];
        assert(r@ =~= a@);
        r
    }

    fn upward_stitches(&self, node: DelaunayTriangleId) -> (r: Vec<([i32; 2], DelaunayTriangleId)>)
        ensures
            r@ == self.spec_layers()[node.spec_layer() as int].spec_upward_stitches()[node.spec_index() as int]@,
    {
        copy_stitches(&self.layers[node.layer()].upward_stitches[node.index()])
    }

    fn downward_stitches(&self, node: DelaunayTriangleId) -> (r: Vec<([i32; 2], DelaunayTriangleId)>)
        ensures
            r@ == self.spec_layers()[node.spec_layer() as int].spec_downward_stitches()[node.spec_index() as int]@,
    {
        copy_stitches(&self.layers[node.layer()].downward_stitches[node.index()])
    }

    fn position(&self, node: DelaunayTriangleId) -> (r: [i32; 2])
        ensures
            ({
                let v = self.spec_layers()[node.spec_layer() as int].spec_triangulation().spec_vertices()[node.spec_index() as int];
                &&& r[0] == crate::mlfa::trunc_div3(v[0][0] + v[1][0] + v[2][0])
                &&& r[1] == crate::mlfa::trunc_div3(v[0][1] + v[1][1] + v[2][1])
            }),
    {
        let v = self.layers[node.layer()].triangulation.vertices[node.index()];
        crate::mlfa::centroid(&v)
    }
}

/// A copy of a list of links.
fn copy_stitches(s: &Vec<([i32; 2], DelaunayTriangleId)>) -> (r: Vec<([i32; 2], DelaunayTriangleId)>)
    ensures
        r@ == s@,
{
    let mut r: Vec<([i32; 2], DelaunayTriangleId)> = Vec::new();
    let mut k: usize = 0;
    while k < s.len()
        invariant
            k <= s@.len(),
            r@ == s@.take(k as int),
        decreases s@.len() - k,
    {
        r.push(s[k]);
        k = k + 1;
        assert(r@ =~= s@.take(k as int));
    }
    assert(r@ =~= s@);
    r
}

impl Remesh<i32> for DelaunayNavmesh<i32> {
    /// The shapes must lie in the coordinate range of `i_overlay`.
    open spec fn remesh_ok(&self, shapes_per_layer: Seq<Vec<Vec<Vec<[i32; 2]>>>>) -> bool {
        forall|i: int| 0 <= i < shapes_per_layer.len() ==> shapes_in_overlay_range(
            #[trigger] shapes_view(shapes_per_layer[i]),
        )
    }

    /// Triangulates the shapes of each layer and stores the triangulation as that layer,
    /// adding the layers that are missing. A layer whose triangulation refers to a point
    /// that it does not hold keeps the triangles it had. The links of every layer are
    /// kept, and the layers past the last one given are left as they were.
    fn remesh(&mut self, shapes_per_layer: &[Vec<Vec<Vec<[i32; 2]>>>])
        ensures
            final(self).spec_layers().len() == if shapes_per_layer@.len() <= old(self).spec_layers().len() {
                old(self).spec_layers().len() as int
            } else {
                shapes_per_layer@.len() as int
            },
            forall|i: int| 0 <= i < shapes_per_layer@.len() ==> layer_rebuilt(
                #[trigger] final(self).spec_layers()[i],
                old(self).spec_layers(),
                i,
                shapes_per_layer@[i],
            ),
            forall|j: int| shapes_per_layer@.len() <= j < old(self).spec_layers().len() ==> #[trigger] final(self).spec_layers()[j]
                == old(self).spec_layers()[j],
    {
        let boundary_id = DelaunayTriangleId::new(usize::MAX, usize::MAX);
        let ghost old_layers = self.spec_layers();
        let n = shapes_per_layer.len();
        let mut layer_index: usize = 0;
        while layer_index < n
            invariant
                n == shapes_per_layer@.len(),
                layer_index <= n,
                boundary_id == DelaunayTriangleId::spec_new(usize::MAX, usize::MAX),
                forall|i: int| 0 <= i < shapes_per_layer@.len() ==> shapes_in_overlay_range(
                    #[trigger] shapes_view(shapes_per_layer@[i]),
                ),
                self.spec_layers().len() == if layer_index <= old_layers.len() { old_layers.len() as int } else { layer_index as int },
                forall|i: int| 0 <= i < layer_index ==> layer_rebuilt(
                    #[trigger] self.spec_layers()[i],
                    old_layers,
                    i,
                    shapes_per_layer@[i],
                ),
                forall|j: int| layer_index <= j < old_layers.len() ==> #[trigger] self.spec_layers()[j] == old_layers[j],
            decreases n - layer_index,
        {
            let (points, indices, neighbors) = delaunay_triangulation(&shapes_per_layer[layer_index]);
            let ghost before = self.spec_layers();
            if all_triple_indices_below(&indices, points.len()) {
                store_delaunay_in_navmesh_layer(
                    &mut self.layers,
                    layer_index,
                    boundary_id,
                    points.as_slice(),
                    indices.as_slice(),
                    neighbors,
                );
            } else if self.layers.len() <= layer_index {
                self.layers.push(empty_layer());
            }
            assert forall|i: int| 0 <= i < layer_index implies #[trigger] self.spec_layers()[i] == before[i] by {}
            assert forall|j: int| layer_index < j < old_layers.len() implies #[trigger] self.spec_layers()[j] == before[j] by {}
            layer_index = layer_index + 1;
        }
    }
}

/// Whether layer `i` was rebuilt from `shapes`, `before` being the layers it was rebuilt
/// from: it holds the triangulation of the shapes, or, when that triangulation refers to
/// a point it does not hold, the triangles it held before (none if it is new); its links
/// are those it had (none if it is new).
pub open spec fn layer_rebuilt(
    after: DelaunayNavmeshLayer<i32>,
    before: Seq<DelaunayNavmeshLayer<i32>>,
    i: int,
    shapes: Vec<Vec<Vec<[i32; 2]>>>,
) -> bool {
    let (points, indices, neighbors) = delaunay_of(shapes_view(shapes));
    &&& if triple_indices_below(indices, points.len() as int) {
        &&& after.spec_triangulation().spec_vertices() == spec_triangle_corners(points, indices)
        &&& after.spec_triangulation().spec_adjacents() == spec_neighbour_ids(
            i as usize,
            DelaunayTriangleId::spec_new(usize::MAX, usize::MAX),
            neighbors,
        )
    } else if i < before.len() {
        after.spec_triangulation() == before[i].spec_triangulation()
    } else {
        &&& after.spec_triangulation().spec_vertices().len() == 0
        &&& after.spec_triangulation().spec_adjacents().len() == 0
    }
    &&& if i < before.len() {
        &&& after.spec_upward_stitches() == before[i].spec_upward_stitches()
        &&& after.spec_downward_stitches() == before[i].spec_downward_stitches()
    } else {
        &&& after.spec_upward_stitches().len() == 0
        &&& after.spec_downward_stitches().len() == 0
    }
}

/// Adjacency never leaves a layer: once layer `i` has been rebuilt from `shapes` with a
/// triangulation whose corners are all in range, it has one neighbour triple per
/// triangulated triangle, and each neighbour is the outside (the boundary identifier,
/// where the triangulation has no neighbour) or a triangle of layer `i` itself, the one
/// the triangulation names.
pub proof fn lemma_rebuilt_neighbours_in_layer(
    after: DelaunayNavmeshLayer<i32>,
    before: Seq<DelaunayNavmeshLayer<i32>>,
    i: int,
    shapes: Vec<Vec<Vec<[i32; 2]>>>,
)
    requires
        0 <= i < usize::MAX,
        layer_rebuilt(after, before, i, shapes),
        triple_indices_below(delaunay_of(shapes_view(shapes)).1, delaunay_of(shapes_view(shapes)).0.len() as int),
    ensures
        ({
            let neighbors = delaunay_of(shapes_view(shapes)).2;
            let adj = after.spec_triangulation().spec_adjacents();
            &&& adj.len() == neighbors.len()
            &&& forall|t: int, k: int| 0 <= t < adj.len() && 0 <= k < 3 ==> {
                let id = #[trigger] adj[t][k];
                if neighbors[t][k] == usize::MAX {
                    id == DelaunayTriangleId::spec_new(usize::MAX, usize::MAX)
                } else {
                    id.spec_layer() == i && id.spec_index() == neighbors[t][k]
                }
            }
        }),
{
    let neighbors = delaunay_of(shapes_view(shapes)).2;
    let adj = after.spec_triangulation().spec_adjacents();
    assert forall|t: int, k: int| 0 <= t < adj.len() && 0 <= k < 3 implies {
        let id = #[trigger] adj[t][k];
        if neighbors[t][k] == usize::MAX {
            id == DelaunayTriangleId::spec_new(usize::MAX, usize::MAX)
        } else {
            id.spec_layer() == i && id.spec_index() == neighbors[t][k]
        }
    } by {
        DelaunayTriangleId::lemma_spec_new(i as usize, neighbors[t][k]);
    }
}

/// Whether every corner index of a complete triple is below `n`.
pub(crate) fn all_triple_indices_below(indices: &Vec<usize>, n: usize) -> (r: bool)
    ensures
        r == triple_indices_below(indices@, n as int),
{
    let m = indices.len() / 3 * 3;
    let mut k: usize = 0;
    while k < m
        invariant
            m == 3 * (indices@.len() / 3),
            m <= indices@.len(),
            k <= m,
            forall|i: int| 0 <= i < k ==> indices@[i] < n,
        decreases m - k,
    {
        if indices[k] >= n {
            return false;
        }
        k = k + 1;
    }
    true
}

impl<K> Default for DelaunayTriangulation<K> {
    /// The triangulation with no triangle.
    fn default() -> (r: Self)
        ensures
            r.spec_vertices().len() == 0,
            r.spec_adjacents().len() == 0,
    {
        DelaunayTriangulation { vertices: Vec::new(), adjacents: Vec::new() }
    }
}

impl<K> Default for DelaunayNavmeshLayer<K> {
    /// The layer with no triangle and no link.
    fn default() -> (r: Self)
        ensures
            r.spec_triangulation().spec_vertices().len() == 0,
            r.spec_triangulation().spec_adjacents().len() == 0,
            r.spec_upward_stitches().len() == 0,
            r.spec_downward_stitches().len() == 0,
    {
        DelaunayNavmeshLayer {
            triangulation: DelaunayTriangulation { vertices: Vec::new(), adjacents: Vec::new() },
            upward_stitches: Vec::new(),
            downward_stitches: Vec::new(),
        }
    }
}

impl<K> Default for DelaunayNavmesh<K> {
    /// The navigation mesh with no layer.
    fn default() -> (r: Self)
        ensures
            r.spec_layers().len() == 0,
    {
        DelaunayNavmesh { layers: Vec::new() }
    }
}

} // verus!
