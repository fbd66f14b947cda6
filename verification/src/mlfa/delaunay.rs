//! A multi-layer navigation mesh: one Delaunay triangulation per layer, each triangle
//! linked to the triangles of the layers above and below that overlap it.

use vstd::prelude::*;

use crate::delaunay::{
    all_triple_indices_below, delaunay_of, delaunay_triangulation, shapes_view, triple_indices_below,
    spec_triangle_corners, shapes_in_overlay_range, in_overlay_range,
};
use crate::layer::LayerId;
use crate::mlfa::{centroid, trunc_div3, Navmesh, Remesh};
use i_triangle::i_overlay::i_float::int::point::IntPoint;
use crate::spatial::{box_index_items, box_index_load, box_index_locate, box_ordered, boxes_overlap, BoxIndex};

verus! {

/// The identifier of a triangle: its layer and its index in that layer.
#[derive(Clone, Copy, Debug, Eq, Ord, PartialEq, PartialOrd, Structural)]
pub struct DelaunayTriangleId {
    layer: LayerId,
    index: usize,
}

impl DelaunayTriangleId {
    /// The identifier of triangle `index` of layer `layer`.
    pub closed spec fn spec_new(layer: LayerId, index: usize) -> Self {
        DelaunayTriangleId { layer, index }
    }

    /// The layer of the triangle.
    pub closed spec fn spec_layer(self) -> LayerId {
        self.layer
    }

    /// The index of the triangle in its layer.
    pub closed spec fn spec_index(self) -> usize {
        self.index
    }

    /// The parts of an identifier, and identifiers made of the same parts.
    pub proof fn lemma_parts(layer: LayerId, index: usize, id: Self)
        ensures
            Self::spec_new(layer, index).spec_layer() == layer,
            Self::spec_new(layer, index).spec_index() == index,
            id == Self::spec_new(id.spec_layer(), id.spec_index()),
    {
    }

    /// The identifier of triangle `index` of layer `layer`.
    pub fn new(layer: LayerId, index: usize) -> (r: Self)
        ensures
            r == Self::spec_new(layer, index),
    {
        Self { layer, index }
    }

    /// The layer of the triangle.
    pub fn layer(&self) -> (r: LayerId)
        ensures
            r == self.spec_layer(),
    {
        self.layer
    }

    /// The index of the triangle in its layer.
    pub fn index(&self) -> (r: usize)
        ensures
            r == self.spec_index(),
    {
        self.index
    }
}

/// The triangles of one layer: their corners and their neighbours.
#[derive(Debug)]
pub struct DelaunayTriangulation<K> {
    vertices: Vec<[[K; 2]; 3]>,
    adjacents: Vec<[DelaunayTriangleId; 3]>,
}

/// A triangle with its identifier, corners and neighbours.
#[derive(Debug)]
pub struct DelaunayTriangle<K> {
    pub trid: DelaunayTriangleId,
    pub vertices: [[K; 2]; 3],
    pub adjacents: [DelaunayTriangleId; 3],
}

impl<K> DelaunayTriangulation<K> {
    /// The corners of the triangles.
    pub closed spec fn spec_vertices(&self) -> Seq<[[K; 2]; 3]> {
        self.vertices@
    }

    /// The neighbours of the triangles.
    pub closed spec fn spec_adjacents(&self) -> Seq<[DelaunayTriangleId; 3]> {
        self.adjacents@
    }

    /// The corners of the triangles.
    pub fn vertices(&self) -> (r: &[[[K; 2]; 3]])
        ensures
            r@ == self.spec_vertices(),
    {
        self.vertices.as_slice()
    }

    /// The neighbours of the triangles.
    pub fn adjacents(&self) -> (r: &[[DelaunayTriangleId; 3]])
        ensures
            r@ == self.spec_adjacents(),
    {
        self.adjacents.as_slice()
    }
}

impl DelaunayTriangulation<i32> {
    /// The number of triangles that have both corners and neighbours.
    pub open spec fn spec_len(&self) -> int {
        if self.spec_vertices().len() <= self.spec_adjacents().len() {
            self.spec_vertices().len() as int
        } else {
            self.spec_adjacents().len() as int
        }
    }

    /// The triangles as [`DelaunayTriangle`]s of layer `layer` (as many as there are both
    /// corners and neighbours for), and an index of their bounding boxes (box `j` bounds
    /// triangle `j`).
    pub fn rtree(&self, layer: LayerId) -> (r: (Vec<DelaunayTriangle<i32>>, BoxIndex))
        ensures
            r.0@.len() == self.spec_len(),
            forall|j: int| 0 <= j < r.0@.len() ==> {
                &&& (#[trigger] r.0@[j]).trid == DelaunayTriangleId::spec_new(layer, j as usize)
                &&& r.0@[j].vertices == self.spec_vertices()[j]
                &&& r.0@[j].adjacents == self.spec_adjacents()[j]
            },
            r.1.spec_items().len() == self.spec_len(),
            forall|j: int| 0 <= j < r.1.spec_items().len() ==> #[trigger] r.1.spec_items()[j] == spec_triangle_box(self.spec_vertices()[j]),
    {
        let n = if self.vertices.len() <= self.adjacents.len() { self.vertices.len() } else { self.adjacents.len() };
        let mut tris: Vec<DelaunayTriangle<i32>> = Vec::new();
        let mut boxes: Vec<([i32; 2], [i32; 2])> = Vec::new();
        let mut j: usize = 0;
        while j < n
            invariant
                n == self.spec_len(),
                j <= n,
                tris@.len() == j,
                boxes@.len() == j,
                forall|x: int| 0 <= x < j ==> {
                    &&& (#[trigger] tris@[x]).trid == DelaunayTriangleId::spec_new(layer, x as usize)
                    &&& tris@[x].vertices == self.vertices@[x]
                    &&& tris@[x].adjacents == self.adjacents@[x]
                },
                forall|x: int| 0 <= x < j ==> #[trigger] boxes@[x] == spec_triangle_box(self.vertices@[x]),
                forall|x: int| 0 <= x < j ==> box_ordered(#[trigger] boxes@[x]),
            decreases n - j,
        {
            let v = self.vertices[j];
            tris.push(DelaunayTriangle { trid: DelaunayTriangleId::new(layer, j), vertices: v, adjacents: self.adjacents[j] });
            boxes.push(triangle_box(&v));
            j = j + 1;
        }
        (tris, box_index_load(&boxes))
    }
}

/// A layer: its triangulation and, per triangle, the overlapping triangles of the layers
/// above and below.
#[derive(Debug)]
pub struct DelaunayNavmeshLayer<K> {
    triangulation: DelaunayTriangulation<K>,
    upward_stitches: Vec<Vec<DelaunayTriangleId>>,
    downward_stitches: Vec<Vec<DelaunayTriangleId>>,
}

impl<K> DelaunayNavmeshLayer<K> {
    /// The triangulation of the layer.
    pub closed spec fn spec_triangulation(&self) -> DelaunayTriangulation<K> {
        self.triangulation
    }

    /// The links of each triangle to the layer above.
    pub closed spec fn spec_upward_stitches(&self) -> Seq<Vec<DelaunayTriangleId>> {
        self.upward_stitches@
    }

    /// The links of each triangle to the layer below.
    pub closed spec fn spec_downward_stitches(&self) -> Seq<Vec<DelaunayTriangleId>> {
        self.downward_stitches@
    }

    /// The triangulation of the layer.
    pub fn triangulation(&self) -> (r: &DelaunayTriangulation<K>)
        ensures
            *r == self.spec_triangulation(),
    {
        &self.triangulation
    }
}

/// A navigation mesh with one triangulated layer per layer index.
#[derive(Debug)]
pub struct DelaunayNavmesh<K> {
    layers: Vec<DelaunayNavmeshLayer<K>>,
}

impl<K> DelaunayNavmesh<K> {
    /// The layers of the mesh.
    pub closed spec fn spec_layers(&self) -> Seq<DelaunayNavmeshLayer<K>> {
        self.layers@
    }

    /// The layers of the mesh.
    pub fn layers(&self) -> (r: &[DelaunayNavmeshLayer<K>])
        ensures
            r@ == self.spec_layers(),
    {
        self.layers.as_slice()
    }
}

/// A neighbour index as an identifier: `usize::MAX` is the outside, `boundary_id`.
pub open spec fn spec_neighbour_id(layer_index: LayerId, boundary_id: DelaunayTriangleId, n: usize) -> DelaunayTriangleId {
    if n == usize::MAX {
        boundary_id
    } else {
        DelaunayTriangleId::spec_new(layer_index, n)
    }
}

/// The neighbour identifiers of each triangle.
pub open spec fn spec_neighbour_ids(layer_index: LayerId, boundary_id: DelaunayTriangleId, neighbors: Seq<[usize; 3]>) -> Seq<[DelaunayTriangleId; 3]> {
    neighbors.map_values(|n: [usize; 3]| [
        spec_neighbour_id(layer_index, boundary_id, n[0]),
        spec_neighbour_id(layer_index, boundary_id, n[1]),
        spec_neighbour_id(layer_index, boundary_id, n[2]),
    ])
}

/// The identifier of the outside of every layer.
pub open spec fn boundary_id() -> DelaunayTriangleId {
    DelaunayTriangleId::spec_new(LayerId(u32::MAX), usize::MAX)
}

/// A neighbour index as an identifier (see [`spec_neighbour_id`]).
fn neighbour_id(layer_index: LayerId, boundary_id: DelaunayTriangleId, n: usize) -> (r: DelaunayTriangleId)
    ensures
        r == spec_neighbour_id(layer_index, boundary_id, n),
{
    if n == usize::MAX {
        boundary_id
    } else {
        DelaunayTriangleId::new(layer_index, n)
    }
}

/// An empty layer.
fn empty_layer<K>() -> (r: DelaunayNavmeshLayer<K>)
    ensures
        r.spec_triangulation().spec_vertices() == Seq::<[[K; 2]; 3]>::empty(),
        r.spec_triangulation().spec_adjacents() == Seq::<[DelaunayTriangleId; 3]>::empty(),
        r.spec_upward_stitches() == Seq::<Vec<DelaunayTriangleId>>::empty(),
        r.spec_downward_stitches() == Seq::<Vec<DelaunayTriangleId>>::empty(),
{
    DelaunayNavmeshLayer {
        triangulation: DelaunayTriangulation { vertices: Vec::new(), adjacents: Vec::new() },
        upward_stitches: Vec::new(),
        downward_stitches: Vec::new(),
    }
}

/// Whether a layer holds nothing.
pub open spec fn layer_is_empty<K>(l: DelaunayNavmeshLayer<K>) -> bool {
    &&& l.spec_triangulation().spec_vertices().len() == 0
    &&& l.spec_triangulation().spec_adjacents().len() == 0
    &&& l.spec_upward_stitches().len() == 0
    &&& l.spec_downward_stitches().len() == 0
}

/// Adds empty layers on top, so that layer `layer_index` exists.
pub(crate) fn reserve_navmesh_layer<K>(layers: &mut Vec<DelaunayNavmeshLayer<K>>, layer_index: LayerId)
    requires
        layer_index@ < usize::MAX,
    ensures
        final(layers)@.len() == if layer_index@ < old(layers)@.len() { old(layers)@.len() as int } else { layer_index@ + 1int },
        forall|j: int| 0 <= j < old(layers)@.len() ==> #[trigger] final(layers)@[j] == old(layers)@[j],
        forall|j: int| old(layers)@.len() <= j < final(layers)@.len() ==> layer_is_empty(#[trigger] final(layers)@[j]),
{
    let target = layer_index.to_usize() + 1;
    let ghost old_layers = layers@;
    while layers.len() < target
        invariant
            target == layer_index@ + 1,
            old_layers.len() <= layers@.len(),
            layers@.len() <= (if target < old_layers.len() { old_layers.len() as int } else { target as int }),
            forall|j: int| 0 <= j < old_layers.len() ==> #[trigger] layers@[j] == old_layers[j],
            forall|j: int| old_layers.len() <= j < layers@.len() ==> layer_is_empty(#[trigger] layers@[j]),
        decreases target - layers@.len(),
    {
        layers.push(empty_layer());
    }
}

/// Stores a triangulation in `layer`, keeping its links.
pub(crate) fn store_delaunay_in_navmesh_layer<K: Copy>(
    layer: &mut DelaunayNavmeshLayer<K>,
    layer_index: LayerId,
    boundary_id: DelaunayTriangleId,
    corner_positions: &[[K; 2]],
    triangle_indices: &[usize],
    triangle_neighbors: Vec<[usize; 3]>,
)
    requires
        triple_indices_below(triangle_indices@, corner_positions@.len() as int),
    ensures
        final(layer).spec_triangulation().spec_vertices() == spec_triangle_corners(corner_positions@, triangle_indices@),
        final(layer).spec_triangulation().spec_adjacents() == spec_neighbour_ids(layer_index, boundary_id, triangle_neighbors@),
        final(layer).spec_upward_stitches() == old(layer).spec_upward_stitches(),
        final(layer).spec_downward_stitches() == old(layer).spec_downward_stitches(),
{
    let mut vertices: Vec<[[K; 2]; 3]> = Vec::new();
    let ntri = triangle_indices.len() / 3;
    let mut t: usize = 0;
    while t < ntri
        invariant
            ntri == triangle_indices@.len() / 3,
            triangle_indices@.len() <= usize::MAX,
            t <= ntri,
            triple_indices_below(triangle_indices@, corner_positions@.len() as int),
            vertices@ == spec_triangle_corners(corner_positions@, triangle_indices@).take(t as int),
        decreases ntri - t,
    {
        assert(3 * t + 2 < triangle_indices@.len()) by (nonlinear_arith)
            requires
                t < ntri,
                ntri == triangle_indices@.len() / 3;
        let a = triangle_indices[3 * t];
        let b = triangle_indices[3 * t + 1];
        let c = triangle_indices[3 * t + 2];
        vertices.push([corner_positions[a], corner_positions[b], corner_positions[c]]);
        t = t + 1;
        assert(vertices@ =~= spec_triangle_corners(corner_positions@, triangle_indices@).take(t as int));
    }
    assert(vertices@ =~= spec_triangle_corners(corner_positions@, triangle_indices@));

    let mut adjacents: Vec<[DelaunayTriangleId; 3]> = Vec::new();
    let mut k: usize = 0;
    while k < triangle_neighbors.len()
        invariant
            k <= triangle_neighbors@.len(),
            adjacents@ == spec_neighbour_ids(layer_index, boundary_id, triangle_neighbors@).take(k as int),
        decreases triangle_neighbors@.len() - k,
    {
        let n = triangle_neighbors[k];
        let ids = [
            neighbour_id(layer_index, boundary_id, n[0]),
            neighbour_id(layer_index, boundary_id, n[1]),
            neighbour_id(layer_index, boundary_id, n[2]),
        ];
        adjacents.push(ids);
        k = k + 1;
        assert(adjacents@ =~= spec_neighbour_ids(layer_index, boundary_id, triangle_neighbors@).take(k as int));
    }
    assert(adjacents@ =~= spec_neighbour_ids(layer_index, boundary_id, triangle_neighbors@));
    layer.triangulation = DelaunayTriangulation { vertices, adjacents };
}


/// The corner of a triangle's bounding box with the smallest coordinates, and the one with
/// the largest.
pub open spec fn spec_triangle_box(t: [[i32; 2]; 3]) -> ([i32; 2], [i32; 2]) {
    let lo0 = if t[0][0] <= t[1][0] && t[0][0] <= t[2][0] { t[0][0] } else if t[1][0] <= t[2][0] { t[1][0] } else { t[2][0] };
    let lo1 = if t[0][1] <= t[1][1] && t[0][1] <= t[2][1] { t[0][1] } else if t[1][1] <= t[2][1] { t[1][1] } else { t[2][1] };
    let hi0 = if t[0][0] >= t[1][0] && t[0][0] >= t[2][0] { t[0][0] } else if t[1][0] >= t[2][0] { t[1][0] } else { t[2][0] };
    let hi1 = if t[0][1] >= t[1][1] && t[0][1] >= t[2][1] { t[0][1] } else if t[1][1] >= t[2][1] { t[1][1] } else { t[2][1] };
    ([lo0, lo1], [hi0, hi1])
}


/// Whether every corner of a triangle lies in the coordinate range of `i_overlay`.
pub open spec fn triangle_in_range(t: [[i32; 2]; 3]) -> bool {
    in_overlay_range(t[0]) && in_overlay_range(t[1]) && in_overlay_range(t[2])
}

/// Whether two triangles share a point, as `i_overlay`'s `PredicateOverlay::intersects`
/// decides it.
pub uninterp spec fn spec_triangles_intersect(a: [[i32; 2]; 3], b: [[i32; 2]; 3]) -> bool;

/// `PredicateOverlay::intersects` of `i_overlay` on the triangles `a` (subject) and `b`
/// (clip), with the even-odd fill rule. Its coordinates must lie in the engine's range.
#[verifier::external_body]
fn triangles_intersect(a: &[[i32; 2]; 3], b: &[[i32; 2]; 3]) -> (r: bool)
    requires
        triangle_in_range(*a),
        triangle_in_range(*b),
    ensures
        r == spec_triangles_intersect(*a, *b),
{
    let mut po = i_triangle::i_overlay::core::relate::PredicateOverlay::new(6);
    po.add_contour(&a.map(|i| IntPoint { x: i[0], y: i[1] }), i_triangle::i_overlay::core::overlay::ShapeType::Subject);
    po.add_contour(&b.map(|i| IntPoint { x: i[0], y: i[1] }), i_triangle::i_overlay::core::overlay::ShapeType::Clip);
    po.intersects()
}

/// The bounding box of a triangle.
fn triangle_box(t: &[[i32; 2]; 3]) -> (r: ([i32; 2], [i32; 2]))
    ensures
        r == spec_triangle_box(*t),
        r.0[0] <= r.1[0],
        r.0[1] <= r.1[1],
{
    let lo0 = if t[0][0] <= t[1][0] && t[0][0] <= t[2][0] { t[0][0] } else if t[1][0] <= t[2][0] { t[1][0] } else { t[2][0] };
    let lo1 = if t[0][1] <= t[1][1] && t[0][1] <= t[2][1] { t[0][1] } else if t[1][1] <= t[2][1] { t[1][1] } else { t[2][1] };
    let hi0 = if t[0][0] >= t[1][0] && t[0][0] >= t[2][0] { t[0][0] } else if t[1][0] >= t[2][0] { t[1][0] } else { t[2][0] };
    let hi1 = if t[0][1] >= t[1][1] && t[0][1] >= t[2][1] { t[0][1] } else if t[1][1] >= t[2][1] { t[1][1] } else { t[2][1] };
    ([lo0, lo1], [hi0, hi1])
}

/// Whether the triangles `cur` and `oth` overlap as the links between layers take it:
/// their bounding boxes share a point, their corners are in range, and they intersect.
pub open spec fn triangles_linked(cur: [[i32; 2]; 3], oth: [[i32; 2]; 3]) -> bool {
    &&& boxes_overlap(spec_triangle_box(oth), spec_triangle_box(cur))
    &&& triangle_in_range(cur)
    &&& triangle_in_range(oth)
    &&& spec_triangles_intersect(cur, oth)
}

/// The triangles of layer `oth_layer` (whose corners are `oth`) that the triangle `cur` is
/// linked to.
pub open spec fn stitch_set(cur: [[i32; 2]; 3], oth: Seq<[[i32; 2]; 3]>, oth_layer: LayerId) -> Set<DelaunayTriangleId> {
    Set::new(|id: DelaunayTriangleId|
        exists|j: int| 0 <= j < oth.len() && id == DelaunayTriangleId::spec_new(oth_layer, j as usize) && triangles_linked(cur, #[trigger] oth[j]))
}

/// Whether `stitches` holds, for each triangle of `cur`, exactly the triangles of `oth`
/// (layer `oth_layer`) that it is linked to, each once.
pub open spec fn stitches_match(stitches: Seq<Vec<DelaunayTriangleId>>, cur: Seq<[[i32; 2]; 3]>, oth: Seq<[[i32; 2]; 3]>, oth_layer: LayerId) -> bool {
    &&& stitches.len() == cur.len()
    &&& forall|t: int| 0 <= t < cur.len() ==> {
        &&& (#[trigger] stitches[t])@.no_duplicates()
        &&& stitches[t]@.to_set() == stitch_set(cur[t], oth, oth_layer)
    }
}

/// The links of each triangle of `cur` to the triangles of `oth` (layer `oth_layer`).
fn compute_stitches(cur: &Vec<[[i32; 2]; 3]>, oth: &Vec<[[i32; 2]; 3]>, oth_layer: LayerId) -> (r: Vec<Vec<DelaunayTriangleId>>)
    ensures
        stitches_match(r@, cur@, oth@, oth_layer),
{
    let mut boxes: Vec<([i32; 2], [i32; 2])> = Vec::new();
    let mut j: usize = 0;
    while j < oth.len()
        invariant
            j <= oth@.len(),
            boxes@.len() == j,
            forall|q: int| 0 <= q < j ==> #[trigger] boxes@[q] == spec_triangle_box(oth@[q]),
        decreases oth@.len() - j,
    {
        boxes.push(triangle_box(&oth[j]));
        j = j + 1;
    }
    let tree = box_index_load(&boxes);
    let mut out: Vec<Vec<DelaunayTriangleId>> = Vec::new();
    let mut t: usize = 0;
    let on = oth.len();
    while t < cur.len()
        invariant
            on == oth@.len(),
            t <= cur@.len(),
            boxes@.len() == oth@.len(),
            forall|q: int| 0 <= q < oth@.len() ==> #[trigger] boxes@[q] == spec_triangle_box(oth@[q]),
            box_index_items(tree) == boxes@,
            out@.len() == t,
            forall|q: int| 0 <= q < t ==> {
                &&& (#[trigger] out@[q])@.no_duplicates()
                &&& out@[q]@.to_set() == stitch_set(cur@[q], oth@, oth_layer)
            },
        decreases cur@.len() - t,
    {
        let c = cur[t];
        let (lo, hi) = triangle_box(&c);
        let cands = box_index_locate(&tree, lo, hi);
        let c_ok = triangle_in_range_exec(&c);
        let mut ids: Vec<DelaunayTriangleId> = Vec::new();
        let mut k: usize = 0;
        while k < cands.len()
            invariant
                on == oth@.len(),
                k <= cands@.len(),
                cands@.no_duplicates(),
                c == cur@[t as int],
                c_ok == triangle_in_range(c),
                boxes@.len() == oth@.len(),
                forall|q: int| 0 <= q < oth@.len() ==> #[trigger] boxes@[q] == spec_triangle_box(oth@[q]),
                box_index_items(tree) == boxes@,
                (lo, hi) == spec_triangle_box(c),
                forall|x: usize| cands@.contains(x) <==> (x < boxes@.len() && boxes_overlap(boxes@[x as int], (lo, hi))),
                ids@.no_duplicates(),
                forall|id: DelaunayTriangleId| ids@.contains(id) <==> exists|q: int| 0 <= q < k && id == DelaunayTriangleId::spec_new(oth_layer, #[trigger] cands@[q]) && triangles_linked(c, oth@[cands@[q] as int]),
            decreases cands@.len() - k,
        {
            let jj = cands[k];
            assert(cands@.contains(jj));
            let o = oth[jj];
            let linked = c_ok && triangle_in_range_exec(&o) && triangles_intersect(&c, &o);
            assert(boxes_overlap(boxes@[jj as int], (lo, hi)));
            assert(linked == triangles_linked(c, oth@[jj as int]));
            let ghost old_ids = ids@;
            let ghost new_id = DelaunayTriangleId::spec_new(oth_layer, jj);
            if linked {
                let id = DelaunayTriangleId::new(oth_layer, jj);
                proof {
                    assert forall|q: int| 0 <= q < k implies DelaunayTriangleId::spec_new(oth_layer, #[trigger] cands@[q]) != id by {
                        assert(cands@[q] != cands@[k as int]);
                        DelaunayTriangleId::lemma_parts(oth_layer, cands@[q], id);
                        DelaunayTriangleId::lemma_parts(oth_layer, jj, id);
                    }
                    assert(!old_ids.contains(id));
                }
                ids.push(id);
            }
            proof {
                assert forall|id: DelaunayTriangleId| ids@.contains(id) <==> (old_ids.contains(id) || (linked && id == new_id)) by {
                    if linked {
                        assert(ids@ == old_ids.push(new_id));
                        if ids@.contains(id) {
                            let i = choose|i: int| 0 <= i < ids@.len() && ids@[i] == id;
                            if i < old_ids.len() {
                                assert(old_ids[i] == id);
                            }
                        }
                        if old_ids.contains(id) {
                            let i = choose|i: int| 0 <= i < old_ids.len() && old_ids[i] == id;
                            assert(ids@[i] == id);
                        }
                        if id == new_id {
                            assert(ids@[old_ids.len() as int] == id);
                        }
                    }
                }
                assert forall|id: DelaunayTriangleId| ids@.contains(id) <==> exists|q: int| 0 <= q < k + 1 && id == DelaunayTriangleId::spec_new(oth_layer, #[trigger] cands@[q]) && triangles_linked(c, oth@[cands@[q] as int]) by {
                    if exists|q: int| 0 <= q < k + 1 && id == DelaunayTriangleId::spec_new(oth_layer, #[trigger] cands@[q]) && triangles_linked(c, oth@[cands@[q] as int]) {
                        let q = choose|q: int| 0 <= q < k + 1 && id == DelaunayTriangleId::spec_new(oth_layer, #[trigger] cands@[q]) && triangles_linked(c, oth@[cands@[q] as int]);
                        if q < k {
                            assert(old_ids.contains(id));
                        } else {
                            assert(q == k);
                        }
                    }
                    if old_ids.contains(id) {
                        let q = choose|q: int| 0 <= q < k && id == DelaunayTriangleId::spec_new(oth_layer, #[trigger] cands@[q]) && triangles_linked(c, oth@[cands@[q] as int]);
                        assert(0 <= q < k + 1);
                    }
                    if linked && id == new_id {
                        assert(id == DelaunayTriangleId::spec_new(oth_layer, cands@[k as int]) && triangles_linked(c, oth@[cands@[k as int] as int]));
                    }
                }
            }
            k = k + 1;
        }
        proof {
            assert forall|id: DelaunayTriangleId| ids@.to_set().contains(id) <==> stitch_set(c, oth@, oth_layer).contains(id) by {
                if ids@.contains(id) {
                    let q = choose|q: int| 0 <= q < cands@.len() && id == DelaunayTriangleId::spec_new(oth_layer, #[trigger] cands@[q]) && triangles_linked(c, oth@[cands@[q] as int]);
                    assert(cands@.contains(cands@[q]));
                    let j = cands@[q] as int;
                    assert(0 <= j < oth@.len() && id == DelaunayTriangleId::spec_new(oth_layer, j as usize) && triangles_linked(c, oth@[j]));
                }
                if stitch_set(c, oth@, oth_layer).contains(id) {
                    let j = choose|j: int| 0 <= j < oth@.len() && id == DelaunayTriangleId::spec_new(oth_layer, j as usize) && triangles_linked(c, #[trigger] oth@[j]);
                    let ju = j as usize;
                    assert(ju as int == j);
                    assert(boxes@[j] == spec_triangle_box(oth@[j]));
                    assert(boxes_overlap(boxes@[ju as int], (lo, hi)));
                    assert(ju < boxes@.len());
                    assert(cands@.contains(ju));
                    let q = choose|q: int| 0 <= q < cands@.len() && cands@[q] == ju;
                    assert(cands@[q] as int == j);
                    assert(id == DelaunayTriangleId::spec_new(oth_layer, cands@[q]) && triangles_linked(c, oth@[cands@[q] as int]));
                }
            }
            assert(ids@.to_set() =~= stitch_set(c, oth@, oth_layer));
        }
        out.push(ids);
        t = t + 1;
    }
    out
}

/// The triangle corners of layer `i`.
pub open spec fn layer_vertices(layers: Seq<DelaunayNavmeshLayer<i32>>, i: int) -> Seq<[[i32; 2]; 3]> {
    layers[i].spec_triangulation().spec_vertices()
}

/// Whether the links from layer `i` down to layer `i - 1` are up to date.
pub open spec fn down_stitched(layers: Seq<DelaunayNavmeshLayer<i32>>, i: int) -> bool {
    stitches_match(layers[i].spec_downward_stitches(), layer_vertices(layers, i), layer_vertices(layers, i - 1), LayerId((i - 1) as u32))
}

/// Whether the links from layer `i` up to layer `i + 1` are up to date.
pub open spec fn up_stitched(layers: Seq<DelaunayNavmeshLayer<i32>>, i: int) -> bool {
    stitches_match(layers[i].spec_upward_stitches(), layer_vertices(layers, i), layer_vertices(layers, i + 1), LayerId((i + 1) as u32))
}

/// Recomputes the links of layer `layer_u` to the layer below (`downward`) or above it.
fn update_int_stitches(layers: &mut Vec<DelaunayNavmeshLayer<i32>>, layer_u: usize, downward: bool)
    requires
        old(layers)@.len() <= u32::MAX + 1,
        downward ==> 1 <= layer_u < old(layers)@.len(),
        !downward ==> layer_u + 1 < old(layers)@.len(),
    ensures
        final(layers)@.len() == old(layers)@.len(),
        forall|j: int| 0 <= j < old(layers)@.len() && j != layer_u ==> #[trigger] final(layers)@[j] == old(layers)@[j],
        final(layers)@[layer_u as int].spec_triangulation() == old(layers)@[layer_u as int].spec_triangulation(),
        downward ==> final(layers)@[layer_u as int].spec_upward_stitches() == old(layers)@[layer_u as int].spec_upward_stitches(),
        !downward ==> final(layers)@[layer_u as int].spec_downward_stitches() == old(layers)@[layer_u as int].spec_downward_stitches(),
        downward ==> down_stitched(final(layers)@, layer_u as int),
        !downward ==> up_stitched(final(layers)@, layer_u as int),
{
    if layer_u == 0 && layers.len() < 2 {
        return;
    }
    let oth = if downward { layer_u - 1 } else { layer_u + 1 };
    let stitches = compute_stitches(
        &layers[layer_u].triangulation.vertices,
        &layers[oth].triangulation.vertices,
        LayerId::from_usize(oth),
    );
    let mut layer = empty_layer();
    core::mem::swap(&mut layer, &mut layers[layer_u]);
    if downward {
        layer.downward_stitches = stitches;
    } else {
        layer.upward_stitches = stitches;
    }
    layers.set(layer_u, layer);
}

impl Navmesh<i32> for DelaunayNavmesh<i32> {
    type NavnodeId = DelaunayTriangleId;

    open spec fn valid_node(&self, node: DelaunayTriangleId) -> bool {
        &&& node.spec_layer()@ < self.spec_layers().len()
        &&& node.spec_index() < layer_vertices(self.spec_layers(), node.spec_layer()@ as int).len()
        &&& node.spec_index() < self.spec_layers()[node.spec_layer()@ as int].spec_triangulation().spec_adjacents().len()
        &&& node.spec_index() < self.spec_layers()[node.spec_layer()@ as int].spec_upward_stitches().len()
        &&& node.spec_index() < self.spec_layers()[node.spec_layer()@ as int].spec_downward_stitches().len()
    }

    fn adjacents(&self, node: DelaunayTriangleId) -> (r: Vec<DelaunayTriangleId>)
        ensures
            r@ == self.spec_layers()[node.spec_layer()@ as int].spec_triangulation().spec_adjacents()[node.spec_index() as int]@,
    {
        let a = self.layers[node.layer().to_usize()].triangulation.adjacents[node.index()];
        let r = vec![a[0], a[1], a[2]];
        assert(r@ =~= a@);
        r
    }

    fn upward_stitches(&self, node: DelaunayTriangleId) -> (r: Vec<DelaunayTriangleId>)
        ensures
            r@ == self.spec_layers()[node.spec_layer()@ as int].spec_upward_stitches()[node.spec_index() as int]@,
    {
        copy_ids(&self.layers[node.layer().to_usize()].upward_stitches[node.index()])
    }

    fn downward_stitches(&self, node: DelaunayTriangleId) -> (r: Vec<DelaunayTriangleId>)
        ensures
            r@ == self.spec_layers()[node.spec_layer()@ as int].spec_downward_stitches()[node.spec_index() as int]@,
    {
        copy_ids(&self.layers[node.layer().to_usize()].downward_stitches[node.index()])
    }

    fn position(&self, node: DelaunayTriangleId) -> (r: [i32; 2])
        ensures
            ({
                let v = layer_vertices(self.spec_layers(), node.spec_layer()@ as int)[node.spec_index() as int];
                &&& r[0] == trunc_div3(v[0][0] + v[1][0] + v[2][0])
                &&& r[1] == trunc_div3(v[0][1] + v[1][1] + v[2][1])
            }),
    {
        let v = self.layers[node.layer().to_usize()].triangulation.vertices[node.index()];
        centroid(&v)
    }
}

/// A copy of a list of identifiers.
fn copy_ids(s: &Vec<DelaunayTriangleId>) -> (r: Vec<DelaunayTriangleId>)
    ensures
        r@ == s@,
{
    let mut r: Vec<DelaunayTriangleId> = Vec::new();
    let mut k: usize = 0;
    while k < s.len()
        invariant
            k <= s@.len(),
            r@ == s@.take(k as int),
        decreases s@.len() - k,
    {
        r.push(s[k]);
        k = k + 1;
        assert(r@ =~= s@.take(k as int));
    }
    assert(r@ =~= s@);
    r
}

/// What layer `i` holds after it was rebuilt from `shapes`: the triangulation of the
/// shapes, or, when that triangulation refers to a point it does not hold, what `before`
/// held.
pub open spec fn rebuilt_layer(after: DelaunayNavmeshLayer<i32>, before: (Seq<[[i32; 2]; 3]>, Seq<[DelaunayTriangleId; 3]>), i: int, shapes: Vec<Vec<Vec<[i32; 2]>>>) -> bool {
    let (points, indices, neighbors) = delaunay_of(shapes_view(shapes));
    if triple_indices_below(indices, points.len() as int) {
        &&& after.spec_triangulation().spec_vertices() == spec_triangle_corners(points, indices)
        &&& after.spec_triangulation().spec_adjacents() == spec_neighbour_ids(LayerId(i as u32), boundary_id(), neighbors)
    } else {
        same_triangulation(after, before)
    }
}

/// Adjacency never leaves a layer: once layer `i` has been rebuilt from `shapes` with a
/// triangulation whose corners are all in range, it has one neighbour triple per
/// triangulated triangle, and each neighbour is the outside (the boundary identifier,
/// where the triangulation has no neighbour) or a triangle of layer `i` itself, the one
/// the triangulation names.
pub proof fn lemma_rebuilt_neighbours_in_layer(
    after: DelaunayNavmeshLayer<i32>,
    before: (Seq<[[i32; 2]; 3]>, Seq<[DelaunayTriangleId; 3]>),
    i: int,
    shapes: Vec<Vec<Vec<[i32; 2]>>>,
)
    requires
        0 <= i <= u32::MAX,
        rebuilt_layer(after, before, i, shapes),
        triple_indices_below(delaunay_of(shapes_view(shapes)).1, delaunay_of(shapes_view(shapes)).0.len() as int),
    ensures
        ({
            let neighbors = delaunay_of(shapes_view(shapes)).2;
            let adj = after.spec_triangulation().spec_adjacents();
            &&& adj.len() == neighbors.len()
            &&& forall|t: int, k: int| 0 <= t < adj.len() && 0 <= k < 3 ==> {
                let id = #[trigger] adj[t][k];
                if neighbors[t][k] == usize::MAX {
                    id == DelaunayTriangleId::spec_new(LayerId(u32::MAX), usize::MAX)
                } else {
                    id.spec_layer()@ == i && id.spec_index() == neighbors[t][k]
                }
            }
        }),
{
    let neighbors = delaunay_of(shapes_view(shapes)).2;
    let adj = after.spec_triangulation().spec_adjacents();
    assert forall|t: int, k: int| 0 <= t < adj.len() && 0 <= k < 3 implies {
        let id = #[trigger] adj[t][k];
        if neighbors[t][k] == usize::MAX {
            id == DelaunayTriangleId::spec_new(LayerId(u32::MAX), usize::MAX)
        } else {
            id.spec_layer()@ == i && id.spec_index() == neighbors[t][k]
        }
    } by {
        DelaunayTriangleId::lemma_parts(LayerId(i as u32), neighbors[t][k], adj[t][k]);
    }
}

/// Whether layer `l` holds the triangle corners and neighbours `t`.
pub open spec fn same_triangulation(l: DelaunayNavmeshLayer<i32>, t: (Seq<[[i32; 2]; 3]>, Seq<[DelaunayTriangleId; 3]>)) -> bool {
    &&& l.spec_triangulation().spec_vertices() == t.0
    &&& l.spec_triangulation().spec_adjacents() == t.1
}

/// The triangle corners and neighbours of layer `i` of `layers`; nothing when there is no
/// such layer.
pub open spec fn prior_triangulation(layers: Seq<DelaunayNavmeshLayer<i32>>, i: int) -> (Seq<[[i32; 2]; 3]>, Seq<[DelaunayTriangleId; 3]>) {
    if 0 <= i < layers.len() {
        (layers[i].spec_triangulation().spec_vertices(), layers[i].spec_triangulation().spec_adjacents())
    } else {
        (Seq::empty(), Seq::empty())
    }
}

/// Triangulates `shapes` and stores the result as layer `i` (kept as it was when the
/// triangulation refers to a point it does not hold).
fn remesh_layer(layers: &mut Vec<DelaunayNavmeshLayer<i32>>, i: usize, shapes: &Vec<Vec<Vec<[i32; 2]>>>)
    requires
        i < old(layers)@.len(),
        i <= u32::MAX,
        shapes_in_overlay_range(shapes_view(*shapes)),
    ensures
        final(layers)@.len() == old(layers)@.len(),
        forall|j: int| 0 <= j < old(layers)@.len() && j != i ==> #[trigger] final(layers)@[j] == old(layers)@[j],
        rebuilt_layer(final(layers)@[i as int], prior_triangulation(old(layers)@, i as int), i as int, *shapes),
        final(layers)@[i as int].spec_upward_stitches() == old(layers)@[i as int].spec_upward_stitches(),
        final(layers)@[i as int].spec_downward_stitches() == old(layers)@[i as int].spec_downward_stitches(),
{
    let boundary = DelaunayTriangleId::new(LayerId::max_layer(), usize::MAX);
    let (points, indices, neighbors) = delaunay_triangulation(shapes);
    if all_triple_indices_below(&indices, points.len()) {
        let mut layer = empty_layer();
        core::mem::swap(&mut layer, &mut layers[i]);
        store_delaunay_in_navmesh_layer(&mut layer, LayerId::from_usize(i), boundary, points.as_slice(), indices.as_slice(), neighbors);
        layers.set(i, layer);
    }
}

impl Remesh<i32> for DelaunayNavmesh<i32> {
    /// There is at least one layer of shapes, the layer indices fit in a `LayerId`, and the
    /// shapes lie in the coordinate range of `i_overlay`.
    open spec fn remesh_ok(&self, shapes_per_layer: Seq<Vec<Vec<Vec<[i32; 2]>>>>) -> bool {
        &&& 1 <= shapes_per_layer.len() <= u32::MAX + 1
        &&& self.spec_layers().len() <= u32::MAX + 1
        &&& forall|i: int| 0 <= i < shapes_per_layer.len() ==> shapes_in_overlay_range(
            #[trigger] shapes_view(shapes_per_layer[i]),
        )
    }

    /// The layer index leaves room for one more, and the shapes lie in the coordinate range
    /// of `i_overlay`.
    open spec fn remesh_at_ok(&self, layer_index: LayerId, shapes: Vec<Vec<Vec<[i32; 2]>>>) -> bool {
        &&& layer_index@ < usize::MAX
        &&& self.spec_layers().len() <= u32::MAX + 1
        &&& shapes_in_overlay_range(shapes_view(shapes))
    }

    /// Rebuilds layer `i` from `shapes_per_layer[i]`, adding layers where needed, then
    /// recomputes the links between all neighbouring layers.
    fn remesh(&mut self, shapes_per_layer: &[Vec<Vec<Vec<[i32; 2]>>>])
        ensures
            final(self).spec_layers().len() == if shapes_per_layer@.len() <= old(self).spec_layers().len() {
                old(self).spec_layers().len() as int
            } else {
                shapes_per_layer@.len() as int
            },
            forall|i: int| 0 <= i < shapes_per_layer@.len() ==> rebuilt_layer(
                #[trigger] final(self).spec_layers()[i],
                prior_triangulation(old(self).spec_layers(), i),
                i,
                shapes_per_layer@[i],
            ),
            forall|i: int| shapes_per_layer@.len() <= i < final(self).spec_layers().len() ==>
                same_triangulation(#[trigger] final(self).spec_layers()[i], prior_triangulation(old(self).spec_layers(), i)),
            forall|i: int| 1 <= i < final(self).spec_layers().len() ==> down_stitched(final(self).spec_layers(), i),
            forall|i: int| 0 <= i < final(self).spec_layers().len() - 1 ==> up_stitched(final(self).spec_layers(), i),
    {
        let n = shapes_per_layer.len();
        let ghost old_layers = self.layers@;
        reserve_navmesh_layer(&mut self.layers, LayerId::from_usize(n - 1));
        let ghost reserved = self.layers@;
        proof {
            assert forall|q: int| 0 <= q < reserved.len() implies #[trigger] prior_triangulation(reserved, q) == prior_triangulation(old_layers, q) by {
                if q >= old_layers.len() {
                    assert(prior_triangulation(reserved, q).0 =~= Seq::<[[i32; 2]; 3]>::empty());
                    assert(prior_triangulation(reserved, q).1 =~= Seq::<[DelaunayTriangleId; 3]>::empty());
                }
            }
        }
        let mut i: usize = 0;
        while i < n
            invariant
                n == shapes_per_layer@.len(),
                1 <= n <= u32::MAX + 1,
                i <= n,
                forall|q: int| 0 <= q < n ==> shapes_in_overlay_range(#[trigger] shapes_view(shapes_per_layer@[q])),
                self.layers@.len() == reserved.len(),
                n <= reserved.len() <= u32::MAX + 1,
                forall|q: int| 0 <= q < i ==> rebuilt_layer(#[trigger] self.layers@[q], prior_triangulation(reserved, q), q, shapes_per_layer@[q]),
                forall|q: int| i <= q < reserved.len() ==> #[trigger] self.layers@[q] == reserved[q],
            decreases n - i,
        {
            remesh_layer(&mut self.layers, i, &shapes_per_layer[i]);
            i = i + 1;
        }
        let ghost stored = self.layers@;
        let layer_count = self.layers.len();
        let mut i: usize = 0;
        while i < layer_count
            invariant
                layer_count == self.layers@.len(),
                layer_count == stored.len(),
                layer_count <= u32::MAX + 1,
                i <= layer_count,
                forall|q: int| 0 <= q < layer_count ==> (#[trigger] self.layers@[q]).spec_triangulation() == stored[q].spec_triangulation(),
                forall|q: int| i <= q < layer_count ==> #[trigger] self.layers@[q] == stored[q],
                forall|q: int| 1 <= q < i ==> down_stitched(self.layers@, q),
                forall|q: int| 0 <= q < i && q < layer_count - 1 ==> up_stitched(self.layers@, q),
            decreases layer_count - i,
        {
            let ghost before = self.layers@;
            if i != 0 {
                update_int_stitches(&mut self.layers, i, true);
            }
            let ghost mid = self.layers@;
            if i != layer_count - 1 {
                update_int_stitches(&mut self.layers, i, false);
            }
            proof {
                assert forall|q: int| 1 <= q < i + 1 implies down_stitched(self.layers@, q) by {
                    if q < i {
                        assert(self.layers@[q] == before[q]);
                        assert(self.layers@[q - 1] == before[q - 1]);
                        assert(down_stitched(before, q));
                    } else {
                        assert(self.layers@[q].spec_downward_stitches() == mid[q].spec_downward_stitches());
                        assert(layer_vertices(self.layers@, q) == layer_vertices(mid, q));
                        assert(self.layers@[q - 1] == mid[q - 1]);
                        assert(down_stitched(mid, q));
                    }
                }
                assert forall|q: int| 0 <= q < i + 1 && q < layer_count - 1 implies up_stitched(self.layers@, q) by {
                    if q < i {
                        assert(self.layers@[q] == before[q]);
                        assert(layer_vertices(self.layers@, q + 1) == layer_vertices(before, q + 1));
                        assert(up_stitched(before, q));
                    }
                }
            }
            i = i + 1;
        }
        proof {
            assert forall|q: int| 0 <= q < n implies rebuilt_layer(#[trigger] self.layers@[q], prior_triangulation(old_layers, q), q, shapes_per_layer@[q]) by {
                assert(prior_triangulation(reserved, q) == prior_triangulation(old_layers, q));
                assert(self.layers@[q].spec_triangulation() == stored[q].spec_triangulation());
            }
            assert forall|q: int| n <= q < self.layers@.len() implies same_triangulation(#[trigger] self.layers@[q], prior_triangulation(old_layers, q)) by {
                assert(prior_triangulation(reserved, q) == prior_triangulation(old_layers, q));
                assert(self.layers@[q].spec_triangulation() == stored[q].spec_triangulation());
                assert(stored[q] == reserved[q]);
            }
        }
    }

    /// Rebuilds layer `layer_index` from `shapes`, adding layers where needed, then
    /// recomputes the links between it and its neighbouring layers.
    fn remesh_at(&mut self, layer_index: LayerId, shapes: Vec<Vec<Vec<[i32; 2]>>>)
        ensures
            final(self).spec_layers().len() == if layer_index@ < old(self).spec_layers().len() {
                old(self).spec_layers().len() as int
            } else {
                layer_index@ + 1int
            },
            rebuilt_layer(
                final(self).spec_layers()[layer_index@ as int],
                prior_triangulation(old(self).spec_layers(), layer_index@ as int),
                layer_index@ as int,
                shapes,
            ),
            forall|i: int| 0 <= i < final(self).spec_layers().len() && i != layer_index@ ==>
                same_triangulation(#[trigger] final(self).spec_layers()[i], prior_triangulation(old(self).spec_layers(), i)),
            layer_index@ >= 1 ==> down_stitched(final(self).spec_layers(), layer_index@ as int),
            layer_index@ >= 1 ==> up_stitched(final(self).spec_layers(), layer_index@ - 1),
            layer_index@ + 1 < final(self).spec_layers().len() ==> up_stitched(final(self).spec_layers(), layer_index@ as int),
            layer_index@ + 1 < final(self).spec_layers().len() ==> down_stitched(final(self).spec_layers(), layer_index@ + 1int),
    {
        let li = layer_index.to_usize();
        let ghost old_layers = self.layers@;
        reserve_navmesh_layer(&mut self.layers, layer_index);
        let ghost reserved = self.layers@;
        proof {
            assert forall|q: int| 0 <= q < reserved.len() implies #[trigger] prior_triangulation(reserved, q) == prior_triangulation(old_layers, q) by {
                if q >= old_layers.len() {
                    assert(prior_triangulation(reserved, q).0 =~= Seq::<[[i32; 2]; 3]>::empty());
                    assert(prior_triangulation(reserved, q).1 =~= Seq::<[DelaunayTriangleId; 3]>::empty());
                }
            }
        }
        remesh_layer(&mut self.layers, li, &shapes);
        let ghost stored = self.layers@;
        let layer_count = self.layers.len();
        if li >= 1 {
            update_int_stitches(&mut self.layers, li, true);
            update_int_stitches(&mut self.layers, li - 1, false);
        }
        let ghost mid = self.layers@;
        proof {
            assert forall|q: int| 0 <= q < layer_count implies #[trigger] mid[q].spec_triangulation() == stored[q].spec_triangulation() by {}
        }
        if li + 1 < layer_count {
            update_int_stitches(&mut self.layers, li, false);
            update_int_stitches(&mut self.layers, li + 1, true);
        }
        proof {
            let fin = self.layers@;
            assert forall|q: int| 0 <= q < layer_count implies #[trigger] fin[q].spec_triangulation() == stored[q].spec_triangulation() by {
                assert(mid[q].spec_triangulation() == stored[q].spec_triangulation());
            }
            assert(prior_triangulation(reserved, li as int) == prior_triangulation(old_layers, li as int));
            assert forall|q: int| 0 <= q < layer_count && q != li implies same_triangulation(#[trigger] fin[q], prior_triangulation(old_layers, q)) by {
                assert(prior_triangulation(reserved, q) == prior_triangulation(old_layers, q));
                assert(stored[q] == reserved[q]);
            }
            if li >= 1 {
                assert(layer_vertices(fin, li as int) == layer_vertices(mid, li as int));
                assert(layer_vertices(fin, li - 1) == layer_vertices(mid, li - 1));
                assert(fin[li - 1] == mid[li - 1]);
                if li + 1 < layer_count {
                    assert(fin[li as int].spec_downward_stitches() == mid[li as int].spec_downward_stitches());
                } else {
                    assert(fin == mid);
                }
                assert(down_stitched(mid, li as int));
                assert(up_stitched(mid, li - 1));
            }
        }
    }
}

/// Whether every corner of a triangle lies in the coordinate range of `i_overlay`.
fn triangle_in_range_exec(t: &[[i32; 2]; 3]) -> (r: bool)
    ensures
        r == triangle_in_range(*t),
{
    let mut ok = true;
    let mut k: usize = 0;
    while k < 3
        invariant
            k <= 3,
            ok == (forall|q: int| 0 <= q < k ==> in_overlay_range(t[q])),
        decreases 3 - k,
    {
        ok = ok && -0x4000_0000 < t[k][0] && t[k][0] < 0x4000_0000 && -0x4000_0000 < t[k][1] && t[k][1] < 0x4000_0000;
        k = k + 1;
    }
    ok
}

impl<K> Default for DelaunayTriangulation<K> {
    /// The triangulation with no triangle.
    fn default() -> (r: Self)
        ensures
            r.spec_vertices().len() == 0,
            r.spec_adjacents().len() == 0,
    {
        DelaunayTriangulation { vertices: Vec::new(), adjacents: Vec::new() }
    }
}

impl<K> Default for DelaunayNavmeshLayer<K> {
    /// The layer with no triangle and no link.
    fn default() -> (r: Self)
        ensures
            r.spec_triangulation().spec_vertices().len() == 0,
            r.spec_triangulation().spec_adjacents().len() == 0,
            r.spec_upward_stitches().len() == 0,
            r.spec_downward_stitches().len() == 0,
    {
        DelaunayNavmeshLayer {
            triangulation: DelaunayTriangulation { vertices: Vec::new(), adjacents: Vec::new() },
            upward_stitches: Vec::new(),
            downward_stitches: Vec::new(),
        }
    }
}

impl<K> Default for DelaunayNavmesh<K> {
    /// The navigation mesh with no layer.
    fn default() -> (r: Self)
        ensures
            r.spec_layers().len() == 0,
    {
        DelaunayNavmesh { layers: Vec::new() }
    }
}

} // verus!
