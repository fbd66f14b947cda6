//! A navigation mesh made of the triangles of one triangulation of all obstacles and the
//! outer boundary; each triangle can be traversed on the layers where no obstacle covers
//! it.

use vstd::prelude::*;

use i_triangle::i_overlay::i_float::int::point::IntPoint;
use i_triangle::int::triangulatable::IntTriangulatable;

use crate::delaunay::{in_overlay_range, shapes_in_overlay_range, shapes_view};
use crate::flat::refine::{contour_in_range, interiors_intersect, interiors_intersect_of};
use crate::flat::{GetLayerIds, LayerIds, MultiLayerNavmesh, Topo2DComplex};
use crate::math::{poly_convex_hull_rotation_sense, spec_poly_rotation_sense, RotationSense};
use crate::flat::tesselation::{contour_box, spec_contour_box};
use crate::spatial::{box_index_items, box_index_load, boxes_overlap, box_ordered, located_mask};
use crate::LayerId;

verus! {

/// The triangulation that `i_triangle` computes for some shapes, without Delaunay
/// refinement: its points, the corner indices of its triangles (three per triangle) and,
/// per triangle, the indices of its three neighbours (`usize::MAX` where there is none).
pub uninterp spec fn triangulation_of(shapes: Seq<Seq<Seq<[i32; 2]>>>) -> (Seq<[i32; 2]>, Seq<usize>, Seq<[usize; 3]>);

/// `IntTriangulatable::triangulate` of `i_triangle` on the shapes, read back through
/// `points`, `triangle_indices` and `triangle_neighbors`; the source gives three indices and
/// one neighbour triple per triangle.
#[verifier::external_body]
fn plain_triangulation(shapes: &Vec<Vec<Vec<[i32; 2]>>>) -> (r: (Vec<[i32; 2]>, Vec<usize>, Vec<[usize; 3]>))
    requires
        shapes_in_overlay_range(shapes_view(*shapes)),
    ensures
        (r.0@, r.1@, r.2@) == triangulation_of(shapes_view(*shapes)),
        r.1@.len() == 3 * r.2@.len(),
{
    let s: Vec<Vec<Vec<IntPoint<i32>>>> = shapes.iter().map(|x| x.iter().map(|c| c.iter().map(|&p| p.into()).collect()).collect()).collect();
    let raw = s.triangulate();
    (raw.points().iter().map(|p| [p.x, p.y]).collect(), raw.triangle_indices::<usize>(), raw.triangle_neighbors())
}

/// A triangle: its corners (counterclockwise), its neighbours across the edges opposite to
/// them (`usize::MAX` where there is none), and the layers on which it can be traversed.
#[derive(Debug)]
pub struct Triangle {
    pub vertices: [usize; 3],
    pub neighbors: [usize; 3],
    pub layers: LayerIds,
}

/// A navigation mesh made of the triangles of one triangulation.
#[derive(Debug)]
pub struct TriangulationNavmesh<S> {
    triangles: Vec<Triangle>,
    points: Vec<[S; 2]>,
}

/// An obstacle: a polygon that blocks a set of layers.
pub trait Obstacle: GetLayerIds {
    /// The polygon of the obstacle.
    spec fn spec_polygon(&self) -> Seq<[i32; 2]>;

    /// The polygon of the obstacle.
    fn to_polygon(&self) -> (r: Vec<[i32; 2]>)
        ensures
            r@ == self.spec_polygon(),
    ;
}

/// An obstacle given by its polygon and the layers it blocks.
#[derive(Clone, Debug)]
pub struct PolygonObstacle {
    pub polygon: Vec<[i32; 2]>,
    pub layers: LayerIds,
}

impl GetLayerIds for PolygonObstacle {
    open spec fn spec_layers(&self) -> Set<usize> {
        self.layers@
    }

    open spec fn layers_ok(&self) -> bool {
        true
    }

    fn layers(&self) -> (r: LayerIds) {
        self.layers.clone()
    }
}

impl Obstacle for PolygonObstacle {
    open spec fn spec_polygon(&self) -> Seq<[i32; 2]> {
        self.polygon@
    }

    fn to_polygon(&self) -> (r: Vec<[i32; 2]>) {
        copy_points(self.polygon.as_slice())
    }
}

/// The shapes to triangulate: each obstacle polygon as a shape of one contour, in order,
/// then the outer boundary.
pub open spec fn obstacle_shapes<T: Obstacle>(obstacles: Seq<T>, ext_boundary: Seq<[i32; 2]>) -> Seq<Seq<Seq<[i32; 2]>>> {
    obstacles.map_values(|o: T| seq![o.spec_polygon()]).push(seq![ext_boundary])
}

/// The corners of triangle `t` as listed by the triangulation.
pub open spec fn corners(indices: Seq<usize>, t: int) -> [usize; 3] {
    [indices[3 * t], indices[3 * t + 1], indices[3 * t + 2]]
}

/// The positions of three corners.
pub open spec fn corner_points(points: Seq<[i32; 2]>, v: [usize; 3]) -> Seq<[i32; 2]> {
    seq![points[v[0] as int], points[v[1] as int], points[v[2] as int]]
}

/// Whether the corners turn clockwise.
pub open spec fn is_clockwise(points: Seq<[i32; 2]>, v: [usize; 3]) -> bool {
    spec_poly_rotation_sense(corner_points(points, v).map_values(|p: [i32; 2]| (p, ())), 0) == RotationSense::Clockwise
}

/// The three items in reverse order.
pub open spec fn reversed3<A>(a: [A; 3]) -> [A; 3] {
    [a[2], a[1], a[0]]
}

/// Whether the obstacle with polygon `p` meets the polygon `contour`: the polygon has
/// points, the bounding boxes meet, and the interiors intersect.
pub open spec fn obstacle_meets(p: Seq<[i32; 2]>, contour: Seq<[i32; 2]>) -> bool {
    &&& p.len() > 0
    &&& boxes_overlap(spec_contour_box(p), spec_contour_box(contour))
    &&& interiors_intersect_of(p, contour)
}

/// The layers that the obstacles that meet the polygon `contour` (see [`obstacle_meets`])
/// block.
pub open spec fn blocked_layers<T: Obstacle>(obstacles: Seq<T>, contour: Seq<[i32; 2]>) -> Set<usize> {
    Set::new(|l: usize| exists|i: int| 0 <= i < obstacles.len() && obstacle_meets(obstacles[i].spec_polygon(), contour)
        && #[trigger] obstacles[i].spec_layers().contains(l))
}

/// The layers of `layers` from `start` up to `end`, excluded.
pub open spec fn range_layers(start: usize, end: usize) -> Set<usize> {
    Set::new(|l: usize| start <= l < end)
}

/// Whether the triangulation can be read as triangles: in-range points, corner indices
/// below the number of points, neighbour indices below the number of triangles or
/// `usize::MAX`, and no more points or triangles than `u32` numbers.
pub open spec fn triangulation_usable(points: Seq<[i32; 2]>, indices: Seq<usize>, neighbors: Seq<[usize; 3]>) -> bool {
    &&& indices.len() == 3 * neighbors.len()
    &&& points.len() <= u32::MAX
    &&& neighbors.len() <= u32::MAX
    &&& forall|k: int| 0 <= k < points.len() ==> in_overlay_range(#[trigger] points[k])
    &&& forall|k: int| 0 <= k < indices.len() ==> (#[trigger] indices[k]) < points.len()
    &&& forall|t: int, j: int| 0 <= t < neighbors.len() && 0 <= j < 3 ==> (#[trigger] neighbors[t][j] == usize::MAX
        || neighbors[t][j] < neighbors.len())
}

impl TriangulationNavmesh<i32> {
    /// The triangles.
    pub closed spec fn spec_triangles(&self) -> Seq<Triangle> {
        self.triangles@
    }

    /// The points.
    pub closed spec fn spec_points(&self) -> Seq<[i32; 2]> {
        self.points@
    }

    /// The triangles.
    pub fn triangles(&self) -> (r: &[Triangle])
        ensures
            r@ == self.spec_triangles(),
    {
        self.triangles.as_slice()
    }

    /// The points.
    pub fn points(&self) -> (r: &[[i32; 2]])
        ensures
            r@ == self.spec_points(),
    {
        self.points.as_slice()
    }
}

/// Whether `tri` is the triangle `t` of the triangulation: its corners and neighbours, in
/// reverse order where the corners turn clockwise, and the layers of `all` that no obstacle
/// meeting it blocks.
pub open spec fn built_triangle<T: Obstacle>(
    tri: Triangle,
    points: Seq<[i32; 2]>,
    indices: Seq<usize>,
    neighbors: Seq<[usize; 3]>,
    t: int,
    obstacles: Seq<T>,
    all: Set<usize>,
) -> bool {
    let v = corners(indices, t);
    let cw = is_clockwise(points, v);
    &&& tri.vertices == (if cw { reversed3(v) } else { v })
    &&& tri.neighbors == (if cw { reversed3(neighbors[t]) } else { neighbors[t] })
    &&& tri.layers@ == all.difference(blocked_layers(obstacles, corner_points(points, v)))
}

/// Whether the points are in range, and the indices point at points and triangles.
fn triangulation_checks(points: &Vec<[i32; 2]>, indices: &Vec<usize>, neighbors: &Vec<[usize; 3]>) -> (r: bool)
    requires
        indices@.len() == 3 * neighbors@.len(),
    ensures
        r == triangulation_usable(points@, indices@, neighbors@),
{
    if points.len() > 0xffff_ffff || neighbors.len() > 0xffff_ffff {
        return false;
    }
    let mut k: usize = 0;
    while k < points.len()
        invariant
            k <= points@.len(),
            forall|j: int| 0 <= j < k ==> in_overlay_range(#[trigger] points@[j]),
        decreases points@.len() - k,
    {
        let p = points[k];
        if !(-0x4000_0000 < p[0] && p[0] < 0x4000_0000 && -0x4000_0000 < p[1] && p[1] < 0x4000_0000) {
            assert(!in_overlay_range(points@[k as int]));
            return false;
        }
        k = k + 1;
    }
    let mut k: usize = 0;
    while k < indices.len()
        invariant
            k <= indices@.len(),
            forall|j: int| 0 <= j < k ==> (#[trigger] indices@[j]) < points@.len(),
        decreases indices@.len() - k,
    {
        if indices[k] >= points.len() {
            return false;
        }
        k = k + 1;
    }
    let mut t: usize = 0;
    while t < neighbors.len()
        invariant
            t <= neighbors@.len(),
            forall|a: int, j: int| 0 <= a < t && 0 <= j < 3 ==> (#[trigger] neighbors@[a][j] == usize::MAX
                || neighbors@[a][j] < neighbors@.len()),
        decreases neighbors@.len() - t,
    {
        let n = neighbors[t];
        let mut j: usize = 0;
        while j < 3
            invariant
                t < neighbors@.len(),
                n == neighbors@[t as int],
                j <= 3,
                forall|i: int| 0 <= i < j ==> (#[trigger] n[i] == usize::MAX || n[i] < neighbors@.len()),
            decreases 3 - j,
        {
            if n[j] != usize::MAX && n[j] >= neighbors.len() {
                return false;
            }
            j = j + 1;
        }
        t = t + 1;
    }
    true
}

/// A copy of a contour.
fn copy_points(c: &[[i32; 2]]) -> (r: Vec<[i32; 2]>)
    ensures
        r@ == c@,
{
    let mut r: Vec<[i32; 2]> = Vec::new();
    let mut i: usize = 0;
    while i < c.len()
        invariant
            i <= c@.len(),
            r@ == c@.take(i as int),
        decreases c@.len() - i,
    {
        r.push(c[i]);
        i = i + 1;
        assert(r@ =~= c@.take(i as int));
    }
    assert(c@.take(i as int) =~= c@);
    r
}

impl TriangulationNavmesh<i32> {
    /// Builds the navigation mesh of the obstacles `obstacles` inside the outer boundary
    /// `ext_boundary`: every obstacle polygon and the boundary are triangulated together,
    /// each triangle is turned counterclockwise, and it can be traversed on the layers of
    /// `all_layers` that no obstacle that meets it blocks (see [`obstacle_meets`]). Where
    /// the triangulation gives points out of the coordinate range or indices that point
    /// nowhere, the mesh is empty.
    ///
    /// The obstacles are given in the order in which they are triangulated; an index of
    /// their bounding boxes finds those near each triangle.
    pub fn from_int_obstacle_rtree<T: Obstacle>(
        all_layers: core::ops::Range<usize>,
        ext_boundary: &[[i32; 2]],
        obstacles: &[T],
    ) -> (r: Self)
        requires
            all_layers.end <= u32::MAX,
            contour_in_range(ext_boundary@),
            forall|i: int| 0 <= i < obstacles@.len() ==> (#[trigger] obstacles@[i]).layers_ok() && contour_in_range(
                obstacles@[i].spec_polygon(),
            ),
        ensures
            ({
                let (pts, idx, nbs) = triangulation_of(obstacle_shapes(obstacles@, ext_boundary@));
                &&& triangulation_usable(pts, idx, nbs) ==> {
                    &&& r.spec_points() == pts
                    &&& r.spec_triangles().len() == nbs.len()
                    &&& forall|t: int| 0 <= t < nbs.len() ==> built_triangle(
                        #[trigger] r.spec_triangles()[t],
                        pts,
                        idx,
                        nbs,
                        t,
                        obstacles@,
                        range_layers(all_layers.start, all_layers.end),
                    )
                }
                &&& !triangulation_usable(pts, idx, nbs) ==> r.spec_triangles().len() == 0 && r.spec_points().len() == 0
            }),
            r.topo_wf(),
    {
        let mut polys: Vec<Vec<[i32; 2]>> = Vec::new();
        let mut shapes: Vec<Vec<Vec<[i32; 2]>>> = Vec::new();
        let mut k: usize = 0;
        while k < obstacles.len()
            invariant
                k <= obstacles@.len(),
                polys@.len() == k,
                shapes@.len() == k,
                forall|i: int| 0 <= i < k ==> (#[trigger] polys@[i])@ == obstacles@[i].spec_polygon(),
                shapes_view(shapes) == obstacle_shapes(obstacles@, ext_boundary@).take(k as int),
            decreases obstacles@.len() - k,
        {
            let p = obstacles[k].to_polygon();
            let q = copy_points(p.as_slice());
            polys.push(p);
            let mut sh: Vec<Vec<[i32; 2]>> = Vec::new();
            sh.push(q);
            let ghost old_view = shapes_view(shapes);
            shapes.push(sh);
            proof {
                let os = obstacle_shapes(obstacles@, ext_boundary@);
                assert(os[k as int] == seq![obstacles@[k as int].spec_polygon()]);
                assert(shapes_view(shapes)[k as int] =~= seq![q@]);
                assert forall|i: int| 0 <= i < k implies #[trigger] shapes_view(shapes)[i] == os.take(k + 1)[i] by {
                    assert(shapes@[i] == shapes@.drop_last()[i]);
                    assert(old_view[i] == os.take(k as int)[i]);
                }
                assert(shapes_view(shapes) =~= os.take(k + 1));
            }
            k = k + 1;
        }
        // an index of the bounding boxes of the obstacles
        let mut boxes: Vec<([i32; 2], [i32; 2])> = Vec::new();
        let mut j: usize = 0;
        while j < polys.len()
            invariant
                j <= polys@.len(),
                boxes@.len() == j,
                forall|x: int| 0 <= x < j ==> #[trigger] boxes@[x] == spec_contour_box(polys@[x]@),
                forall|x: int| 0 <= x < j ==> box_ordered(#[trigger] boxes@[x]),
            decreases polys@.len() - j,
        {
            boxes.push(contour_box(&polys[j]));
            j = j + 1;
        }
        let index = box_index_load(&boxes);
        let mut last: Vec<Vec<[i32; 2]>> = Vec::new();
        last.push(copy_points(ext_boundary));
        let ghost before_view = shapes_view(shapes);
        shapes.push(last);
        let ghost all_shapes = obstacle_shapes(obstacles@, ext_boundary@);
        proof {
            assert(shapes_view(shapes)[k as int] =~= seq![ext_boundary@]);
            assert forall|i: int| 0 <= i < k implies #[trigger] shapes_view(shapes)[i] == all_shapes[i] by {
                assert(shapes@[i] == shapes@.drop_last()[i]);
                assert(before_view[i] == all_shapes.take(k as int)[i]);
            }
            assert(shapes_view(shapes) =~= all_shapes);
            assert forall|a: int, b: int, c: int|
                0 <= a < all_shapes.len() && 0 <= b < all_shapes[a].len() && 0 <= c < all_shapes[a][b].len() implies in_overlay_range(
                #[trigger] all_shapes[a][b][c]) by {
                if a < obstacles@.len() {
                    assert(all_shapes[a][b] == obstacles@[a].spec_polygon());
                } else {
                    assert(all_shapes[a][b] == ext_boundary@);
                }
            }
        }
        let (points, indices, neighbors) = plain_triangulation(&shapes);
        let mut triangles: Vec<Triangle> = Vec::new();
        if !triangulation_checks(&points, &indices, &neighbors) {
            return TriangulationNavmesh { triangles, points: Vec::new() };
        }
        let mut used = LayerIds::new();
        let start = all_layers.start;
        let end = all_layers.end;
        let mut l: usize = start;
        assert(used@ =~= Set::new(|x: usize| start <= x < l));
        while l < end
            invariant
                end <= u32::MAX,
                start <= l,
                l <= end || start >= end,
                start >= end ==> l == start,
                used@ == Set::new(|x: usize| start <= x < l),
            decreases end - l,
        {
            let ghost u0 = used@;
            used.insert(LayerId::from_usize(l));
            assert(used@ == u0.insert(l));
            l = l + 1;
            assert(used@ =~= Set::new(|x: usize| start <= x < l));
        }
        if start < end {
            assert(l == end);
            assert(used@ =~= range_layers(all_layers.start, all_layers.end));
        } else {
            assert(l == start);
            assert(used@ =~= range_layers(all_layers.start, all_layers.end));
        }
        let _ni = indices.len();
        let mut t: usize = 0;
        while t < neighbors.len()
            invariant
                triangulation_usable(points@, indices@, neighbors@),
                _ni == indices@.len(),
                t <= neighbors@.len(),
                polys@.len() == obstacles@.len(),
                forall|i: int| 0 <= i < obstacles@.len() ==> (#[trigger] polys@[i])@ == obstacles@[i].spec_polygon(),
                forall|i: int| 0 <= i < obstacles@.len() ==> (#[trigger] obstacles@[i]).layers_ok() && contour_in_range(
                    obstacles@[i].spec_polygon(),
                ),
                box_index_items(index).len() == obstacles@.len(),
                forall|x: int| 0 <= x < obstacles@.len() ==> #[trigger] box_index_items(index)[x] == spec_contour_box(obstacles@[x].spec_polygon()),
                used@ == range_layers(all_layers.start, all_layers.end),
                triangles@.len() == t,
                forall|a: int| 0 <= a < t ==> built_triangle(
                    #[trigger] triangles@[a],
                    points@,
                    indices@,
                    neighbors@,
                    a,
                    obstacles@,
                    range_layers(all_layers.start, all_layers.end),
                ),
            decreases neighbors@.len() - t,
        {
            let v = [indices[3 * t], indices[3 * t + 1], indices[3 * t + 2]];
            let n = neighbors[t];
            assert(v == corners(indices@, t as int));
            let (p0, p1, p2) = (points[v[0]], points[v[1]], points[v[2]]);
            let contour: Vec<[i32; 2]> = vec![p0, p1, p2];
            assert(contour@ =~= corner_points(points@, v));
            let around = [(p0, ()), (p1, ()), (p2, ())];
            let sense = poly_convex_hull_rotation_sense(&around, 0);
            assert(around@ =~= corner_points(points@, v).map_values(|p: [i32; 2]| (p, ())));
            let cw = match sense {
                RotationSense::Clockwise => true,
                RotationSense::Counterclockwise => false,
            };
            assert(contour_in_range(contour@)) by {
                assert(in_overlay_range(points@[v[0] as int]));
                assert(in_overlay_range(points@[v[1] as int]));
                assert(in_overlay_range(points@[v[2] as int]));
            }
            let (lo, hi) = contour_box(&contour);
            let mask = located_mask(&index, polys.len(), lo, hi);
            let mut layers = used.clone();
            let mut k: usize = 0;
            while k < obstacles.len()
                invariant
                    k <= obstacles@.len(),
                    mask@.len() == obstacles@.len(),
                    forall|x: int| 0 <= x < obstacles@.len() ==> (#[trigger] mask@[x] <==> boxes_overlap(
                        spec_contour_box(obstacles@[x].spec_polygon()),
                        spec_contour_box(contour@),
                    )),
                    polys@.len() == obstacles@.len(),
                    forall|i: int| 0 <= i < obstacles@.len() ==> (#[trigger] polys@[i])@ == obstacles@[i].spec_polygon(),
                    forall|i: int| 0 <= i < obstacles@.len() ==> (#[trigger] obstacles@[i]).layers_ok() && contour_in_range(
                        obstacles@[i].spec_polygon(),
                    ),
                    contour_in_range(contour@),
                    layers@ == range_layers(all_layers.start, all_layers.end).difference(
                        blocked_layers(obstacles@.take(k as int), contour@),
                    ),
                decreases obstacles@.len() - k,
            {
                let ghost before = layers@;
                if mask[k] && polys[k].len() > 0 && interiors_intersect(&polys[k], &contour) {
                    let ol = obstacles[k].layers();
                    layers.difference_with(&ol);
                }
                proof {
                    let o1 = obstacles@.take(k + 1);
                    let o0 = obstacles@.take(k as int);
                    assert forall|x: usize| #[trigger] blocked_layers(o1, contour@).contains(x) <==> blocked_layers(o0, contour@).contains(x)
                        || (obstacle_meets(obstacles@[k as int].spec_polygon(), contour@) && obstacles@[k as int].spec_layers().contains(x)) by {
                        if blocked_layers(o1, contour@).contains(x) {
                            let i = choose|i: int| 0 <= i < o1.len() && obstacle_meets(o1[i].spec_polygon(), contour@)
                                && #[trigger] o1[i].spec_layers().contains(x);
                            if i < k {
                                assert(o0[i] == o1[i]);
                            }
                        }
                        if blocked_layers(o0, contour@).contains(x) {
                            let i = choose|i: int| 0 <= i < o0.len() && obstacle_meets(o0[i].spec_polygon(), contour@)
                                && #[trigger] o0[i].spec_layers().contains(x);
                            assert(o1[i] == o0[i]);
                        }
                        if obstacle_meets(obstacles@[k as int].spec_polygon(), contour@) && obstacles@[k as int].spec_layers().contains(x) {
                            assert(o1[k as int] == obstacles@[k as int]);
                        }
                    }
                    assert(layers@ =~= range_layers(all_layers.start, all_layers.end).difference(blocked_layers(o1, contour@)));
                }
                k = k + 1;
            }
            assert(obstacles@.take(k as int) =~= obstacles@);
            let tri = if cw {
                Triangle { vertices: [v[2], v[1], v[0]], neighbors: [n[2], n[1], n[0]], layers }
            } else {
                Triangle { vertices: v, neighbors: n, layers }
            };
            triangles.push(tri);
            proof {
                assert forall|a: int| 0 <= a < t + 1 implies built_triangle(
                    #[trigger] triangles@[a],
                    points@,
                    indices@,
                    neighbors@,
                    a,
                    obstacles@,
                    range_layers(all_layers.start, all_layers.end),
                ) by {
                    if a == t {
                        assert(triangles@[a] == tri);
                    }
                }
            }
            t = t + 1;
        }
        TriangulationNavmesh { triangles, points }
    }
}

/// The triangles among `ts` that have `v` as a corner, by index.
pub open spec fn faces_with_vertex(ts: Seq<Triangle>, v: usize) -> Seq<u32>
    decreases ts.len(),
{
    if ts.len() == 0 {
        Seq::empty()
    } else {
        let rest = faces_with_vertex(ts.drop_last(), v);
        let a = ts.last().vertices;
        if a[0] == v || a[1] == v || a[2] == v {
            rest.push((ts.len() - 1) as u32)
        } else {
            rest
        }
    }
}

/// The neighbours that exist, in order.
pub open spec fn present_neighbors(n: [usize; 3]) -> Seq<u32> {
    (if n[0] != usize::MAX { seq![n[0] as u32] } else { Seq::<u32>::empty() }) + (if n[1] != usize::MAX {
        seq![n[1] as u32]
    } else {
        Seq::<u32>::empty()
    }) + (if n[2] != usize::MAX { seq![n[2] as u32] } else { Seq::<u32>::empty() })
}

/// Whether `x` is a corner of `b`.
pub open spec fn has_corner(b: [usize; 3], x: usize) -> bool {
    x == b[0] || x == b[1] || x == b[2]
}

/// The edge of `a` that is not an edge of `b`, as `[left, right]` (clockwise), found by the
/// first corner of `a` that `b` lacks.
pub open spec fn tri_portal(a: [usize; 3], b: [usize; 3]) -> Option<[usize; 2]> {
    if !has_corner(b, a[0]) {
        Some([a[2], a[1]])
    } else if !has_corner(b, a[1]) {
        Some([a[0], a[2]])
    } else if !has_corner(b, a[2]) {
        Some([a[1], a[0]])
    } else {
        None
    }
}

impl Topo2DComplex for TriangulationNavmesh<i32> {
    open spec fn num_vertices(&self) -> nat {
        self.spec_points().len()
    }

    open spec fn num_faces(&self) -> nat {
        self.spec_triangles().len()
    }

    open spec fn topo_wf(&self) -> bool {
        &&& self.spec_points().len() <= u32::MAX
        &&& self.spec_triangles().len() <= u32::MAX
        &&& forall|t: int, j: int| 0 <= t < self.spec_triangles().len() && 0 <= j < 3
            ==> (#[trigger] self.spec_triangles()[t].vertices[j]) < self.spec_points().len()
        &&& forall|t: int, j: int| 0 <= t < self.spec_triangles().len() && 0 <= j < 3
            ==> (#[trigger] self.spec_triangles()[t].neighbors[j] == usize::MAX
            || self.spec_triangles()[t].neighbors[j] < self.spec_triangles().len())
    }

    open spec fn spec_vertex_position(&self, vertex: u32) -> [i32; 2] {
        self.spec_points()[vertex as int]
    }

    open spec fn spec_vertex_adjacent_faces(&self, vertex: u32) -> Seq<u32> {
        faces_with_vertex(self.spec_triangles(), vertex as usize)
    }

    open spec fn spec_face_adjacent_vertices(&self, face: u32) -> Seq<u32> {
        let a = self.spec_triangles()[face as int].vertices;
        seq![a[0] as u32, a[1] as u32, a[2] as u32]
    }

    open spec fn spec_face_adjacent_faces(&self, face: u32) -> Seq<u32> {
        present_neighbors(self.spec_triangles()[face as int].neighbors)
    }

    open spec fn spec_portal_between(&self, face_from: u32, face_to: u32) -> Option<[u32; 2]> {
        if face_from < self.num_faces() && face_to < self.num_faces() {
            match tri_portal(self.spec_triangles()[face_from as int].vertices, self.spec_triangles()[face_to as int].vertices) {
                Some(p) => Some([p[0] as u32, p[1] as u32]),
                None => None,
            }
        } else {
            None
        }
    }

    proof fn lemma_topo_wf(&self) {
        assert forall|v: u32, i: int| v < self.num_vertices() && 0 <= i < self.spec_vertex_adjacent_faces(v).len()
            implies #[trigger] self.spec_vertex_adjacent_faces(v)[i] < self.num_faces() by {
            lemma_faces_with_vertex(self.spec_triangles(), v as usize);
        }
        assert forall|f: u32, i: int| f < self.num_faces() && 0 <= i < self.spec_face_adjacent_faces(f).len()
            implies #[trigger] self.spec_face_adjacent_faces(f)[i] < self.num_faces() by {
            let n = self.spec_triangles()[f as int].neighbors;
            assert(n[0] == usize::MAX || n[0] < self.num_faces());
            assert(n[1] == usize::MAX || n[1] < self.num_faces());
            assert(n[2] == usize::MAX || n[2] < self.num_faces());
        }
        assert forall|f: u32, i: int| f < self.num_faces() && 0 <= i < self.spec_face_adjacent_vertices(f).len()
            implies #[trigger] self.spec_face_adjacent_vertices(f)[i] < self.num_vertices() by {
            let a = self.spec_triangles()[f as int].vertices;
            assert(a[0] < self.num_vertices() && a[1] < self.num_vertices() && a[2] < self.num_vertices());
        }
        assert forall|f: u32, g: u32| f < self.num_faces() && (#[trigger] self.spec_portal_between(f, g)) is Some
            implies self.spec_portal_between(f, g).unwrap()[0] < self.num_vertices()
            && self.spec_portal_between(f, g).unwrap()[1] < self.num_vertices() by {
            let a = self.spec_triangles()[f as int].vertices;
            assert(a[0] < self.num_vertices() && a[1] < self.num_vertices() && a[2] < self.num_vertices());
        }
    }

    fn vertex_position(&self, vertex: u32) -> (r: [i32; 2]) {
        self.points[vertex as usize]
    }

    fn vertex_adjacent_faces(&self, vertex: u32) -> (r: Vec<u32>) {
        let mut r: Vec<u32> = Vec::new();
        let mut t: usize = 0;
        let v = vertex as usize;
        while t < self.triangles.len()
            invariant
                self.topo_wf(),
                v == vertex as usize,
                t <= self.triangles@.len(),
                r@ == faces_with_vertex(self.triangles@.take(t as int), v),
            decreases self.triangles@.len() - t,
        {
            assert(self.triangles@.take(t + 1).drop_last() =~= self.triangles@.take(t as int));
            let a = self.triangles[t].vertices;
            if a[0] == v || a[1] == v || a[2] == v {
                r.push(t as u32);
            }
            t = t + 1;
        }
        assert(self.triangles@.take(t as int) =~= self.triangles@);
        r
    }

    fn face_adjacent_vertices(&self, face: u32) -> (r: Vec<u32>) {
        let a = self.triangles[face as usize].vertices;
        proof {
            assert(a[0] < self.spec_points().len() && a[1] < self.spec_points().len() && a[2] < self.spec_points().len());
        }
        let r = vec![a[0] as u32, a[1] as u32, a[2] as u32];
        assert(r@ =~= self.spec_face_adjacent_vertices(face));
        r
    }

    fn face_adjacent_faces(&self, face: u32) -> (r: Vec<u32>) {
        let n = self.triangles[face as usize].neighbors;
        let mut r: Vec<u32> = Vec::new();
        proof {
            assert(n[0] == usize::MAX || n[0] < self.spec_triangles().len());
            assert(n[1] == usize::MAX || n[1] < self.spec_triangles().len());
            assert(n[2] == usize::MAX || n[2] < self.spec_triangles().len());
        }
        if n[0] != usize::MAX {
            r.push(n[0] as u32);
        }
        if n[1] != usize::MAX {
            r.push(n[1] as u32);
        }
        if n[2] != usize::MAX {
            r.push(n[2] as u32);
        }
        assert(r@ =~= present_neighbors(n));
        r
    }

    fn portal_between(&self, face_from: u32, face_to: u32) -> (r: Option<[u32; 2]>) {
        if face_from as usize >= self.triangles.len() || face_to as usize >= self.triangles.len() {
            return None;
        }
        let a = self.triangles[face_from as usize].vertices;
        let b = self.triangles[face_to as usize].vertices;
        proof {
            assert(a[0] < self.spec_points().len() && a[1] < self.spec_points().len() && a[2] < self.spec_points().len());
        }
        let p = if !(a[0] == b[0] || a[0] == b[1] || a[0] == b[2]) {
            Some([a[2], a[1]])
        } else if !(a[1] == b[0] || a[1] == b[1] || a[1] == b[2]) {
            Some([a[0], a[2]])
        } else if !(a[2] == b[0] || a[2] == b[1] || a[2] == b[2]) {
            Some([a[1], a[0]])
        } else {
            None
        };
        assert(p == tri_portal(a, b));
        match p {
            Some(q) => Some([q[0] as u32, q[1] as u32]),
            None => None,
        }
    }
}

/// Whether the corners `fv` of a triangle share exactly one edge with the corners `gv` of
/// another: one corner of `fv` is missing from `gv`, the two others are in it.
pub open spec fn shares_one_edge(fv: Seq<u32>, gv: Seq<u32>) -> bool {
    exists|i: int| 0 <= i < 3 && !gv.contains(#[trigger] fv[i]) && gv.contains(fv[(i + 1) % 3]) && gv.contains(fv[(i + 2) % 3])
}

/// Between two triangles with different corners that share one edge, the portal is that
/// edge: two different corners of both triangles, as `[left, right]` seen from the first,
/// that is, the right one followed by the left one going round the first triangle.
pub proof fn lemma_portal_shared_edge(t: &TriangulationNavmesh<i32>, f: u32, g: u32)
    requires
        t.topo_wf(),
        f < t.num_faces(),
        g < t.num_faces(),
        ({
            let fv = t.spec_face_adjacent_vertices(f);
            fv[0] != fv[1] && fv[1] != fv[2] && fv[0] != fv[2]
        }),
        shares_one_edge(t.spec_face_adjacent_vertices(f), t.spec_face_adjacent_vertices(g)),
    ensures
        ({
            let fv = t.spec_face_adjacent_vertices(f);
            let gv = t.spec_face_adjacent_vertices(g);
            t.spec_portal_between(f, g) matches Some(p) && {
                &&& p[0] != p[1]
                &&& fv.contains(p[0]) && fv.contains(p[1])
                &&& gv.contains(p[0]) && gv.contains(p[1])
                &&& exists|i: int| 0 <= i < 3 && #[trigger] fv[i] == p[1] && fv[(i + 1) % 3] == p[0]
            }
        }),
{
    let a = t.spec_triangles()[f as int].vertices;
    let b = t.spec_triangles()[g as int].vertices;
    let fv = t.spec_face_adjacent_vertices(f);
    let gv = t.spec_face_adjacent_vertices(g);
    assert(a[0] < t.spec_points().len() && a[1] < t.spec_points().len() && a[2] < t.spec_points().len());
    assert(b[0] < t.spec_points().len() && b[1] < t.spec_points().len() && b[2] < t.spec_points().len());
    assert(fv[0] == a[0] && fv[1] == a[1] && fv[2] == a[2]);
    assert(gv[0] == b[0] && gv[1] == b[1] && gv[2] == b[2]);
    assert forall|x: u32| gv.contains(x) <==> (x == b[0] || x == b[1] || x == b[2]) by {
        if gv.contains(x) {
            let j = choose|j: int| 0 <= j < gv.len() && gv[j] == x;
        }
        if x == b[0] { assert(gv[0] == x); }
        if x == b[1] { assert(gv[1] == x); }
        if x == b[2] { assert(gv[2] == x); }
    }
    assert(fv.contains(fv[0]) && fv.contains(fv[1]) && fv.contains(fv[2])) by {
        assert(fv[0] == fv[0]);
        assert(fv[1] == fv[1]);
        assert(fv[2] == fv[2]);
    }
    let i = choose|i: int| 0 <= i < 3 && !gv.contains(#[trigger] fv[i]) && gv.contains(fv[(i + 1) % 3]) && gv.contains(fv[(i + 2) % 3]);
    assert(gv.contains(fv[0]) && gv.contains(fv[1]) && gv.contains(fv[2]) ==> false);
    let p = t.spec_portal_between(f, g).unwrap();
    if !has_corner(b, a[0]) {
        assert(i == 0);
        assert(fv[1] == p[1] && fv[2] == p[0]);
    } else if !has_corner(b, a[1]) {
        assert(i == 1);
        assert(fv[2] == p[1] && fv[0] == p[0]);
    } else {
        assert(i == 2);
        assert(fv[0] == p[1] && fv[1] == p[0]);
    }
}

/// The faces listed for a vertex are faces of the mesh.
proof fn lemma_faces_with_vertex(ts: Seq<Triangle>, v: usize)
    ensures
        forall|i: int| 0 <= i < faces_with_vertex(ts, v).len() ==> (#[trigger] faces_with_vertex(ts, v)[i]) < ts.len(),
        ts.len() <= u32::MAX + 1 ==> forall|i: int| 0 <= i < faces_with_vertex(ts, v).len() ==> (#[trigger] faces_with_vertex(ts, v)[i]) < ts.len(),
    decreases ts.len(),
{
    if ts.len() > 0 {
        lemma_faces_with_vertex(ts.drop_last(), v);
        let rest = faces_with_vertex(ts.drop_last(), v);
        assert forall|i: int| 0 <= i < faces_with_vertex(ts, v).len() implies (#[trigger] faces_with_vertex(ts, v)[i]) < ts.len() by {
            if i < rest.len() {
                assert(faces_with_vertex(ts, v)[i] == rest[i]);
            }
        }
    }
}

impl MultiLayerNavmesh for TriangulationNavmesh<i32> {
    open spec fn spec_face_layers(&self, face: u32) -> Set<usize> {
        self.spec_triangles()[face as int].layers@
    }

    fn face_layers(&self, face: u32) -> (r: LayerIds) {
        self.triangles[face as usize].layers.clone()
    }
}

} // verus!
