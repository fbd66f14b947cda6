//! Refinement of a tesselation by shapes: splitting faces and obstacles along the
//! boundaries of others, and cutting the pieces into convex faces.
//!
//! The polygon operations themselves (boolean operations, convex decomposition, clipping)
//! are those of `i_overlay` and `i_triangle`; this module decides what is split against
//! what and where the pieces go. The spatial indexes that find the faces to split are the
//! caller's.

use vstd::prelude::*;

use i_triangle::i_overlay::i_float::int::point::IntPoint;
use i_triangle::i_overlay;
use i_triangle::i_overlay::string::clip::{ClipRule, IntClip};
use i_triangle::int::triangulatable::IntTriangulatable;

use crate::delaunay::{in_overlay_range, shapes_in_overlay_range, shapes_view};
use crate::flat::tesselation::{all_points, contour_box, contour_list_points, spec_contour_box};
use crate::flat::LayerIds;
use crate::spatial::{box_index_items, box_index_load, box_ordered, boxes_overlap, located_mask};

verus! {

/// A closed path of points.
pub type Contour = Vec<[i32; 2]>;

/// A shape: an outer contour followed by the contours of its holes.
pub type Shape = Vec<Contour>;

/// The points of some contours.
pub open spec fn contours_view(v: Seq<Contour>) -> Seq<Seq<[i32; 2]>> {
    v.map_values(|c: Contour| c@)
}

/// The points of the contours of a shape.
pub open spec fn shape_view(s: Shape) -> Seq<Seq<[i32; 2]>> {
    contours_view(s@)
}

/// Tagged contours as plain sequences.
pub open spec fn tagged_view(v: Seq<(Contour, Option<usize>)>) -> Seq<(Seq<[i32; 2]>, Option<usize>)> {
    v.map_values(|f: (Contour, Option<usize>)| (f.0@, f.1))
}

/// Shapes as plain sequences.
pub type ShapesView = Seq<Seq<Seq<[i32; 2]>>>;

/// Whether every point of the contour lies in the coordinate range of `i_overlay`.
pub open spec fn contour_in_range(c: Seq<[i32; 2]>) -> bool {
    forall|k: int| 0 <= k < c.len() ==> in_overlay_range(#[trigger] c[k])
}

/// Whether every point of the contours lies in the coordinate range of `i_overlay`.
pub open spec fn contours_in_range(cs: Seq<Seq<[i32; 2]>>) -> bool {
    forall|j: int| 0 <= j < cs.len() ==> contour_in_range(#[trigger] cs[j])
}

/// What `i_overlay` extracts with the rule `Intersect` (what lies in both) from the
/// overlay of the subject contours and the clip contour, with the even-odd fill rule; `None`
/// when the overlay has no segment to build a graph from.
pub uninterp spec fn overlay_intersection_of(subject: Seq<Seq<[i32; 2]>>, clip: Seq<[i32; 2]>) -> Option<Seq<Seq<Seq<[i32; 2]>>>>;

/// What `i_overlay` extracts with the rule `Difference` (what lies in the subject only), as
/// for [`overlay_intersection_of`].
pub uninterp spec fn overlay_difference_of(subject: Seq<Seq<[i32; 2]>>, clip: Seq<[i32; 2]>) -> Option<Seq<Seq<Seq<[i32; 2]>>>>;

/// What `i_overlay` extracts with the rule `InverseDifference` (what lies in the clip only),
/// as for [`overlay_intersection_of`].
pub uninterp spec fn overlay_inverse_difference_of(subject: Seq<Seq<[i32; 2]>>, clip: Seq<[i32; 2]>) -> Option<
    Seq<Seq<Seq<[i32; 2]>>>,
>;

/// `Overlay::with_contours` of `i_overlay` on the subject contours and the clip contour,
/// `build_graph_view` with the even-odd fill rule (`None` where it gives none), then
/// `extract_shapes` with the rule `Intersect`.
#[verifier::external_body]
fn overlay_intersection(subject: &Vec<Contour>, clip: &Contour) -> (r: Option<Vec<Shape>>)
    requires
        contours_in_range(contours_view(subject@)),
        contour_in_range(clip@),
    ensures
        r matches Some(v) ==> overlay_intersection_of(contours_view(subject@), clip@) == Some(shapes_view(v)),
        r is None ==> overlay_intersection_of(contours_view(subject@), clip@) is None,
{
    let s: Vec<Vec<_>> = subject.iter().map(|c| c.iter().copied().map(IntPoint::from).collect()).collect();
    let c: Vec<_> = clip.iter().copied().map(IntPoint::from).collect();
    let shapes = i_overlay::core::overlay::Overlay::with_contours(&s, &[c])
        .build_graph_view(i_overlay::core::fill_rule::FillRule::EvenOdd)?
        .extract_shapes(i_overlay::core::overlay_rule::OverlayRule::Intersect, &mut Default::default());
    Some(shapes.iter().map(|x| x.iter().map(|c| c.iter().map(|p| [p.x, p.y]).collect()).collect()).collect())
}

/// As [`overlay_intersection`], with the rule `Difference`.
#[verifier::external_body]
fn overlay_difference(subject: &Vec<Contour>, clip: &Contour) -> (r: Option<Vec<Shape>>)
    requires
        contours_in_range(contours_view(subject@)),
        contour_in_range(clip@),
    ensures
        r matches Some(v) ==> overlay_difference_of(contours_view(subject@), clip@) == Some(shapes_view(v)),
        r is None ==> overlay_difference_of(contours_view(subject@), clip@) is None,
{
    let s: Vec<Vec<_>> = subject.iter().map(|c| c.iter().copied().map(IntPoint::from).collect()).collect();
    let c: Vec<_> = clip.iter().copied().map(IntPoint::from).collect();
    let shapes = i_overlay::core::overlay::Overlay::with_contours(&s, &[c])
        .build_graph_view(i_overlay::core::fill_rule::FillRule::EvenOdd)?
        .extract_shapes(i_overlay::core::overlay_rule::OverlayRule::Difference, &mut Default::default());
    Some(shapes.iter().map(|x| x.iter().map(|c| c.iter().map(|p| [p.x, p.y]).collect()).collect()).collect())
}

/// As [`overlay_intersection`], with the rule `InverseDifference`.
#[verifier::external_body]
fn overlay_inverse_difference(subject: &Vec<Contour>, clip: &Contour) -> (r: Option<Vec<Shape>>)
    requires
        contours_in_range(contours_view(subject@)),
        contour_in_range(clip@),
    ensures
        r matches Some(v) ==> overlay_inverse_difference_of(contours_view(subject@), clip@) == Some(shapes_view(v)),
        r is None ==> overlay_inverse_difference_of(contours_view(subject@), clip@) is None,
{
    let s: Vec<Vec<_>> = subject.iter().map(|c| c.iter().copied().map(IntPoint::from).collect()).collect();
    let c: Vec<_> = clip.iter().copied().map(IntPoint::from).collect();
    let shapes = i_overlay::core::overlay::Overlay::with_contours(&s, &[c])
        .build_graph_view(i_overlay::core::fill_rule::FillRule::EvenOdd)?
        .extract_shapes(i_overlay::core::overlay_rule::OverlayRule::InverseDifference, &mut Default::default());
    Some(shapes.iter().map(|x| x.iter().map(|c| c.iter().map(|p| [p.x, p.y]).collect()).collect()).collect())
}

/// The contours of the shapes, in order.
pub open spec fn flat_contours(s: ShapesView) -> Seq<Seq<[i32; 2]>>
    decreases s.len(),
{
    if s.len() == 0 {
        Seq::empty()
    } else {
        flat_contours(s.drop_last()) + s.last()
    }
}

/// The three parts of the overlay of the contours `subject` with the contour `clip`: what
/// lies in both, in the subject only, and in the clip only; `None` when the overlay cannot
/// be built.
pub open spec fn overlay_split_of(subject: Seq<Seq<[i32; 2]>>, clip: Seq<[i32; 2]>) -> Option<(ShapesView, ShapesView, ShapesView)> {
    match (
        overlay_intersection_of(subject, clip),
        overlay_difference_of(subject, clip),
        overlay_inverse_difference_of(subject, clip),
    ) {
        (Some(i), Some(d), Some(v)) => Some((i, d, v)),
        _ => None,
    }
}

/// The convex polygons into which `i_triangle` cuts some shapes.
pub uninterp spec fn convex_parts_of(shapes: Seq<Seq<Seq<[i32; 2]>>>) -> Seq<Seq<[i32; 2]>>;

/// `IntTriangulatable::triangulate` of `i_triangle` on the shapes, refined by
/// `into_delaunay` and cut by `to_convex_polygons`.
#[verifier::external_body]
fn convex_parts(shapes: &Vec<Shape>) -> (r: Vec<Contour>)
    requires
        shapes_in_overlay_range(shapes_view(*shapes)),
    ensures
        contours_view(r@) == convex_parts_of(shapes_view(*shapes)),
{
    let s: Vec<Vec<Vec<IntPoint<i32>>>> = shapes.iter().map(|x| x.iter().map(|c| c.iter().map(|&p| p.into()).collect()).collect()).collect();
    let parts = s.triangulate().into_delaunay().to_convex_polygons();
    parts.iter().map(|c| c.iter().map(|p| [p.x, p.y]).collect()).collect()
}

/// The convex polygons into which `i_triangle` cuts one shape.
pub uninterp spec fn shape_convex_parts_of(shape: Seq<Seq<[i32; 2]>>) -> Seq<Seq<[i32; 2]>>;

/// `IntTriangulatable::triangulate` of `i_triangle` on one shape, refined by
/// `into_delaunay` and cut by `to_convex_polygons`.
#[verifier::external_body]
fn shape_convex_parts(shape: &Shape) -> (r: Vec<Contour>)
    requires
        contours_in_range(shape_view(*shape)),
    ensures
        contours_view(r@) == shape_convex_parts_of(shape_view(*shape)),
{
    let s: Vec<Vec<IntPoint<i32>>> = shape.iter().map(|c| c.iter().map(|&p| p.into()).collect()).collect();
    let parts = s.triangulate().into_delaunay().to_convex_polygons();
    parts.iter().map(|c| c.iter().map(|p| [p.x, p.y]).collect()).collect()
}

/// The pieces of the path `path` that `i_overlay` finds inside the polygon `polygon` or on
/// its boundary.
pub uninterp spec fn clip_path_of(polygon: Seq<[i32; 2]>, path: Seq<[i32; 2]>) -> Seq<Seq<[i32; 2]>>;

/// `IntClip::clip_path` of `i_overlay`: the path `path` clipped by the polygon `polygon`
/// with the even-odd fill rule, keeping what lies inside or on the boundary.
#[verifier::external_body]
fn clip_path(polygon: &Contour, path: &Contour) -> (r: Vec<Contour>)
    requires
        contour_in_range(polygon@),
        contour_in_range(path@),
    ensures
        contours_view(r@) == clip_path_of(polygon@, path@),
{
    let polygon: Vec<IntPoint<i32>> = polygon.iter().map(|&p| p.into()).collect();
    let path: Vec<IntPoint<i32>> = path.iter().map(|&p| p.into()).collect();
    let rule = ClipRule { invert: false, boundary_included: true };
    let pieces = polygon.clip_path(&path, i_triangle::i_overlay::core::fill_rule::FillRule::EvenOdd, rule);
    pieces.iter().map(|c| c.iter().map(|p| [p.x, p.y]).collect()).collect()
}

/// Whether `i_overlay` finds that the interiors of the two polygons intersect.
pub uninterp spec fn interiors_intersect_of(a: Seq<[i32; 2]>, b: Seq<[i32; 2]>) -> bool;

/// `PredicateOverlay::interiors_intersect` of `i_overlay`, with `a` added as subject and
/// `b` as clip.
#[verifier::external_body]
pub(crate) fn interiors_intersect(a: &Contour, b: &Contour) -> (r: bool)
    requires
        contour_in_range(a@),
        contour_in_range(b@),
    ensures
        r == interiors_intersect_of(a@, b@),
{
    let a: Vec<IntPoint<i32>> = a.iter().map(|&p| p.into()).collect();
    let b: Vec<IntPoint<i32>> = b.iter().map(|&p| p.into()).collect();
    let mut overlay = i_triangle::i_overlay::core::relate::PredicateOverlay::new(a.len() + b.len());
    overlay.add_contour(&a, i_triangle::i_overlay::core::overlay::ShapeType::Subject);
    overlay.add_contour(&b, i_triangle::i_overlay::core::overlay::ShapeType::Clip);
    overlay.interiors_intersect()
}

/// Whether the points of all three sets of shapes lie in the coordinate range of
/// `i_overlay`.
pub open spec fn split_in_range(x: (ShapesView, ShapesView, ShapesView)) -> bool {
    shapes_in_overlay_range(x.0) && shapes_in_overlay_range(x.1) && shapes_in_overlay_range(x.2)
}

/// Whether every point of the contour lies in the coordinate range of `i_overlay`.
pub fn contour_fits(c: &Contour) -> (r: bool)
    ensures
        r == contour_in_range(c@),
{
    let mut k: usize = 0;
    while k < c.len()
        invariant
            k <= c@.len(),
            forall|j: int| 0 <= j < k ==> in_overlay_range(#[trigger] c@[j]),
        decreases c@.len() - k,
    {
        let p = c[k];
        if !(-0x4000_0000 < p[0] && p[0] < 0x4000_0000 && -0x4000_0000 < p[1] && p[1] < 0x4000_0000) {
            assert(!in_overlay_range(c@[k as int]));
            return false;
        }
        k = k + 1;
    }
    true
}

/// Whether every point of the shapes lies in the coordinate range of `i_overlay`.
pub fn shapes_fit(shapes: &Vec<Shape>) -> (r: bool)
    ensures
        r == shapes_in_overlay_range(shapes_view(*shapes)),
{
    let mut i: usize = 0;
    while i < shapes.len()
        invariant
            i <= shapes@.len(),
            forall|a: int, b: int, c: int|
                0 <= a < i && 0 <= b < shapes_view(*shapes)[a].len() && 0 <= c < shapes_view(*shapes)[a][b].len() ==> in_overlay_range(
                    #[trigger] shapes_view(*shapes)[a][b][c],
                ),
        decreases shapes@.len() - i,
    {
        let mut j: usize = 0;
        while j < shapes[i].len()
            invariant
                i < shapes@.len(),
                j <= shapes@[i as int]@.len(),
                forall|a: int, b: int, c: int|
                    0 <= a < i && 0 <= b < shapes_view(*shapes)[a].len() && 0 <= c < shapes_view(*shapes)[a][b].len() ==> in_overlay_range(
                        #[trigger] shapes_view(*shapes)[a][b][c],
                    ),
                forall|b: int, c: int| 0 <= b < j && 0 <= c < shapes_view(*shapes)[i as int][b].len() ==> in_overlay_range(
                    #[trigger] shapes_view(*shapes)[i as int][b][c],
                ),
            decreases shapes@[i as int]@.len() - j,
        {
            let mut k: usize = 0;
            while k < shapes[i][j].len()
                invariant
                    i < shapes@.len(),
                    j < shapes@[i as int]@.len(),
                    k <= shapes@[i as int]@[j as int]@.len(),
                    forall|c: int| 0 <= c < k ==> in_overlay_range(#[trigger] shapes_view(*shapes)[i as int][j as int][c]),
                decreases shapes@[i as int]@[j as int]@.len() - k,
            {
                let p = shapes[i][j][k];
                if !(-0x4000_0000 < p[0] && p[0] < 0x4000_0000 && -0x4000_0000 < p[1] && p[1] < 0x4000_0000) {
                    assert(!in_overlay_range(shapes_view(*shapes)[i as int][j as int][k as int]));
                    return false;
                }
                k = k + 1;
            }
            j = j + 1;
        }
        i = i + 1;
    }
    true
}

/// A copy of the contours of the shapes, in order.
pub(crate) fn flatten_shapes(shapes: &Vec<Shape>) -> (r: Vec<Contour>)
    requires
        shapes_in_overlay_range(shapes_view(*shapes)),
    ensures
        contours_view(r@) == flat_contours(shapes_view(*shapes)),
        contours_in_range(contours_view(r@)),
{
    let ghost sv = shapes_view(*shapes);
    let mut r: Vec<Contour> = Vec::new();
    let mut i: usize = 0;
    assert(sv.take(0) =~= Seq::<Seq<Seq<[i32; 2]>>>::empty());
    while i < shapes.len()
        invariant
            sv == shapes_view(*shapes),
            shapes_in_overlay_range(sv),
            i <= shapes@.len(),
            contours_view(r@) == flat_contours(sv.take(i as int)),
            contours_in_range(contours_view(r@)),
        decreases shapes@.len() - i,
    {
        let mut j: usize = 0;
        let ghost r0 = contours_view(r@);
        assert(sv[i as int].take(0) =~= Seq::<Seq<[i32; 2]>>::empty());
        assert(r0 + sv[i as int].take(0) =~= r0);
        while j < shapes[i].len()
            invariant
                sv == shapes_view(*shapes),
                shapes_in_overlay_range(sv),
                i < shapes@.len(),
                j <= shapes@[i as int]@.len(),
                contours_view(r@) == r0 + sv[i as int].take(j as int),
                contours_in_range(contours_view(r@)),
            decreases shapes@[i as int]@.len() - j,
        {
            let c = copy_contour(&shapes[i][j]);
            let ghost rb = r@;
            r.push(c);
            proof {
                assert(sv[i as int][j as int] == c@);
                assert(contours_view(r@) =~= contours_view(rb).push(c@));
                assert(sv[i as int].take(j + 1) =~= sv[i as int].take(j as int).push(c@));
                assert(contour_in_range(c@)) by {
                    assert forall|k: int| 0 <= k < c@.len() implies in_overlay_range(#[trigger] c@[k]) by {
                        assert(sv[i as int][j as int][k] == c@[k]);
                    }
                }
                assert forall|q: int| 0 <= q < contours_view(r@).len() implies contour_in_range(#[trigger] contours_view(r@)[q]) by {
                    if q < rb.len() {
                        assert(contours_view(r@)[q] == contours_view(rb)[q]);
                    }
                }
            }
            j = j + 1;
        }
        assert(sv[i as int].take(j as int) =~= sv[i as int]);
        assert(sv.take(i + 1).drop_last() =~= sv.take(i as int));
        i = i + 1;
    }
    assert(sv.take(i as int) =~= sv);
    r
}

/// The three parts of the overlay of the shapes `subject` with the contour `clip` (see
/// [`overlay_split_of`]).
fn overlay_split(subject: &Vec<Shape>, clip: &Contour) -> (r: Option<(Vec<Shape>, Vec<Shape>, Vec<Shape>)>)
    requires
        shapes_in_overlay_range(shapes_view(*subject)),
        contour_in_range(clip@),
    ensures
        r matches Some((i, d, v)) ==> overlay_split_of(flat_contours(shapes_view(*subject)), clip@) == Some(
            (shapes_view(i), shapes_view(d), shapes_view(v)),
        ),
        r is None ==> overlay_split_of(flat_contours(shapes_view(*subject)), clip@) is None,
{
    let flat = flatten_shapes(subject);
    match (overlay_intersection(&flat, clip), overlay_difference(&flat, clip), overlay_inverse_difference(&flat, clip)) {
        (Some(i), Some(d), Some(v)) => Some((i, d, v)),
        _ => None,
    }
}

// ---------------------------------------------------------------------------------------
// Allocating shapes among the faces of a tesselation.

/// Allocating the shapes `alloc` among the faces `faces[..k]`: the pieces so far, each
/// tagged with the face whose data it takes, and what is left of `alloc`. A face whose
/// interior meets what is left is split into the part inside (tagged with the face) and
/// the part outside (tagged with the face), and what is left loses that face; any other
/// face stays as it is. An overlay that `i_overlay` cannot build, or whose pieces leave
/// its coordinate range, counts as meeting nothing.
pub open spec fn spec_allocate(faces: Seq<Seq<[i32; 2]>>, alloc: ShapesView, k: int) -> (Seq<(ShapesView, Option<usize>)>, ShapesView)
    decreases k,
{
    if k <= 0 {
        (Seq::empty(), alloc)
    } else {
        let (tmp, a) = spec_allocate(faces, alloc, k - 1);
        let shape: Seq<Seq<[i32; 2]>> = seq![faces[k - 1]];
        let tag: Option<usize> = Some((k - 1) as usize);
        if a.len() == 0 {
            (tmp.push((seq![shape], tag)), a)
        } else {
            match overlay_split_of(flat_contours(a), faces[k - 1]) {
                Some(x) => if x.0.len() > 0 && split_in_range(x) {
                    (tmp.push((x.0, tag)).push((x.2, tag)), x.1)
                } else {
                    (tmp.push((seq![shape], tag)), a)
                },
                None => (tmp.push((seq![shape], tag)), a),
            }
        }
    }
}

/// The pieces of allocating `alloc` among all the faces `faces`; what is left at the end
/// comes last, tagged `None` (it takes the default data).
pub open spec fn spec_allocation(faces: Seq<Seq<[i32; 2]>>, alloc: ShapesView) -> Seq<(ShapesView, Option<usize>)> {
    let (tmp, a) = spec_allocate(faces, alloc, faces.len() as int);
    if a.len() > 0 {
        tmp.push((a, None))
    } else {
        tmp
    }
}

/// Pieces as plain sequences.
pub open spec fn pieces_view(t: Seq<(Vec<Shape>, Option<usize>)>) -> Seq<(ShapesView, Option<usize>)> {
    t.map_values(|p: (Vec<Shape>, Option<usize>)| (shapes_view(p.0), p.1))
}

/// Whether the points of every piece lie in the coordinate range of `i_overlay`.
pub open spec fn pieces_in_range(t: Seq<(ShapesView, Option<usize>)>) -> bool {
    forall|i: int| 0 <= i < t.len() ==> shapes_in_overlay_range(#[trigger] t[i].0)
}

/// Every piece of an allocation in range is in range.
proof fn lemma_allocate_in_range(faces: Seq<Seq<[i32; 2]>>, alloc: ShapesView, k: int)
    requires
        shapes_in_overlay_range(alloc),
        forall|i: int| 0 <= i < faces.len() ==> contour_in_range(#[trigger] faces[i]),
        k <= faces.len(),
    ensures
        pieces_in_range(spec_allocate(faces, alloc, k).0),
        shapes_in_overlay_range(spec_allocate(faces, alloc, k).1),
    decreases k,
{
    if k > 0 {
        lemma_allocate_in_range(faces, alloc, k - 1);
        let (tmp, a) = spec_allocate(faces, alloc, k - 1);
        let shape: Seq<Seq<[i32; 2]>> = seq![faces[k - 1]];
        assert(shapes_in_overlay_range(seq![shape])) by {
            assert forall|i: int, j: int, l: int|
                0 <= i < seq![shape].len() && 0 <= j < seq![shape][i].len() && 0 <= l < seq![shape][i][j].len() implies in_overlay_range(
                #[trigger] seq![shape][i][j][l]) by {
                assert(seq![shape][i][j] == faces[k - 1]);
            }
        }
        let r = spec_allocate(faces, alloc, k).0;
        assert forall|i: int| 0 <= i < r.len() implies shapes_in_overlay_range(#[trigger] r[i].0) by {
            if i < tmp.len() {
                assert(r[i] == tmp[i]);
            }
        }
    }
}

/// Allocates the shapes `alloc_shapes` among the faces whose contours are `faces` (see
/// [`spec_allocation`]): the pieces, each tagged with the index of the face whose data it
/// takes, or `None` for what no face took.
pub fn allocate_among(faces: Vec<Contour>, alloc_shapes: Vec<Shape>) -> (r: Vec<(Vec<Shape>, Option<usize>)>)
    requires
        shapes_in_overlay_range(shapes_view(alloc_shapes)),
        forall|i: int| 0 <= i < faces@.len() ==> contour_in_range(#[trigger] faces@[i]@),
    ensures
        pieces_view(r@) == spec_allocation(contours_view(faces@), shapes_view(alloc_shapes)),
        pieces_in_range(pieces_view(r@)),
{
    let ghost fs = contours_view(faces@);
    let ghost alloc0 = shapes_view(alloc_shapes);
    let mut faces = faces;
    let mut alloc = alloc_shapes;
    let mut tmp: Vec<(Vec<Shape>, Option<usize>)> = Vec::new();
    let n = faces.len();
    let mut k: usize = 0;
    proof {
        assert forall|i: int| 0 <= i < fs.len() implies contour_in_range(#[trigger] fs[i]) by {
            assert(fs[i] == faces@[i]@);
        }
    }
    while k < n
        invariant
            n == fs.len(),
            k <= n,
            contours_view(faces@) == fs.skip(k as int),
            faces@.len() == n - k,
            forall|i: int| 0 <= i < fs.len() ==> contour_in_range(#[trigger] fs[i]),
            shapes_in_overlay_range(alloc0),
            (pieces_view(tmp@), shapes_view(alloc)) == spec_allocate(fs, alloc0, k as int),
            shapes_in_overlay_range(shapes_view(alloc)),
        decreases n - k,
    {
        proof {
            lemma_allocate_in_range(fs, alloc0, k as int);
        }
        let ghost before = faces@;
        let contour = faces.remove(0);
        proof {
            assert(contour@ == fs[k as int]) by {
                assert(contours_view(before)[0] == fs.skip(k as int)[0]);
            }
            assert forall|i: int| 0 <= i < faces@.len() implies #[trigger] contours_view(faces@)[i] == fs.skip(k + 1)[i] by {
                assert(faces@[i] == before[i + 1]);
                assert(contours_view(before)[i + 1] == fs.skip(k as int)[i + 1]);
            }
            assert(contours_view(faces@) =~= fs.skip(k + 1));
        }
        let ghost tmp0 = tmp@;
        let ghost a0 = alloc;
        let shape: Shape = vec![contour];
        let tag: Option<usize> = Some(k);
        assert(shape_view(shape) =~= seq![fs[k as int]]);
        assert(contours_in_range(shape_view(shape))) by {
            assert(shape_view(shape)[0] == fs[k as int]);
        }
        if alloc.len() == 0 {
            let piece: Vec<Shape> = vec![shape];
            tmp.push((piece, tag));
            proof {
                assert(shapes_view(piece) =~= seq![seq![fs[k as int]]]);
                assert(pieces_view(tmp@) =~= pieces_view(tmp0).push((seq![seq![fs[k as int]]], tag)));
            }
        } else {
            let split = overlay_split(&alloc, &shape[0]);
            let mut taken = false;
            match split {
                Some((inters, diff, inv)) => {
                    if inters.len() > 0 && shapes_fit(&inters) && shapes_fit(&diff) && shapes_fit(&inv) {
                        tmp.push((inters, tag));
                        tmp.push((inv, tag));
                        alloc = diff;
                        taken = true;
                        proof {
                            assert(pieces_view(tmp@) =~= pieces_view(tmp0).push((shapes_view(inters), tag)).push((shapes_view(inv), tag)));
                        }
                    }
                },
                None => {},
            }
            if !taken {
                let piece: Vec<Shape> = vec![shape];
                tmp.push((piece, tag));
                proof {
                    assert(shapes_view(piece) =~= seq![seq![fs[k as int]]]);
                    assert(pieces_view(tmp@) =~= pieces_view(tmp0).push((seq![seq![fs[k as int]]], tag)));
                }
            }
        }
        k = k + 1;
    }
    proof {
        lemma_allocate_in_range(fs, alloc0, n as int);
    }
    let ghost tmp0 = tmp@;
    if alloc.len() > 0 {
        tmp.push((alloc, None));
        proof {
            assert(pieces_view(tmp@) =~= pieces_view(tmp0).push((shapes_view(alloc), None)));
            let t = pieces_view(tmp@);
            assert forall|i: int| 0 <= i < t.len() implies shapes_in_overlay_range(#[trigger] t[i].0) by {
                if i < tmp0.len() {
                    assert(t[i] == pieces_view(tmp0)[i]);
                }
            }
        }
    }
    tmp
}

/// The convex faces of the pieces: each non-empty piece is cut into convex polygons, which
/// keep its tag.
pub open spec fn spec_convex_pieces(pieces: Seq<(ShapesView, Option<usize>)>) -> Seq<(Seq<[i32; 2]>, Option<usize>)>
    decreases pieces.len(),
{
    if pieces.len() == 0 {
        Seq::empty()
    } else {
        let rest = spec_convex_pieces(pieces.drop_last());
        let (sh, tag) = pieces.last();
        if sh.len() == 0 {
            rest
        } else {
            rest + convex_parts_of(sh).map_values(|c: Seq<[i32; 2]>| (c, tag))
        }
    }
}

/// Cuts each non-empty piece into convex faces (see [`spec_convex_pieces`]).
pub fn convex_pieces(pieces: Vec<(Vec<Shape>, Option<usize>)>) -> (r: Vec<(Contour, Option<usize>)>)
    requires
        pieces_in_range(pieces_view(pieces@)),
    ensures
        tagged_view(r@) == spec_convex_pieces(pieces_view(pieces@)),
{
    let ghost ps = pieces_view(pieces@);
    let mut pieces = pieces;
    let mut out: Vec<(Contour, Option<usize>)> = Vec::new();
    let n = pieces.len();
    let mut k: usize = 0;
    while k < n
        invariant
            n == ps.len(),
            k <= n,
            pieces_view(pieces@) == ps.skip(k as int),
            pieces@.len() == n - k,
            pieces_in_range(ps),
            tagged_view(out@) == spec_convex_pieces(ps.take(k as int)),
        decreases n - k,
    {
        let ghost before = pieces@;
        let (shapes, tag) = pieces.remove(0);
        proof {
            assert(pieces_view(before)[0] == ps.skip(k as int)[0]);
            assert forall|i: int| 0 <= i < pieces@.len() implies #[trigger] pieces_view(pieces@)[i] == ps.skip(k + 1)[i] by {
                assert(pieces@[i] == before[i + 1]);
                assert(pieces_view(before)[i + 1] == ps.skip(k as int)[i + 1]);
            }
            assert(pieces_view(pieces@) =~= ps.skip(k + 1));
            assert(ps.take(k + 1).drop_last() =~= ps.take(k as int));
            assert(ps.take(k + 1).last() == (shapes_view(shapes), tag));
            assert(shapes_in_overlay_range(ps[k as int].0));
        }
        if shapes.len() > 0 {
            let parts = convex_parts(&shapes);
            let ghost out0 = tagged_view(out@);
            let mut j: usize = 0;
            let mut parts = parts;
            let ghost pv = contours_view(parts@);
            let m = parts.len();
            while j < m
                invariant
                    m == pv.len(),
                    j <= m,
                    contours_view(parts@) == pv.skip(j as int),
                    parts@.len() == m - j,
                    tagged_view(out@) == out0 + pv.take(j as int).map_values(
                        |c: Seq<[i32; 2]>| (c, tag),
                    ),
                decreases m - j,
            {
                let ghost pb = parts@;
                let c = parts.remove(0);
                proof {
                    assert(contours_view(pb)[0] == pv.skip(j as int)[0]);
                    assert forall|i: int| 0 <= i < parts@.len() implies #[trigger] contours_view(parts@)[i] == pv.skip(j + 1)[i] by {
                        assert(parts@[i] == pb[i + 1]);
                        assert(contours_view(pb)[i + 1] == pv.skip(j as int)[i + 1]);
                    }
                    assert(contours_view(parts@) =~= pv.skip(j + 1));
                }
                let ghost o0 = out@;
                out.push((c, tag));
                proof {
                    assert(tagged_view(out@) =~= tagged_view(o0).push((c@, tag)));
                    assert(pv.take(j + 1).map_values(|c: Seq<[i32; 2]>| (c, tag)) =~= pv.take(j as int).map_values(
                        |c: Seq<[i32; 2]>| (c, tag),
                    ).push((pv[j as int], tag)));
                }
                j = j + 1;
            }
            assert(pv.take(j as int) =~= pv);
        } else {
            assert(shapes_view(shapes).len() == 0);
        }
        k = k + 1;
    }
    assert(ps.take(k as int) =~= ps);
    out
}

// ---------------------------------------------------------------------------------------
// Portals and overlaps between faces.

/// The portal that the clipped pieces give: exactly one piece of exactly two points, whose
/// order `clip_path` reverses.
pub open spec fn portal_of_pieces(ps: Seq<Seq<[i32; 2]>>) -> Option<[[i32; 2]; 2]> {
    if ps.len() == 1 && ps[0].len() == 2 {
        Some([ps[0][1], ps[0][0]])
    } else {
        None
    }
}

/// The portal between two counterclockwise face contours, as `[left, right]`: the part of
/// the closed contour of `to` that lies on the closed contour of `from`, when it is a single
/// segment; `None` for an empty contour.
pub open spec fn spec_contour_portal(from: Seq<[i32; 2]>, to: Seq<[i32; 2]>) -> Option<[[i32; 2]; 2]> {
    if from.len() == 0 || to.len() == 0 {
        None
    } else {
        portal_of_pieces(clip_path_of(from.push(from[0]), to.push(to[0])))
    }
}

/// The portal between the faces with contours `from` and `to` (see [`spec_contour_portal`]).
pub fn contour_portal(from: &Contour, to: &Contour) -> (r: Option<[[i32; 2]; 2]>)
    requires
        contour_in_range(from@),
        contour_in_range(to@),
    ensures
        r == spec_contour_portal(from@, to@),
{
    if from.len() == 0 || to.len() == 0 {
        return None;
    }
    let mut closed_from = copy_contour(from);
    closed_from.push(from[0]);
    let mut closed_to = copy_contour(to);
    closed_to.push(to[0]);
    proof {
        assert(closed_from@ =~= from@.push(from@[0]));
        assert(closed_to@ =~= to@.push(to@[0]));
    }
    let pieces = clip_path(&closed_from, &closed_to);
    proof {
        assert(contours_view(pieces@).len() == pieces@.len());
    }
    if pieces.len() != 1 || pieces[0].len() != 2 {
        proof {
            if pieces@.len() == 1 {
                assert(contours_view(pieces@)[0] == pieces@[0]@);
            }
        }
        return None;
    }
    assert(contours_view(pieces@)[0] == pieces@[0]@);
    Some([pieces[0][1], pieces[0][0]])
}

/// Neighbours as plain sequences: the contour of each and the portal to it.
pub open spec fn neighbours_view(v: Seq<(Contour, [[i32; 2]; 2])>) -> Seq<(Seq<[i32; 2]>, [[i32; 2]; 2])> {
    v.map_values(|n: (Contour, [[i32; 2]; 2])| (n.0@, n.1))
}

/// The neighbours of the face with contour `face` among the faces with contours
/// `candidates`, in order: each candidate other than the face itself from which a portal
/// leads to the face, with the portal from the face to it; a candidate to which no portal
/// leads from the face is left out.
pub open spec fn spec_face_neighbours(face: Seq<[i32; 2]>, candidates: Seq<Seq<[i32; 2]>>) -> Seq<(Seq<[i32; 2]>, [[i32; 2]; 2])>
    decreases candidates.len(),
{
    if candidates.len() == 0 {
        Seq::empty()
    } else {
        let rest = spec_face_neighbours(face, candidates.drop_last());
        let c = candidates.last();
        if c != face && spec_contour_portal(c, face) is Some {
            match spec_contour_portal(face, c) {
                Some(p) => rest.push((c, p)),
                None => rest,
            }
        } else {
            rest
        }
    }
}

/// The neighbours of the face with contour `face` among `candidates`, with the portals to
/// them (see [`spec_face_neighbours`]).
pub fn face_neighbours(face: &Contour, candidates: Vec<Contour>) -> (r: Vec<(Contour, [[i32; 2]; 2])>)
    requires
        contour_in_range(face@),
        forall|i: int| 0 <= i < candidates@.len() ==> contour_in_range(#[trigger] candidates@[i]@),
    ensures
        neighbours_view(r@) == spec_face_neighbours(face@, contours_view(candidates@)),
{
    let ghost cs = contours_view(candidates@);
    let mut candidates = candidates;
    let mut out: Vec<(Contour, [[i32; 2]; 2])> = Vec::new();
    let n = candidates.len();
    let mut k: usize = 0;
    while k < n
        invariant
            n == cs.len(),
            k <= n,
            candidates@.len() == n - k,
            contours_view(candidates@) == cs.skip(k as int),
            contour_in_range(face@),
            forall|i: int| 0 <= i < cs.len() ==> contour_in_range(#[trigger] cs[i]),
            neighbours_view(out@) == spec_face_neighbours(face@, cs.take(k as int)),
        decreases n - k,
    {
        let ghost before = candidates@;
        let c = candidates.remove(0);
        proof {
            assert(contours_view(before)[0] == cs.skip(k as int)[0]);
            assert(c@ == cs[k as int]);
            assert forall|i: int| 0 <= i < candidates@.len() implies #[trigger] contours_view(candidates@)[i] == cs.skip(k + 1)[i] by {
                assert(candidates@[i] == before[i + 1]);
                assert(contours_view(before)[i + 1] == cs.skip(k as int)[i + 1]);
            }
            assert(contours_view(candidates@) =~= cs.skip(k + 1));
            assert(cs.take(k + 1).drop_last() =~= cs.take(k as int));
            assert(cs.take(k + 1).last() == c@);
        }
        if !crate::flat::tesselation::same_contour(&c, face) && contour_portal(&c, face).is_some() {
            match contour_portal(face, &c) {
                Some(p) => {
                    let ghost o0 = out@;
                    out.push((c, p));
                    assert(neighbours_view(out@) =~= neighbours_view(o0).push((cs[k as int], p)));
                },
                None => {},
            }
        }
        k = k + 1;
    }
    assert(cs.take(k as int) =~= cs);
    out
}

/// A copy of the contour `c`.
pub(crate) fn copy_contour(c: &Contour) -> (r: Contour)
    ensures
        r@ == c@,
{
    let mut r: Contour = Vec::new();
    let mut i: usize = 0;
    while i < c.len()
        invariant
            i <= c@.len(),
            r@ == c@.take(i as int),
        decreases c@.len() - i,
    {
        r.push(c[i]);
        i = i + 1;
        assert(r@ =~= c@.take(i as int));
    }
    assert(c@.take(i as int) =~= c@);
    r
}

/// Whether the interiors of the polygons `a` and `b` meet.
pub fn contours_overlap(a: &Contour, b: &Contour) -> (r: bool)
    requires
        contour_in_range(a@),
        contour_in_range(b@),
    ensures
        r == interiors_intersect_of(a@, b@),
{
    interiors_intersect(a, b)
}

// ---------------------------------------------------------------------------------------
// Making obstacles non-overlapping and convex.

/// Obstacles as plain sequences: the points of the shape and the layers.
pub open spec fn obstacles_view(v: Seq<(Shape, LayerIds)>) -> Seq<(Seq<Seq<[i32; 2]>>, Set<usize>)> {
    v.map_values(|o: (Shape, LayerIds)| (shape_view(o.0), o.1@))
}

/// Convex obstacles as plain sequences: the points of the contour and the layers.
pub open spec fn convex_obstacles_view(v: Seq<(Contour, LayerIds)>) -> Seq<(Seq<[i32; 2]>, Set<usize>)> {
    v.map_values(|o: (Contour, LayerIds)| (o.0@, o.1@))
}

/// The shapes `s`, each on the layers `l`.
pub open spec fn on_layers(s: ShapesView, l: Set<usize>) -> Seq<(Seq<Seq<[i32; 2]>>, Set<usize>)> {
    s.map_values(|sh: Seq<Seq<[i32; 2]>>| (sh, l))
}

/// Refining the obstacle `shape` on layers `layers` against the convex obstacles
/// `drained[..k]`: the obstacles so far, and what is left of `shape`. Where the obstacle
/// meets a convex obstacle, their common part goes on the layers of both, the rest of the
/// convex obstacle keeps its layers, and the common part leaves what is left of `shape`;
/// a convex obstacle that it does not meet stays as it is. An overlay that `i_overlay`
/// cannot build, or whose pieces leave its coordinate range, counts as meeting nothing.
pub open spec fn spec_refine(
    shape: Seq<Seq<[i32; 2]>>,
    layers: Set<usize>,
    drained: Seq<(Seq<[i32; 2]>, Set<usize>)>,
    k: int,
) -> (Seq<(Seq<Seq<[i32; 2]>>, Set<usize>)>, ShapesView)
    decreases k,
{
    if k <= 0 {
        (Seq::empty(), seq![shape])
    } else {
        let (tmp, left) = spec_refine(shape, layers, drained, k - 1);
        let (c, cl) = drained[k - 1];
        let own = (seq![c], cl);
        match overlay_split_of(flat_contours(left), c) {
            Some(x) => if x.0.len() > 0 && split_in_range(x) {
                (tmp + on_layers(x.0, layers.union(cl)) + on_layers(x.2, cl), x.1)
            } else {
                (tmp.push(own), left)
            },
            None => (tmp.push(own), left),
        }
    }
}

/// Whether refining against the convex obstacle `(c, cl)`, with `left` left of the obstacle
/// being added, splits it: the overlay can be built, in range, and has a common part.
pub open spec fn splits(left: ShapesView, c: Seq<[i32; 2]>) -> bool {
    overlay_split_of(flat_contours(left), c) matches Some(x) && x.0.len() > 0 && split_in_range(x)
}

/// Refining loses no part of the obstacles it meets. For each convex obstacle
/// `drained[j] == (c, cl)`, with `left` what was left of the added obstacle when `c` was
/// reached: if the overlay of `left` with `c` splits them, every common piece is among the
/// refined obstacles on the layers of both, every piece of `c` outside `left` is among them
/// on the layers `cl`, and what is left of the added obstacle afterwards is exactly its
/// part outside `c`; otherwise `c` itself is among the refined obstacles on `cl`, and
/// nothing is taken from what is left.
pub proof fn lemma_refine_keeps_pieces(
    shape: Seq<Seq<[i32; 2]>>,
    layers: Set<usize>,
    drained: Seq<(Seq<[i32; 2]>, Set<usize>)>,
    k: int,
    j: int,
)
    requires
        0 <= j < k <= drained.len(),
    ensures
        ({
            let out = spec_refine(shape, layers, drained, k).0;
            let left = spec_refine(shape, layers, drained, j).1;
            let after = spec_refine(shape, layers, drained, j + 1).1;
            let c = drained[j].0;
            let cl = drained[j].1;
            if splits(left, c) {
                let x = overlay_split_of(flat_contours(left), c).unwrap();
                &&& forall|i: int| 0 <= i < x.0.len() ==> out.contains((#[trigger] x.0[i], layers.union(cl)))
                &&& forall|i: int| 0 <= i < x.2.len() ==> out.contains((#[trigger] x.2[i], cl))
                &&& after == x.1
            } else {
                &&& out.contains((seq![c], cl))
                &&& after == left
            }
        }),
    decreases k,
{
    let out = spec_refine(shape, layers, drained, k).0;
    let left = spec_refine(shape, layers, drained, j).1;
    let c = drained[j].0;
    let cl = drained[j].1;
    if k == j + 1 {
        let tmp = spec_refine(shape, layers, drained, j).0;
        if splits(left, c) {
            let x = overlay_split_of(flat_contours(left), c).unwrap();
            let a = on_layers(x.0, layers.union(cl));
            let b = on_layers(x.2, cl);
            assert(out == tmp + a + b);
            assert forall|i: int| 0 <= i < x.0.len() implies out.contains((#[trigger] x.0[i], layers.union(cl))) by {
                assert(out[tmp.len() + i] == a[i]);
            }
            assert forall|i: int| 0 <= i < x.2.len() implies out.contains((#[trigger] x.2[i], cl)) by {
                assert(out[tmp.len() + a.len() + i] == b[i]);
            }
        } else {
            assert(out == tmp.push((seq![c], cl)));
            assert(out[tmp.len() as int] == (seq![c], cl));
        }
    } else {
        lemma_refine_keeps_pieces(shape, layers, drained, k - 1, j);
        let prev = spec_refine(shape, layers, drained, k - 1).0;
        assert forall|e: (Seq<Seq<[i32; 2]>>, Set<usize>)| prev.contains(e) implies out.contains(e) by {
            let i = choose|i: int| 0 <= i < prev.len() && prev[i] == e;
            assert(out[i] == prev[i]);
        }
    }
}

/// Whether the points of every obstacle lie in the coordinate range of `i_overlay`.
pub open spec fn obstacles_in_range(v: Seq<(Seq<Seq<[i32; 2]>>, Set<usize>)>) -> bool {
    forall|i: int| 0 <= i < v.len() ==> contours_in_range(#[trigger] v[i].0)
}

/// Appends the shapes `shapes`, each on the layers `layers`, to `out`.
fn push_on_layers(out: &mut Vec<(Shape, LayerIds)>, shapes: Vec<Shape>, layers: &LayerIds)
    ensures
        obstacles_view(final(out)@) == obstacles_view(old(out)@) + on_layers(shapes_view(shapes), layers@),
{
    let ghost o0 = obstacles_view(out@);
    let ghost sv = shapes_view(shapes);
    let mut shapes = shapes;
    let n = shapes.len();
    let mut k: usize = 0;
    while k < n
        invariant
            n == sv.len(),
            k <= n,
            shapes@.len() == n - k,
            shapes_view(shapes) == sv.skip(k as int),
            obstacles_view(out@) == o0 + on_layers(sv.take(k as int), layers@),
        decreases n - k,
    {
        let ghost before = shapes@;
        let ghost before_v = shapes_view(shapes);
        let sh = shapes.remove(0);
        proof {
            assert(before_v[0] == sv.skip(k as int)[0]);
            assert(before_v[0] == shape_view(sh));
            assert forall|i: int| 0 <= i < shapes@.len() implies #[trigger] shapes_view(shapes)[i] == sv.skip(k + 1)[i] by {
                assert(shapes@[i] == before[i + 1]);
                assert(before_v[i + 1] == sv.skip(k as int)[i + 1]);
            }
            assert(shapes_view(shapes) =~= sv.skip(k + 1));
        }
        let ghost out0 = out@;
        out.push((sh, layers.clone()));
        proof {
            assert(obstacles_view(out@) =~= obstacles_view(out0).push((shape_view(sh), layers@)));
            assert(on_layers(sv.take(k + 1), layers@) =~= on_layers(sv.take(k as int), layers@).push((sv[k as int], layers@)));
        }
        k = k + 1;
    }
    assert(sv.take(k as int) =~= sv);
}

/// Refines the obstacle `shape` on `layers` against the convex obstacles `drained` (see
/// [`spec_refine`]): the obstacles that replace the convex ones, and what is left of
/// `shape`.
pub fn refine_obstacle(shape: Shape, layers: &LayerIds, drained: Vec<(Contour, LayerIds)>) -> (r: (Vec<(Shape, LayerIds)>, Vec<Shape>))
    requires
        contours_in_range(shape_view(shape)),
        forall|i: int| 0 <= i < drained@.len() ==> contour_in_range(#[trigger] drained@[i].0@),
    ensures
        (obstacles_view(r.0@), shapes_view(r.1)) == spec_refine(
            shape_view(shape),
            layers@,
            convex_obstacles_view(drained@),
            drained@.len() as int,
        ),
        obstacles_in_range(obstacles_view(r.0@)),
        shapes_in_overlay_range(shapes_view(r.1)),
{
    let ghost sh0 = shape_view(shape);
    let ghost dv = convex_obstacles_view(drained@);
    let mut drained = drained;
    let mut left: Vec<Shape> = vec![shape];
    let mut tmp: Vec<(Shape, LayerIds)> = Vec::new();
    let n = drained.len();
    let mut k: usize = 0;
    proof {
        assert(shapes_view(left) =~= seq![sh0]);
        assert(dv.len() == n);
        assert forall|i: int| 0 <= i < dv.len() implies contour_in_range(#[trigger] dv[i].0) by {
            assert(dv[i].0 == drained@[i].0@);
        }
    }
    while k < n
        invariant
            n == dv.len(),
            k <= n,
            drained@.len() == n - k,
            convex_obstacles_view(drained@) == dv.skip(k as int),
            forall|i: int| 0 <= i < dv.len() ==> contour_in_range(#[trigger] dv[i].0),
            contours_in_range(sh0),
            (obstacles_view(tmp@), shapes_view(left)) == spec_refine(sh0, layers@, dv, k as int),
            obstacles_in_range(obstacles_view(tmp@)),
            shapes_in_overlay_range(shapes_view(left)),
        decreases n - k,
    {
        let ghost before = drained@;
        let (c, cl) = drained.remove(0);
        proof {
            assert(convex_obstacles_view(before)[0] == dv.skip(k as int)[0]);
            assert forall|i: int| 0 <= i < drained@.len() implies #[trigger] convex_obstacles_view(drained@)[i] == dv.skip(k + 1)[i] by {
                assert(drained@[i] == before[i + 1]);
                assert(convex_obstacles_view(before)[i + 1] == dv.skip(k as int)[i + 1]);
            }
            assert(convex_obstacles_view(drained@) =~= dv.skip(k + 1));
            assert(dv[k as int] == (c@, cl@));
        }
        let clip: Shape = vec![c];
        assert(shape_view(clip) =~= seq![dv[k as int].0]);
        assert(contours_in_range(shape_view(clip))) by {
            assert(shape_view(clip)[0] == dv[k as int].0);
        }
        let ghost tmp0 = obstacles_view(tmp@);
        let mut taken = false;
        match overlay_split(&left, &clip[0]) {
            Some((inters, diff, inv)) => {
                if inters.len() > 0 && shapes_fit(&inters) && shapes_fit(&diff) && shapes_fit(&inv) {
                    let both = layers.union(&cl);
                    let ghost iv = shapes_view(inters);
                    let ghost vv = shapes_view(inv);
                    push_on_layers(&mut tmp, inters, &both);
                    push_on_layers(&mut tmp, inv, &cl);
                    left = diff;
                    taken = true;
                    proof {
                        let t = obstacles_view(tmp@);
                        assert(t == tmp0 + on_layers(iv, layers@.union(cl@)) + on_layers(vv, cl@));
                        assert forall|i: int| 0 <= i < t.len() implies contours_in_range(#[trigger] t[i].0) by {
                            let a = tmp0.len();
                            let b = a + iv.len();
                            if i < a {
                                assert(t[i] == tmp0[i]);
                            } else if i < b {
                                assert(t[i].0 == iv[i - a]);
                                assert forall|j: int| 0 <= j < iv[i - a].len() implies contour_in_range(#[trigger] iv[i - a][j]) by {
                                    assert forall|l: int| 0 <= l < iv[i - a][j].len() implies in_overlay_range(#[trigger] iv[i - a][j][l]) by {
                                    }
                                }
                            } else {
                                assert(t[i].0 == vv[i - b]);
                                assert forall|j: int| 0 <= j < vv[i - b].len() implies contour_in_range(#[trigger] vv[i - b][j]) by {
                                    assert forall|l: int| 0 <= l < vv[i - b][j].len() implies in_overlay_range(#[trigger] vv[i - b][j][l]) by {
                                    }
                                }
                            }
                        }
                    }
                }
            },
            None => {},
        }
        if !taken {
            tmp.push((clip, cl));
            proof {
                let t = obstacles_view(tmp@);
                assert(t =~= tmp0.push((seq![dv[k as int].0], dv[k as int].1)));
                assert forall|i: int| 0 <= i < t.len() implies contours_in_range(#[trigger] t[i].0) by {
                    if i < tmp0.len() {
                        assert(t[i] == tmp0[i]);
                    } else {
                        assert(t[i].0 == seq![dv[k as int].0]);
                    }
                }
            }
        }
        k = k + 1;
    }
    (tmp, left)
}

/// The convex obstacles of some obstacles: each shape cut into convex polygons, on the
/// layers of its obstacle.
pub open spec fn spec_convex_obstacles(v: Seq<(Seq<Seq<[i32; 2]>>, Set<usize>)>) -> Seq<(Seq<[i32; 2]>, Set<usize>)>
    decreases v.len(),
{
    if v.len() == 0 {
        Seq::empty()
    } else {
        let (sh, l) = v.last();
        spec_convex_obstacles(v.drop_last()) + shape_convex_parts_of(sh).map_values(|c: Seq<[i32; 2]>| (c, l))
    }
}

/// Cuts each obstacle into convex obstacles on its layers (see [`spec_convex_obstacles`]).
pub fn convex_obstacles(obstacles: Vec<(Shape, LayerIds)>) -> (r: Vec<(Contour, LayerIds)>)
    requires
        obstacles_in_range(obstacles_view(obstacles@)),
    ensures
        convex_obstacles_view(r@) == spec_convex_obstacles(obstacles_view(obstacles@)),
{
    let ghost ov = obstacles_view(obstacles@);
    let mut obstacles = obstacles;
    let mut out: Vec<(Contour, LayerIds)> = Vec::new();
    let n = obstacles.len();
    let mut k: usize = 0;
    while k < n
        invariant
            n == ov.len(),
            k <= n,
            obstacles@.len() == n - k,
            obstacles_view(obstacles@) == ov.skip(k as int),
            obstacles_in_range(ov),
            convex_obstacles_view(out@) == spec_convex_obstacles(ov.take(k as int)),
        decreases n - k,
    {
        let ghost before = obstacles@;
        let (shape, layers) = obstacles.remove(0);
        proof {
            assert(obstacles_view(before)[0] == ov.skip(k as int)[0]);
            assert forall|i: int| 0 <= i < obstacles@.len() implies #[trigger] obstacles_view(obstacles@)[i] == ov.skip(k + 1)[i] by {
                assert(obstacles@[i] == before[i + 1]);
                assert(obstacles_view(before)[i + 1] == ov.skip(k as int)[i + 1]);
            }
            assert(obstacles_view(obstacles@) =~= ov.skip(k + 1));
            assert(ov.take(k + 1).drop_last() =~= ov.take(k as int));
            assert(ov.take(k + 1).last() == (shape_view(shape), layers@));
            assert(contours_in_range(ov[k as int].0));
        }
        let parts = shape_convex_parts(&shape);
        let ghost out0 = convex_obstacles_view(out@);
        let ghost pv = contours_view(parts@);
        let mut parts = parts;
        let m = parts.len();
        let mut j: usize = 0;
        while j < m
            invariant
                m == pv.len(),
                j <= m,
                parts@.len() == m - j,
                contours_view(parts@) == pv.skip(j as int),
                convex_obstacles_view(out@) == out0 + pv.take(j as int).map_values(|c: Seq<[i32; 2]>| (c, layers@)),
            decreases m - j,
        {
            let ghost pb = parts@;
            let c = parts.remove(0);
            proof {
                assert(contours_view(pb)[0] == pv.skip(j as int)[0]);
                assert forall|i: int| 0 <= i < parts@.len() implies #[trigger] contours_view(parts@)[i] == pv.skip(j + 1)[i] by {
                    assert(parts@[i] == pb[i + 1]);
                    assert(contours_view(pb)[i + 1] == pv.skip(j as int)[i + 1]);
                }
                assert(contours_view(parts@) =~= pv.skip(j + 1));
            }
            let ghost o0 = out@;
            out.push((c, layers.clone()));
            proof {
                assert(convex_obstacles_view(out@) =~= convex_obstacles_view(o0).push((c@, layers@)));
                assert(pv.take(j + 1).map_values(|c: Seq<[i32; 2]>| (c, layers@)) =~= pv.take(j as int).map_values(
                    |c: Seq<[i32; 2]>| (c, layers@),
                ).push((pv[j as int], layers@)));
            }
            j = j + 1;
        }
        assert(pv.take(j as int) =~= pv);
        k = k + 1;
    }
    assert(ov.take(k as int) =~= ov);
    out
}

/// An obstacle: a shape (outer contour, then holes) on some layers.
#[derive(Clone, Debug, PartialEq, Eq)]
pub struct Obstacle {
    pub shape: Shape,
    pub layers: LayerIds,
}

/// A convex obstacle on some layers.
#[derive(Clone, Debug, PartialEq, Eq)]
pub struct ConvexObstacle {
    pub contour: Contour,
    pub layers: LayerIds,
}

/// Obstacles as plain sequences.
pub open spec fn obstacle_list_view(v: Seq<Obstacle>) -> Seq<(Seq<Seq<[i32; 2]>>, Set<usize>)> {
    v.map_values(|o: Obstacle| (shape_view(o.shape), o.layers@))
}

/// Convex obstacles as plain sequences.
pub open spec fn convex_list_view(v: Seq<ConvexObstacle>) -> Seq<(Seq<[i32; 2]>, Set<usize>)> {
    v.map_values(|o: ConvexObstacle| (o.contour@, o.layers@))
}

/// Whether the convex obstacle meets the box `q` of a new obstacle: both have points, their
/// boxes meet, and it lies in the coordinate range of `i_overlay` (one out of that range is
/// left as it is).
pub open spec fn meets_box(o: (Seq<[i32; 2]>, Set<usize>), q: Option<([i32; 2], [i32; 2])>) -> bool {
    &&& q is Some
    &&& o.0.len() > 0
    &&& boxes_overlap(spec_contour_box(o.0), q.unwrap())
    &&& contour_in_range(o.0)
}

/// The convex obstacles that meet the box `q` (see [`meets_box`]).
pub open spec fn meeting(q: Option<([i32; 2], [i32; 2])>) -> spec_fn((Seq<[i32; 2]>, Set<usize>)) -> bool {
    |o: (Seq<[i32; 2]>, Set<usize>)| meets_box(o, q)
}

/// The convex obstacles that do not meet the box `q` (see [`meets_box`]).
pub open spec fn missing(q: Option<([i32; 2], [i32; 2])>) -> spec_fn((Seq<[i32; 2]>, Set<usize>)) -> bool {
    |o: (Seq<[i32; 2]>, Set<usize>)| !meets_box(o, q)
}

/// The bounding box of the points of a shape; `None` when it has no point.
pub open spec fn shape_box(shape: Seq<Seq<[i32; 2]>>) -> Option<([i32; 2], [i32; 2])> {
    let ps = contour_list_points(shape);
    if ps.len() > 0 {
        Some(spec_contour_box(ps))
    } else {
        None
    }
}

/// The convex obstacles `st` after adding the obstacle `shape` on `layers`: those that
/// meet its box (see [`meets_box`]) are refined against it (see [`spec_refine`]) and cut
/// into convex obstacles again, as is what is left of the shape; the others stay, in
/// order, before them.
pub open spec fn spec_add_obstacle(
    st: Seq<(Seq<[i32; 2]>, Set<usize>)>,
    shape: Seq<Seq<[i32; 2]>>,
    layers: Set<usize>,
) -> Seq<(Seq<[i32; 2]>, Set<usize>)> {
    let q = shape_box(shape);
    let drained = st.filter(meeting(q));
    let kept = st.filter(missing(q));
    let (tmp, left) = spec_refine(shape, layers, drained, drained.len() as int);
    kept + spec_convex_obstacles(tmp) + spec_convex_obstacles(on_layers(left, layers))
}

/// Cutting obstacles into convex ones keeps every convex part of every obstacle, on the
/// layers of its obstacle.
proof fn lemma_convex_obstacles_contain(v: Seq<(Seq<Seq<[i32; 2]>>, Set<usize>)>, i: int, p: int)
    requires
        0 <= i < v.len(),
        0 <= p < shape_convex_parts_of(v[i].0).len(),
    ensures
        spec_convex_obstacles(v).contains((shape_convex_parts_of(v[i].0)[p], v[i].1)),
    decreases v.len(),
{
    let rest = spec_convex_obstacles(v.drop_last());
    let (sh, l) = v.last();
    let tail = shape_convex_parts_of(sh).map_values(|c: Seq<[i32; 2]>| (c, l));
    assert(spec_convex_obstacles(v) == rest + tail);
    if i < v.len() - 1 {
        assert(v.drop_last()[i] == v[i]);
        lemma_convex_obstacles_contain(v.drop_last(), i, p);
        let q = choose|q: int| 0 <= q < rest.len() && rest[q] == (shape_convex_parts_of(v[i].0)[p], v[i].1);
        assert((rest + tail)[q] == rest[q]);
    } else {
        assert((rest + tail)[rest.len() + p] == tail[p]);
    }
}

/// Adding an obstacle loses no obstacle: every convex obstacle whose box the new one does
/// not meet stays as it is, every convex part of every refined obstacle is kept on the
/// layers of that obstacle, and every convex part of what is left of the new obstacle is
/// kept on the new obstacle's layers.
pub proof fn lemma_add_obstacle_keeps(
    st: Seq<(Seq<[i32; 2]>, Set<usize>)>,
    shape: Seq<Seq<[i32; 2]>>,
    layers: Set<usize>,
)
    ensures
        ({
            let out = spec_add_obstacle(st, shape, layers);
            let q = shape_box(shape);
            let drained = st.filter(meeting(q));
            let (tmp, left) = spec_refine(shape, layers, drained, drained.len() as int);
            &&& forall|i: int| 0 <= i < st.len() && !meets_box(#[trigger] st[i], q) ==> out.contains(st[i])
            &&& forall|i: int, p: int| 0 <= i < tmp.len() && 0 <= p < shape_convex_parts_of(tmp[i].0).len()
                ==> out.contains((#[trigger] shape_convex_parts_of(tmp[i].0)[p], tmp[i].1))
            &&& forall|i: int, p: int| 0 <= i < left.len() && 0 <= p < shape_convex_parts_of(left[i]).len()
                ==> out.contains((#[trigger] shape_convex_parts_of(left[i])[p], layers))
        }),
{
    broadcast use vstd::seq_lib::group_filter_ensures;
    let out = spec_add_obstacle(st, shape, layers);
    let q = shape_box(shape);
    let drained = st.filter(meeting(q));
    let kept = st.filter(missing(q));
    let (tmp, left) = spec_refine(shape, layers, drained, drained.len() as int);
    let a = spec_convex_obstacles(tmp);
    let b = spec_convex_obstacles(on_layers(left, layers));
    assert(out == kept + a + b);
    assert forall|i: int| 0 <= i < st.len() && !meets_box(#[trigger] st[i], q) implies out.contains(st[i]) by {
        assert(missing(q)(st[i]));
        assert(kept.contains(st[i]));
        let x = choose|x: int| 0 <= x < kept.len() && kept[x] == st[i];
        assert(out[x] == kept[x]);
    }
    assert forall|i: int, p: int| 0 <= i < tmp.len() && 0 <= p < shape_convex_parts_of(tmp[i].0).len()
        implies out.contains((#[trigger] shape_convex_parts_of(tmp[i].0)[p], tmp[i].1)) by {
        lemma_convex_obstacles_contain(tmp, i, p);
        let x = choose|x: int| 0 <= x < a.len() && a[x] == (shape_convex_parts_of(tmp[i].0)[p], tmp[i].1);
        assert(out[kept.len() + x] == a[x]);
    }
    assert forall|i: int, p: int| 0 <= i < left.len() && 0 <= p < shape_convex_parts_of(left[i]).len()
        implies out.contains((#[trigger] shape_convex_parts_of(left[i])[p], layers)) by {
        let ol = on_layers(left, layers);
        assert(ol[i] == (left[i], layers));
        lemma_convex_obstacles_contain(ol, i, p);
        let x = choose|x: int| 0 <= x < b.len() && b[x] == (shape_convex_parts_of(left[i])[p], layers);
        assert(out[kept.len() + a.len() + x] == b[x]);
    }
}

/// The convex obstacles made of the obstacles, added one after the other (see
/// [`spec_add_obstacle`]).
pub open spec fn spec_make_convex(obstacles: Seq<(Seq<Seq<[i32; 2]>>, Set<usize>)>) -> Seq<(Seq<[i32; 2]>, Set<usize>)>
    decreases obstacles.len(),
{
    if obstacles.len() == 0 {
        Seq::empty()
    } else {
        let (shape, layers) = obstacles.last();
        spec_add_obstacle(spec_make_convex(obstacles.drop_last()), shape, layers)
    }
}

/// The convex obstacles of `v` as structures.
fn to_convex_obstacles(v: Vec<(Contour, LayerIds)>) -> (r: Vec<ConvexObstacle>)
    ensures
        convex_list_view(r@) == convex_obstacles_view(v@),
{
    let ghost vv = convex_obstacles_view(v@);
    let mut v = v;
    let mut out: Vec<ConvexObstacle> = Vec::new();
    let n = v.len();
    let mut k: usize = 0;
    assert(vv.skip(0) =~= vv);
    while k < n
        invariant
            n == vv.len(),
            k <= n,
            v@.len() == n - k,
            convex_obstacles_view(v@) == vv.skip(k as int),
            convex_list_view(out@) == vv.take(k as int),
        decreases n - k,
    {
        let ghost before = v@;
        let (contour, layers) = v.remove(0);
        proof {
            assert(convex_obstacles_view(before)[0] == vv.skip(k as int)[0]);
            assert forall|i: int| 0 <= i < v@.len() implies #[trigger] convex_obstacles_view(v@)[i] == vv.skip(k + 1)[i] by {
                assert(v@[i] == before[i + 1]);
                assert(convex_obstacles_view(before)[i + 1] == vv.skip(k as int)[i + 1]);
            }
            assert(convex_obstacles_view(v@) =~= vv.skip(k + 1));
        }
        let ghost o0 = out@;
        out.push(ConvexObstacle { contour, layers });
        assert(convex_list_view(out@) =~= convex_list_view(o0).push(vv[k as int]));
        assert(vv.take(k + 1) =~= vv.take(k as int).push(vv[k as int]));
        k = k + 1;
    }
    assert(vv.take(n as int) =~= vv);
    out
}

/// Turns obstacles into convex obstacles that do not overlap (as the funnel algorithm
/// needs), adding them one after the other (see [`spec_make_convex`]): where obstacles
/// overlap, the common part is on the layers of both.
pub fn make_non_overlapping_and_convex(objects: Vec<Obstacle>) -> (r: Vec<ConvexObstacle>)
    requires
        forall|i: int| 0 <= i < objects@.len() ==> contours_in_range(#[trigger] shape_view(objects@[i].shape)),
    ensures
        convex_list_view(r@) == spec_make_convex(obstacle_list_view(objects@)),
{
    let ghost ov = obstacle_list_view(objects@);
    let mut objects = objects;
    let mut ret: Vec<ConvexObstacle> = Vec::new();
    let n = objects.len();
    let mut k: usize = 0;
    assert(ov.skip(0) =~= ov);
    assert(ov.take(0) =~= Seq::<(Seq<Seq<[i32; 2]>>, Set<usize>)>::empty());
    while k < n
        invariant
            n == ov.len(),
            k <= n,
            objects@.len() == n - k,
            obstacle_list_view(objects@) == ov.skip(k as int),
            forall|i: int| 0 <= i < ov.len() ==> contours_in_range(#[trigger] ov[i].0),
            convex_list_view(ret@) == spec_make_convex(ov.take(k as int)),
        decreases n - k,
    {
        let ghost before = objects@;
        let Obstacle { shape, layers } = objects.remove(0);
        proof {
            assert(obstacle_list_view(before)[0] == ov.skip(k as int)[0]);
            assert forall|i: int| 0 <= i < objects@.len() implies #[trigger] obstacle_list_view(objects@)[i] == ov.skip(k + 1)[i] by {
                assert(objects@[i] == before[i + 1]);
                assert(obstacle_list_view(before)[i + 1] == ov.skip(k as int)[i + 1]);
            }
            assert(obstacle_list_view(objects@) =~= ov.skip(k + 1));
            assert(ov.take(k + 1).drop_last() =~= ov.take(k as int));
            assert(ov.take(k + 1).last() == ov[k as int]);
            assert(ov[k as int] == (shape_view(shape), layers@));
            assert(contours_in_range(ov[k as int].0));
        }
        let ghost st = convex_list_view(ret@);
        let ghost sv = shape_view(shape);
        let ghost q = shape_box(sv);
        // which convex obstacles meet the box of the new one
        let pts = all_points(&shape);
        let m = ret.len();
        let mut mask: Vec<bool> = Vec::new();
        if pts.len() > 0 {
            let (lo, hi) = contour_box(&pts);
            let mut boxes: Vec<([i32; 2], [i32; 2])> = Vec::new();
            let mut j: usize = 0;
            while j < m
                invariant
                    m == ret@.len(),
                    j <= m,
                    boxes@.len() == j,
                    forall|x: int| 0 <= x < j ==> #[trigger] boxes@[x] == spec_contour_box(ret@[x].contour@),
                    forall|x: int| 0 <= x < j ==> box_ordered(#[trigger] boxes@[x]),
                decreases m - j,
            {
                boxes.push(contour_box(&ret[j].contour));
                j = j + 1;
            }
            let index = box_index_load(&boxes);
            mask = located_mask(&index, m, lo, hi);
            proof {
                assert(contour_list_points(sv) == pts@);
                assert forall|i: int| 0 <= i < m implies (#[trigger] mask@[i] <==> boxes_overlap(spec_contour_box(ret@[i].contour@), (lo, hi))) by {
                    assert(box_index_items(index)[i] == boxes@[i]);
                }
            }
        } else {
            let mut j: usize = 0;
            while j < m
                invariant
                    m == ret@.len(),
                    j <= m,
                    mask@.len() == j,
                    forall|x: int| 0 <= x < j ==> !(#[trigger] mask@[x]),
                decreases m - j,
            {
                mask.push(false);
                j = j + 1;
            }
        }
        proof {
            assert(contour_list_points(sv) == pts@);
            assert forall|i: int| 0 <= i < m implies (#[trigger] mask@[i] && st[i].0.len() > 0 && contour_in_range(st[i].0)) == meets_box(st[i], q) by {
                assert(st[i] == (ret@[i].contour@, ret@[i].layers@));
            }
        }
        // take out those that meet it
        let ghost pred = meeting(q);
        let ghost npred = missing(q);
        let mut old_ret: Vec<ConvexObstacle> = Vec::new();
        std::mem::swap(&mut old_ret, &mut ret);
        let mut drained: Vec<(Contour, LayerIds)> = Vec::new();
        let mut kept: Vec<ConvexObstacle> = Vec::new();
        let mut j: usize = 0;
        assert(st.take(0) =~= Seq::<(Seq<[i32; 2]>, Set<usize>)>::empty());
        assert(convex_list_view(old_ret@).skip(0) =~= st);
        while j < m
            invariant
                m == st.len(),
                j <= m,
                mask@.len() == m,
                forall|i: int| 0 <= i < m ==> (#[trigger] mask@[i] && st[i].0.len() > 0 && contour_in_range(st[i].0)) == meets_box(st[i], q),
                convex_list_view(old_ret@) == st.skip(j as int),
                old_ret@.len() == m - j,
                pred == meeting(q),
                npred == missing(q),
                convex_obstacles_view(drained@) == st.take(j as int).filter(pred),
                convex_list_view(kept@) == st.take(j as int).filter(npred),
                forall|i: int| 0 <= i < drained@.len() ==> contour_in_range(#[trigger] drained@[i].0@),
            decreases m - j,
        {
            let ghost before = old_ret@;
            let o = old_ret.remove(0);
            let ghost t = st.take(j + 1);
            proof {
                reveal(Seq::filter);
                assert(convex_list_view(before)[0] == st.skip(j as int)[0]);
                assert((o.contour@, o.layers@) == st[j as int]);
                assert forall|i: int| 0 <= i < old_ret@.len() implies #[trigger] convex_list_view(old_ret@)[i] == st.skip(j + 1)[i] by {
                    assert(old_ret@[i] == before[i + 1]);
                    assert(convex_list_view(before)[i + 1] == st.skip(j as int)[i + 1]);
                }
                assert(convex_list_view(old_ret@) =~= st.skip(j + 1));
                assert(t.drop_last() =~= st.take(j as int));
                assert(t.last() == st[j as int]);
                assert(t.filter(pred) == if pred(t.last()) { t.drop_last().filter(pred).push(t.last()) } else { t.drop_last().filter(pred) });
                assert(t.filter(npred) == if npred(t.last()) { t.drop_last().filter(npred).push(t.last()) } else { t.drop_last().filter(npred) });
            }
            if mask[j] && o.contour.len() > 0 && contour_fits(&o.contour) {
                let ghost d0 = drained@;
                let ConvexObstacle { contour, layers } = o;
                drained.push((contour, layers));
                proof {
                    assert(convex_obstacles_view(drained@) =~= convex_obstacles_view(d0).push(st[j as int]));
                    assert forall|i: int| 0 <= i < drained@.len() implies contour_in_range(#[trigger] drained@[i].0@) by {
                        if i < d0.len() {
                            assert(drained@[i] == d0[i]);
                        }
                    }
                }
            } else {
                let ghost k0 = kept@;
                kept.push(o);
                assert(convex_list_view(kept@) =~= convex_list_view(k0).push(st[j as int]));
            }
            j = j + 1;
        }
        assert(st.take(m as int) =~= st);
        let ghost dv = convex_obstacles_view(drained@);
        let (tmp, left) = refine_obstacle(shape, &layers, drained);
        let ghost lv = shapes_view(left);
        // what is left of the shape, on its layers
        let mut rest: Vec<(Shape, LayerIds)> = Vec::new();
        let mut left = left;
        let nl = left.len();
        let mut j: usize = 0;
        assert(lv.skip(0) =~= lv);
        while j < nl
            invariant
                nl == lv.len(),
                j <= nl,
                left@.len() == nl - j,
                shapes_view(left) == lv.skip(j as int),
                shapes_in_overlay_range(lv),
                obstacles_view(rest@) == on_layers(lv.take(j as int), layers@),
                obstacles_in_range(obstacles_view(rest@)),
            decreases nl - j,
        {
            let ghost bl = left@;
            let ghost bv = shapes_view(left);
            let sh = left.remove(0);
            proof {
                assert(bv[0] == lv.skip(j as int)[0]);
                assert(bv[0] == shape_view(sh));
                assert forall|i: int| 0 <= i < left@.len() implies #[trigger] shapes_view(left)[i] == lv.skip(j + 1)[i] by {
                    assert(left@[i] == bl[i + 1]);
                    assert(bv[i + 1] == lv.skip(j as int)[i + 1]);
                }
                assert(shapes_view(left) =~= lv.skip(j + 1));
            }
            let ghost r0 = obstacles_view(rest@);
            rest.push((sh, layers.clone()));
            proof {
                assert(obstacles_view(rest@) =~= r0.push((lv[j as int], layers@)));
                assert(on_layers(lv.take(j + 1), layers@) =~= on_layers(lv.take(j as int), layers@).push((lv[j as int], layers@)));
                let t = obstacles_view(rest@);
                assert forall|i: int| 0 <= i < t.len() implies contours_in_range(#[trigger] t[i].0) by {
                    if i < r0.len() {
                        assert(t[i] == r0[i]);
                    } else {
                        assert(t[i].0 == lv[j as int]);
                        assert forall|b: int| 0 <= b < lv[j as int].len() implies contour_in_range(#[trigger] lv[j as int][b]) by {
                            assert forall|c: int| 0 <= c < lv[j as int][b].len() implies in_overlay_range(#[trigger] lv[j as int][b][c]) by {}
                        }
                    }
                }
            }
            j = j + 1;
        }
        assert(lv.take(nl as int) =~= lv);
        let from_tmp = to_convex_obstacles(convex_obstacles(tmp));
        let from_rest = to_convex_obstacles(convex_obstacles(rest));
        let ghost kv = convex_list_view(kept@);
        let mut from_tmp = from_tmp;
        let mut from_rest = from_rest;
        let ghost tv = convex_list_view(from_tmp@);
        let ghost rv = convex_list_view(from_rest@);
        kept.append(&mut from_tmp);
        kept.append(&mut from_rest);
        ret = kept;
        proof {
            assert(convex_list_view(ret@) =~= kv + tv + rv);
            assert(spec_make_convex(ov.take(k + 1)) == spec_add_obstacle(spec_make_convex(ov.take(k as int)), sv, layers@));
        }
        k = k + 1;
    }
    assert(ov.take(n as int) =~= ov);
    ret
}

} // verus!
