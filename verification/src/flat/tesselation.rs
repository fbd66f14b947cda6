//! Frozen tesselations: a polygonal complex with numbered vertices and faces, each face
//! knowing its neighbours and the portals to them.

use vstd::prelude::*;

use core::ops::ControlFlow;
use vstd::std_specs::cmp::PartialEqSpec;

use crate::flat::{GetLayerIds, LayerIds, MultiLayerNavmesh, Topo2DComplex};
use crate::delaunay::{shapes_in_overlay_range, shapes_view};
use crate::flat::refine::{
    allocate_among, contour_fits, contour_in_range, contours_overlap, contours_view, interiors_intersect_of, convex_pieces, copy_contour, flat_contours, flatten_shapes,
    contour_portal, face_neighbours, neighbours_view, spec_allocation, spec_contour_portal, spec_convex_pieces, spec_face_neighbours, Contour, Shape, ShapesView,
};
use crate::spatial::{box_index_items, box_index_load, box_ordered, boxes_overlap, located_mask, BoxIndex};

verus! {

/// A neighbour of a face: its identifier, and the portal to it as `[left, right]`
/// vertex identifiers.
#[derive(Copy, Clone, Debug, PartialEq, Eq, PartialOrd, Ord, Hash, Structural)]
pub struct FrozenFaceNeighbour {
    pub face_id: u32,
    pub portal_lhs: u32,
    pub portal_rhs: u32,
}

/// A face: its vertices (counterclockwise), its neighbours, and its data.
#[derive(Debug)]
pub struct FrozenFace<T> {
    pub contour: Vec<u32>,
    pub neighbours: Vec<FrozenFaceNeighbour>,
    pub data: T,
}

/// A polygonal complex with numbered vertices and faces.
#[derive(Debug)]
pub struct FrozenTesselation<Scalar, T> {
    vertices: Vec<[Scalar; 2]>,
    vertex_adj_faces: Vec<Vec<u32>>,
    faces: Vec<FrozenFace<T>>,
}

/// Whether `a` comes before `b` in the lexicographic order of points.
pub open spec fn lex_lt(a: [i32; 2], b: [i32; 2]) -> bool {
    a[0] < b[0] || (a[0] == b[0] && a[1] < b[1])
}

/// Whether the points of `s` are in strictly increasing lexicographic order.
pub open spec fn sorted_unique(s: Seq<[i32; 2]>) -> bool {
    forall|i: int, j: int| 0 <= i < j < s.len() ==> lex_lt(#[trigger] s[i], #[trigger] s[j])
}

/// Whether the identifiers of `s` are strictly increasing.
pub open spec fn strictly_increasing(s: Seq<u32>) -> bool {
    forall|i: int, j: int| 0 <= i < j < s.len() ==> #[trigger] s[i] < #[trigger] s[j]
}

/// All the points of the contours.
pub open spec fn contour_points(contours: Seq<Vec<[i32; 2]>>) -> Set<[i32; 2]> {
    Set::new(|p: [i32; 2]| exists|i: int, j: int| 0 <= i < contours.len() && 0 <= j < contours[i]@.len() && #[trigger] contours[i]@[j] == p)
}

impl<T> FrozenTesselation<i32, T> {
    /// The positions of the vertices.
    pub closed spec fn spec_vertices(&self) -> Seq<[i32; 2]> {
        self.vertices@
    }

    /// The faces.
    pub closed spec fn spec_faces(&self) -> Seq<FrozenFace<T>> {
        self.faces@
    }

    /// The faces of each vertex.
    pub closed spec fn spec_vertex_adj_faces(&self) -> Seq<Vec<u32>> {
        self.vertex_adj_faces@
    }

    /// Whether every identifier in the tesselation is in range.
    pub open spec fn wf(&self) -> bool {
        let nv = self.spec_vertices().len();
        let nf = self.spec_faces().len();
        &&& nv <= u32::MAX
        &&& nf <= u32::MAX
        &&& self.spec_vertex_adj_faces().len() == nv
        &&& forall|v: int, k: int| 0 <= v < nv && 0 <= k < self.spec_vertex_adj_faces()[v]@.len()
            ==> #[trigger] self.spec_vertex_adj_faces()[v]@[k] < nf
        &&& forall|f: int, k: int| 0 <= f < nf && 0 <= k < self.spec_faces()[f].contour@.len()
            ==> #[trigger] self.spec_faces()[f].contour@[k] < nv
        &&& forall|f: int, k: int| 0 <= f < nf && 0 <= k < self.spec_faces()[f].neighbours@.len() ==> {
            let n = #[trigger] self.spec_faces()[f].neighbours@[k];
            n.face_id < nf && n.portal_lhs < nv && n.portal_rhs < nv
        }
    }

    /// The positions of the vertices.
    pub fn vertices(&self) -> (r: &[[i32; 2]])
        ensures
            r@ == self.spec_vertices(),
    {
        self.vertices.as_slice()
    }

    /// The faces.
    pub fn faces(&self) -> (r: &[FrozenFace<T>])
        ensures
            r@ == self.spec_faces(),
    {
        self.faces.as_slice()
    }
}

/// The portal to the first neighbour of `ns` that is face `to`, if any.
pub open spec fn first_portal(ns: Seq<FrozenFaceNeighbour>, to: u32) -> Option<[u32; 2]>
    decreases ns.len(),
{
    if ns.len() == 0 {
        None
    } else if ns[0].face_id == to {
        Some([ns[0].portal_lhs, ns[0].portal_rhs])
    } else {
        first_portal(ns.drop_first(), to)
    }
}

impl<T: GetLayerIds> Topo2DComplex for FrozenTesselation<i32, T> {
    open spec fn num_vertices(&self) -> nat {
        self.spec_vertices().len()
    }

    open spec fn num_faces(&self) -> nat {
        self.spec_faces().len()
    }

    open spec fn topo_wf(&self) -> bool {
        &&& self.wf()
        &&& forall|f: int| 0 <= f < self.spec_faces().len() ==> (#[trigger] self.spec_faces()[f]).data.layers_ok()
    }

    open spec fn spec_vertex_position(&self, vertex: u32) -> [i32; 2] {
        self.spec_vertices()[vertex as int]
    }

    open spec fn spec_vertex_adjacent_faces(&self, vertex: u32) -> Seq<u32> {
        self.spec_vertex_adj_faces()[vertex as int]@
    }

    open spec fn spec_face_adjacent_vertices(&self, face: u32) -> Seq<u32> {
        self.spec_faces()[face as int].contour@
    }

    open spec fn spec_face_adjacent_faces(&self, face: u32) -> Seq<u32> {
        self.spec_faces()[face as int].neighbours@.map_values(|n: FrozenFaceNeighbour| n.face_id)
    }

    open spec fn spec_portal_between(&self, face_from: u32, face_to: u32) -> Option<[u32; 2]> {
        if face_from < self.spec_faces().len() {
            first_portal(self.spec_faces()[face_from as int].neighbours@, face_to)
        } else {
            None
        }
    }

    proof fn lemma_topo_wf(&self) {
        assert forall|f: u32, g: u32| f < self.num_faces() && (#[trigger] self.spec_portal_between(f, g)) is Some
            implies self.spec_portal_between(f, g).unwrap()[0] < self.num_vertices()
            && self.spec_portal_between(f, g).unwrap()[1] < self.num_vertices() by {
            lemma_first_portal_in(self.spec_faces()[f as int].neighbours@, g);
            let p = self.spec_portal_between(f, g).unwrap();
            let k = choose|k: int| 0 <= k < self.spec_faces()[f as int].neighbours@.len()
                && #[trigger] self.spec_faces()[f as int].neighbours@[k].portal_lhs == p[0]
                && self.spec_faces()[f as int].neighbours@[k].portal_rhs == p[1];
            let n = self.spec_faces()[f as int].neighbours@[k];
        }
        assert forall|f: u32, g: u32| (f >= self.num_faces() || g >= self.num_faces())
            implies (#[trigger] self.spec_portal_between(f, g)) is None by {
            if f < self.num_faces() {
                let ns = self.spec_faces()[f as int].neighbours@;
                lemma_first_portal_some(ns, g);
                if first_portal(ns, g) is Some {
                    let ids = ns.map_values(|n: FrozenFaceNeighbour| n.face_id);
                    let k = choose|k: int| 0 <= k < ids.len() && ids[k] == g;
                    assert(ns[k].face_id == g);
                }
            }
        }
    }

    fn vertex_position(&self, vertex: u32) -> (r: [i32; 2]) {
        self.vertices[vertex as usize]
    }

    fn vertex_adjacent_faces(&self, vertex: u32) -> (r: Vec<u32>) {
        copy_ids(&self.vertex_adj_faces[vertex as usize])
    }

    fn face_adjacent_vertices(&self, face: u32) -> (r: Vec<u32>) {
        copy_ids(&self.faces[face as usize].contour)
    }

    fn face_adjacent_faces(&self, face: u32) -> (r: Vec<u32>) {
        let ns = &self.faces[face as usize].neighbours;
        let mut r: Vec<u32> = Vec::new();
        let mut k: usize = 0;
        while k < ns.len()
            invariant
                k <= ns@.len(),
                r@ == ns@.take(k as int).map_values(|n: FrozenFaceNeighbour| n.face_id),
            decreases ns@.len() - k,
        {
            r.push(ns[k].face_id);
            k = k + 1;
            assert(r@ =~= ns@.take(k as int).map_values(|n: FrozenFaceNeighbour| n.face_id));
        }
        assert(ns@.take(ns@.len() as int) =~= ns@);
        r
    }

    fn portal_between(&self, face_from: u32, face_to: u32) -> (r: Option<[u32; 2]>) {
        if face_from as usize >= self.faces.len() {
            return None;
        }
        let ns = &self.faces[face_from as usize].neighbours;
        let mut k: usize = 0;
        assert(ns@.skip(0) =~= ns@);
        while k < ns.len()
            invariant
                k <= ns@.len(),
                first_portal(ns@, face_to) == first_portal(ns@.skip(k as int), face_to),
                face_from < self.spec_faces().len(),
                ns@ == self.spec_faces()[face_from as int].neighbours@,
            decreases ns@.len() - k,
        {
            assert(ns@.skip(k as int).drop_first() =~= ns@.skip(k + 1));
            assert(ns@.skip(k as int)[0] == ns@[k as int]);
            if ns[k].face_id == face_to {
                let r = Some([ns[k].portal_lhs, ns[k].portal_rhs]);
                assert(first_portal(ns@.skip(k as int), face_to) == r);
                return r;
            }
            k = k + 1;
        }
        None
    }
}

/// A portal found by [`first_portal`] is the portal of one of the neighbours.
proof fn lemma_first_portal_in(ns: Seq<FrozenFaceNeighbour>, to: u32)
    ensures
        first_portal(ns, to) matches Some(p) ==> exists|k: int| 0 <= k < ns.len()
            && #[trigger] ns[k].portal_lhs == p[0] && ns[k].portal_rhs == p[1],
    decreases ns.len(),
{
    if ns.len() > 0 && ns[0].face_id != to {
        lemma_first_portal_in(ns.drop_first(), to);
        if let Some(p) = first_portal(ns, to) {
            let k = choose|k: int| 0 <= k < ns.drop_first().len() && #[trigger] ns.drop_first()[k].portal_lhs == p[0]
                && ns.drop_first()[k].portal_rhs == p[1];
            assert(ns[k + 1] == ns.drop_first()[k]);
        }
    } else if ns.len() > 0 {
        assert(ns[0].portal_lhs == first_portal(ns, to).unwrap()[0]);
    }
}

/// [`first_portal`] finds a portal exactly when some neighbour is face `to`.
proof fn lemma_first_portal_some(ns: Seq<FrozenFaceNeighbour>, to: u32)
    ensures
        first_portal(ns, to) is Some <==> ns.map_values(|n: FrozenFaceNeighbour| n.face_id).contains(to),
    decreases ns.len(),
{
    let ids = ns.map_values(|n: FrozenFaceNeighbour| n.face_id);
    if ns.len() > 0 {
        lemma_first_portal_some(ns.drop_first(), to);
        let rest = ns.drop_first().map_values(|n: FrozenFaceNeighbour| n.face_id);
        assert(rest =~= ids.drop_first());
        if ids.contains(to) && ns[0].face_id != to {
            let k = choose|k: int| 0 <= k < ids.len() && ids[k] == to;
            assert(k > 0);
            assert(rest[k - 1] == to);
        }
        if rest.contains(to) {
            let k = choose|k: int| 0 <= k < rest.len() && rest[k] == to;
            assert(ids[k + 1] == to);
        }
        assert(ids[0] == ns[0].face_id);
    }
}

/// In a frozen tesselation, face `g` is listed among the neighbours of face `f` exactly
/// when there is a portal from `f` to `g`.
pub proof fn lemma_neighbour_iff_portal<T: GetLayerIds>(t: &FrozenTesselation<i32, T>, f: u32, g: u32)
    requires
        t.topo_wf(),
        f < t.num_faces(),
    ensures
        t.spec_face_adjacent_faces(f).contains(g) <==> t.spec_portal_between(f, g) is Some,
{
    lemma_first_portal_some(t.spec_faces()[f as int].neighbours@, g);
}

impl<T: GetLayerIds> MultiLayerNavmesh for FrozenTesselation<i32, T> {
    open spec fn spec_face_layers(&self, face: u32) -> Set<usize> {
        self.spec_faces()[face as int].data.spec_layers()
    }

    fn face_layers(&self, face: u32) -> (r: LayerIds) {
        self.faces[face as usize].data.layers()
    }
}


/// The points of the contours before contour `i`, and of contour `i` before its point `j`.
pub open spec fn points_before(contours: Seq<Vec<[i32; 2]>>, i: int, j: int) -> Set<[i32; 2]> {
    Set::new(|p: [i32; 2]| exists|a: int, b: int| 0 <= a < contours.len() && 0 <= b < contours[a]@.len()
        && (a < i || (a == i && b < j)) && #[trigger] contours[a]@[b] == p)
}

/// The lexicographic order of points is total.
proof fn lemma_lex_total(a: [i32; 2], b: [i32; 2])
    ensures
        lex_lt(a, b) || lex_lt(b, a) || a == b,
{
    if a[0] == b[0] && a[1] == b[1] {
        assert(a =~= b);
    }
}

/// In a strictly increasing sequence whose elements are at most `f`, `f` can only be the
/// last element.
proof fn lemma_max_is_last(l: Seq<u32>, f: u32)
    requires
        strictly_increasing(l),
        forall|i: int| 0 <= i < l.len() ==> #[trigger] l[i] <= f,
        l.contains(f),
    ensures
        l.len() > 0 && l.last() == f,
{
    let i = choose|i: int| 0 <= i < l.len() && l[i] == f;
    if i < l.len() - 1 {
        assert(l[i] < l[l.len() - 1]);
    }
}

/// Where `p` goes in the sorted points `s`: the number of points before it, and whether
/// it is already there.
fn find_position(s: &Vec<[i32; 2]>, p: [i32; 2]) -> (r: (usize, bool))
    requires
        sorted_unique(s@),
    ensures
        r.0 <= s@.len(),
        forall|i: int| 0 <= i < r.0 ==> lex_lt(#[trigger] s@[i], p),
        forall|i: int| r.0 <= i < s@.len() ==> !lex_lt(#[trigger] s@[i], p),
        r.1 <==> s@.contains(p),
        r.1 ==> s@[r.0 as int] == p,
{
    let mut lo: usize = 0;
    let mut hi: usize = s.len();
    while lo < hi
        invariant
            lo <= hi <= s@.len(),
            sorted_unique(s@),
            forall|i: int| 0 <= i < lo ==> lex_lt(#[trigger] s@[i], p),
            forall|i: int| hi <= i < s@.len() ==> !lex_lt(#[trigger] s@[i], p),
        decreases hi - lo,
    {
        let mid = lo + (hi - lo) / 2;
        let q = s[mid];
        if q[0] < p[0] || (q[0] == p[0] && q[1] < p[1]) {
            assert forall|i: int| 0 <= i < mid + 1 implies lex_lt(#[trigger] s@[i], p) by {
                if i < mid {
                    assert(lex_lt(s@[i], s@[mid as int]));
                }
            }
            lo = mid + 1;
        } else {
            assert forall|i: int| mid <= i < s@.len() implies !lex_lt(#[trigger] s@[i], p) by {
                if i > mid {
                    assert(lex_lt(s@[mid as int], s@[i]));
                }
            }
            hi = mid;
        }
    }
    let found = lo < s.len() && s[lo][0] == p[0] && s[lo][1] == p[1];
    proof {
        if s@.contains(p) {
            let i = choose|i: int| 0 <= i < s@.len() && s@[i] == p;
            assert(!lex_lt(p, p));
            if i < lo {
                assert(lex_lt(s@[i], p));
            }
            if i > lo {
                assert(lex_lt(s@[lo as int], s@[i]));
                assert(!lex_lt(s@[lo as int], p));
            }
            assert(i == lo);
        }
        if found {
            assert(s@[lo as int] =~= p);
        }
    }
    (lo, found)
}

/// Adds `p` to the sorted points `s`, unless it is there.
fn insert_point(s: &mut Vec<[i32; 2]>, p: [i32; 2])
    requires
        sorted_unique(old(s)@),
    ensures
        sorted_unique(final(s)@),
        final(s)@.to_set() == old(s)@.to_set().insert(p),
{
    let (pos, found) = find_position(s, p);
    if !found {
        let ghost before = s@;
        s.insert(pos, p);
        proof {
            assert(!before.contains(p));
            assert forall|i: int, j: int| 0 <= i < j < s@.len() implies lex_lt(#[trigger] s@[i], #[trigger] s@[j]) by {
                if j < pos {
                    assert(s@[i] == before[i] && s@[j] == before[j]);
                    assert(lex_lt(before[i], before[j]));
                } else if j == pos {
                    assert(s@[i] == before[i]);
                    assert(lex_lt(before[i], p));
                } else if i < pos {
                    assert(s@[i] == before[i] && s@[j] == before[j - 1]);
                    assert(lex_lt(before[i], before[j - 1]));
                } else if i == pos {
                    assert(s@[j] == before[j - 1]);
                    assert(!lex_lt(before[j - 1], p));
                    assert(before.contains(before[j - 1]));
                    lemma_lex_total(before[j - 1], p);
                } else {
                    assert(s@[i] == before[i - 1] && s@[j] == before[j - 1]);
                    assert(lex_lt(before[i - 1], before[j - 1]));
                }
            }
            assert forall|q: [i32; 2]| s@.to_set().contains(q) <==> before.to_set().insert(p).contains(q) by {
                if s@.contains(q) {
                    let i = choose|i: int| 0 <= i < s@.len() && s@[i] == q;
                    if i < pos {
                        assert(before[i] == q);
                    } else if i > pos {
                        assert(before[i - 1] == q);
                    }
                }
                if before.contains(q) {
                    let i = choose|i: int| 0 <= i < before.len() && before[i] == q;
                    if i < pos {
                        assert(s@[i] == q);
                    } else {
                        assert(s@[i + 1] == q);
                    }
                }
                if q == p {
                    assert(s@[pos as int] == p);
                }
            }
            assert(s@.to_set() =~= before.to_set().insert(p));
        }
    } else {
        assert(s@.to_set() =~= s@.to_set().insert(p));
    }
}

/// The index of `p` in the sorted points `s`.
fn vertex_index(s: &Vec<[i32; 2]>, p: [i32; 2]) -> (r: usize)
    requires
        sorted_unique(s@),
        s@.contains(p),
    ensures
        r < s@.len(),
        s@[r as int] == p,
{
    find_position(s, p).0
}

/// Whether two contours are the same.
pub(crate) fn same_contour(a: &Vec<[i32; 2]>, b: &Vec<[i32; 2]>) -> (r: bool)
    ensures
        r <==> a@ == b@,
{
    if a.len() != b.len() {
        return false;
    }
    let mut k: usize = 0;
    while k < a.len()
        invariant
            a@.len() == b@.len(),
            k <= a@.len(),
            forall|i: int| 0 <= i < k ==> a@[i] == b@[i],
        decreases a@.len() - k,
    {
        if a[k][0] != b[k][0] || a[k][1] != b[k][1] {
            assert(a@[k as int] != b@[k as int]);
            return false;
        }
        assert(a@[k as int] =~= b@[k as int]);
        k = k + 1;
    }
    assert(a@ =~= b@);
    true
}

/// Whether the inputs can be frozen: as many contours as data and neighbour lists, no more
/// faces and distinct points than `u32` can number, every neighbour contour is one of the
/// contours, and every portal end is a point of a contour.
pub open spec fn freeze_ready<T>(contours: Seq<Vec<[i32; 2]>>, datas: Seq<T>, neighbours: Seq<Vec<(Vec<[i32; 2]>, [[i32; 2]; 2])>>) -> bool {
    &&& contours.len() == datas.len()
    &&& contours.len() == neighbours.len()
    &&& contours.len() <= u32::MAX
    &&& contour_points(contours).len() <= u32::MAX
    &&& forall|i: int, k: int| 0 <= i < neighbours.len() && 0 <= k < neighbours[i]@.len() ==> {
        let n = #[trigger] neighbours[i]@[k];
        &&& exists|j: int| 0 <= j < contours.len() && contours[j]@ == n.0@
        &&& contour_points(contours).contains(n.1[0])
        &&& contour_points(contours).contains(n.1[1])
    }
}

/// The last contour equal to `c`.
fn last_face_with_contour(contours: &Vec<Vec<[i32; 2]>>, c: &Vec<[i32; 2]>) -> (r: usize)
    requires
        exists|j: int| 0 <= j < contours@.len() && contours@[j]@ == c@,
    ensures
        r < contours@.len(),
        contours@[r as int]@ == c@,
        forall|j: int| r < j < contours@.len() ==> contours@[j]@ != c@,
{
    let mut k: usize = contours.len();
    while k > 0
        invariant
            k <= contours@.len(),
            exists|j: int| 0 <= j < k && contours@[j]@ == c@,
            forall|j: int| k <= j < contours@.len() ==> contours@[j]@ != c@,
        decreases k,
    {
        if same_contour(&contours[k - 1], c) {
            return k - 1;
        }
        k = k - 1;
    }
    proof {
        let j = choose|j: int| 0 <= j < k && contours@[j]@ == c@;
    }
    0
}

/// The points of the contours, each once, in lexicographic order.
fn point_list(contours: &Vec<Vec<[i32; 2]>>) -> (vs: Vec<[i32; 2]>)
    ensures
        sorted_unique(vs@),
        vs@.to_set() == contour_points(contours@),
        vs@.len() == contour_points(contours@).len(),
{
    let mut vs: Vec<[i32; 2]> = Vec::new();
    let nf = contours.len();
    let mut i: usize = 0;
    while i < nf
        invariant
            nf == contours@.len(),
            i <= nf,
            sorted_unique(vs@),
            vs@.to_set() == points_before(contours@, i as int, 0),
        decreases nf - i,
    {
        let c = &contours[i];
        let mut j: usize = 0;
        while j < c.len()
            invariant
                nf == contours@.len(),
                i < nf,
                c@ == contours@[i as int]@,
                j <= c@.len(),
                sorted_unique(vs@),
                vs@.to_set() == points_before(contours@, i as int, j as int),
            decreases c@.len() - j,
        {
            insert_point(&mut vs, c[j]);
            proof {
                assert(points_before(contours@, i as int, j + 1) =~= points_before(contours@, i as int, j as int).insert(c@[j as int]));
            }
            j = j + 1;
        }
        proof {
            assert(points_before(contours@, i + 1, 0) =~= points_before(contours@, i as int, c@.len() as int));
        }
        i = i + 1;
    }
    proof {
        assert(points_before(contours@, nf as int, 0) =~= contour_points(contours@));
        vs@.unique_seq_to_set();
    }
    vs
}

/// Whether face `f` of `faces` is the frozen form of `contour` (with data `data` and
/// neighbour list `ns`) over the vertices `vs` and the contours `contours`.
pub open spec fn frozen_face<T>(face: FrozenFace<T>, vs: Seq<[i32; 2]>, contours: Seq<Vec<[i32; 2]>>, contour: Seq<[i32; 2]>, data: T, ns: Seq<(Vec<[i32; 2]>, [[i32; 2]; 2])>) -> bool {
    &&& face.data == data
    &&& face.contour@.len() == contour.len()
    &&& forall|k: int| 0 <= k < contour.len() ==> (#[trigger] face.contour@[k]) < vs.len() && vs[face.contour@[k] as int] == contour[k]
    &&& face.neighbours@.len() == ns.len()
    &&& forall|k: int| 0 <= k < ns.len() ==> {
        let n = #[trigger] face.neighbours@[k];
        &&& n.face_id < contours.len()
        &&& contours[n.face_id as int]@ == ns[k].0@
        &&& forall|j: int| n.face_id < j < contours.len() ==> contours[j]@ != ns[k].0@
        &&& n.portal_lhs < vs.len() && vs[n.portal_lhs as int] == ns[k].1[0]
        &&& n.portal_rhs < vs.len() && vs[n.portal_rhs as int] == ns[k].1[1]
    }
}

/// Whether `t` is the frozen form of the faces with contours `contours`, data `datas` and
/// neighbour lists `neighbours`: the vertices are the points of the contours, numbered in
/// lexicographic order; face `f` is the frozen form of contour `f` (see [`frozen_face`]);
/// each vertex lists its faces in increasing order.
pub open spec fn freezes<T>(
    t: FrozenTesselation<i32, T>,
    contours: Seq<Vec<[i32; 2]>>,
    datas: Seq<T>,
    neighbours: Seq<Vec<(Vec<[i32; 2]>, [[i32; 2]; 2])>>,
) -> bool {
    &&& t.wf()
    &&& sorted_unique(t.spec_vertices())
    &&& t.spec_vertices().to_set() == contour_points(contours)
    &&& t.spec_faces().len() == contours.len()
    &&& forall|f: int| 0 <= f < contours.len() ==> frozen_face(
        #[trigger] t.spec_faces()[f],
        t.spec_vertices(),
        contours,
        contours[f]@,
        datas[f],
        neighbours[f]@,
    )
    &&& forall|v: int| 0 <= v < t.spec_vertices().len() ==> {
        &&& strictly_increasing(#[trigger] t.spec_vertex_adj_faces()[v]@)
        &&& forall|g: u32| t.spec_vertex_adj_faces()[v]@.contains(g) <==> (g < t.spec_faces().len()
            && t.spec_faces()[g as int].contour@.contains(v as u32))
    }
}

impl<T> FrozenTesselation<i32, T> {
    /// Freezes a tesselation given by its face contours (counterclockwise), the data of
    /// its faces and, per face, its neighbours: the contour of each neighbour and the
    /// portal to it as `[left, right]`.
    ///
    /// The vertices are numbered in lexicographic order; a neighbour is numbered as the
    /// last face with its contour; each vertex lists its faces in increasing order.
    pub fn freeze_faces(contours: Vec<Vec<[i32; 2]>>, datas: Vec<T>, neighbours: Vec<Vec<(Vec<[i32; 2]>, [[i32; 2]; 2])>>) -> (r: Self)
        requires
            freeze_ready(contours@, datas@, neighbours@),
        ensures
            freezes(r, contours@, datas@, neighbours@),
    {
        // number the vertices
        let vs = point_list(&contours);
        let nf = contours.len();
        proof {
            vs@.unique_seq_to_set();
        }

        // number the vertices of each face, and its neighbours
        let mut face_ids: Vec<Vec<u32>> = Vec::new();
        let mut face_ns: Vec<Vec<FrozenFaceNeighbour>> = Vec::new();
        let mut f: usize = 0;
        while f < nf
            invariant
                nf == contours@.len(),
                freeze_ready(contours@, datas@, neighbours@),
                f <= nf,
                sorted_unique(vs@),
                vs@.len() <= u32::MAX,
                vs@.to_set() == contour_points(contours@),
                face_ids@.len() == f,
                face_ns@.len() == f,
                forall|g: int| 0 <= g < f ==> #[trigger] face_ids@[g]@.len() == contours@[g]@.len(),
                forall|g: int, k: int| 0 <= g < f && 0 <= k < contours@[g]@.len() ==>
                    (#[trigger] face_ids@[g]@[k]) < vs@.len() && vs@[face_ids@[g]@[k] as int] == contours@[g]@[k],
                forall|g: int| 0 <= g < f ==> #[trigger] face_ns@[g]@.len() == neighbours@[g]@.len(),
                forall|g: int, k: int| 0 <= g < f && 0 <= k < neighbours@[g]@.len() ==> {
                    let n = #[trigger] face_ns@[g]@[k];
                    &&& n.face_id < nf
                    &&& contours@[n.face_id as int]@ == neighbours@[g]@[k].0@
                    &&& forall|j: int| n.face_id < j < nf ==> contours@[j]@ != neighbours@[g]@[k].0@
                    &&& n.portal_lhs < vs@.len() && vs@[n.portal_lhs as int] == neighbours@[g]@[k].1[0]
                    &&& n.portal_rhs < vs@.len() && vs@[n.portal_rhs as int] == neighbours@[g]@[k].1[1]
                },
            decreases nf - f,
        {
            let c = &contours[f];
            let mut ids: Vec<u32> = Vec::new();
            let mut k: usize = 0;
            while k < c.len()
                invariant
                    nf == contours@.len(),
                    f < nf,
                    c@ == contours@[f as int]@,
                    k <= c@.len(),
                    sorted_unique(vs@),
                    vs@.len() <= u32::MAX,
                    vs@.to_set() == contour_points(contours@),
                    ids@.len() == k,
                    forall|q: int| 0 <= q < k ==> (#[trigger] ids@[q]) < vs@.len() && vs@[ids@[q] as int] == c@[q],
                decreases c@.len() - k,
            {
                let p = c[k];
                assert(contour_points(contours@).contains(p)) by {
                    assert(contours@[f as int]@[k as int] == p);
                }
                assert(vs@.to_set().contains(p));
                let idx = vertex_index(&vs, p);
                ids.push(idx as u32);
                k = k + 1;
            }
            face_ids.push(ids);

            let nb = &neighbours[f];
            let mut ns: Vec<FrozenFaceNeighbour> = Vec::new();
            let mut k: usize = 0;
            while k < nb.len()
                invariant
                    nf == contours@.len(),
                    f < nf,
                    freeze_ready(contours@, datas@, neighbours@),
                    nb@ == neighbours@[f as int]@,
                    k <= nb@.len(),
                    sorted_unique(vs@),
                    vs@.len() <= u32::MAX,
                    vs@.to_set() == contour_points(contours@),
                    ns@.len() == k,
                    forall|q: int| 0 <= q < k ==> {
                        let n = #[trigger] ns@[q];
                        &&& n.face_id < nf
                        &&& contours@[n.face_id as int]@ == nb@[q].0@
                        &&& forall|j: int| n.face_id < j < nf ==> contours@[j]@ != nb@[q].0@
                        &&& n.portal_lhs < vs@.len() && vs@[n.portal_lhs as int] == nb@[q].1[0]
                        &&& n.portal_rhs < vs@.len() && vs@[n.portal_rhs as int] == nb@[q].1[1]
                    },
                decreases nb@.len() - k,
            {
                let entry = &nb[k];
                assert(neighbours@[f as int]@[k as int] == *entry);
                let face_id = last_face_with_contour(&contours, &entry.0);
                let lhs = vertex_index(&vs, entry.1[0]);
                let rhs = vertex_index(&vs, entry.1[1]);
                ns.push(FrozenFaceNeighbour { face_id: face_id as u32, portal_lhs: lhs as u32, portal_rhs: rhs as u32 });
                k = k + 1;
            }
            face_ns.push(ns);
            f = f + 1;
        }

        // the faces of each vertex
        let nv = vs.len();
        let mut adj: Vec<Vec<u32>> = Vec::new();
        let mut v: usize = 0;
        while v < nv
            invariant
                v <= nv,
                adj@.len() == v,
                forall|q: int| 0 <= q < v ==> (#[trigger] adj@[q])@.len() == 0,
            decreases nv - v,
        {
            adj.push(Vec::new());
            v = v + 1;
        }
        let mut f: usize = 0;
        while f < nf
            invariant
                nf == contours@.len(),
                nf == face_ids@.len(),
                nf <= u32::MAX,
                nv <= u32::MAX,
                f <= nf,
                adj@.len() == nv,
                nv == vs@.len(),
                forall|g: int, k: int| 0 <= g < nf && 0 <= k < face_ids@[g]@.len() ==> (#[trigger] face_ids@[g]@[k]) < nv,
                forall|q: int| 0 <= q < nv ==> {
                    &&& strictly_increasing(#[trigger] adj@[q]@)
                    &&& forall|g: u32| adj@[q]@.contains(g) <==> (g < f && face_ids@[g as int]@.contains(q as u32))
                },
            decreases nf - f,
        {
            let ids = &face_ids[f];
            let mut k: usize = 0;
            while k < ids.len()
                invariant
                    nf == face_ids@.len(),
                    nf <= u32::MAX,
                    nv <= u32::MAX,
                    f < nf,
                    ids@ == face_ids@[f as int]@,
                    k <= ids@.len(),
                    adj@.len() == nv,
                    forall|g: int, k2: int| 0 <= g < nf && 0 <= k2 < face_ids@[g]@.len() ==> (#[trigger] face_ids@[g]@[k2]) < nv,
                    forall|q: int| 0 <= q < nv ==> {
                        &&& strictly_increasing(#[trigger] adj@[q]@)
                        &&& forall|g: u32| adj@[q]@.contains(g) <==> ((g < f && face_ids@[g as int]@.contains(q as u32))
                            || (g == f && ids@.take(k as int).contains(q as u32)))
                    },
                decreases ids@.len() - k,
            {
                let vid = ids[k] as usize;
                assert(face_ids@[f as int]@[k as int] < nv);
                let ghost before = adj@;
                let ghost old_l = before[vid as int]@;
                proof {
                    assert forall|i: int| 0 <= i < old_l.len() implies #[trigger] old_l[i] <= f by {
                        assert(old_l.contains(old_l[i]));
                    }
                }
                let n = adj[vid].len();
                let push = n == 0 || adj[vid][n - 1] != f as u32;
                if push {
                    let mut l = Vec::new();
                    core::mem::swap(&mut l, &mut adj[vid]);
                    l.push(f as u32);
                    adj.set(vid, l);
                }
                proof {
                    assert(ids@.take(k + 1) =~= ids@.take(k as int).push(ids@[k as int]));
                    assert(ids@[k as int] as int == vid);
                    if push {
                        assert(adj@[vid as int]@ == old_l.push(f as u32));
                        if old_l.contains(f as u32) {
                            lemma_max_is_last(old_l, f as u32);
                        }
                        assert(!old_l.contains(f as u32));
                        assert forall|i: int, j: int| 0 <= i < j < adj@[vid as int]@.len() implies #[trigger] adj@[vid as int]@[i] < #[trigger] adj@[vid as int]@[j] by {
                            if j == old_l.len() {
                                assert(old_l[i] <= f);
                                assert(old_l[i] != f);
                            } else {
                                assert(old_l[i] < old_l[j]);
                            }
                        }
                    } else {
                        assert(adj@[vid as int]@ == old_l);
                        assert(old_l[n - 1] == f);
                        assert(old_l.contains(f as u32));
                    }
                    assert forall|q: int| 0 <= q < nv implies {
                        &&& strictly_increasing(#[trigger] adj@[q]@)
                        &&& forall|g: u32| adj@[q]@.contains(g) <==> ((g < f && face_ids@[g as int]@.contains(q as u32))
                            || (g == f && ids@.take(k + 1).contains(q as u32)))
                    } by {
                        if q == vid {
                            assert(ids@.take(k + 1).contains(q as u32)) by {
                                assert(ids@.take(k + 1)[k as int] == q as u32);
                            }
                            assert forall|g: u32| adj@[q]@.contains(g) <==> ((g < f && face_ids@[g as int]@.contains(q as u32))
                                || (g == f && ids@.take(k + 1).contains(q as u32))) by {
                                if push {
                                    if adj@[q]@.contains(g) {
                                        let i = choose|i: int| 0 <= i < adj@[q]@.len() && adj@[q]@[i] == g;
                                        if i < old_l.len() {
                                            assert(old_l[i] == g);
                                            assert(old_l.contains(g));
                                        }
                                    }
                                    if old_l.contains(g) {
                                        let i = choose|i: int| 0 <= i < old_l.len() && old_l[i] == g;
                                        assert(adj@[q]@[i] == g);
                                    }
                                    if g == f {
                                        assert(adj@[q]@[old_l.len() as int] == g);
                                    }
                                }
                            }
                        } else {
                            assert(adj@[q] == before[q]);
                            if ids@.take(k + 1).contains(q as u32) {
                                let i = choose|i: int| 0 <= i < k + 1 && #[trigger] ids@.take(k + 1)[i] == q as u32;
                                if i == k {
                                    assert(ids@[k as int] as int == vid);
                                    assert(false);
                                } else {
                                    assert(ids@.take(k as int)[i] == q as u32);
                                }
                            }
                            if ids@.take(k as int).contains(q as u32) {
                                let i = choose|i: int| 0 <= i < k && #[trigger] ids@.take(k as int)[i] == q as u32;
                                assert(ids@.take(k + 1)[i] == q as u32);
                            }
                        }
                    }
                }
                k = k + 1;
            }
            proof {
                assert(ids@.take(ids@.len() as int) =~= ids@);
            }
            f = f + 1;
        }

        // assemble the faces, moving the data in order
        let mut datas = datas;
        let mut rev: Vec<T> = Vec::new();
        let ghost datas0 = datas@;
        while datas.len() > 0
            invariant
                datas@.len() + rev@.len() == datas0.len(),
                forall|q: int| 0 <= q < datas@.len() ==> datas@[q] == datas0[q],
                forall|q: int| 0 <= q < rev@.len() ==> rev@[q] == datas0[datas0.len() - 1 - q],
            decreases datas@.len(),
        {
            let d = datas.pop().unwrap();
            rev.push(d);
        }
        let mut faces: Vec<FrozenFace<T>> = Vec::new();
        let mut face_ids = face_ids;
        let mut face_ns = face_ns;
        let ghost ids0 = face_ids@;
        let ghost ns0 = face_ns@;
        let mut g: usize = 0;
        while g < nf
            invariant
                nf == datas0.len(),
                rev@.len() == nf - g,
                g <= nf,
                face_ids@.len() == nf,
                face_ns@.len() == nf,
                forall|q: int| 0 <= q < rev@.len() ==> rev@[q] == datas0[datas0.len() - 1 - q],
                forall|q: int| g <= q < nf ==> face_ids@[q] == ids0[q] && face_ns@[q] == ns0[q],
                faces@.len() == g,
                forall|q: int| 0 <= q < g ==> {
                    &&& (#[trigger] faces@[q]).data == datas0[q]
                    &&& faces@[q].contour@ == ids0[q]@
                    &&& faces@[q].neighbours@ == ns0[q]@
                },
            decreases nf - g,
        {
            let d = rev.pop().unwrap();
            let mut cids = Vec::new();
            core::mem::swap(&mut cids, &mut face_ids[g]);
            let mut cns = Vec::new();
            core::mem::swap(&mut cns, &mut face_ns[g]);
            faces.push(FrozenFace { contour: cids, neighbours: cns, data: d });
            g = g + 1;
        }
        let r = FrozenTesselation { vertices: vs, vertex_adj_faces: adj, faces };
        proof {
            assert forall|v: int, k: int| 0 <= v < nv && 0 <= k < r.spec_vertex_adj_faces()[v]@.len()
                implies #[trigger] r.spec_vertex_adj_faces()[v]@[k] < nf by {
                assert(r.spec_vertex_adj_faces()[v]@.contains(r.spec_vertex_adj_faces()[v]@[k]));
            }
        }
        r
    }
}

/// A copy of a list of identifiers.
fn copy_ids(s: &Vec<u32>) -> (r: Vec<u32>)
    ensures
        r@ == s@,
{
    let mut r: Vec<u32> = Vec::new();
    let mut k: usize = 0;
    while k < s.len()
        invariant
            k <= s@.len(),
            r@ == s@.take(k as int),
        decreases s@.len() - k,
    {
        r.push(s[k]);
        k = k + 1;
        assert(r@ =~= s@.take(k as int));
    }
    assert(r@ =~= s@);
    r
}

// ---------------------------------------------------------------------------------------
// Tesselations that change: faces kept with a spatial index of their bounding boxes.

/// The bounding box of the points of `c`: its lowest and highest coordinates on each axis
/// (the origin for no point).
pub open spec fn spec_contour_box(c: Seq<[i32; 2]>) -> ([i32; 2], [i32; 2])
    decreases c.len(),
{
    if c.len() == 0 {
        ([0, 0], [0, 0])
    } else if c.len() == 1 {
        (c[0], c[0])
    } else {
        let b = spec_contour_box(c.drop_last());
        let p = c.last();
        (
            [if p[0] < b.0[0] { p[0] } else { b.0[0] }, if p[1] < b.0[1] { p[1] } else { b.0[1] }],
            [if p[0] > b.1[0] { p[0] } else { b.1[0] }, if p[1] > b.1[1] { p[1] } else { b.1[1] }],
        )
    }
}

/// The bounding box of the points of `c` (see [`spec_contour_box`]).
pub fn contour_box(c: &Vec<[i32; 2]>) -> (r: ([i32; 2], [i32; 2]))
    ensures
        r == spec_contour_box(c@),
        box_ordered(r),
{
    if c.len() == 0 {
        return ([0, 0], [0, 0]);
    }
    let mut lo = c[0];
    let mut hi = c[0];
    let mut k: usize = 1;
    assert(c@.take(1).drop_last() =~= Seq::<[i32; 2]>::empty());
    assert(c@.take(1) =~= seq![c@[0]]);
    while k < c.len()
        invariant
            1 <= k <= c@.len(),
            (lo, hi) == spec_contour_box(c@.take(k as int)),
            box_ordered((lo, hi)),
        decreases c@.len() - k,
    {
        let p = c[k];
        assert(c@.take(k + 1).drop_last() =~= c@.take(k as int));
        lo = [if p[0] < lo[0] { p[0] } else { lo[0] }, if p[1] < lo[1] { p[1] } else { lo[1] }];
        hi = [if p[0] > hi[0] { p[0] } else { hi[0] }, if p[1] > hi[1] { p[1] } else { hi[1] }];
        k = k + 1;
    }
    assert(c@.take(k as int) =~= c@);
    (lo, hi)
}

/// A face of a tesselation: its contour (counterclockwise) and its data.
#[derive(Clone, Debug, PartialEq, Eq)]
pub struct Face<T> {
    pub contour: Vec<[i32; 2]>,
    pub data: T,
}

/// The bounding boxes of the faces.
pub open spec fn face_boxes<T>(faces: Seq<Face<T>>) -> Seq<([i32; 2], [i32; 2])> {
    faces.map_values(|f: Face<T>| spec_contour_box(f.contour@))
}

/// An index of the bounding boxes of the faces.
fn index_faces<T>(faces: &Vec<Face<T>>) -> (r: BoxIndex)
    ensures
        box_index_items(r) == face_boxes(faces@),
{
    let mut boxes: Vec<([i32; 2], [i32; 2])> = Vec::new();
    let mut k: usize = 0;
    while k < faces.len()
        invariant
            k <= faces@.len(),
            boxes@ == face_boxes(faces@.take(k as int)),
            forall|j: int| 0 <= j < boxes@.len() ==> box_ordered(#[trigger] boxes@[j]),
        decreases faces@.len() - k,
    {
        let b = contour_box(&faces[k].contour);
        boxes.push(b);
        k = k + 1;
        assert(boxes@ =~= face_boxes(faces@.take(k as int)));
    }
    assert(faces@.take(k as int) =~= faces@);
    box_index_load(&boxes)
}

/// A tesselation: convex faces that do not overlap, each with its data, and an index of
/// their bounding boxes to find the faces near a shape.
#[derive(Debug)]
pub struct Tesselation<T> {
    faces: Vec<Face<T>>,
    index: BoxIndex,
}

impl<T> Tesselation<T> {
    /// The faces, in the order of the tesselation.
    pub closed spec fn spec_faces(&self) -> Seq<Face<T>> {
        self.faces@
    }

    /// Whether the index holds the bounding box of each face.
    pub closed spec fn wf(&self) -> bool {
        box_index_items(self.index) == face_boxes(self.faces@)
    }

    /// The tesselation with no face.
    pub fn new() -> (r: Self)
        ensures
            r.wf(),
            r.spec_faces() == Seq::<Face<T>>::empty(),
    {
        let faces: Vec<Face<T>> = Vec::new();
        let index = index_faces(&faces);
        Tesselation { faces, index }
    }

    /// The faces, in the order of the tesselation.
    pub fn rtree(&self) -> (r: &[Face<T>])
        ensures
            r@ == self.spec_faces(),
    {
        self.faces.as_slice()
    }

    /// Which faces have a bounding box that shares a point with the box `lo..=hi`.
    fn located(&self, lo: [i32; 2], hi: [i32; 2]) -> (r: Vec<bool>)
        requires
            self.wf(),
            box_ordered((lo, hi)),
        ensures
            r@.len() == self.spec_faces().len(),
            forall|i: int| 0 <= i < r@.len() ==> (#[trigger] r@[i] <==> boxes_overlap(
                spec_contour_box(self.spec_faces()[i].contour@),
                (lo, hi),
            )),
    {
        let mask = located_mask(&self.index, self.faces.len(), lo, hi);
        proof {
            assert forall|i: int| 0 <= i < mask@.len() implies (#[trigger] mask@[i] <==> boxes_overlap(
                spec_contour_box(self.spec_faces()[i].contour@),
                (lo, hi),
            )) by {
                assert(box_index_items(self.index)[i] == spec_contour_box(self.faces@[i].contour@));
            }
        }
        mask
    }
}

impl<T> Default for Tesselation<T> {
    fn default() -> (r: Self)
        ensures
            r.wf(),
            r.spec_faces() == Seq::<Face<T>>::empty(),
    {
        Tesselation::new()
    }
}

/// The points of the contours, in order.
pub open spec fn contour_list_points(cs: Seq<Seq<[i32; 2]>>) -> Seq<[i32; 2]>
    decreases cs.len(),
{
    if cs.len() == 0 {
        Seq::empty()
    } else {
        contour_list_points(cs.drop_last()) + cs.last()
    }
}

/// The bounding box of all points of the shapes; `None` when they have no point.
pub open spec fn shapes_box(s: ShapesView) -> Option<([i32; 2], [i32; 2])> {
    let ps = contour_list_points(flat_contours(s));
    if ps.len() > 0 {
        Some(spec_contour_box(ps))
    } else {
        None
    }
}

/// The points of the contours, in order.
pub(crate) fn all_points(cs: &Vec<Contour>) -> (r: Vec<[i32; 2]>)
    ensures
        r@ == contour_list_points(contours_view(cs@)),
{
    let mut r: Vec<[i32; 2]> = Vec::new();
    let mut i: usize = 0;
    while i < cs.len()
        invariant
            i <= cs@.len(),
            r@ == contour_list_points(contours_view(cs@).take(i as int)),
        decreases cs@.len() - i,
    {
        let c = &cs[i];
        let ghost r0 = r@;
        let mut j: usize = 0;
        while j < c.len()
            invariant
                c@ == cs@[i as int]@,
                j <= c@.len(),
                r@ == r0 + c@.take(j as int),
            decreases c@.len() - j,
        {
            r.push(c[j]);
            j = j + 1;
            assert(r@ =~= r0 + c@.take(j as int));
        }
        assert(c@.take(j as int) =~= c@);
        assert(contours_view(cs@).take(i + 1).drop_last() =~= contours_view(cs@).take(i as int));
        i = i + 1;
    }
    assert(contours_view(cs@).take(i as int) =~= contours_view(cs@));
    r
}

/// Whether the face takes part in allocating shapes whose bounding box is `q`: it has
/// points, its bounding box meets `q`, and it lies in the coordinate range of `i_overlay`
/// (a face out of that range is left as it is).
pub open spec fn takes_part<T>(f: Face<T>, q: Option<([i32; 2], [i32; 2])>) -> bool {
    &&& q is Some
    &&& f.contour@.len() > 0
    &&& boxes_overlap(spec_contour_box(f.contour@), q.unwrap())
    &&& contour_in_range(f.contour@)
}

/// The faces that take part (see [`takes_part`]).
pub open spec fn part_of<T>(q: Option<([i32; 2], [i32; 2])>) -> spec_fn(Face<T>) -> bool {
    |f: Face<T>| takes_part(f, q)
}

/// The faces that do not take part (see [`takes_part`]).
pub open spec fn not_part_of<T>(q: Option<([i32; 2], [i32; 2])>) -> spec_fn(Face<T>) -> bool {
    |f: Face<T>| !takes_part(f, q)
}

/// The contours of the faces.
pub open spec fn face_contours<T>(faces: Seq<Face<T>>) -> Seq<Seq<[i32; 2]>> {
    faces.map_values(|f: Face<T>| f.contour@)
}

/// Whether the face `f` is made of the piece `p` (a contour with the index of the face of
/// `from` whose data it takes, or `None` for the default data).
pub open spec fn face_of_piece<T: Clone + Default>(p: (Seq<[i32; 2]>, Option<usize>), from: Seq<Face<T>>, f: Face<T>) -> bool {
    &&& f.contour@ == p.0
    &&& match p.1 {
        Some(j) => j < from.len() && cloned(from[j as int].data, f.data),
        None => call_ensures(T::default, (), f.data),
    }
}

/// Whether `new` is what allocating the shapes `alloc` makes of the faces `old`: the faces
/// that take part (see [`takes_part`]) are taken out, in order, and the shapes are
/// allocated among them (see [`spec_allocation`]); the faces that do not take part stay, in
/// order, followed by the convex pieces of the allocation.
pub open spec fn allocated<T: Clone + Default>(old: Seq<Face<T>>, alloc: ShapesView, new: Seq<Face<T>>) -> bool {
    let q = shapes_box(alloc);
    let drained = old.filter(part_of(q));
    let kept = old.filter(not_part_of(q));
    let ps = spec_convex_pieces(spec_allocation(face_contours(drained), alloc));
    &&& new.len() == kept.len() + ps.len()
    &&& new.take(kept.len() as int) == kept
    &&& forall|i: int| kept.len() <= i < new.len() ==> face_of_piece(ps[i - kept.len()], drained, #[trigger] new[i])
}

/// Whether the tag is `None` or below `bound`.
pub open spec fn tag_below(t: Option<usize>, bound: int) -> bool {
    match t {
        Some(j) => j < bound,
        None => true,
    }
}

/// The tags of an allocation among the first `k` faces are indices of those faces.
proof fn lemma_allocate_tags(faces: Seq<Seq<[i32; 2]>>, alloc: ShapesView, k: int)
    requires
        0 <= k <= faces.len(),
        faces.len() <= usize::MAX,
    ensures
        forall|i: int| 0 <= i < spec_allocate_pieces(faces, alloc, k).len()
            ==> tag_below((#[trigger] spec_allocate_pieces(faces, alloc, k)[i]).1, k),
    decreases k,
{
    if k > 0 {
        lemma_allocate_tags(faces, alloc, k - 1);
        let prev = spec_allocate_pieces(faces, alloc, k - 1);
        let cur = spec_allocate_pieces(faces, alloc, k);
        assert forall|i: int| 0 <= i < cur.len() implies tag_below((#[trigger] cur[i]).1, k) by {
            if i < prev.len() {
                assert(cur[i] == prev[i]);
            }
        }
    }
}

/// The pieces of an allocation among the first `k` faces.
pub open spec fn spec_allocate_pieces(faces: Seq<Seq<[i32; 2]>>, alloc: ShapesView, k: int) -> Seq<(ShapesView, Option<usize>)> {
    crate::flat::refine::spec_allocate(faces, alloc, k).0
}

/// The tags of an allocation among some faces are indices of those faces.
proof fn lemma_allocation_tags(faces: Seq<Seq<[i32; 2]>>, alloc: ShapesView)
    requires
        faces.len() <= usize::MAX,
    ensures
        forall|i: int| 0 <= i < spec_allocation(faces, alloc).len()
            ==> tag_below((#[trigger] spec_allocation(faces, alloc)[i]).1, faces.len() as int),
{
    lemma_allocate_tags(faces, alloc, faces.len() as int);
    let t = spec_allocate_pieces(faces, alloc, faces.len() as int);
    let a = spec_allocation(faces, alloc);
    assert forall|i: int| 0 <= i < a.len() implies tag_below((#[trigger] a[i]).1, faces.len() as int) by {
        if i < t.len() {
            assert(a[i] == t[i]);
        }
    }
}

/// Cutting pieces into convex parts keeps their tags.
proof fn lemma_convex_pieces_tags(pieces: Seq<(ShapesView, Option<usize>)>, bound: int)
    requires
        forall|i: int| 0 <= i < pieces.len() ==> tag_below((#[trigger] pieces[i]).1, bound),
    ensures
        forall|i: int| 0 <= i < spec_convex_pieces(pieces).len()
            ==> tag_below((#[trigger] spec_convex_pieces(pieces)[i]).1, bound),
    decreases pieces.len(),
{
    if pieces.len() > 0 {
        let init = pieces.drop_last();
        assert forall|i: int| 0 <= i < init.len() implies tag_below((#[trigger] init[i]).1, bound) by {
            assert(init[i] == pieces[i]);
        }
        lemma_convex_pieces_tags(init, bound);
        let rest = spec_convex_pieces(init);
        let (sh, tag) = pieces.last();
        let all = spec_convex_pieces(pieces);
        assert forall|i: int| 0 <= i < all.len() implies tag_below((#[trigger] all[i]).1, bound) by {
            if i < rest.len() {
                assert(all[i] == rest[i]);
            } else {
                assert(all[i].1 == tag);
            }
        }
    }
}

impl<T: Clone + Default> Tesselation<T> {
    /// Makes sure that the tesselation holds faces whose union has the shapes
    /// `alloc_shapes` as boundary (see [`allocated`]): the faces near the shapes are split
    /// along them, and what no face covered becomes new faces with the default data.
    ///
    /// The shapes are not allowed to overlap (otherwise they are merged).
    pub fn allocate_shapes(&mut self, alloc_shapes: Vec<Shape>)
        requires
            old(self).wf(),
            shapes_in_overlay_range(shapes_view(alloc_shapes)),
        ensures
            final(self).wf(),
            allocated(old(self).spec_faces(), shapes_view(alloc_shapes), final(self).spec_faces()),
    {
        let ghost alloc = shapes_view(alloc_shapes);
        let ghost q = shapes_box(alloc);
        let ghost pred = part_of::<T>(q);
        let ghost npred = not_part_of::<T>(q);
        let flat = flatten_shapes(&alloc_shapes);
        let pts = all_points(&flat);
        let n = self.faces.len();
        let mask: Vec<bool> = if pts.len() > 0 {
            let (lo, hi) = contour_box(&pts);
            self.located(lo, hi)
        } else {
            let mut m: Vec<bool> = Vec::new();
            let mut k: usize = 0;
            while k < n
                invariant
                    k <= n,
                    m@.len() == k,
                    forall|i: int| 0 <= i < k ==> !(#[trigger] m@[i]),
                decreases n - k,
            {
                m.push(false);
                k = k + 1;
            }
            m
        };
        let mut faces: Vec<Face<T>> = Vec::new();
        std::mem::swap(&mut faces, &mut self.faces);
        let ghost fs = faces@;
        assert(fs.len() == n);
        assert forall|i: int| 0 <= i < n implies (#[trigger] mask@[i] && fs[i].contour@.len() > 0 && contour_in_range(fs[i].contour@)) == takes_part(fs[i], q) by {
        }
        let mut drained: Vec<Face<T>> = Vec::new();
        let mut kept: Vec<Face<T>> = Vec::new();
        let mut k: usize = 0;
        assert(fs.take(0) =~= Seq::<Face<T>>::empty());
        assert(fs.skip(0) =~= fs);
        while k < n
            invariant
                n == fs.len(),
                k <= n,
                mask@.len() == n,
                forall|i: int| 0 <= i < n ==> (#[trigger] mask@[i] && fs[i].contour@.len() > 0 && contour_in_range(fs[i].contour@)) == takes_part(fs[i], q),
                faces@ == fs.skip(k as int),
                pred == part_of::<T>(q),
                npred == not_part_of::<T>(q),
                drained@ == fs.take(k as int).filter(pred),
                kept@ == fs.take(k as int).filter(npred),
            decreases n - k,
        {
            let ghost before = faces@;
            let f = faces.remove(0);
            proof {
                assert(before[0] == fs[k as int]);
                assert(faces@ =~= fs.skip(k + 1));
                assert(fs.take(k + 1).drop_last() =~= fs.take(k as int));
                assert(fs.take(k + 1).last() == fs[k as int]);
            }
            let ghost t = fs.take(k + 1);
            proof {
                reveal(Seq::filter);
                assert(f == fs[k as int]);
                assert(pred(f) == takes_part(f, q));
                assert(npred(f) == !takes_part(f, q));
                assert(t.filter(pred) == if pred(t.last()) { t.drop_last().filter(pred).push(t.last()) } else { t.drop_last().filter(pred) });
                assert(t.filter(npred) == if npred(t.last()) { t.drop_last().filter(npred).push(t.last()) } else { t.drop_last().filter(npred) });
            }
            if mask[k] && f.contour.len() > 0 && contour_fits(&f.contour) {
                drained.push(f);
            } else {
                kept.push(f);
            }
            k = k + 1;
        }
        assert(fs.take(n as int) =~= fs);
        // the contours of the faces that take part
        let mut contours: Vec<Contour> = Vec::new();
        let mut i: usize = 0;
        while i < drained.len()
            invariant
                i <= drained@.len(),
                drained@ == fs.filter(pred),
                contours_view(contours@) == face_contours(drained@.take(i as int)),
                forall|j: int| 0 <= j < drained@.len() ==> contour_in_range(#[trigger] drained@[j].contour@),
            decreases drained@.len() - i,
        {
            let ghost c0 = contours@;
            let c = copy_contour(&drained[i].contour);
            contours.push(c);
            proof {
                assert(contours_view(contours@) =~= contours_view(c0).push(c@));
                assert(face_contours(drained@.take(i + 1)) =~= face_contours(drained@.take(i as int)).push(drained@[i as int].contour@));
            }
            i = i + 1;
        }
        assert(drained@.take(i as int) =~= drained@);
        let ghost fcs = face_contours(drained@);
        assert forall|j: int| 0 <= j < contours@.len() implies contour_in_range(#[trigger] contours@[j]@) by {
            assert(contours_view(contours@)[j] == drained@[j].contour@);
        }
        let pieces = allocate_among(contours, alloc_shapes);
        let parts = convex_pieces(pieces);
        let ghost ps = spec_convex_pieces(spec_allocation(fcs, alloc));
        proof {
            lemma_allocation_tags(fcs, alloc);
            lemma_convex_pieces_tags(spec_allocation(fcs, alloc), fcs.len() as int);
            assert(ps.len() == parts@.len());
        }
        let ghost kept0 = kept@;
        let mut parts = parts;
        let m = parts.len();
        let mut j: usize = 0;
        while j < m
            invariant
                m == ps.len(),
                j <= m,
                parts@.len() == m - j,
                forall|x: int| 0 <= x < parts@.len() ==> (#[trigger] parts@[x]).0@ == ps[x + j].0 && parts@[x].1 == ps[x + j].1,
                forall|x: int| 0 <= x < ps.len() ==> tag_below((#[trigger] ps[x]).1, drained@.len() as int),
                fcs.len() == drained@.len(),
                kept@.len() == kept0.len() + j,
                kept@.take(kept0.len() as int) == kept0,
                forall|x: int| kept0.len() <= x < kept@.len() ==> face_of_piece(ps[x - kept0.len()], drained@, #[trigger] kept@[x]),
            decreases m - j,
        {
            let ghost pb = parts@;
            let (contour, tag) = parts.remove(0);
            proof {
                assert(pb[0].0@ == ps[j as int].0);
                assert forall|x: int| 0 <= x < parts@.len() implies (#[trigger] parts@[x]).0@ == ps[x + j + 1].0 && parts@[x].1 == ps[x + j + 1].1 by {
                    assert(parts@[x] == pb[x + 1]);
                }
            }
            let data = match tag {
                Some(t) => drained[t].data.clone(),
                None => T::default(),
            };
            let ghost k0 = kept@;
            kept.push(Face { contour, data });
            proof {
                assert(kept@.take(kept0.len() as int) =~= k0.take(kept0.len() as int));
                assert forall|x: int| kept0.len() <= x < kept@.len() implies face_of_piece(ps[x - kept0.len()], drained@, #[trigger] kept@[x]) by {
                    if x < k0.len() {
                        assert(kept@[x] == k0[x]);
                    }
                }
            }
            j = j + 1;
        }
        self.faces = kept;
        self.index = index_faces(&self.faces);
    }
}

/// Whether the interior of the face meets the polygon `outer`: both have points, their
/// bounding boxes meet, the face lies in the coordinate range of `i_overlay` (a face out of
/// that range is left as it is), and `i_overlay` finds that their interiors intersect.
pub open spec fn meets_outer<T>(outer: Seq<[i32; 2]>, f: Face<T>) -> bool {
    &&& outer.len() > 0
    &&& f.contour@.len() > 0
    &&& boxes_overlap(spec_contour_box(f.contour@), spec_contour_box(outer))
    &&& contour_in_range(f.contour@)
    &&& interiors_intersect_of(outer, f.contour@)
}

/// Whether the face `o` became `n` when visited by `f`, which answered `flow`: `f` was
/// called on the face if it meets `outer`, else the face is unchanged.
pub open spec fn visited<T, B, F: Fn(&Contour, T) -> (T, ControlFlow<B>)>(
    f: F,
    outer: Seq<[i32; 2]>,
    o: Face<T>,
    n: Face<T>,
    flow: ControlFlow<B>,
) -> bool {
    if meets_outer(outer, o) {
        call_ensures(f, (&o.contour, o.data), (n.data, flow))
    } else {
        n.data == o.data
    }
}

/// Whether `new` is what visiting the faces `old` in order with `f` makes of them, `f`
/// being called on each face that meets `outer` until it breaks (answering `r`): the
/// contours stay; if `f` never broke, every face was visited; else the faces after the one
/// it broke on are unchanged.
pub open spec fn updated<T, B, F: Fn(&Contour, T) -> (T, ControlFlow<B>)>(
    f: F,
    outer: Seq<[i32; 2]>,
    old: Seq<Face<T>>,
    new: Seq<Face<T>>,
    r: ControlFlow<B>,
) -> bool {
    &&& new.len() == old.len()
    &&& forall|i: int| 0 <= i < old.len() ==> (#[trigger] new[i]).contour == old[i].contour
    &&& match r {
        ControlFlow::Continue(_) => forall|i: int| 0 <= i < old.len() ==> visited(f, outer, old[i], #[trigger] new[i], ControlFlow::Continue(())),
        ControlFlow::Break(b) => exists|s: int| {
            &&& 0 <= s < old.len()
            &&& meets_outer(outer, old[s])
            &&& call_ensures(f, (&old[s].contour, old[s].data), (new[s].data, ControlFlow::<B, ()>::Break(b)))
            &&& forall|i: int| 0 <= i < s ==> visited(f, outer, old[i], #[trigger] new[i], ControlFlow::Continue(()))
            &&& forall|i: int| s < i < old.len() ==> (#[trigger] new[i]).data == old[i].data
        },
    }
}

impl<T> Tesselation<T> {
    /// Calls `f` on the contour and the data of each face whose interior meets the polygon
    /// `outer_contour` (see [`meets_outer`]), in the order of the tesselation, and keeps the
    /// data that `f` gives back; stops at the first face on which `f` breaks, and answers
    /// what it broke with.
    pub fn update_data<B, F: Fn(&Contour, T) -> (T, ControlFlow<B>)>(&mut self, outer_contour: &Contour, f: F) -> (r: ControlFlow<B>)
        requires
            old(self).wf(),
            contour_in_range(outer_contour@),
            forall|c: &Contour, d: T| call_requires(f, (c, d)),
        ensures
            final(self).wf(),
            updated(f, outer_contour@, old(self).spec_faces(), final(self).spec_faces(), r),
    {
        let n = self.faces.len();
        let mask: Vec<bool> = if outer_contour.len() > 0 {
            let (lo, hi) = contour_box(outer_contour);
            self.located(lo, hi)
        } else {
            let mut m: Vec<bool> = Vec::new();
            let mut k: usize = 0;
            while k < n
                invariant
                    k <= n,
                    m@.len() == k,
                    forall|i: int| 0 <= i < k ==> !(#[trigger] m@[i]),
                decreases n - k,
            {
                m.push(false);
                k = k + 1;
            }
            m
        };
        let ghost outer = outer_contour@;
        let mut faces: Vec<Face<T>> = Vec::new();
        std::mem::swap(&mut faces, &mut self.faces);
        let ghost fs = faces@;
        let ghost old_index = box_index_items(self.index);
        assert(fs.len() == n);
        let mut out: Vec<Face<T>> = Vec::new();
        let mut broken: Option<B> = None;
        let ghost mut s: int = 0;
        let mut k: usize = 0;
        assert(fs.skip(0) =~= fs);
        while k < n
            invariant
                n == fs.len(),
                k <= n,
                mask@.len() == n,
                forall|i: int| 0 <= i < n ==> (#[trigger] mask@[i] && fs[i].contour@.len() > 0 && contour_in_range(fs[i].contour@)
                    && interiors_intersect_of(outer, fs[i].contour@)) == meets_outer(outer, fs[i]),
                outer == outer_contour@,
                contour_in_range(outer),
                forall|c: &Contour, d: T| call_requires(f, (c, d)),
                faces@ == fs.skip(k as int),
                out@.len() == k,
                forall|i: int| 0 <= i < k ==> (#[trigger] out@[i]).contour == fs[i].contour,
                broken is None ==> forall|i: int| 0 <= i < k ==> visited(f, outer, fs[i], #[trigger] out@[i], ControlFlow::Continue(())),
                broken matches Some(b) ==> {
                    &&& 0 <= s < k
                    &&& meets_outer(outer, fs[s])
                    &&& call_ensures(f, (&fs[s].contour, fs[s].data), (out@[s].data, ControlFlow::<B, ()>::Break(b)))
                    &&& forall|i: int| 0 <= i < s ==> visited(f, outer, fs[i], #[trigger] out@[i], ControlFlow::Continue(()))
                    &&& forall|i: int| s < i < k ==> (#[trigger] out@[i]).data == fs[i].data
                },
            decreases n - k,
        {
            let ghost before = faces@;
            let face = faces.remove(0);
            proof {
                assert(before[0] == fs[k as int]);
                assert(faces@ =~= fs.skip(k + 1));
            }
            let ghost o0 = out@;
            if broken.is_none() && mask[k] && face.contour.len() > 0 && contour_fits(&face.contour) && contours_overlap(
                outer_contour,
                &face.contour,
            ) {
                let Face { contour, data } = face;
                let (d2, flow) = f(&contour, data);
                out.push(Face { contour, data: d2 });
                let ghost flow0 = flow;
                match flow {
                    ControlFlow::Break(b) => {
                        broken = Some(b);
                        proof {
                            s = k as int;
                        }
                    },
                    ControlFlow::Continue(u) => {
                        assert(flow0 == ControlFlow::<B, ()>::Continue(u));
                        assert(u == ());
                        assert(flow0 == ControlFlow::<B, ()>::Continue(()));
                        assert(out@[k as int].data == d2);
                        assert(fs[k as int].contour == contour && fs[k as int].data == data);
                        assert(visited(f, outer, fs[k as int], out@[k as int], ControlFlow::Continue(())));
                    },
                }
            } else {
                out.push(face);
                assert(broken is None ==> !meets_outer(outer, fs[k as int]));
            }
            proof {
                assert forall|i: int| 0 <= i < k implies #[trigger] out@[i] == o0[i] by {}
            }
            k = k + 1;
        }
        self.faces = out;
        proof {
            assert(face_boxes(self.faces@) =~= face_boxes(fs)) by {
                assert forall|i: int| 0 <= i < fs.len() implies face_boxes(self.faces@)[i] == face_boxes(fs)[i] by {
                    assert(self.faces@[i].contour == fs[i].contour);
                }
            }
        }
        match broken {
            Some(b) => ControlFlow::Break(b),
            None => ControlFlow::Continue(()),
        }
    }
}

/// Whether the face can be frozen with neighbours: it has points, and lies in the
/// coordinate range of `i_overlay` (a face out of that range gets no neighbour).
pub open spec fn freezable<T>(f: Face<T>) -> bool {
    f.contour@.len() > 0 && contour_in_range(f.contour@)
}

/// The faces that can be frozen with neighbours and whose bounding box meets the box `b`.
pub open spec fn near<T>(b: ([i32; 2], [i32; 2])) -> spec_fn(Face<T>) -> bool {
    |g: Face<T>| freezable(g) && boxes_overlap(spec_contour_box(g.contour@), b)
}

/// The neighbours of face `i` of `faces`, with the portals to them: among the faces near
/// it (see [`near`]), in order, those that [`spec_face_neighbours`] keeps.
pub open spec fn spec_neighbours_of<T>(faces: Seq<Face<T>>, i: int) -> Seq<(Seq<[i32; 2]>, [[i32; 2]; 2])> {
    if freezable(faces[i]) {
        spec_face_neighbours(faces[i].contour@, face_contours(faces.filter(near(spec_contour_box(faces[i].contour@)))))
    } else {
        Seq::empty()
    }
}

/// The contours of the faces.
pub open spec fn face_contour_vecs<T>(faces: Seq<Face<T>>) -> Seq<Vec<[i32; 2]>> {
    faces.map_values(|f: Face<T>| f.contour)
}

/// Whether the faces can be frozen: their number and the number of their distinct points
/// fit in a `u32`, and every portal end is one of their points.
pub open spec fn freeze_ok<T>(faces: Seq<Face<T>>) -> bool {
    let cs = face_contour_vecs(faces);
    &&& faces.len() <= u32::MAX
    &&& contour_points(cs).len() <= u32::MAX
    &&& forall|i: int, k: int| 0 <= i < faces.len() && 0 <= k < spec_neighbours_of(faces, i).len() ==> {
        let p = (#[trigger] spec_neighbours_of(faces, i)[k]).1;
        contour_points(cs).contains(p[0]) && contour_points(cs).contains(p[1])
    }
}

/// Whether `cs`, `ds` and `ns` are copies of the contours, clones of the data, and the
/// neighbour lists (see [`spec_neighbours_of`]) of the faces.
pub open spec fn frozen_inputs<T: Clone>(
    faces: Seq<Face<T>>,
    cs: Seq<Vec<[i32; 2]>>,
    ds: Seq<T>,
    ns: Seq<Vec<(Vec<[i32; 2]>, [[i32; 2]; 2])>>,
) -> bool {
    &&& cs.len() == faces.len()
    &&& ds.len() == faces.len()
    &&& ns.len() == faces.len()
    &&& forall|i: int| #![trigger cs[i]] #![trigger ds[i]] #![trigger ns[i]] 0 <= i < faces.len() ==> {
        &&& cs[i]@ == faces[i].contour@
        &&& cloned(faces[i].data, ds[i])
        &&& neighbours_view(ns[i]@) == spec_neighbours_of(faces, i)
    }
}

/// Contours with the same points have the same points.
proof fn lemma_contour_points_views(a: Seq<Vec<[i32; 2]>>, b: Seq<Vec<[i32; 2]>>)
    requires
        a.len() == b.len(),
        forall|i: int| 0 <= i < a.len() ==> (#[trigger] a[i])@ == b[i]@,
    ensures
        contour_points(a) == contour_points(b),
{
    assert forall|p: [i32; 2]| contour_points(a).contains(p) <==> contour_points(b).contains(p) by {
        if contour_points(a).contains(p) {
            let (i, j) = choose|i: int, j: int| 0 <= i < a.len() && 0 <= j < a[i]@.len() && #[trigger] a[i]@[j] == p;
            assert(b[i]@[j] == p);
        }
        if contour_points(b).contains(p) {
            let (i, j) = choose|i: int, j: int| 0 <= i < b.len() && 0 <= j < b[i]@.len() && #[trigger] b[i]@[j] == p;
            assert(a[i]@[j] == p);
        }
    }
    assert(contour_points(a) =~= contour_points(b));
}

/// The neighbours that [`spec_face_neighbours`] keeps are among the candidates.
proof fn lemma_face_neighbours_from(face: Seq<[i32; 2]>, cs: Seq<Seq<[i32; 2]>>)
    ensures
        forall|k: int| 0 <= k < spec_face_neighbours(face, cs).len() ==> exists|q: int|
            0 <= q < cs.len() && cs[q] == (#[trigger] spec_face_neighbours(face, cs)[k]).0,
    decreases cs.len(),
{
    if cs.len() > 0 {
        lemma_face_neighbours_from(face, cs.drop_last());
        let rest = spec_face_neighbours(face, cs.drop_last());
        let all = spec_face_neighbours(face, cs);
        assert forall|k: int| 0 <= k < all.len() implies exists|q: int| 0 <= q < cs.len() && cs[q] == (#[trigger] all[k]).0 by {
            if k < rest.len() {
                assert(all[k] == rest[k]);
                let q = choose|q: int| 0 <= q < cs.drop_last().len() && cs.drop_last()[q] == (#[trigger] rest[k]).0;
                assert(cs[q] == cs.drop_last()[q]);
            } else {
                assert(all[k].0 == cs[cs.len() - 1]);
            }
        }
    }
}

impl<T> Tesselation<T> {
    /// The neighbours of face `i`, with the portals to them (see [`spec_neighbours_of`]).
    fn neighbour_list(&self, i: usize) -> (r: Vec<(Contour, [[i32; 2]; 2])>)
        requires
            self.wf(),
            i < self.spec_faces().len(),
        ensures
            neighbours_view(r@) == spec_neighbours_of(self.spec_faces(), i as int),
            forall|k: int| 0 <= k < r@.len() ==> exists|j: int|
                0 <= j < self.spec_faces().len() && self.spec_faces()[j].contour@ == (#[trigger] r@[k]).0@,
    {
        let ghost faces = self.faces@;
        let f = &self.faces[i];
        if f.contour.len() == 0 || !contour_fits(&f.contour) {
            let none: Vec<(Contour, [[i32; 2]; 2])> = Vec::new();
            assert(neighbours_view(none@) =~= Seq::<(Seq<[i32; 2]>, [[i32; 2]; 2])>::empty());
            return none;
        }
        let (lo, hi) = contour_box(&f.contour);
        let mask = self.located(lo, hi);
        let ghost pred = near::<T>((lo, hi));
        let n = self.faces.len();
        let mut cands: Vec<Contour> = Vec::new();
        let mut j: usize = 0;
        assert(faces.take(0) =~= Seq::<Face<T>>::empty());
        while j < n
            invariant
                n == faces.len(),
                faces == self.faces@,
                j <= n,
                mask@.len() == n,
                forall|x: int| 0 <= x < n ==> (#[trigger] mask@[x] <==> boxes_overlap(spec_contour_box(faces[x].contour@), (lo, hi))),
                pred == near::<T>((lo, hi)),
                contours_view(cands@) == face_contours(faces.take(j as int).filter(pred)),
                forall|q: int| 0 <= q < cands@.len() ==> contour_in_range(#[trigger] cands@[q]@),
                forall|q: int| 0 <= q < cands@.len() ==> exists|x: int| 0 <= x < n && faces[x].contour@ == (#[trigger] cands@[q])@,
            decreases n - j,
        {
            let ghost c0 = cands@;
            let g = &self.faces[j];
            let ghost t = faces.take(j + 1);
            proof {
                reveal(Seq::filter);
                assert(t.drop_last() =~= faces.take(j as int));
                assert(t.last() == faces[j as int]);
                assert(pred(faces[j as int]) == (mask@[j as int] && freezable(faces[j as int])));
            }
            if mask[j] && g.contour.len() > 0 && contour_fits(&g.contour) {
                let c = copy_contour(&g.contour);
                cands.push(c);
                proof {
                    assert(contours_view(cands@) =~= contours_view(c0).push(c@));
                    assert(t.filter(pred) == t.drop_last().filter(pred).push(t.last()));
                    assert(face_contours(t.filter(pred)) =~= face_contours(faces.take(j as int).filter(pred)).push(c@));
                    assert forall|q: int| 0 <= q < cands@.len() implies exists|x: int| 0 <= x < n && faces[x].contour@ == (#[trigger] cands@[q])@ by {
                        if q == c0.len() {
                            assert(faces[j as int].contour@ == cands@[q]@);
                        } else {
                            assert(cands@[q] == c0[q]);
                        }
                    }
                    assert forall|q: int| 0 <= q < cands@.len() implies contour_in_range(#[trigger] cands@[q]@) by {
                        if q < c0.len() {
                            assert(cands@[q] == c0[q]);
                        }
                    }
                }
            } else {
                proof {
                    assert(t.filter(pred) == t.drop_last().filter(pred));
                }
            }
            j = j + 1;
        }
        assert(faces.take(n as int) =~= faces);
        let r = face_neighbours(&f.contour, cands);
        proof {
            assert((lo, hi) == spec_contour_box(faces[i as int].contour@));
            let cs = contours_view(cands@);
            lemma_face_neighbours_from(faces[i as int].contour@, cs);
            assert forall|k: int| 0 <= k < r@.len() implies exists|x: int|
                0 <= x < faces.len() && faces[x].contour@ == (#[trigger] r@[k]).0@ by {
                assert(neighbours_view(r@)[k] == (r@[k].0@, r@[k].1));
                let q = choose|q: int| 0 <= q < cs.len() && cs[q] == (#[trigger] spec_face_neighbours(faces[i as int].contour@, cs)[k]).0;
                assert(cs[q] == cands@[q]@);
            }
        }
        r
    }
}

impl<T: Clone> Tesselation<T> {
    /// The frozen form of the tesselation (see [`freezes`]), made of copies of its
    /// contours, clones of its data and its neighbour lists (see [`frozen_inputs`]); `None`
    /// when it cannot be frozen (see [`freeze_ok`]).
    pub fn freeze(&self) -> (r: Option<FrozenTesselation<i32, T>>)
        requires
            self.wf(),
        ensures
            r is Some <==> freeze_ok(self.spec_faces()),
            r matches Some(t) ==> exists|cs: Seq<Vec<[i32; 2]>>, ds: Seq<T>, ns: Seq<Vec<(Vec<[i32; 2]>, [[i32; 2]; 2])>>|
                #[trigger] frozen_inputs(self.spec_faces(), cs, ds, ns) && freezes(t, cs, ds, ns),
    {
        let ghost faces = self.faces@;
        let n = self.faces.len();
        let mut contours: Vec<Vec<[i32; 2]>> = Vec::new();
        let mut datas: Vec<T> = Vec::new();
        let mut neighbours: Vec<Vec<(Contour, [[i32; 2]; 2])>> = Vec::new();
        let mut i: usize = 0;
        while i < n
            invariant
                n == faces.len(),
                faces == self.faces@,
                self.wf(),
                i <= n,
                contours@.len() == i,
                datas@.len() == i,
                neighbours@.len() == i,
                forall|q: int| 0 <= q < i ==> {
                    &&& (#[trigger] contours@[q])@ == faces[q].contour@
                    &&& cloned(faces[q].data, datas@[q])
                    &&& neighbours_view(neighbours@[q]@) == spec_neighbours_of(faces, q)
                },
                forall|q: int, k: int| 0 <= q < i && 0 <= k < neighbours@[q]@.len() ==> exists|x: int|
                    0 <= x < n && faces[x].contour@ == (#[trigger] neighbours@[q]@[k]).0@,
            decreases n - i,
        {
            contours.push(copy_contour(&self.faces[i].contour));
            datas.push(self.faces[i].data.clone());
            neighbours.push(self.neighbour_list(i));
            i = i + 1;
        }
        proof {
            lemma_contour_points_views(contours@, face_contour_vecs(faces));
            assert(frozen_inputs(faces, contours@, datas@, neighbours@));
        }
        if n > 0xffff_ffff {
            return None;
        }
        let vs = point_list(&contours);
        if vs.len() > 0xffff_ffff {
            return None;
        }
        let mut i: usize = 0;
        while i < n
            invariant
                n == faces.len(),
                faces == self.faces@,
                i <= n,
                neighbours@.len() == n,
                sorted_unique(vs@),
                vs@.to_set() == contour_points(contours@),
                contour_points(contours@) == contour_points(face_contour_vecs(faces)),
                frozen_inputs(faces, contours@, datas@, neighbours@),
                forall|q: int, k: int| 0 <= q < i && 0 <= k < spec_neighbours_of(faces, q).len() ==> {
                    let p = (#[trigger] spec_neighbours_of(faces, q)[k]).1;
                    contour_points(contours@).contains(p[0]) && contour_points(contours@).contains(p[1])
                },
            decreases n - i,
        {
            let ns = &neighbours[i];
            let mut k: usize = 0;
            while k < ns.len()
                invariant
                    n == faces.len(),
                    faces == self.faces@,
                    i < n,
                    ns@ == neighbours@[i as int]@,
                    k <= ns@.len(),
                    neighbours@.len() == n,
                    sorted_unique(vs@),
                    vs@.to_set() == contour_points(contours@),
                    contour_points(contours@) == contour_points(face_contour_vecs(faces)),
                    frozen_inputs(faces, contours@, datas@, neighbours@),
                    forall|q: int, k2: int| 0 <= q < i && 0 <= k2 < spec_neighbours_of(faces, q).len() ==> {
                        let p = (#[trigger] spec_neighbours_of(faces, q)[k2]).1;
                        contour_points(contours@).contains(p[0]) && contour_points(contours@).contains(p[1])
                    },
                    forall|k2: int| 0 <= k2 < k ==> {
                        let p = (#[trigger] spec_neighbours_of(faces, i as int)[k2]).1;
                        contour_points(contours@).contains(p[0]) && contour_points(contours@).contains(p[1])
                    },
                decreases ns@.len() - k,
            {
                let p = ns[k].1;
                proof {
                    assert(neighbours_view(ns@)[k as int] == (ns@[k as int].0@, ns@[k as int].1));
                    assert(spec_neighbours_of(faces, i as int)[k as int].1 == p);
                }
                let a = find_position(&vs, p[0]);
                let b = find_position(&vs, p[1]);
                if !a.1 || !b.1 {
                    proof {
                        assert(vs@.to_set().contains(p[0]) == vs@.contains(p[0]));
                        assert(vs@.to_set().contains(p[1]) == vs@.contains(p[1]));
                        assert(!freeze_ok(faces));
                    }
                    return None;
                }
                proof {
                    assert(vs@.to_set().contains(p[0]));
                    assert(vs@.to_set().contains(p[1]));
                }
                k = k + 1;
            }
            proof {
                assert(neighbours_view(ns@).len() == ns@.len());
            }
            i = i + 1;
        }
        proof {
            assert(freeze_ok(faces));
            assert(contours@.len() <= u32::MAX);
            assert forall|q: int, k: int| 0 <= q < neighbours@.len() && 0 <= k < neighbours@[q]@.len() implies {
                let e = #[trigger] neighbours@[q]@[k];
                &&& exists|j: int| 0 <= j < contours@.len() && contours@[j]@ == e.0@
                &&& contour_points(contours@).contains(e.1[0])
                &&& contour_points(contours@).contains(e.1[1])
            } by {
                let e = neighbours@[q]@[k];
                assert(neighbours_view(neighbours@[q]@)[k] == (e.0@, e.1));
                assert(spec_neighbours_of(faces, q)[k] == (e.0@, e.1));
                let x = choose|x: int| 0 <= x < n && faces[x].contour@ == (#[trigger] neighbours@[q]@[k]).0@;
                assert(contours@[x]@ == e.0@);
            }
            assert(freeze_ready(contours@, datas@, neighbours@));
        }
        let ghost (cs, ds, ns) = (contours@, datas@, neighbours@);
        let t = FrozenTesselation::freeze_faces(contours, datas, neighbours);
        assert(faces == self.spec_faces());
        assert(frozen_inputs(self.spec_faces(), cs, ds, ns) && freezes(t, cs, ds, ns));
        Some(t)
    }
}

/// The index of the first group whose data equals `d` (by `==`), or the number of groups.
pub open spec fn first_group<T: PartialEq>(gs: Seq<(T, ShapesView)>, d: T) -> int
    decreases gs.len(),
{
    if gs.len() == 0 {
        0
    } else {
        let k = first_group(gs.drop_last(), d);
        if k < gs.len() - 1 {
            k
        } else if gs.last().0.eq_spec(&d) {
            gs.len() - 1
        } else {
            gs.len() as int
        }
    }
}

/// The faces grouped by data, in order: each face joins the first group whose data equals
/// its own, or starts a new group with its data; a group holds the contour of each of its
/// faces as a shape.
pub open spec fn spec_groups<T: PartialEq>(fs: Seq<Face<T>>) -> Seq<(T, ShapesView)>
    decreases fs.len(),
{
    if fs.len() == 0 {
        Seq::empty()
    } else {
        let gs = spec_groups(fs.drop_last());
        let f = fs.last();
        let k = first_group(gs, f.data);
        if k < gs.len() {
            gs.update(k, (gs[k].0, gs[k].1.push(seq![f.contour@])))
        } else {
            gs.push((f.data, seq![seq![f.contour@]]))
        }
    }
}

/// The groups as pieces, group `g` tagged with `g`.
pub open spec fn group_pieces<T>(gs: Seq<(T, ShapesView)>) -> Seq<(ShapesView, Option<usize>)> {
    Seq::new(gs.len(), |g: int| (gs[g].1, Some(g as usize)))
}

/// Whether the face `f` is made of the piece `p`, taking the data of the group it is
/// tagged with.
pub open spec fn face_of_group<T: Clone>(p: (Seq<[i32; 2]>, Option<usize>), gs: Seq<(T, ShapesView)>, f: Face<T>) -> bool {
    &&& f.contour@ == p.0
    &&& p.1 is Some
    &&& p.1.unwrap() < gs.len()
    &&& cloned(gs[p.1.unwrap() as int].0, f.data)
}

/// Whether `new` is what merging the faces of `old` within the box `b` makes of them: the
/// faces that take part (see [`takes_part`]) are grouped by data (see [`spec_groups`]), and
/// each group is cut into convex faces with its data; the other faces stay, in order,
/// followed by the new faces.
pub open spec fn optimized<T: Clone + PartialEq>(old: Seq<Face<T>>, b: ([i32; 2], [i32; 2]), new: Seq<Face<T>>) -> bool {
    let q = Some(b);
    let merged = old.filter(part_of(q));
    let kept = old.filter(not_part_of(q));
    let gs = spec_groups(merged);
    let ps = spec_convex_pieces(group_pieces(gs));
    &&& new.len() == kept.len() + ps.len()
    &&& new.take(kept.len() as int) == kept
    &&& forall|i: int| kept.len() <= i < new.len() ==> face_of_group(ps[i - kept.len()], gs, #[trigger] new[i])
}

/// [`first_group`] is the first group whose data equals `d`.
proof fn lemma_first_group<T: PartialEq>(gs: Seq<(T, ShapesView)>, d: T)
    ensures
        0 <= first_group(gs, d) <= gs.len(),
        forall|j: int| 0 <= j < first_group(gs, d) ==> !(#[trigger] gs[j].0.eq_spec(&d)),
        first_group(gs, d) < gs.len() ==> gs[first_group(gs, d)].0.eq_spec(&d),
    decreases gs.len(),
{
    if gs.len() > 0 {
        lemma_first_group(gs.drop_last(), d);
        let k = first_group(gs.drop_last(), d);
        assert forall|j: int| 0 <= j < first_group(gs, d) implies !(#[trigger] gs[j].0.eq_spec(&d)) by {
            if j < gs.len() - 1 {
                assert(gs[j] == gs.drop_last()[j]);
            }
        }
        if k < gs.len() - 1 {
            assert(gs[k] == gs.drop_last()[k]);
        }
    }
}

/// The groups of faces in range hold shapes in range, and are no more than the faces.
proof fn lemma_groups_in_range<T: PartialEq>(fs: Seq<Face<T>>)
    requires
        forall|i: int| 0 <= i < fs.len() ==> contour_in_range(#[trigger] fs[i].contour@),
    ensures
        forall|g: int| 0 <= g < spec_groups(fs).len() ==> shapes_in_overlay_range(#[trigger] spec_groups(fs)[g].1),
        spec_groups(fs).len() <= fs.len(),
    decreases fs.len(),
{
    if fs.len() > 0 {
        let init = fs.drop_last();
        assert forall|i: int| 0 <= i < init.len() implies contour_in_range(#[trigger] init[i].contour@) by {
            assert(init[i] == fs[i]);
        }
        lemma_groups_in_range(init);
        let gs = spec_groups(init);
        let f = fs.last();
        assert(contour_in_range(fs[fs.len() - 1].contour@));
        lemma_first_group(gs, f.data);
        let k = first_group(gs, f.data);
        let ng = spec_groups(fs);
        let one: ShapesView = seq![seq![f.contour@]];
        assert(shapes_in_overlay_range(one)) by {
            assert forall|a: int, b: int, c: int| 0 <= a < one.len() && 0 <= b < one[a].len() && 0 <= c < one[a][b].len()
                implies crate::delaunay::in_overlay_range(#[trigger] one[a][b][c]) by {
                assert(one[a][b] == f.contour@);
            }
        }
        assert forall|g: int| 0 <= g < ng.len() implies shapes_in_overlay_range(#[trigger] ng[g].1) by {
            if k < gs.len() && g == k {
                let sh = gs[k].1.push(seq![f.contour@]);
                assert(ng[g].1 == sh);
                assert forall|a: int, b: int, c: int| 0 <= a < sh.len() && 0 <= b < sh[a].len() && 0 <= c < sh[a][b].len()
                    implies crate::delaunay::in_overlay_range(#[trigger] sh[a][b][c]) by {
                    if a < gs[k].1.len() {
                        assert(sh[a] == gs[k].1[a]);
                    } else {
                        assert(sh[a][b] == f.contour@);
                    }
                }
            } else if g < gs.len() {
                assert(ng[g] == gs[g]);
            } else {
                assert(ng[g].1 == one);
            }
        }
    }
}

/// The shapes of a group, as plain sequences.
pub open spec fn groups_view<T>(gs: Seq<(T, Vec<Shape>)>) -> Seq<(T, ShapesView)> {
    gs.map_values(|g: (T, Vec<Shape>)| (g.0, shapes_view(g.1)))
}

impl<T: Clone + PartialEq> Tesselation<T> {
    /// Within the box `lo..=hi`, merges the faces with the same data and cuts them into
    /// convex faces again (see [`optimized`]).
    pub fn optimize_envelope(&mut self, lo: [i32; 2], hi: [i32; 2])
        requires
            old(self).wf(),
            box_ordered((lo, hi)),
            T::obeys_eq_spec(),
        ensures
            final(self).wf(),
            optimized(old(self).spec_faces(), (lo, hi), final(self).spec_faces()),
    {
        let ghost q = Some((lo, hi));
        let ghost pred = part_of::<T>(q);
        let ghost npred = not_part_of::<T>(q);
        let n = self.faces.len();
        let mask = self.located(lo, hi);
        let mut faces: Vec<Face<T>> = Vec::new();
        std::mem::swap(&mut faces, &mut self.faces);
        let ghost fs = faces@;
        let mut merged: Vec<Face<T>> = Vec::new();
        let mut kept: Vec<Face<T>> = Vec::new();
        let mut k: usize = 0;
        assert(fs.take(0) =~= Seq::<Face<T>>::empty());
        assert(fs.skip(0) =~= fs);
        while k < n
            invariant
                n == fs.len(),
                k <= n,
                mask@.len() == n,
                forall|i: int| 0 <= i < n ==> (#[trigger] mask@[i] && fs[i].contour@.len() > 0 && contour_in_range(fs[i].contour@)) == takes_part(fs[i], q),
                faces@ == fs.skip(k as int),
                pred == part_of::<T>(q),
                npred == not_part_of::<T>(q),
                merged@ == fs.take(k as int).filter(pred),
                kept@ == fs.take(k as int).filter(npred),
            decreases n - k,
        {
            let ghost before = faces@;
            let f = faces.remove(0);
            let ghost t = fs.take(k + 1);
            proof {
                reveal(Seq::filter);
                assert(before[0] == fs[k as int]);
                assert(faces@ =~= fs.skip(k + 1));
                assert(t.drop_last() =~= fs.take(k as int));
                assert(t.last() == fs[k as int]);
                assert(f == fs[k as int]);
                assert(pred(f) == takes_part(f, q));
                assert(npred(f) == !takes_part(f, q));
                assert(t.filter(pred) == if pred(t.last()) { t.drop_last().filter(pred).push(t.last()) } else { t.drop_last().filter(pred) });
                assert(t.filter(npred) == if npred(t.last()) { t.drop_last().filter(npred).push(t.last()) } else { t.drop_last().filter(npred) });
            }
            if mask[k] && f.contour.len() > 0 && contour_fits(&f.contour) {
                merged.push(f);
            } else {
                kept.push(f);
            }
            k = k + 1;
        }
        assert(fs.take(n as int) =~= fs);
        let ghost ms = merged@;
        // group the merged faces by data
        let mut groups: Vec<(T, Vec<Shape>)> = Vec::new();
        let m = merged.len();
        let mut i: usize = 0;
        assert(ms.skip(0) =~= ms);
        assert(ms.take(0) =~= Seq::<Face<T>>::empty());
        while i < m
            invariant
                m == ms.len(),
                i <= m,
                merged@ == ms.skip(i as int),
                T::obeys_eq_spec(),
                groups_view(groups@) == spec_groups(ms.take(i as int)),
            decreases m - i,
        {
            let ghost before = merged@;
            let f = merged.remove(0);
            let ghost gs = groups_view(groups@);
            proof {
                assert(before[0] == ms[i as int]);
                assert(merged@ =~= ms.skip(i + 1));
                assert(ms.take(i + 1).drop_last() =~= ms.take(i as int));
                assert(ms.take(i + 1).last() == f);
                lemma_first_group(gs, f.data);
            }
            let mut g: usize = 0;
            while g < groups.len() && !(groups[g].0 == f.data)
                invariant
                    g <= groups@.len(),
                    gs == groups_view(groups@),
                    T::obeys_eq_spec(),
                    forall|j: int| 0 <= j < g ==> !(#[trigger] gs[j].0.eq_spec(&f.data)),
                decreases groups@.len() - g,
            {
                g = g + 1;
            }
            proof {
                let fg = first_group(gs, f.data);
                if g < groups@.len() {
                    assert(gs[g as int].0.eq_spec(&f.data));
                    assert(fg == g) by {
                        if fg < g {
                            assert(!gs[fg].0.eq_spec(&f.data));
                        }
                    }
                } else {
                    assert(fg == g) by {
                        if fg < g {
                            assert(!gs[fg].0.eq_spec(&f.data));
                        }
                    }
                }
            }
            let Face { contour, data } = f;
            let ghost cv = contour@;
            if g < groups.len() {
                let mut entry = groups.remove(g);
                entry.1.push(vec![contour]);
                groups.insert(g, entry);
                proof {
                    assert(shapes_view(entry.1) =~~= gs[g as int].1.push(seq![cv]));
                    assert(groups_view(groups@) =~= gs.update(g as int, (gs[g as int].0, gs[g as int].1.push(seq![cv]))));
                }
            } else {
                let one: Vec<Shape> = vec![vec![contour]];
                assert(shapes_view(one) =~~= seq![seq![cv]]);
                groups.push((data, one));
                proof {
                    assert(groups_view(groups@) =~= gs.push((f.data, seq![seq![cv]])));
                }
            }
            i = i + 1;
        }
        assert(ms.take(m as int) =~= ms);
        let ghost gs = spec_groups(ms);
        proof {
            lemma_groups_in_range(ms);
            assert(gs.skip(0) =~= gs);
        }
        // the groups as pieces, each tagged with its group
        let mut keys: Vec<T> = Vec::new();
        let mut pieces: Vec<(Vec<Shape>, Option<usize>)> = Vec::new();
        let ng = groups.len();
        let mut g: usize = 0;
        while g < ng
            invariant
                ng == gs.len(),
                g <= ng,
                groups@.len() == ng - g,
                groups_view(groups@) == gs.skip(g as int),
                keys@.len() == g,
                forall|x: int| 0 <= x < g ==> #[trigger] keys@[x] == gs[x].0,
                crate::flat::refine::pieces_view(pieces@) == group_pieces(gs).take(g as int),
            decreases ng - g,
        {
            let ghost before = groups@;
            let (key, shapes) = groups.remove(0);
            proof {
                assert(groups_view(before)[0] == gs.skip(g as int)[0]);
                assert forall|x: int| 0 <= x < groups@.len() implies #[trigger] groups_view(groups@)[x] == gs.skip(g + 1)[x] by {
                    assert(groups@[x] == before[x + 1]);
                    assert(groups_view(before)[x + 1] == gs.skip(g as int)[x + 1]);
                }
                assert(groups_view(groups@) =~= gs.skip(g + 1));
            }
            keys.push(key);
            let ghost p0 = pieces@;
            pieces.push((shapes, Some(g)));
            proof {
                assert(crate::flat::refine::pieces_view(pieces@) =~= crate::flat::refine::pieces_view(p0).push((shapes_view(shapes), Some(g))));
                assert(group_pieces(gs).take(g + 1) =~= group_pieces(gs).take(g as int).push(group_pieces(gs)[g as int]));
            }
            g = g + 1;
        }
        assert(group_pieces(gs).take(ng as int) =~= group_pieces(gs));
        assert(crate::flat::refine::pieces_in_range(crate::flat::refine::pieces_view(pieces@))) by {
            assert forall|x: int| 0 <= x < pieces@.len() implies shapes_in_overlay_range(#[trigger] crate::flat::refine::pieces_view(pieces@)[x].0) by {
                assert(crate::flat::refine::pieces_view(pieces@)[x] == group_pieces(gs)[x]);
            }
        }
        let parts = convex_pieces(pieces);
        let ghost ps = spec_convex_pieces(group_pieces(gs));
        proof {
            assert forall|x: int| 0 <= x < group_pieces(gs).len() implies tag_below((#[trigger] group_pieces(gs)[x]).1, gs.len() as int) by {}
            lemma_convex_pieces_tags(group_pieces(gs), gs.len() as int);
            assert forall|x: int| 0 <= x < ps.len() implies (#[trigger] ps[x]).1 is Some by {
                lemma_convex_pieces_some(group_pieces(gs));
            }
        }
        let ghost kept0 = kept@;
        let mut parts = parts;
        let np = parts.len();
        let mut j: usize = 0;
        while j < np
            invariant
                np == ps.len(),
                j <= np,
                parts@.len() == np - j,
                forall|x: int| 0 <= x < parts@.len() ==> (#[trigger] parts@[x]).0@ == ps[x + j].0 && parts@[x].1 == ps[x + j].1,
                forall|x: int| 0 <= x < ps.len() ==> tag_below((#[trigger] ps[x]).1, gs.len() as int) && ps[x].1 is Some,
                keys@.len() == gs.len(),
                forall|x: int| 0 <= x < gs.len() ==> #[trigger] keys@[x] == gs[x].0,
                kept@.len() == kept0.len() + j,
                kept@.take(kept0.len() as int) == kept0,
                forall|x: int| kept0.len() <= x < kept@.len() ==> face_of_group(ps[x - kept0.len()], gs, #[trigger] kept@[x]),
            decreases np - j,
        {
            let ghost pb = parts@;
            let (contour, tag) = parts.remove(0);
            proof {
                assert(pb[0].0@ == ps[j as int].0);
                assert forall|x: int| 0 <= x < parts@.len() implies (#[trigger] parts@[x]).0@ == ps[x + j + 1].0 && parts@[x].1 == ps[x + j + 1].1 by {
                    assert(parts@[x] == pb[x + 1]);
                }
            }
            let t = match tag {
                Some(t) => t,
                None => 0,
            };
            let data = keys[t].clone();
            let ghost k0 = kept@;
            kept.push(Face { contour, data });
            proof {
                assert(kept@.take(kept0.len() as int) =~= k0.take(kept0.len() as int));
                assert forall|x: int| kept0.len() <= x < kept@.len() implies face_of_group(ps[x - kept0.len()], gs, #[trigger] kept@[x]) by {
                    if x < k0.len() {
                        assert(kept@[x] == k0[x]);
                    }
                }
            }
            j = j + 1;
        }
        self.faces = kept;
        self.index = index_faces(&self.faces);
    }
}

/// The convex pieces of tagged pieces are tagged.
proof fn lemma_convex_pieces_some(pieces: Seq<(ShapesView, Option<usize>)>)
    requires
        forall|i: int| 0 <= i < pieces.len() ==> (#[trigger] pieces[i]).1 is Some,
    ensures
        forall|i: int| 0 <= i < spec_convex_pieces(pieces).len() ==> (#[trigger] spec_convex_pieces(pieces)[i]).1 is Some,
    decreases pieces.len(),
{
    if pieces.len() > 0 {
        let init = pieces.drop_last();
        assert forall|i: int| 0 <= i < init.len() implies (#[trigger] init[i]).1 is Some by {
            assert(init[i] == pieces[i]);
        }
        lemma_convex_pieces_some(init);
        let rest = spec_convex_pieces(init);
        let all = spec_convex_pieces(pieces);
        assert(pieces[pieces.len() - 1].1 is Some);
        assert forall|i: int| 0 <= i < all.len() implies (#[trigger] all[i]).1 is Some by {
            if i < rest.len() {
                assert(all[i] == rest[i]);
            }
        }
    }
}

/// The bounding box of all points of the faces; `None` when they have no point.
pub open spec fn faces_box<T>(faces: Seq<Face<T>>) -> Option<([i32; 2], [i32; 2])> {
    let ps = contour_list_points(face_contours(faces));
    if ps.len() > 0 {
        Some(spec_contour_box(ps))
    } else {
        None
    }
}

impl<T> Tesselation<T> {
    /// The bounding box of all faces (see [`faces_box`]).
    pub fn envelope(&self) -> (r: Option<([i32; 2], [i32; 2])>)
        ensures
            r == faces_box(self.spec_faces()),
            r matches Some(b) ==> box_ordered(b),
    {
        let ghost faces = self.faces@;
        let mut pts: Vec<[i32; 2]> = Vec::new();
        let mut i: usize = 0;
        while i < self.faces.len()
            invariant
                faces == self.faces@,
                i <= faces.len(),
                pts@ == contour_list_points(face_contours(faces.take(i as int))),
            decreases faces.len() - i,
        {
            let c = &self.faces[i].contour;
            let ghost p0 = pts@;
            let mut j: usize = 0;
            while j < c.len()
                invariant
                    c@ == faces[i as int].contour@,
                    j <= c@.len(),
                    pts@ == p0 + c@.take(j as int),
                decreases c@.len() - j,
            {
                pts.push(c[j]);
                j = j + 1;
                assert(pts@ =~= p0 + c@.take(j as int));
            }
            assert(c@.take(j as int) =~= c@);
            assert(face_contours(faces.take(i + 1)).drop_last() =~= face_contours(faces.take(i as int)));
            i = i + 1;
        }
        assert(faces.take(i as int) =~= faces);
        if pts.len() > 0 {
            Some(contour_box(&pts))
        } else {
            None
        }
    }

    /// Rebuilds the index of the faces from scratch; the faces stay as they are.
    pub fn rebalance(&mut self)
        requires
            old(self).wf(),
        ensures
            final(self).wf(),
            final(self).spec_faces() == old(self).spec_faces(),
    {
        self.index = index_faces(&self.faces);
    }

    /// The same faces, with their data mapped by `f`.
    pub fn map_data<U, F: Fn(T) -> U>(self, f: F) -> (r: Tesselation<U>)
        requires
            forall|d: T| call_requires(f, (d,)),
        ensures
            r.wf(),
            r.spec_faces().len() == self.spec_faces().len(),
            forall|i: int| 0 <= i < self.spec_faces().len() ==> {
                &&& (#[trigger] r.spec_faces()[i]).contour == self.spec_faces()[i].contour
                &&& call_ensures(f, (self.spec_faces()[i].data,), r.spec_faces()[i].data)
            },
    {
        let ghost fs = self.faces@;
        let mut faces = self.faces;
        let mut out: Vec<Face<U>> = Vec::new();
        let n = faces.len();
        let mut k: usize = 0;
        assert(fs.skip(0) =~= fs);
        while k < n
            invariant
                n == fs.len(),
                k <= n,
                faces@ == fs.skip(k as int),
                forall|d: T| call_requires(f, (d,)),
                out@.len() == k,
                forall|i: int| 0 <= i < k ==> {
                    &&& (#[trigger] out@[i]).contour == fs[i].contour
                    &&& call_ensures(f, (fs[i].data,), out@[i].data)
                },
            decreases n - k,
        {
            let ghost before = faces@;
            let Face { contour, data } = faces.remove(0);
            proof {
                assert(before[0] == fs[k as int]);
                assert(faces@ =~= fs.skip(k + 1));
            }
            let d = f(data);
            out.push(Face { contour, data: d });
            k = k + 1;
        }
        let index = index_faces(&out);
        Tesselation { faces: out, index }
    }
}

/// The faces with points whose bounding box holds the point `v`.
pub open spec fn at_point<T>(v: [i32; 2]) -> spec_fn(Face<T>) -> bool {
    |g: Face<T>| g.contour@.len() > 0 && boxes_overlap(spec_contour_box(g.contour@), (v, v))
}

/// The candidates other than `face` from which a portal leads to `face`, in order.
pub open spec fn spec_adjacent_contours(face: Seq<[i32; 2]>, cs: Seq<Seq<[i32; 2]>>) -> Seq<Seq<[i32; 2]>>
    decreases cs.len(),
{
    if cs.len() == 0 {
        Seq::empty()
    } else {
        let rest = spec_adjacent_contours(face, cs.drop_last());
        let c = cs.last();
        if c != face && spec_contour_portal(c, face) is Some {
            rest.push(c)
        } else {
            rest
        }
    }
}

/// The candidates for the neighbours of the face with contour `face`: the faces near it
/// (see [`near`]), in order; none for a contour without points.
pub open spec fn adjacent_candidates<T>(faces: Seq<Face<T>>, face: Seq<[i32; 2]>) -> Seq<Seq<[i32; 2]>> {
    if face.len() > 0 {
        face_contours(faces.filter(near(spec_contour_box(face))))
    } else {
        Seq::empty()
    }
}

/// The index of the first face whose contour is `c`, if any.
pub open spec fn first_face_with<T>(faces: Seq<Face<T>>, c: Seq<[i32; 2]>) -> Option<int> {
    if exists|i: int| 0 <= i < faces.len() && faces[i].contour@ == c {
        Some(choose|i: int| 0 <= i < faces.len() && faces[i].contour@ == c && forall|j: int| 0 <= j < i ==> faces[j].contour@ != c)
    } else {
        None
    }
}

impl<T> Tesselation<T> {
    /// Copies of the contours of the faces that the mask marks and that have points (and,
    /// when `in_range`, lie in the coordinate range of `i_overlay`), in order; `p` says
    /// which faces these are.
    fn marked_contours(&self, mask: &Vec<bool>, in_range: bool, Ghost(p): Ghost<spec_fn(Face<T>) -> bool>) -> (r: Vec<Contour>)
        requires
            mask@.len() == self.spec_faces().len(),
            forall|i: int| 0 <= i < mask@.len() ==> (#[trigger] mask@[i] && self.spec_faces()[i].contour@.len() > 0 && (in_range
                ==> contour_in_range(self.spec_faces()[i].contour@))) == p(self.spec_faces()[i]),
        ensures
            contours_view(r@) == face_contours(self.spec_faces().filter(p)),
            in_range ==> forall|q: int| 0 <= q < r@.len() ==> contour_in_range(#[trigger] r@[q]@),
    {
        let ghost faces = self.faces@;
        let n = self.faces.len();
        let mut out: Vec<Contour> = Vec::new();
        let mut j: usize = 0;
        assert(faces.take(0) =~= Seq::<Face<T>>::empty());
        while j < n
            invariant
                n == faces.len(),
                faces == self.faces@,
                j <= n,
                mask@.len() == n,
                forall|i: int| 0 <= i < n ==> (#[trigger] mask@[i] && faces[i].contour@.len() > 0 && (in_range
                    ==> contour_in_range(faces[i].contour@))) == p(faces[i]),
                contours_view(out@) == face_contours(faces.take(j as int).filter(p)),
                in_range ==> forall|q: int| 0 <= q < out@.len() ==> contour_in_range(#[trigger] out@[q]@),
            decreases n - j,
        {
            let ghost o0 = out@;
            let g = &self.faces[j];
            let ghost t = faces.take(j + 1);
            proof {
                reveal(Seq::filter);
                assert(t.drop_last() =~= faces.take(j as int));
                assert(t.last() == faces[j as int]);
            }
            if mask[j] && g.contour.len() > 0 && (!in_range || contour_fits(&g.contour)) {
                let c = copy_contour(&g.contour);
                out.push(c);
                proof {
                    assert(contours_view(out@) =~= contours_view(o0).push(c@));
                    assert(t.filter(p) == t.drop_last().filter(p).push(t.last()));
                    assert(face_contours(t.filter(p)) =~= face_contours(faces.take(j as int).filter(p)).push(c@));
                    assert forall|q: int| in_range && 0 <= q < out@.len() implies contour_in_range(#[trigger] out@[q]@) by {
                        if q < o0.len() {
                            assert(out@[q] == o0[q]);
                        }
                    }
                }
            } else {
                proof {
                    assert(t.filter(p) == t.drop_last().filter(p));
                }
            }
            j = j + 1;
        }
        assert(faces.take(n as int) =~= faces);
        out
    }

    /// The contours of the faces whose bounding box holds the point `vertex` (see
    /// [`at_point`]), in order.
    pub fn vertex_adjacent_faces(&self, vertex: [i32; 2]) -> (r: Vec<Contour>)
        requires
            self.wf(),
        ensures
            contours_view(r@) == face_contours(self.spec_faces().filter(at_point(vertex))),
    {
        let mask = self.located(vertex, vertex);
        self.marked_contours(&mask, false, Ghost(at_point(vertex)))
    }

    /// The portal between the faces with contours `face_from` and `face_to`, as
    /// `[left, right]` (see [`spec_contour_portal`]).
    pub fn portal_between(&self, face_from: &Contour, face_to: &Contour) -> (r: Option<[[i32; 2]; 2]>)
        requires
            contour_in_range(face_from@),
            contour_in_range(face_to@),
        ensures
            r == spec_contour_portal(face_from@, face_to@),
    {
        contour_portal(face_from, face_to)
    }

    /// The contours of the faces adjacent to the face with contour `face`: among the faces
    /// near it (see [`adjacent_candidates`]), those other than itself from which a portal
    /// leads to it (see [`spec_adjacent_contours`]).
    pub fn face_adjacent_faces(&self, face: &Contour) -> (r: Vec<Contour>)
        requires
            self.wf(),
            contour_in_range(face@),
        ensures
            contours_view(r@) == spec_adjacent_contours(face@, adjacent_candidates(self.spec_faces(), face@)),
    {
        if face.len() == 0 {
            let none: Vec<Contour> = Vec::new();
            assert(contours_view(none@) =~= Seq::<Seq<[i32; 2]>>::empty());
            return none;
        }
        let (lo, hi) = contour_box(face);
        let mask = self.located(lo, hi);
        let cands = self.marked_contours(&mask, true, Ghost(near((lo, hi))));
        let ghost cs = contours_view(cands@);
        let mut cands = cands;
        let mut out: Vec<Contour> = Vec::new();
        let n = cands.len();
        let mut k: usize = 0;
        assert(cs.skip(0) =~= cs);
        assert(cs.take(0) =~= Seq::<Seq<[i32; 2]>>::empty());
        while k < n
            invariant
                n == cs.len(),
                k <= n,
                cands@.len() == n - k,
                contours_view(cands@) == cs.skip(k as int),
                forall|q: int| 0 <= q < cs.len() ==> contour_in_range(#[trigger] cs[q]),
                contour_in_range(face@),
                contours_view(out@) == spec_adjacent_contours(face@, cs.take(k as int)),
            decreases n - k,
        {
            let ghost before = cands@;
            let c = cands.remove(0);
            proof {
                assert(contours_view(before)[0] == cs.skip(k as int)[0]);
                assert(c@ == cs[k as int]);
                assert forall|i: int| 0 <= i < cands@.len() implies #[trigger] contours_view(cands@)[i] == cs.skip(k + 1)[i] by {
                    assert(cands@[i] == before[i + 1]);
                    assert(contours_view(before)[i + 1] == cs.skip(k as int)[i + 1]);
                }
                assert(contours_view(cands@) =~= cs.skip(k + 1));
                assert(cs.take(k + 1).drop_last() =~= cs.take(k as int));
                assert(cs.take(k + 1).last() == c@);
            }
            if !same_contour(&c, face) && contour_portal(&c, face).is_some() {
                let ghost o0 = out@;
                out.push(c);
                assert(contours_view(out@) =~= contours_view(o0).push(cs[k as int]));
            }
            k = k + 1;
        }
        assert(cs.take(k as int) =~= cs);
        out
    }
}

impl<T: GetLayerIds> Tesselation<T> {
    /// The layers of the first face whose contour is `face`; `None` when no face has that
    /// contour.
    pub fn face_layers(&self, face: &Contour) -> (r: Option<LayerIds>)
        requires
            forall|i: int| 0 <= i < self.spec_faces().len() ==> (#[trigger] self.spec_faces()[i]).data.layers_ok(),
        ensures
            r is None <==> first_face_with(self.spec_faces(), face@) is None,
            r matches Some(l) ==> l@ == self.spec_faces()[first_face_with(self.spec_faces(), face@).unwrap()].data.spec_layers(),
    {
        let ghost faces = self.faces@;
        let mut i: usize = 0;
        while i < self.faces.len()
            invariant
                faces == self.faces@,
                i <= faces.len(),
                forall|j: int| 0 <= j < i ==> faces[j].contour@ != face@,
                forall|j: int| 0 <= j < faces.len() ==> (#[trigger] faces[j]).data.layers_ok(),
            decreases faces.len() - i,
        {
            if same_contour(&self.faces[i].contour, face) {
                proof {
                    let c = choose|x: int| 0 <= x < faces.len() && faces[x].contour@ == face@ && forall|j: int| 0 <= j < x ==> faces[j].contour@ != face@;
                    if c < i {
                    } else if c > i {
                        assert(faces[i as int].contour@ == face@);
                    }
                    assert(c == i);
                }
                return Some(self.faces[i].data.layers());
            }
            i = i + 1;
        }
        None
    }
}

/// Each neighbour that [`spec_face_neighbours`] keeps is another contour, a portal leads
/// from it to the face, and its portal is the one from the face to it.
proof fn lemma_face_neighbours_portals(face: Seq<[i32; 2]>, cs: Seq<Seq<[i32; 2]>>)
    ensures
        forall|k: int| 0 <= k < spec_face_neighbours(face, cs).len() ==> {
            let e = #[trigger] spec_face_neighbours(face, cs)[k];
            &&& e.0 != face
            &&& spec_contour_portal(e.0, face) is Some
            &&& spec_contour_portal(face, e.0) == Some(e.1)
        },
    decreases cs.len(),
{
    if cs.len() > 0 {
        lemma_face_neighbours_portals(face, cs.drop_last());
        let rest = spec_face_neighbours(face, cs.drop_last());
        let all = spec_face_neighbours(face, cs);
        assert forall|k: int| 0 <= k < all.len() implies {
            let e = #[trigger] all[k];
            &&& e.0 != face
            &&& spec_contour_portal(e.0, face) is Some
            &&& spec_contour_portal(face, e.0) == Some(e.1)
        } by {
            if k < rest.len() {
                assert(all[k] == rest[k]);
            }
        }
    }
}

/// Where portals between the face and each candidate go both ways, the neighbours that
/// [`spec_face_neighbours`] keeps are the adjacent contours of [`spec_adjacent_contours`].
proof fn lemma_face_neighbours_adjacent(face: Seq<[i32; 2]>, cs: Seq<Seq<[i32; 2]>>)
    requires
        forall|c: Seq<[i32; 2]>| (#[trigger] spec_contour_portal(face, c)) is Some <==> spec_contour_portal(c, face) is Some,
    ensures
        spec_face_neighbours(face, cs).len() == spec_adjacent_contours(face, cs).len(),
        forall|k: int| 0 <= k < spec_face_neighbours(face, cs).len() ==> (#[trigger] spec_face_neighbours(face, cs)[k]).0
            == spec_adjacent_contours(face, cs)[k],
    decreases cs.len(),
{
    if cs.len() > 0 {
        lemma_face_neighbours_adjacent(face, cs.drop_last());
        let c = cs.last();
        assert(spec_contour_portal(face, c) is Some <==> spec_contour_portal(c, face) is Some);
        let rest = spec_face_neighbours(face, cs.drop_last());
        let all = spec_face_neighbours(face, cs);
        let ra = spec_adjacent_contours(face, cs.drop_last());
        let aa = spec_adjacent_contours(face, cs);
        assert forall|k: int| 0 <= k < all.len() implies (#[trigger] all[k]).0 == aa[k] by {
            if k < rest.len() {
                assert(all[k] == rest[k]);
                assert(aa[k] == ra[k]);
            }
        }
    }
}

/// In the frozen form of a tesselation, where portals between face `f` and every other
/// contour go both ways, the neighbours of `f` are, in order, the faces whose contours
/// [`Tesselation::face_adjacent_faces`] gives for it: each neighbour is numbered as a face
/// with that contour, and the positions of its portal ends are the portal that
/// [`Tesselation::portal_between`] gives from `f` to it.
pub proof fn lemma_freeze_adjacency<T: Clone>(
    faces: Seq<Face<T>>,
    t: FrozenTesselation<i32, T>,
    cs: Seq<Vec<[i32; 2]>>,
    ds: Seq<T>,
    ns: Seq<Vec<(Vec<[i32; 2]>, [[i32; 2]; 2])>>,
    f: int,
)
    requires
        frozen_inputs(faces, cs, ds, ns),
        freezes(t, cs, ds, ns),
        0 <= f < faces.len(),
        contour_in_range(faces[f].contour@),
        forall|c: Seq<[i32; 2]>| (#[trigger] spec_contour_portal(faces[f].contour@, c)) is Some
            <==> spec_contour_portal(c, faces[f].contour@) is Some,
    ensures
        ({
            let adj = spec_adjacent_contours(faces[f].contour@, adjacent_candidates(faces, faces[f].contour@));
            let nb = t.spec_faces()[f].neighbours@;
            &&& nb.len() == adj.len()
            &&& forall|k: int| 0 <= k < nb.len() ==> {
                let n = #[trigger] nb[k];
                &&& n.face_id < faces.len()
                &&& faces[n.face_id as int].contour@ == adj[k]
                &&& spec_contour_portal(faces[f].contour@, adj[k]) == Some(
                    [t.spec_vertices()[n.portal_lhs as int], t.spec_vertices()[n.portal_rhs as int]],
                )
            }
        }),
{
    let face = faces[f].contour@;
    let cands = adjacent_candidates(faces, face);
    let adj = spec_adjacent_contours(face, cands);
    let nb = t.spec_faces()[f].neighbours@;
    let ent = ns[f]@;
    assert(cs[f]@ == face);
    assert(neighbours_view(ent) == spec_neighbours_of(faces, f));
    assert(frozen_face(t.spec_faces()[f], t.spec_vertices(), cs, cs[f]@, ds[f], ent));
    if face.len() == 0 {
        assert(spec_neighbours_of(faces, f).len() == 0);
        assert(adj.len() == 0);
    } else {
        assert(freezable(faces[f]));
        lemma_face_neighbours_portals(face, cands);
        lemma_face_neighbours_adjacent(face, cands);
        let sn = spec_face_neighbours(face, cands);
        assert(spec_neighbours_of(faces, f) == sn);
        assert forall|k: int| 0 <= k < nb.len() implies {
            let n = #[trigger] nb[k];
            &&& n.face_id < faces.len()
            &&& faces[n.face_id as int].contour@ == adj[k]
            &&& spec_contour_portal(face, adj[k]) == Some([t.spec_vertices()[n.portal_lhs as int], t.spec_vertices()[n.portal_rhs as int]])
        } by {
            let n = nb[k];
            assert(neighbours_view(ent)[k] == (ent[k].0@, ent[k].1));
            assert(sn[k] == (ent[k].0@, ent[k].1));
            assert(cs[n.face_id as int]@ == ent[k].0@);
            assert(faces[n.face_id as int].contour@ == cs[n.face_id as int]@);
        }
    }
}


/// A portal found by [`first_portal`] is that of a neighbour that is face `to`.
proof fn lemma_first_portal_at(ns: Seq<FrozenFaceNeighbour>, to: u32)
    ensures
        first_portal(ns, to) matches Some(p) ==> exists|k: int| 0 <= k < ns.len() && #[trigger] ns[k].face_id == to
            && ns[k].portal_lhs == p[0] && ns[k].portal_rhs == p[1],
    decreases ns.len(),
{
    if ns.len() > 0 && ns[0].face_id != to {
        lemma_first_portal_at(ns.drop_first(), to);
        if let Some(p) = first_portal(ns, to) {
            let k = choose|k: int| 0 <= k < ns.drop_first().len() && #[trigger] ns.drop_first()[k].face_id == to
                && ns.drop_first()[k].portal_lhs == p[0] && ns.drop_first()[k].portal_rhs == p[1];
            assert(ns[k + 1] == ns.drop_first()[k]);
        }
    } else if ns.len() > 0 {
        assert(ns[0].face_id == to);
    }
}

/// Freezing keeps the adjacency and the portals of a tesselation whose face contours are
/// all different: where portals between face `f` and every other contour go both ways,
/// the faces adjacent to `f` in the frozen tesselation are, in order, the faces whose
/// contours [`Tesselation::face_adjacent_faces`] gives for `f`; there is a frozen portal
/// from `f` to a face `g` exactly when the contour of `g` is among them; and its two
/// vertices are at the two points of the portal that [`Tesselation::portal_between`]
/// gives between the contours of `f` and `g`.
pub proof fn lemma_freeze_agrees<T: GetLayerIds + Clone>(tess: &Tesselation<T>, r: &FrozenTesselation<i32, T>, f: u32)
    requires
        exists|cs: Seq<Vec<[i32; 2]>>, ds: Seq<T>, ns: Seq<Vec<(Vec<[i32; 2]>, [[i32; 2]; 2])>>|
            #[trigger] frozen_inputs(tess.spec_faces(), cs, ds, ns) && freezes(*r, cs, ds, ns),
        f < tess.spec_faces().len(),
        contour_in_range(tess.spec_faces()[f as int].contour@),
        forall|i: int, j: int| 0 <= i < j < tess.spec_faces().len() ==> tess.spec_faces()[i].contour@ != tess.spec_faces()[j].contour@,
        forall|c: Seq<[i32; 2]>| (#[trigger] spec_contour_portal(tess.spec_faces()[f as int].contour@, c)) is Some
            <==> spec_contour_portal(c, tess.spec_faces()[f as int].contour@) is Some,
    ensures
        ({
            let faces = tess.spec_faces();
            let cf = faces[f as int].contour@;
            let adj = spec_adjacent_contours(cf, adjacent_candidates(faces, cf));
            let ids = r.spec_face_adjacent_faces(f);
            &&& ids.len() == adj.len()
            &&& forall|k: int| 0 <= k < ids.len() ==> #[trigger] ids[k] < faces.len() && faces[ids[k] as int].contour@ == adj[k]
            &&& forall|g: u32| g < faces.len() ==> (#[trigger] r.spec_portal_between(f, g) is Some <==> adj.contains(faces[g as int].contour@))
            &&& forall|g: u32| #[trigger] r.spec_portal_between(f, g) matches Some(p) ==> g < faces.len() && spec_contour_portal(
                cf,
                faces[g as int].contour@,
            ) == Some([r.spec_vertices()[p[0] as int], r.spec_vertices()[p[1] as int]])
        }),
{
    let faces = tess.spec_faces();
    let cf = faces[f as int].contour@;
    let adj = spec_adjacent_contours(cf, adjacent_candidates(faces, cf));
    let (cs, ds, ns) = choose|cs: Seq<Vec<[i32; 2]>>, ds: Seq<T>, ns: Seq<Vec<(Vec<[i32; 2]>, [[i32; 2]; 2])>>|
        #[trigger] frozen_inputs(faces, cs, ds, ns) && freezes(*r, cs, ds, ns);
    lemma_freeze_adjacency(faces, *r, cs, ds, ns, f as int);
    let nb = r.spec_faces()[f as int].neighbours@;
    let ids = r.spec_face_adjacent_faces(f);
    assert(r.spec_faces().len() == faces.len());
    assert forall|k: int| 0 <= k < ids.len() implies #[trigger] ids[k] < faces.len() && faces[ids[k] as int].contour@ == adj[k] by {
        assert(ids[k] == nb[k].face_id);
    }
    assert forall|g: u32| (#[trigger] r.spec_portal_between(f, g)) is Some implies g < faces.len() && spec_contour_portal(
        cf,
        faces[g as int].contour@,
    ) == Some([r.spec_vertices()[r.spec_portal_between(f, g).unwrap()[0] as int], r.spec_vertices()[r.spec_portal_between(f, g).unwrap()[1] as int]]) by {
        lemma_first_portal_at(nb, g);
    }
    assert forall|g: u32| g < faces.len() implies (#[trigger] r.spec_portal_between(f, g) is Some <==> adj.contains(faces[g as int].contour@)) by {
        lemma_first_portal_at(nb, g);
        lemma_first_portal_some(nb, g);
        if r.spec_portal_between(f, g) is Some {
            let k = choose|k: int| 0 <= k < nb.len() && #[trigger] nb[k].face_id == g
                && nb[k].portal_lhs == r.spec_portal_between(f, g).unwrap()[0] && nb[k].portal_rhs == r.spec_portal_between(f, g).unwrap()[1];
            assert(adj[k] == faces[g as int].contour@);
        }
        if adj.contains(faces[g as int].contour@) {
            let k = choose|k: int| 0 <= k < adj.len() && adj[k] == faces[g as int].contour@;
            let h = nb[k].face_id;
            assert(faces[h as int].contour@ == adj[k]);
            if h < g {
                assert(faces[h as int].contour@ != faces[g as int].contour@);
            } else if g < h {
                assert(faces[g as int].contour@ != faces[h as int].contour@);
            }
            assert(ids[k] == g);
        }
    }
}

} // verus!
