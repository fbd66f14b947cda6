//! The [simple stupid funnel algorithm](https://digestingduck.blogspot.com/2010/03/simple-stupid-funnel-algorithm.html).
//!
//! ## Well-formed portals
//!
//! Consecutive portals, and the current portal formed by `[self.lhs, self.rhs]` and the
//! portal being passed, must not intersect anywhere but at their endpoints; otherwise the
//! result is of no use.
//!
//! When routing across the faces of a subdivision of the plane, passing the edges of a
//! single triangulation (or of a 2D polygonal complex with convex faces) yields valid
//! funnels.
//!
//! Points have `i32` coordinates; orientations are computed exactly (see
//! [`crate::math::triarea2`]) and two points are the same apex when each coordinate differs
//! by at most `epsilon` (`approx::AbsDiffEq`).

use vstd::prelude::*;

use crate::math::{lemma_triarea2_symmetries, spec_triarea2, triarea2};

verus! {

/// A funnel: the current apex, the left and right edges of the funnel (each with the
/// index of the portal just after the one it was taken from), and the portals still to
/// pass, each given as `[left, right]`.
#[derive(Debug, Default, PartialEq, Eq, PartialOrd, Ord, Hash)]
pub struct SimpleFunnel<K, D = ()> {
    pub apex: ([K; 2], D),
    pub lhs: ([K; 2], D, usize),
    pub rhs: ([K; 2], D, usize),
    pub past_portals: Vec<[([K; 2], D); 2]>,
}

/// A funnel together with the tolerance with which apices are compared.
pub struct SimpleFunnelWithEpsilon<'a, K, D = ()> {
    pub inner: &'a mut SimpleFunnel<K, D>,
    pub epsilon: K,
}

/// A point with its data.
pub type FPoint<D> = ([i32; 2], D);

/// A funnel side: a point, its data, and the index of the portal after it.
pub type FSide<D> = ([i32; 2], D, usize);

/// A funnel as a plain value: apex, left side, right side, portals.
pub type FState<D> = (FPoint<D>, FSide<D>, FSide<D>, Seq<[FPoint<D>; 2]>);

/// The state of a funnel.
pub open spec fn funnel_state<D>(f: SimpleFunnel<i32, D>) -> FState<D> {
    (f.apex, f.lhs, f.rhs, f.past_portals@)
}

/// The absolute value of an integer.
pub open spec fn abs(x: int) -> int {
    if x < 0 { -x } else { x }
}

/// Whether two points are equal up to `eps` in each coordinate.
pub open spec fn points_close(a: [i32; 2], b: [i32; 2], eps: int) -> bool {
    abs(a[0] - b[0]) <= eps && abs(a[1] - b[1]) <= eps
}

/// The side test: strictly positive area when `flip`, strictly negative otherwise.
pub open spec fn side_test(v: int, flip: bool) -> bool {
    if flip { v > 0 } else { v < 0 }
}

/// One update of the funnel side `bhs` against the point `bportal` of portal `id`, `ahs`
/// being the other side. Either the funnel is tightened (`bhs` moves to `bportal`), or
/// `bportal` crosses over `ahs`, which then becomes the new apex and whose portal index is
/// returned; otherwise nothing changes.
pub open spec fn spec_update<D>(
    apex: FPoint<D>,
    ahs: FSide<D>,
    bhs: FSide<D>,
    id: int,
    bportal: FPoint<D>,
    flip: bool,
    eps: int,
) -> (FPoint<D>, FSide<D>, FSide<D>, Option<usize>) {
    if !side_test(spec_triarea2(apex.0, bhs.0, bportal.0), flip) {
        if points_close(apex.0, bhs.0, eps) || side_test(spec_triarea2(apex.0, ahs.0, bportal.0), flip) {
            // tighten the funnel
            (apex, ahs, (bportal.0, bportal.1, (id + 1) as usize), None)
        } else {
            // B over A: A becomes the apex, the scan restarts from A's portal
            ((ahs.0, ahs.1), (ahs.0, ahs.1, 0), (ahs.0, ahs.1, 0), Some(ahs.2))
        }
    } else {
        (apex, ahs, bhs, None)
    }
}

/// Passing portal `i`: first the right side, then the left side.
pub open spec fn spec_step<D>(st: FState<D>, i: int, eps: int) -> (FState<D>, Option<usize>) {
    let portal = st.3[i];
    let (apex1, l1, r1, o1) = spec_update(st.0, st.1, st.2, i, portal[1], false, eps);
    if o1 is Some {
        ((apex1, l1, r1, st.3), o1)
    } else {
        let (apex2, r2, l2, o2) = spec_update(apex1, r1, l1, i, portal[0], true, eps);
        ((apex2, l2, r2, st.3), o2)
    }
}

/// Passing the portals from `i` on, until an apex is found.
pub open spec fn spec_scan<D>(st: FState<D>, i: int, eps: int) -> (FState<D>, Option<usize>)
    decreases st.3.len() - i,
{
    if i < 0 || i >= st.3.len() {
        (st, None)
    } else {
        let (st1, o) = spec_step(st, i, eps);
        if o is Some {
            (st1, o)
        } else {
            spec_scan((st1.0, st1.1, st1.2, st.3), i + 1, eps)
        }
    }
}

/// One run of the funnel: the next apex of the path, if any, and the new state. When an
/// apex is found, the portals before the one it was taken from are dropped.
pub open spec fn spec_next<D>(st: FState<D>, eps: int) -> (FState<D>, Option<FPoint<D>>) {
    let (st1, o) = spec_scan(st, 0, eps);
    match o {
        Some(idx) => ((st1.0, st1.1, st1.2, st1.3.skip(idx as int)), Some(st1.0)),
        None => (st1, None),
    }
}

/// The invariant of a funnel between two runs: both sides are at the apex, with index 0,
/// or both come from passed portals.
pub open spec fn funnel_wf<D>(st: FState<D>) -> bool {
    &&& st.3.len() <= usize::MAX
    &&& st.1.2 <= st.3.len()
    &&& st.2.2 <= st.3.len()
    &&& (st.1.2 == 0 <==> st.2.2 == 0)
    &&& (st.1.2 == 0 ==> st.1.0 == st.0.0)
    &&& (st.2.2 == 0 ==> st.2.0 == st.0.0)
}

/// The points of a funnel: apex, sides, and the ends of the portals.
pub open spec fn funnel_points<D>(st: FState<D>) -> Set<[i32; 2]> {
    Set::new(|p: [i32; 2]|
        p == st.0.0 || p == st.1.0 || p == st.2.0 || exists|i: int, k: int|
            0 <= i < st.3.len() && 0 <= k < 2 && #[trigger] st.3[i][k].0 == p)
}

/// The points of a funnel with their data: apex, sides, and the ends of the portals.
pub open spec fn funnel_fpoints<D>(st: FState<D>) -> Set<FPoint<D>> {
    Set::new(|p: FPoint<D>|
        p == st.0 || p == (st.1.0, st.1.1) || p == (st.2.0, st.2.1) || exists|i: int, k: int|
            0 <= i < st.3.len() && 0 <= k < 2 && #[trigger] st.3[i][k] == p)
}

/// Whether all coordinates of the points of `s` differ by at most `i32::MAX`.
pub open spec fn within_span(s: Set<[i32; 2]>) -> bool {
    forall|p: [i32; 2], q: [i32; 2]| #![trigger s.contains(p), s.contains(q)]
        s.contains(p) && s.contains(q) ==> abs(p[0] - q[0]) <= i32::MAX && abs(p[1] - q[1]) <= i32::MAX
}

/// What a run of the funnel may be started on: a well-formed funnel whose points are
/// close enough that their coordinate differences fit in an `i32`.
pub open spec fn funnel_ready<D>(st: FState<D>, eps: int) -> bool {
    funnel_wf(st) && within_span(funnel_points(st)) && eps >= 0
}


/// What holds of the state while the portals are scanned from `i` on, `st0` being the
/// state the run started from.
pub open spec fn scan_inv<D>(st0: FState<D>, st: FState<D>, i: int) -> bool {
    &&& st.3 == st0.3
    &&& st.3.len() <= usize::MAX
    &&& 0 <= i <= st.3.len()
    &&& funnel_points(st0).contains(st.0.0)
    &&& funnel_points(st0).contains(st.1.0)
    &&& funnel_points(st0).contains(st.2.0)
    &&& funnel_fpoints(st0).contains(st.0)
    &&& funnel_fpoints(st0).contains((st.1.0, st.1.1))
    &&& funnel_fpoints(st0).contains((st.2.0, st.2.1))
    &&& st.1.2 <= st.3.len()
    &&& st.2.2 <= st.3.len()
    &&& i == 0 ==> funnel_wf(st)
    &&& i >= 1 ==> st.1.2 >= 1 && st.2.2 >= 1
}

/// The ends of portal `i` are points of the funnel.
proof fn lemma_portal_points<D>(st: FState<D>, i: int)
    requires
        0 <= i < st.3.len(),
    ensures
        funnel_points(st).contains(st.3[i][0].0),
        funnel_points(st).contains(st.3[i][1].0),
        funnel_fpoints(st).contains(st.3[i][0]),
        funnel_fpoints(st).contains(st.3[i][1]),
{
    assert(st.3[i][0].0 == st.3[i][0].0);
    assert(st.3[i][1].0 == st.3[i][1].0);
    assert(st.3[i][0] == st.3[i][0]);
    assert(st.3[i][1] == st.3[i][1]);
}

/// Passing one portal keeps the scan invariant, or finds an apex taken from a portal
/// index of at least 1, whose point is a point of the funnel.
proof fn lemma_step<D>(st0: FState<D>, st: FState<D>, i: int, eps: int)
    requires
        scan_inv(st0, st, i),
        i < st.3.len(),
        eps >= 0,
    ensures
        ({
            let (st1, o) = spec_step(st, i, eps);
            &&& o is None ==> scan_inv(st0, st1, i + 1)
            &&& o matches Some(k) ==> {
                &&& 1 <= k <= st.3.len()
                &&& st1.3 == st0.3
                &&& funnel_points(st0).contains(st1.0.0)
                &&& funnel_fpoints(st0).contains(st1.0)
                &&& st1.1 == (st1.0.0, st1.0.1, 0usize)
                &&& st1.2 == (st1.0.0, st1.0.1, 0usize)
            }
        }),
{
    let portal = st.3[i];
    lemma_portal_points(st0, i);
    lemma_triarea2_symmetries(st.0.0, st.0.0, portal[1].0);
    lemma_triarea2_symmetries(st.0.0, st.0.0, portal[0].0);
    let (apex1, l1, r1, o1) = spec_update(st.0, st.1, st.2, i, portal[1], false, eps);
    if st.2.2 == 0 {
        assert(st.2.0 == st.0.0);
        assert(points_close(st.0.0, st.2.0, eps));
    }
    if st.1.2 == 0 {
        assert(st.1.0 == st.0.0);
        assert(points_close(st.0.0, st.1.0, eps));
    }
    if o1 is None {
        assert(apex1 == st.0);
        assert(l1 == st.1);
        assert(r1.2 >= 1);
        let (apex2, r2, l2, o2) = spec_update(apex1, r1, l1, i, portal[0], true, eps);
    }
}

/// Scanning the portals from `i` on ends with a well-formed state, or finds an apex.
proof fn lemma_scan<D>(st0: FState<D>, st: FState<D>, i: int, eps: int)
    requires
        scan_inv(st0, st, i),
        eps >= 0,
    ensures
        ({
            let (st1, o) = spec_scan(st, i, eps);
            &&& st1.3 == st0.3
            &&& funnel_points(st0).contains(st1.0.0)
            &&& funnel_points(st0).contains(st1.1.0)
            &&& funnel_points(st0).contains(st1.2.0)
            &&& funnel_fpoints(st0).contains(st1.0)
            &&& funnel_fpoints(st0).contains((st1.1.0, st1.1.1))
            &&& funnel_fpoints(st0).contains((st1.2.0, st1.2.1))
            &&& o is None ==> funnel_wf(st1)
            &&& o matches Some(k) ==> {
                &&& 1 <= k <= st0.3.len()
                &&& st1.1 == (st1.0.0, st1.0.1, 0usize)
                &&& st1.2 == (st1.0.0, st1.0.1, 0usize)
            }
        }),
    decreases st.3.len() - i,
{
    if i < st.3.len() {
        lemma_step(st0, st, i, eps);
        let (st1, o) = spec_step(st, i, eps);
        if o is None {
            lemma_scan(st0, (st1.0, st1.1, st1.2, st.3), i + 1, eps);
        }
    }
}

/// After a run of a well-formed funnel, the funnel is well formed again (and ready again if
/// it was ready), its points are among the points it had, and when an apex was found at
/// least one portal was passed for good.
pub proof fn lemma_next<D>(st: FState<D>, eps: int)
    requires
        funnel_wf(st),
        eps >= 0,
    ensures
        ({
            let (st1, o) = spec_next(st, eps);
            &&& funnel_wf(st1)
            &&& funnel_ready(st, eps) ==> funnel_ready(st1, eps)
            &&& funnel_points(st1).subset_of(funnel_points(st))
            &&& funnel_fpoints(st1).subset_of(funnel_fpoints(st))
            &&& o is Some ==> st1.3.len() < st.3.len()
            &&& o matches Some(p) ==> funnel_fpoints(st).contains(p)
            &&& o matches Some(p) ==> funnel_points(st).contains(p.0)
            &&& o is None ==> st1.3 == st.3
        }),
{
    lemma_scan(st, st, 0, eps);
    let (st1, o) = spec_scan(st, 0, eps);
    let (st2, o2) = spec_next(st, eps);
    assert forall|p: [i32; 2]| funnel_points(st2).contains(p) implies funnel_points(st).contains(p) by {
        if p != st2.0.0 && p != st2.1.0 && p != st2.2.0 {
            let (i, k) = choose|i: int, k: int| 0 <= i < st2.3.len() && 0 <= k < 2 && #[trigger] st2.3[i][k].0 == p;
            match o {
                Some(idx) => {
                    assert(st2.3[i] == st.3[i + idx]);
                    assert(st.3[i + idx][k].0 == p);
                },
                None => {
                    assert(st.3[i][k].0 == p);
                },
            }
        }
    }
    assert forall|p: FPoint<D>| funnel_fpoints(st2).contains(p) implies funnel_fpoints(st).contains(p) by {
        if p != st2.0 && p != (st2.1.0, st2.1.1) && p != (st2.2.0, st2.2.1) {
            let (i, k) = choose|i: int, k: int| 0 <= i < st2.3.len() && 0 <= k < 2 && #[trigger] st2.3[i][k] == p;
            match o {
                Some(idx) => {
                    assert(st2.3[i] == st.3[i + idx]);
                    assert(st.3[i + idx][k] == p);
                },
                None => {
                    assert(st.3[i][k] == p);
                },
            }
        }
    }
}

/// Runs a ready funnel until a run finds no apex: the final state, and all the apices
/// found, in order.
pub open spec fn spec_run<D>(st: FState<D>, eps: int) -> (FState<D>, Seq<FPoint<D>>)
    decreases st.3.len(),
    when funnel_wf(st) && eps >= 0
{
    let (st1, o) = spec_next(st, eps);
    proof {
        lemma_next(st, eps);
    }
    match o {
        Some(p) => {
            let (st2, ps) = spec_run(st1, eps);
            (st2, seq![p] + ps)
        },
        None => (st1, Seq::empty()),
    }
}

/// A well-formed funnel, whatever its coordinates, yields at most one apex per portal
/// before it yields none, and every apex it yields is one of its points: running it always
/// ends.
pub proof fn lemma_run_bounded<D>(st: FState<D>, eps: int)
    requires
        funnel_wf(st),
        eps >= 0,
    ensures
        spec_run(st, eps).1.len() <= st.3.len(),
        forall|i: int| 0 <= i < spec_run(st, eps).1.len() ==> funnel_points(st).contains(#[trigger] spec_run(st, eps).1[i].0),
        forall|i: int| 0 <= i < spec_run(st, eps).1.len() ==> funnel_fpoints(st).contains(#[trigger] spec_run(st, eps).1[i]),
        funnel_wf(spec_run(st, eps).0),
        funnel_ready(st, eps) ==> funnel_ready(spec_run(st, eps).0, eps),
        funnel_points(spec_run(st, eps).0).subset_of(funnel_points(st)),
        funnel_fpoints(spec_run(st, eps).0).subset_of(funnel_fpoints(st)),
        spec_run(st, eps).0.3.len() <= st.3.len(),
    decreases st.3.len(),
{
    lemma_next(st, eps);
    let (st1, o) = spec_next(st, eps);
    if o is Some {
        lemma_run_bounded(st1, eps);
        let ps = spec_run(st1, eps).1;
        assert forall|i: int| 0 <= i < spec_run(st, eps).1.len() implies funnel_fpoints(st).contains(#[trigger] spec_run(st, eps).1[i]) by {
            if i > 0 {
                assert(spec_run(st, eps).1[i] == ps[i - 1]);
                assert(funnel_fpoints(st1).contains(ps[i - 1]));
            }
        }
        assert forall|i: int| 0 <= i < spec_run(st, eps).1.len() implies funnel_points(st).contains(#[trigger] spec_run(st, eps).1[i].0) by {
            if i > 0 {
                assert(spec_run(st, eps).1[i] == ps[i - 1]);
                assert(funnel_points(st1).contains(ps[i - 1].0));
            }
        }
    }
}

/// `AbsDiffEq::abs_diff_eq` of `approx`, on the coordinates of two points: each
/// difference `a[k] - b[k]` is computed in `i32` and compared in absolute value with
/// `epsilon`; the second coordinate is compared only when the first passes.
#[verifier::external_body]
fn points_abs_diff_eq(a: &[i32; 2], b: &[i32; 2], epsilon: i32) -> (r: bool)
    requires
        abs(a[0] - b[0]) <= i32::MAX,
        abs(a[0] - b[0]) <= epsilon ==> abs(a[1] - b[1]) <= i32::MAX,
    ensures
        r <==> points_close(*a, *b, epsilon as int),
{
    approx::AbsDiffEq::abs_diff_eq(&a[..], &b[..], epsilon)
}

/// One update of a funnel side (see [`spec_update`]).
fn update_vertex<D: Copy>(
    apex: FPoint<D>,
    ahs: FSide<D>,
    bhs: FSide<D>,
    id: usize,
    bportal: FPoint<D>,
    flip: bool,
    eps: i32,
) -> (r: (FPoint<D>, FSide<D>, FSide<D>, Option<usize>))
    requires
        id < usize::MAX,
        abs(apex.0[0] - bhs.0[0]) <= i32::MAX,
        abs(apex.0[1] - bhs.0[1]) <= i32::MAX,
    ensures
        r == spec_update(apex, ahs, bhs, id as int, bportal, flip, eps as int),
{
    let t = triarea2(&apex.0, &bhs.0, &bportal.0);
    let c = if flip { t > 0 } else { t < 0 };
    if !c {
        let close = points_abs_diff_eq(&apex.0, &bhs.0, eps);
        let c2 = if close {
            true
        } else {
            let t2 = triarea2(&apex.0, &ahs.0, &bportal.0);
            if flip { t2 > 0 } else { t2 < 0 }
        };
        if c2 {
            (apex, ahs, (bportal.0, bportal.1, id + 1), None)
        } else {
            let new_apex = (ahs.0, ahs.1);
            (new_apex, (ahs.0, ahs.1, 0), (ahs.0, ahs.1, 0), Some(ahs.2))
        }
    } else {
        (apex, ahs, bhs, None)
    }
}

impl<D: Copy> Clone for SimpleFunnel<i32, D> {
    fn clone(&self) -> (r: Self)
        ensures
            r.apex == self.apex,
            r.lhs == self.lhs,
            r.rhs == self.rhs,
            r.past_portals@ == self.past_portals@,
    {
        let mut past_portals: Vec<[FPoint<D>; 2]> = Vec::new();
        let mut k: usize = 0;
        while k < self.past_portals.len()
            invariant
                k <= self.past_portals@.len(),
                past_portals@ == self.past_portals@.take(k as int),
            decreases self.past_portals@.len() - k,
        {
            past_portals.push(self.past_portals[k]);
            k = k + 1;
            assert(past_portals@ =~= self.past_portals@.take(k as int));
        }
        assert(past_portals@ =~= self.past_portals@);
        SimpleFunnel { apex: self.apex, lhs: self.lhs, rhs: self.rhs, past_portals }
    }
}

impl<D: Copy> SimpleFunnel<i32, D> {
    /// A funnel with nothing passed yet, starting at `apex`.
    pub fn new(apex: ([i32; 2], D)) -> (r: Self)
        ensures
            r.apex == apex,
            r.lhs == (apex.0, apex.1, 0usize),
            r.rhs == (apex.0, apex.1, 0usize),
            r.past_portals@ == Seq::<[FPoint<D>; 2]>::empty(),
            funnel_wf(funnel_state(r)),
    {
        Self {
            apex: apex,
            lhs: (apex.0, apex.1, 0),
            rhs: (apex.0, apex.1, 0),
            past_portals: Vec::new(),
        }
    }

    /// The same funnel, with the tolerance `epsilon` for comparing apices.
    pub fn with_epsilon(&mut self, epsilon: i32) -> (r: SimpleFunnelWithEpsilon<'_, i32, D>)
        ensures
            *r.inner == *old(self),
            r.epsilon == epsilon,
            *final(self) == *final(r.inner),
    {
        SimpleFunnelWithEpsilon { inner: self, epsilon }
    }


    /// Runs the funnel over the portals: returns the next apex of the path, if any. When
    /// one is found, the portals before the one it came from are dropped.
    pub fn next_apex(&mut self, epsilon: i32) -> (r: Option<FPoint<D>>)
        requires
            funnel_ready(funnel_state(*old(self)), epsilon as int),
        ensures
            (funnel_state(*final(self)), r) == spec_next(funnel_state(*old(self)), epsilon as int),
            funnel_ready(funnel_state(*final(self)), epsilon as int),
            r is Some ==> final(self).past_portals@.len() < old(self).past_portals@.len(),
    {
        let ghost st0 = funnel_state(*self);
        let ghost eps = epsilon as int;
        proof {
            lemma_next(st0, eps);
        }
        let mut apex = self.apex;
        let mut lhs = self.lhs;
        let mut rhs = self.rhs;
        let mut ret_idx: Option<usize> = None;
        let n = self.past_portals.len();
        let mut i: usize = 0;
        while i < n && ret_idx.is_none()
            invariant
                n == self.past_portals@.len(),
                st0 == funnel_state(*self),
                funnel_ready(st0, eps),
                eps == epsilon,
                0 <= i <= n,
                ret_idx is None ==> scan_inv(st0, (apex, lhs, rhs, st0.3), i as int),
                ret_idx is None ==> spec_scan((apex, lhs, rhs, st0.3), i as int, eps) == spec_scan(st0, 0, eps),
                ret_idx is Some ==> ((apex, lhs, rhs, st0.3), ret_idx) == spec_scan(st0, 0, eps),
            decreases n - i,
        {
            let portal = self.past_portals[i];
            proof {
                lemma_step(st0, (apex, lhs, rhs, st0.3), i as int, eps);
                lemma_portal_points(st0, i as int);
            }
            let (a1, l1, r1, o1) = update_vertex(apex, lhs, rhs, i, portal[1], false, epsilon);
            if o1.is_some() {
                apex = a1;
                lhs = l1;
                rhs = r1;
                ret_idx = o1;
            } else {
                assert(funnel_points(st0).contains(l1.0));
                let (a2, r2, l2, o2) = update_vertex(a1, r1, l1, i, portal[0], true, epsilon);
                apex = a2;
                lhs = l2;
                rhs = r2;
                ret_idx = o2;
            }
            i = i + 1;
        }
        proof {
            lemma_scan(st0, st0, 0, eps);
        }
        match ret_idx {
            Some(idx) => {
                let rest = self.past_portals.split_off(idx);
                self.past_portals = rest;
                self.apex = apex;
                self.lhs = lhs;
                self.rhs = rhs;
                assert(self.past_portals@ =~= st0.3.skip(idx as int));
                Some(apex)
            },
            None => {
                self.apex = apex;
                self.lhs = lhs;
                self.rhs = rhs;
                None
            },
        }
    }

    /// Runs the funnel until a run finds no apex, and returns the apices found.
    pub fn collect_apices(&mut self, epsilon: i32) -> (r: Vec<FPoint<D>>)
        requires
            funnel_ready(funnel_state(*old(self)), epsilon as int),
        ensures
            (funnel_state(*final(self)), r@) == spec_run(funnel_state(*old(self)), epsilon as int),
    {
        let ghost st0 = funnel_state(*self);
        let ghost eps = epsilon as int;
        let mut out: Vec<FPoint<D>> = Vec::new();
        let mut done = false;
        while !done
            invariant
                eps == epsilon,
                funnel_ready(funnel_state(*self), eps),
                funnel_ready(st0, eps),
                done ==> (funnel_state(*self), out@) == spec_run(st0, eps),
                !done ==> spec_run(st0, eps) == (spec_run(funnel_state(*self), eps).0, out@ + spec_run(
                    funnel_state(*self),
                    eps,
                ).1),
            decreases self.past_portals@.len() + (if done { 0int } else { 1int }),
        {
            let ghost before = self.past_portals@.len();
            proof {
                lemma_next(funnel_state(*self), eps);
            }
            match self.next_apex(epsilon) {
                Some(p) => {
                    assert(self.past_portals@.len() < before);
                    out.push(p);
                    proof {
                        let (st1, ps) = spec_run(funnel_state(*self), eps);
                        assert(out@ + ps =~= (out@.drop_last()) + (seq![p] + ps));
                    }
                },
                None => {
                    done = true;
                    assert(out@ + Seq::<FPoint<D>>::empty() =~= out@);
                },
            }
        }
        out
    }

    /// Appends a portal `[left, right]` to pass.
    pub fn push(&mut self, portal: [([i32; 2], D); 2])
        ensures
            final(self).apex == old(self).apex,
            final(self).lhs == old(self).lhs,
            final(self).rhs == old(self).rhs,
            final(self).past_portals@ == old(self).past_portals@.push(portal),
            funnel_wf(funnel_state(*old(self))) ==> funnel_wf(funnel_state(*final(self))),
    {
        self.past_portals.push(portal);
        // the length of a vector fits in a `usize`
        let _len = self.past_portals.len();
    }
}

impl<'a, D: Copy> SimpleFunnelWithEpsilon<'a, i32, D> {
    /// The next apex of the path, if any (see [`SimpleFunnel::next_apex`]).
    pub fn next(&mut self) -> (r: Option<FPoint<D>>)
        requires
            funnel_ready(funnel_state(*old(self).inner), old(self).epsilon as int),
        ensures
            (funnel_state(*final(self).inner), r) == spec_next(
                funnel_state(*old(self).inner),
                old(self).epsilon as int,
            ),
            final(self).epsilon == old(self).epsilon,
            funnel_ready(funnel_state(*final(self).inner), final(self).epsilon as int),
            r is Some ==> final(self).inner.past_portals@.len() < old(self).inner.past_portals@.len(),
            r is None ==> final(self).inner.past_portals@ == old(self).inner.past_portals@,
    {
        proof {
            lemma_next(funnel_state(*self.inner), self.epsilon as int);
        }
        self.inner.next_apex(self.epsilon)
    }

    /// All the remaining apices of the path, in order.
    pub fn collect(self) -> (r: Vec<FPoint<D>>)
        requires
            funnel_ready(funnel_state(*self.inner), self.epsilon as int),
        ensures
            r@ == spec_run(funnel_state(*old(self.inner)), self.epsilon as int).1,
            funnel_state(*final(self.inner)) == spec_run(funnel_state(*old(self.inner)), self.epsilon as int).0,
            r@.len() <= old(self.inner).past_portals@.len(),
    {
        proof {
            lemma_run_bounded(funnel_state(*self.inner), self.epsilon as int);
        }
        let eps = self.epsilon;
        self.inner.collect_apices(eps)
    }
}

} // verus!
