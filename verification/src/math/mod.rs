//! Small integer geometry helpers.
//!
//! Points are pairs of `i32` coordinates. Intermediate values are computed in
//! wider integer types, so that every function here returns the exact
//! mathematical value.

use vstd::prelude::*;

pub mod diagonal_taxicab;

verus! {

/// The sense in which a closed polygon is traversed.
#[derive(Clone, Copy, Debug, PartialEq, Eq, PartialOrd, Ord, Hash, Structural)]
pub enum RotationSense {
    Counterclockwise,
    Clockwise,
}

/// The opposite rotation sense.
pub open spec fn spec_opposite(s: RotationSense) -> RotationSense {
    match s {
        RotationSense::Counterclockwise => RotationSense::Clockwise,
        RotationSense::Clockwise => RotationSense::Counterclockwise,
    }
}

/// Where `step_ccw` lands: `pos` moved by `step` positions on a cycle of `len` positions.
pub open spec fn spec_step_ccw(s: RotationSense, pos: int, len: int, step: int) -> int {
    match s {
        RotationSense::Counterclockwise => (pos + step % len) % len,
        RotationSense::Clockwise => (len + pos - step % len) % len,
    }
}

impl core::ops::Neg for RotationSense {
    type Output = Self;

    fn neg(self) -> (r: Self) {
        match self {
            RotationSense::Counterclockwise => RotationSense::Clockwise,
            RotationSense::Clockwise => RotationSense::Counterclockwise,
        }
    }
}

impl vstd::std_specs::ops::NegSpecImpl for RotationSense {
    open spec fn obeys_neg_spec() -> bool {
        true
    }

    open spec fn neg_req(self) -> bool {
        true
    }

    open spec fn neg_spec(self) -> RotationSense {
        spec_opposite(self)
    }
}

impl RotationSense {
    /// The opposite rotation sense.
    pub fn opposite(self) -> (r: RotationSense)
        ensures
            r == spec_opposite(self),
    {
        core::ops::Neg::neg(self)
    }

    /// Move `pos` by `step` along `self`, assuming the list of positions is ordered CCW.
    pub fn step_ccw(self, pos: usize, len: usize, step: usize) -> (r: usize)
        requires
            len > 0,
            pos + len <= usize::MAX,
        ensures
            r == spec_step_ccw(self, pos as int, len as int, step as int),
            r < len,
    {
        let step = step % len;
        (match self {
            RotationSense::Counterclockwise => pos + step,
            RotationSense::Clockwise => len + pos - step,
        }) % len
    }
}

/// Negating a rotation sense twice gives it back.
pub proof fn lemma_opposite_involutive(s: RotationSense)
    ensures
        spec_opposite(spec_opposite(s)) == s,
        spec_opposite(s) != s,
{
}

/// A step along one sense followed by the same step along the opposite sense returns to
/// the start position, on every cycle and for every step size.
pub proof fn lemma_step_ccw_undo(s: RotationSense, pos: int, len: int, step: int)
    requires
        len > 0,
        0 <= pos < len,
        step >= 0,
    ensures
        spec_step_ccw(spec_opposite(s), spec_step_ccw(s, pos, len, step), len, step) == pos,
{
    let k = step % len;
    assert(0 <= k < len);
    let q = spec_step_ccw(s, pos, len, step);
    match s {
        RotationSense::Counterclockwise => {
            assert(q == (pos + k) % len);
            if pos + k < len {
                assert(q == pos + k) by (nonlinear_arith)
                    requires q == (pos + k) % len, 0 <= pos + k < len;
                assert((len + q - k) % len == pos) by (nonlinear_arith)
                    requires q == pos + k, 0 <= pos < len;
            } else {
                assert(q == pos + k - len) by (nonlinear_arith)
                    requires q == (pos + k) % len, len <= pos + k < 2 * len;
                assert((len + q - k) % len == pos) by (nonlinear_arith)
                    requires q == pos + k - len, 0 <= pos < len;
            }
        },
        RotationSense::Clockwise => {
            assert(q == (len + pos - k) % len);
            if pos >= k {
                assert(q == pos - k) by (nonlinear_arith)
                    requires q == (len + pos - k) % len, 0 <= pos - k < len;
                assert((q + k) % len == pos) by (nonlinear_arith)
                    requires q == pos - k, 0 <= pos < len;
            } else {
                assert(q == len + pos - k) by (nonlinear_arith)
                    requires q == (len + pos - k) % len, 0 <= len + pos - k < len;
                assert((q + k) % len == pos) by (nonlinear_arith)
                    requires q == len + pos - k, 0 <= pos < len;
            }
        },
    }
}

/// Twice the signed area of the triangle `prev, curr, next`: positive when the three
/// points turn counterclockwise.
pub open spec fn spec_orientation_det(prev: [i32; 2], curr: [i32; 2], next: [i32; 2]) -> int {
    (curr[0] * next[1] + prev[0] * curr[1] + prev[1] * next[0]) - (curr[1] * next[0] + prev[1]
        * curr[0] + prev[0] * next[1])
}

/// The rotation sense of the polygon whose vertices are `poly_ext_hull`, judged at the
/// vertex `pivot`, which must lie on the convex hull.
pub open spec fn spec_poly_rotation_sense<I>(poly_ext_hull: Seq<([i32; 2], I)>, pivot: int) -> RotationSense {
    let len = poly_ext_hull.len() as int;
    let prev = poly_ext_hull[(len + pivot - 1) % len].0;
    let curr = poly_ext_hull[pivot].0;
    let next = poly_ext_hull[(pivot + 1) % len].0;
    if spec_orientation_det(prev, curr, next) < 0 {
        RotationSense::Clockwise
    } else {
        RotationSense::Counterclockwise
    }
}

/// The rotation sense of a polygon, computed at the convex-hull vertex `pivot`.
pub fn poly_convex_hull_rotation_sense<I>(poly_ext_hull: &[([i32; 2], I)], pivot: usize) -> (r:
    RotationSense)
    requires
        pivot < 5,
        pivot < poly_ext_hull@.len(),
        poly_ext_hull@.len() + pivot <= usize::MAX,
    ensures
        r == spec_poly_rotation_sense(poly_ext_hull@, pivot as int),
{
    let len = poly_ext_hull.len();
    let prev = &poly_ext_hull[(len + pivot - 1) % len].0;
    let curr = &poly_ext_hull[pivot].0;
    let next = &poly_ext_hull[(pivot + 1) % len].0;

    let (p0, p1) = (prev[0] as i128, prev[1] as i128);
    let (c0, c1) = (curr[0] as i128, curr[1] as i128);
    let (n0, n1) = (next[0] as i128, next[1] as i128);
    assert(-0x4000_0000_0000_0001 <= c0 * n1 <= 0x4000_0000_0000_0000) by (nonlinear_arith)
        requires -0x8000_0000 <= c0 < 0x8000_0000, -0x8000_0000 <= n1 < 0x8000_0000;
    assert(-0x4000_0000_0000_0001 <= p0 * c1 <= 0x4000_0000_0000_0000) by (nonlinear_arith)
        requires -0x8000_0000 <= p0 < 0x8000_0000, -0x8000_0000 <= c1 < 0x8000_0000;
    assert(-0x4000_0000_0000_0001 <= p1 * n0 <= 0x4000_0000_0000_0000) by (nonlinear_arith)
        requires -0x8000_0000 <= p1 < 0x8000_0000, -0x8000_0000 <= n0 < 0x8000_0000;
    assert(-0x4000_0000_0000_0001 <= c1 * n0 <= 0x4000_0000_0000_0000) by (nonlinear_arith)
        requires -0x8000_0000 <= c1 < 0x8000_0000, -0x8000_0000 <= n0 < 0x8000_0000;
    assert(-0x4000_0000_0000_0001 <= p1 * c0 <= 0x4000_0000_0000_0000) by (nonlinear_arith)
        requires -0x8000_0000 <= p1 < 0x8000_0000, -0x8000_0000 <= c0 < 0x8000_0000;
    assert(-0x4000_0000_0000_0001 <= p0 * n1 <= 0x4000_0000_0000_0000) by (nonlinear_arith)
        requires -0x8000_0000 <= p0 < 0x8000_0000, -0x8000_0000 <= n1 < 0x8000_0000;
    let det = (c0 * n1 + p0 * c1 + p1 * n0) - (c1 * n0 + p1 * c0 + p0 * n1);
    if det < 0 {
        RotationSense::Clockwise
    } else {
        RotationSense::Counterclockwise
    }
}

/// The difference `a - b` of two points.
pub open spec fn spec_delta(a: [i32; 2], b: [i32; 2]) -> (int, int) {
    (a[0] - b[0], a[1] - b[1])
}

/// The 2D perpendicular product of two vectors.
pub open spec fn spec_perp_product(a: (int, int), b: (int, int)) -> int {
    b.0 * a.1 - a.0 * b.1
}

/// Twice the oriented area of the triangle `a, b, c`
/// (negative when `a, b, c` turn counterclockwise in a y-up frame).
pub open spec fn spec_triarea2(a: [i32; 2], b: [i32; 2], c: [i32; 2]) -> int {
    spec_perp_product(spec_delta(b, a), spec_delta(c, a))
}

/// Calculates the difference between 2 points.
pub(crate) fn delta(a: &[i32; 2], b: &[i32; 2]) -> (r: [i64; 2])
    ensures
        r[0] == spec_delta(*a, *b).0,
        r[1] == spec_delta(*a, *b).1,
{
    [a[0] as i64 - b[0] as i64, a[1] as i64 - b[1] as i64]
}

/// Calculates the 2D perpendicular product between 2 vectors.
pub fn perp_product(a: [i64; 2], b: [i64; 2]) -> (r: i128)
    ensures
        r == spec_perp_product((a[0] as int, a[1] as int), (b[0] as int, b[1] as int)),
{
    let (a0, a1, b0, b1) = (a[0] as i128, a[1] as i128, b[0] as i128, b[1] as i128);
    // each product lies in [-2^63 * (2^63 - 1), 2^126], so their difference fits in an i128
    assert(-0x3fff_ffff_ffff_ffff_8000_0000_0000_0000 <= b0 * a1 <= 0x4000_0000_0000_0000_0000_0000_0000_0000) by (nonlinear_arith)
        requires
            -0x8000_0000_0000_0000 <= b0 < 0x8000_0000_0000_0000,
            -0x8000_0000_0000_0000 <= a1 < 0x8000_0000_0000_0000;
    assert(-0x3fff_ffff_ffff_ffff_8000_0000_0000_0000 <= a0 * b1 <= 0x4000_0000_0000_0000_0000_0000_0000_0000) by (nonlinear_arith)
        requires
            -0x8000_0000_0000_0000 <= a0 < 0x8000_0000_0000_0000,
            -0x8000_0000_0000_0000 <= b1 < 0x8000_0000_0000_0000;
    b0 * a1 - a0 * b1
}

/// Calculates the oriented area between 3 points.
pub fn triarea2(a: &[i32; 2], b: &[i32; 2], c: &[i32; 2]) -> (r: i128)
    ensures
        r == spec_triarea2(*a, *b, *c),
{
    perp_product(delta(b, a), delta(c, a))
}

/// The triangle area is invariant under cyclic rotation of its corners, and changes sign
/// when two corners are swapped.
pub proof fn lemma_triarea2_symmetries(a: [i32; 2], b: [i32; 2], c: [i32; 2])
    ensures
        spec_triarea2(a, b, c) == spec_triarea2(b, c, a),
        spec_triarea2(a, b, c) == -spec_triarea2(a, c, b),
        spec_triarea2(a, a, c) == 0,
        spec_triarea2(a, b, a) == 0,
{
    let (a0, a1, b0, b1, c0, c1) = (a[0] as int, a[1] as int, b[0] as int, b[1] as int, c[0] as int, c[1] as int);
    assert((c0 - a0) * (b1 - a1) - (b0 - a0) * (c1 - a1) == (a0 - b0) * (c1 - b1) - (c0 - b0) * (a1 - b1)) by (nonlinear_arith);
    assert((c0 - a0) * (b1 - a1) - (b0 - a0) * (c1 - a1) == -((b0 - a0) * (c1 - a1) - (c0 - a0) * (b1 - a1))) by (nonlinear_arith);
}

/// Whether `(a0 - b0)^2 >= 2 * (a1 - b1)^2`: the part along the axes of the difference of
/// two diagonal taxicab norms outweighs the diagonal part.
pub(crate) fn sqrt2_dominates(a0: i32, b0: i32, a1: i32, b1: i32) -> (r: bool)
    ensures
        r <==> (a0 - b0) * (a0 - b0) >= 2 * ((a1 - b1) * (a1 - b1)),
{
    let aa = a0 as i64 - b0 as i64;
    let dd = a1 as i64 - b1 as i64;
    let (aa, dd) = (aa as i128, dd as i128);
    assert(0 <= aa * aa <= 0x1_0000_0000_0000_0000) by (nonlinear_arith)
        requires -0x1_0000_0000 <= aa <= 0x1_0000_0000;
    assert(0 <= dd * dd <= 0x1_0000_0000_0000_0000) by (nonlinear_arith)
        requires -0x1_0000_0000 <= dd <= 0x1_0000_0000;
    aa * aa >= 2 * (dd * dd)
}

/// Whether `r` is the integer square root of `n`: the largest natural number whose square
/// is at most `n`.
pub open spec fn is_isqrt(n: int, r: int) -> bool {
    0 <= r && r * r <= n < (r + 1) * (r + 1)
}

/// The integer square root of `n`.
pub open spec fn spec_isqrt(n: nat) -> nat {
    choose|r: nat| is_isqrt(n as int, r as int)
}

/// There is at most one integer square root.
pub proof fn lemma_isqrt_unique(n: int, r: int, s: int)
    requires
        is_isqrt(n, r),
        is_isqrt(n, s),
    ensures
        r == s,
{
    if r < s {
        assert((r + 1) * (r + 1) <= s * s) by (nonlinear_arith)
            requires 0 <= r + 1 <= s;
    } else if s < r {
        assert((s + 1) * (s + 1) <= r * r) by (nonlinear_arith)
            requires 0 <= s + 1 <= r;
    }
}

/// The integer square root of `n`, found by bisection.
pub fn isqrt(n: u64) -> (r: u64)
    ensures
        is_isqrt(n as int, r as int),
        r == spec_isqrt(n as nat),
{
    let mut lo: u64 = 0;
    let mut hi: u64 = 0x1_0000_0000;
    assert(n < hi * hi) by (nonlinear_arith)
        requires hi == 0x1_0000_0000;
    while hi - lo > 1
        invariant
            lo < hi <= 0x1_0000_0000,
            lo * lo <= n,
            n < hi * hi,
        decreases hi - lo,
    {
        let mid = lo + (hi - lo) / 2;
        assert(mid * mid < 0x1_0000_0000_0000_0000) by (nonlinear_arith)
            requires mid < 0x1_0000_0000;
        if mid * mid <= n {
            lo = mid;
        } else {
            hi = mid;
        }
    }
    proof {
        assert(hi == lo + 1);
        assert(is_isqrt(n as int, lo as int));
        let c = spec_isqrt(n as nat);
        assert(is_isqrt(n as int, c as int));
        lemma_isqrt_unique(n as int, lo as int, c as int);
    }
    lo
}

/// Addition that reports overflow instead of wrapping.
pub trait CheckedAdd: Sized {
    fn checked_add(&self, oth: &Self) -> Option<Self>;
}

impl CheckedAdd for i8 {
    fn checked_add(&self, oth: &Self) -> (r: Option<Self>)
        ensures
            r is Some <==> i8::MIN <= *self + *oth <= i8::MAX,
            r matches Some(x) ==> x == *self + *oth,
    {
        i8::checked_add(*self, *oth)
    }
}

impl CheckedAdd for u8 {
    fn checked_add(&self, oth: &Self) -> (r: Option<Self>)
        ensures
            r is Some <==> *self + *oth <= u8::MAX,
            r matches Some(x) ==> x == *self + *oth,
    {
        u8::checked_add(*self, *oth)
    }
}

impl CheckedAdd for i16 {
    fn checked_add(&self, oth: &Self) -> (r: Option<Self>)
        ensures
            r is Some <==> i16::MIN <= *self + *oth <= i16::MAX,
            r matches Some(x) ==> x == *self + *oth,
    {
        i16::checked_add(*self, *oth)
    }
}

impl CheckedAdd for u16 {
    fn checked_add(&self, oth: &Self) -> (r: Option<Self>)
        ensures
            r is Some <==> *self + *oth <= u16::MAX,
            r matches Some(x) ==> x == *self + *oth,
    {
        u16::checked_add(*self, *oth)
    }
}

impl CheckedAdd for i32 {
    fn checked_add(&self, oth: &Self) -> (r: Option<Self>)
        ensures
            r is Some <==> i32::MIN <= *self + *oth <= i32::MAX,
            r matches Some(x) ==> x == *self + *oth,
    {
        i32::checked_add(*self, *oth)
    }
}

impl CheckedAdd for u32 {
    fn checked_add(&self, oth: &Self) -> (r: Option<Self>)
        ensures
            r is Some <==> *self + *oth <= u32::MAX,
            r matches Some(x) ==> x == *self + *oth,
    {
        u32::checked_add(*self, *oth)
    }
}

impl CheckedAdd for i64 {
    fn checked_add(&self, oth: &Self) -> (r: Option<Self>)
        ensures
            r is Some <==> i64::MIN <= *self + *oth <= i64::MAX,
            r matches Some(x) ==> x == *self + *oth,
    {
        i64::checked_add(*self, *oth)
    }
}

impl CheckedAdd for u64 {
    fn checked_add(&self, oth: &Self) -> (r: Option<Self>)
        ensures
            r is Some <==> *self + *oth <= u64::MAX,
            r matches Some(x) ==> x == *self + *oth,
    {
        u64::checked_add(*self, *oth)
    }
}

} // verus!
