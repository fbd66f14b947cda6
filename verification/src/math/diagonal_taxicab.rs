//! The diagonal taxicab norm for `n = 2`.
//!
//! A vector `[x0, x1]` is measured as `along_axis + sqrt(2) * diagonal`, where
//! `diagonal = min(|x0|, |x1|)` and `along_axis = max(|x0|, |x1|) - min(|x0|, |x1|)`:
//! the length of the shortest path that moves only along the axes and the diagonals.
//! Norms are compared exactly, as real numbers.

use vstd::prelude::*;
use core::cmp::Ordering;

use super::{sqrt2_dominates, CheckedAdd};

verus! {

/// A length `along_axis + sqrt(2) * diagonal`.
#[derive(Clone, Copy, Debug, Default, PartialEq, Eq, Hash, Structural)]
pub struct DiagonalTaxicabNorm<Scalar> {
    pub along_axis: Scalar,
    pub diagonal: Scalar,
}

/// The absolute value of an integer.
pub open spec fn spec_abs(x: int) -> int {
    if x < 0 { -x } else { x }
}

/// The diagonal taxicab norm of the vector `x`.
pub open spec fn spec_norm(x: [i32; 2]) -> DiagonalTaxicabNorm<i32> {
    let a = spec_abs(x[0] as int);
    let b = spec_abs(x[1] as int);
    if a <= b {
        DiagonalTaxicabNorm { along_axis: (b - a) as i32, diagonal: a as i32 }
    } else {
        DiagonalTaxicabNorm { along_axis: (a - b) as i32, diagonal: b as i32 }
    }
}

/// Whether `x + sqrt(2) * y` is positive (`Greater`), zero (`Equal`) or negative (`Less`).
///
/// On integers `x + sqrt(2) * y == 0` only when `x == 0 && y == 0`; when the signs of `x`
/// and `y` differ, the sign of the sum is that of the part with the larger square
/// (`x * x` against `2 * y * y`).
pub open spec fn sign_with_sqrt2(x: int, y: int) -> Ordering {
    if x == 0 && y == 0 {
        Ordering::Equal
    } else if x >= 0 && y >= 0 {
        Ordering::Greater
    } else if x <= 0 && y <= 0 {
        Ordering::Less
    } else if x > 0 {
        // y < 0
        if x * x >= 2 * (y * y) { Ordering::Greater } else { Ordering::Less }
    } else {
        // x < 0, y > 0
        if x * x >= 2 * (y * y) { Ordering::Less } else { Ordering::Greater }
    }
}

/// How two norms compare as real numbers `along_axis + sqrt(2) * diagonal`.
pub open spec fn norm_order(a: DiagonalTaxicabNorm<i32>, b: DiagonalTaxicabNorm<i32>) -> Ordering {
    sign_with_sqrt2(a.along_axis - b.along_axis, a.diagonal - b.diagonal)
}

/// Whether the norm `a` is strictly shorter than `b`.
pub open spec fn norm_lt(a: DiagonalTaxicabNorm<i32>, b: DiagonalTaxicabNorm<i32>) -> bool {
    norm_order(a, b) == Ordering::Less
}

/// The opposite of an ordering.
pub open spec fn reverse_order(o: Ordering) -> Ordering {
    match o {
        Ordering::Less => Ordering::Greater,
        Ordering::Equal => Ordering::Equal,
        Ordering::Greater => Ordering::Less,
    }
}

/// Whether the sum of the two norms has both fields in range.
pub open spec fn add_in_range(a: DiagonalTaxicabNorm<i32>, b: DiagonalTaxicabNorm<i32>) -> bool {
    &&& i32::MIN <= a.along_axis + b.along_axis <= i32::MAX
    &&& i32::MIN <= a.diagonal + b.diagonal <= i32::MAX
}

/// Whether the difference of the two norms has both fields in range.
pub open spec fn sub_in_range(a: DiagonalTaxicabNorm<i32>, b: DiagonalTaxicabNorm<i32>) -> bool {
    &&& i32::MIN <= a.along_axis - b.along_axis <= i32::MAX
    &&& i32::MIN <= a.diagonal - b.diagonal <= i32::MAX
}

/// The field-wise sum of two norms.
pub open spec fn spec_add(a: DiagonalTaxicabNorm<i32>, b: DiagonalTaxicabNorm<i32>) -> DiagonalTaxicabNorm<i32> {
    DiagonalTaxicabNorm {
        along_axis: (a.along_axis + b.along_axis) as i32,
        diagonal: (a.diagonal + b.diagonal) as i32,
    }
}

/// The field-wise difference of two norms.
pub open spec fn spec_sub(a: DiagonalTaxicabNorm<i32>, b: DiagonalTaxicabNorm<i32>) -> DiagonalTaxicabNorm<i32> {
    DiagonalTaxicabNorm {
        along_axis: (a.along_axis - b.along_axis) as i32,
        diagonal: (a.diagonal - b.diagonal) as i32,
    }
}

impl DiagonalTaxicabNorm<i32> {
    /// The norm of the vector `x`. It is always `Some` for integers.
    pub fn new(x: [i32; 2]) -> (r: Option<Self>)
        requires
            x[0] != i32::MIN,
            x[1] != i32::MIN,
        ensures
            r == Some(spec_norm(x)),
    {
        let x0 = if x[0] < 0 { -x[0] } else { x[0] };
        let x1 = if x[1] < 0 { -x[1] } else { x[1] };
        let (min_value, max_value) = if x0 <= x1 { (x0, x1) } else { (x1, x0) };
        Some(Self { along_axis: max_value - min_value, diagonal: min_value })
    }

    /// The zero length.
    pub fn zero() -> (r: Self)
        ensures
            r.along_axis == 0,
            r.diagonal == 0,
    {
        Self { along_axis: 0, diagonal: 0 }
    }

    /// Whether this is the zero length.
    pub fn is_zero(&self) -> (r: bool)
        ensures
            r <==> self.along_axis == 0 && self.diagonal == 0,
    {
        self.along_axis == 0 && self.diagonal == 0
    }

    /// Adds `rhs` to `self`, field by field.
    pub fn add_assign(&mut self, rhs: Self)
        requires
            add_in_range(*old(self), rhs),
        ensures
            *final(self) == spec_add(*old(self), rhs),
    {
        self.along_axis = self.along_axis + rhs.along_axis;
        self.diagonal = self.diagonal + rhs.diagonal;
    }

    /// Subtracts `rhs` from `self`, field by field.
    pub fn sub_assign(&mut self, rhs: Self)
        requires
            sub_in_range(*old(self), rhs),
        ensures
            *final(self) == spec_sub(*old(self), rhs),
    {
        self.along_axis = self.along_axis - rhs.along_axis;
        self.diagonal = self.diagonal - rhs.diagonal;
    }

    /// Compares two lengths exactly, as the real numbers `along_axis + sqrt(2) * diagonal`.
    pub fn cmp(&self, oth: &Self) -> (r: Ordering)
        ensures
            r == norm_order(*self, *oth),
    {
        let x = if self.along_axis < oth.along_axis {
            Ordering::Less
        } else if self.along_axis == oth.along_axis {
            Ordering::Equal
        } else {
            Ordering::Greater
        };
        let y = if self.diagonal < oth.diagonal {
            Ordering::Less
        } else if self.diagonal == oth.diagonal {
            Ordering::Equal
        } else {
            Ordering::Greater
        };
        match (x, y) {
            (Ordering::Equal, y) => y,
            (x, Ordering::Equal) => x,
            (Ordering::Less, Ordering::Less) => Ordering::Less,
            (Ordering::Greater, Ordering::Greater) => Ordering::Greater,
            (x, y) => {
                if sqrt2_dominates(self.along_axis, oth.along_axis, self.diagonal, oth.diagonal) {
                    x
                } else {
                    y
                }
            },
        }
    }
}

impl DiagonalTaxicabNorm<i32> {
    /// Whether `self` is strictly shorter than `oth`.
    pub fn less_than(&self, oth: &Self) -> (r: bool)
        ensures
            r == norm_lt(*self, *oth),
    {
        match self.cmp(oth) {
            Ordering::Less => true,
            _ => false,
        }
    }
}

impl CheckedAdd for DiagonalTaxicabNorm<i32> {
    /// The field-wise sum, or `None` when a field leaves the range of `i32`.
    fn checked_add(&self, oth: &Self) -> (r: Option<Self>)
        ensures
            r is Some <==> add_in_range(*self, *oth),
            r matches Some(x) ==> x == spec_add(*self, *oth),
    {
        match (self.along_axis.checked_add(oth.along_axis), self.diagonal.checked_add(oth.diagonal)) {
            (Some(along_axis), Some(diagonal)) => Some(Self { along_axis, diagonal }),
            _ => None,
        }
    }
}

impl core::ops::Add for DiagonalTaxicabNorm<i32> {
    type Output = Self;

    fn add(self, rhs: Self) -> (r: Self) {
        Self { along_axis: self.along_axis + rhs.along_axis, diagonal: self.diagonal + rhs.diagonal }
    }
}

impl vstd::std_specs::ops::AddSpecImpl for DiagonalTaxicabNorm<i32> {
    open spec fn obeys_add_spec() -> bool {
        true
    }

    open spec fn add_req(self, rhs: Self) -> bool {
        add_in_range(self, rhs)
    }

    open spec fn add_spec(self, rhs: Self) -> Self {
        spec_add(self, rhs)
    }
}

impl core::ops::Sub for DiagonalTaxicabNorm<i32> {
    type Output = Self;

    fn sub(self, rhs: Self) -> (r: Self) {
        Self { along_axis: self.along_axis - rhs.along_axis, diagonal: self.diagonal - rhs.diagonal }
    }
}

impl vstd::std_specs::ops::SubSpecImpl for DiagonalTaxicabNorm<i32> {
    open spec fn obeys_sub_spec() -> bool {
        true
    }

    open spec fn sub_req(self, rhs: Self) -> bool {
        sub_in_range(self, rhs)
    }

    open spec fn sub_spec(self, rhs: Self) -> Self {
        spec_sub(self, rhs)
    }
}

impl PartialOrd for DiagonalTaxicabNorm<i32> {
    fn partial_cmp(&self, oth: &Self) -> (r: Option<Ordering>) {
        Some(self.cmp(oth))
    }
}

impl vstd::std_specs::cmp::PartialOrdSpecImpl for DiagonalTaxicabNorm<i32> {
    open spec fn obeys_partial_cmp_spec() -> bool {
        true
    }

    open spec fn partial_cmp_spec(&self, other: &Self) -> Option<Ordering> {
        Some(norm_order(*self, *other))
    }
}

/// Comparing two norms the other way round gives the opposite answer, and two norms
/// compare `Equal` exactly when they are the same.
pub proof fn lemma_norm_order_antisymmetric(a: DiagonalTaxicabNorm<i32>, b: DiagonalTaxicabNorm<i32>)
    ensures
        norm_order(b, a) == reverse_order(norm_order(a, b)),
        norm_order(a, b) == Ordering::Equal <==> a == b,
        norm_order(a, a) == Ordering::Equal,
{
    let x = a.along_axis - b.along_axis;
    let y = a.diagonal - b.diagonal;
    assert((-x) * (-x) == x * x) by (nonlinear_arith);
    assert((-y) * (-y) == y * y) by (nonlinear_arith);
}


/// Whether `x + sqrt(2) * y` is positive.
pub open spec fn positive_with_sqrt2(x: int, y: int) -> bool {
    sign_with_sqrt2(x, y) == Ordering::Greater
}

/// The sum of two positive numbers `x + sqrt(2) * y` is positive.
proof fn lemma_positive_add(x1: int, y1: int, x2: int, y2: int)
    requires
        positive_with_sqrt2(x1, y1),
        positive_with_sqrt2(x2, y2),
    ensures
        positive_with_sqrt2(x1 + x2, y1 + y2),
{
    let x = x1 + x2;
    let y = y1 + y2;
    if x1 >= 0 && y1 >= 0 && x2 >= 0 && y2 >= 0 {
    } else if x1 >= 0 && y1 >= 0 {
        lemma_positive_add_first_quadrant(x1, y1, x2, y2);
    } else if x2 >= 0 && y2 >= 0 {
        lemma_positive_add_first_quadrant(x2, y2, x1, y1);
    } else if x1 > 0 && x2 > 0 {
        // y1 < 0, y2 < 0
        lemma_neg_square(y1);
        lemma_neg_square(y2);
        lemma_neg_square(y);
        lemma_sum_below_diagonal(x1, -y1, x2, -y2);
    } else if x1 < 0 && x2 < 0 {
        // y1 > 0, y2 > 0
        lemma_neg_square(x1);
        lemma_neg_square(x2);
        lemma_neg_square(x);
        lemma_sum_above_diagonal(-x1, y1, -x2, y2);
    } else if x1 > 0 {
        lemma_positive_add_mixed(x1, y1, x2, y2);
    } else {
        lemma_positive_add_mixed(x2, y2, x1, y1);
    }
}

/// `a * c >= b * d` for `a >= b >= 0` and `c >= d >= 0`.
proof fn lemma_mul_monotone(a: int, b: int, c: int, d: int)
    requires
        a >= b >= 0,
        c >= d >= 0,
    ensures
        a * c >= b * d,
{
    assert(a * c >= b * c) by (nonlinear_arith)
        requires a >= b, c >= 0;
    assert(b * c >= b * d) by (nonlinear_arith)
        requires b >= 0, c >= d;
}

/// `a * c > b * d` for `a > b >= 0` and `c > d >= 0`.
proof fn lemma_mul_strictly_monotone(a: int, b: int, c: int, d: int)
    requires
        a > b >= 0,
        c > d >= 0,
    ensures
        a * c > b * d,
{
    assert(a * c > b * c) by (nonlinear_arith)
        requires a > b, c > 0;
    assert(b * c >= b * d) by (nonlinear_arith)
        requires b >= 0, c >= d;
}

/// For non-negative `p` and `q`, `p * p >= q * q` gives `p >= q`.
proof fn lemma_square_monotone(p: int, q: int)
    requires
        p >= 0,
        q >= 0,
    ensures
        p * p >= q * q ==> p >= q,
        p * p < q * q ==> p < q,
{
    if p < q {
        lemma_mul_strictly_monotone(q, p, q, p);
    } else {
        lemma_mul_monotone(p, q, p, q);
    }
}

/// A number and its opposite have the same square.
proof fn lemma_neg_square(x: int)
    ensures
        (-x) * (-x) == x * x,
{
    assert((-x) * (-x) == x * x) by (nonlinear_arith);
}

/// The square of a sum, written out.
proof fn lemma_square_of_sum(x1: int, y1: int, x2: int, y2: int)
    ensures
        (x1 + x2) * (x1 + x2) - 2 * ((y1 + y2) * (y1 + y2))
            == (x1 * x1 - 2 * (y1 * y1)) + (x2 * x2 - 2 * (y2 * y2)) + 2 * (x1 * x2 - 2 * (y1 * y2)),
        (x1 * x2) * (x1 * x2) == (x1 * x1) * (x2 * x2),
        (2 * (y1 * y2)) * (2 * (y1 * y2)) == (2 * (y1 * y1)) * (2 * (y2 * y2)),
{
    assert((x1 + x2) * (x1 + x2) == x1 * x1 + x2 * x2 + 2 * (x1 * x2)) by (nonlinear_arith);
    assert((y1 + y2) * (y1 + y2) == y1 * y1 + y2 * y2 + 2 * (y1 * y2)) by (nonlinear_arith);
    assert((x1 * x2) * (x1 * x2) == (x1 * x1) * (x2 * x2)) by (nonlinear_arith);
    assert((2 * (y1 * y2)) * (2 * (y1 * y2)) == (2 * (y1 * y1)) * (2 * (y2 * y2))) by (nonlinear_arith);
}

/// Two vectors with `x >= sqrt(2) * y` (`x, y >= 0`) add up to one with the same property.
proof fn lemma_sum_below_diagonal(x1: int, y1: int, x2: int, y2: int)
    requires
        x1 >= 0, y1 >= 0, x2 >= 0, y2 >= 0,
        x1 * x1 >= 2 * (y1 * y1),
        x2 * x2 >= 2 * (y2 * y2),
    ensures
        (x1 + x2) * (x1 + x2) >= 2 * ((y1 + y2) * (y1 + y2)),
{
    lemma_square_of_sum(x1, y1, x2, y2);
    assert(y1 * y1 >= 0 && y2 * y2 >= 0 && y1 * y2 >= 0 && x1 * x2 >= 0) by (nonlinear_arith)
        requires x1 >= 0, y1 >= 0, x2 >= 0, y2 >= 0;
    lemma_mul_monotone(x1 * x1, 2 * (y1 * y1), x2 * x2, 2 * (y2 * y2));
    lemma_square_monotone(x1 * x2, 2 * (y1 * y2));
}

/// Two vectors with `x < sqrt(2) * y` (`x >= 0`, `y > 0`) add up to one with the same property.
proof fn lemma_sum_above_diagonal(x1: int, y1: int, x2: int, y2: int)
    requires
        x1 >= 0, y1 > 0, x2 >= 0, y2 > 0,
        x1 * x1 < 2 * (y1 * y1),
        x2 * x2 < 2 * (y2 * y2),
    ensures
        (x1 + x2) * (x1 + x2) < 2 * ((y1 + y2) * (y1 + y2)),
{
    lemma_square_of_sum(x1, y1, x2, y2);
    assert(x1 * x1 >= 0 && x2 * x2 >= 0 && y1 * y2 >= 0 && x1 * x2 >= 0) by (nonlinear_arith)
        requires x1 >= 0, y1 >= 0, x2 >= 0, y2 >= 0;
    lemma_mul_strictly_monotone(2 * (y1 * y1), x1 * x1, 2 * (y2 * y2), x2 * x2);
    lemma_square_monotone(x1 * x2, 2 * (y1 * y2));
}

/// A positive number in the first quadrant plus a positive number is positive.
proof fn lemma_positive_add_first_quadrant(x1: int, y1: int, x2: int, y2: int)
    requires
        x1 >= 0, y1 >= 0,
        positive_with_sqrt2(x1, y1),
        positive_with_sqrt2(x2, y2),
    ensures
        positive_with_sqrt2(x1 + x2, y1 + y2),
{
    let x = x1 + x2;
    let y = y1 + y2;
    if x2 > 0 && y2 < 0 && y < 0 {
        assert(x * x >= 2 * (y * y)) by (nonlinear_arith)
            requires x >= x2, x2 > 0, y2 <= y, y < 0, x2 * x2 >= 2 * (y2 * y2);
    }
    if x2 < 0 && y2 > 0 && x < 0 {
        assert(x * x < 2 * (y * y)) by (nonlinear_arith)
            requires x2 <= x, x < 0, y >= y2, y2 > 0, x2 * x2 < 2 * (y2 * y2);
    }
}

/// A positive `x1 + sqrt(2) * y1` with `x1 > 0 > y1` plus a positive `x2 + sqrt(2) * y2`
/// with `x2 < 0 < y2` is positive.
proof fn lemma_positive_add_mixed(x1: int, y1: int, x2: int, y2: int)
    requires
        x1 > 0, y1 < 0, x2 < 0, y2 > 0,
        x1 * x1 >= 2 * (y1 * y1),
        x2 * x2 < 2 * (y2 * y2),
    ensures
        positive_with_sqrt2(x1 + x2, y1 + y2),
{
    let x = x1 + x2;
    let y = y1 + y2;
    if x <= 0 && y <= 0 {
        assert(false) by (nonlinear_arith)
            requires x1 > 0, y1 < 0, x2 < 0, y2 > 0, x1 * x1 >= 2 * (y1 * y1), x2 * x2 < 2 * (y2 * y2), x1 + x2 <= 0, y1 + y2 <= 0;
    } else if x > 0 && y < 0 {
        assert(x * x >= 2 * (y * y)) by (nonlinear_arith)
            requires x1 > 0, y1 < 0, x2 < 0, y2 > 0, x1 * x1 >= 2 * (y1 * y1), x2 * x2 < 2 * (y2 * y2), x == x1 + x2, y == y1 + y2, x > 0, y < 0;
    } else if x < 0 && y > 0 {
        assert(x * x < 2 * (y * y)) by (nonlinear_arith)
            requires x1 > 0, y1 < 0, x2 < 0, y2 > 0, x1 * x1 >= 2 * (y1 * y1), x2 * x2 < 2 * (y2 * y2), x == x1 + x2, y == y1 + y2, x < 0, y > 0;
    }
}

/// The comparison of norms is transitive: it orders norms totally.
pub proof fn lemma_norm_order_transitive(a: DiagonalTaxicabNorm<i32>, b: DiagonalTaxicabNorm<i32>, c: DiagonalTaxicabNorm<i32>)
    requires
        norm_order(a, b) == Ordering::Less,
        norm_order(b, c) == Ordering::Less,
    ensures
        norm_order(a, c) == Ordering::Less,
{
    lemma_norm_order_antisymmetric(a, b);
    lemma_norm_order_antisymmetric(b, c);
    lemma_norm_order_antisymmetric(a, c);
    lemma_positive_add(c.along_axis - b.along_axis, c.diagonal - b.diagonal, b.along_axis - a.along_axis, b.diagonal - a.diagonal);
}

/// A norm is never negative, and it is zero only for the zero vector.
pub proof fn lemma_norm_nonnegative(x: [i32; 2])
    requires
        x[0] != i32::MIN,
        x[1] != i32::MIN,
    ensures
        spec_norm(x).along_axis >= 0,
        spec_norm(x).diagonal >= 0,
        spec_norm(x).diagonal == 0 <==> (x[0] == 0 || x[1] == 0),
        (spec_norm(x).along_axis == 0 && spec_norm(x).diagonal == 0) <==> (x[0] == 0 && x[1] == 0),
{
}

/// The norm does not depend on the signs of the coordinates, nor on their order.
pub proof fn lemma_norm_symmetries(x: [i32; 2])
    requires
        x[0] != i32::MIN,
        x[1] != i32::MIN,
    ensures
        spec_norm(x) == spec_norm([x[1], x[0]]),
        spec_norm(x) == spec_norm([-x[0] as i32, x[1]]),
        spec_norm(x) == spec_norm([x[0], -x[1] as i32]),
{
}

/// Adding the same norm to both sides does not change how they compare.
pub proof fn lemma_norm_order_translation(a: DiagonalTaxicabNorm<i32>, b: DiagonalTaxicabNorm<i32>, c: DiagonalTaxicabNorm<i32>)
    requires
        add_in_range(a, c),
        add_in_range(b, c),
    ensures
        norm_order(spec_add(a, c), spec_add(b, c)) == norm_order(a, b),
{
}

/// `x * x == 2 * y * y` holds of integers only for `x == y == 0`: `sqrt(2)` is irrational,
/// so `x + sqrt(2) * y` is zero only when `x` and `y` both are, and when their signs differ
/// its sign is that of the part with the strictly larger square.
pub proof fn lemma_sqrt2_irrational(x: int, y: int)
    requires
        x * x == 2 * (y * y),
    ensures
        x == 0,
        y == 0,
    decreases spec_abs(x),
{
    if x == 0 {
        assert(y == 0) by (nonlinear_arith)
            requires
                y * y == 0,
        ;
    } else {
        let k = x / 2;
        if x % 2 == 1 {
            assert(x * x == 2 * (2 * k * k + 2 * k) + 1) by (nonlinear_arith)
                requires
                    x == 2 * k + 1,
            ;
        } else {
            assert(x == 2 * k);
            assert(y * y == 2 * (k * k)) by (nonlinear_arith)
                requires
                    x == 2 * k,
                    x * x == 2 * (y * y),
            ;
            assert(spec_abs(y) < spec_abs(x)) by (nonlinear_arith)
                requires
                    x != 0,
                    x * x == 2 * (y * y),
            {
                if spec_abs(y) >= spec_abs(x) {
                    assert(spec_abs(y) * spec_abs(y) >= spec_abs(x) * spec_abs(x));
                    assert(spec_abs(y) * spec_abs(y) == y * y);
                    assert(spec_abs(x) * spec_abs(x) == x * x);
                }
            }
            lemma_sqrt2_irrational(y, k);
        }
    }
}

/// The comparison of norms is a total order: every norm is equal to itself, two norms
/// compare `Equal` exactly when they are the same, swapping them reverses the answer,
/// `Less` and "not `Greater`" both chain, and a norm no longer in either field is not
/// longer.
pub proof fn lemma_norm_total_order(a: DiagonalTaxicabNorm<i32>, b: DiagonalTaxicabNorm<i32>, c: DiagonalTaxicabNorm<i32>)
    ensures
        norm_order(a, a) == Ordering::Equal,
        norm_order(a, b) == Ordering::Equal <==> a == b,
        norm_order(b, a) == reverse_order(norm_order(a, b)),
        norm_order(a, b) == Ordering::Less && norm_order(b, c) == Ordering::Less ==> norm_order(a, c) == Ordering::Less,
        norm_order(a, b) != Ordering::Greater && norm_order(b, c) != Ordering::Greater ==> norm_order(a, c) != Ordering::Greater,
        a.along_axis <= b.along_axis && a.diagonal <= b.diagonal ==> norm_order(a, b) != Ordering::Greater,
{
    lemma_norm_order_antisymmetric(a, b);
    lemma_norm_order_antisymmetric(b, c);
    lemma_norm_order_antisymmetric(a, c);
    lemma_norm_order_antisymmetric(a, a);
    if norm_order(a, b) == Ordering::Less && norm_order(b, c) == Ordering::Less {
        lemma_norm_order_transitive(a, b, c);
    }
}

} // verus!
