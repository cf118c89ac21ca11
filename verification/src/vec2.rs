//! Plane vectors: the mathematical `Point` that contracts speak of, and the
//! fixed-point `Vec2` that the simulation stores.

use vstd::prelude::*;
use crate::fixed::{abs, clamp_coord, div_trunc, floor_sqrt, in_world, isqrt};
use crate::fixed::{lemma_div_trunc_bounds, lemma_floor_sqrt};

verus! {

/// A point or displacement of the plane with unbounded integer coordinates,
/// counted in fixed-point units.
pub struct Point {
    pub x: int,
    pub y: int,
}

impl Point {
    /// The origin.
    pub open spec fn zero() -> Point {
        Point { x: 0, y: 0 }
    }

    /// The sum of two displacements.
    pub open spec fn plus(self, other: Point) -> Point {
        Point { x: self.x + other.x, y: self.y + other.y }
    }

    /// The displacement that leads from `other` to `self`.
    pub open spec fn minus(self, other: Point) -> Point {
        Point { x: self.x - other.x, y: self.y - other.y }
    }

    /// The opposite displacement.
    pub open spec fn negated(self) -> Point {
        Point { x: -self.x, y: -self.y }
    }

    /// The square of the Euclidean length. It is exact.
    pub open spec fn length_squared(self) -> int {
        self.x * self.x + self.y * self.y
    }

    /// The Euclidean length, rounded down to a whole fixed-point unit.
    pub open spec fn length(self) -> int {
        floor_sqrt(self.length_squared())
    }

    /// The vector of the same direction whose length is `target`: the unit
    /// vector of `self` times `target`, each component rounded toward zero.
    /// The zero vector has no direction and stays the zero vector.
    pub open spec fn with_length(self, target: int) -> Point {
        Point {
            x: rescaled(self.x, self.length(), target),
            y: rescaled(self.y, self.length(), target),
        }
    }

    /// Both coordinates lie inside the world's range.
    pub open spec fn in_world(self) -> bool {
        in_world(self.x) && in_world(self.y)
    }

    /// The point of the world that is nearest to `self` on each axis.
    pub open spec fn clamped(self) -> Point {
        Point { x: clamp_coord(self.x), y: clamp_coord(self.y) }
    }
}

/// One component `c` of a vector of length `len`, after the vector has been
/// stretched to length `target`. A vector of length zero is left alone.
pub open spec fn rescaled(c: int, len: int, target: int) -> int {
    if len <= 0 {
        0
    } else {
        div_trunc(c * target, len)
    }
}

/// A squared length is not negative.
pub proof fn lemma_length_squared_nonnegative(p: Point)
    ensures
        p.length_squared() >= 0,
{
    assert(p.x * p.x >= 0 && p.y * p.y >= 0) by (nonlinear_arith);
}

/// A component of a vector is no longer than the vector.
pub proof fn lemma_component_le_length(p: Point)
    ensures
        abs(p.x) <= p.length(),
        abs(p.y) <= p.length(),
        p.length() >= 0,
        p.length() == 0 <==> p == Point::zero(),
{
    let n = p.length_squared();
    assert(p.x * p.x >= 0 && p.y * p.y >= 0) by (nonlinear_arith);
    lemma_floor_sqrt(n);
    let r = p.length();
    let ax = abs(p.x);
    let ay = abs(p.y);
    assert(ax * ax == p.x * p.x) by (nonlinear_arith)
        requires
            ax == p.x || ax == -p.x,
    ;
    assert(ay * ay == p.y * p.y) by (nonlinear_arith)
        requires
            ay == p.y || ay == -p.y,
    ;
    if ax > r {
        assert(ax * ax >= (r + 1) * (r + 1)) by (nonlinear_arith)
            requires
                0 <= r,
                r + 1 <= ax,
        ;
    }
    if ay > r {
        assert(ay * ay >= (r + 1) * (r + 1)) by (nonlinear_arith)
            requires
                0 <= r,
                r + 1 <= ay,
        ;
    }
    if p == Point::zero() {
        crate::fixed::lemma_floor_sqrt_is(0, 0);
    }
    if r == 0 {
        if ax >= 1 {
            assert(ax * ax >= 1) by (nonlinear_arith)
                requires
                    ax >= 1,
            ;
        }
        if ay >= 1 {
            assert(ay * ay >= 1) by (nonlinear_arith)
                requires
                    ay >= 1,
            ;
        }
    }
}

/// The absolute value of a product is the product of the absolute values.
pub proof fn lemma_abs_mul(a: int, b: int)
    ensures
        abs(a * b) == abs(a) * abs(b),
{
    assert(abs(a * b) == abs(a) * abs(b)) by (nonlinear_arith)
        requires
            abs(a) == a || abs(a) == -a,
            abs(a) >= 0,
            abs(b) == b || abs(b) == -b,
            abs(b) >= 0,
            abs(a * b) == a * b || abs(a * b) == -(a * b),
            abs(a * b) >= 0,
    ;
}

/// A vector stretched to a length is no longer than that length on either
/// axis, no longer than the exact stretch, and points the way the vector
/// did where the length is positive.
pub proof fn lemma_with_length_bounds(p: Point, target: int)
    ensures
        abs(p.with_length(target).x) <= abs(target),
        abs(p.with_length(target).y) <= abs(target),
        abs(p.with_length(target).x) * p.length() <= abs(p.x) * abs(target),
        abs(p.with_length(target).y) * p.length() <= abs(p.y) * abs(target),
        p.x * target >= 0 ==> p.with_length(target).x >= 0,
        p.x * target <= 0 ==> p.with_length(target).x <= 0,
        p.y * target >= 0 ==> p.with_length(target).y >= 0,
        p.y * target <= 0 ==> p.with_length(target).y <= 0,
{
    let len = p.length();
    lemma_component_le_length(p);
    if len > 0 {
        lemma_rescaled_bounds(p.x, len, target);
        lemma_rescaled_bounds(p.y, len, target);
    } else {
        assert(0 * len == 0) by (nonlinear_arith);
        assert(abs(p.x) * abs(target) >= 0) by (nonlinear_arith)
            requires
                abs(p.x) >= 0,
                abs(target) >= 0,
        ;
        assert(abs(p.y) * abs(target) >= 0) by (nonlinear_arith)
            requires
                abs(p.y) >= 0,
                abs(target) >= 0,
        ;
    }
}

/// The bounds of `lemma_with_length_bounds` for one component.
pub proof fn lemma_rescaled_bounds(c: int, len: int, target: int)
    requires
        len > 0,
        abs(c) <= len,
    ensures
        abs(rescaled(c, len, target)) <= abs(target),
        abs(rescaled(c, len, target)) * len <= abs(c) * abs(target),
        c * target >= 0 ==> rescaled(c, len, target) >= 0,
        c * target <= 0 ==> rescaled(c, len, target) <= 0,
{
    let q = rescaled(c, len, target);
    lemma_div_trunc_bounds(c * target, len);
    lemma_abs_mul(c, target);
    let aq = abs(q);
    let ac = abs(c);
    let at = abs(target);
    assert(aq * len <= ac * at);
    assert(aq <= at) by (nonlinear_arith)
        requires
            aq * len <= ac * at,
            0 <= ac <= len,
            len > 0,
            0 <= at,
            0 <= aq,
    ;
}

/// A fixed-point vector of the plane.
#[derive(Clone, Copy, Debug, PartialEq, Eq)]
pub struct Vec2 {
    pub x: i64,
    pub y: i64,
}

impl View for Vec2 {
    type V = Point;

    open spec fn view(&self) -> Point {
        Point { x: self.x as int, y: self.y as int }
    }
}

impl Vec2 {
    /// The vector with the given components.
    pub fn new(x: i64, y: i64) -> (v: Vec2)
        ensures
            v@ == (Point { x: x as int, y: y as int }),
    {
        Vec2 { x, y }
    }

    /// The zero vector.
    pub fn zero() -> (v: Vec2)
        ensures
            v@ == Point::zero(),
    {
        Vec2 { x: 0, y: 0 }
    }

    /// The Euclidean length, rounded down to a whole fixed-point unit.
    pub fn length(&self) -> (len: u64)
        ensures
            len == self@.length(),
    {
        let x = self.x as i128;
        let y = self.y as i128;
        wide_length(x, y)
    }
}

/// The length of the vector `(x, y)`, rounded down.
pub(crate) fn wide_length(x: i128, y: i128) -> (len: u64)
    requires
        -0x8000_0000_0000_0000 <= x <= 0x8000_0000_0000_0000,
        -0x8000_0000_0000_0000 <= y <= 0x8000_0000_0000_0000,
    ensures
        len == (Point { x: x as int, y: y as int }).length(),
{
    assert(0 <= x * x <= 0x8000_0000_0000_0000 * 0x8000_0000_0000_0000) by (nonlinear_arith)
        requires
            -0x8000_0000_0000_0000 <= x <= 0x8000_0000_0000_0000,
    ;
    assert(0 <= y * y <= 0x8000_0000_0000_0000 * 0x8000_0000_0000_0000) by (nonlinear_arith)
        requires
            -0x8000_0000_0000_0000 <= y <= 0x8000_0000_0000_0000,
    ;
    let xx = (x * x) as u128;
    let yy = (y * y) as u128;
    isqrt(xx + yy)
}

/// One component of a vector of length `len`, after the vector has been
/// stretched to length `target`.
pub(crate) fn rescale(c: i128, len: u64, target: i128) -> (r: i128)
    requires
        -0x2000_0000_0000_0000 <= c <= 0x2000_0000_0000_0000,
        -0x1_0000_0000_0000_0000 <= target <= 0x1_0000_0000_0000_0000,
    ensures
        r == rescaled(c as int, len as int, target as int),
{
    if len == 0 {
        0
    } else {
        assert(-0x2000_0000_0000_0000 * 0x1_0000_0000_0000_0000 <= c * target
            <= 0x2000_0000_0000_0000 * 0x1_0000_0000_0000_0000) by (nonlinear_arith)
            requires
                -0x2000_0000_0000_0000 <= c <= 0x2000_0000_0000_0000,
                -0x1_0000_0000_0000_0000 <= target <= 0x1_0000_0000_0000_0000,
        ;
        (c * target) / (len as i128)
    }
}

} // verus!
