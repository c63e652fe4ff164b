//! Vectors of the plane: the mathematical model and the machine type.

use vstd::prelude::*;

verus! {

/// Grid steps in one unit of length.
pub const UNIT: i64 = 1_000_000_000;

/// The largest magnitude a coordinate of a shape may have.
///
/// Differences of two shape points, and perpendiculars of differences of
/// those, then still fit in an `i64`, and their dot products in an `i128`.
pub const COORD_LIMIT: i64 = 1_000_000_000_000_000_000;

/// A vector with unbounded integer coordinates: the model of [`Vector2`].
pub struct Point {
    pub x: int,
    pub y: int,
}

impl Point {
    pub open spec fn at(x: int, y: int) -> Point {
        Point { x, y }
    }

    pub open spec fn origin() -> Point {
        Point { x: 0, y: 0 }
    }

    pub open spec fn plus(self, other: Point) -> Point {
        Point { x: self.x + other.x, y: self.y + other.y }
    }

    pub open spec fn minus(self, other: Point) -> Point {
        Point { x: self.x - other.x, y: self.y - other.y }
    }

    pub open spec fn negated(self) -> Point {
        Point { x: -self.x, y: -self.y }
    }

    pub open spec fn dot(self, other: Point) -> int {
        self.x * other.x + self.y * other.y
    }

    /// The signed area of the parallelogram spanned by `self` and `other`.
    pub open spec fn cross(self, other: Point) -> int {
        self.x * other.y - self.y * other.x
    }

    /// `self` turned a quarter clockwise.
    pub open spec fn perp(self) -> Point {
        Point { x: self.y, y: -self.x }
    }

    /// `self` with both coordinates multiplied by `factor`.
    pub open spec fn scaled(self, factor: int) -> Point {
        Point { x: factor * self.x, y: factor * self.y }
    }

    /// `self` is no longer than `radius`.
    pub open spec fn in_disc(self, radius: int) -> bool {
        0 <= radius && self.dot(self) <= radius * radius
    }

    /// Both coordinates lie in `[-bound, bound]`.
    pub open spec fn within(self, bound: int) -> bool {
        -bound <= self.x <= bound && -bound <= self.y <= bound
    }
}

/// A vector with `i64` coordinates.
#[derive(Clone, Copy, Debug, PartialEq, Eq, Structural)]
pub struct Vector2 {
    pub x: i64,
    pub y: i64,
}

impl View for Vector2 {
    type V = Point;

    open spec fn view(&self) -> Point {
        Point { x: self.x as int, y: self.y as int }
    }
}

/// The models of a sequence of vectors, in their order.
pub open spec fn points(vectors: Seq<Vector2>) -> Seq<Point> {
    Seq::new(vectors.len(), |i: int| vectors[i]@)
}

impl Vector2 {
    pub fn new(x: i64, y: i64) -> (v: Vector2)
        ensures
            v.x == x,
            v.y == y,
    {
        Vector2 { x, y }
    }

    /// Says whether both coordinates lie in `[-bound, bound]`.
    pub fn is_within(self, bound: i64) -> (within: bool)
        requires
            bound > i64::MIN,
        ensures
            within == self@.within(bound as int),
    {
        -bound <= self.x && self.x <= bound && -bound <= self.y && self.y <= bound
    }

    pub fn plus(self, other: Vector2) -> (v: Vector2)
        requires
            i64::MIN <= self.x + other.x <= i64::MAX,
            i64::MIN <= self.y + other.y <= i64::MAX,
        ensures
            v@ == self@.plus(other@),
    {
        Vector2 { x: self.x + other.x, y: self.y + other.y }
    }

    pub fn minus(self, other: Vector2) -> (v: Vector2)
        requires
            i64::MIN <= self.x - other.x <= i64::MAX,
            i64::MIN <= self.y - other.y <= i64::MAX,
        ensures
            v@ == self@.minus(other@),
    {
        Vector2 { x: self.x - other.x, y: self.y - other.y }
    }

    pub fn negated(self) -> (v: Vector2)
        requires
            self.x > i64::MIN,
            self.y > i64::MIN,
        ensures
            v@ == self@.negated(),
    {
        Vector2 { x: -self.x, y: -self.y }
    }

    /// The dot product, exact: it is formed in 128 bits.
    pub fn dot(self, other: Vector2) -> (d: i128)
        requires
            self.x > i64::MIN,
            self.y > i64::MIN,
        ensures
            d == self@.dot(other@),
    {
        let ax: i128 = self.x as i128;
        let ay: i128 = self.y as i128;
        let bx: i128 = other.x as i128;
        let by: i128 = other.y as i128;
        proof {
            lemma_product_bound(ax as int, bx as int);
            lemma_product_bound(ay as int, by as int);
        }
        ax * bx + ay * by
    }
}

/// A product of an `i64` other than the least one with any `i64` stays
/// strictly inside half the range of an `i128`.
pub proof fn lemma_product_bound(a: int, b: int)
    by (nonlinear_arith)
    requires
        -0x7fff_ffff_ffff_ffff <= a <= 0x7fff_ffff_ffff_ffff,
        -0x8000_0000_0000_0000 <= b <= 0x7fff_ffff_ffff_ffff,
    ensures
        -0x3fff_ffff_ffff_ffff_8000_0000_0000_0000 <= a * b <= 0x3fff_ffff_ffff_ffff_8000_0000_0000_0000,
{
}

/// The dot products of a point with the four unit vectors along the axes
/// are its coordinates and their opposites.
pub proof fn lemma_axis_dot(p: Point)
    by (nonlinear_arith)
    ensures
        Point::at(1, 0).dot(p) == p.x,
        Point::at(-1, 0).dot(p) == -p.x,
        Point::at(0, 1).dot(p) == p.y,
        Point::at(0, -1).dot(p) == -p.y,
{
}

/// The square of a dot product is at most the product of the squared lengths.
pub proof fn lemma_dot_squared(u: Point, w: Point)
    ensures
        u.dot(w) * u.dot(w) <= u.dot(u) * w.dot(w),
{
    let a = u.x * w.x;
    let b = u.y * w.y;
    let c = u.x * w.y;
    let d = u.y * w.x;
    assert(u.dot(w) * u.dot(w) == a * a + 2 * (a * b) + b * b) by (nonlinear_arith)
        requires
            u.dot(w) == a + b,
    ;
    assert(u.dot(u) * w.dot(w) == a * a + c * c + d * d + b * b) by {
        assert(u.dot(u) * w.dot(w) == (u.x * u.x) * (w.x * w.x) + (u.x * u.x) * (w.y * w.y) + (u.y * u.y) * (w.x
            * w.x) + (u.y * u.y) * (w.y * w.y)) by (nonlinear_arith);
        assert((u.x * u.x) * (w.x * w.x) == a * a) by (nonlinear_arith)
            requires
                a == u.x * w.x,
        ;
        assert((u.x * u.x) * (w.y * w.y) == c * c) by (nonlinear_arith)
            requires
                c == u.x * w.y,
        ;
        assert((u.y * u.y) * (w.x * w.x) == d * d) by (nonlinear_arith)
            requires
                d == u.y * w.x,
        ;
        assert((u.y * u.y) * (w.y * w.y) == b * b) by (nonlinear_arith)
            requires
                b == u.y * w.y,
        ;
    }
    assert(a * b == c * d) by (nonlinear_arith)
        requires
            a == u.x * w.x,
            b == u.y * w.y,
            c == u.x * w.y,
            d == u.y * w.x,
    ;
    assert(c * c + d * d >= 2 * (c * d)) by (nonlinear_arith);
}

/// The dot product of two vectors is at most the product of bounds on their
/// lengths.
pub proof fn lemma_dot_in_discs(u: Point, w: Point, r: int, s: int)
    requires
        u.in_disc(r),
        w.in_disc(s),
    ensures
        -(r * s) <= u.dot(w) <= r * s,
{
    lemma_dot_squared(u, w);
    let d = u.dot(w);
    assert(u.dot(u) >= 0 && w.dot(w) >= 0) by (nonlinear_arith);
    assert(u.dot(u) * w.dot(w) <= (r * r) * (s * s)) by (nonlinear_arith)
        requires
            0 <= u.dot(u) <= r * r,
            0 <= w.dot(w) <= s * s,
    ;
    assert((r * r) * (s * s) == (r * s) * (r * s)) by (nonlinear_arith);
    assert(-(r * s) <= d <= r * s) by (nonlinear_arith)
        requires
            d * d <= (r * s) * (r * s),
            0 <= r,
            0 <= s,
    ;
}

/// The sum of two vectors is no longer than the sum of bounds on their
/// lengths, and neither is their difference.
pub proof fn lemma_sum_in_disc(u: Point, w: Point, r: int, s: int)
    requires
        u.in_disc(r),
        w.in_disc(s),
    ensures
        u.plus(w).in_disc(r + s),
        u.minus(w).in_disc(r + s),
{
    lemma_dot_in_discs(u, w, r, s);
    assert(u.plus(w).dot(u.plus(w)) == u.dot(u) + 2 * u.dot(w) + w.dot(w)) by (nonlinear_arith);
    assert(u.minus(w).dot(u.minus(w)) == u.dot(u) - 2 * u.dot(w) + w.dot(w)) by (nonlinear_arith);
    assert((r + s) * (r + s) == r * r + 2 * (r * s) + s * s) by (nonlinear_arith);
}

/// A vector multiplied by a factor that is not negative is no longer than a
/// bound on its length multiplied by that factor.
pub proof fn lemma_scaled_in_disc(u: Point, r: int, factor: int)
    requires
        u.in_disc(r),
        0 <= factor,
    ensures
        u.scaled(factor).in_disc(factor * r),
{
    assert(u.scaled(factor).dot(u.scaled(factor)) == (factor * factor) * u.dot(u)) by (nonlinear_arith);
    assert((factor * r) * (factor * r) == (factor * factor) * (r * r)) by (nonlinear_arith);
    assert((factor * factor) * u.dot(u) <= (factor * factor) * (r * r)) by (nonlinear_arith)
        requires
            u.dot(u) <= r * r,
    ;
    assert(0 <= factor * r) by (nonlinear_arith)
        requires
            0 <= factor,
            0 <= r,
    ;
}

} // verus!
