//! Integer square roots and directions of known length.
//!
//! A unit vector has no place on an integer grid.  A [`Heading`] stands for
//! one: a vector stretched to full machine precision, kept together with its
//! length rounded up.  Measuring along it, or walking a distance along it,
//! is then one exact product and one division.

use vstd::prelude::*;
use crate::vector::{Point, Vector2};

verus! {

/// The largest magnitude a coordinate of a direction may have: four times
/// [`crate::vector::COORD_LIMIT`].
pub const DIRECTION_LIMIT: i64 = 4_000_000_000_000_000_000;

/// Directions are stretched until a coordinate reaches this magnitude.
pub const STRETCH_FLOOR: i64 = 0x1000_0000_0000_0000;

/// `r` is the square root of `x`, rounded up.
pub open spec fn is_ceil_root(x: int, r: int) -> bool {
    &&& 0 <= r
    &&& x <= r * r
    &&& r == 0 || (r - 1) * (r - 1) < x
}

/// The square root of `x`, rounded up.
pub open spec fn ceil_root(x: int) -> int {
    choose|r: int| is_ceil_root(x, r)
}

/// A square is bounded by the square of a bound on the magnitude.
pub proof fn lemma_square_bound(a: int, m: int)
    by (nonlinear_arith)
    requires
        -m <= a <= m,
    ensures
        0 <= a * a <= m * m,
{
}

/// Squaring keeps the order of natural numbers.
pub proof fn lemma_square_monotone(a: int, b: int)
    by (nonlinear_arith)
    requires
        0 <= a <= b,
    ensures
        a * a <= b * b,
{
}

/// A number has at most one rounded-up square root.
pub proof fn lemma_ceil_root_unique(x: int, r: int)
    requires
        is_ceil_root(x, r),
    ensures
        ceil_root(x) == r,
{
    let c = ceil_root(x);
    assert(is_ceil_root(x, c));
    if c < r {
        lemma_square_monotone(c, r - 1);
    } else if r < c {
        lemma_square_monotone(r, c - 1);
    }
}

/// Every natural number has a rounded-up square root.
pub proof fn lemma_ceil_root_exists(x: int)
    requires
        0 <= x,
    ensures
        is_ceil_root(x, ceil_root(x)),
    decreases x,
{
    if x == 0 {
        assert(is_ceil_root(0, 0));
    } else {
        lemma_ceil_root_exists(x - 1);
        let r = ceil_root(x - 1);
        if x <= r * r {
            assert(is_ceil_root(x, r));
        } else {
            assert((r + 1) * (r + 1) == r * r + 2 * r + 1) by (nonlinear_arith);
            assert(is_ceil_root(x, r + 1));
        }
    }
}

/// The square root of `x`, rounded up.
pub fn isqrt_ceil(x: u128) -> (r: u64)
    requires
        x <= 0x3fff_ffff_ffff_ffff_ffff_ffff_ffff_ffff,
    ensures
        r == ceil_root(x as int),
        is_ceil_root(x as int, r as int),
{
    if x == 0 {
        proof {
            lemma_ceil_root_unique(0, 0);
        }
        return 0;
    }
    let mut low: u64 = 0;
    let mut high: u64 = 0x8000_0000_0000_0000;
    assert(0x3fff_ffff_ffff_ffff_ffff_ffff_ffff_ffff <= 0x8000_0000_0000_0000int * 0x8000_0000_0000_0000int) by (nonlinear_arith);
    while high - low > 1
        invariant
            low < high <= 0x8000_0000_0000_0000,
            low * low < x <= high * high,
        decreases high - low,
    {
        let middle: u64 = low + (high - low) / 2;
        proof {
            lemma_square_monotone(middle as int, 0x8000_0000_0000_0000);
            assert(0x8000_0000_0000_0000int * 0x8000_0000_0000_0000int <= u128::MAX) by (nonlinear_arith);
        }
        let square: u128 = (middle as u128) * (middle as u128);
        if square < x {
            low = middle;
        } else {
            high = middle;
        }
    }
    proof {
        assert(high - 1 == low);
        lemma_ceil_root_unique(x as int, high as int);
    }
    high
}

/// The larger of the magnitudes of the two coordinates.
pub open spec fn reach(v: Point) -> int {
    let ax = if v.x < 0 { -v.x } else { v.x };
    let ay = if v.y < 0 { -v.y } else { v.y };
    if ax < ay { ay } else { ax }
}

/// How far `reach(v)` is below [`STRETCH_FLOOR`].
pub open spec fn slack(v: Point) -> nat {
    if reach(v) < STRETCH_FLOOR { (STRETCH_FLOOR - reach(v)) as nat } else { 0 }
}

/// `v` doubled until a coordinate reaches [`STRETCH_FLOOR`]; the zero vector
/// stays as it is.
pub open spec fn stretched(v: Point) -> Point
    decreases slack(v),
{
    if reach(v) == 0 || reach(v) >= STRETCH_FLOOR {
        v
    } else {
        stretched(Point { x: 2 * v.x, y: 2 * v.y })
    }
}

/// The quotient of `a` by a positive `d`, rounded toward zero.
pub open spec fn trunc_div(a: int, d: int) -> int {
    if a >= 0 { a / d } else { -((-a) / d) }
}

/// The model of a [`Heading`]: a vector and its length, rounded up.
pub struct Course {
    pub toward: Point,
    pub length: int,
}

impl Course {
    /// The length is positive and no less than the vector is long, so that
    /// the course stands for a vector no longer than one.
    pub open spec fn sound(self) -> bool {
        0 < self.length && self.toward.dot(self.toward) <= self.length * self.length
    }

    /// The vector reaches [`STRETCH_FLOOR`], and the length is the root of
    /// its square, rounded up: the course is one that [`Course::of`] sets.
    pub open spec fn full(self) -> bool {
        reach(self.toward) >= STRETCH_FLOOR && is_ceil_root(self.toward.dot(self.toward), self.length)
    }

    /// The course that `v` sets.
    pub open spec fn of(v: Point) -> Course {
        let s = stretched(v);
        Course { toward: s, length: ceil_root(s.dot(s)) }
    }

    /// The length of `p` measured along the course, rounded toward zero.
    pub open spec fn project(self, p: Point) -> int {
        trunc_div(self.toward.dot(p), self.length)
    }

    /// The vector of length `distance` along the course, each coordinate
    /// rounded toward zero.
    pub open spec fn along(self, distance: int) -> Point {
        Point {
            x: trunc_div(self.toward.x * distance, self.length),
            y: trunc_div(self.toward.y * distance, self.length),
        }
    }
}

/// A direction held to full precision together with its length.
#[derive(Clone, Copy, Debug)]
pub struct Heading {
    pub x: i64,
    pub y: i64,
    pub length: u64,
}

impl View for Heading {
    type V = Course;

    open spec fn view(&self) -> Course {
        Course { toward: Point { x: self.x as int, y: self.y as int }, length: self.length as int }
    }
}

/// Truncating division is bounded by its quotient of bounds.
pub proof fn lemma_trunc_div_bound(a: int, d: int, m: int)
    by (nonlinear_arith)
    requires
        0 < d,
        0 <= m,
        -(m * d) <= a <= m * d,
    ensures
        -m <= trunc_div(a, d) <= m,
        a >= 0 ==> 0 <= trunc_div(a, d) && trunc_div(a, d) * d <= a,
        a <= 0 ==> trunc_div(a, d) <= 0 && a <= trunc_div(a, d) * d,
{
}

/// `a` divided by `d`, rounded toward zero.
pub fn div_trunc(a: i128, d: u64) -> (q: i128)
    requires
        d > 0,
        a > i128::MIN,
    ensures
        q == trunc_div(a as int, d as int),
{
    if a >= 0 {
        ((a as u128) / (d as u128)) as i128
    } else {
        let q: u128 = ((-a) as u128) / (d as u128);
        -(q as i128)
    }
}

impl Heading {
    /// The heading lies within [`DIRECTION_LIMIT`], and its course is sound.
    pub open spec fn wf(self) -> bool {
        self@.toward.within(DIRECTION_LIMIT as int) && self@.sound()
    }

    /// The heading of a vector other than zero.
    pub fn of(v: Vector2) -> (h: Heading)
        requires
            v@.within(DIRECTION_LIMIT as int),
            v@ != Point::origin(),
        ensures
            h@ == Course::of(v@),
            h.wf(),
    {
        let mut x: i64 = v.x;
        let mut y: i64 = v.y;
        while -STRETCH_FLOOR < x && x < STRETCH_FLOOR && -STRETCH_FLOOR < y && y < STRETCH_FLOOR
            invariant
                Point::at(x as int, y as int).within(DIRECTION_LIMIT as int),
                reach(Point::at(x as int, y as int)) > 0,
                stretched(Point::at(x as int, y as int)) == stretched(v@),
            decreases slack(Point::at(x as int, y as int)),
        {
            x = 2 * x;
            y = 2 * y;
        }
        let ghost s = Point::at(x as int, y as int);
        let wide_x: i128 = x as i128;
        let wide_y: i128 = y as i128;
        proof {
            lemma_square_bound(x as int, DIRECTION_LIMIT as int);
            lemma_square_bound(y as int, DIRECTION_LIMIT as int);
            assert(DIRECTION_LIMIT * DIRECTION_LIMIT == 16_000_000_000_000_000_000_000_000_000_000_000_000int)
                by (nonlinear_arith);
        }
        let squared: u128 = (wide_x * wide_x + wide_y * wide_y) as u128;
        let length: u64 = isqrt_ceil(squared);
        proof {
            assert(s == stretched(v@));
            lemma_course_of(v@);
        }
        Heading { x, y, length }
    }

    /// The length of `p` measured along the heading, rounded toward zero.
    pub fn project(&self, p: Vector2) -> (d: i64)
        requires
            self.wf(),
            p@.within(DIRECTION_LIMIT as int),
        ensures
            d == self@.project(p@),
            -2 * reach(p@) <= d <= 2 * reach(p@),
    {
        let product: i128 = Vector2 { x: self.x, y: self.y }.dot(p);
        proof {
            lemma_projection_bound(self@, p@);
            crate::vector::lemma_product_bound(self.x as int, p.x as int);
            crate::vector::lemma_product_bound(self.y as int, p.y as int);
        }
        let q: i128 = div_trunc(product, self.length);
        q as i64
    }

    /// The vector of length `distance` along the heading, each coordinate
    /// rounded toward zero.
    pub fn along(&self, distance: i64) -> (v: Vector2)
        requires
            self.wf(),
            distance > i64::MIN,
        ensures
            v@ == self@.along(distance as int),
    {
        proof {
            lemma_along_bound(self@, distance as int);
            crate::vector::lemma_product_bound(distance as int, self.x as int);
            crate::vector::lemma_product_bound(distance as int, self.y as int);
            assert(self.x * distance == distance * self.x) by (nonlinear_arith);
            assert(self.y * distance == distance * self.y) by (nonlinear_arith);
        }
        let x: i128 = div_trunc((self.x as i128) * (distance as i128), self.length);
        let y: i128 = div_trunc((self.y as i128) * (distance as i128), self.length);
        Vector2 { x: x as i64, y: y as i64 }
    }
}

/// A vector other than zero stretches to one that reaches [`STRETCH_FLOOR`],
/// and a vector that lies within [`DIRECTION_LIMIT`] to one that does.
pub proof fn lemma_stretched(v: Point)
    requires
        reach(v) > 0,
    ensures
        reach(stretched(v)) >= STRETCH_FLOOR,
        v.within(DIRECTION_LIMIT as int) ==> stretched(v).within(DIRECTION_LIMIT as int),
    decreases slack(v),
{
    if reach(v) < STRETCH_FLOOR {
        lemma_stretched(Point { x: 2 * v.x, y: 2 * v.y });
    }
}

/// A vector along an axis stretches along that axis, and one vector as far
/// as the other where the two reach as far.
pub proof fn lemma_stretched_axis(v: Point)
    ensures
        v.x == 0 ==> stretched(v).x == 0,
        v.y == 0 ==> stretched(v).y == 0,
        v.x > 0 ==> stretched(v).x > 0,
        v.x < 0 ==> stretched(v).x < 0,
        v.y > 0 ==> stretched(v).y > 0,
        v.y < 0 ==> stretched(v).y < 0,
    decreases slack(v),
{
    if !(reach(v) == 0 || reach(v) >= STRETCH_FLOOR) {
        lemma_stretched_axis(Point { x: 2 * v.x, y: 2 * v.y });
    }
}

/// Along an axis, the vector of a given length is that length along the
/// axis, exactly.
pub proof fn lemma_along_axis(v: Point, distance: int)
    requires
        reach(v) > 0,
        v.x == 0 || v.y == 0,
    ensures
        v.x > 0 ==> Course::of(v).along(distance) == Point::at(distance, 0),
        v.x < 0 ==> Course::of(v).along(distance) == Point::at(-distance, 0),
        v.y > 0 ==> Course::of(v).along(distance) == Point::at(0, distance),
        v.y < 0 ==> Course::of(v).along(distance) == Point::at(0, -distance),
{
    lemma_stretched_axis(v);
    lemma_course_of(v);
    let c = Course::of(v);
    let s = c.toward;
    let k = if s.x != 0 { s.x } else { s.y };
    let m = if k < 0 { -k } else { k };
    assert(s.dot(s) == m * m) by (nonlinear_arith)
        requires
            s.x == 0 && (s.y == m || s.y == -m) || s.y == 0 && (s.x == m || s.x == -m),
    ;
    assert(is_ceil_root(m * m, m)) by {
        assert((m - 1) * (m - 1) < m * m) by (nonlinear_arith)
            requires
                m > 0,
        ;
    }
    lemma_ceil_root_unique(m * m, m);
    assert(c.length == m);
    assert(trunc_div(m * distance, m) == distance && trunc_div((-m) * distance, m) == -distance && trunc_div(
        0 * distance,
        m,
    ) == 0) by (nonlinear_arith)
        requires
            m > 0,
    ;
}

/// Stretching a vector keeps the sign of its dot product with any other.
pub proof fn lemma_stretched_dot(v: Point, p: Point)
    ensures
        v.dot(p) >= 0 ==> stretched(v).dot(p) >= 0,
        v.dot(p) <= 0 ==> stretched(v).dot(p) <= 0,
    decreases slack(v),
{
    if !(reach(v) == 0 || reach(v) >= STRETCH_FLOOR) {
        let twice = Point { x: 2 * v.x, y: 2 * v.y };
        assert(twice.dot(p) == 2 * v.dot(p)) by (nonlinear_arith)
            requires
                twice.x == 2 * v.x,
                twice.y == 2 * v.y,
        ;
        lemma_stretched_dot(twice, p);
    }
}

/// The course of a vector other than zero has a length that is the rounded-up
/// root of its square, and a direction that reaches [`STRETCH_FLOOR`].
pub proof fn lemma_course_of(v: Point)
    requires
        reach(v) > 0,
    ensures
        Course::of(v).full(),
        Course::of(v).sound(),
{
    lemma_stretched(v);
    let s = stretched(v);
    assert(s.dot(s) >= 0) by (nonlinear_arith);
    lemma_ceil_root_exists(s.dot(s));
    let l = Course::of(v).length;
    if l == 0 {
        assert(l * l == 0) by (nonlinear_arith)
            requires
                l == 0,
        ;
        assert(s.x * s.x >= 0 && s.y * s.y >= 0) by (nonlinear_arith);
        assert(s.x == 0) by (nonlinear_arith)
            requires
                s.x * s.x <= 0,
        ;
        assert(s.y == 0) by (nonlinear_arith)
            requires
                s.y * s.y <= 0,
        ;
    }
}

/// A full course is the course that its own vector sets, and the course that
/// the opposite vector sets is the same course turned round.
pub proof fn lemma_full_course(c: Course)
    requires
        c.full(),
    ensures
        Course::of(c.toward) == c,
        Course::of(c.toward.negated()) == (Course { toward: c.toward.negated(), length: c.length }),
{
    let s = c.toward;
    assert(stretched(s) == s);
    assert(stretched(s.negated()) == s.negated());
    assert(s.negated().dot(s.negated()) == s.dot(s)) by (nonlinear_arith);
    lemma_ceil_root_unique(s.dot(s), c.length);
}

/// Truncation takes less than one divisor from a dividend.
pub proof fn lemma_trunc_div_lower(a: int, d: int)
    by (nonlinear_arith)
    requires
        0 < d,
    ensures
        d * trunc_div(a, d) > a - d,
{
}

/// A number times its share of a distance, rounded toward zero, falls short
/// of its square times the distance by less than its magnitude, all
/// counted in divisors.
pub proof fn lemma_trunc_product(x: int, distance: int, l: int)
    requires
        0 < l,
        0 <= distance,
    ensures
        l * (x * trunc_div(x * distance, l)) >= x * x * distance - l * (if x < 0 { -x } else { x }),
{
    let q = trunc_div(x * distance, l);
    if x >= 0 {
        assert(x * distance >= 0) by (nonlinear_arith)
            requires
                x >= 0,
                distance >= 0,
        ;
        lemma_trunc_div_lower(x * distance, l);
        assert(l * (x * q) >= x * x * distance - l * x) by (nonlinear_arith)
            requires
                l * q > x * distance - l,
                x >= 0,
        ;
    } else {
        let p = (-(x * distance)) / l;
        assert(x * distance <= 0) by (nonlinear_arith)
            requires
                x < 0,
                distance >= 0,
        ;
        assert(q == -p);
        assert(l * p > -(x * distance) - l) by (nonlinear_arith)
            requires
                p == (-(x * distance)) / l,
                l > 0,
        ;
        assert(l * (x * q) >= x * x * distance - l * (-x)) by (nonlinear_arith)
            requires
                l * p > -(x * distance) - l,
                q == -p,
                x < 0,
        ;
    }
}

/// Along a full course, the vector of a given length reaches almost as far
/// as that length: the dot product with the vector of the course falls
/// short of length times distance by no more than twice their sum.
pub proof fn lemma_along_reaches(c: Course, distance: int)
    requires
        c.full(),
        c.sound(),
        0 <= distance,
    ensures
        c.toward.dot(c.along(distance)) >= c.length * distance - 2 * distance - 2 * c.length,
{
    let s = c.toward;
    let l = c.length;
    let u = c.along(distance);
    let ax = if s.x < 0 { -s.x } else { s.x };
    let ay = if s.y < 0 { -s.y } else { s.y };
    lemma_length_dominates(c);
    lemma_trunc_product(s.x, distance, l);
    lemma_trunc_product(s.y, distance, l);
    assert(l * s.dot(u) == l * (s.x * u.x) + l * (s.y * u.y)) by (nonlinear_arith)
        requires
            s.dot(u) == s.x * u.x + s.y * u.y,
    ;
    assert(s.x * s.x * distance + s.y * s.y * distance == s.dot(s) * distance) by (nonlinear_arith);
    assert(l * ax + l * ay <= 2 * (l * l)) by (nonlinear_arith)
        requires
            0 <= ax <= l,
            0 <= ay <= l,
    ;
    assert(l * s.dot(u) >= s.dot(s) * distance - 2 * (l * l));
    assert((l - 1) * (l - 1) == l * l - 2 * l + 1) by (nonlinear_arith);
    assert(s.dot(s) * distance >= (l * l - 2 * l) * distance) by (nonlinear_arith)
        requires
            s.dot(s) >= l * l - 2 * l,
            distance >= 0,
    ;
    assert(s.dot(u) >= l * distance - 2 * distance - 2 * l) by (nonlinear_arith)
        requires
            l * s.dot(u) >= (l * l - 2 * l) * distance - 2 * (l * l),
            l > 0,
    ;
}

/// The length of a course is at least the magnitude of each coordinate.
pub proof fn lemma_length_dominates(c: Course)
    requires
        c.sound(),
    ensures
        -c.length <= c.toward.x <= c.length,
        -c.length <= c.toward.y <= c.length,
{
    let x = c.toward.x;
    let y = c.toward.y;
    let l = c.length;
    assert(x * x + y * y <= l * l);
    assert(x * x >= 0 && y * y >= 0) by (nonlinear_arith);
    assert(-l <= x <= l) by (nonlinear_arith)
        requires
            x * x <= l * l,
            0 <= l,
    ;
    assert(-l <= y <= l) by (nonlinear_arith)
        requires
            y * y <= l * l,
            0 <= l,
    ;
}

/// A projection is bounded by the sum of the magnitudes of the coordinates.
pub proof fn lemma_projection_bound(c: Course, p: Point)
    requires
        c.sound(),
    ensures
        -(reach(p) + reach(p)) <= c.project(p) <= reach(p) + reach(p),
{
    lemma_length_dominates(c);
    let x = c.toward.x;
    let y = c.toward.y;
    let l = c.length;
    let m = reach(p);
    assert(-(m * l) <= x * p.x <= m * l) by (nonlinear_arith)
        requires
            -l <= x <= l,
            -m <= p.x <= m,
    ;
    assert(-(m * l) <= y * p.y <= m * l) by (nonlinear_arith)
        requires
            -l <= y <= l,
            -m <= p.y <= m,
    ;
    assert((m + m) * l == m * l + m * l) by (nonlinear_arith);
    lemma_trunc_div_bound(c.toward.dot(p), l, m + m);
}

/// The vector along a course is no longer than the distance asked for.
pub proof fn lemma_along_bound(c: Course, distance: int)
    requires
        c.sound(),
    ensures
        -distance <= c.along(distance).x <= distance || distance <= c.along(distance).x <= -distance,
        -distance <= c.along(distance).y <= distance || distance <= c.along(distance).y <= -distance,
{
    lemma_length_dominates(c);
    let x = c.toward.x;
    let y = c.toward.y;
    let l = c.length;
    let m = if distance < 0 { -distance } else { distance };
    assert(-(m * l) <= x * distance <= m * l) by (nonlinear_arith)
        requires
            -l <= x <= l,
            -m <= distance <= m,
    ;
    assert(-(m * l) <= y * distance <= m * l) by (nonlinear_arith)
        requires
            -l <= y <= l,
            -m <= distance <= m,
    ;
    lemma_trunc_div_bound(x * distance, l, m);
    lemma_trunc_div_bound(y * distance, l, m);
}

/// The vector along a course ends inside the circle of radius `distance`.
pub proof fn lemma_along_inside(c: Course, distance: int)
    requires
        c.sound(),
        0 <= distance,
    ensures
        c.along(distance).dot(c.along(distance)) <= distance * distance,
{
    lemma_length_dominates(c);
    let x = c.toward.x;
    let y = c.toward.y;
    let l = c.length;
    let ax = if x < 0 { -x } else { x };
    let ay = if y < 0 { -y } else { y };
    let u = c.along(distance).x;
    let w = c.along(distance).y;
    let au = if u < 0 { -u } else { u };
    let aw = if w < 0 { -w } else { w };
    assert(0 <= au * l <= ax * distance) by {
        lemma_scaled_magnitude(x, distance, l);
    }
    assert(0 <= aw * l <= ay * distance) by {
        lemma_scaled_magnitude(y, distance, l);
    }
    lemma_square_monotone(au * l, ax * distance);
    lemma_square_monotone(aw * l, ay * distance);
    lemma_magnitude_square(x);
    lemma_magnitude_square(y);
    lemma_magnitude_square(u);
    lemma_magnitude_square(w);
    assert(u * u + w * w <= distance * distance) by (nonlinear_arith)
        requires
            (au * l) * (au * l) <= (ax * distance) * (ax * distance),
            (aw * l) * (aw * l) <= (ay * distance) * (ay * distance),
            x * x + y * y <= l * l,
            ax * ax == x * x,
            ay * ay == y * y,
            au * au == u * u,
            aw * aw == w * w,
            l > 0,
            distance >= 0,
    {
        assert((au * l) * (au * l) == (u * u) * (l * l));
        assert((aw * l) * (aw * l) == (w * w) * (l * l));
        assert((ax * distance) * (ax * distance) == (x * x) * (distance * distance));
        assert((ay * distance) * (ay * distance) == (y * y) * (distance * distance));
        assert((u * u + w * w) * (l * l) <= (x * x + y * y) * (distance * distance));
        assert((x * x + y * y) * (distance * distance) <= (l * l) * (distance * distance));
        assert((u * u + w * w) * (l * l) <= (distance * distance) * (l * l));
    }
}

/// A number and its magnitude have the same square.
pub proof fn lemma_magnitude_square(x: int)
    by (nonlinear_arith)
    ensures
        (if x < 0 { -x } else { x }) * (if x < 0 { -x } else { x }) == x * x,
{
}

/// The magnitude of a truncated quotient, times the divisor, is at most the
/// magnitude of the dividend.
pub proof fn lemma_scaled_magnitude(x: int, distance: int, l: int)
    by (nonlinear_arith)
    requires
        l > 0,
        distance >= 0,
    ensures
        ({
            let q = trunc_div(x * distance, l);
            let aq = if q < 0 { -q } else { q };
            let ax = if x < 0 { -x } else { x };
            0 <= aq * l <= ax * distance
        }),
{
}

} // verus!
