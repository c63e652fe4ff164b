//! The search for a triangle of the Minkowski difference around the origin.

use vstd::prelude::*;
use crate::collision::laws::{lemma_gjk_verdict_holds, verdict_holds};
use crate::collision::Collide;
use crate::numeric::DIRECTION_LIMIT;
use crate::shapes::rectangle::Bounds;
use crate::vector::{Point, Vector2, COORD_LIMIT};

verus! {

/// The most rounds the search takes before it gives up.
pub const GJK_ROUNDS: usize = 128;

/// The point of the Minkowski difference of `a` and `b` farthest along
/// `direction`.
pub open spec fn support_point<A: Collide, B: Collide>(a: &A, b: &B, direction: Point) -> Point {
    a.farthest_point(direction).minus(b.farthest_point(direction.negated()))
}

/// The perpendicular of the line through `a` and `b` that does not point away
/// from the origin, as seen from `b`.
pub open spec fn toward_origin_point(a: Point, b: Point) -> Point {
    let direction = b.minus(a).perp();
    if direction.dot(b) > 0 {
        direction.negated()
    } else {
        direction
    }
}

/// The box that holds every difference of a point of `a` and a point of `b`.
pub open spec fn difference_box(a: Bounds, b: Bounds) -> Bounds {
    Bounds { left: a.left - b.right, right: a.right - b.left, top: a.top - b.bottom, bottom: a.bottom - b.top }
}

/// The origin is a weighted mean of `a`, `b` and `c`: the three areas that the
/// origin spans with the sides of the triangle have one sign, and one of
/// them is not zero.
pub open spec fn triangle_holds_origin(a: Point, b: Point, c: Point) -> bool {
    let wa = b.cross(c);
    let wb = c.cross(a);
    let wc = a.cross(b);
    ||| wa >= 0 && wb >= 0 && wc >= 0 && wa + wb + wc > 0
    ||| wa <= 0 && wb <= 0 && wc <= 0 && wa + wb + wc < 0
}

/// How the search ends.
pub enum Verdict {
    /// Along this direction the difference does not pass the origin.
    Apart(Point),
    /// These three points of the difference hold the origin between them.
    Enclosed(Point, Point, Point),
    /// The rounds ran out.
    Undecided,
}

/// The search from the segment `p0`, `p1` on, with `rounds` rounds left.
pub open spec fn gjk_from<A: Collide, B: Collide>(a: &A, b: &B, p0: Point, p1: Point, rounds: nat) -> Verdict
    decreases rounds,
{
    if rounds == 0 {
        Verdict::Undecided
    } else {
        let direction = toward_origin_point(p0, p1);
        let last = support_point(a, b, direction);
        if direction.dot(last) <= 0 {
            Verdict::Apart(direction)
        } else if toward_origin_point(p0, last).dot(p1) < 0 {
            gjk_from(a, b, p0, last, (rounds - 1) as nat)
        } else if toward_origin_point(p1, last).dot(p0) < 0 {
            gjk_from(a, b, p1, last, (rounds - 1) as nat)
        } else {
            Verdict::Enclosed(p0, p1, last)
        }
    }
}

/// The whole search: from the points farthest to the right and to the left.
pub open spec fn gjk_verdict<A: Collide, B: Collide>(a: &A, b: &B) -> Verdict {
    let right = Point { x: 1, y: 0 };
    let p0 = support_point(a, b, right);
    let p1 = support_point(a, b, right.negated());
    if right.negated().dot(p1) <= 0 {
        Verdict::Apart(right.negated())
    } else {
        gjk_from(a, b, p0, p1, GJK_ROUNDS as nat)
    }
}

/// How a search ended.
#[derive(Debug)]
pub enum Search {
    /// The shapes do not overlap.
    Separated,
    /// The shapes overlap: three points of their difference around the origin.
    Enclosed(Vec<Vector2>),
    /// The rounds ran out before the search settled.
    Exhausted,
}

impl Search {
    /// The search ended as `verdict` says.
    pub open spec fn shows(&self, verdict: Verdict) -> bool {
        match *self {
            Search::Separated => verdict is Apart,
            Search::Enclosed(simplex) => simplex@.len() == 3 && verdict == Verdict::Enclosed(
                simplex@[0]@,
                simplex@[1]@,
                simplex@[2]@,
            ),
            Search::Exhausted => verdict is Undecided,
        }
    }
}

/// The dot product of a perpendicular toward the origin with a third point,
/// in areas.
pub proof fn lemma_toward_origin_dot(p: Point, q: Point, r: Point)
    by (nonlinear_arith)
    ensures
        toward_origin_point(p, q).dot(r) == if p.cross(q) > 0 {
            q.cross(r) - p.cross(r)
        } else {
            p.cross(r) - q.cross(r)
        },
        toward_origin_point(p, q).dot(q) <= 0,
        toward_origin_point(p, q).dot(q.minus(p)) == 0,
{
}

/// Turning the two vectors of an area round turns its sign.
pub proof fn lemma_cross_turned(p: Point, q: Point)
    by (nonlinear_arith)
    ensures
        q.cross(p) == -p.cross(q),
{
}

/// A point farthest along a direction lies in the difference of the bounding
/// boxes, and with it within twice [`COORD_LIMIT`] of the origin.
pub proof fn lemma_support_in_box<A: Collide, B: Collide>(a: &A, b: &B, direction: Point)
    requires
        a.valid(),
        a.solid(),
        b.valid(),
        b.solid(),
    ensures
        difference_box(a.bounding_box(), b.bounding_box()).contains(support_point(a, b, direction)),
        support_point(a, b, direction).within(2 * COORD_LIMIT),
{
    a.lemma_farthest_point_in_box(direction);
    b.lemma_farthest_point_in_box(direction.negated());
}

/// Return the point farthest along an axis on the minkowski difference
pub fn support<A: Collide, B: Collide>(a: &A, b: &B, direction: Vector2) -> (p: Vector2)
    requires
        a.valid(),
        a.solid(),
        b.valid(),
        b.solid(),
        direction@.within(DIRECTION_LIMIT as int),
    ensures
        p@ == support_point(a, b, direction@),
        p@.within(2 * COORD_LIMIT),
{
    let p1: Vector2 = a.get_farthest_point(direction);
    let p2: Vector2 = b.get_farthest_point(direction.negated());
    proof {
        a.lemma_farthest_point_in_box(direction@);
        b.lemma_farthest_point_in_box(direction@.negated());
    }
    p1.minus(p2)
}

/// Return a direction vector perpendicular to a line toward the origin
pub fn toward_origin(a: Vector2, b: Vector2) -> (direction: Vector2)
    requires
        a@.within(2 * COORD_LIMIT),
        b@.within(2 * COORD_LIMIT),
    ensures
        direction@ == toward_origin_point(a@, b@),
        direction@.within(DIRECTION_LIMIT as int),
{
    let direction: Vector2 = Vector2::new(b.y - a.y, a.x - b.x);
    if direction.dot(b) > 0 {
        direction.negated()
    } else {
        direction
    }
}

/// Returns the final simplex between two convex objects, if there is one
pub fn gjk_simplex<A: Collide, B: Collide>(a: &A, b: &B) -> (found: Search)
    requires
        a.valid(),
        a.solid(),
        b.valid(),
        b.solid(),
    ensures
        found.shows(gjk_verdict(a, b)),
        verdict_holds(a, b, gjk_verdict(a, b)),
{
    proof {
        lemma_gjk_verdict_holds(a, b);
    }
    let mut direction: Vector2 = Vector2 { x: 1, y: 0 };
    let mut p0: Vector2 = support(a, b, direction);
    direction = direction.negated();
    let mut p1: Vector2 = support(a, b, direction);
    if direction.dot(p1) <= 0 {
        return Search::Separated;
    }
    direction = toward_origin(p0, p1);
    let mut rounds: usize = GJK_ROUNDS;
    while rounds > 0
        invariant
            a.valid(),
            a.solid(),
            b.valid(),
            b.solid(),
            p0@.within(2 * COORD_LIMIT),
            p1@.within(2 * COORD_LIMIT),
            direction@ == toward_origin_point(p0@, p1@),
            direction@.within(DIRECTION_LIMIT as int),
            gjk_verdict(a, b) == gjk_from(a, b, p0@, p1@, rounds as nat),
            verdict_holds(a, b, gjk_verdict(a, b)),
        decreases rounds,
    {
        let last: Vector2 = support(a, b, direction);
        if direction.dot(last) <= 0 {
            return Search::Separated;
        }
        let a_perp: Vector2 = toward_origin(p0, last);
        let b_perp: Vector2 = toward_origin(p1, last);
        if a_perp.dot(p1) < 0 {
            p1 = last;
            direction = a_perp;
        } else if b_perp.dot(p0) < 0 {
            p0 = p1;
            p1 = last;
            direction = b_perp;
        } else {
            let mut simplex: Vec<Vector2> = Vec::new();
            simplex.push(p0);
            simplex.push(p1);
            simplex.push(last);
            return Search::Enclosed(simplex);
        }
        rounds = rounds - 1;
    }
    Search::Exhausted
}

} // verus!
