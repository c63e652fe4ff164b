//! Intersection tests and penetration vectors for pairs of convex shapes.

pub mod circles;
pub mod epa;
pub mod gjk;
pub mod laws;

use vstd::prelude::*;
use crate::collision::epa::{epa, epa_from, Outcome, Resolution, EPA_ROUNDS};
use crate::collision::gjk::{gjk_simplex, gjk_verdict, Search, Verdict};
use crate::collision::laws::{
    lemma_clear_boxes_never_intersect, lemma_gjk_verdict_holds, lemma_is_support_in_box, verdict_holds,
};
use crate::numeric::DIRECTION_LIMIT;
use crate::shapes::rectangle::{Bounds, Rectangle};
use crate::vector::{points, Point, Vector2, COORD_LIMIT};

verus! {

/// What a convex shape offers to the collision tests.
pub trait Collide {
    /// The shape keeps its own rules and lies within [`COORD_LIMIT`] of the
    /// origin.
    spec fn valid(&self) -> bool;

    /// The shape has points; only then is one of them farthest.
    spec fn solid(&self) -> bool;

    /// The point of the shape farthest along `axis`.
    spec fn farthest_point(&self, axis: Point) -> Point;

    /// The smallest box with sides along the axes that holds the shape.
    spec fn bounding_box(&self) -> Bounds;

    /// Says whether the shape is valid.
    fn is_valid(&self) -> (valid: bool)
        ensures
            valid == self.valid(),
    ;

    /// Says whether the shape is solid.
    fn is_solid(&self) -> (solid: bool)
        ensures
            solid == self.solid(),
    ;

    /// Return the point the furthest along an axis
    fn get_farthest_point(&self, axis: Vector2) -> (p: Vector2)
        requires
            self.valid(),
            self.solid(),
            axis@.within(DIRECTION_LIMIT as int),
        ensures
            p@ == self.farthest_point(axis@),
    ;

    /// Return a bounding box
    fn get_bounding_box(&self) -> (r: Rectangle)
        requires
            self.valid(),
        ensures
            r@ == self.bounding_box(),
    ;

    /// The farthest point along any axis lies in the bounding box, and the
    /// bounding box within [`COORD_LIMIT`] of the origin.
    proof fn lemma_farthest_point_in_box(&self, axis: Point)
        requires
            self.valid(),
            self.solid(),
        ensures
            self.bounding_box().contains(self.farthest_point(axis)),
            self.bounding_box().within(COORD_LIMIT as int),
    ;

    /// No smaller box holds the shape: each side of the bounding box passes
    /// through the point of the shape farthest toward it.
    proof fn lemma_box_is_tight(&self)
        requires
            self.valid(),
            self.solid(),
        ensures
            self.bounding_box().right == self.farthest_point(Point { x: 1, y: 0 }).x,
            self.bounding_box().left == self.farthest_point(Point { x: -1, y: 0 }).x,
            self.bounding_box().top == self.farthest_point(Point { x: 0, y: 1 }).y,
            self.bounding_box().bottom == self.farthest_point(Point { x: 0, y: -1 }).y,
    ;
}

/// Anything that can be looked at as a shape for the collision tests.
pub trait AsCollide {
    type Collider: Collide;

    fn as_collide(&self) -> (collider: &Self::Collider);
}

impl<T: Collide> AsCollide for T {
    type Collider = T;

    fn as_collide(&self) -> (collider: &T)
        ensures
            collider == self,
    {
        self
    }
}

/// The search for a triangle around the origin finds one.
pub open spec fn intersecting<A: Collide, B: Collide>(a: &A, b: &B) -> bool {
    gjk_verdict(a, b) is Enclosed
}

/// Returns true if two convex objects are intersecting
///
/// That is where the search finds three points of their difference around
/// the origin.  Where it runs out of rounds, the answer is false.
pub fn intersect<A: Collide, B: Collide>(a: &A, b: &B) -> (hit: bool)
    requires
        a.valid(),
        a.solid(),
        b.valid(),
        b.solid(),
    ensures
        hit == intersecting(a, b),
        verdict_holds(a, b, gjk_verdict(a, b)),
        a.bounding_box().clear_of(b.bounding_box()) ==> !hit,
{
    proof {
        if a.bounding_box().clear_of(b.bounding_box()) {
            lemma_clear_boxes_never_intersect(a, b);
        }
    }
    match gjk_simplex(a, b) {
        Search::Enclosed(_) => true,
        _ => false,
    }
}

/// How the two shapes lie to each other: what the search finds, and where it
/// finds a triangle around the origin, what the growth of that triangle
/// ends in.
pub open spec fn resolution<A: Collide, B: Collide>(a: &A, b: &B) -> Outcome {
    match gjk_verdict(a, b) {
        Verdict::Apart(_) => Outcome::Separate,
        Verdict::Undecided => Outcome::Unresolved,
        Verdict::Enclosed(p, q, r) => epa_from(a, b, seq![p, q, r], EPA_ROUNDS as nat),
    }
}

/// The vector that parts the two shapes, where they overlap and one was
/// found.  It leads from the origin to the nearest side of the difference of
/// the shapes: after moving the second shape by it, or the first against it,
/// they overlap by less than [`crate::collision::epa::TOLERANCE`] along it.
pub open spec fn overlap_vector<A: Collide, B: Collide>(a: &A, b: &B) -> Option<Point> {
    match resolution(a, b) {
        Outcome::Vector(v) => Some(v),
        _ => None,
    }
}

/// Says how two convex objects lie to each other, telling apart the ways in
/// which no vector is found.
pub fn resolve<A: Collide, B: Collide>(a: &A, b: &B) -> (found: Resolution)
    requires
        a.valid(),
        a.solid(),
        b.valid(),
        b.solid(),
    ensures
        found.shows(resolution(a, b)),
        found is Separate <==> gjk_verdict(a, b) is Apart,
        a.bounding_box().clear_of(b.bounding_box()) ==> !(found is Vector),
{
    proof {
        lemma_gjk_verdict_holds(a, b);
        match gjk_verdict(a, b) {
            Verdict::Enclosed(p, q, r) => {
                lemma_is_support_in_box(a, b, p);
                lemma_is_support_in_box(a, b, q);
                lemma_is_support_in_box(a, b, r);
            },
            _ => {},
        }
        if a.bounding_box().clear_of(b.bounding_box()) {
            lemma_clear_boxes_never_intersect(a, b);
        }
    }
    match gjk_simplex(a, b) {
        Search::Separated => Resolution::Separate,
        Search::Exhausted => Resolution::Unresolved,
        Search::Enclosed(simplex) => {
            proof {
                assert(points(simplex@) =~= seq![simplex@[0]@, simplex@[1]@, simplex@[2]@]);
            }
            epa(a, b, simplex)
        },
    }
}

/// Returns the minimum translation vector to move two objects out of an overlap
///
/// There is none where the objects do not overlap, nor where the rounds run
/// out; [`resolve`] tells the two apart.
pub fn overlap<A: Collide, B: Collide>(a: &A, b: &B) -> (mtv: Option<Vector2>)
    requires
        a.valid(),
        a.solid(),
        b.valid(),
        b.solid(),
    ensures
        match mtv {
            Some(v) => overlap_vector(a, b) == Some(v@),
            None => overlap_vector(a, b) is None,
        },
        mtv is Some ==> intersecting(a, b),
        a.bounding_box().clear_of(b.bounding_box()) ==> mtv is None,
{
    match resolve(a, b) {
        Resolution::Vector(v) => Some(v),
        Resolution::Separate => None,
        Resolution::Unresolved => None,
    }
}

} // verus!
