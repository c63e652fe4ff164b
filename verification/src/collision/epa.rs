//! The growth of a triangle around the origin into the side of the Minkowski
//! difference nearest to it.

use vstd::prelude::*;
use crate::collision::gjk::{support, support_point, toward_origin, toward_origin_point, triangle_holds_origin};
use crate::collision::Collide;
use crate::numeric::{Course, Heading, DIRECTION_LIMIT};
use crate::vector::{points, Point, Vector2, COORD_LIMIT};

verus! {

/// A side counts as reached when the difference passes it by less than this:
/// a ten-millionth of [`crate::vector::UNIT`].
pub const TOLERANCE: i64 = 100;

/// The most points the growth adds before it gives up.
pub const EPA_ROUNDS: usize = 64;

/// The model of a side of the polygon: its outward course, how far it lies
/// from the origin, and the index of the corner it starts at.
pub struct Side {
    pub course: Course,
    pub distance: int,
    pub index: int,
}

/// The index of the corner after corner `i`, around the polygon.
pub open spec fn next_index(i: int, count: int) -> int {
    if i + 1 == count { 0 } else { i + 1 }
}

/// The side of `polygon` that starts at corner `i`; none where the side has
/// no length, and so no direction.
pub open spec fn side_at(polygon: Seq<Point>, i: int) -> Option<Side> {
    let a = polygon[i];
    let b = polygon[next_index(i, polygon.len() as int)];
    let normal = toward_origin_point(a, b).negated();
    if normal == Point::origin() {
        None
    } else {
        let course = Course::of(normal);
        Some(Side { course, distance: course.project(a), index: i })
    }
}

/// Corner `i` of `polygon` and the corner after it differ.
pub open spec fn proper_side(polygon: Seq<Point>, i: int) -> bool {
    0 <= i < polygon.len() && polygon[i] != polygon[next_index(i, polygon.len() as int)]
}

/// Some side of `polygon` has a length.
pub open spec fn has_proper_side(polygon: Seq<Point>) -> bool {
    exists|i: int| proper_side(polygon, i)
}

/// Of two sides, the nearer one; the first where neither is nearer.
pub open spec fn nearer(first: Option<Side>, second: Option<Side>) -> Option<Side> {
    match (first, second) {
        (None, _) => second,
        (Some(_), None) => first,
        (Some(f), Some(s)) => if s.distance < f.distance { second } else { first },
    }
}

/// Among the sides that start at the first `count` corners, the first that
/// none is nearer the origin than.
pub open spec fn closest_side(polygon: Seq<Point>, count: int) -> Option<Side>
    decreases count,
{
    if count <= 0 {
        None
    } else {
        nearer(closest_side(polygon, count - 1), side_at(polygon, count - 1))
    }
}

/// How two shapes lie to each other.
pub enum Outcome {
    /// They do not overlap.
    Separate,
    /// They overlap: this vector leads from the origin to the nearest side of
    /// their difference.
    Vector(Point),
    /// No side of the polygon has a length, and so none a direction.
    Degenerate,
    /// The rounds ran out.
    Unresolved,
}

/// The growth of `polygon`, with `rounds` rounds left.
pub open spec fn epa_from<A: Collide, B: Collide>(a: &A, b: &B, polygon: Seq<Point>, rounds: nat) -> Outcome
    decreases rounds,
{
    if rounds == 0 {
        Outcome::Unresolved
    } else {
        match closest_side(polygon, polygon.len() as int) {
            None => Outcome::Degenerate,
            Some(side) => {
                let p = support_point(a, b, side.course.toward);
                let delta = side.distance - side.course.project(p);
                if -TOLERANCE < delta < TOLERANCE {
                    Outcome::Vector(side.course.along(side.distance))
                } else {
                    epa_from(a, b, polygon.insert(side.index + 1, p), (rounds - 1) as nat)
                }
            },
        }
    }
}

/// How two shapes lie to each other.
#[derive(Clone, Copy, Debug)]
pub enum Resolution {
    /// They do not overlap.
    Separate,
    /// They overlap.  The vector leads from the origin to the nearest side of
    /// their difference: after moving the second shape by it, or the first
    /// against it, they overlap by less than [`TOLERANCE`] along it.
    Vector(Vector2),
    /// The search for an overlap, or the measuring of it, ran out of rounds:
    /// the shapes may overlap or not.
    Unresolved,
}

impl Resolution {
    /// The resolution says what `outcome` says.
    pub open spec fn shows(&self, outcome: Outcome) -> bool {
        match *self {
            Resolution::Separate => outcome is Separate,
            Resolution::Vector(v) => outcome == Outcome::Vector(v@),
            Resolution::Unresolved => outcome is Unresolved,
        }
    }
}

/// A side of the polygon, as the growth holds it.
#[derive(Clone, Copy, Debug)]
pub struct Edge {
    pub heading: Heading,
    pub distance: i64,
    pub index: usize,
}

impl View for Edge {
    type V = Side;

    open spec fn view(&self) -> Side {
        Side { course: self.heading@, distance: self.distance as int, index: self.index as int }
    }
}

/// The models of some sides.
pub open spec fn side_of(edge: Option<Edge>) -> Option<Side> {
    match edge {
        None => None,
        Some(e) => Some(e@),
    }
}

/// All corners lie within twice [`COORD_LIMIT`] of the origin.
pub open spec fn corners_within(polygon: Seq<Point>) -> bool {
    forall|i: int| 0 <= i < polygon.len() ==> (#[trigger] polygon[i]).within(2 * COORD_LIMIT)
}

/// Where some of the first `count` sides has a length, one of them is
/// closest.
pub proof fn lemma_closest_side_exists(polygon: Seq<Point>, count: int, i: int)
    requires
        0 <= i < count <= polygon.len(),
        proper_side(polygon, i),
    ensures
        closest_side(polygon, count) is Some,
    decreases count,
{
    if i < count - 1 {
        lemma_closest_side_exists(polygon, count - 1, i);
    }
}

/// A triangle that holds the origin has three corners that differ.
pub proof fn lemma_triangle_is_proper(p: Point, q: Point, r: Point)
    requires
        triangle_holds_origin(p, q, r),
    ensures
        has_proper_side(seq![p, q, r]),
{
    if p == q {
        assert(p.cross(p) == 0) by (nonlinear_arith);
        assert(r.cross(p) == -p.cross(r)) by (nonlinear_arith);
    }
    assert(proper_side(seq![p, q, r], 0));
}

/// A polygon with a side of some length keeps one when a corner is put in.
pub proof fn lemma_insert_keeps_proper_side(polygon: Seq<Point>, index: int, p: Point)
    requires
        0 <= index < polygon.len(),
        has_proper_side(polygon),
    ensures
        has_proper_side(polygon.insert(index + 1, p)),
{
    let grown = polygon.insert(index + 1, p);
    let i = choose|i: int| proper_side(polygon, i);
    if i < index {
        assert(proper_side(grown, i));
    } else if i > index {
        assert(proper_side(grown, i + 1));
    } else if polygon[index] != p {
        assert(proper_side(grown, index));
    } else {
        assert(proper_side(grown, index + 1));
    }
}

/// The side of `polygon` nearest the origin.
pub fn closest_edge(polygon: &Vec<Vector2>) -> (edge: Edge)
    requires
        corners_within(points(polygon@)),
        has_proper_side(points(polygon@)),
    ensures
        Some(edge@) == closest_side(points(polygon@), polygon@.len() as int),
        edge.heading.wf(),
        edge.index < polygon@.len(),
        -DIRECTION_LIMIT <= edge.distance <= DIRECTION_LIMIT,
{
    let count: usize = polygon.len();
    let mut found: Option<Edge> = None;
    let mut i: usize = 0;
    while i < count
        invariant
            0 <= i <= count,
            count == polygon@.len(),
            corners_within(points(polygon@)),
            side_of(found) == closest_side(points(polygon@), i as int),
            match found {
                None => true,
                Some(edge) => edge.heading.wf() && edge.index < polygon@.len() && -DIRECTION_LIMIT
                    <= edge.distance <= DIRECTION_LIMIT,
            },
        decreases count - i,
    {
        let next: usize = if i + 1 == count { 0 } else { i + 1 };
        let a: Vector2 = polygon[i];
        let b: Vector2 = polygon[next];
        assert(a@ == points(polygon@)[i as int]);
        assert(b@ == points(polygon@)[next as int]);
        let normal: Vector2 = toward_origin(a, b).negated();
        if normal.x != 0 || normal.y != 0 {
            let heading: Heading = Heading::of(normal);
            let distance: i64 = heading.project(a);
            let nearer: bool = match found {
                None => true,
                Some(edge) => distance < edge.distance,
            };
            if nearer {
                found = Some(Edge { heading, distance, index: i });
            }
        }
        i = i + 1;
    }
    proof {
        let proper = choose|i: int| proper_side(points(polygon@), i);
        lemma_closest_side_exists(points(polygon@), count as int, proper);
    }
    found.unwrap()
}

/// Grows the triangle `simplex`, which holds the origin, until the
/// Minkowski difference of `a` and `b` passes its side nearest the origin by
/// less than [`TOLERANCE`].
pub fn epa<A: Collide, B: Collide>(a: &A, b: &B, simplex: Vec<Vector2>) -> (resolution: Resolution)
    requires
        a.valid(),
        a.solid(),
        b.valid(),
        b.solid(),
        simplex@.len() == 3,
        corners_within(points(simplex@)),
        triangle_holds_origin(simplex@[0]@, simplex@[1]@, simplex@[2]@),
    ensures
        resolution.shows(epa_from(a, b, points(simplex@), EPA_ROUNDS as nat)),
        !(resolution is Separate),
{
    let mut polygon: Vec<Vector2> = simplex;
    let mut rounds: usize = EPA_ROUNDS;
    proof {
        lemma_triangle_is_proper(simplex@[0]@, simplex@[1]@, simplex@[2]@);
        assert(points(simplex@) =~= seq![simplex@[0]@, simplex@[1]@, simplex@[2]@]);
    }
    while rounds > 0
        invariant
            a.valid(),
            a.solid(),
            b.valid(),
            b.solid(),
            polygon@.len() + rounds == 3 + EPA_ROUNDS,
            corners_within(points(polygon@)),
            has_proper_side(points(polygon@)),
            epa_from(a, b, points(simplex@), EPA_ROUNDS as nat) == epa_from(a, b, points(polygon@), rounds as nat),
        decreases rounds,
    {
        let edge: Edge = closest_edge(&polygon);
        let normal: Vector2 = Vector2 { x: edge.heading.x, y: edge.heading.y };
        let p: Vector2 = support(a, b, normal);
        let reached: i64 = edge.heading.project(p);
        let delta: i128 = edge.distance as i128 - reached as i128;
        if -(TOLERANCE as i128) < delta && delta < TOLERANCE as i128 {
            return Resolution::Vector(edge.heading.along(edge.distance));
        }
        let ghost before = points(polygon@);
        polygon.insert(edge.index + 1, p);
        proof {
            assert(points(polygon@) =~= before.insert(edge.index + 1, p@));
            lemma_insert_keeps_proper_side(before, edge.index as int, p@);
        }
        rounds = rounds - 1;
    }
    Resolution::Unresolved
}

} // verus!
