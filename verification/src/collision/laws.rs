//! What holds of every search, whatever the shapes.

use vstd::prelude::*;
use crate::collision::gjk::{
    difference_box, gjk_from, gjk_verdict, lemma_cross_turned, lemma_support_in_box, lemma_toward_origin_dot,
    support_point, toward_origin_point, triangle_holds_origin, Verdict, GJK_ROUNDS,
};
use crate::collision::epa::{closest_side, epa_from, next_index, side_at, Outcome, Side, EPA_ROUNDS, TOLERANCE};
use crate::collision::{intersecting, overlap_vector, Collide};
use crate::numeric::{lemma_course_of, lemma_stretched_dot, reach, trunc_div, Course};
use crate::shapes::Shape;
use crate::vector::Point;

verus! {

/// `p` is the point of the difference of `a` and `b` farthest along some
/// direction.
pub open spec fn is_support<A: Collide, B: Collide>(a: &A, b: &B, p: Point) -> bool {
    exists|direction: Point| p == #[trigger] support_point(a, b, direction)
}

/// What a verdict claims.
pub open spec fn verdict_holds<A: Collide, B: Collide>(a: &A, b: &B, verdict: Verdict) -> bool {
    match verdict {
        Verdict::Apart(direction) => direction.dot(support_point(a, b, direction)) <= 0,
        Verdict::Enclosed(p, q, r) => {
            &&& triangle_holds_origin(p, q, r)
            &&& is_support(a, b, p)
            &&& is_support(a, b, q)
            &&& is_support(a, b, r)
        },
        Verdict::Undecided => true,
    }
}

/// A point of the difference farthest along some direction lies in the
/// difference of the bounding boxes.
pub proof fn lemma_is_support_in_box<A: Collide, B: Collide>(a: &A, b: &B, p: Point)
    requires
        a.valid(),
        a.solid(),
        b.valid(),
        b.solid(),
        is_support(a, b, p),
    ensures
        difference_box(a.bounding_box(), b.bounding_box()).contains(p),
        p.within(2 * crate::vector::COORD_LIMIT),
{
    let direction = choose|direction: Point| p == #[trigger] support_point(a, b, direction);
    lemma_support_in_box(a, b, direction);
}

/// The three areas that weigh the corners of a triangle against the origin
/// balance: weighted by them, the corners sum to zero.
pub proof fn lemma_weights_balance(a: Point, b: Point, c: Point)
    ensures
        b.cross(c) * a.x + c.cross(a) * b.x + a.cross(b) * c.x == 0,
        b.cross(c) * a.y + c.cross(a) * b.y + a.cross(b) * c.y == 0,
{
    lemma_cyclic_areas(a.x, a.y, b.x, b.y, c.x, c.y);
    lemma_cyclic_areas(a.y, a.x, b.y, b.x, c.y, c.x);
    assert(b.cross(c) * a.y == -((b.y * c.x - b.x * c.y) * a.y)) by (nonlinear_arith);
    assert(c.cross(a) * b.y == -((c.y * a.x - c.x * a.y) * b.y)) by (nonlinear_arith);
    assert(a.cross(b) * c.y == -((a.y * b.x - a.x * b.y) * c.y)) by (nonlinear_arith);
}

/// The identity behind [`lemma_weights_balance`], on six numbers.
pub proof fn lemma_cyclic_areas(ax: int, ay: int, bx: int, by: int, cx: int, cy: int)
    ensures
        (bx * cy - by * cx) * ax + (cx * ay - cy * ax) * bx + (ax * by - ay * bx) * cx == 0,
{
    assert((bx * cy - by * cx) * ax == bx * cy * ax - by * cx * ax) by (nonlinear_arith);
    assert((cx * ay - cy * ax) * bx == cx * ay * bx - cy * ax * bx) by (nonlinear_arith);
    assert((ax * by - ay * bx) * cx == ax * by * cx - ay * bx * cx) by (nonlinear_arith);
    assert(bx * cy * ax == cy * ax * bx) by (nonlinear_arith);
    assert(by * cx * ax == ax * by * cx) by (nonlinear_arith);
    assert(cx * ay * bx == ay * bx * cx) by (nonlinear_arith);
}

/// A triangle that passes the three tests of the search holds the origin.
pub proof fn lemma_tests_enclose(p0: Point, p1: Point, last: Point)
    requires
        toward_origin_point(p0, p1).dot(last) > 0,
        toward_origin_point(p0, last).dot(p1) >= 0,
        toward_origin_point(p1, last).dot(p0) >= 0,
    ensures
        triangle_holds_origin(p0, p1, last),
{
    lemma_toward_origin_dot(p0, p1, last);
    lemma_toward_origin_dot(p0, last, p1);
    lemma_toward_origin_dot(p1, last, p0);
    lemma_cross_turned(p0, last);
    lemma_cross_turned(p1, last);
    lemma_cross_turned(p0, p1);
}

/// Whatever a search from a segment of the difference returns is true.
pub proof fn lemma_gjk_from_holds<A: Collide, B: Collide>(a: &A, b: &B, p0: Point, p1: Point, rounds: nat)
    requires
        a.valid(),
        a.solid(),
        b.valid(),
        b.solid(),
        is_support(a, b, p0),
        is_support(a, b, p1),
    ensures
        verdict_holds(a, b, gjk_from(a, b, p0, p1, rounds)),
    decreases rounds,
{
    if rounds > 0 {
        let direction = toward_origin_point(p0, p1);
        let last = support_point(a, b, direction);
        assert(is_support(a, b, last));
        if direction.dot(last) <= 0 {
        } else if toward_origin_point(p0, last).dot(p1) < 0 {
            lemma_gjk_from_holds(a, b, p0, last, (rounds - 1) as nat);
        } else if toward_origin_point(p1, last).dot(p0) < 0 {
            lemma_gjk_from_holds(a, b, p1, last, (rounds - 1) as nat);
        } else {
            lemma_tests_enclose(p0, p1, last);
        }
    }
}

/// Whatever the search returns is true: a direction it names is one along
/// which the difference of the shapes does not pass the origin, and a
/// triangle it names is made of points of the difference and holds the
/// origin.
pub proof fn lemma_gjk_verdict_holds<A: Collide, B: Collide>(a: &A, b: &B)
    requires
        a.valid(),
        a.solid(),
        b.valid(),
        b.solid(),
    ensures
        verdict_holds(a, b, gjk_verdict(a, b)),
{
    let right = Point { x: 1, y: 0 };
    let p0 = support_point(a, b, right);
    let p1 = support_point(a, b, right.negated());
    assert(is_support(a, b, p0));
    assert(is_support(a, b, p1));
    if right.negated().dot(p1) > 0 {
        lemma_gjk_from_holds(a, b, p0, p1, GJK_ROUNDS as nat);
    }
}

/// The difference of `b` and `a` is the difference of `a` and `b`, mirrored
/// at the origin.
pub proof fn lemma_support_mirrored<A: Collide, B: Collide>(a: &A, b: &B, direction: Point)
    ensures
        support_point(b, a, direction) == support_point(a, b, direction.negated()).negated(),
{
    assert(direction.negated().negated() == direction);
}

/// `direction` is not zero, and along it the difference of `a` and `b` does
/// not pass the origin.
pub open spec fn parts<A: Collide, B: Collide>(a: &A, b: &B, direction: Point) -> bool {
    direction != Point::origin() && direction.dot(support_point(a, b, direction)) <= 0
}

/// A search from two points that differ, if it ends with the shapes apart,
/// ends with a direction that parts them.
pub proof fn lemma_gjk_from_parts<A: Collide, B: Collide>(a: &A, b: &B, p0: Point, p1: Point, rounds: nat)
    requires
        p0 != p1,
        gjk_from(a, b, p0, p1, rounds) is Apart,
    ensures
        parts(a, b, gjk_from(a, b, p0, p1, rounds)->Apart_0),
    decreases rounds,
{
    let direction = toward_origin_point(p0, p1);
    let last = support_point(a, b, direction);
    lemma_toward_origin_dot(p0, p1, p0);
    lemma_toward_origin_dot(p0, p1, p1);
    assert(direction.dot(p1.minus(p0)) == direction.dot(p1) - direction.dot(p0)) by (nonlinear_arith);
    if direction.dot(last) <= 0 {
    } else if toward_origin_point(p0, last).dot(p1) < 0 {
        lemma_gjk_from_parts(a, b, p0, last, (rounds - 1) as nat);
    } else {
        lemma_gjk_from_parts(a, b, p1, last, (rounds - 1) as nat);
    }
}

/// Where the search ends with the shapes apart, some direction parts them.
/// It is returned.
pub proof fn lemma_apart_has_direction<A: Collide, B: Collide>(a: &A, b: &B) -> (direction: Point)
    requires
        gjk_verdict(a, b) is Apart,
    ensures
        parts(a, b, direction),
{
    let right = Point { x: 1, y: 0 };
    let p0 = support_point(a, b, right);
    let p1 = support_point(a, b, right.negated());
    assert(right.negated().dot(p1) == -p1.x && right.dot(p0) == p0.x) by (nonlinear_arith)
        requires
            right.x == 1,
            right.y == 0,
            right.negated().x == -1,
            right.negated().y == 0,
    ;
    if right.negated().dot(p1) <= 0 {
        assert(right.negated() != Point::origin());
        right.negated()
    } else if p0 == p1 {
        assert(right != Point::origin());
        right
    } else {
        lemma_gjk_from_parts(a, b, p0, p1, GJK_ROUNDS as nat);
        gjk_verdict(a, b)->Apart_0
    }
}

/// A direction that parts the shapes parts their points: a point that lies
/// no farther along it than the farthest point of the first shape lies no
/// farther along it than a point that lies no farther against it than the
/// farthest point of the second.
pub proof fn lemma_direction_parts_points<A: Collide, B: Collide>(a: &A, b: &B, direction: Point, p: Point, q: Point)
    requires
        parts(a, b, direction),
        direction.dot(p) <= direction.dot(a.farthest_point(direction)),
        direction.negated().dot(q) <= direction.negated().dot(b.farthest_point(direction.negated())),
    ensures
        direction.dot(p) <= direction.dot(q),
{
    let far_a = a.farthest_point(direction);
    let far_b = b.farthest_point(direction.negated());
    assert(direction.dot(far_a.minus(far_b)) == direction.dot(far_a) - direction.dot(far_b)) by (nonlinear_arith);
    assert(direction.negated().dot(q) == -direction.dot(q)) by (nonlinear_arith);
    assert(direction.negated().dot(far_b) == -direction.dot(far_b)) by (nonlinear_arith);
}

/// Three axes and three weights: what shows that two shapes share a point.
pub struct Meeting {
    pub first: Point,
    pub second: Point,
    pub third: Point,
    pub first_weight: int,
    pub second_weight: int,
    pub third_weight: int,
}

impl Meeting {
    /// No weight is negative, and one is not zero.
    pub open spec fn weighs(self) -> bool {
        &&& self.first_weight >= 0
        &&& self.second_weight >= 0
        &&& self.third_weight >= 0
        &&& self.first_weight + self.second_weight + self.third_weight > 0
    }

    /// The weighted sum of the points of `shape` farthest along the three
    /// axes.
    pub open spec fn along<S: Collide>(self, shape: &S) -> Point {
        shape.farthest_point(self.first).scaled(self.first_weight).plus(
            shape.farthest_point(self.second).scaled(self.second_weight),
        ).plus(shape.farthest_point(self.third).scaled(self.third_weight))
    }

    /// The weighted sum of the points of `shape` farthest against the three
    /// axes.
    pub open spec fn against<S: Collide>(self, shape: &S) -> Point {
        shape.farthest_point(self.first.negated()).scaled(self.first_weight).plus(
            shape.farthest_point(self.second.negated()).scaled(self.second_weight),
        ).plus(shape.farthest_point(self.third.negated()).scaled(self.third_weight))
    }
}

/// Shapes that intersect share a point: there are three axes and three
/// weights such that the points of the first shape farthest along the axes
/// and the points of the second farthest against them have the same
/// weighted sum.  Divided by the sum of the weights, that is a weighted mean
/// of points of the first shape, and one of points of the second.
pub proof fn lemma_intersecting_shapes_meet<A: Collide, B: Collide>(a: &A, b: &B) -> (meeting: Meeting)
    requires
        a.valid(),
        a.solid(),
        b.valid(),
        b.solid(),
        intersecting(a, b),
    ensures
        meeting.weighs(),
        meeting.along(a) == meeting.against(b),
{
    lemma_gjk_verdict_holds(a, b);
    let found = gjk_verdict(a, b);
    let p = found->Enclosed_0;
    let q = found->Enclosed_1;
    let r = found->Enclosed_2;
    let first = choose|direction: Point| p == #[trigger] support_point(a, b, direction);
    let second = choose|direction: Point| q == #[trigger] support_point(a, b, direction);
    let third = choose|direction: Point| r == #[trigger] support_point(a, b, direction);
    lemma_weights_balance(p, q, r);
    let up = q.cross(r) + r.cross(p) + p.cross(q) > 0;
    let meeting = Meeting {
        first,
        second,
        third,
        first_weight: if up { q.cross(r) } else { -q.cross(r) },
        second_weight: if up { r.cross(p) } else { -r.cross(p) },
        third_weight: if up { p.cross(q) } else { -p.cross(q) },
    };
    let (u, v, w) = (meeting.first_weight, meeting.second_weight, meeting.third_weight);
    let (a1, a2, a3) = (a.farthest_point(first), a.farthest_point(second), a.farthest_point(third));
    let (b1, b2, b3) = (
        b.farthest_point(first.negated()),
        b.farthest_point(second.negated()),
        b.farthest_point(third.negated()),
    );
    assert(u * p.x + v * q.x + w * r.x == 0 && u * p.y + v * q.y + w * r.y == 0) by (nonlinear_arith)
        requires
            q.cross(r) * p.x + r.cross(p) * q.x + p.cross(q) * r.x == 0,
            q.cross(r) * p.y + r.cross(p) * q.y + p.cross(q) * r.y == 0,
            u == q.cross(r) && v == r.cross(p) && w == p.cross(q) || u == -q.cross(r) && v == -r.cross(p) && w
                == -p.cross(q),
    ;
    assert(u * a1.x + v * a2.x + w * a3.x == u * b1.x + v * b2.x + w * b3.x) by (nonlinear_arith)
        requires
            u * p.x + v * q.x + w * r.x == 0,
            p.x == a1.x - b1.x,
            q.x == a2.x - b2.x,
            r.x == a3.x - b3.x,
    ;
    assert(u * a1.y + v * a2.y + w * a3.y == u * b1.y + v * b2.y + w * b3.y) by (nonlinear_arith)
        requires
            u * p.y + v * q.y + w * r.y == 0,
            p.y == a1.y - b1.y,
            q.y == a2.y - b2.y,
            r.y == a3.y - b3.y,
    ;
    meeting
}

/// A triangle whose corners all lie strictly to one side of an axis does
/// not hold the origin.
pub proof fn lemma_one_sided_triangle(a: Point, b: Point, c: Point)
    requires
        (a.x < 0 && b.x < 0 && c.x < 0) || (a.x > 0 && b.x > 0 && c.x > 0) || (a.y < 0 && b.y < 0 && c.y < 0) || (
        a.y > 0 && b.y > 0 && c.y > 0),
    ensures
        !triangle_holds_origin(a, b, c),
{
    lemma_weights_balance(a, b, c);
    let wa = b.cross(c);
    let wb = c.cross(a);
    let wc = a.cross(b);
    if triangle_holds_origin(a, b, c) {
        if (a.x < 0 && b.x < 0 && c.x < 0) || (a.x > 0 && b.x > 0 && c.x > 0) {
            lemma_signed_sum(wa, wb, wc, a.x, b.x, c.x);
        } else {
            lemma_signed_sum(wa, wb, wc, a.y, b.y, c.y);
        }
    }
}

/// Weights of one sign, not all zero, on numbers of one strict sign do not
/// sum to zero.
pub proof fn lemma_signed_sum(wa: int, wb: int, wc: int, x: int, y: int, z: int)
    by (nonlinear_arith)
    requires
        (wa >= 0 && wb >= 0 && wc >= 0 && wa + wb + wc > 0) || (wa <= 0 && wb <= 0 && wc <= 0 && wa + wb + wc < 0),
        (x < 0 && y < 0 && z < 0) || (x > 0 && y > 0 && z > 0),
    ensures
        wa * x + wb * y + wc * z != 0,
{
}

/// Two shapes whose bounding boxes lie apart do not intersect, nor do two
/// shapes of which the first lies to the right of the second, even where
/// their bounding boxes touch.
pub proof fn lemma_clear_boxes_never_intersect<A: Collide, B: Collide>(a: &A, b: &B)
    requires
        a.valid(),
        a.solid(),
        b.valid(),
        b.solid(),
        a.bounding_box().clear_of(b.bounding_box()),
    ensures
        !intersecting(a, b),
{
    lemma_gjk_verdict_holds(a, b);
    let left = Point { x: -1, y: 0 };
    lemma_support_in_box(a, b, left);
    crate::vector::lemma_axis_dot(support_point(a, b, left));
    match gjk_verdict(a, b) {
        Verdict::Enclosed(p, q, r) => {
            lemma_is_support_in_box(a, b, p);
            lemma_is_support_in_box(a, b, q);
            lemma_is_support_in_box(a, b, r);
            lemma_one_sided_triangle(p, q, r);
        },
        _ => {},
    }
}

/// A shape never intersects a copy of itself that was moved by more than the
/// diagonal of its bounding box.
pub proof fn lemma_moved_beyond_diagonal<S: Shape>(shape: &S, copy: &S, amount: Point)
    requires
        shape.valid(),
        shape.solid(),
        copy.valid(),
        copy.moved_from(shape, amount),
        ({
            let bounds = shape.bounding_box();
            let width = bounds.right - bounds.left;
            let height = bounds.top - bounds.bottom;
            amount.dot(amount) > width * width + height * height
        }),
    ensures
        !intersecting(shape, copy),
        !intersecting(copy, shape),
{
    let axis = Point { x: 1, y: 0 };
    copy.lemma_moved(shape, amount, axis);
    shape.lemma_farthest_point_in_box(axis);
    let bounds = shape.bounding_box();
    let width = bounds.right - bounds.left;
    let height = bounds.top - bounds.bottom;
    assert(amount.x > width || amount.x < -width || amount.y > height || amount.y < -height) by (nonlinear_arith)
        requires
            amount.x * amount.x + amount.y * amount.y > width * width + height * height,
            width >= 0,
            height >= 0,
    ;
    lemma_clear_boxes_never_intersect(shape, copy);
    lemma_clear_boxes_never_intersect(copy, shape);
}

/// A side lies on the far side of the origin from where its course points:
/// it is measured at a distance that is not negative.
pub proof fn lemma_side_distance(polygon: Seq<Point>, i: int)
    requires
        side_at(polygon, i) is Some,
    ensures
        side_at(polygon, i)->0.distance >= 0,
        side_at(polygon, i)->0.index == i,
        side_at(polygon, i)->0.course.sound(),
        side_at(polygon, i)->0.course.full(),
{
    let a = polygon[i];
    let b = polygon[next_index(i, polygon.len() as int)];
    let normal = toward_origin_point(a, b).negated();
    lemma_toward_origin_dot(a, b, a);
    lemma_cross_turned(a, b);
    assert(a.cross(a) == 0) by (nonlinear_arith);
    assert(normal.dot(a) == -toward_origin_point(a, b).dot(a)) by (nonlinear_arith)
        requires
            normal == toward_origin_point(a, b).negated(),
    ;
    lemma_stretched_dot(normal, a);
    assert(reach(normal) > 0);
    lemma_course_of(normal);
    let course = Course::of(normal);
    assert(course.toward.dot(a) >= 0);
    assert(trunc_div(course.toward.dot(a), course.length) >= 0) by (nonlinear_arith)
        requires
            course.toward.dot(a) >= 0,
            course.length > 0,
    ;
}

/// The closest side is a side, none is nearer the origin, and none before
/// it is as near.
pub proof fn lemma_closest_side(polygon: Seq<Point>, count: int)
    requires
        0 <= count,
    ensures
        match closest_side(polygon, count) {
            None => forall|j: int| 0 <= j < count ==> #[trigger] side_at(polygon, j) is None,
            Some(side) => {
                &&& 0 <= side.index < count
                &&& side_at(polygon, side.index) == Some(side)
                &&& forall|j: int| 0 <= j < count && #[trigger] side_at(polygon, j) is Some ==> side.distance <= side_at(polygon, j)->0.distance
                &&& forall|j: int| 0 <= j < side.index && #[trigger] side_at(polygon, j) is Some ==> side.distance < side_at(polygon, j)->0.distance
            },
        },
    decreases count,
{
    if count > 0 {
        lemma_closest_side(polygon, count - 1);
        if side_at(polygon, count - 1) is Some {
            lemma_side_distance(polygon, count - 1);
        }
    }
}

/// A vector that the growth returns lies along the outward course of a side
/// of the polygon and is as long as that side is far from the origin, and
/// along that course the difference of the shapes passes the side by less
/// than [`TOLERANCE`].  The side is returned.
pub proof fn lemma_epa_vector_is_tight<A: Collide, B: Collide>(
    a: &A,
    b: &B,
    polygon: Seq<Point>,
    rounds: nat,
    v: Point,
) -> (side: Side)
    requires
        epa_from(a, b, polygon, rounds) == Outcome::Vector(v),
    ensures
        v == side.course.along(side.distance),
        0 <= side.distance,
        side.course.sound(),
        side.course.full(),
        -TOLERANCE < side.distance - side.course.project(support_point(a, b, side.course.toward)) < TOLERANCE,
    decreases rounds,
{
    let side = closest_side(polygon, polygon.len() as int)->0;
    let p = support_point(a, b, side.course.toward);
    let delta = side.distance - side.course.project(p);
    if -TOLERANCE < delta < TOLERANCE {
        lemma_closest_side(polygon, polygon.len() as int);
        lemma_side_distance(polygon, side.index);
        side
    } else {
        lemma_epa_vector_is_tight(a, b, polygon.insert(side.index + 1, p), (rounds - 1) as nat, v)
    }
}

/// The vector that [`crate::collision::overlap`] returns lies along a course
/// and is as long as a distance such that, measured along the course, the
/// difference of the shapes ends less than [`TOLERANCE`] from that
/// distance.  Course and distance are returned.
pub proof fn lemma_overlap_is_tight<A: Collide, B: Collide>(a: &A, b: &B, v: Point) -> (side: Side)
    requires
        overlap_vector(a, b) == Some(v),
    ensures
        v == side.course.along(side.distance),
        0 <= side.distance,
        side.course.sound(),
        side.course.full(),
        -TOLERANCE < side.distance - side.course.project(support_point(a, b, side.course.toward)) < TOLERANCE,
{
    let found = gjk_verdict(a, b);
    let simplex = seq![found->Enclosed_0, found->Enclosed_1, found->Enclosed_2];
    lemma_epa_vector_is_tight(a, b, simplex, EPA_ROUNDS as nat, v)
}

/// Dividing by one positive number keeps the order.
pub proof fn lemma_trunc_div_monotone(x: int, y: int, d: int)
    by (nonlinear_arith)
    requires
        x <= y,
        0 < d,
    ensures
        trunc_div(x, d) <= trunc_div(y, d),
{
}

/// Measured along a course, a point that lies no farther along it than the
/// farthest point of the first shape lies no farther beyond a point that
/// lies no farther against it than the farthest point of the second than
/// the difference of the shapes reaches.
pub proof fn lemma_course_parts_points<A: Collide, B: Collide>(a: &A, b: &B, course: Course, p: Point, q: Point)
    requires
        course.sound(),
        course.toward.dot(p) <= course.toward.dot(a.farthest_point(course.toward)),
        course.toward.negated().dot(q) <= course.toward.negated().dot(b.farthest_point(course.toward.negated())),
    ensures
        course.project(p.minus(q)) <= course.project(support_point(a, b, course.toward)),
{
    let direction = course.toward;
    let far_a = a.farthest_point(direction);
    let far_b = b.farthest_point(direction.negated());
    assert(direction.dot(far_a.minus(far_b)) == direction.dot(far_a) - direction.dot(far_b)) by (nonlinear_arith);
    assert(direction.dot(p.minus(q)) == direction.dot(p) - direction.dot(q)) by (nonlinear_arith);
    assert(direction.negated().dot(q) == -direction.dot(q)) by (nonlinear_arith);
    assert(direction.negated().dot(far_b) == -direction.dot(far_b)) by (nonlinear_arith);
    lemma_trunc_div_monotone(direction.dot(p.minus(q)), direction.dot(far_a.minus(far_b)), course.length);
}

} // verus!
