//! What holds of the search between two circles.

use vstd::prelude::*;
use crate::collision::epa::{Side, TOLERANCE};
use crate::collision::gjk::{gjk_verdict, support_point, triangle_holds_origin, Verdict};
use crate::collision::laws::{is_support, lemma_gjk_verdict_holds, lemma_overlap_is_tight, lemma_weights_balance};
use crate::collision::{intersecting, overlap_vector, Collide};
use crate::numeric::{lemma_along_reaches, lemma_full_course, lemma_trunc_div_lower, Course};
use crate::shapes::circle::{lemma_rim_in_disc, Circle};
use crate::vector::{lemma_dot_squared, lemma_scaled_in_disc, lemma_sum_in_disc, Point, COORD_LIMIT};

verus! {

/// Where the origin is a weighted mean of three points that lie within
/// `radius` of `center`, the center lies within `radius` of the origin.
pub proof fn lemma_mean_in_disc(center: Point, radius: int, p: Point, q: Point, r: Point)
    requires
        triangle_holds_origin(p, q, r),
        p.minus(center).in_disc(radius),
        q.minus(center).in_disc(radius),
        r.minus(center).in_disc(radius),
    ensures
        center.in_disc(radius),
{
    lemma_weights_balance(p, q, r);
    let up = q.cross(r) + r.cross(p) + p.cross(q) > 0;
    let wp = if up { q.cross(r) } else { -q.cross(r) };
    let wq = if up { r.cross(p) } else { -r.cross(p) };
    let wr = if up { p.cross(q) } else { -p.cross(q) };
    let total = wp + wq + wr;
    assert(wp >= 0 && wq >= 0 && wr >= 0 && total > 0);
    assert(wp * p.x + wq * q.x + wr * r.x == 0 && wp * p.y + wq * q.y + wr * r.y == 0) by (nonlinear_arith)
        requires
            q.cross(r) * p.x + r.cross(p) * q.x + p.cross(q) * r.x == 0,
            q.cross(r) * p.y + r.cross(p) * q.y + p.cross(q) * r.y == 0,
            wp == q.cross(r) && wq == r.cross(p) && wr == p.cross(q) || wp == -q.cross(r) && wq == -r.cross(p) && wr
                == -p.cross(q),
    ;
    let dp = p.minus(center);
    let dq = q.minus(center);
    let dr = r.minus(center);
    lemma_scaled_in_disc(dp, radius, wp);
    lemma_scaled_in_disc(dq, radius, wq);
    lemma_scaled_in_disc(dr, radius, wr);
    lemma_sum_in_disc(dp.scaled(wp), dq.scaled(wq), wp * radius, wq * radius);
    lemma_sum_in_disc(dp.scaled(wp).plus(dq.scaled(wq)), dr.scaled(wr), wp * radius + wq * radius, wr * radius);
    let sum = dp.scaled(wp).plus(dq.scaled(wq)).plus(dr.scaled(wr));
    assert(wp * radius + wq * radius + wr * radius == total * radius) by (nonlinear_arith)
        requires
            total == wp + wq + wr,
    ;
    assert(sum.in_disc(total * radius));
    assert(sum.x == -(total * center.x)) by (nonlinear_arith)
        requires
            sum.x == wp * (p.x - center.x) + wq * (q.x - center.x) + wr * (r.x - center.x),
            wp * p.x + wq * q.x + wr * r.x == 0,
            total == wp + wq + wr,
    ;
    assert(sum.y == -(total * center.y)) by (nonlinear_arith)
        requires
            sum.y == wp * (p.y - center.y) + wq * (q.y - center.y) + wr * (r.y - center.y),
            wp * p.y + wq * q.y + wr * r.y == 0,
            total == wp + wq + wr,
    ;
    assert(sum.dot(sum) == (total * total) * center.dot(center)) by (nonlinear_arith)
        requires
            sum.x == -(total * center.x),
            sum.y == -(total * center.y),
    ;
    assert((total * radius) * (total * radius) == (total * total) * (radius * radius)) by (nonlinear_arith);
    assert(center.dot(center) <= radius * radius) by (nonlinear_arith)
        requires
            (total * total) * center.dot(center) <= (total * total) * (radius * radius),
            total > 0,
    ;
}

/// Two circles whose centers lie farther apart than the sum of their radii
/// do not intersect.
pub proof fn lemma_distant_circles_never_intersect(a: &Circle, b: &Circle)
    requires
        a.valid(),
        b.valid(),
        !a.center@.minus(b.center@).in_disc(a.radius + b.radius),
    ensures
        !intersecting(a, b),
{
    lemma_gjk_verdict_holds(a, b);
    let between = a.center@.minus(b.center@);
    let reach = a.radius + b.radius;
    match gjk_verdict(a, b) {
        Verdict::Enclosed(p, q, r) => {
            lemma_circle_support_in_disc(a, b, p);
            lemma_circle_support_in_disc(a, b, q);
            lemma_circle_support_in_disc(a, b, r);
            lemma_mean_in_disc(between, reach, p, q, r);
        },
        _ => {},
    }
}

/// A point of the difference of two circles lies within the sum of their
/// radii of the difference of their centers.
pub proof fn lemma_circle_support_in_disc(a: &Circle, b: &Circle, p: Point)
    requires
        a.valid(),
        b.valid(),
        is_support(a, b, p),
    ensures
        p.minus(a.center@.minus(b.center@)).in_disc(a.radius + b.radius),
{
    let direction = choose|direction: Point| p == #[trigger] support_point(a, b, direction);
    lemma_rim_in_disc(a.center@, a.radius as int, direction);
    lemma_rim_in_disc(b.center@, b.radius as int, direction.negated());
    let u = a.farthest_point(direction).minus(a.center@);
    let w = b.farthest_point(direction.negated()).minus(b.center@);
    lemma_sum_in_disc(u, w, a.radius as int, b.radius as int);
    assert(p.minus(a.center@.minus(b.center@)) == u.minus(w));
}

/// How far a distance may fall short of how deep two circles overlap, apart
/// from [`TOLERANCE`]: what rounding to whole steps may take.
pub const ROUNDING: i64 = 8;

/// Along a full course, the difference of two circles reaches almost as far
/// as the sum of the radii beyond the difference of the centers: counted in
/// lengths of the course, the dot product with the farthest point falls
/// short by less than five lengths and twice the radii.
pub proof fn lemma_circle_support_reaches(a: &Circle, b: &Circle, course: Course)
    requires
        a.valid(),
        b.valid(),
        course.full(),
        course.sound(),
    ensures
        course.toward.dot(support_point(a, b, course.toward)) >= course.toward.dot(a.center@.minus(b.center@))
            + course.length * (a.radius + b.radius) - 2 * (a.radius + b.radius) - 4 * course.length,
{
    let s = course.toward;
    let l = course.length;
    lemma_full_course(course);
    let turned = Course { toward: s.negated(), length: l };
    let u = course.along(a.radius as int);
    let w = turned.along(b.radius as int);
    let u2 = course.along(b.radius as int);
    assert(s.negated().x * b.radius == -(s.x * b.radius) && s.negated().y * b.radius == -(s.y * b.radius))
        by (nonlinear_arith);
    assert(w == u2.negated());
    assert(a.farthest_point(s) == a.center@.plus(u));
    assert(b.farthest_point(s.negated()) == b.center@.plus(w));
    lemma_along_reaches(course, a.radius as int);
    lemma_along_reaches(course, b.radius as int);
    let between = a.center@.minus(b.center@);
    assert(support_point(a, b, s) == between.plus(u).plus(u2));
    assert(s.dot(between.plus(u).plus(u2)) == s.dot(between) + s.dot(u) + s.dot(u2)) by (nonlinear_arith);
    assert(l * (a.radius + b.radius) == l * a.radius + l * b.radius) by (nonlinear_arith);
}

/// Where two circles overlap and a vector is found, the distance that the
/// vector stands for falls short of how deep the circles overlap by less
/// than [`TOLERANCE`] and [`ROUNDING`]: what is left of the sum of the radii
/// when distance, tolerance and rounding are taken off is less than the
/// centers lie apart.  The side of that distance is returned.
pub proof fn lemma_circles_overlap_is_deep(a: &Circle, b: &Circle, v: Point) -> (side: Side)
    requires
        a.valid(),
        b.valid(),
        overlap_vector(a, b) == Some(v),
    ensures
        v == side.course.along(side.distance),
        0 <= side.distance,
        ({
            let rest = a.radius + b.radius - side.distance - TOLERANCE - ROUNDING;
            let between = a.center@.minus(b.center@);
            rest >= 0 ==> rest * rest < between.dot(between)
        }),
{
    let side = lemma_overlap_is_tight(a, b, v);
    let s = side.course.toward;
    let l = side.course.length;
    let d = side.distance;
    let reach = a.radius + b.radius;
    let rest = reach - d - TOLERANCE - ROUNDING;
    let between = a.center@.minus(b.center@);
    let far = support_point(a, b, s);
    if rest >= 0 {
        lemma_circle_support_reaches(a, b, side.course);
        lemma_trunc_div_lower(s.dot(far), l);
        let measured = side.course.project(far);
        assert(measured <= d + TOLERANCE - 1);
        assert(l * measured <= l * (d + TOLERANCE - 1)) by (nonlinear_arith)
            requires
                measured <= d + TOLERANCE - 1,
                l > 0,
        ;
        assert(l >= 0x1000_0000_0000_0000) by {
            crate::numeric::lemma_length_dominates(side.course);
        }
        assert(2 * reach < 4 * l);
        assert(s.dot(between) < -(l * rest)) by (nonlinear_arith)
            requires
                l * measured > s.dot(far) - l,
                l * measured <= l * (d + TOLERANCE - 1),
                s.dot(far) >= s.dot(between) + l * reach - 2 * reach - 4 * l,
                2 * reach < 4 * l,
                rest == reach - d - TOLERANCE - 8,
        ;
        lemma_dot_squared(s, between);
        assert(between.dot(between) >= 0) by (nonlinear_arith);
        assert(l * rest >= 0) by (nonlinear_arith)
            requires
                l > 0,
                rest >= 0,
        ;
        assert((l * rest) * (l * rest) < s.dot(between) * s.dot(between)) by (nonlinear_arith)
            requires
                s.dot(between) < -(l * rest),
                l * rest >= 0,
        ;
        assert(s.dot(s) * between.dot(between) <= (l * l) * between.dot(between)) by (nonlinear_arith)
            requires
                s.dot(s) <= l * l,
                between.dot(between) >= 0,
        ;
        assert((l * rest) * (l * rest) == (l * l) * (rest * rest)) by (nonlinear_arith);
        assert(rest * rest < between.dot(between)) by (nonlinear_arith)
            requires
                (l * l) * (rest * rest) < (l * l) * between.dot(between),
                l > 0,
        ;
    }
    side
}

} // verus!
