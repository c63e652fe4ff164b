//! Convex polygons given by their vertices.

use vstd::prelude::*;
use crate::collision::Collide;
use crate::numeric::{div_trunc, trunc_div, DIRECTION_LIMIT};
use crate::renderer::{Mesh, Triangles, Triangulate};
use crate::shapes::rectangle::{Bounds, Rectangle};
use crate::shapes::Shape;
use crate::vector::{lemma_axis_dot, points, Point, Vector2, COORD_LIMIT};

verus! {

/// Among the first `n` of `points`, the index of the first that no other lies
/// beyond along `axis`.
pub open spec fn farthest_index(points: Seq<Point>, axis: Point, n: int) -> int
    decreases n,
{
    if n <= 1 {
        0
    } else {
        let best = farthest_index(points, axis, n - 1);
        if axis.dot(points[n - 1]) > axis.dot(points[best]) {
            n - 1
        } else {
            best
        }
    }
}

/// The box around no point at all: every side as far on the wrong side as an
/// `i64` goes.
pub open spec fn void_bounds() -> Bounds {
    Bounds { left: i64::MAX as int, right: i64::MIN as int, top: i64::MIN as int, bottom: i64::MAX as int }
}

/// `b` stretched just enough to hold `p`.
pub open spec fn bounds_with(b: Bounds, p: Point) -> Bounds {
    Bounds {
        left: if p.x < b.left { p.x } else { b.left },
        right: if p.x > b.right { p.x } else { b.right },
        top: if p.y > b.top { p.y } else { b.top },
        bottom: if p.y < b.bottom { p.y } else { b.bottom },
    }
}

/// The smallest box that holds the first `n` of `points`.
pub open spec fn bounds_of(points: Seq<Point>, n: int) -> Bounds
    decreases n,
{
    if n <= 0 {
        void_bounds()
    } else {
        bounds_with(bounds_of(points, n - 1), points[n - 1])
    }
}

/// The sum of the first `n` of `points`.
pub open spec fn sum_of(points: Seq<Point>, n: int) -> Point
    decreases n,
{
    if n <= 0 {
        Point::origin()
    } else {
        sum_of(points, n - 1).plus(points[n - 1])
    }
}

/// The farthest index is the first at which the projection on `axis` is
/// largest.
pub proof fn lemma_farthest_index(points: Seq<Point>, axis: Point, n: int)
    requires
        1 <= n <= points.len(),
    ensures
        0 <= farthest_index(points, axis, n) < n,
        forall|j: int| 0 <= j < n ==> axis.dot(#[trigger] points[j]) <= axis.dot(points[farthest_index(points, axis, n)]),
        forall|j: int| 0 <= j < farthest_index(points, axis, n) ==> axis.dot(#[trigger] points[j]) < axis.dot(points[farthest_index(points, axis, n)]),
    decreases n,
{
    if n > 1 {
        lemma_farthest_index(points, axis, n - 1);
    }
}

/// The box of some points holds each of them, lies within any bound they lie
/// within, and touches one of them with each side.
pub proof fn lemma_bounds_of(points: Seq<Point>, n: int, bound: int)
    requires
        1 <= n <= points.len(),
        bound <= i64::MAX,
        forall|j: int| 0 <= j < n ==> (#[trigger] points[j]).within(bound),
    ensures
        bounds_of(points, n).ordered(),
        bounds_of(points, n).within(bound),
        forall|j: int| 0 <= j < n ==> bounds_of(points, n).contains(#[trigger] points[j]),
        exists|j: int| 0 <= j < n && (#[trigger] points[j]).x == bounds_of(points, n).left,
        exists|j: int| 0 <= j < n && (#[trigger] points[j]).x == bounds_of(points, n).right,
        exists|j: int| 0 <= j < n && (#[trigger] points[j]).y == bounds_of(points, n).top,
        exists|j: int| 0 <= j < n && (#[trigger] points[j]).y == bounds_of(points, n).bottom,
    decreases n,
{
    let b = bounds_of(points, n);
    if n > 1 {
        lemma_bounds_of(points, n - 1, bound);
        let before = bounds_of(points, n - 1);
        let p = points[n - 1];
        let jl = choose|j: int| 0 <= j < n - 1 && (#[trigger] points[j]).x == before.left;
        let jr = choose|j: int| 0 <= j < n - 1 && (#[trigger] points[j]).x == before.right;
        let jt = choose|j: int| 0 <= j < n - 1 && (#[trigger] points[j]).y == before.top;
        let jb = choose|j: int| 0 <= j < n - 1 && (#[trigger] points[j]).y == before.bottom;
        assert(points[if p.x < before.left { n - 1 } else { jl }].x == b.left);
        assert(points[if p.x > before.right { n - 1 } else { jr }].x == b.right);
        assert(points[if p.y > before.top { n - 1 } else { jt }].y == b.top);
        assert(points[if p.y < before.bottom { n - 1 } else { jb }].y == b.bottom);
    } else {
        assert(bounds_of(points, 0) == void_bounds());
        assert(points[0].within(bound));
        assert(points[0].x == b.left);
        assert(points[0].x == b.right);
        assert(points[0].y == b.top);
        assert(points[0].y == b.bottom);
    }
}

/// A sum of `n` points within a bound lies within `n` times the bound.
pub proof fn lemma_sum_of_bound(points: Seq<Point>, n: int, bound: int)
    requires
        0 <= n <= points.len(),
        0 <= bound,
        forall|j: int| 0 <= j < n ==> (#[trigger] points[j]).within(bound),
    ensures
        sum_of(points, n).within(n * bound),
    decreases n,
{
    if n > 0 {
        lemma_sum_of_bound(points, n - 1, bound);
        assert(points[n - 1].within(bound));
        assert(n * bound == (n - 1) * bound + bound) by (nonlinear_arith);
    } else {
        assert(n * bound == 0) by (nonlinear_arith)
            requires
                n == 0,
        ;
    }
}

/// A convex polygon: its vertices in order around it.
///
/// Neither convexity nor the sense of the order is checked; what is returned
/// for other polygons is stated all the same.
#[derive(Clone, Debug)]
pub struct ConvexHull {
    pub points: Vec<Vector2>,
}

impl View for ConvexHull {
    type V = Seq<Point>;

    open spec fn view(&self) -> Seq<Point> {
        points(self.points@)
    }
}

impl ConvexHull {
    pub fn new(points: Vec<Vector2>) -> (hull: ConvexHull)
        ensures
            hull.points == points,
    {
        ConvexHull { points }
    }
}

impl Collide for ConvexHull {
    open spec fn valid(&self) -> bool {
        forall|i: int| 0 <= i < self@.len() ==> (#[trigger] self@[i]).within(COORD_LIMIT as int)
    }

    open spec fn solid(&self) -> bool {
        self@.len() > 0
    }

    open spec fn farthest_point(&self, axis: Point) -> Point {
        self@[farthest_index(self@, axis, self@.len() as int)]
    }

    open spec fn bounding_box(&self) -> Bounds {
        bounds_of(self@, self@.len() as int)
    }

    fn is_valid(&self) -> (valid: bool) {
        let mut i: usize = 0;
        while i < self.points.len()
            invariant
                0 <= i <= self.points.len(),
                forall|j: int| 0 <= j < i ==> (#[trigger] self@[j]).within(COORD_LIMIT as int),
            decreases self.points.len() - i,
        {
            if !self.points[i].is_within(COORD_LIMIT) {
                assert(!self@[i as int].within(COORD_LIMIT as int));
                return false;
            }
            i = i + 1;
        }
        true
    }

    fn is_solid(&self) -> (solid: bool) {
        self.points.len() > 0
    }

    fn get_farthest_point(&self, axis: Vector2) -> (p: Vector2) {
        let mut index: usize = 0;
        assert(self@[0].within(COORD_LIMIT as int));
        let mut max_projection: i128 = axis.dot(self.points[0]);
        let mut i: usize = 1;
        while i < self.points.len()
            invariant
                1 <= i <= self.points.len(),
                self.valid(),
                axis@.within(DIRECTION_LIMIT as int),
                index == farthest_index(self@, axis@, i as int),
                0 <= index < i,
                max_projection == axis@.dot(self@[index as int]),
            decreases self.points.len() - i,
        {
            assert(self@[i as int].within(COORD_LIMIT as int));
            let projection: i128 = axis.dot(self.points[i]);
            if projection > max_projection {
                index = i;
                max_projection = projection;
            }
            i = i + 1;
        }
        self.points[index]
    }

    fn get_bounding_box(&self) -> (r: Rectangle) {
        let mut r = Rectangle { left: i64::MAX, right: i64::MIN, top: i64::MIN, bottom: i64::MAX };
        let mut i: usize = 0;
        while i < self.points.len()
            invariant
                0 <= i <= self.points.len(),
                r@ == bounds_of(self@, i as int),
            decreases self.points.len() - i,
        {
            let point: Vector2 = self.points[i];
            assert(point@ == self@[i as int]);
            if point.x > r.right {
                r.right = point.x;
            }
            if point.x < r.left {
                r.left = point.x;
            }
            if point.y > r.top {
                r.top = point.y;
            }
            if point.y < r.bottom {
                r.bottom = point.y;
            }
            i = i + 1;
        }
        r
    }

    proof fn lemma_farthest_point_in_box(&self, axis: Point) {
        let n = self@.len() as int;
        lemma_farthest_index(self@, axis, n);
        lemma_bounds_of(self@, n, COORD_LIMIT as int);
    }

    proof fn lemma_box_is_tight(&self) {
        let n = self@.len() as int;
        let bounds = bounds_of(self@, n);
        lemma_bounds_of(self@, n, COORD_LIMIT as int);
        let right = Point { x: 1, y: 0 };
        let left = Point { x: -1, y: 0 };
        let up = Point { x: 0, y: 1 };
        let down = Point { x: 0, y: -1 };
        lemma_farthest_index(self@, right, n);
        lemma_farthest_index(self@, left, n);
        lemma_farthest_index(self@, up, n);
        lemma_farthest_index(self@, down, n);
        let jr = choose|j: int| 0 <= j < n && (#[trigger] self@[j]).x == bounds.right;
        let jl = choose|j: int| 0 <= j < n && (#[trigger] self@[j]).x == bounds.left;
        let jt = choose|j: int| 0 <= j < n && (#[trigger] self@[j]).y == bounds.top;
        let jb = choose|j: int| 0 <= j < n && (#[trigger] self@[j]).y == bounds.bottom;
        assert(right.dot(self@[jr]) <= right.dot(self.farthest_point(right)));
        assert(left.dot(self@[jl]) <= left.dot(self.farthest_point(left)));
        assert(up.dot(self@[jt]) <= up.dot(self.farthest_point(up)));
        assert(down.dot(self@[jb]) <= down.dot(self.farthest_point(down)));
        assert(bounds.contains(self.farthest_point(right)));
        assert(bounds.contains(self.farthest_point(left)));
        assert(bounds.contains(self.farthest_point(up)));
        assert(bounds.contains(self.farthest_point(down)));
        lemma_axis_dot(self@[jr]);
        lemma_axis_dot(self@[jl]);
        lemma_axis_dot(self@[jt]);
        lemma_axis_dot(self@[jb]);
        lemma_axis_dot(self.farthest_point(right));
        lemma_axis_dot(self.farthest_point(left));
        lemma_axis_dot(self.farthest_point(up));
        lemma_axis_dot(self.farthest_point(down));
    }
}

impl Shape for ConvexHull {
    open spec fn movable(&self, amount: Point) -> bool {
        forall|i: int| 0 <= i < self@.len() ==> (#[trigger] self@[i]).plus(amount).within(COORD_LIMIT as int)
    }

    open spec fn moved_from(&self, before: &Self, amount: Point) -> bool {
        &&& self@.len() == before@.len()
        &&& forall|i: int| 0 <= i < self@.len() ==> #[trigger] self@[i] == before@[i].plus(amount)
        &&& self.valid()
    }

    open spec fn centerable(&self) -> bool {
        self@.len() > 0
    }

    fn is_movable(&self, amount: Vector2) -> (movable: bool) {
        let limit: i128 = COORD_LIMIT as i128;
        let mut i: usize = 0;
        while i < self.points.len()
            invariant
                0 <= i <= self.points.len(),
                limit == COORD_LIMIT,
                forall|j: int| 0 <= j < i ==> (#[trigger] self@[j]).plus(amount@).within(COORD_LIMIT as int),
            decreases self.points.len() - i,
        {
            let x: i128 = self.points[i].x as i128 + amount.x as i128;
            let y: i128 = self.points[i].y as i128 + amount.y as i128;
            if !(-limit <= x && x <= limit && -limit <= y && y <= limit) {
                assert(!self@[i as int].plus(amount@).within(COORD_LIMIT as int));
                return false;
            }
            i = i + 1;
        }
        true
    }

    fn is_centerable(&self) -> (centerable: bool) {
        self.points.len() > 0
    }

    /// The sum of the vertices divided by their number, each coordinate
    /// rounded toward zero.
    open spec fn center_point(&self) -> Point {
        let sum = sum_of(self@, self@.len() as int);
        Point { x: trunc_div(sum.x, self@.len() as int), y: trunc_div(sum.y, self@.len() as int) }
    }

    fn translate(&mut self, amount: Vector2) {
        let count: usize = self.points.len();
        let mut i: usize = 0;
        while i < count
            invariant
                0 <= i <= count,
                count == self.points.len(),
                count == old(self).points.len(),
                old(self).valid(),
                old(self).movable(amount@),
                forall|j: int| 0 <= j < i ==> (#[trigger] self.points@[j])@ == old(self)@[j].plus(amount@),
                forall|j: int| i <= j < count ==> (#[trigger] self.points@[j])@ == old(self)@[j],
            decreases count - i,
        {
            let point: Vector2 = self.points[i];
            assert(old(self)@[i as int].within(COORD_LIMIT as int));
            assert(old(self)@[i as int].plus(amount@).within(COORD_LIMIT as int));
            self.points.set(i, Vector2 { x: point.x + amount.x, y: point.y + amount.y });
            i = i + 1;
        }
        assert forall|j: int| 0 <= j < self@.len() implies #[trigger] self@[j] == old(self)@[j].plus(
            amount@,
        ) && self@[j].within(COORD_LIMIT as int) by {
            assert(self.points@[j]@ == old(self)@[j].plus(amount@));
        }
    }

    fn center(&self) -> (c: Vector2) {
        let count: usize = self.points.len();
        let mut sum_x: i128 = 0;
        let mut sum_y: i128 = 0;
        let mut i: usize = 0;
        while i < count
            invariant
                0 <= i <= count,
                count == self.points.len(),
                self.valid(),
                Point::at(sum_x as int, sum_y as int) == sum_of(self@, i as int),
            decreases count - i,
        {
            proof {
                lemma_sum_of_bound(self@, i as int, COORD_LIMIT as int);
                assert(i * COORD_LIMIT <= usize::MAX * COORD_LIMIT) by (nonlinear_arith)
                    requires
                        i <= usize::MAX,
                ;
                assert(usize::MAX * COORD_LIMIT <= 0xffff_ffff_ffff_ffff * COORD_LIMIT) by (nonlinear_arith);
                assert(self@[i as int].within(COORD_LIMIT as int));
            }
            let point: Vector2 = self.points[i];
            sum_x = sum_x + point.x as i128;
            sum_y = sum_y + point.y as i128;
            i = i + 1;
        }
        proof {
            lemma_sum_of_bound(self@, count as int, COORD_LIMIT as int);
            crate::numeric::lemma_trunc_div_bound(sum_x as int, count as int, COORD_LIMIT as int);
            crate::numeric::lemma_trunc_div_bound(sum_y as int, count as int, COORD_LIMIT as int);
            assert(count * COORD_LIMIT == COORD_LIMIT * count) by (nonlinear_arith);
        }
        let x: i128 = div_trunc(sum_x, count as u64);
        let y: i128 = div_trunc(sum_y, count as u64);
        Vector2 { x: x as i64, y: y as i64 }
    }

    proof fn lemma_moved(&self, before: &Self, amount: Point, axis: Point) {
        let n = self@.len() as int;
        lemma_farthest_index(before@, axis, n);
        lemma_moved_farthest_index(self@, before@, amount, axis, n);
        lemma_moved_bounds_of(self@, before@, amount, n);
    }
}

/// The indices of a fan of `count` triangles around corner 0: triangle `k`
/// has the corners 0, `k + 1` and `k + 2`.
pub open spec fn fan_indices(count: int) -> Seq<u32> {
    Seq::new(
        (3 * count) as nat,
        |i: int|
            if i % 3 == 0 {
                0u32
            } else if i % 3 == 1 {
                (i / 3 + 1) as u32
            } else {
                (i / 3 + 2) as u32
            },
    )
}

impl Triangulate for ConvexHull {
    open spec fn meshable(&self) -> bool {
        2 <= self@.len() <= u32::MAX
    }

    fn is_meshable(&self) -> (meshable: bool) {
        2 <= self.points.len() && self.points.len() <= 0xffff_ffff
    }

    /// The vertices, and a fan of triangles from the first of them.
    open spec fn mesh(&self) -> Mesh {
        Mesh::Indexed(self@, fan_indices(self@.len() - 2))
    }

    fn get_triangles(&self) -> (triangles: Triangles) {
        let count: usize = self.points.len();
        let mut indices: Vec<u32> = Vec::new();
        let mut i: usize = 1;
        while i < count - 1
            invariant
                1 <= i <= count - 1,
                count == self.points.len(),
                count <= u32::MAX,
                indices@ == fan_indices(i - 1),
            decreases count - i,
        {
            let ghost before = indices@;
            indices.push(0);
            indices.push(i as u32);
            indices.push(i as u32 + 1);
            proof {
                assert(indices@ =~= fan_indices(i as int));
            }
            i = i + 1;
        }
        let corners: Vec<Vector2> = self.points.clone();
        proof {
            assert(corners@ =~= self.points@);
        }
        Triangles::IndexedTriangles(corners, indices)
    }
}

/// Moving all points by one amount leaves the farthest index where it was.
pub proof fn lemma_moved_farthest_index(after: Seq<Point>, before: Seq<Point>, amount: Point, axis: Point, n: int)
    requires
        1 <= n <= before.len(),
        after.len() == before.len(),
        forall|i: int| 0 <= i < after.len() ==> #[trigger] after[i] == before[i].plus(amount),
    ensures
        farthest_index(after, axis, n) == farthest_index(before, axis, n),
    decreases n,
{
    if n > 1 {
        lemma_moved_farthest_index(after, before, amount, axis, n - 1);
        lemma_farthest_index(before, axis, n - 1);
        let best = farthest_index(before, axis, n - 1);
        assert(after[best] == before[best].plus(amount));
        assert(after[n - 1] == before[n - 1].plus(amount));
        assert(axis.dot(after[best]) == axis.dot(before[best]) + axis.dot(amount)) by (nonlinear_arith)
            requires
                after[best] == before[best].plus(amount),
        ;
        assert(axis.dot(after[n - 1]) == axis.dot(before[n - 1]) + axis.dot(amount)) by (nonlinear_arith)
            requires
                after[n - 1] == before[n - 1].plus(amount),
        ;
    }
}

/// Moving all points by one amount moves their box along.
pub proof fn lemma_moved_bounds_of(after: Seq<Point>, before: Seq<Point>, amount: Point, n: int)
    requires
        1 <= n <= before.len(),
        after.len() == before.len(),
        forall|i: int| 0 <= i < after.len() ==> #[trigger] after[i] == before[i].plus(amount),
        forall|i: int| 0 <= i < after.len() ==> (#[trigger] after[i]).within(COORD_LIMIT as int),
        forall|i: int| 0 <= i < before.len() ==> (#[trigger] before[i]).within(COORD_LIMIT as int),
    ensures
        bounds_of(after, n) == bounds_of(before, n).shifted(amount),
    decreases n,
{
    assert(after[n - 1] == before[n - 1].plus(amount));
    assert(after[n - 1].within(COORD_LIMIT as int));
    assert(before[n - 1].within(COORD_LIMIT as int));
    if n > 1 {
        lemma_moved_bounds_of(after, before, amount, n - 1);
    } else {
        assert(bounds_of(after, 0) == void_bounds());
        assert(bounds_of(before, 0) == void_bounds());
    }
}

} // verus!
