//! Rectangles with sides along the axes.

use vstd::prelude::*;
use crate::collision::Collide;
use crate::numeric::trunc_div;
use crate::renderer::{Mesh, Triangles, Triangulate};
use crate::shapes::Shape;
use crate::vector::{points, Point, Vector2, COORD_LIMIT};

verus! {

/// A rectangle with unbounded integer sides: the model of [`Rectangle`].
pub struct Bounds {
    pub left: int,
    pub right: int,
    pub top: int,
    pub bottom: int,
}

impl Bounds {
    /// `left` is not right of `right`, nor `bottom` above `top`.
    pub open spec fn ordered(self) -> bool {
        self.left <= self.right && self.bottom <= self.top
    }

    /// All four sides lie in `[-bound, bound]`.
    pub open spec fn within(self, bound: int) -> bool {
        &&& -bound <= self.left <= bound
        &&& -bound <= self.right <= bound
        &&& -bound <= self.top <= bound
        &&& -bound <= self.bottom <= bound
    }

    /// The smallest ordered rectangle with `a` and `b` among its corners.
    pub open spec fn spanning(a: Point, b: Point) -> Bounds {
        Bounds {
            left: if a.x < b.x { a.x } else { b.x },
            right: if a.x < b.x { b.x } else { a.x },
            top: if a.y < b.y { b.y } else { a.y },
            bottom: if a.y < b.y { a.y } else { b.y },
        }
    }

    /// `p` lies in the rectangle, its border included.
    pub open spec fn contains(self, p: Point) -> bool {
        self.left <= p.x <= self.right && self.bottom <= p.y <= self.top
    }

    /// The two rectangles share a point that is interior to both.
    pub open spec fn intersects(self, other: Bounds) -> bool {
        &&& self.left < other.right
        &&& other.left < self.right
        &&& self.bottom < other.top
        &&& other.bottom < self.top
    }

    /// A line along an axis passes between the two rectangles, touching
    /// neither.
    pub open spec fn apart(self, other: Bounds) -> bool {
        ||| self.right < other.left
        ||| other.right < self.left
        ||| self.top < other.bottom
        ||| other.top < self.bottom
    }

    /// The rectangles lie apart, or the first lies to the right of the second
    /// and at most touches it.
    pub open spec fn clear_of(self, other: Bounds) -> bool {
        self.apart(other) || other.right <= self.left
    }

    /// The rectangle moved by `amount`.
    pub open spec fn shifted(self, amount: Point) -> Bounds {
        Bounds {
            left: self.left + amount.x,
            right: self.right + amount.x,
            top: self.top + amount.y,
            bottom: self.bottom + amount.y,
        }
    }

    /// The rectangle with every side moved outward by `margin`.
    pub open spec fn grown(self, margin: int) -> Bounds {
        Bounds {
            left: self.left - margin,
            right: self.right + margin,
            top: self.top + margin,
            bottom: self.bottom - margin,
        }
    }

    /// The corner that the signs of `axis` select: right and top where a
    /// coordinate of `axis` is positive, left and bottom where it is not.
    pub open spec fn corner(self, axis: Point) -> Point {
        Point {
            x: if axis.x > 0 { self.right } else { self.left },
            y: if axis.y > 0 { self.top } else { self.bottom },
        }
    }

    /// The middle of the rectangle, each coordinate rounded toward zero.
    pub open spec fn middle(self) -> Point {
        Point {
            x: trunc_div(self.left + self.right, 2),
            y: trunc_div(self.top + self.bottom, 2),
        }
    }
}

/// A rectangle with sides along the axes.
#[derive(Clone, Copy, Debug)]
pub struct Rectangle {
    pub left: i64,
    pub right: i64,
    pub top: i64,
    pub bottom: i64,
}

impl View for Rectangle {
    type V = Bounds;

    open spec fn view(&self) -> Bounds {
        Bounds {
            left: self.left as int,
            right: self.right as int,
            top: self.top as int,
            bottom: self.bottom as int,
        }
    }
}

impl Rectangle {
    /// The rectangle with the given sides, put in order.
    pub fn new(left: i64, right: i64, top: i64, bottom: i64) -> (r: Rectangle)
        ensures
            r@ == Bounds::spanning(Point::at(left as int, top as int), Point::at(right as int, bottom as int)),
            r@.ordered(),
    {
        Rectangle {
            left: if left < right { left } else { right },
            right: if left < right { right } else { left },
            top: if top > bottom { top } else { bottom },
            bottom: if top > bottom { bottom } else { top },
        }
    }

    /// Creates a rectangle from two corners
    pub fn from_points(a: Vector2, b: Vector2) -> (r: Rectangle)
        ensures
            r@ == Bounds::spanning(a@, b@),
            r@.ordered(),
            r@.contains(a@),
            r@.contains(b@),
    {
        let (min_x, max_x): (i64, i64) = if a.x < b.x { (a.x, b.x) } else { (b.x, a.x) };
        let (min_y, max_y): (i64, i64) = if a.y < b.y { (a.y, b.y) } else { (b.y, a.y) };
        Rectangle { left: min_x, right: max_x, top: max_y, bottom: min_y }
    }

    /// Returns true if this rectangle contains a point
    pub fn contains(&self, point: Vector2) -> (b: bool)
        ensures
            b == self@.contains(point@),
    {
        self.left <= point.x && point.x <= self.right && self.bottom <= point.y && point.y
            <= self.top
    }

    /// Adds a margin to the rectangle
    pub fn add_margin(&mut self, margin: i64)
        requires
            i64::MIN <= old(self).left - margin <= i64::MAX,
            i64::MIN <= old(self).right + margin <= i64::MAX,
            i64::MIN <= old(self).top + margin <= i64::MAX,
            i64::MIN <= old(self).bottom - margin <= i64::MAX,
        ensures
            final(self)@ == old(self)@.grown(margin as int),
    {
        self.left = self.left - margin;
        self.right = self.right + margin;
        self.top = self.top + margin;
        self.bottom = self.bottom - margin;
    }

    /// Returns true of two rectangles occupy the same space
    pub fn intersects(&self, other: &Rectangle) -> (b: bool)
        ensures
            b == self@.intersects(other@),
    {
        self.left < other.right && other.left < self.right && self.bottom < other.top
            && other.bottom < self.top
    }
}

/// Half of `sum`, rounded toward zero.
fn halved(sum: i64) -> (h: i64)
    requires
        sum > i64::MIN,
    ensures
        h == trunc_div(sum as int, 2),
{
    if sum >= 0 {
        ((sum as u64) / 2) as i64
    } else {
        let h: u64 = ((-sum) as u64) / 2;
        -(h as i64)
    }
}

impl Collide for Rectangle {
    open spec fn valid(&self) -> bool {
        self@.ordered() && self@.within(COORD_LIMIT as int)
    }

    /// The corner rule is laid down only for a rectangle of some height.
    open spec fn solid(&self) -> bool {
        self.bottom < self.top
    }

    open spec fn farthest_point(&self, axis: Point) -> Point {
        self@.corner(axis)
    }

    open spec fn bounding_box(&self) -> Bounds {
        self@
    }

    fn is_valid(&self) -> (valid: bool) {
        self.left <= self.right && self.bottom <= self.top && -COORD_LIMIT <= self.left && self.right
            <= COORD_LIMIT && -COORD_LIMIT <= self.bottom && self.top <= COORD_LIMIT
    }

    fn is_solid(&self) -> (solid: bool) {
        self.bottom < self.top
    }

    fn get_farthest_point(&self, axis: Vector2) -> (p: Vector2) {
        if axis.x > 0 {
            if axis.y > 0 {
                Vector2::new(self.right, self.top)
            } else {
                Vector2::new(self.right, self.bottom)
            }
        } else {
            if axis.y > 0 {
                Vector2::new(self.left, self.top)
            } else {
                Vector2::new(self.left, self.bottom)
            }
        }
    }

    fn get_bounding_box(&self) -> (r: Rectangle) {
        *self
    }

    proof fn lemma_farthest_point_in_box(&self, axis: Point) {
    }

    proof fn lemma_box_is_tight(&self) {
    }
}

impl Shape for Rectangle {
    open spec fn movable(&self, amount: Point) -> bool {
        self@.shifted(amount).within(COORD_LIMIT as int)
    }

    open spec fn moved_from(&self, before: &Self, amount: Point) -> bool {
        self@ == before@.shifted(amount)
    }

    open spec fn centerable(&self) -> bool {
        true
    }

    open spec fn center_point(&self) -> Point {
        self@.middle()
    }

    fn is_movable(&self, amount: Vector2) -> (movable: bool) {
        let limit: i128 = COORD_LIMIT as i128;
        let left: i128 = self.left as i128 + amount.x as i128;
        let right: i128 = self.right as i128 + amount.x as i128;
        let top: i128 = self.top as i128 + amount.y as i128;
        let bottom: i128 = self.bottom as i128 + amount.y as i128;
        -limit <= left && left <= limit && -limit <= right && right <= limit && -limit <= top && top <= limit
            && -limit <= bottom && bottom <= limit
    }

    fn is_centerable(&self) -> (centerable: bool) {
        true
    }

    fn translate(&mut self, amount: Vector2) {
        self.left = self.left + amount.x;
        self.right = self.right + amount.x;
        self.top = self.top + amount.y;
        self.bottom = self.bottom + amount.y;
    }

    fn center(&self) -> (c: Vector2) {
        Vector2 { x: halved(self.left + self.right), y: halved(self.top + self.bottom) }
    }

    proof fn lemma_moved(&self, before: &Self, amount: Point, axis: Point) {
    }
}

impl Triangulate for Rectangle {
    open spec fn meshable(&self) -> bool {
        true
    }

    fn is_meshable(&self) -> (meshable: bool) {
        true
    }

    /// The four corners, clockwise from the top left, cut along the
    /// diagonal from the top left to the bottom right.
    open spec fn mesh(&self) -> Mesh {
        Mesh::Indexed(
            seq![
                Point::at(self.left as int, self.top as int),
                Point::at(self.right as int, self.top as int),
                Point::at(self.right as int, self.bottom as int),
                Point::at(self.left as int, self.bottom as int),
            ],
            seq![0u32, 1u32, 2u32, 2u32, 3u32, 0u32],
        )
    }

    fn get_triangles(&self) -> (triangles: Triangles) {
        let mut corners: Vec<Vector2> = Vec::new();
        corners.push(Vector2::new(self.left, self.top));
        corners.push(Vector2::new(self.right, self.top));
        corners.push(Vector2::new(self.right, self.bottom));
        corners.push(Vector2::new(self.left, self.bottom));
        let mut indices: Vec<u32> = Vec::new();
        indices.push(0);
        indices.push(1);
        indices.push(2);
        indices.push(2);
        indices.push(3);
        indices.push(0);
        proof {
            assert(points(corners@) =~= seq![
                Point::at(self.left as int, self.top as int),
                Point::at(self.right as int, self.top as int),
                Point::at(self.right as int, self.bottom as int),
                Point::at(self.left as int, self.bottom as int),
            ]);
            assert(indices@ =~= seq![0u32, 1u32, 2u32, 2u32, 3u32, 0u32]);
        }
        Triangles::IndexedTriangles(corners, indices)
    }
}

/// No point of a rectangle lies farther along an axis than the corner that
/// the axis selects.
pub proof fn lemma_corner_is_farthest(b: Bounds, axis: Point, p: Point)
    requires
        b.contains(p),
    ensures
        axis.dot(p) <= axis.dot(b.corner(axis)),
        b.contains(b.corner(axis)),
{
    let c = b.corner(axis);
    assert(axis.x * p.x <= axis.x * c.x) by (nonlinear_arith)
        requires
            (axis.x > 0 && p.x <= c.x) || (axis.x <= 0 && c.x <= p.x),
    ;
    assert(axis.y * p.y <= axis.y * c.y) by (nonlinear_arith)
        requires
            (axis.y > 0 && p.y <= c.y) || (axis.y <= 0 && c.y <= p.y),
    ;
}

} // verus!
