//! Circles.

use vstd::prelude::*;
use crate::collision::Collide;
use crate::numeric::{lemma_along_axis, lemma_along_bound, lemma_along_inside, lemma_course_of, Course, Heading};
use crate::renderer::{Mesh, Triangles, Triangulate};
use crate::shapes::rectangle::{Bounds, Rectangle};
use crate::shapes::Shape;
use crate::vector::{points, Point, Vector2, COORD_LIMIT};

verus! {

/// A circle: all points no farther than `radius` from `center`.
#[derive(Clone, Copy, Debug)]
pub struct Circle {
    pub center: Vector2,
    pub radius: i64,
}

impl Circle {
    pub fn new(center: Vector2, radius: i64) -> (circle: Circle)
        ensures
            circle.center == center,
            circle.radius == radius,
    {
        Circle { center, radius }
    }

    /// The box around the circle with center `center` and radius `radius`.
    pub open spec fn bounds(center: Point, radius: int) -> Bounds {
        Bounds {
            left: center.x - radius,
            right: center.x + radius,
            top: center.y + radius,
            bottom: center.y - radius,
        }
    }

    /// Says whether the box around the circle with center (`x`, `y`) and
    /// radius `radius` lies within [`COORD_LIMIT`] of the origin.
    fn fits(x: i128, y: i128, radius: i64) -> (fits: bool)
        requires
            -0x1_0000_0000_0000_0000 <= x <= 0x1_0000_0000_0000_0000,
            -0x1_0000_0000_0000_0000 <= y <= 0x1_0000_0000_0000_0000,
        ensures
            fits == Circle::bounds(Point::at(x as int, y as int), radius as int).within(COORD_LIMIT as int),
    {
        let limit: i128 = COORD_LIMIT as i128;
        let r: i128 = radius as i128;
        -limit <= x - r && x - r <= limit && -limit <= x + r && x + r <= limit && -limit <= y - r && y - r
            <= limit && -limit <= y + r && y + r <= limit
    }

    /// The point at `radius` from `center` along `axis`, each coordinate
    /// rounded toward the center; the center itself for the zero axis.
    pub open spec fn rim(center: Point, radius: int, axis: Point) -> Point {
        if axis == Point::origin() {
            center
        } else {
            center.plus(Course::of(axis).along(radius))
        }
    }
}

impl Collide for Circle {
    open spec fn valid(&self) -> bool {
        &&& self.radius >= 0
        &&& Circle::bounds(self.center@, self.radius as int).within(COORD_LIMIT as int)
    }

    open spec fn solid(&self) -> bool {
        true
    }

    open spec fn farthest_point(&self, axis: Point) -> Point {
        Circle::rim(self.center@, self.radius as int, axis)
    }

    open spec fn bounding_box(&self) -> Bounds {
        Circle::bounds(self.center@, self.radius as int)
    }

    fn is_valid(&self) -> (valid: bool) {
        self.radius >= 0 && Circle::fits(self.center.x as i128, self.center.y as i128, self.radius)
    }

    fn is_solid(&self) -> (solid: bool) {
        true
    }

    fn get_farthest_point(&self, axis: Vector2) -> (p: Vector2) {
        if axis.x == 0 && axis.y == 0 {
            self.center
        } else {
            let heading: Heading = Heading::of(axis);
            proof {
                lemma_along_bound(heading@, self.radius as int);
            }
            let reach: Vector2 = heading.along(self.radius);
            self.center.plus(reach)
        }
    }

    fn get_bounding_box(&self) -> (r: Rectangle) {
        Rectangle {
            left: self.center.x - self.radius,
            right: self.center.x + self.radius,
            top: self.center.y + self.radius,
            bottom: self.center.y - self.radius,
        }
    }

    proof fn lemma_farthest_point_in_box(&self, axis: Point) {
        if axis != Point::origin() {
            lemma_course_of(axis);
            lemma_along_bound(Course::of(axis), self.radius as int);
        }
    }

    proof fn lemma_box_is_tight(&self) {
        lemma_along_axis(Point { x: 1, y: 0 }, self.radius as int);
        lemma_along_axis(Point { x: -1, y: 0 }, self.radius as int);
        lemma_along_axis(Point { x: 0, y: 1 }, self.radius as int);
        lemma_along_axis(Point { x: 0, y: -1 }, self.radius as int);
    }
}

/// The corners on the rim of the mesh of a circle.
pub const SEGMENTS: u32 = 64;

/// What the cosines are counted in.
pub const WHOLE: i64 = 0x1000_0000_0000_0000;

/// The cosine of `k` sixty-fourths of a turn, for `k` up to a quarter turn,
/// counted in parts of [`WHOLE`] and rounded toward zero.
pub open spec fn cosine(k: int) -> int {
    if k == 0 {
        1_152_921_504_606_846_976
    } else if k == 1 {
        1_147_369_872_436_662_991
    } else if k == 2 {
        1_130_768_441_178_740_757
    } else if k == 3 {
        1_103_277_091_691_359_534
    } else if k == 4 {
        1_065_160_580_698_383_124
    } else if k == 5 {
        1_016_785_991_037_278_313
    } else if k == 6 {
        958_619_196_450_722_177
    } else if k == 7 {
        891_220_374_967_787_610
    } else if k == 8 {
        815_238_614_083_298_888
    } else if k == 9 {
        731_405_659_690_429_196
    } else if k == 10 {
        640_528_868_967_736_374
    } else if k == 11 {
        543_483_435_088_187_079
    } else if k == 12 {
        441_203_958_630_471_860
    } else if k == 13 {
        334_675_446_864_527_722
    } else if k == 14 {
        224_923_827_593_068_886
    } else if k == 15 {
        113_006_068_906_017_470
    } else {
        0
    }
}

/// The unit vector at `i` sixty-fourths of a turn from the first axis, each
/// coordinate rounded toward zero.
pub open spec fn spoke(i: int) -> Course {
    let k = i % 16;
    let c = cosine(k);
    let s = cosine(16 - k);
    let toward = if i / 16 == 0 {
        Point { x: c, y: s }
    } else if i / 16 == 1 {
        Point { x: -s, y: c }
    } else if i / 16 == 2 {
        Point { x: -c, y: -s }
    } else {
        Point { x: s, y: -c }
    };
    Course { toward, length: WHOLE as int }
}

/// The center, and after it the first `count` corners on the rim.
pub open spec fn wheel_corners(center: Point, radius: int, count: int) -> Seq<Point> {
    Seq::new(
        (count + 1) as nat,
        |j: int|
            if j == 0 {
                center
            } else {
                center.plus(spoke(j - 1).along(radius))
            },
    )
}

/// The indices of the first `count` triangles of the wheel: triangle `k`
/// has the center, corner `k` of the rim and the corner after it.
pub open spec fn wheel_indices(count: int) -> Seq<u32> {
    Seq::new(
        (3 * count) as nat,
        |j: int|
            if j % 3 == 0 {
                0u32
            } else if j % 3 == 1 {
                (j / 3 + 1) as u32
            } else {
                ((j / 3 + 1) % (SEGMENTS as int) + 1) as u32
            },
    )
}

/// A cosine and the cosine of what is left of the quarter turn are the
/// sides of a triangle whose long side is no longer than [`WHOLE`].
pub proof fn lemma_cosines(k: int)
    requires
        0 <= k <= 16,
    ensures
        0 <= cosine(k) <= WHOLE,
        cosine(k) * cosine(k) + cosine(16 - k) * cosine(16 - k) <= WHOLE * WHOLE,
{
    if k == 0 {
        assert(1_152_921_504_606_846_976int * 1_152_921_504_606_846_976int + 0int * 0int <= WHOLE * WHOLE) by (nonlinear_arith);
    } else if k == 1 {
        assert(1_147_369_872_436_662_991int * 1_147_369_872_436_662_991int + 113_006_068_906_017_470int * 113_006_068_906_017_470int <= WHOLE * WHOLE) by (nonlinear_arith);
    } else if k == 2 {
        assert(1_130_768_441_178_740_757int * 1_130_768_441_178_740_757int + 224_923_827_593_068_886int * 224_923_827_593_068_886int <= WHOLE * WHOLE) by (nonlinear_arith);
    } else if k == 3 {
        assert(1_103_277_091_691_359_534int * 1_103_277_091_691_359_534int + 334_675_446_864_527_722int * 334_675_446_864_527_722int <= WHOLE * WHOLE) by (nonlinear_arith);
    } else if k == 4 {
        assert(1_065_160_580_698_383_124int * 1_065_160_580_698_383_124int + 441_203_958_630_471_860int * 441_203_958_630_471_860int <= WHOLE * WHOLE) by (nonlinear_arith);
    } else if k == 5 {
        assert(1_016_785_991_037_278_313int * 1_016_785_991_037_278_313int + 543_483_435_088_187_079int * 543_483_435_088_187_079int <= WHOLE * WHOLE) by (nonlinear_arith);
    } else if k == 6 {
        assert(958_619_196_450_722_177int * 958_619_196_450_722_177int + 640_528_868_967_736_374int * 640_528_868_967_736_374int <= WHOLE * WHOLE) by (nonlinear_arith);
    } else if k == 7 {
        assert(891_220_374_967_787_610int * 891_220_374_967_787_610int + 731_405_659_690_429_196int * 731_405_659_690_429_196int <= WHOLE * WHOLE) by (nonlinear_arith);
    } else if k == 8 {
        assert(815_238_614_083_298_888int * 815_238_614_083_298_888int + 815_238_614_083_298_888int * 815_238_614_083_298_888int <= WHOLE * WHOLE) by (nonlinear_arith);
    } else if k == 9 {
        assert(731_405_659_690_429_196int * 731_405_659_690_429_196int + 891_220_374_967_787_610int * 891_220_374_967_787_610int <= WHOLE * WHOLE) by (nonlinear_arith);
    } else if k == 10 {
        assert(640_528_868_967_736_374int * 640_528_868_967_736_374int + 958_619_196_450_722_177int * 958_619_196_450_722_177int <= WHOLE * WHOLE) by (nonlinear_arith);
    } else if k == 11 {
        assert(543_483_435_088_187_079int * 543_483_435_088_187_079int + 1_016_785_991_037_278_313int * 1_016_785_991_037_278_313int <= WHOLE * WHOLE) by (nonlinear_arith);
    } else if k == 12 {
        assert(441_203_958_630_471_860int * 441_203_958_630_471_860int + 1_065_160_580_698_383_124int * 1_065_160_580_698_383_124int <= WHOLE * WHOLE) by (nonlinear_arith);
    } else if k == 13 {
        assert(334_675_446_864_527_722int * 334_675_446_864_527_722int + 1_103_277_091_691_359_534int * 1_103_277_091_691_359_534int <= WHOLE * WHOLE) by (nonlinear_arith);
    } else if k == 14 {
        assert(224_923_827_593_068_886int * 224_923_827_593_068_886int + 1_130_768_441_178_740_757int * 1_130_768_441_178_740_757int <= WHOLE * WHOLE) by (nonlinear_arith);
    } else if k == 15 {
        assert(113_006_068_906_017_470int * 113_006_068_906_017_470int + 1_147_369_872_436_662_991int * 1_147_369_872_436_662_991int <= WHOLE * WHOLE) by (nonlinear_arith);
    } else if k == 16 {
        assert(0int * 0int + 1_152_921_504_606_846_976int * 1_152_921_504_606_846_976int <= WHOLE * WHOLE) by (nonlinear_arith);
    }
}

/// Every spoke is a sound course within [`WHOLE`].
pub proof fn lemma_spoke(i: int)
    requires
        0 <= i < SEGMENTS,
    ensures
        spoke(i).sound(),
        spoke(i).toward.within(WHOLE as int),
{
    let k = i % 16;
    lemma_cosines(k);
    lemma_cosines(16 - k);
    let c = cosine(k);
    let s = cosine(16 - k);
    assert((-c) * (-c) == c * c && (-s) * (-s) == s * s) by (nonlinear_arith);
}

/// Every corner of the wheel lies no farther from the center than the
/// radius.
pub proof fn lemma_wheel_in_disc(center: Point, radius: int, j: int)
    requires
        0 <= radius,
        0 <= j <= SEGMENTS,
    ensures
        wheel_corners(center, radius, SEGMENTS as int)[j].minus(center).in_disc(radius),
{
    let offset = wheel_corners(center, radius, SEGMENTS as int)[j].minus(center);
    if j == 0 {
        assert(offset.dot(offset) <= radius * radius) by (nonlinear_arith)
            requires
                offset.x == 0,
                offset.y == 0,
        ;
    } else {
        lemma_spoke(j - 1);
        lemma_along_inside(spoke(j - 1), radius);
        assert(offset == spoke(j - 1).along(radius));
    }
}

/// The cosine of `k` sixty-fourths of a turn.
fn cosine_of(k: u32) -> (c: i64)
    requires
        k <= 16,
    ensures
        c == cosine(k as int),
{
    if k == 0 {
        1_152_921_504_606_846_976
    } else if k == 1 {
        1_147_369_872_436_662_991
    } else if k == 2 {
        1_130_768_441_178_740_757
    } else if k == 3 {
        1_103_277_091_691_359_534
    } else if k == 4 {
        1_065_160_580_698_383_124
    } else if k == 5 {
        1_016_785_991_037_278_313
    } else if k == 6 {
        958_619_196_450_722_177
    } else if k == 7 {
        891_220_374_967_787_610
    } else if k == 8 {
        815_238_614_083_298_888
    } else if k == 9 {
        731_405_659_690_429_196
    } else if k == 10 {
        640_528_868_967_736_374
    } else if k == 11 {
        543_483_435_088_187_079
    } else if k == 12 {
        441_203_958_630_471_860
    } else if k == 13 {
        334_675_446_864_527_722
    } else if k == 14 {
        224_923_827_593_068_886
    } else if k == 15 {
        113_006_068_906_017_470
    } else {
        0
    }
}

/// The unit vector at `i` sixty-fourths of a turn.
fn spoke_of(i: u32) -> (heading: Heading)
    requires
        i < SEGMENTS,
    ensures
        heading@ == spoke(i as int),
        heading.wf(),
{
    proof {
        lemma_spoke(i as int);
        lemma_cosines((i % 16) as int);
        lemma_cosines(16 - (i % 16) as int);
    }
    let c: i64 = cosine_of(i % 16);
    let s: i64 = cosine_of(16 - i % 16);
    let quarter: u32 = i / 16;
    if quarter == 0 {
        Heading { x: c, y: s, length: WHOLE as u64 }
    } else if quarter == 1 {
        Heading { x: -s, y: c, length: WHOLE as u64 }
    } else if quarter == 2 {
        Heading { x: -c, y: -s, length: WHOLE as u64 }
    } else {
        Heading { x: s, y: -c, length: WHOLE as u64 }
    }
}

impl Triangulate for Circle {
    open spec fn meshable(&self) -> bool {
        self.valid()
    }

    fn is_meshable(&self) -> (meshable: bool) {
        self.is_valid()
    }

    /// A wheel of [`SEGMENTS`] triangles around the center.
    open spec fn mesh(&self) -> Mesh {
        Mesh::Indexed(
            wheel_corners(self.center@, self.radius as int, SEGMENTS as int),
            wheel_indices(SEGMENTS as int),
        )
    }

    fn get_triangles(&self) -> (triangles: Triangles) {
        let mut corners: Vec<Vector2> = Vec::new();
        let mut indices: Vec<u32> = Vec::new();
        corners.push(self.center);
        assert(points(corners@) =~= wheel_corners(self.center@, self.radius as int, 0));
        let mut i: u32 = 0;
        while i < SEGMENTS
            invariant
                0 <= i <= SEGMENTS,
                self.valid(),
                corners@.len() == i + 1,
                points(corners@) == wheel_corners(self.center@, self.radius as int, i as int),
                indices@ == wheel_indices(i as int),
            decreases SEGMENTS - i,
        {
            let heading: Heading = spoke_of(i);
            proof {
                lemma_along_bound(heading@, self.radius as int);
            }
            let reach: Vector2 = heading.along(self.radius);
            let ghost before = corners@;
            corners.push(self.center.plus(reach));
            indices.push(0);
            indices.push(i + 1);
            indices.push((i + 1) % SEGMENTS + 1);
            proof {
                let wheel = wheel_corners(self.center@, self.radius as int, i + 1);
                assert forall|j: int| 0 <= j < wheel.len() implies points(corners@)[j] == wheel[j] by {
                    if j <= i {
                        assert(points(before)[j] == wheel_corners(self.center@, self.radius as int, i as int)[j]);
                        assert(corners@[j] == before[j]);
                    } else {
                        assert(corners@[j]@ == self.center@.plus(spoke(i as int).along(self.radius as int)));
                    }
                }
                assert(points(corners@) =~= wheel);
                assert(indices@ =~= wheel_indices(i + 1));
            }
            i = i + 1;
        }
        Triangles::IndexedTriangles(corners, indices)
    }
}

/// The point of a circle farthest along an axis lies no farther from the
/// center than the radius.
pub proof fn lemma_rim_in_disc(center: Point, radius: int, axis: Point)
    requires
        0 <= radius,
    ensures
        Circle::rim(center, radius, axis).minus(center).in_disc(radius),
{
    let offset = Circle::rim(center, radius, axis).minus(center);
    if axis != Point::origin() {
        lemma_course_of(axis);
        lemma_along_inside(Course::of(axis), radius);
        assert(offset == Course::of(axis).along(radius));
    } else {
        assert(offset == Point::origin());
        assert(radius * radius >= 0) by (nonlinear_arith);
    }
}

impl Shape for Circle {
    open spec fn movable(&self, amount: Point) -> bool {
        Circle::bounds(self.center@.plus(amount), self.radius as int).within(COORD_LIMIT as int)
    }

    open spec fn moved_from(&self, before: &Self, amount: Point) -> bool {
        self.center@ == before.center@.plus(amount) && self.radius == before.radius
    }

    open spec fn centerable(&self) -> bool {
        true
    }

    open spec fn center_point(&self) -> Point {
        self.center@
    }

    fn is_movable(&self, amount: Vector2) -> (movable: bool) {
        Circle::fits(self.center.x as i128 + amount.x as i128, self.center.y as i128 + amount.y as i128, self.radius)
    }

    fn is_centerable(&self) -> (centerable: bool) {
        true
    }

    fn translate(&mut self, amount: Vector2) {
        self.center = self.center.plus(amount);
    }

    fn center(&self) -> (c: Vector2) {
        self.center
    }

    proof fn lemma_moved(&self, before: &Self, amount: Point, axis: Point) {
    }
}

} // verus!
