use collide2d::collision::epa::{closest_edge, epa};
use collide2d::collision::gjk::gjk_simplex;
use collide2d::{
    intersect, overlap, resolve, AsCollide, Circle, Collide, ConvexHull, Rectangle, Resolution, Search, Vector2, TOLERANCE, UNIT,
};

fn square(left: i64, bottom: i64, side: i64) -> ConvexHull {
    ConvexHull::new(vec![
        Vector2::new(left, bottom),
        Vector2::new(left + side, bottom),
        Vector2::new(left + side, bottom + side),
        Vector2::new(left, bottom + side),
    ])
}

/// Twice the area that the origin spans with the side from `a` to `b`.
fn area(a: Vector2, b: Vector2) -> i128 {
    (a.x as i128) * (b.y as i128) - (a.y as i128) * (b.x as i128)
}

fn holds_origin(simplex: &[Vector2]) -> bool {
    let wa = area(simplex[1], simplex[2]);
    let wb = area(simplex[2], simplex[0]);
    let wc = area(simplex[0], simplex[1]);
    (wa >= 0 && wb >= 0 && wc >= 0 && wa + wb + wc > 0) || (wa <= 0 && wb <= 0 && wc <= 0 && wa + wb + wc < 0)
}

#[test]
fn search_ends_at_once_where_nothing_reaches_left_of_the_origin() {
    // the first shape lies to the right of the second
    let a = Rectangle::new(10, 12, 2, 0);
    let b = Rectangle::new(0, 2, 2, 0);
    assert!(matches!(gjk_simplex(&a, &b), Search::Separated));
}

#[test]
fn search_finds_a_triangle_around_the_origin() {
    let a = Rectangle::new(0, 4, 4, 0);
    let b = Rectangle::new(1, 3, 3, 1);
    match gjk_simplex(&a, &b) {
        Search::Enclosed(simplex) => {
            assert_eq!(simplex.len(), 3);
            assert!(holds_origin(&simplex));
            // the first corner is farthest to the right, the second farthest to the left
            assert_eq!(simplex[0], Vector2::new(4 - 1, 0 - 1));
            assert_eq!(simplex[1], Vector2::new(0 - 3, 0 - 1));
            assert_eq!(simplex[2], Vector2::new(0 - 1, 4 - 1));
        },
        other => panic!("no triangle: {:?}", other),
    }
}

#[test]
fn search_drops_a_corner_and_goes_on() {
    let a = square(0, 0, 2000);
    let b = Circle::new(Vector2::new(3000, 3000), 2000);
    match gjk_simplex(&a, &b) {
        Search::Enclosed(simplex) => {
            assert_eq!(simplex.len(), 3);
            assert!(holds_origin(&simplex));
        },
        other => panic!("no triangle: {:?}", other),
    }
    let far = Circle::new(Vector2::new(4000, 4000), 2000);
    assert!(matches!(gjk_simplex(&a, &far), Search::Separated));
}

#[test]
fn closest_edge_is_the_first_of_the_nearest() {
    // a square around the origin: every side lies at distance 2
    let polygon = vec![Vector2::new(-2, -2), Vector2::new(2, -2), Vector2::new(2, 2), Vector2::new(-2, 2)];
    let edge = closest_edge(&polygon);
    assert_eq!(edge.index, 0);
    assert_eq!(edge.distance, 2);
    assert_eq!(edge.heading.x, 0);
    assert!(edge.heading.y < 0);
    assert_eq!(edge.heading.length as i64, -edge.heading.y);
}

#[test]
fn closest_edge_passes_over_sides_without_length() {
    let polygon = vec![
        Vector2::new(-2, -3),
        Vector2::new(-2, -3),
        Vector2::new(5, -3),
        Vector2::new(5, 1),
        Vector2::new(5, 1),
        Vector2::new(-2, 1),
    ];
    let edge = closest_edge(&polygon);
    assert_eq!(edge.index, 4);
    assert_eq!(edge.distance, 1);
    assert_eq!(edge.heading.x, 0);
    assert!(edge.heading.y > 0);
}

#[test]
fn closest_edge_wraps_around() {
    let polygon = vec![Vector2::new(1, -5), Vector2::new(1, 5), Vector2::new(-9, 0)];
    let edge = closest_edge(&polygon);
    assert_eq!(edge.index, 0);
    assert_eq!(edge.distance, 1);
    let polygon = vec![Vector2::new(1, 5), Vector2::new(-9, 0), Vector2::new(1, -5)];
    let edge = closest_edge(&polygon);
    assert_eq!(edge.index, 2);
    assert_eq!(edge.distance, 1);
    assert!(edge.heading.x > 0);
    assert_eq!(edge.heading.y, 0);
}

#[test]
fn distance_of_an_edge_is_rounded_toward_zero() {
    // the side from (3, 0) to (0, 3) lies at 3 / sqrt(2) = 2.12
    let polygon = vec![Vector2::new(3, 0), Vector2::new(0, 3), Vector2::new(-30, -30)];
    let edge = closest_edge(&polygon);
    assert_eq!(edge.index, 0);
    assert_eq!(edge.distance, 2);
    assert_eq!(edge.heading.x, edge.heading.y);
}

#[test]
fn growth_of_a_triangle_that_is_the_difference() {
    // the difference of a triangle and a point is the triangle
    let a = ConvexHull::new(vec![Vector2::new(-3000, -1000), Vector2::new(3000, -1000), Vector2::new(0, 5000)]);
    let b = Circle::new(Vector2::new(0, 0), 0);
    let simplex = vec![Vector2::new(3000, -1000), Vector2::new(-3000, -1000), Vector2::new(0, 5000)];
    match epa(&a, &b, simplex) {
        Resolution::Vector(v) => assert_eq!(v, Vector2::new(0, -1000)),
        other => panic!("no vector: {:?}", other),
    }
}

#[test]
fn growth_adds_the_corner_that_the_triangle_lacks() {
    let a = Rectangle::new(-3000, 5000, 2000, -2000);
    let b = Circle::new(Vector2::new(0, 0), 0);
    // the corner (5000, 2000) is missing: the side from (-3000, 2000) to (5000, -2000) passes the
    // origin at 447, nearer than any side of the rectangle
    let simplex = vec![Vector2::new(5000, -2000), Vector2::new(-3000, -2000), Vector2::new(-3000, 2000)];
    assert!(holds_origin(&simplex));
    assert_eq!(closest_edge(&simplex).index, 2);
    assert_eq!(closest_edge(&simplex).distance, 447);
    match epa(&a, &b, simplex) {
        Resolution::Vector(v) => assert_eq!(v, Vector2::new(0, -2000)),
        other => panic!("no vector: {:?}", other),
    }
}

#[test]
fn overlap_of_two_rectangles_is_exact() {
    let a = Rectangle::new(0, 2 * UNIT, 2 * UNIT, 0);
    let b = Rectangle::new(UNIT * 3 / 2, 5 * UNIT, 3 * UNIT, UNIT);
    assert_eq!(overlap(&a, &b), Some(Vector2::new(UNIT / 2, 0)));
    assert_eq!(overlap(&b, &a), Some(Vector2::new(-UNIT / 2, 0)));
    assert!(matches!(resolve(&a, &b), Resolution::Vector(v) if v == Vector2::new(UNIT / 2, 0)));
}

#[test]
fn overlap_points_from_the_first_shape_to_the_second() {
    let a = Rectangle::new(0, 10_000, 10_000, 0);
    let above = Rectangle::new(0, 10_000, 19_000, 9_000);
    assert_eq!(overlap(&a, &above), Some(Vector2::new(0, 1_000)));
    let below = Rectangle::new(0, 10_000, 2_000, -8_000);
    assert_eq!(overlap(&a, &below), Some(Vector2::new(0, -2_000)));
    let left = Rectangle::new(-7_000, 3_000, 10_000, 0);
    assert_eq!(overlap(&a, &left), Some(Vector2::new(-3_000, 0)));
}

#[test]
fn overlap_moves_the_second_shape_out() {
    let a = Rectangle::new(0, 10_000, 10_000, 0);
    let mut b = Rectangle::new(6_000, 20_000, 7_000, 1_000);
    let mtv = overlap(&a, &b).expect("the rectangles overlap");
    assert_eq!(mtv, Vector2::new(4_000, 0));
    collide2d::Shape::translate(&mut b, mtv);
    assert!(!a.intersects(&b));
    assert_eq!(overlap(&a, &b), None);
}

#[test]
fn overlap_of_a_triangle_and_a_circle() {
    // the circle reaches 0.4 over the side from (4, 0) to (0, 3)
    let triangle = ConvexHull::new(vec![Vector2::new(0, 0), Vector2::new(4 * UNIT, 0), Vector2::new(0, 3 * UNIT)]);
    let circle = Circle::new(Vector2::new(UNIT * 5 / 2, UNIT * 5 / 2), UNIT * 3 / 2);
    let mtv = overlap(&triangle, &circle).expect("the shapes overlap");
    assert!((mtv.x - 240_000_000).abs() <= TOLERANCE);
    assert!((mtv.y - 320_000_000).abs() <= TOLERANCE);
    let back = overlap(&circle, &triangle).expect("the shapes overlap");
    assert!((back.x + 240_000_000).abs() <= TOLERANCE);
    assert!((back.y + 320_000_000).abs() <= TOLERANCE);
}

#[test]
fn circle_near_a_triangle() {
    let triangle = ConvexHull::new(vec![Vector2::new(0, 0), Vector2::new(4 * UNIT, 0), Vector2::new(0, 3 * UNIT)]);
    let circle = Circle::new(Vector2::new(UNIT * 5 / 2, UNIT * 5 / 2), UNIT);
    assert!(!intersect(&triangle, &circle));
    assert_eq!(overlap(&triangle, &circle), None);
    assert!(matches!(resolve(&circle, &triangle), Resolution::Separate));
}

#[test]
fn shapes_that_coincide() {
    let a = Rectangle::new(0, 2 * UNIT, 2 * UNIT, 0);
    assert!(intersect(&a, &a));
    assert_eq!(overlap(&a, &a), Some(Vector2::new(2 * UNIT, 0)));
}

#[test]
fn circles_with_one_center_wear_out_the_rounds() {
    let a = Circle::new(Vector2::new(0, 0), UNIT);
    let b = Circle::new(Vector2::new(0, 0), UNIT);
    assert!(intersect(&a, &b));
    assert!(matches!(resolve(&a, &b), Resolution::Unresolved));
    assert_eq!(overlap(&a, &b), None);
}

#[test]
fn small_circles_with_one_center() {
    // every side of the first triangle lies within the tolerance of the border
    let a = Circle::new(Vector2::new(0, 0), 20);
    let b = Circle::new(Vector2::new(0, 0), 30);
    assert!(intersect(&a, &b));
    match resolve(&a, &b) {
        Resolution::Vector(v) => assert!(v.dot(v) <= 50 * 50),
        other => panic!("no vector: {:?}", other),
    }
}

#[test]
fn rectangles_that_touch_along_a_side() {
    let a = Rectangle::new(0, 2, 2, 0);
    let b = Rectangle::new(2, 4, 2, 0);
    assert!(!a.intersects(&b));
    assert!(!intersect(&a, &b));
    assert!(!intersect(&b, &a));
}

#[test]
fn rectangles_that_touch_may_count_as_intersecting() {
    let a = Rectangle::new(-2, 0, 4, 0);
    let b = Rectangle::new(0, 2, 1, -1);
    assert!(!a.intersects(&b));
    assert!(intersect(&a, &b));
    assert_eq!(overlap(&a, &b), Some(Vector2::new(0, 0)));
    assert!(!intersect(&b, &a));
    assert_eq!(overlap(&b, &a), None);
}

#[test]
fn circles_that_touch_do_not_intersect() {
    let a = Circle::new(Vector2::new(0, 0), UNIT);
    let b = Circle::new(Vector2::new(UNIT / 5 * 6, UNIT / 5 * 8), UNIT);
    assert!(!intersect(&a, &b));
    assert!(matches!(resolve(&a, &b), Resolution::Separate));
}

#[test]
fn circles_lose_their_rim_to_rounding() {
    // the centers lie 9.9 apart, but no point of the grid lies in both circles
    let a = Circle::new(Vector2::new(0, 0), 5);
    let b = Circle::new(Vector2::new(7, 7), 5);
    assert!(!intersect(&a, &b));
}

#[test]
fn shapes_at_the_limit() {
    let limit = collide2d::COORD_LIMIT;
    let a = Rectangle::new(-limit, limit, limit, -limit);
    let b = Circle::new(Vector2::new(limit / 2, limit / 2), limit / 2);
    assert!(intersect(&a, &b));
    assert!(intersect(&b, &a));
    let c = Rectangle::new(-limit, -limit + 5, limit, limit - 5);
    let d = Rectangle::new(limit - 5, limit, -limit + 5, -limit);
    assert!(!intersect(&c, &d));
    assert!(matches!(resolve(&d, &c), Resolution::Separate));
}

/// A polygon with `count` corners on the circle around `center` with radius `radius`.
fn polygon(center: (f64, f64), radius: f64, count: usize) -> ConvexHull {
    let mut points = Vec::new();
    for i in 0..count {
        let angle = (i as f64) / (count as f64) * std::f64::consts::PI * 2.0;
        points.push(Vector2::new(
            ((center.0 + radius * angle.cos()) * UNIT as f64) as i64,
            ((center.1 + radius * angle.sin()) * UNIT as f64) as i64,
        ));
    }
    ConvexHull::new(points)
}

#[test]
fn polygons_with_many_corners() {
    let a = polygon((0.0, 0.0), 1.0, 720);
    for k in 0..50 {
        let angle = k as f64 * 0.37;
        for &distance in [0.3, 1.0, 1.9, 1.99, 2.01, 2.5].iter() {
            let b = polygon((distance * angle.cos(), distance * angle.sin()), 1.0, 500);
            assert_eq!(intersect(&a, &b), distance < 2.0);
            match resolve(&a, &b) {
                Resolution::Separate => assert!(distance > 2.0),
                Resolution::Vector(v) => {
                    assert!(distance < 2.0);
                    let length = ((v.x as f64).powi(2) + (v.y as f64).powi(2)).sqrt() / UNIT as f64;
                    assert!((length - (2.0 - distance)).abs() < 1e-4);
                },
                Resolution::Unresolved => panic!("unresolved at {} {}", k, distance),
            }
        }
    }
}

#[test]
fn circles_of_many_sizes() {
    for &radius in [1.0e-6, 1.0e-3, 1.0, 1.0e3, 1.0e6, 2.0e8].iter() {
        for k in 0..40 {
            let angle = k as f64 * 0.61;
            for &distance in [0.5, 1.0, 1.5, 1.9, 2.1, 3.0].iter() {
                let a = Circle::new(Vector2::new(0, 0), (radius * UNIT as f64) as i64);
                let x = (radius * distance * angle.cos() * UNIT as f64) as i64;
                let y = (radius * distance * angle.sin() * UNIT as f64) as i64;
                let b = Circle::new(Vector2::new(x, y), (radius * UNIT as f64) as i64);
                assert!(a.is_valid() && b.is_valid());
                assert_eq!(intersect(&a, &b), distance < 2.0);
                match resolve(&b, &a) {
                    Resolution::Separate => assert!(distance > 2.0),
                    Resolution::Vector(v) => {
                        assert!(distance < 2.0);
                        let length = ((v.x as f64).powi(2) + (v.y as f64).powi(2)).sqrt() / UNIT as f64;
                        let expected = radius * (2.0 - distance);
                        assert!((length - expected).abs() < 1e-6 + expected * 1e-9);
                    },
                    Resolution::Unresolved => panic!("unresolved at {} {} {}", radius, k, distance),
                }
            }
        }
    }
}

#[test]
fn a_shape_is_its_own_collider() {
    let a = Circle::new(Vector2::new(0, 0), 10_000);
    let b = Rectangle::new(5_000, 20_000, 3_000, -3_000);
    assert!(intersect(a.as_collide(), b.as_collide()));
    assert_eq!(overlap(a.as_collide(), b.as_collide()), overlap(&a, &b));
    assert_eq!(a.as_collide().radius, 10_000);
    assert_eq!(b.as_collide().left, 5_000);
}
