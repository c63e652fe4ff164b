use collide2d::{intersect, overlap, resolve, Circle, Collide, ConvexHull, Rectangle, Resolution, Shape, Vector2, UNIT};

fn units(x: f64) -> i64 {
    (x * UNIT as f64).round() as i64
}

fn point(x: f64, y: f64) -> Vector2 {
    Vector2::new(units(x), units(y))
}

fn length(v: Vector2) -> f64 {
    let x = v.x as f64 / UNIT as f64;
    let y = v.y as f64 / UNIT as f64;
    (x * x + y * y).sqrt()
}

#[test]
fn unit_circles_one_and_a_half_apart_overlap_by_half() {
    let a = Circle::new(point(0.0, 0.0), units(1.0));
    let b = Circle::new(point(1.5, 0.0), units(1.0));
    assert!(intersect(&a, &b));
    let mtv = overlap(&a, &b).expect("the circles overlap");
    assert!((length(mtv) - 0.5).abs() < 1e-6);
    assert!(mtv.x > 0);
    assert!((mtv.y as f64 / UNIT as f64).abs() < 1e-3);
    let back = overlap(&b, &a).expect("the circles overlap");
    assert!((length(back) - 0.5).abs() < 1e-6);
    assert!(back.x < 0);
}

#[test]
fn rectangles_side_by_side_do_not_intersect() {
    let a = Rectangle::new(units(0.0), units(2.0), units(2.0), units(0.0));
    let b = Rectangle::new(units(3.0), units(5.0), units(2.0), units(0.0));
    assert!(!intersect(&a, &b));
    assert_eq!(overlap(&a, &b), None);
    assert!(matches!(resolve(&a, &b), Resolution::Separate));
}

#[test]
fn circle_around_a_square_intersects_it() {
    let square = ConvexHull::new(vec![point(0.0, 0.0), point(1.0, 0.0), point(1.0, 1.0), point(0.0, 1.0)]);
    let circle = Circle::new(point(0.5, 0.5), units(2.0));
    assert!(intersect(&square, &circle));
    assert!(intersect(&circle, &square));
    // the nearest way out leads 2.5 along an axis
    let mtv = overlap(&square, &circle).expect("the shapes overlap");
    assert!((length(mtv) - 2.5).abs() < 1e-6);
}

#[test]
fn shapes_in_boxes_that_lie_apart_do_not_intersect() {
    let circle = Circle::new(point(0.0, 0.0), units(1.0));
    let hull = ConvexHull::new(vec![point(1.01, -3.0), point(4.0, 0.0), point(1.01, 3.0)]);
    let rectangle = Rectangle::new(units(-0.5), units(0.5), units(-1.001), units(-9.0));
    assert!(!circle.get_bounding_box().intersects(&hull.get_bounding_box()));
    assert!(!intersect(&circle, &hull));
    assert!(!intersect(&hull, &circle));
    assert!(!circle.get_bounding_box().intersects(&rectangle.get_bounding_box()));
    assert!(!intersect(&circle, &rectangle));
    assert!(!intersect(&rectangle, &circle));
    assert!(!hull.get_bounding_box().intersects(&rectangle.get_bounding_box()));
    assert!(!intersect(&hull, &rectangle));
    assert_eq!(overlap(&rectangle, &hull), None);
}

#[test]
fn shapes_in_boxes_that_overlap_need_not_intersect() {
    let circle = Circle::new(point(0.0, 0.0), units(1.0));
    let corner = Rectangle::new(units(0.8), units(2.0), units(2.0), units(0.8));
    assert!(circle.get_bounding_box().intersects(&corner.get_bounding_box()));
    assert!(!intersect(&circle, &corner));
}

#[test]
fn circles_intersect_where_the_centers_are_nearer_than_the_radii_reach() {
    let cases = [
        (1.0, 1.0, 1.5, 0.0),
        (1.0, 1.0, 1.99, 0.0),
        (1.0, 1.0, 2.01, 0.0),
        (1.0, 1.0, 3.0, 0.0),
        (2.0, 0.5, 1.0, 2.0),
        (2.0, 0.5, 2.0, 2.0),
        (0.25, 0.25, -0.3, -0.3),
        (0.25, 0.25, -0.4, -0.4),
        (3.0, 1.0, 0.0, -3.9),
        (3.0, 1.0, 0.0, -4.1),
        (100.0, 50.0, 90.0, 119.0),
        (100.0, 50.0, 90.0, 121.0),
    ];
    for &(r1, r2, x, y) in cases.iter() {
        let a = Circle::new(point(0.0, 0.0), units(r1));
        let b = Circle::new(point(x, y), units(r2));
        let d = (x * x + y * y).sqrt();
        assert_eq!(intersect(&a, &b), d < r1 + r2);
        assert_eq!(intersect(&b, &a), d < r1 + r2);
        match overlap(&a, &b) {
            Some(mtv) => {
                assert!(d < r1 + r2);
                assert!((length(mtv) - (r1 + r2 - d)).abs() < 1e-6);
                // along the line from the first center to the second
                let along = (mtv.x as f64 * x + mtv.y as f64 * y) / (UNIT as f64 * d);
                assert!((along - (r1 + r2 - d)).abs() < 1e-5);
            },
            None => assert!(d >= r1 + r2),
        }
    }
}

#[test]
fn overlap_turns_round_when_the_shapes_change_places() {
    let a = Rectangle::new(units(0.0), units(2.0), units(2.0), units(0.0));
    let b = ConvexHull::new(vec![point(1.5, 1.0), point(3.0, 0.5), point(3.0, 2.5)]);
    let one = overlap(&a, &b).expect("the shapes overlap");
    let two = overlap(&b, &a).expect("the shapes overlap");
    assert_eq!(one, Vector2::new(units(0.5), 0));
    assert_eq!(two, one.negated());
    let c = Circle::new(point(0.0, 0.0), units(1.0));
    let d = Circle::new(point(1.2, 0.9), units(1.0));
    let one = overlap(&c, &d).expect("the circles overlap");
    let two = overlap(&d, &c).expect("the circles overlap");
    assert!((length(one) - length(two)).abs() < 1e-6);
    assert!(length(one.plus(two)) < 1e-3);
}

#[test]
fn asking_again_gives_the_same_answer() {
    let a = Circle::new(point(0.3, -0.2), units(1.0));
    let b = ConvexHull::new(vec![point(0.9, 0.0), point(3.0, -1.0), point(3.0, 1.0)]);
    let c = Rectangle::new(units(5.0), units(6.0), units(1.0), units(0.0));
    for _ in 0..3 {
        assert!(intersect(&a, &b));
        assert!(!intersect(&a, &c));
        assert_eq!(overlap(&a, &b), overlap(&a, &b));
        assert_eq!(overlap(&a, &c), None);
    }
    let first = overlap(&a, &b);
    let second = overlap(&a, &b);
    assert!(first.is_some());
    assert_eq!(first, second);
}

#[test]
fn a_copy_moved_beyond_the_diagonal_does_not_intersect() {
    let moves = [(5.01, 0.0), (-3.0, 4.1), (0.0, -5.5), (3.6, 3.6), (-4.0, -3.1)];
    for &(x, y) in moves.iter() {
        // a rectangle 4 wide and 3 high: the diagonal is 5
        let rectangle = Rectangle::new(units(1.0), units(5.0), units(4.0), units(1.0));
        let mut copy = rectangle;
        copy.translate(point(x, y));
        assert!(!intersect(&rectangle, &copy));
        assert!(!intersect(&copy, &rectangle));
        // a hull in the same box
        let hull = ConvexHull::new(vec![point(1.0, 1.0), point(5.0, 2.0), point(4.0, 4.0), point(2.0, 3.0)]);
        let mut copy = hull.clone();
        copy.translate(point(x, y));
        assert!(!intersect(&hull, &copy));
        // a circle of diameter 3.5: the diagonal of its box is 4.95
        let circle = Circle::new(point(-2.0, 7.0), units(1.75));
        let mut copy = circle;
        copy.translate(point(x, y));
        assert!(!intersect(&circle, &copy));
        assert!(!intersect(&copy, &circle));
    }
}

#[test]
fn a_copy_moved_less_than_the_diagonal_may_intersect() {
    let rectangle = Rectangle::new(units(1.0), units(5.0), units(4.0), units(1.0));
    let mut copy = rectangle;
    copy.translate(point(3.0, 2.0));
    assert!(intersect(&rectangle, &copy));
    assert_eq!(overlap(&rectangle, &copy), Some(Vector2::new(0, units(1.0))));
}
