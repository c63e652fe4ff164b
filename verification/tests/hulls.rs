use collide2d::renderer::{Triangles, Triangulate};
use collide2d::{Collide, ConvexHull, Shape, Vector2, COORD_LIMIT};

fn sides(r: &collide2d::Rectangle) -> (i64, i64, i64, i64) {
    (r.left, r.right, r.top, r.bottom)
}

fn pentagon() -> ConvexHull {
    ConvexHull::new(vec![
        Vector2::new(0, 0),
        Vector2::new(4, -1),
        Vector2::new(6, 3),
        Vector2::new(3, 6),
        Vector2::new(-1, 3),
    ])
}

#[test]
fn new_keeps_the_points() {
    let hull = pentagon();
    assert_eq!(hull.points.len(), 5);
    assert_eq!(hull.points[2], Vector2::new(6, 3));
}

#[test]
fn farthest_point_is_the_vertex_farthest_along_the_axis() {
    let hull = pentagon();
    assert_eq!(hull.get_farthest_point(Vector2::new(1, 0)), Vector2::new(6, 3));
    assert_eq!(hull.get_farthest_point(Vector2::new(0, 1)), Vector2::new(3, 6));
    assert_eq!(hull.get_farthest_point(Vector2::new(-1, 0)), Vector2::new(-1, 3));
    assert_eq!(hull.get_farthest_point(Vector2::new(0, -1)), Vector2::new(4, -1));
    assert_eq!(hull.get_farthest_point(Vector2::new(-1, -1)), Vector2::new(0, 0));
}

#[test]
fn farthest_point_is_the_first_of_equals() {
    let square = ConvexHull::new(vec![Vector2::new(0, 0), Vector2::new(1, 0), Vector2::new(1, 1), Vector2::new(0, 1)]);
    assert_eq!(square.get_farthest_point(Vector2::new(1, 0)), Vector2::new(1, 0));
    assert_eq!(square.get_farthest_point(Vector2::new(0, 1)), Vector2::new(1, 1));
    assert_eq!(square.get_farthest_point(Vector2::new(-1, 0)), Vector2::new(0, 0));
    assert_eq!(square.get_farthest_point(Vector2::new(0, -1)), Vector2::new(0, 0));
    assert_eq!(square.get_farthest_point(Vector2::new(0, 0)), Vector2::new(0, 0));
}

#[test]
fn farthest_point_of_a_single_point() {
    let hull = ConvexHull::new(vec![Vector2::new(7, 9)]);
    assert_eq!(hull.get_farthest_point(Vector2::new(-3, 2)), Vector2::new(7, 9));
}

#[test]
fn farthest_point_with_the_longest_axis() {
    let hull = ConvexHull::new(vec![
        Vector2::new(-COORD_LIMIT, -COORD_LIMIT),
        Vector2::new(COORD_LIMIT, -COORD_LIMIT),
        Vector2::new(COORD_LIMIT, COORD_LIMIT),
        Vector2::new(-COORD_LIMIT, COORD_LIMIT),
    ]);
    let axis = Vector2::new(4 * COORD_LIMIT, 4 * COORD_LIMIT);
    assert_eq!(hull.get_farthest_point(axis), Vector2::new(COORD_LIMIT, COORD_LIMIT));
    assert_eq!(hull.get_farthest_point(axis.negated()), Vector2::new(-COORD_LIMIT, -COORD_LIMIT));
}

#[test]
fn bounding_box_of_a_hull() {
    assert_eq!(sides(&pentagon().get_bounding_box()), (-1, 6, 6, -1));
    let hull = ConvexHull::new(vec![Vector2::new(7, 9)]);
    assert_eq!(sides(&hull.get_bounding_box()), (7, 7, 9, 9));
}

#[test]
fn bounding_box_of_no_points_is_turned_inside_out() {
    let hull = ConvexHull::new(Vec::new());
    assert_eq!(sides(&hull.get_bounding_box()), (i64::MAX, i64::MIN, i64::MIN, i64::MAX));
}

#[test]
fn translate_moves_every_point() {
    let mut hull = pentagon();
    hull.translate(Vector2::new(10, -20));
    assert_eq!(
        hull.points,
        vec![
            Vector2::new(10, -20),
            Vector2::new(14, -21),
            Vector2::new(16, -17),
            Vector2::new(13, -14),
            Vector2::new(9, -17),
        ]
    );
    assert_eq!(sides(&hull.get_bounding_box()), (9, 16, -14, -21));
}

#[test]
fn translate_of_no_points() {
    let mut hull = ConvexHull::new(Vec::new());
    hull.translate(Vector2::new(10, -20));
    assert!(hull.points.is_empty());
}

#[test]
fn center_is_the_mean_of_the_points() {
    let square = ConvexHull::new(vec![Vector2::new(0, 0), Vector2::new(4, 0), Vector2::new(4, 4), Vector2::new(0, 4)]);
    assert_eq!(square.center(), Vector2::new(2, 2));
    assert_eq!(pentagon().center(), Vector2::new(2, 2));
}

#[test]
fn center_of_a_hull_is_rounded_toward_zero() {
    let hull = ConvexHull::new(vec![Vector2::new(0, 0), Vector2::new(1, 0), Vector2::new(1, -2)]);
    assert_eq!(hull.center(), Vector2::new(0, 0));
    let hull = ConvexHull::new(vec![Vector2::new(-5, 5), Vector2::new(0, 0)]);
    assert_eq!(hull.center(), Vector2::new(-2, 2));
}

#[test]
fn center_of_points_at_the_limit() {
    let hull = ConvexHull::new(vec![Vector2::new(COORD_LIMIT, -COORD_LIMIT); 1000]);
    assert_eq!(hull.center(), Vector2::new(COORD_LIMIT, -COORD_LIMIT));
}

#[test]
fn hull_is_cut_into_a_fan() {
    match pentagon().get_triangles() {
        Triangles::IndexedTriangles(corners, indices) => {
            assert_eq!(corners, pentagon().points);
            assert_eq!(indices, vec![0, 1, 2, 0, 2, 3, 0, 3, 4]);
        },
        Triangles::TriangleList(_) => panic!("a hull is given by indices"),
    }
}

#[test]
fn hull_of_two_points_has_no_triangle() {
    let hull = ConvexHull::new(vec![Vector2::new(0, 0), Vector2::new(4, 0)]);
    match hull.get_triangles() {
        Triangles::IndexedTriangles(corners, indices) => {
            assert_eq!(corners.len(), 2);
            assert!(indices.is_empty());
        },
        Triangles::TriangleList(_) => panic!("a hull is given by indices"),
    }
}
