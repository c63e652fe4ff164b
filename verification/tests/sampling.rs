use collide2d::{intersect, overlap, resolve, Collide, ConvexHull, Resolution, Shape, Vector2};

/// A sequence of numbers that looks random and is the same on every run.
struct Numbers(u64);

impl Numbers {
    fn next(&mut self, below: i64) -> i64 {
        self.0 = self.0.wrapping_mul(6364136223846793005).wrapping_add(1442695040888963407);
        ((self.0 >> 33) % below as u64) as i64
    }
}

fn area(o: (i64, i64), a: (i64, i64), b: (i64, i64)) -> i64 {
    (a.0 - o.0) * (b.1 - o.1) - (a.1 - o.1) * (b.0 - o.0)
}

/// The corners of the convex hull of `points`, counter-clockwise, without points on its sides.
fn corners(points: &[(i64, i64)]) -> Vec<(i64, i64)> {
    let mut sorted = points.to_vec();
    sorted.sort();
    sorted.dedup();
    if sorted.len() < 3 {
        return sorted;
    }
    let mut lower: Vec<(i64, i64)> = Vec::new();
    for &p in sorted.iter() {
        while lower.len() >= 2 && area(lower[lower.len() - 2], lower[lower.len() - 1], p) <= 0 {
            lower.pop();
        }
        lower.push(p);
    }
    let mut upper: Vec<(i64, i64)> = Vec::new();
    for &p in sorted.iter().rev() {
        while upper.len() >= 2 && area(upper[upper.len() - 2], upper[upper.len() - 1], p) <= 0 {
            upper.pop();
        }
        upper.push(p);
    }
    lower.pop();
    upper.pop();
    lower.extend(upper);
    lower
}

/// Where the origin lies to the convex hull of `points`: 1 inside, 0 on the border, -1 outside.
fn origin_in_hull(points: &[(i64, i64)]) -> i32 {
    let hull = corners(points);
    if hull.len() < 3 {
        // a point or a segment has no inside
        let on = match hull.len() {
            1 => hull[0] == (0, 0),
            2 => {
                area(hull[0], hull[1], (0, 0)) == 0
                    && hull[0].0.min(hull[1].0) <= 0
                    && 0 <= hull[0].0.max(hull[1].0)
                    && hull[0].1.min(hull[1].1) <= 0
                    && 0 <= hull[0].1.max(hull[1].1)
            },
            _ => false,
        };
        return if on { 0 } else { -1 };
    }
    let mut least = i64::MAX;
    for i in 0..hull.len() {
        let side = area(hull[i], hull[(i + 1) % hull.len()], (0, 0));
        least = least.min(side);
    }
    least.signum() as i32
}

fn sample(numbers: &mut Numbers, count: usize, spread: i64, shift: (i64, i64)) -> Vec<(i64, i64)> {
    (0..count).map(|_| (numbers.next(spread) + shift.0, numbers.next(spread) + shift.1)).collect()
}

fn hull_of(points: &[(i64, i64)]) -> ConvexHull {
    ConvexHull::new(points.iter().map(|&(x, y)| Vector2::new(x, y)).collect())
}

#[test]
fn hulls_intersect_just_where_their_difference_holds_the_origin() {
    let mut numbers = Numbers(7);
    let mut inside = 0;
    let mut outside = 0;
    let mut border = 0;
    for round in 0..20_000 {
        let count_a = 1 + (round % 6) as usize;
        let count_b = 1 + (round % 5) as usize;
        let a = sample(&mut numbers, count_a, 12, (0, 0));
        let shift = (numbers.next(24) - 12, numbers.next(24) - 12);
        let b = sample(&mut numbers, count_b, 12, shift);
        let mut difference = Vec::new();
        for p in a.iter() {
            for q in b.iter() {
                difference.push((p.0 - q.0, p.1 - q.1));
            }
        }
        let hit = intersect(&hull_of(&a), &hull_of(&b));
        match origin_in_hull(&difference) {
            1 => {
                inside += 1;
                assert!(hit, "{:?} {:?}", a, b);
                assert!(matches!(resolve(&hull_of(&a), &hull_of(&b)), Resolution::Vector(_)));
            },
            -1 => {
                outside += 1;
                assert!(!hit, "{:?} {:?}", a, b);
                assert!(matches!(resolve(&hull_of(&a), &hull_of(&b)), Resolution::Separate));
            },
            _ => border += 1,
        }
    }
    assert!(inside > 1000 && outside > 1000 && border > 100);
}

#[test]
fn overlap_of_hulls_parts_them() {
    let mut numbers = Numbers(11);
    let mut found = 0;
    for round in 0..5_000 {
        let a = sample(&mut numbers, 3 + (round % 5) as usize, 1_000_000, (0, 0));
        let shift = (numbers.next(1_500_000) - 750_000, numbers.next(1_500_000) - 750_000);
        let b = sample(&mut numbers, 3 + (round % 4) as usize, 1_000_000, shift);
        let first = hull_of(&a);
        let mut second = hull_of(&b);
        if let Some(mtv) = overlap(&first, &second) {
            found += 1;
            // one step more than the vector, in the direction of each coordinate, parts the hulls for certain
            let more = Vector2::new(mtv.x + mtv.x.signum() * 2, mtv.y + mtv.y.signum() * 2);
            if mtv != Vector2::new(0, 0) {
                assert!(second.is_movable(more));
                second.translate(more);
                assert!(!intersect(&first, &second), "{:?} {:?} {:?}", a, b, mtv);
                // and no shorter way out lies along an axis
                let bounds_a = first.get_bounding_box();
                let bounds_b = hull_of(&b).get_bounding_box();
                let along_x = (bounds_a.right - bounds_b.left).min(bounds_b.right - bounds_a.left);
                let along_y = (bounds_a.top - bounds_b.bottom).min(bounds_b.top - bounds_a.bottom);
                let shortest = along_x.min(along_y) as i128 + 2;
                assert!(mtv.dot(mtv) <= shortest * shortest);
            }
        }
    }
    assert!(found > 1000);
}

#[test]
fn hulls_in_boxes_that_keep_clear_never_intersect() {
    let mut numbers = Numbers(5);
    let mut apart = 0;
    let mut touching = 0;
    for round in 0..100_000 {
        let a = sample(&mut numbers, 1 + (round % 5) as usize, 9, (0, 0));
        let shift = (numbers.next(30) - 15, numbers.next(30) - 15);
        let b = sample(&mut numbers, 1 + (round % 4) as usize, 9, shift);
        let first = hull_of(&a);
        let second = hull_of(&b);
        let one = first.get_bounding_box();
        let two = second.get_bounding_box();
        if one.right < two.left || two.right < one.left || one.top < two.bottom || two.top < one.bottom {
            apart += 1;
            assert!(!intersect(&first, &second), "{:?} {:?}", a, b);
            assert!(!intersect(&second, &first), "{:?} {:?}", a, b);
        } else if two.right == one.left {
            touching += 1;
            assert!(!intersect(&first, &second), "{:?} {:?}", a, b);
        }
    }
    assert!(apart > 10_000 && touching > 300);
}
