use platformer_core::geometry::{cross_product, side_of_line_detection, Aabb, Point};

fn p(x: i64, y: i64) -> Point {
    Point { x, y }
}

#[test]
fn cross_product_values() {
    assert_eq!(cross_product(1, 0, 0, 1), 1);
    assert_eq!(cross_product(0, 1, 1, 0), -1);
    assert_eq!(cross_product(3, 4, 6, 8), 0);
    assert_eq!(cross_product(2, -3, 5, 7), 29);
}

#[test]
fn side_of_line_signs() {
    assert_eq!(side_of_line_detection(p(0, 0), p(10, 0), p(3, 5)), 1);
    assert_eq!(side_of_line_detection(p(0, 0), p(10, 0), p(3, -5)), -1);
    assert_eq!(side_of_line_detection(p(0, 0), p(10, 0), p(20, 0)), 0);
}

#[test]
fn aabb_from_point_radius_and_expand() {
    let b = Aabb::from_point_radius(p(5, -3), 2);
    assert_eq!(b, Aabb { min: p(3, -5), max: p(7, -1) });
    assert_eq!(b.expand(1), Aabb { min: p(2, -6), max: p(8, 0) });
}

#[test]
fn aabb_overlap_is_inclusive() {
    let a = Aabb { min: p(0, 0), max: p(2, 2) };
    let touching = Aabb { min: p(2, 2), max: p(4, 4) };
    let apart = Aabb { min: p(3, 0), max: p(4, 1) };
    assert!(a.overlaps(&touching));
    assert!(touching.overlaps(&a));
    assert!(!a.overlaps(&apart));
}
