use rust_particles::quadtree::boundingbox::BoundingBox;

fn square(min_x: i64, max_x: i64, min_y: i64, max_y: i64) -> BoundingBox {
    BoundingBox { min_x, max_x, min_y, max_y }
}

#[test]
fn test_center_and_width() {
    let b = square(0, 100, 0, 100);
    assert_eq!(50, b.center_x());
    assert_eq!(50, b.center_y());
    assert_eq!(100, b.width());

    let shifted = square(-100, 100, -40, 10);
    assert_eq!(0, shifted.center_x());
    assert_eq!(-15, shifted.center_y());
    assert_eq!(200, shifted.width());
}

#[test]
fn test_children_partition_parent() {
    // The four quadrants exactly quadrisect the box: no gaps, no
    // overlapping interiors, areas summing to the parent's area.
    let b = square(0, 100, 0, 100);

    let c0 = b.child(0);
    let c1 = b.child(1);
    let c2 = b.child(2);
    let c3 = b.child(3);

    assert_eq!((0, 50, 0, 50), (c0.min_x, c0.max_x, c0.min_y, c0.max_y));
    assert_eq!((50, 100, 0, 50), (c1.min_x, c1.max_x, c1.min_y, c1.max_y));
    assert_eq!((0, 50, 50, 100), (c2.min_x, c2.max_x, c2.min_y, c2.max_y));
    assert_eq!((50, 100, 50, 100), (c3.min_x, c3.max_x, c3.min_y, c3.max_y));

    let area = |c: &BoundingBox| (c.max_x - c.min_x) * (c.max_y - c.min_y);
    assert_eq!(area(&b), area(&c0) + area(&c1) + area(&c2) + area(&c3));
}

#[test]
fn test_child_out_of_range_returns_box() {
    let b = square(3, 17, -5, 9);
    let same = b.child(4);
    assert_eq!((b.min_x, b.max_x, b.min_y, b.max_y), (same.min_x, same.max_x, same.min_y,
        same.max_y));
}

#[test]
fn test_quadrant_codes_and_ties() {
    let b = square(0, 100, 0, 100);
    assert_eq!(0, b.quadrant(10, 10));
    assert_eq!(1, b.quadrant(60, 10));
    assert_eq!(2, b.quadrant(10, 60));
    assert_eq!(3, b.quadrant(60, 60));
    // Ties resolve toward the upper side on both axes.
    assert_eq!(3, b.quadrant(50, 50));
    assert_eq!(1, b.quadrant(50, 49));
    assert_eq!(2, b.quadrant(49, 50));
}

#[test]
fn test_every_point_falls_in_its_quadrants_child() {
    let b = square(-64, 64, -64, 64);
    let points = [(-64, -64), (0, 0), (63, -1), (-1, 63), (64, 64), (-30, 12)];
    for (x, y) in points {
        let q = b.quadrant(x, y);
        let c = b.child(q);
        assert!(c.min_x <= x && x <= c.max_x && c.min_y <= y && y <= c.max_y);
    }
}
