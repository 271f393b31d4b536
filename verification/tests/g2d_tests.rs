use painter::g2d::{Line, Point2, Segment, Triangle2};

#[test]
fn basic_test() {
    let _x = Point2::new(1, 3);
}

#[test]
fn segments_intersection() {
    let seg1 = Segment::new(Point2::new(-1, 0), Point2::new(2, 0));
    let seg2 = Segment::new(Point2::new(0, -1), Point2::new(0, 2));
    assert_eq!(seg1.intersection(&seg2), Some(Point2::new(0, 0)));

    let seg1 = Segment::new(Point2::new(-1, -1), Point2::new(1, 1));
    let seg2 = Segment::new(Point2::new(1, -1), Point2::new(-2, 2));
    assert_eq!(seg1.intersection(&seg2), Some(Point2::new(0, 0)));

    let seg1 = Segment::new(Point2::new(1, 1), Point2::new(-1, 1));
    let seg2 = Segment::new(Point2::new(1, -1), Point2::new(-1, -2));
    assert_eq!(seg1.intersection(&seg2), None);

    let seg1 = Segment::new(Point2::new(1, 0), Point2::new(0, 0));
    let seg2 = Segment::new(Point2::new(-1, 0), Point2::new(0, 0));
    assert_eq!(seg1.intersection(&seg2), Some(Point2::new(0, 0)));

    let seg1 = Segment::new(Point2::new(2, 0), Point2::new(0, 0));
    let seg2 = Segment::new(Point2::new(-1, 0), Point2::new(1, 0));
    assert_eq!(seg1.intersection(&seg2), Some(Point2::new(1, 0)));
}

#[test]
fn is_inside() {
    let triangle = Triangle2::new(Point2::new(0, 0), Point2::new(2, 2), Point2::new(-2, 2));
    assert!(triangle.is_inside(&Point2::new(0, 0)));
    assert!(triangle.is_inside(&Point2::new(0, 1)));
    assert!(!triangle.is_inside(&Point2::new(-1, -1)));
}

#[test]
fn triangls_intersection_one_point() {
    let triangle1 = Triangle2::new(Point2::new(0, 0), Point2::new(2, 2), Point2::new(-2, 2));
    let triangle2 = Triangle2::new(Point2::new(0, 0), Point2::new(2, -2), Point2::new(-2, -2));

    assert_eq!(triangle1.intersection(&triangle2), Some(Point2::new(0, 0)));
}

#[test]
fn triangls_intersection_inside() {
    let triangle1 = Triangle2::new(Point2::new(0, 0), Point2::new(10, 5), Point2::new(-10, 5));
    let triangle2 = Triangle2::new(Point2::new(0, 1), Point2::new(1, 2), Point2::new(-1, 2));

    assert_eq!(triangle1.intersection(&triangle2), Some(Point2::new(0, 1)));
}

#[test]
fn triangls_intersection_dont_intersect() {
    let triangle1 = Triangle2::new(Point2::new(1, 1), Point2::new(2, 2), Point2::new(-2, 2));
    let triangle2 = Triangle2::new(Point2::new(0, 0), Point2::new(2, -2), Point2::new(-2, -2));

    assert_eq!(triangle1.intersection(&triangle2), None);
}

#[test]
fn canonical_line_ignores_point_order() {
    let seg = Segment::new(Point2::new(0, 0), Point2::new(2, 1));
    let ges = Segment::new(Point2::new(2, 1), Point2::new(0, 0));
    assert_eq!(Line::from_segment(&seg), Line::from_segment(&ges));

    let seg = Segment::new(Point2::new(-3, 7), Point2::new(-3, -4));
    let ges = Segment::new(Point2::new(-3, -4), Point2::new(-3, 7));
    assert_eq!(Line::from_segment(&seg), Line::from_segment(&ges));
}

#[test]
fn line_canonicalization_flips_signs() {
    // Raw coefficients with a negative leading coefficient are negated.
    let l = Line::new(-2, 3, -5);
    assert_eq!(l, Line::new(2, -3, 5));
    // A zero leading coefficient canonicalizes on the second one.
    let l = Line::new(0, -4, 1);
    assert_eq!(l, Line::new(0, 4, -1));
}

#[test]
fn line_intersection_truncates_toward_zero() {
    // 2x = -3 meets y = 0 at x = -1.5, reported as -1 (not floor -2).
    let l1 = Line::new(2, 0, -3);
    let l2 = Line::new(0, 1, 0);
    assert_eq!(l1.intersection(&l2), Some(Point2::new(-1, 0)));
}

#[test]
fn parallel_lines_do_not_intersect() {
    // Distinct parallel lines.
    let l1 = Line::new(1, 2, 3);
    let l2 = Line::new(1, 2, 9);
    assert_eq!(l1.intersection(&l2), None);
    // Identical lines are parallel too; callers must handle them apart.
    assert_eq!(l1.intersection(&l1), None);
}

#[test]
fn segment_intersection_truncates() {
    // The true crossing is (1.5, 0.5); truncation reports (1, 0).
    let seg1 = Segment::new(Point2::new(0, 0), Point2::new(3, 1));
    let seg2 = Segment::new(Point2::new(0, 1), Point2::new(3, 0));
    assert_eq!(seg1.intersection(&seg2), Some(Point2::new(1, 0)));
}

#[test]
fn segment_intersection_symmetry() {
    // Crossing segments report the same point either way around.
    let seg1 = Segment::new(Point2::new(-1, 0), Point2::new(2, 0));
    let seg2 = Segment::new(Point2::new(0, -1), Point2::new(0, 2));
    assert_eq!(seg1.intersection(&seg2), seg2.intersection(&seg1));

    // Parallel segments agree on not intersecting either way around.
    let seg1 = Segment::new(Point2::new(0, 0), Point2::new(2, 0));
    let seg2 = Segment::new(Point2::new(0, 1), Point2::new(2, 1));
    assert_eq!(seg1.intersection(&seg2), None);
    assert_eq!(seg2.intersection(&seg1), None);

    // Collinear overlapping segments both find a witness point, though the
    // reported endpoint depends on the argument order.
    let seg1 = Segment::new(Point2::new(0, 0), Point2::new(2, 0));
    let seg2 = Segment::new(Point2::new(1, 0), Point2::new(3, 0));
    assert!(seg1.intersection(&seg2).is_some());
    assert!(seg2.intersection(&seg1).is_some());
}

#[test]
fn boundary_points_are_inside() {
    let triangle = Triangle2::new(Point2::new(0, 0), Point2::new(4, 0), Point2::new(0, 4));
    // On the first edge.
    assert!(triangle.is_inside(&Point2::new(2, 0)));
    // On the hypotenuse.
    assert!(triangle.is_inside(&Point2::new(2, 2)));
    // On the third edge.
    assert!(triangle.is_inside(&Point2::new(0, 3)));
    // A vertex.
    assert!(triangle.is_inside(&Point2::new(4, 0)));
    // Just outside.
    assert!(!triangle.is_inside(&Point2::new(3, 2)));
}
