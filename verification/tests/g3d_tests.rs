use painter::g2d::{Point2, Triangle2};
use painter::g3d::{Plane, Point3, Triagnle3, Vector3};

#[test]
fn plane() {
    let triangle = Triagnle3::new(
        Point3::new(0, 0, 0),
        Point3::new(-1, 1, 0),
        Point3::new(1, 1, 0),
    );
    let plane = Plane::from_triangle(&triangle);

    assert_eq!(plane.get_z(0, 0), Some(0));
}

#[test]
fn parallel_triangles() {
    let triangle1 = Triagnle3::new(
        Point3::new(0, 0, 0),
        Point3::new(-1, 1, 0),
        Point3::new(1, 1, 0),
    );
    let triangle2 = Triagnle3::new(
        Point3::new(0, 0, 1),
        Point3::new(-1, 1, 1),
        Point3::new(1, 1, 1),
    );

    assert!(!triangle1.is_above(&triangle2));
    assert!(triangle2.is_above(&triangle1))
}

#[test]
fn overlapping_triangles() {
    let triangle1 = Triagnle3::new(
        Point3::new(0, 0, 0),
        Point3::new(-1, 1, -1),
        Point3::new(1, 1, -1),
    );
    let triangle2 = Triagnle3::new(
        Point3::new(0, 0, 1),
        Point3::new(-1, -1, 2),
        Point3::new(1, -1, 2),
    );

    assert!(!triangle1.is_above(&triangle2));
    assert!(triangle2.is_above(&triangle1));
}

#[test]
fn non_overlapping_triangles() {
    let triangle1 = Triagnle3::new(
        Point3::new(0, 1, 0),
        Point3::new(-1, 2, -1),
        Point3::new(1, 2, -1),
    );
    let triangle2 = Triagnle3::new(
        Point3::new(0, 0, 1),
        Point3::new(-1, -1, 2),
        Point3::new(1, -1, 2),
    );

    assert!(!triangle1.is_above(&triangle2));
    assert!(!triangle2.is_above(&triangle1));
}

#[test]
fn vector_algebra() {
    let e1 = Point3::new(1, 0, 0);
    let e2 = Point3::new(0, 1, 0);
    assert_eq!(e1.x_product(&e2), Point3::new(0, 0, 1));
    assert_eq!(e2.x_product(&e1), Point3::new(0, 0, -1));
    let v = Point3::new(2, -3, 4);
    let w = Point3::new(5, 1, -2);
    assert_eq!(v.add(&w), Point3::new(7, -2, 2));
    assert_eq!(v.neg(), Point3::new(-2, 3, -4));
    assert_eq!(v.dot_product(&w), 2 * 5 - 3 - 8);
    assert_eq!(v.shift(10), Point3::new(12, 7, 14));
}

#[test]
fn projection_drops_z() {
    assert_eq!(Point3::new(7, -2, 99).project(), Point2::new(7, -2));
    let t = Triagnle3::new(
        Point3::new(0, 0, 3),
        Point3::new(4, 0, 5),
        Point3::new(0, 4, 9),
    );
    assert_eq!(
        t.project(),
        Some(Triangle2::new(
            Point2::new(0, 0),
            Point2::new(4, 0),
            Point2::new(0, 4)
        ))
    );
}

#[test]
fn degenerate_projection_is_none() {
    // The three vertices project onto one line.
    let t = Triagnle3::new(
        Point3::new(0, 0, 0),
        Point3::new(1, 1, 5),
        Point3::new(2, 2, -3),
    );
    assert_eq!(t.project(), None);
    // Translating the triangle keeps the projection degenerate.
    let moved = t.shift(&Vector3::new(10, -20, 7));
    assert_eq!(moved.project(), None);
}

#[test]
fn shift_translates_all_vertices() {
    let t = Triagnle3::new(
        Point3::new(0, 0, 0),
        Point3::new(-1, 1, 0),
        Point3::new(1, 1, 0),
    );
    let moved = t.shift(&Vector3::new(3, -2, 1));
    assert_eq!(
        moved,
        Triagnle3::new(
            Point3::new(3, -2, 1),
            Point3::new(2, -1, 1),
            Point3::new(4, -1, 1),
        )
    );
}

#[test]
fn plane_from_tilted_triangle() {
    // The plane z = x over the triangle (0,0,0), (2,0,2), (0,2,0).
    let t = Triagnle3::new(
        Point3::new(0, 0, 0),
        Point3::new(2, 0, 2),
        Point3::new(0, 2, 0),
    );
    let plane = Plane::from_triangle(&t);
    assert_eq!(plane.get_z(0, 0), Some(0));
    assert_eq!(plane.get_z(2, 0), Some(2));
    assert_eq!(plane.get_z(1, 1), Some(1));
    // Truncation toward zero on a non-integer height.
    let t2 = Triagnle3::new(
        Point3::new(0, 0, 0),
        Point3::new(2, 0, 1),
        Point3::new(0, 2, 0),
    );
    let plane2 = Plane::from_triangle(&t2);
    assert_eq!(plane2.get_z(1, 0), Some(0));
}

#[test]
fn vertical_plane_has_no_height() {
    // A plane parallel to the viewing axis leaves the height undefined.
    let plane = Plane::new(1, 1, 0, 5);
    assert_eq!(plane.get_z(0, 0), None);
}
