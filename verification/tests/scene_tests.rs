use painter::g3d::{Point3, Triagnle3};
use painter::scene::{build_graph, get_ordered_projection, paint_order, render, serialize};

fn stacked_triangle(z: i64) -> Triagnle3 {
    Triagnle3::new(
        Point3::new(0, 0, z),
        Point3::new(-1, 1, z),
        Point3::new(1, 1, z),
    )
}

#[test]
fn ordered_triangles() {
    let t1 = stacked_triangle(0);
    let t2 = stacked_triangle(1);
    let t3 = stacked_triangle(-1);
    let t4 = Triagnle3::new(
        Point3::new(0, 0, -10),
        Point3::new(-1, -1, -10),
        Point3::new(1, -1, -10),
    );
    let triangles = vec![t1.clone(), t2.clone(), t3.clone(), t4.clone()];
    // Back-to-front: every triangle is painted after all the triangles it
    // occludes, so the lowest comes first and the top one last.
    assert_eq!(
        get_ordered_projection(&triangles),
        vec![
            t4.project().unwrap(),
            t3.project().unwrap(),
            t1.project().unwrap(),
            t2.project().unwrap(),
        ]
    );
}

#[test]
fn occlusion_graph_edges() {
    let below = stacked_triangle(0);
    let above = stacked_triangle(5);
    let g = build_graph(&vec![below, above]);
    // Only the upper triangle must wait for the lower one.
    assert_eq!(g, vec![vec![], vec![0]]);
}

#[test]
fn paint_order_respects_edges() {
    let triangles = vec![
        stacked_triangle(3),
        stacked_triangle(-7),
        stacked_triangle(0),
        stacked_triangle(12),
    ];
    let g = build_graph(&triangles);
    let order = paint_order(&g);
    // Depth order: deepest first, and every edge target painted earlier.
    assert_eq!(order, vec![1, 2, 0, 3]);
    for i in 0..order.len() {
        for j in 0..order.len() {
            if g[order[i]].contains(&order[j]) {
                assert!(j < i);
            }
        }
    }
}

#[test]
fn degenerate_triangles_are_dropped() {
    let flat = stacked_triangle(0);
    // This one projects onto a single line and has zero screen area.
    let edge_on = Triagnle3::new(
        Point3::new(0, 0, 0),
        Point3::new(1, 1, 4),
        Point3::new(2, 2, 0),
    );
    let projected = get_ordered_projection(&vec![edge_on, flat.clone()]);
    assert_eq!(projected, vec![flat.project().unwrap()]);
}

#[test]
fn render_serializes_count_and_coordinates() {
    let bottom = stacked_triangle(0);
    let top = Triagnle3::new(
        Point3::new(0, 0, 9),
        Point3::new(-2, 1, 9),
        Point3::new(2, 1, 9),
    );
    let buf = render(&vec![top, bottom]);
    assert_eq!(
        buf,
        vec![
            2, // visible triangles
            0, 0, -1, 1, 1, 1, // the bottom triangle, painted first
            0, 0, -2, 1, 2, 1, // the top triangle, painted last
        ]
    );
}

#[test]
fn render_empty_scene() {
    assert_eq!(render(&vec![]), vec![0]);
}

#[test]
fn serialize_layout() {
    let flat = stacked_triangle(2);
    let projected = vec![flat.project().unwrap()];
    assert_eq!(serialize(&projected), vec![1, 0, 0, -1, 1, 1, 1]);
}
