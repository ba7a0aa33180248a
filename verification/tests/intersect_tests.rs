use voxel_q3::geom::{TriVertex, Triangle, Vec3i};
use voxel_q3::intersect::intersects;

fn plain_tri(a: (i64, i64, i64), b: (i64, i64, i64), c: (i64, i64, i64)) -> Triangle {
    let color = Vec3i::new(0, 0, 0);
    Triangle::new(
        TriVertex::new(Vec3i::new(a.0, a.1, a.2), color),
        TriVertex::new(Vec3i::new(b.0, b.1, b.2), color),
        TriVertex::new(Vec3i::new(c.0, c.1, c.2), color),
    )
}

#[test]
fn triangle_through_cube_intersects() {
    let t = plain_tri((-5, -5, 0), (5, -5, 0), (0, 5, 0));
    assert!(intersects(Vec3i::new(0, 0, 0), 10, &t));
}

#[test]
fn distant_triangle_misses() {
    let t = plain_tri((100, 100, 100), (110, 100, 100), (100, 110, 100));
    assert!(!intersects(Vec3i::new(0, 0, 0), 10, &t));
}

#[test]
fn diagonally_separated_triangle_misses() {
    // Inside the cube's bounding ranges on every axis, but separated by an
    // edge-cross axis: only the nine edge tests can reject it.
    let t = plain_tri((25, 0, 0), (0, 25, 0), (25, 25, 0));
    assert!(!intersects(Vec3i::new(0, 0, 0), 10, &t));
}

#[test]
fn face_boundary_triangle_intersects() {
    // The triangle lies exactly on the +x face plane of the cube; the
    // non-strict comparisons classify touching as intersecting.
    let t = plain_tri((10, -5, -5), (10, 5, -5), (10, 0, 5));
    assert!(intersects(Vec3i::new(0, 0, 0), 10, &t));
}

#[test]
fn beyond_face_boundary_triangle_misses() {
    let t = plain_tri((11, -5, -5), (11, 5, -5), (11, 0, 5));
    assert!(!intersects(Vec3i::new(0, 0, 0), 10, &t));
}

#[test]
fn corner_touching_triangle_intersects() {
    // Touches the cube exactly at the corner (10, 10, 10).
    let t = plain_tri((10, 10, 10), (20, 10, 10), (10, 20, 10));
    assert!(intersects(Vec3i::new(0, 0, 0), 10, &t));
}

#[test]
fn verdict_ignores_vertex_order() {
    let pts = [
        ((-5i64, -5i64, 0i64), (5i64, -5i64, 0i64), (0i64, 5i64, 3i64)),
        ((19, 0, 0), (0, 19, 0), (19, 19, 0)),
        ((10, -5, -5), (10, 5, -5), (10, 0, 5)),
        ((7, 7, 7), (40, 0, 0), (0, 40, 0)),
    ];
    for (a, b, c) in pts {
        let center = Vec3i::new(0, 0, 0);
        let base = intersects(center, 10, &plain_tri(a, b, c));
        assert_eq!(base, intersects(center, 10, &plain_tri(b, c, a)));
        assert_eq!(base, intersects(center, 10, &plain_tri(c, a, b)));
        assert_eq!(base, intersects(center, 10, &plain_tri(a, c, b)));
        assert_eq!(base, intersects(center, 10, &plain_tri(b, a, c)));
        assert_eq!(base, intersects(center, 10, &plain_tri(c, b, a)));
    }
}

#[test]
fn off_center_cube_respects_translation() {
    let t = plain_tri((95, 95, 100), (105, 95, 100), (100, 105, 100));
    assert!(intersects(Vec3i::new(100, 100, 100), 10, &t));
    assert!(!intersects(Vec3i::new(0, 0, 0), 10, &t));
}
