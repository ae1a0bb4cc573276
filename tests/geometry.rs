use mesh_analysis::geometry::{bounding_box, chebyshev_distance, edge_cross, six_volume, Point, Triangle};

fn p(x: i32, y: i32, z: i32) -> Point {
    Point::new(x, y, z)
}

fn cube(side: i32, origin: Point) -> Vec<Triangle> {
    let v = |x: i32, y: i32, z: i32| p(origin.x + x * side, origin.y + y * side, origin.z + z * side);
    vec![
        [v(0, 0, 0), v(0, 1, 0), v(1, 1, 0)],
        [v(0, 0, 0), v(1, 1, 0), v(1, 0, 0)],
        [v(0, 0, 1), v(1, 0, 1), v(1, 1, 1)],
        [v(0, 0, 1), v(1, 1, 1), v(0, 1, 1)],
        [v(0, 0, 0), v(1, 0, 0), v(1, 0, 1)],
        [v(0, 0, 0), v(1, 0, 1), v(0, 0, 1)],
        [v(0, 1, 0), v(0, 1, 1), v(1, 1, 1)],
        [v(0, 1, 0), v(1, 1, 1), v(1, 1, 0)],
        [v(0, 0, 0), v(0, 0, 1), v(0, 1, 1)],
        [v(0, 0, 0), v(0, 1, 1), v(0, 1, 0)],
        [v(1, 0, 0), v(1, 1, 0), v(1, 1, 1)],
        [v(1, 0, 0), v(1, 1, 1), v(1, 0, 1)],
    ]
}

fn surface_area(triangles: &[Triangle]) -> f64 {
    triangles
        .iter()
        .map(|t| {
            let c = edge_cross(t);
            ((c.x * c.x + c.y * c.y + c.z * c.z) as f64).sqrt() * 0.5
        })
        .sum()
}

#[test]
fn bounding_box_of_nothing_is_none() {
    assert_eq!(bounding_box(&[]), None);
}

#[test]
fn bounding_box_spans_all_vertices() {
    let ts = vec![[p(1, 5, -2), p(3, -4, 0), p(0, 0, 7)], [p(-9, 2, 2), p(2, 2, 2), p(2, 2, 3)]];
    assert_eq!(bounding_box(&ts), Some((p(-9, -4, -2), p(3, 5, 7))));
}

#[test]
fn chebyshev_distance_takes_largest_axis() {
    assert_eq!(chebyshev_distance(&p(0, 0, 0), &p(3, -7, 2)), 7);
    assert_eq!(chebyshev_distance(&p(i32::MIN, 0, 0), &p(i32::MAX, 0, 0)), u32::MAX as u64);
}

#[test]
fn edge_cross_of_right_triangle() {
    let c = edge_cross(&[p(0, 0, 0), p(2, 0, 0), p(0, 3, 0)]);
    assert_eq!((c.x, c.y, c.z), (0, 0, 6));
}

#[test]
fn unit_cube_area_and_volume() {
    let ts = cube(1, p(0, 0, 0));
    assert_eq!(six_volume(&ts), 6);
    assert!((six_volume(&ts) as f64 / 6.0 - 1.0).abs() < 1e-9);
    assert!((surface_area(&ts) - 6.0).abs() < 1e-9);
}

#[test]
fn scaled_and_shifted_cube_volume() {
    let ts = cube(10, p(-3, 4, 100));
    assert_eq!(six_volume(&ts), 6000);
    assert!((surface_area(&ts) - 600.0).abs() < 1e-9);
}

#[test]
fn inverted_cube_has_negative_volume() {
    let ts: Vec<Triangle> = cube(2, p(0, 0, 0)).into_iter().map(|t| [t[0], t[2], t[1]]).collect();
    assert_eq!(six_volume(&ts), -48);
}

#[test]
fn empty_volume_is_zero() {
    assert_eq!(six_volume(&[]), 0);
}
