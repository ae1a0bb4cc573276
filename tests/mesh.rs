use mesh_analysis::geometry::{Point, Triangle};
use mesh_analysis::mesh::{count_bodies_if_ready, is_degenerate, tolerance_of, TriangleMesh};
use mesh_analysis::weld::{merge_vertices, Cell, Tolerance};

fn p(x: i32, y: i32, z: i32) -> Point {
    Point::new(x, y, z)
}

fn cube(side: i32, o: Point) -> Vec<Triangle> {
    let v = |x: i32, y: i32, z: i32| p(o.x + x * side, o.y + y * side, o.z + z * side);
    vec![
        [v(0, 0, 0), v(0, 1, 0), v(1, 1, 0)],
        [v(0, 0, 0), v(1, 1, 0), v(1, 0, 0)],
        [v(0, 0, 1), v(1, 0, 1), v(1, 1, 1)],
        [v(0, 0, 1), v(1, 1, 1), v(0, 1, 1)],
        [v(0, 0, 0), v(1, 0, 0), v(1, 0, 1)],
        [v(0, 0, 0), v(1, 0, 1), v(0, 0, 1)],
        [v(0, 1, 0), v(0, 1, 1), v(1, 1, 1)],
        [v(0, 1, 0), v(1, 1, 1), v(1, 1, 0)],
        [v(0, 0, 0), v(0, 0, 1), v(0, 1, 1)],
        [v(0, 0, 0), v(0, 1, 1), v(0, 1, 0)],
        [v(1, 0, 0), v(1, 1, 0), v(1, 1, 1)],
        [v(1, 0, 0), v(1, 1, 1), v(1, 0, 1)],
    ]
}

fn check_indexes(mesh: &TriangleMesh) {
    let n = mesh.vertices().len();
    for f in mesh.faces() {
        for &i in f {
            assert!(i < n);
        }
    }
    assert_eq!(mesh.face_map().len(), n);
    for (v, faces) in mesh.face_map().iter().enumerate() {
        for &f in faces {
            assert!(mesh.faces()[f].contains(&v));
        }
    }
}

#[test]
fn cube_welds_to_eight_vertices() {
    let ts = cube(1, p(0, 0, 0));
    let mesh = TriangleMesh::new(&ts);
    assert_eq!(mesh.vertices().len(), 8);
    assert_eq!(mesh.faces().len(), 12);
    assert!(mesh.vertices().len() <= 3 * ts.len());
    check_indexes(&mesh);
    for (face, t) in mesh.faces().iter().zip(ts.iter()) {
        for k in 0..3 {
            assert_eq!(mesh.vertices()[face[k]], t[k]);
        }
    }
}

#[test]
fn separate_triangles_keep_all_vertices() {
    let ts = vec![[p(0, 0, 0), p(100, 0, 0), p(0, 100, 0)], [p(500, 500, 500), p(600, 500, 500), p(500, 600, 500)]];
    let mesh = TriangleMesh::new(&ts);
    assert_eq!(mesh.vertices().len(), 6);
    assert!(mesh.vertices().len() <= 3 * ts.len());
    check_indexes(&mesh);
}

#[test]
fn empty_input_gives_empty_mesh() {
    let mesh = TriangleMesh::new(&[]);
    assert_eq!(mesh.vertices().len(), 0);
    assert_eq!(mesh.faces().len(), 0);
    assert_eq!(mesh.face_map().len(), 0);
    assert_eq!(mesh.bounds(), None);
    assert_eq!(mesh.count_bodies(), 0);
}

#[test]
fn tolerance_is_largest_extent() {
    let ts = vec![[p(0, 0, 0), p(10, 0, 0), p(0, 300, 0)], [p(0, 0, -5), p(1, 1, 1), p(2, 2, 2)]];
    assert_eq!(tolerance_of(&ts), Tolerance { extent: 300 });
    assert_eq!(tolerance_of(&[]), Tolerance { extent: 0 });
}

#[test]
fn coincident_vertices_make_a_triangle_degenerate() {
    let tol = Tolerance { extent: 65536 * 4 };
    assert!(is_degenerate(&[p(0, 0, 0), p(3, 3, -3), p(100, 0, 0)], &tol));
    assert!(!is_degenerate(&[p(0, 0, 0), p(4, 0, 0), p(0, 4, 0)], &tol));
    // collinear but distinct vertices are kept
    assert!(!is_degenerate(&[p(0, 0, 0), p(10, 0, 0), p(20, 0, 0)], &tol));
}

#[test]
fn degenerate_triangle_gets_no_face() {
    let mut ts = cube(1 << 16, p(0, 0, 0));
    ts.push([p(5, 5, 5), p(5, 5, 5), p(9000, 9000, 9000)]);
    let mesh = TriangleMesh::new(&ts);
    assert_eq!(mesh.faces().len(), 12);
    assert_eq!(mesh.vertices().len(), 8);
    check_indexes(&mesh);
}

#[test]
fn close_vertices_weld_together() {
    // extent 2^18, so the tolerance is 4 grid units
    let ts = vec![
        [p(0, 0, 0), p(1 << 18, 0, 0), p(0, 1 << 18, 0)],
        [p(1, 1, 0), p(1 << 18, 1 << 18, 0), p(0, 1 << 18, 2)],
    ];
    let mesh = TriangleMesh::new(&ts);
    assert_eq!(mesh.vertices().len(), 4);
    assert_eq!(mesh.count_bodies(), 1);
    check_indexes(&mesh);
}

#[test]
fn two_disjoint_cubes_are_two_bodies() {
    let mut ts = cube(10, p(0, 0, 0));
    ts.extend(cube(10, p(100, 100, 100)));
    let mesh = TriangleMesh::new(&ts);
    assert_eq!(mesh.vertices().len(), 16);
    assert_eq!(mesh.count_bodies(), 2);
}

#[test]
fn triangle_fan_is_one_body() {
    let c = p(0, 0, 0);
    let rim = [p(100, 0, 0), p(70, 70, 0), p(0, 100, 0), p(-70, 70, 0), p(-100, 0, 0), p(-70, -70, 0)];
    let ts: Vec<Triangle> = rim.windows(2).map(|w| [c, w[0], w[1]]).collect();
    let mesh = TriangleMesh::new(&ts);
    assert_eq!(mesh.vertices().len(), 7);
    assert_eq!(mesh.count_bodies(), 1);
}

#[test]
fn empty_triangle_list_has_no_bodies() {
    assert_eq!(TriangleMesh::new(&[]).count_bodies(), 0);
}

#[test]
fn bodies_touching_at_one_vertex_count_once() {
    let ts = vec![[p(0, 0, 0), p(10, 0, 0), p(0, 10, 0)], [p(0, 0, 0), p(-10, 0, 0), p(0, -10, 5)]];
    assert_eq!(TriangleMesh::new(&ts).count_bodies(), 1);
}

#[test]
fn mesh_bounds_cover_vertices() {
    let mesh = TriangleMesh::new(&cube(3, p(-1, 2, 5)));
    assert_eq!(mesh.bounds(), Some((p(-1, 2, 5), p(2, 5, 8))));
}

#[test]
fn body_count_before_the_mesh_is_ready_is_zero() {
    assert_eq!(count_bodies_if_ready(None), 0);
    let mut ts = cube(10, p(0, 0, 0));
    ts.extend(cube(10, p(50, 0, 0)));
    let mesh = TriangleMesh::new(&ts);
    assert_eq!(count_bodies_if_ready(Some(&mesh)), 2);
}

#[test]
fn welding_twice_keeps_the_vertex_count() {
    let tol = Tolerance { extent: 65536 * 8 };
    let vs = vec![p(0, 0, 0), p(3, 3, 3), p(7, 0, 0), p(20, 20, 20), p(14, 14, 14), p(-5, 0, 2), p(100, 0, 0)];
    let once = merge_vertices(&vs, &tol);
    let reps: Vec<Point> = once.iter().map(|g| g.position).collect();
    let twice = merge_vertices(&reps, &tol);
    assert_eq!(twice.len(), once.len());
    assert!(once.len() < vs.len());
    let mut all: Vec<usize> = once.iter().flat_map(|g| g.indexes.clone()).collect();
    all.sort();
    assert_eq!(all, (0..vs.len()).collect::<Vec<_>>());
}

#[test]
fn welding_probes_only_lower_neighbour_cells() {
    // tolerance 8: points 2 apart on either side of a cell boundary at 8
    let tol = Tolerance { extent: 65536 * 8 };
    let below_then_above = merge_vertices(&vec![p(7, 0, 0), p(9, 0, 0)], &tol);
    assert_eq!(below_then_above.len(), 1);
    let above_then_below = merge_vertices(&vec![p(9, 0, 0), p(7, 0, 0)], &tol);
    assert_eq!(above_then_below.len(), 2);
}

#[test]
fn cells_floor_towards_negative_infinity() {
    let tol = Tolerance { extent: 65536 * 8 };
    assert_eq!(tol.cell_of(&p(-1, 0, 7)), Cell { x: -1, y: 0, z: 0 });
    assert_eq!(tol.cell_of(&p(-8, 8, 15)), Cell { x: -1, y: 1, z: 1 });
    assert_eq!(tol.cell_of(&p(-9, 16, -16)), Cell { x: -2, y: 2, z: -2 });
    assert_eq!(Tolerance { extent: 0 }.cell_of(&p(5, -5, 9)), Cell { x: 0, y: 0, z: 0 });
    assert_eq!(Tolerance { extent: 3 }.cell_of(&p(1, -1, 0)), Cell { x: 21845, y: -21846, z: 0 });
}

#[test]
fn within_compares_against_the_tolerance() {
    let tol = Tolerance { extent: 65536 * 8 };
    assert!(tol.within(&p(0, 0, 0), &p(7, -7, 7)));
    assert!(!tol.within(&p(0, 0, 0), &p(8, 0, 0)));
    assert!(!Tolerance { extent: 0 }.within(&p(1, 1, 1), &p(1, 1, 1)));
}

#[test]
fn welding_across_a_negative_cell_boundary() {
    let tol = Tolerance { extent: 65536 * 8 };
    assert_eq!(merge_vertices(&vec![p(-9, 0, 0), p(-7, 0, 0)], &tol).len(), 1);
    assert_eq!(merge_vertices(&vec![p(-7, 0, 0), p(-9, 0, 0)], &tol).len(), 2);
}

#[test]
fn merged_groups_record_cells_and_members() {
    let tol = Tolerance { extent: 65536 * 4 };
    let groups = merge_vertices(&vec![p(0, 0, 0), p(100, 0, 0), p(1, 1, 1), p(101, 0, 0)], &tol);
    assert_eq!(groups.len(), 2);
    assert_eq!(groups[0].position, p(0, 0, 0));
    assert_eq!(groups[0].indexes, vec![0, 2]);
    assert_eq!(groups[1].position, p(100, 0, 0));
    assert_eq!(groups[1].indexes, vec![1, 3]);
    assert_eq!(groups[1].cell, tol.cell_of(&p(100, 0, 0)));
}
