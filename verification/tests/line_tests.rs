use roadgen::geometry::Vec3;
use roadgen::line::{
    create_line, line_to_normals, line_to_points, mesh_edges, place_line, place_point, Point,
};
use roadgen::road::{generate_road, generate_sections, RoadError};

fn v(x: i64, y: i64, z: i64) -> Vec3 {
    Vec3 { x, y, z }
}

#[test]
fn polyline_pairs_each_point_with_its_predecessor() {
    let line = vec![v(0, 0, 0), v(10, 0, 0), v(10, 10, 0)];
    let points = line_to_points(&line);
    assert_eq!(
        points,
        vec![
            Point(v(0, 0, 0), v(0, 0, 0)),
            Point(v(0, 0, 0), v(10, 0, 0)),
            Point(v(10, 0, 0), v(10, 10, 0)),
        ]
    );
}

#[test]
fn normals_ray_out_from_both_segment_ends() {
    let segments = vec![Point(v(0, 0, 0), v(100, 0, 0))];
    let rays = line_to_normals(&segments).unwrap();
    assert_eq!(
        rays,
        vec![
            Point(v(100, 0, 0), v(100, -40, 0)),
            Point(v(0, 0, 0), v(0, -40, 0)),
        ]
    );
}

#[test]
fn normals_reject_a_degenerate_segment() {
    let segments = vec![Point(v(5, 5, 0), v(5, 5, 0))];
    let r = line_to_normals(&segments);
    assert_eq!(r.err(), Some(RoadError::DegenerateSegment));
}

#[test]
fn mesh_edges_walk_each_triangle() {
    let sections = generate_sections();
    let m = generate_road(&sections).unwrap();
    let edges = mesh_edges(&m);
    assert_eq!(edges.len(), m.indices.len());
    // the first triangle's boundary, in order
    let a = m.positions[0];
    let b = m.positions[1];
    let c = m.positions[2];
    assert_eq!(edges[0], Point(a, b));
    assert_eq!(edges[1], Point(b, c));
    assert_eq!(edges[2], Point(c, a));
}

#[test]
fn line_mesh_zeroes_z_and_indexes_sequentially() {
    let parts = vec![Point(v(1, 2, 3), v(4, 5, 6))];
    let m = create_line(&parts);
    assert_eq!(m.positions, vec![v(1, 2, 0), v(4, 5, 0)]);
    assert_eq!(m.indices, vec![0, 1]);
    assert_eq!(m.normals.len(), 2);
    assert_eq!(m.uvs.len(), 2);
}

#[test]
fn placing_a_point_overwrites_or_appends() {
    let mut buffer = vec![v(1, 0, 0), v(2, 0, 0)];
    place_point(&mut buffer, v(9, 9, 9), 1);
    assert_eq!(buffer, vec![v(1, 0, 0), v(9, 9, 9)]);
    place_point(&mut buffer, v(7, 7, 7), 5);
    assert_eq!(buffer, vec![v(1, 0, 0), v(9, 9, 9), v(7, 7, 7)]);
}

#[test]
fn placing_a_line_scatters_segment_endpoints() {
    let mut buffer = vec![v(0, 0, 0), v(0, 0, 0), v(0, 0, 0)];
    let line = vec![Point(v(1, 1, 0), v(2, 2, 0)), Point(v(3, 3, 0), v(4, 4, 0))];
    place_line(&mut buffer, &line, 1);
    assert_eq!(
        buffer,
        vec![v(0, 0, 0), v(1, 1, 0), v(2, 2, 0), v(3, 3, 0), v(4, 4, 0)]
    );
}
