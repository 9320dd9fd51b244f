use roadgen::geometry::Vec3;
use roadgen::road::{
    build_section, build_straight, build_turn, generate_road, generate_sections, normal,
    road_within_limits, sections_into_line, trajectory_to_mesh, Pivot, RoadError, Section,
    Trajectory, GUARD_COMP_MAX,
};

fn v(x: i64, y: i64, z: i64) -> Vec3 {
    Vec3 { x, y, z }
}

fn pivot(x: i64, y: i64, z: i64, dx: i64, dy: i64, dz: i64, width: i64) -> Pivot {
    Pivot { position: v(x, y, z), direction: v(dx, dy, dz), width }
}

#[test]
fn straight_single_edge_exact_vertices() {
    let description = vec![(10, v(100, 0, 0))];
    let (p2, t) = build_straight(pivot(0, 0, 0, 1, 0, 0, 10), &description).unwrap();
    // perpendicular of +x is (0, -1, 0); the quad spans (0, -10) / (0, 10)
    // to (100, -10) / (100, 10) in the pinned emission order
    assert_eq!(
        t.positions,
        vec![
            v(0, -10, 0),
            v(100, -10, 0),
            v(0, 10, 0),
            v(100, 10, 0),
            v(0, 10, 0),
            v(100, -10, 0),
        ]
    );
    assert_eq!(p2.position, v(100, 0, 0));
    assert_eq!(p2.direction, v(100, 0, 0));
    assert_eq!(p2.width, 10);
}

#[test]
fn straight_buffers_run_parallel_in_multiples_of_six() {
    let description = vec![(10, v(100, 0, 0)), (10, v(0, 100, 0)), (10, v(-100, 0, 0))];
    let (_, t) = build_straight(pivot(0, 0, 0, 1, 0, 0, 10), &description).unwrap();
    assert_eq!(t.positions.len(), t.normals.len());
    assert_eq!(t.positions.len(), t.uvs.len());
    assert!(t.positions.len() % 6 == 0);
    assert!(t.positions.len() > 0);
    for n in &t.normals {
        assert_eq!(*n, v(1, 1, 1));
    }
    for uv in &t.uvs {
        assert_eq!(*uv, (0, 0));
    }
}

#[test]
fn straight_direction_change_inserts_collar() {
    let description = vec![(10, v(100, 0, 0)), (10, v(0, 100, 0))];
    let (p2, t) = build_straight(pivot(0, 0, 0, 1, 0, 0, 10), &description).unwrap();
    assert_eq!(
        t.positions,
        vec![
            // first edge: quad only, the pivot already travels +x
            v(0, -10, 0),
            v(100, -10, 0),
            v(0, 10, 0),
            v(100, 10, 0),
            v(0, 10, 0),
            v(100, -10, 0),
            // collar at the turn toward +y
            v(90, 0, 0),
            v(110, 0, 0),
            v(100, -10, 0),
            v(90, 0, 0),
            v(110, 0, 0),
            v(100, 10, 0),
            // second edge's quad
            v(110, 0, 0),
            v(110, 100, 0),
            v(90, 0, 0),
            v(90, 100, 0),
            v(90, 0, 0),
            v(110, 100, 0),
        ]
    );
    assert_eq!(p2.position, v(100, 100, 0));
    assert_eq!(p2.direction, v(0, 100, 0));
}

#[test]
fn straight_zero_displacement_is_degenerate() {
    let description = vec![(10, v(0, 0, 0))];
    let r = build_straight(pivot(0, 0, 0, 1, 0, 0, 10), &description);
    assert_eq!(r.err(), Some(RoadError::DegenerateSegment));
}

#[test]
fn straight_vertical_displacement_is_degenerate() {
    // movement along z alone has no planar component either
    let description = vec![(10, v(0, 0, 5))];
    let r = build_straight(pivot(0, 0, 0, 1, 0, 0, 10), &description);
    assert_eq!(r.err(), Some(RoadError::DegenerateSegment));
}

#[test]
fn straight_degenerate_pivot_direction_is_rejected() {
    let description = vec![(10, v(100, 0, 0))];
    let r = build_straight(pivot(0, 0, 0, 0, 0, 0, 10), &description);
    assert_eq!(r.err(), Some(RoadError::DegenerateSegment));
}

#[test]
fn straight_empty_description_is_rejected() {
    let description = vec![];
    let r = build_straight(pivot(0, 0, 0, 1, 0, 0, 10), &description);
    assert_eq!(r.err(), Some(RoadError::EmptySection));
}

#[test]
fn straight_empty_description_outranks_bad_width() {
    let description = vec![];
    let r = build_straight(pivot(0, 0, 0, 1, 0, 0, -5), &description);
    assert_eq!(r.err(), Some(RoadError::EmptySection));
}

#[test]
fn straight_zero_width_is_rejected() {
    let description = vec![(0, v(100, 0, 0))];
    let r = build_straight(pivot(0, 0, 0, 1, 0, 0, 10), &description);
    assert_eq!(r.err(), Some(RoadError::InvalidWidth));
}

#[test]
fn straight_negative_pivot_width_is_rejected() {
    let description = vec![(10, v(100, 0, 0))];
    let r = build_straight(pivot(0, 0, 0, 1, 0, 0, -1), &description);
    assert_eq!(r.err(), Some(RoadError::InvalidWidth));
}

#[test]
fn turn_steps_clamp_to_target_without_overshoot() {
    // target (30, 0, 0) with step (20, 0, 0): samples (20, 0, 0) then the
    // clamp to (30, 0, 0); the target is reached, so no extra point
    let description = vec![((10, v(30, 0, 0)), v(20, 0, 0))];
    let (p2, t) = build_turn(pivot(0, 0, 0, 1, 0, 0, 10), &description).unwrap();
    assert_eq!(
        t.positions,
        vec![
            v(0, -10, 0),
            v(20, -10, 0),
            v(0, 10, 0),
            v(20, 10, 0),
            v(0, 10, 0),
            v(20, -10, 0),
            v(20, -10, 0),
            v(30, -10, 0),
            v(20, 10, 0),
            v(30, 10, 0),
            v(20, 10, 0),
            v(30, -10, 0),
        ]
    );
    assert_eq!(p2.position, v(30, 0, 0));
    assert_eq!(p2.width, 10);
}

#[test]
fn turn_appends_exact_target_when_steps_fall_short() {
    // three steps of 8 reach 24; one corrective point lands on 30
    let description = vec![((10, v(30, 0, 0)), v(8, 0, 0))];
    let (p2, t) = build_turn(pivot(0, 0, 0, 1, 0, 0, 10), &description).unwrap();
    assert_eq!(t.positions.len(), 24);
    assert_eq!(
        &t.positions[18..24],
        &[
            v(24, -10, 0),
            v(30, -10, 0),
            v(24, 10, 0),
            v(30, 10, 0),
            v(24, 10, 0),
            v(30, -10, 0),
        ]
    );
    assert_eq!(p2.position, v(30, 0, 0));
}

#[test]
fn turn_empty_description_is_rejected() {
    let description = vec![];
    let r = build_turn(pivot(0, 0, 0, 1, 0, 0, 10), &description);
    assert_eq!(r.err(), Some(RoadError::EmptySection));
}

#[test]
fn turn_zero_width_is_rejected() {
    let description = vec![((0, v(30, 0, 0)), v(20, 0, 0))];
    let r = build_turn(pivot(0, 0, 0, 1, 0, 0, 10), &description);
    assert_eq!(r.err(), Some(RoadError::InvalidWidth));
}

#[test]
fn build_section_dispatches_both_kinds() {
    let s = Section::Straight(vec![(10, v(100, 0, 0))]);
    let (p2, t) = build_section(pivot(0, 0, 0, 1, 0, 0, 10), &s).unwrap();
    assert_eq!(t.positions.len(), 6);
    assert_eq!(p2.position, v(100, 0, 0));
    let s = Section::Turn(vec![((10, v(30, 0, 0)), v(20, 0, 0))]);
    let (p2, t) = build_section(pivot(0, 0, 0, 1, 0, 0, 10), &s).unwrap();
    assert_eq!(t.positions.len(), 12);
    assert_eq!(p2.position, v(30, 0, 0));
}

#[test]
fn normal_is_exact_on_pythagorean_directions() {
    // |(3, 4)| = 5, so the scaled perpendicular is exact
    assert_eq!(normal(v(3, 4, 0), 10), v(8, -6, 0));
    assert_eq!(normal(v(1, 0, 0), 30), v(0, -30, 0));
    assert_eq!(normal(v(0, 1, 0), 30), v(30, 0, 0));
}

#[test]
fn normal_truncates_on_other_directions() {
    // |(1, 1)| rounds down to 1, pinning the truncated offset
    assert_eq!(normal(v(1, 1, 0), 10), v(10, -10, 0));
}

#[test]
fn empty_mesh_from_empty_input() {
    let m = trajectory_to_mesh(vec![]);
    assert_eq!(m.positions.len(), 0);
    assert_eq!(m.normals.len(), 0);
    assert_eq!(m.uvs.len(), 0);
    assert_eq!(m.indices.len(), 0);
}

#[test]
fn mesh_vertex_count_is_sum_of_inputs() {
    let d1 = vec![(10, v(100, 0, 0))];
    let d2 = vec![(10, v(100, 0, 0)), (10, v(0, 100, 0))];
    let (p1, t1) = build_straight(pivot(0, 0, 0, 1, 0, 0, 10), &d1).unwrap();
    let (_, t2) = build_straight(p1, &d2).unwrap();
    let n1 = t1.positions.len();
    let n2 = t2.positions.len();
    let m = trajectory_to_mesh(vec![t1, t2]);
    assert_eq!(m.positions.len(), n1 + n2);
    assert_eq!(m.normals.len(), n1 + n2);
    assert_eq!(m.uvs.len(), n1 + n2);
}

#[test]
fn mesh_indices_are_sequential() {
    let sections = generate_sections();
    let m = generate_road(&sections).unwrap();
    assert_eq!(m.indices.len(), m.positions.len());
    for (i, idx) in m.indices.iter().enumerate() {
        assert_eq!(*idx as usize, i);
    }
}

#[test]
fn generated_road_is_deterministic() {
    let sections = generate_sections();
    let m1 = generate_road(&sections).unwrap();
    let m2 = generate_road(&sections).unwrap();
    assert_eq!(m1.positions, m2.positions);
    assert_eq!(m1.normals, m2.normals);
    assert_eq!(m1.uvs, m2.uvs);
    assert_eq!(m1.indices, m2.indices);
}

#[test]
fn generated_road_concatenates_all_sections() {
    let sections = generate_sections();
    let m = generate_road(&sections).unwrap();
    let mut pivot = Pivot { position: v(0, 0, 0), direction: v(1, 0, 0), width: 30 };
    let mut expected = Vec::new();
    for section in &sections {
        let (p2, t) = build_section(pivot, section).unwrap();
        expected.extend(t.positions);
        pivot = p2;
    }
    assert_eq!(m.positions, expected);
}

#[test]
fn centerline_has_one_point_per_shift_plus_origin() {
    let sections = generate_sections();
    // 1 + 1 + 5 + 29 shifts in the built-in catalog
    let line = sections_into_line(&sections);
    assert_eq!(line.len(), 37);
    assert_eq!(line[0], v(0, 0, 0));
    assert_eq!(line[1], v(50, 0, 0));
    assert_eq!(line[2], v(100, 0, 0));
    assert_eq!(line[3], v(150, 50, 0));
    assert_eq!(line[4], v(200, 50, 0));
    assert_eq!(line[5], v(250, 0, 0));
    assert_eq!(line[6], v(250, -50, 0));
    assert_eq!(line[7], v(250, -100, 0));
}

#[test]
fn centerline_counts_turn_shifts_once() {
    let sections = vec![
        Section::Straight(vec![(10, v(100, 0, 0))]),
        Section::Turn(vec![((10, v(30, 0, 0)), v(20, 0, 0)), ((10, v(0, 40, 0)), v(0, 15, 0))]),
    ];
    let line = sections_into_line(&sections);
    assert_eq!(line.len(), 4);
    assert_eq!(line[1], v(100, 0, 0));
    assert_eq!(line[2], v(130, 0, 0));
    assert_eq!(line[3], v(130, 40, 0));
}

#[test]
fn generate_sections_matches_the_fixed_table() {
    let sections = generate_sections();
    assert_eq!(sections.len(), 4);
    match &sections[0] {
        Section::Straight(d) => assert_eq!(d, &vec![(30, v(50, 0, 0))]),
        Section::Turn(_) => panic!("first section should be straight"),
    }
    match &sections[2] {
        Section::Straight(d) => {
            assert_eq!(d.len(), 5);
            assert_eq!(d[0], (30, v(50, 50, 0)));
            assert_eq!(d[4], (30, v(0, -50, 0)));
        },
        Section::Turn(_) => panic!("third section should be straight"),
    }
    match &sections[3] {
        Section::Straight(d) => assert_eq!(d.len(), 29),
        Section::Turn(_) => panic!("fourth section should be straight"),
    }
}

#[test]
fn failing_section_aborts_the_whole_build() {
    let sections = vec![
        Section::Straight(vec![(10, v(100, 0, 0))]),
        Section::Straight(vec![(10, v(0, 0, 0))]),
    ];
    let r = generate_road(&sections);
    assert_eq!(r.err(), Some(RoadError::DegenerateSegment));
}

#[test]
fn road_with_mixed_section_kinds_threads_the_pivot() {
    let sections = vec![
        Section::Straight(vec![(10, v(100, 0, 0))]),
        Section::Turn(vec![((10, v(30, 0, 0)), v(20, 0, 0))]),
    ];
    let m = generate_road(&sections).unwrap();
    // 6 vertices for the straight edge, 12 for the turn's two samples
    assert_eq!(m.positions.len(), 18);
    // the turn starts where the straight section ended
    assert_eq!(m.positions[6], v(100, -10, 0));
    assert_eq!(m.positions[7], v(120, -10, 0));
    assert_eq!(m.positions.last(), Some(&v(130, -10, 0)));
}

#[test]
fn ribbon_midline_follows_centerline() {
    // on a collar-free catalog, the midpoint of each quad's left and
    // right border lies on the debug centerline
    let sections = vec![Section::Straight(vec![(10, v(100, 0, 0)), (10, v(100, 0, 0))])];
    let line = sections_into_line(&sections);
    let m = generate_road(&sections).unwrap();
    assert_eq!(m.positions.len(), 12);
    for k in 0..2 {
        let left = m.positions[6 * k];
        let right = m.positions[6 * k + 2];
        let mid = v(
            (left.x + right.x) / 2,
            (left.y + right.y) / 2,
            (left.z + right.z) / 2,
        );
        assert_eq!(mid, line[k]);
        let left_next = m.positions[6 * k + 1];
        let right_next = m.positions[6 * k + 3];
        let mid_next = v(
            (left_next.x + right_next.x) / 2,
            (left_next.y + right_next.y) / 2,
            (left_next.z + right_next.z) / 2,
        );
        assert_eq!(mid_next, line[k + 1]);
    }
}

#[test]
fn guard_accepts_the_built_in_catalog() {
    let sections = generate_sections();
    assert!(road_within_limits(&sections));
}

#[test]
fn guard_rejects_an_oversized_displacement() {
    let sections = vec![Section::Straight(vec![(10, v(GUARD_COMP_MAX + 1, 0, 0))])];
    assert!(!road_within_limits(&sections));
    let sections = vec![Section::Turn(vec![(
        (10, v(30, 0, 0)),
        v(0, GUARD_COMP_MAX + 1, 0),
    )])];
    assert!(!road_within_limits(&sections));
}

#[test]
fn trajectory_buffers_can_be_assembled_by_hand() {
    let t = Trajectory {
        positions: vec![v(1, 2, 3), v(4, 5, 6)],
        normals: vec![v(1, 1, 1), v(1, 1, 1)],
        uvs: vec![(0, 0), (0, 0)],
    };
    let m = trajectory_to_mesh(vec![t]);
    assert_eq!(m.positions, vec![v(1, 2, 3), v(4, 5, 6)]);
    assert_eq!(m.indices, vec![0, 1]);
}
