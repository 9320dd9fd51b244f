//! The road generator: section catalog, trajectory builder, mesh
//! assembler and centerline extractor.
//!
//! A `Pivot` (position, travel direction, lateral width) is threaded
//! through the catalog; every section consumes the incoming pivot and
//! produces the pivot the next section starts from, together with the
//! ribbon geometry of its own stretch of road.

use vstd::prelude::*;

use crate::geometry::{
    dir_in_bounds, in_bounds, perp_matches, perp_offset, perp_scaled, planar_zero, Vec3, COORD_MAX,
};
use crate::model::{
    degenerate_sweep, edge_dir, end_point, has_degenerate_edge, lemma_ribbon_len_six,
    lemma_straight_samples_len, lemma_straight_samples_prefix, lemma_straight_samples_widths,
    lemma_turn_samples_prefix, lemma_turn_samples_width_bounds, lemma_turn_steps_last,
    positions_model, prev_dir, prev_width, ribbon_vertices, samples_in_bounds, straight_input_ok,
    straight_samples, shift_widths, turn_input_ok, turn_samples, turn_steps, turn_widths,
    sweep_after, sweep_error, sweep_points, sweep_ribbon, sweep_widths, trajectory_wf,
    widths_model, widths_positive, concat_normals, concat_positions, concat_uvs,
    lemma_concat_len, pivot_after, section_error, section_input_ok, section_ribbon,
    total_vertices, descriptions_model, flatten_chunks, initial_pivot_model, lemma_concat_flatten,
    lemma_concat_wf, mesh_wf, road_error, road_input_ok, road_trajectories, road_vertex_total,
    catalog_disps, centerline, lemma_polyline_len, lemma_polyline_prefix, polyline_from,
    section_disps, shift_pairs, lemma_road_within_limits, lemma_total_shifts_nonneg,
    section_modest, section_widths, total_shifts, within, widths_bounded,
};
use crate::geometry::{vadd, vmin};

verus! {

/// One step of a road section: the lateral width the road has at the
/// step's destination, and the displacement that reaches it.
pub type Shift = (i64, Vec3);

/// An ordered run of shifts forming one straight section.
pub type SectionDescription = Vec<Shift>;

/// One step of a turn: a shift toward a target displacement, and the
/// per-iteration step vector used to approximate the curve.
pub type TurnShift = (Shift, Vec3);

/// An ordered run of turn shifts forming one turn section.
pub type TurnDescription = Vec<TurnShift>;

/// One stretch of road. The type is exhaustive by construction: every
/// variant has a builder, so no section kind can be left unimplemented.
pub enum Section {
    Straight(SectionDescription),
    Turn(TurnDescription),
}

/// The running state of the sweep: where the road currently ends, the
/// direction of the last travelled edge, and the current lateral width.
/// Each section consumes one pivot and produces the next; no pivot is
/// shared between steps.
#[derive(Clone, Copy, Debug)]
pub struct Pivot {
    pub position: Vec3,
    pub direction: Vec3,
    pub width: i64,
}

impl View for Pivot {
    type V = ((int, int, int), (int, int, int), int);

    open spec fn view(&self) -> ((int, int, int), (int, int, int), int) {
        (self.position@, self.direction@, self.width as int)
    }
}

/// Per-section geometry: parallel vertex buffers of equal length. The
/// normals are a constant placeholder, not true geometric normals, and
/// the uvs are a constant placeholder as well.
#[derive(Debug)]
pub struct Trajectory {
    pub positions: Vec<Vec3>,
    pub normals: Vec<Vec3>,
    pub uvs: Vec<(i64, i64)>,
}

/// The assembled road: all per-section buffers concatenated in catalog
/// order, with a sequential index buffer (no vertex sharing).
#[derive(Debug)]
pub struct Mesh {
    pub positions: Vec<Vec3>,
    pub normals: Vec<Vec3>,
    pub uvs: Vec<(i64, i64)>,
    pub indices: Vec<u32>,
}

/// Everything that can go wrong while building a road. `Section` is an
/// exhaustive enum, so there is no variant for an unimplemented section
/// kind: every kind has a builder.
#[derive(Clone, Copy, Debug, PartialEq, Eq, Structural)]
pub enum RoadError {
    /// A travelled edge has no planar component, so its perpendicular
    /// (and hence the road's left and right border) is undefined.
    DegenerateSegment,
    /// A section description carries no shifts at all.
    EmptySection,
    /// A lateral width is zero or negative.
    InvalidWidth,
}

/// How many sampling steps approximate each turn shift before the sweep
/// jumps to the exact target.
pub const TURN_STEPS: usize = 3;

/// The lateral half-width the road starts with.
pub const INITIAL_ROAD_WIDTH: i64 = 30;

/// The width/displacement pairs of the built-in demo track, section by
/// section: two straight runs, a zig-zag descent, and a long winding
/// loop back.
pub open spec fn default_catalog() -> Seq<Seq<(int, (int, int, int))>> {
    seq![
        seq![(30int, (50int, 0int, 0int))],
        seq![(30int, (50int, 0int, 0int))],
        seq![
            (30int, (50int, 50int, 0int)),
            (30int, (50int, 0int, 0int)),
            (30int, (50int, -50int, 0int)),
            (30int, (0int, -50int, 0int)),
            (30int, (0int, -50int, 0int)),
        ],
        seq![
            (30int, (-50int, -50int, 0int)),
            (30int, (-50int, -50int, 0int)),
            (30int, (-50int, -50int, 0int)),
            (30int, (0int, -50int, 0int)),
            (30int, (50int, 0int, 0int)),
            (30int, (50int, 0int, 0int)),
            (30int, (50int, 50int, 0int)),
            (30int, (50int, 50int, 0int)),
            (30int, (50int, 50int, 0int)),
            (30int, (50int, 50int, 0int)),
            (30int, (0int, 50int, 0int)),
            (30int, (0int, 50int, 0int)),
            (30int, (0int, 50int, 0int)),
            (30int, (0int, 50int, 0int)),
            (30int, (0int, 50int, 0int)),
            (30int, (-50int, 0int, 0int)),
            (30int, (-50int, 0int, 0int)),
            (30int, (-50int, 50int, 0int)),
            (30int, (-50int, 0int, 0int)),
            (30int, (-50int, 0int, 0int)),
            (30int, (-50int, 0int, 0int)),
            (30int, (-50int, 0int, 0int)),
            (30int, (-50int, 0int, 0int)),
            (30int, (-50int, 0int, 0int)),
            (30int, (-50int, -50int, 0int)),
            (30int, (0int, -50int, 0int)),
            (30int, (0int, -50int, 0int)),
            (30int, (50int, -50int, 0int)),
            (30int, (50int, 0int, 0int)),
        ],
    ]
}

/// The built-in section catalog: a fixed table of straight sections.
/// Pure and deterministic; its contents are pinned, shift by shift, to
/// `default_catalog`.
pub fn generate_sections() -> (r: Vec<Section>)
    ensures
        r@.len() == default_catalog().len(),
        forall|i: int| 0 <= i < r@.len() ==> (#[trigger] r@[i]) is Straight,
        forall|i: int|
            0 <= i < r@.len() ==> shift_pairs((#[trigger] r@[i])->Straight_0@)
                == default_catalog()[i],
{
    let x: i64 = 50;
    let y: i64 = 50;
    let nx: i64 = -50;
    let ny: i64 = -50;
    let width: i64 = 30;
    let s0: SectionDescription = vec![(width, Vec3 { x, y: 0, z: 0 })];
    let s1: SectionDescription = vec![(width, Vec3 { x, y: 0, z: 0 })];
    let s2: SectionDescription = vec![
        (width, Vec3 { x, y, z: 0 }),
        (width, Vec3 { x, y: 0, z: 0 }),
        (width, Vec3 { x, y: ny, z: 0 }),
        (width, Vec3 { x: 0, y: ny, z: 0 }),
        (width, Vec3 { x: 0, y: ny, z: 0 }),
    ];
    let s3: SectionDescription = vec![
        (width, Vec3 { x: nx, y: ny, z: 0 }),
        (width, Vec3 { x: nx, y: ny, z: 0 }),
        (width, Vec3 { x: nx, y: ny, z: 0 }),
        (width, Vec3 { x: 0, y: ny, z: 0 }),
        (width, Vec3 { x, y: 0, z: 0 }),
        (width, Vec3 { x, y: 0, z: 0 }),
        (width, Vec3 { x, y, z: 0 }),
        (width, Vec3 { x, y, z: 0 }),
        (width, Vec3 { x, y, z: 0 }),
        (width, Vec3 { x, y, z: 0 }),
        (width, Vec3 { x: 0, y, z: 0 }),
        (width, Vec3 { x: 0, y, z: 0 }),
        (width, Vec3 { x: 0, y, z: 0 }),
        (width, Vec3 { x: 0, y, z: 0 }),
        (width, Vec3 { x: 0, y, z: 0 }),
        (width, Vec3 { x: nx, y: 0, z: 0 }),
        (width, Vec3 { x: nx, y: 0, z: 0 }),
        (width, Vec3 { x: nx, y, z: 0 }),
        (width, Vec3 { x: nx, y: 0, z: 0 }),
        (width, Vec3 { x: nx, y: 0, z: 0 }),
        (width, Vec3 { x: nx, y: 0, z: 0 }),
        (width, Vec3 { x: nx, y: 0, z: 0 }),
        (width, Vec3 { x: nx, y: 0, z: 0 }),
        (width, Vec3 { x: nx, y: 0, z: 0 }),
        (width, Vec3 { x: nx, y: ny, z: 0 }),
        (width, Vec3 { x: 0, y: ny, z: 0 }),
        (width, Vec3 { x: 0, y: ny, z: 0 }),
        (width, Vec3 { x, y: ny, z: 0 }),
        (width, Vec3 { x, y: 0, z: 0 }),
    ];
    proof {
        assert(shift_pairs(s0@) =~= default_catalog()[0]);
        assert(shift_pairs(s1@) =~= default_catalog()[1]);
        assert(shift_pairs(s2@) =~= default_catalog()[2]);
        assert(shift_pairs(s3@) =~= default_catalog()[3]);
    }
    vec![
        Section::Straight(s0),
        Section::Straight(s1),
        Section::Straight(s2),
        Section::Straight(s3),
    ]
}

/// Walks a polyline edge by edge and emits the ribbon's vertex stream:
/// six vertices per edge tiling the quad between the left and right road
/// border, preceded by a six-vertex collar wherever the perpendicular
/// changes from the one carried in. `widths[i]` is the lateral width at
/// point `i`; an edge is offset by the width at its first point. Fails
/// exactly when a perpendicular is undefined: an edge without planar
/// movement, or a planar-zero incoming direction ahead of at least one
/// edge.
fn emit_ribbon(points: &Vec<Vec3>, widths: &Vec<i64>, dir0: Vec3) -> (r: Result<
    Vec<Vec3>,
    RoadError,
>)
    requires
        points@.len() == widths@.len(),
        1 <= points@.len(),
        forall|i: int| 0 <= i < points@.len() ==> in_bounds(#[trigger] points@[i]@),
        forall|i: int| 0 <= i < widths@.len() ==> 0 < #[trigger] widths@[i] <= COORD_MAX,
        dir_in_bounds(dir0@),
    ensures
        match r {
            Ok(v) => {
                &&& !degenerate_sweep(positions_model(points@), dir0@)
                &&& positions_model(v@) == ribbon_vertices(
                    positions_model(points@),
                    widths_model(widths@),
                    dir0@,
                    points@.len() - 1,
                )
            },
            Err(e) => {
                &&& e == RoadError::DegenerateSegment
                &&& degenerate_sweep(positions_model(points@), dir0@)
            },
        },
{
    let ghost pts = positions_model(points@);
    let ghost ws = widths_model(widths@);
    let n: usize = points.len();
    if n == 1 {
        return Ok(Vec::new());
    }
    if dir0.is_planar_zero() {
        return Err(RoadError::DegenerateSegment);
    }
    let mut out: Vec<Vec3> = Vec::new();
    let mut cur_dir: Vec3 = dir0;
    let mut cur_w: i64 = widths[0];
    let mut i: usize = 0;
    while i < n - 1
        invariant
            n == points@.len(),
            n == widths@.len(),
            2 <= n,
            0 <= i <= n - 1,
            pts == positions_model(points@),
            ws == widths_model(widths@),
            forall|k: int| 0 <= k < points@.len() ==> in_bounds(#[trigger] points@[k]@),
            forall|k: int| 0 <= k < widths@.len() ==> 0 < #[trigger] widths@[k] <= COORD_MAX,
            dir_in_bounds(dir0@),
            !planar_zero(dir0@),
            cur_dir@ == prev_dir(pts, dir0@, i as int),
            cur_w == prev_width(ws, i as int),
            dir_in_bounds(cur_dir@),
            !planar_zero(cur_dir@),
            0 < cur_w <= COORD_MAX,
            !has_degenerate_edge(pts, i as int),
            positions_model(out@) == ribbon_vertices(pts, ws, dir0@, i as int),
        decreases n - 1 - i,
    {
        let first = points[i];
        let next = points[i + 1];
        let d = next.minus(first);
        proof {
            assert(d@ == edge_dir(pts, i as int));
        }
        if d.is_planar_zero() {
            proof {
                assert(planar_zero(edge_dir(pts, i as int)));
                assert(has_degenerate_edge(pts, n - 1));
            }
            return Err(RoadError::DegenerateSegment);
        }
        let w = widths[i];
        let off = perp_offset(d, w);
        if !perp_matches(cur_dir, d) {
            let off_old = perp_offset(cur_dir, cur_w);
            out.push(first.minus(off));
            out.push(first.plus(off));
            out.push(first.plus(off_old));
            out.push(first.minus(off));
            out.push(first.plus(off));
            out.push(first.minus(off_old));
        }
        out.push(first.plus(off));
        out.push(next.plus(off));
        out.push(first.minus(off));
        out.push(next.minus(off));
        out.push(first.minus(off));
        out.push(next.plus(off));
        proof {
            assert(positions_model(out@) =~= ribbon_vertices(pts, ws, dir0@, i as int + 1));
        }
        cur_dir = d;
        cur_w = w;
        i = i + 1;
    }
    Ok(out)
}

/// The constant placeholder buffers running parallel to a vertex stream:
/// one `(1, 1, 1)` normal and one `(0, 0)` uv per vertex.
pub(crate) fn placeholder_attributes(count: usize) -> (r: (Vec<Vec3>, Vec<(i64, i64)>))
    ensures
        r.0@.len() == count,
        r.1@.len() == count,
        forall|i: int| 0 <= i < count ==> #[trigger] r.0@[i]@ == (1int, 1int, 1int),
        forall|i: int| 0 <= i < count ==> #[trigger] r.1@[i] == (0i64, 0i64),
{
    let mut normals: Vec<Vec3> = Vec::new();
    let mut uvs: Vec<(i64, i64)> = Vec::new();
    let mut c: usize = 0;
    while c < count
        invariant
            c <= count,
            normals@.len() == c,
            uvs@.len() == c,
            forall|i: int| 0 <= i < c ==> #[trigger] normals@[i]@ == (1int, 1int, 1int),
            forall|i: int| 0 <= i < c ==> #[trigger] uvs@[i] == (0i64, 0i64),
        decreases count - c,
    {
        normals.push(Vec3 { x: 1, y: 1, z: 1 });
        uvs.push((0, 0));
        c = c + 1;
    }
    (normals, uvs)
}

/// Builds one straight section: accumulates the shifts into absolute
/// positions starting at the pivot, sweeps the ribbon along them, and
/// hands back the pivot the next section starts from. Rejects an empty
/// description, a non-positive width, and any edge whose perpendicular
/// is undefined, in that order.
pub fn build_straight(pivot: Pivot, description: &SectionDescription) -> (r: Result<
    (Pivot, Trajectory),
    RoadError,
>)
    requires
        straight_input_ok(pivot@, description@),
    ensures
        ({
            let dws = shift_widths(description@);
            let samples = straight_samples(pivot.position@, description@);
            match r {
                Ok((p2, t)) => {
                    &&& sweep_error(pivot@, dws, samples) is None
                    &&& trajectory_wf(t)
                    &&& positions_model(t.positions@) == sweep_ribbon(pivot@, samples)
                    &&& t.positions@.len() % 6 == 0
                    &&& p2@ == sweep_after(pivot@, dws, samples)
                },
                Err(e) => sweep_error(pivot@, dws, samples) == Some(e),
            }
        }),
{
    let ghost samples = straight_samples(pivot.position@, description@);
    let ghost dws = shift_widths(description@);
    proof {
        lemma_straight_samples_widths(pivot.position@, description@);
    }
    let k: usize = description.len();
    if k == 0 {
        return Err(RoadError::EmptySection);
    }
    if pivot.width <= 0 {
        return Err(RoadError::InvalidWidth);
    }
    let mut j: usize = 0;
    while j < k
        invariant
            k == description@.len(),
            1 <= k,
            j <= k,
            dws == shift_widths(description@),
            samples == straight_samples(pivot.position@, description@),
            pivot.width > 0,
            forall|t: int| 0 <= t < j ==> #[trigger] description@[t].0 > 0,
        decreases k - j,
    {
        if description[j].0 <= 0 {
            proof {
                assert(dws[j as int] == description@[j as int].0 as int);
                assert(!widths_positive(pivot.width as int, dws));
            }
            return Err(RoadError::InvalidWidth);
        }
        j = j + 1;
    }
    let mut points: Vec<Vec3> = Vec::new();
    let mut ws: Vec<i64> = Vec::new();
    points.push(pivot.position);
    ws.push(pivot.width);
    let mut j: usize = 0;
    while j < k
        invariant
            k == description@.len(),
            j <= k,
            1 <= k,
            straight_input_ok(pivot@, description@),
            forall|t: int| 0 <= t < k ==> #[trigger] description@[t].0 > 0,
            0 < pivot.width,
            samples == straight_samples(pivot.position@, description@),
            samples.len() == k,
            forall|t: int|
                0 <= t < k ==> #[trigger] samples[t].1 == description@[t].0 as int,
            points@.len() == j + 1,
            ws@.len() == j + 1,
            positions_model(points@) == sweep_points(
                pivot.position@,
                samples.take(j as int),
            ),
            widths_model(ws@) == sweep_widths(pivot.width as int, samples.take(j as int)),
        decreases k - j,
    {
        let ghost jj = j as int;
        proof {
            lemma_straight_samples_prefix(pivot.position@, description@, jj);
            lemma_straight_samples_prefix(pivot.position@, description@, jj + 1);
            lemma_straight_samples_len(pivot.position@, description@.take(jj));
            lemma_straight_samples_len(pivot.position@, description@.take(jj + 1));
            assert(description@.take(jj + 1).drop_last() =~= description@.take(jj));
            assert(samples.take(jj + 1) == straight_samples(
                pivot.position@,
                description@.take(jj + 1),
            ));
            assert(description@.take(jj + 1).last() == description@[jj]);
            assert(samples.take(jj + 1) == straight_samples(
                pivot.position@,
                description@.take(jj),
            ).push(
                (
                    vadd(
                        end_point(
                            pivot.position@,
                            straight_samples(pivot.position@, description@.take(jj)),
                        ),
                        description@[jj].1@,
                    ),
                    description@[jj].0 as int,
                ),
            ));
            assert(samples.take(jj + 1) =~= samples.take(jj).push(samples[jj]));
        }
        let last_pt = points[points.len() - 1];
        proof {
            assert(last_pt@ == positions_model(points@)[points@.len() - 1]);
            assert(last_pt@ == sweep_points(pivot.position@, samples.take(jj))[jj]);
            assert(last_pt@ == end_point(pivot.position@, samples.take(jj)));
            assert(straight_samples(pivot.position@, description@.take(jj)) == samples.take(jj));
            assert(samples.take(jj + 1)[jj] == samples[jj]);
            assert(samples[jj] == (
                vadd(end_point(pivot.position@, samples.take(jj)), description@[jj].1@),
                description@[jj].0 as int,
            ));
            assert(samples[jj].0 == vadd(last_pt@, description@[jj].1@));
            assert(in_bounds(samples[jj].0));
            assert(in_bounds(last_pt@));
        }
        let sh = description[j];
        let p2 = last_pt.plus(sh.1);
        points.push(p2);
        ws.push(sh.0);
        j = j + 1;
        proof {
            assert(p2@ == samples[jj].0);
            assert(sh.0 as int == samples[jj].1);
            assert(positions_model(points@) =~= sweep_points(
                pivot.position@,
                samples.take(jj),
            ).push(samples[jj].0));
            assert(sweep_points(pivot.position@, samples.take(jj + 1)) =~= sweep_points(
                pivot.position@,
                samples.take(jj),
            ).push(samples[jj].0));
            assert(widths_model(ws@) =~= sweep_widths(
                pivot.width as int,
                samples.take(jj),
            ).push(samples[jj].1));
            assert(sweep_widths(pivot.width as int, samples.take(jj + 1)) =~= sweep_widths(
                pivot.width as int,
                samples.take(jj),
            ).push(samples[jj].1));
        }
    }
    proof {
        assert(samples.take(k as int) =~= samples);
        assert(positions_model(points@) == sweep_points(pivot.position@, samples));
        assert(widths_model(ws@) == sweep_widths(pivot.width as int, samples));
        assert forall|t: int| 0 <= t < points@.len() implies in_bounds(
            #[trigger] points@[t]@,
        ) by {
            assert(points@[t]@ == sweep_points(pivot.position@, samples)[t]);
            if t > 0 {
                assert(sweep_points(pivot.position@, samples)[t] == samples[t - 1].0);
            }
        }
        assert forall|t: int| 0 <= t < ws@.len() implies 0 < #[trigger] ws@[t] <= COORD_MAX by {
            assert(ws@[t] as int == sweep_widths(pivot.width as int, samples)[t]);
            if t > 0 {
                assert(sweep_widths(pivot.width as int, samples)[t] == samples[t - 1].1);
                assert(samples[t - 1].1 == description@[t - 1].0 as int);
                assert(dws[t - 1] == description@[t - 1].0 as int);
            }
        }
    }
    let verts = match emit_ribbon(&points, &ws, pivot.direction) {
        Err(e) => {
            return Err(e);
        },
        Ok(v) => v,
    };
    let m: usize = verts.len();
    let (normals, uvs) = placeholder_attributes(m);
    let p_last = points[points.len() - 1];
    let p_prev = points[points.len() - 2];
    let dir2 = p_last.minus(p_prev);
    let w2 = description[k - 1].0;
    let new_pivot = Pivot { position: p_last, direction: dir2, width: w2 };
    proof {
        let pts = sweep_points(pivot.position@, samples);
        lemma_ribbon_len_six(pts, sweep_widths(pivot.width as int, samples), pivot.direction@,
            samples.len() as int);
        assert(p_last@ == pts[pts.len() - 1]);
        assert(pts[pts.len() - 1] == samples.last().0);
        assert(p_prev@ == pts[pts.len() - 2]);
        assert(dir2@ == edge_dir(pts, pts.len() - 2));
        assert(w2 as int == dws.last());
    }
    Ok((new_pivot, Trajectory { positions: verts, normals, uvs }))
}

/// Builds one turn section: every turn shift is approximated by up to
/// `TURN_STEPS` advances of its step vector, each clamped component-wise
/// against the shift's target so the sampling never overshoots, with the
/// exact target appended when stepping alone does not reach it. The
/// ribbon is then swept along this finer polyline exactly as for a
/// straight section, the perpendicular computed fresh at every edge.
/// Rejects an empty description, a non-positive width, and any sampled
/// edge whose perpendicular is undefined, in that order.
pub fn build_turn(pivot: Pivot, description: &TurnDescription) -> (r: Result<
    (Pivot, Trajectory),
    RoadError,
>)
    requires
        turn_input_ok(pivot@, description@),
    ensures
        ({
            let dws = turn_widths(description@);
            let samples = turn_samples(pivot.position@, description@);
            match r {
                Ok((p2, t)) => {
                    &&& sweep_error(pivot@, dws, samples) is None
                    &&& trajectory_wf(t)
                    &&& positions_model(t.positions@) == sweep_ribbon(pivot@, samples)
                    &&& t.positions@.len() % 6 == 0
                    &&& p2@ == sweep_after(pivot@, dws, samples)
                },
                Err(e) => sweep_error(pivot@, dws, samples) == Some(e),
            }
        }),
{
    let ghost samples = turn_samples(pivot.position@, description@);
    let ghost dws = turn_widths(description@);
    let k: usize = description.len();
    if k == 0 {
        return Err(RoadError::EmptySection);
    }
    if pivot.width <= 0 {
        return Err(RoadError::InvalidWidth);
    }
    let mut j: usize = 0;
    while j < k
        invariant
            k == description@.len(),
            1 <= k,
            j <= k,
            dws == turn_widths(description@),
            pivot.width > 0,
            forall|t: int| 0 <= t < j ==> #[trigger] description@[t].0.0 > 0,
        decreases k - j,
    {
        if description[j].0.0 <= 0 {
            proof {
                assert(dws[j as int] == description@[j as int].0.0 as int);
                assert(!widths_positive(pivot.width as int, dws));
            }
            return Err(RoadError::InvalidWidth);
        }
        j = j + 1;
    }
    let mut points: Vec<Vec3> = Vec::new();
    let mut ws: Vec<i64> = Vec::new();
    points.push(pivot.position);
    ws.push(pivot.width);
    let mut i: usize = 0;
    while i < k
        invariant
            k == description@.len(),
            1 <= k,
            i <= k,
            turn_input_ok(pivot@, description@),
            samples == turn_samples(pivot.position@, description@),
            forall|t: int| 0 <= t < k ==> #[trigger] description@[t].0.0 > 0,
            0 < pivot.width <= COORD_MAX,
            in_bounds(pivot.position@),
            points@.len() == ws@.len(),
            points@.len() >= 1,
            positions_model(points@) == sweep_points(
                pivot.position@,
                turn_samples(pivot.position@, description@.take(i as int)),
            ),
            widths_model(ws@) == sweep_widths(
                pivot.width as int,
                turn_samples(pivot.position@, description@.take(i as int)),
            ),
        decreases k - i,
    {
        let ghost ii = i as int;
        let ghost part = turn_samples(pivot.position@, description@.take(ii));
        let ghost part2 = turn_samples(pivot.position@, description@.take(ii + 1));
        let ghost tsh_g = description@[ii];
        let ghost p0s = end_point(pivot.position@, part);
        let ghost target_s = vadd(p0s, tsh_g.0.1@);
        let ghost step_g = tsh_g.1@;
        let ghost batch = turn_steps(p0s, target_s, step_g, TURN_STEPS as nat);
        proof {
            lemma_turn_samples_prefix(pivot.position@, description@, ii);
            lemma_turn_samples_prefix(pivot.position@, description@, ii + 1);
            assert(description@.take(ii + 1).drop_last() =~= description@.take(ii));
            assert(description@.take(ii + 1).last() == tsh_g);
            assert(part2 == part + batch.map_values(
                |p: (int, int, int)| (p, tsh_g.0.0 as int),
            ));
            lemma_turn_steps_last(p0s, target_s, step_g, TURN_STEPS as nat);
            assert forall|t: int| 0 <= t < part2.len() implies in_bounds(
                #[trigger] part2[t].0,
            ) by {
                assert(part2[t] == samples[t]);
            }
            assert forall|t: int| 0 <= t < part.len() implies in_bounds(
                #[trigger] part[t].0,
            ) by {
                assert(part[t] == part2[t]);
            }
        }
        let last_pt = points[points.len() - 1];
        proof {
            assert(last_pt@ == positions_model(points@)[points@.len() - 1]);
            assert(last_pt@ == sweep_points(pivot.position@, part)[points@.len() - 1]);
            assert(positions_model(points@).len() == points@.len());
            assert(sweep_points(pivot.position@, part).len() == 1 + part.map_values(
                |s: ((int, int, int), int)| s.0,
            ).len());
            assert(points@.len() == part.len() + 1);
            if part.len() == 0 {
                assert(last_pt@ == pivot.position@);
            } else {
                assert(sweep_points(pivot.position@, part)[part.len() as int] == part.map_values(
                    |s: ((int, int, int), int)| s.0,
                )[part.len() - 1]);
                assert(last_pt@ == part.last().0);
            }
            assert(last_pt@ == p0s);
            assert(in_bounds(p0s));
            if batch.len() == 0 {
                assert(target_s == p0s);
            } else {
                assert(batch.last() == target_s);
                assert(part2[part.len() + batch.len() - 1].0 == batch[batch.len() - 1]);
                assert(in_bounds(target_s));
            }
        }
        let tsh = description[i];
        let target = last_pt.plus(tsh.0.1);
        let mut pos = last_pt;
        let mut c: usize = 0;
        let ghost pts0 = points@;
        let ghost ws0 = ws@;
        while c < TURN_STEPS && pos != target
            invariant
                c <= TURN_STEPS,
                0 <= ii < description@.len(),
                tsh == description@[ii],
                tsh_g == description@[ii],
                step_g == tsh_g.1@,
                in_bounds(step_g),
                target@ == target_s,
                batch == turn_steps(p0s, target_s, step_g, TURN_STEPS as nat),
                part2 == part + batch.map_values(
                    |p: (int, int, int)| (p, tsh_g.0.0 as int),
                ),
                forall|t: int| 0 <= t < part2.len() ==> in_bounds(#[trigger] part2[t].0),
                c <= batch.len(),
                turn_steps(pos@, target_s, step_g, (TURN_STEPS - c) as nat) == batch.skip(
                    c as int,
                ),
                in_bounds(pos@),
                points@.len() == pts0.len() + c,
                ws@.len() == ws0.len() + c,
                pts0.len() >= 1,
                positions_model(points@) == positions_model(pts0) + batch.take(c as int),
                widths_model(ws@) == widths_model(ws0) + Seq::new(
                    c as nat,
                    |t: int| tsh_g.0.0 as int,
                ),
            decreases TURN_STEPS - c,
        {
            proof {
                assert(pos@ != target_s);
                assert(turn_steps(pos@, target_s, step_g, (TURN_STEPS - c) as nat) == seq![
                    vmin(vadd(pos@, step_g), target_s),
                ] + turn_steps(
                    vmin(vadd(pos@, step_g), target_s),
                    target_s,
                    step_g,
                    (TURN_STEPS - c - 1) as nat,
                ));
                assert(batch.skip(c as int)[0] == vmin(vadd(pos@, step_g), target_s));
                assert(batch[c as int] == vmin(vadd(pos@, step_g), target_s));
                assert(c < batch.len());
                assert(part2[part.len() + c].0 == batch[c as int]);
                assert(in_bounds(batch[c as int]));
            }
            let ghost prev_pts = points@;
            let ghost prev_ws = ws@;
            let q = pos.plus(tsh.1).min_with(target);
            points.push(q);
            ws.push(tsh.0.0);
            pos = q;
            c = c + 1;
            proof {
                assert(q@ == batch[c - 1]);
                assert(points@ == prev_pts.push(q));
                assert(positions_model(points@) =~= positions_model(prev_pts).push(q@));
                assert(batch.take(c as int) =~= batch.take(c - 1).push(batch[c - 1]));
                assert((positions_model(pts0) + batch.take(c - 1)).push(q@) =~= positions_model(
                    pts0,
                ) + batch.take(c as int));
                assert(widths_model(ws@) =~= widths_model(prev_ws).push(tsh_g.0.0 as int));
                assert(Seq::new(c as nat, |t: int| tsh_g.0.0 as int) =~= Seq::new(
                    (c - 1) as nat,
                    |t: int| tsh_g.0.0 as int,
                ).push(tsh_g.0.0 as int));
                assert((widths_model(ws0) + Seq::new((c - 1) as nat, |t: int| tsh_g.0.0 as int))
                    .push(tsh_g.0.0 as int) =~= widths_model(ws0) + Seq::new(
                    c as nat,
                    |t: int| tsh_g.0.0 as int,
                ));
                assert(batch.skip(c as int) =~= batch.skip(c - 1).skip(1));
                assert(turn_steps(pos@, target_s, step_g, (TURN_STEPS - c) as nat)
                    == batch.skip(c as int));
            }
        }
        if !(pos == target) {
            proof {
                assert(c == TURN_STEPS);
                assert(turn_steps(pos@, target_s, step_g, 0nat) == seq![target_s]);
                assert(batch.skip(c as int) == seq![target_s]);
                assert(batch.len() == c + 1);
                assert(batch[c as int] == target_s);
            }
            let ghost prev_pts = points@;
            let ghost prev_ws = ws@;
            points.push(target);
            ws.push(tsh.0.0);
            proof {
                assert(positions_model(points@) =~= positions_model(prev_pts).push(target@));
                assert(batch =~= batch.take(c as int).push(batch[c as int]));
                assert((positions_model(pts0) + batch.take(c as int)).push(target_s)
                    =~= positions_model(pts0) + batch);
                assert(widths_model(ws@) =~= widths_model(prev_ws).push(tsh_g.0.0 as int));
                assert((widths_model(ws0) + Seq::new(c as nat, |t: int| tsh_g.0.0 as int)).push(
                    tsh_g.0.0 as int,
                ) =~= widths_model(ws0) + Seq::new(batch.len(), |t: int| tsh_g.0.0 as int));
            }
        } else {
            proof {
                assert(turn_steps(pos@, target_s, step_g, (TURN_STEPS - c) as nat)
                    == Seq::<(int, int, int)>::empty());
                assert(batch.skip(c as int).len() == 0);
                assert(c == batch.len());
                assert(batch.take(c as int) =~= batch);
                assert(widths_model(ws@) =~= widths_model(ws0) + Seq::new(
                    batch.len(),
                    |t: int| tsh_g.0.0 as int,
                ));
            }
        }
        i = i + 1;
        proof {
            assert(positions_model(points@) =~= sweep_points(pivot.position@, part2));
            assert(widths_model(ws@) =~= sweep_widths(pivot.width as int, part2));
        }
    }
    proof {
        assert(description@.take(k as int) =~= description@);
        assert(positions_model(points@) == sweep_points(pivot.position@, samples));
        assert(widths_model(ws@) == sweep_widths(pivot.width as int, samples));
        assert forall|jx: int| 0 <= jx < description@.len() implies #[trigger] description@[
            jx
        ].0.0 <= COORD_MAX by {
            assert(dws[jx] == description@[jx].0.0 as int);
        }
        lemma_turn_samples_width_bounds(pivot.position@, description@);
        assert forall|t: int| 0 <= t < points@.len() implies in_bounds(
            #[trigger] points@[t]@,
        ) by {
            assert(points@[t]@ == sweep_points(pivot.position@, samples)[t]);
            if t > 0 {
                assert(sweep_points(pivot.position@, samples)[t] == samples[t - 1].0);
            }
        }
        assert forall|t: int| 0 <= t < ws@.len() implies 0 < #[trigger] ws@[t] <= COORD_MAX by {
            assert(ws@[t] as int == sweep_widths(pivot.width as int, samples)[t]);
            if t > 0 {
                assert(sweep_widths(pivot.width as int, samples)[t] == samples[t - 1].1);
            }
        }
    }
    let verts = match emit_ribbon(&points, &ws, pivot.direction) {
        Err(e) => {
            return Err(e);
        },
        Ok(v) => v,
    };
    let m: usize = verts.len();
    let (normals, uvs) = placeholder_attributes(m);
    let p_last = points[points.len() - 1];
    let dir2 = if points.len() >= 2 {
        let p_prev = points[points.len() - 2];
        proof {
            assert(in_bounds(p_last@));
            assert(in_bounds(points@[points@.len() - 2]@));
        }
        p_last.minus(p_prev)
    } else {
        pivot.direction
    };
    let w2 = description[k - 1].0.0;
    let new_pivot = Pivot { position: p_last, direction: dir2, width: w2 };
    proof {
        let pts = sweep_points(pivot.position@, samples);
        lemma_ribbon_len_six(
            pts,
            sweep_widths(pivot.width as int, samples),
            pivot.direction@,
            samples.len() as int,
        );
        assert(p_last@ == pts[pts.len() - 1]);
        assert(p_last@ == end_point(pivot.position@, samples));
        if samples.len() > 0 {
            assert(dir2@ == edge_dir(pts, pts.len() - 2));
        }
        assert(w2 as int == dws.last());
    }
    Ok((new_pivot, Trajectory { positions: verts, normals, uvs }))
}

/// Builds one section of either kind, dispatching exhaustively on the
/// section's variant.
pub fn build_section(pivot: Pivot, section: &Section) -> (r: Result<(Pivot, Trajectory), RoadError>)
    requires
        section_input_ok(pivot@, *section),
    ensures
        match r {
            Ok((p2, t)) => {
                &&& section_error(pivot@, *section) is None
                &&& trajectory_wf(t)
                &&& positions_model(t.positions@) == section_ribbon(pivot@, *section)
                &&& t.positions@.len() % 6 == 0
                &&& p2@ == pivot_after(pivot@, *section)
            },
            Err(e) => section_error(pivot@, *section) == Some(e),
        },
{
    match section {
        Section::Straight(d) => build_straight(pivot, d),
        Section::Turn(t) => build_turn(pivot, t),
    }
}

/// The perpendicular of a travel direction, scaled to the road's lateral
/// width: `normalize(cross(vec, Z)) * width`, computed in integers.
pub fn normal(vec: Vec3, width: i64) -> (r: Vec3)
    requires
        dir_in_bounds(vec@),
        !planar_zero(vec@),
        0 < width <= COORD_MAX,
    ensures
        r@ == perp_scaled(vec@, width as int),
        -width <= r.x <= width,
        -width <= r.y <= width,
        r.z == 0,
{
    perp_offset(vec, width)
}

/// Concatenates all per-section buffers in order and derives the
/// sequential index buffer `0, 1, 2, ...`: every triangle keeps its own
/// three vertices, nothing is shared or deduplicated. Purely additive:
/// the output vertex count is the sum of the inputs' vertex counts, and
/// empty input yields the empty mesh.
pub fn trajectory_to_mesh(descriptions: Vec<Trajectory>) -> (r: Mesh)
    requires
        total_vertices(descriptions@) <= u32::MAX,
    ensures
        r.positions@ == concat_positions(descriptions@),
        r.normals@ == concat_normals(descriptions@),
        r.uvs@ == concat_uvs(descriptions@),
        r.positions@.len() == total_vertices(descriptions@),
        r.indices@.len() == r.positions@.len(),
        forall|i: int| 0 <= i < r.indices@.len() ==> #[trigger] r.indices@[i] as int == i,
{
    let mut positions: Vec<Vec3> = Vec::new();
    let mut normals: Vec<Vec3> = Vec::new();
    let mut uvs: Vec<(i64, i64)> = Vec::new();
    let n: usize = descriptions.len();
    let mut i: usize = 0;
    while i < n
        invariant
            n == descriptions@.len(),
            i <= n,
            positions@ == concat_positions(descriptions@.take(i as int)),
            normals@ == concat_normals(descriptions@.take(i as int)),
            uvs@ == concat_uvs(descriptions@.take(i as int)),
        decreases n - i,
    {
        let ghost ii = i as int;
        proof {
            assert(descriptions@.take(ii + 1).drop_last() =~= descriptions@.take(ii));
            assert(descriptions@.take(ii + 1).last() == descriptions@[ii]);
        }
        let t = &descriptions[i];
        let mut j: usize = 0;
        let pn: usize = t.positions.len();
        while j < pn
            invariant
                0 <= ii < descriptions@.len(),
                t == descriptions@[ii],
                pn == t.positions@.len(),
                j <= pn,
                positions@ == concat_positions(descriptions@.take(ii)) + t.positions@.take(
                    j as int,
                ),
            decreases pn - j,
        {
            positions.push(t.positions[j]);
            j = j + 1;
            proof {
                assert(positions@ =~= concat_positions(descriptions@.take(ii))
                    + t.positions@.take(j as int));
            }
        }
        let mut j: usize = 0;
        let nn: usize = t.normals.len();
        while j < nn
            invariant
                0 <= ii < descriptions@.len(),
                t == descriptions@[ii],
                nn == t.normals@.len(),
                j <= nn,
                normals@ == concat_normals(descriptions@.take(ii)) + t.normals@.take(j as int),
            decreases nn - j,
        {
            normals.push(t.normals[j]);
            j = j + 1;
            proof {
                assert(normals@ =~= concat_normals(descriptions@.take(ii)) + t.normals@.take(
                    j as int,
                ));
            }
        }
        let mut j: usize = 0;
        let un: usize = t.uvs.len();
        while j < un
            invariant
                0 <= ii < descriptions@.len(),
                t == descriptions@[ii],
                un == t.uvs@.len(),
                j <= un,
                uvs@ == concat_uvs(descriptions@.take(ii)) + t.uvs@.take(j as int),
            decreases un - j,
        {
            uvs.push(t.uvs[j]);
            j = j + 1;
            proof {
                assert(uvs@ =~= concat_uvs(descriptions@.take(ii)) + t.uvs@.take(j as int));
            }
        }
        i = i + 1;
        proof {
            assert(t.positions@.take(pn as int) =~= t.positions@);
            assert(t.normals@.take(nn as int) =~= t.normals@);
            assert(t.uvs@.take(un as int) =~= t.uvs@);
            assert(positions@ =~= concat_positions(descriptions@.take(i as int)));
            assert(normals@ =~= concat_normals(descriptions@.take(i as int)));
            assert(uvs@ =~= concat_uvs(descriptions@.take(i as int)));
        }
    }
    proof {
        assert(descriptions@.take(n as int) =~= descriptions@);
        lemma_concat_len(descriptions@);
    }
    let total: usize = positions.len();
    let mut indices: Vec<u32> = Vec::new();
    let mut c: usize = 0;
    while c < total
        invariant
            c <= total,
            total <= u32::MAX,
            indices@.len() == c,
            forall|t: int| 0 <= t < c ==> #[trigger] indices@[t] as int == t,
        decreases total - c,
    {
        indices.push(c as u32);
        c = c + 1;
    }
    Mesh { positions, normals, uvs, indices }
}

/// The end-to-end entry point: threads the pivot through the whole
/// catalog, building every section's ribbon, and assembles them into one
/// mesh. Generation is a pure function of the catalog: the result is
/// pinned, vertex by vertex, by the models above, so rebuilding the same
/// catalog always yields the same mesh. A failing section aborts the
/// whole build with its error.
pub fn generate_road(sections: &Vec<Section>) -> (r: Result<Mesh, RoadError>)
    requires
        road_input_ok(initial_pivot_model(), sections@),
        road_vertex_total(initial_pivot_model(), sections@) <= u32::MAX,
    ensures
        match r {
            Ok(m) => {
                &&& road_error(initial_pivot_model(), sections@) is None
                &&& positions_model(m.positions@) == flatten_chunks(
                    road_trajectories(initial_pivot_model(), sections@),
                )
                &&& m.positions@.len() == road_vertex_total(initial_pivot_model(), sections@)
                &&& mesh_wf(m)
            },
            Err(e) => road_error(initial_pivot_model(), sections@) == Some(e),
        },
{
    let ghost init = initial_pivot_model();
    let mut trajectory: Vec<Trajectory> = Vec::new();
    let mut current_pivot = Pivot {
        position: Vec3::zero(),
        direction: Vec3 { x: 1, y: 0, z: 0 },
        width: INITIAL_ROAD_WIDTH,
    };
    let n: usize = sections.len();
    let mut i: usize = 0;
    proof {
        assert(sections@.skip(0) =~= sections@);
    }
    while i < n
        invariant
            n == sections@.len(),
            i <= n,
            init == initial_pivot_model(),
            road_input_ok(init, sections@),
            road_vertex_total(init, sections@) <= u32::MAX,
            road_input_ok(current_pivot@, sections@.skip(i as int)),
            road_error(init, sections@) == road_error(current_pivot@, sections@.skip(i as int)),
            road_trajectories(init, sections@) == descriptions_model(trajectory@)
                + road_trajectories(current_pivot@, sections@.skip(i as int)),
            road_vertex_total(init, sections@) == total_vertices(trajectory@)
                + road_vertex_total(current_pivot@, sections@.skip(i as int)),
            forall|t: int|
                0 <= t < trajectory@.len() ==> trajectory_wf(#[trigger] trajectory@[t]),
        decreases n - i,
    {
        let ghost rest = sections@.skip(i as int);
        proof {
            assert(rest[0] == sections@[i as int]);
            assert(rest.skip(1) =~= sections@.skip(i as int + 1));
        }
        let section = &sections[i];
        let (new_pivot, section_trajectory) = match build_section(current_pivot, section) {
            Err(e) => {
                return Err(e);
            },
            Ok(p) => p,
        };
        let ghost prev_trajs = trajectory@;
        trajectory.push(section_trajectory);
        current_pivot = new_pivot;
        i = i + 1;
        proof {
            assert(descriptions_model(trajectory@) =~= descriptions_model(prev_trajs).push(
                positions_model(section_trajectory.positions@),
            ));
            assert(descriptions_model(prev_trajs).push(
                positions_model(section_trajectory.positions@),
            ) + road_trajectories(current_pivot@, sections@.skip(i as int))
                =~= descriptions_model(prev_trajs) + (seq![
                positions_model(section_trajectory.positions@),
            ] + road_trajectories(current_pivot@, sections@.skip(i as int))));
            assert(trajectory@.drop_last() =~= prev_trajs);
        }
    }
    proof {
        assert(sections@.skip(n as int) =~= Seq::<Section>::empty());
        assert(road_trajectories(init, sections@) =~= descriptions_model(trajectory@));
        lemma_concat_flatten(trajectory@);
        lemma_concat_wf(trajectory@);
    }
    let mesh = trajectory_to_mesh(trajectory);
    Ok(mesh)
}

/// The largest displacement or step component `road_within_limits`
/// accepts.
pub const GUARD_COMP_MAX: i64 = 100_000;

/// The most shifts `road_within_limits` accepts across the whole
/// catalog.
pub const GUARD_SHIFT_MAX: usize = 1_000;

/// Whether this catalog provably stays inside the machine limits
/// `generate_road` assumes. The test is conservative: it accepts any
/// catalog whose displacements and step vectors stay within
/// `GUARD_COMP_MAX` per component, whose widths stay within `COORD_MAX`,
/// and which declares at most `GUARD_SHIFT_MAX` shifts in total. A
/// caller that cannot discharge the builder's bounds itself can test
/// them here.
pub fn road_within_limits(sections: &Vec<Section>) -> (r: bool)
    ensures
        r ==> road_input_ok(initial_pivot_model(), sections@) && road_vertex_total(
            initial_pivot_model(),
            sections@,
        ) <= u32::MAX,
{
    let mut count: usize = 0;
    let n: usize = sections.len();
    let mut i: usize = 0;
    while i < n
        invariant
            n == sections@.len(),
            i <= n,
            count == total_shifts(sections@.take(i as int)),
            count <= GUARD_SHIFT_MAX,
            forall|t: int|
                0 <= t < i ==> section_modest(#[trigger] sections@[t], GUARD_COMP_MAX as int)
                    && widths_bounded(section_widths(sections@[t])),
        decreases n - i,
    {
        let ghost ii = i as int;
        proof {
            assert(sections@.take(ii + 1).drop_last() =~= sections@.take(ii));
            assert(sections@.take(ii + 1).last() == sections@[ii]);
        }
        match &sections[i] {
            Section::Straight(d) => {
                if d.len() > GUARD_SHIFT_MAX - count {
                    return false;
                }
                let m: usize = d.len();
                let mut j: usize = 0;
                while j < m
                    invariant
                        0 <= ii < sections@.len(),
                        sections@[ii] is Straight,
                        d == sections@[ii]->Straight_0,
                        m == d@.len(),
                        j <= m,
                        forall|t: int|
                            0 <= t < j ==> within((#[trigger] d@[t]).1@, GUARD_COMP_MAX as int)
                                && d@[t].0 <= COORD_MAX,
                    decreases m - j,
                {
                    let (w, disp) = d[j];
                    if w > COORD_MAX {
                        return false;
                    }
                    if disp.x > GUARD_COMP_MAX || disp.x < -GUARD_COMP_MAX || disp.y
                        > GUARD_COMP_MAX || disp.y < -GUARD_COMP_MAX || disp.z > GUARD_COMP_MAX
                        || disp.z < -GUARD_COMP_MAX {
                        return false;
                    }
                    j = j + 1;
                }
                count = count + m;
                proof {
                    assert forall|t: int|
                        0 <= t < shift_widths(d@).len() implies #[trigger] shift_widths(d@)[t]
                        <= COORD_MAX by {
                        assert(shift_widths(d@)[t] == d@[t].0 as int);
                    }
                }
            },
            Section::Turn(t) => {
                if t.len() > GUARD_SHIFT_MAX - count {
                    return false;
                }
                let m: usize = t.len();
                let mut j: usize = 0;
                while j < m
                    invariant
                        0 <= ii < sections@.len(),
                        sections@[ii] is Turn,
                        t == sections@[ii]->Turn_0,
                        m == t@.len(),
                        j <= m,
                        forall|tx: int|
                            0 <= tx < j ==> within((#[trigger] t@[tx]).0.1@, GUARD_COMP_MAX as int)
                                && within(t@[tx].1@, GUARD_COMP_MAX as int) && t@[tx].0.0
                                <= COORD_MAX,
                    decreases m - j,
                {
                    let ((w, disp), step) = t[j];
                    if w > COORD_MAX {
                        return false;
                    }
                    if disp.x > GUARD_COMP_MAX || disp.x < -GUARD_COMP_MAX || disp.y
                        > GUARD_COMP_MAX || disp.y < -GUARD_COMP_MAX || disp.z > GUARD_COMP_MAX
                        || disp.z < -GUARD_COMP_MAX {
                        return false;
                    }
                    if step.x > GUARD_COMP_MAX || step.x < -GUARD_COMP_MAX || step.y
                        > GUARD_COMP_MAX || step.y < -GUARD_COMP_MAX || step.z > GUARD_COMP_MAX
                        || step.z < -GUARD_COMP_MAX {
                        return false;
                    }
                    j = j + 1;
                }
                count = count + m;
                proof {
                    assert forall|tx: int|
                        0 <= tx < turn_widths(t@).len() implies #[trigger] turn_widths(t@)[tx]
                        <= COORD_MAX by {
                        assert(turn_widths(t@)[tx] == t@[tx].0.0 as int);
                    }
                }
            },
        }
        i = i + 1;
        proof {
            assert(count == total_shifts(sections@.take(i as int)));
        }
    }
    proof {
        assert(sections@.take(n as int) =~= sections@);
        assert(4 * total_shifts(sections@) * (GUARD_COMP_MAX as int) <= 400_000_000)
            by (nonlinear_arith)
            requires
                0 <= total_shifts(sections@) <= 1_000;
        lemma_road_within_limits(
            initial_pivot_model(),
            sections@,
            GUARD_COMP_MAX as int,
            0,
        );
        lemma_total_shifts_nonneg(sections@);
    }
    true
}

/// The debug centerline: walks the catalog ignoring widths and step
/// vectors, accumulating one position per shift starting from the
/// origin. A catalog of `N` shifts in total yields exactly `N + 1`
/// points, the origin included.
pub fn sections_into_line(sections: &Vec<Section>) -> (r: Vec<Vec3>)
    requires
        forall|i: int|
            0 <= i < centerline(sections@).len() ==> in_bounds(#[trigger] centerline(
                sections@,
            )[i]),
    ensures
        positions_model(r@) == centerline(sections@),
        r@.len() == catalog_disps(sections@).len() + 1,
{
    let ghost dm = catalog_disps(sections@);
    let mut disps: Vec<Vec3> = Vec::new();
    let n: usize = sections.len();
    let mut i: usize = 0;
    while i < n
        invariant
            n == sections@.len(),
            i <= n,
            positions_model(disps@) == catalog_disps(sections@.take(i as int)),
        decreases n - i,
    {
        let ghost ii = i as int;
        proof {
            assert(sections@.take(ii + 1).drop_last() =~= sections@.take(ii));
            assert(sections@.take(ii + 1).last() == sections@[ii]);
        }
        let ghost sd = section_disps(sections@[ii]);
        match &sections[i] {
            Section::Straight(d) => {
                let m: usize = d.len();
                let mut j: usize = 0;
                while j < m
                    invariant
                        0 <= ii < sections@.len(),
                        sections@[ii] is Straight,
                        d == sections@[ii]->Straight_0,
                        sd == section_disps(sections@[ii]),
                        m == d@.len(),
                        j <= m,
                        positions_model(disps@) == catalog_disps(sections@.take(ii)) + sd.take(
                            j as int,
                        ),
                    decreases m - j,
                {
                    let ghost jj = j as int;
                    let ghost prev = disps@;
                    disps.push(d[j].1);
                    j = j + 1;
                    proof {
                        assert(sd[jj] == d@[jj].1@);
                        assert(positions_model(disps@) =~= positions_model(prev).push(d@[jj].1@));
                        assert(sd.take(jj + 1) =~= sd.take(jj).push(sd[jj]));
                        assert((catalog_disps(sections@.take(ii)) + sd.take(jj)).push(sd[jj])
                            =~= catalog_disps(sections@.take(ii)) + sd.take(jj + 1));
                    }
                }
            },
            Section::Turn(t) => {
                let m: usize = t.len();
                let mut j: usize = 0;
                while j < m
                    invariant
                        0 <= ii < sections@.len(),
                        sections@[ii] is Turn,
                        t == sections@[ii]->Turn_0,
                        sd == section_disps(sections@[ii]),
                        m == t@.len(),
                        j <= m,
                        positions_model(disps@) == catalog_disps(sections@.take(ii)) + sd.take(
                            j as int,
                        ),
                    decreases m - j,
                {
                    let ghost jj = j as int;
                    let ghost prev = disps@;
                    disps.push(t[j].0.1);
                    j = j + 1;
                    proof {
                        assert(sd[jj] == t@[jj].0.1@);
                        assert(positions_model(disps@) =~= positions_model(prev).push(t@[jj].0.1@));
                        assert(sd.take(jj + 1) =~= sd.take(jj).push(sd[jj]));
                        assert((catalog_disps(sections@.take(ii)) + sd.take(jj)).push(sd[jj])
                            =~= catalog_disps(sections@.take(ii)) + sd.take(jj + 1));
                    }
                }
            },
        }
        i = i + 1;
        proof {
            assert(sd.take(sd.len() as int) =~= sd);
            assert(positions_model(disps@) =~= catalog_disps(sections@.take(i as int)));
        }
    }
    proof {
        assert(sections@.take(n as int) =~= sections@);
        assert(positions_model(disps@) == dm);
    }
    let mut result: Vec<Vec3> = Vec::new();
    let mut position = Vec3::zero();
    result.push(position);
    let dn: usize = disps.len();
    let mut j: usize = 0;
    proof {
        assert(positions_model(result@) =~= polyline_from((0int, 0int, 0int), dm.take(0)));
    }
    while j < dn
        invariant
            dn == disps@.len(),
            j <= dn,
            dm == catalog_disps(sections@),
            positions_model(disps@) == dm,
            forall|t: int|
                0 <= t < centerline(sections@).len() ==> in_bounds(#[trigger] centerline(
                    sections@,
                )[t]),
            result@.len() == j + 1,
            positions_model(result@) == polyline_from((0int, 0int, 0int), dm.take(j as int)),
            position == result@[result@.len() - 1],
        decreases dn - j,
    {
        let ghost jj = j as int;
        proof {
            lemma_polyline_prefix((0int, 0int, 0int), dm, jj);
            lemma_polyline_prefix((0int, 0int, 0int), dm, jj + 1);
            lemma_polyline_len((0int, 0int, 0int), dm.take(jj));
            lemma_polyline_len((0int, 0int, 0int), dm.take(jj + 1));
            lemma_polyline_len((0int, 0int, 0int), dm);
            assert(dm.take(jj + 1).drop_last() =~= dm.take(jj));
            assert(polyline_from((0int, 0int, 0int), dm.take(jj + 1)) == polyline_from(
                (0int, 0int, 0int),
                dm.take(jj),
            ).push(
                vadd(polyline_from((0int, 0int, 0int), dm.take(jj)).last(), dm.take(jj + 1).last()),
            ));
            assert(position@ == polyline_from((0int, 0int, 0int), dm.take(jj)).last());
            assert(vadd(position@, dm[jj]) == polyline_from((0int, 0int, 0int), dm.take(jj + 1))
                .last());
            assert(polyline_from((0int, 0int, 0int), dm.take(jj + 1)).last() == centerline(
                sections@,
            )[jj + 1]);
            assert(in_bounds(centerline(sections@)[jj + 1]));
            assert(in_bounds(centerline(sections@)[jj]));
            assert(polyline_from((0int, 0int, 0int), dm.take(jj)).last() == centerline(
                sections@,
            )[jj]);
        }
        position = position.plus(disps[j]);
        result.push(position);
        j = j + 1;
        proof {
            assert(positions_model(result@) =~= polyline_from(
                (0int, 0int, 0int),
                dm.take(j as int),
            ));
        }
    }
    proof {
        assert(dm.take(dn as int) =~= dm);
        lemma_polyline_len((0int, 0int, 0int), dm);
    }
    result
}

} // verus!
