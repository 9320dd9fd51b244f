//! The mathematical model of the sweep.
//!
//! Every function here is specification-only. A *sample* is a pair of an
//! absolute position and the lateral width carried to it; a section turns
//! into a sequence of samples, the samples into a polyline with a width
//! at every point, and the polyline into the ribbon's vertex stream: six
//! vertices (two triangles) per travelled edge, preceded by a six-vertex
//! collar wherever the perpendicular changes from the previous edge.

use vstd::prelude::*;

use crate::geometry::{
    dir_in_bounds, in_bounds, perp_scaled, planar_zero, same_normal, vadd, vmin, vsub, Vec3,
    COORD_MAX,
};
use crate::road::{RoadError, Section, Shift, Trajectory, TurnShift, TURN_STEPS};

verus! {

/// Where a run of samples ends: the last sampled position, or the start
/// if nothing was sampled.
pub open spec fn end_point(
    start: (int, int, int),
    samples: Seq<((int, int, int), int)>,
) -> (int, int, int) {
    if samples.len() == 0 {
        start
    } else {
        samples.last().0
    }
}

/// The samples of a straight section: each shift advances the running
/// position by its displacement and carries its width there.
pub open spec fn straight_samples(
    start: (int, int, int),
    shifts: Seq<Shift>,
) -> Seq<((int, int, int), int)>
    decreases shifts.len(),
{
    if shifts.len() == 0 {
        Seq::empty()
    } else {
        let pre = straight_samples(start, shifts.drop_last());
        let s = shifts.last();
        pre.push((vadd(end_point(start, pre), s.1@), s.0 as int))
    }
}

/// The positions one turn shift samples on its way from `pos` to
/// `target`: up to `k` steps of `step`, each clamped component-wise so it
/// never overshoots the target, then the exact target if the steps alone
/// did not reach it. Empty exactly when `pos` is already the target;
/// otherwise the last sample is the target itself.
pub open spec fn turn_steps(
    pos: (int, int, int),
    target: (int, int, int),
    step: (int, int, int),
    k: nat,
) -> Seq<(int, int, int)>
    decreases k,
{
    if pos == target {
        Seq::empty()
    } else if k == 0 {
        seq![target]
    } else {
        let q = vmin(vadd(pos, step), target);
        seq![q] + turn_steps(q, target, step, (k - 1) as nat)
    }
}

/// The samples of a turn section: every turn shift contributes its
/// sampled positions, each carrying the shift's width.
pub open spec fn turn_samples(
    start: (int, int, int),
    tshifts: Seq<TurnShift>,
) -> Seq<((int, int, int), int)>
    decreases tshifts.len(),
{
    if tshifts.len() == 0 {
        Seq::empty()
    } else {
        let pre = turn_samples(start, tshifts.drop_last());
        let t = tshifts.last();
        let p0 = end_point(start, pre);
        pre + turn_steps(p0, vadd(p0, t.0.1@), t.1@, TURN_STEPS as nat).map_values(
            |p: (int, int, int)| (p, t.0.0 as int),
        )
    }
}

pub open spec fn section_samples(
    start: (int, int, int),
    section: Section,
) -> Seq<((int, int, int), int)> {
    match section {
        Section::Straight(d) => straight_samples(start, d@),
        Section::Turn(t) => turn_samples(start, t@),
    }
}

/// The polyline the ribbon follows: the pivot's position, then every
/// sampled position.
pub open spec fn sweep_points(
    start: (int, int, int),
    samples: Seq<((int, int, int), int)>,
) -> Seq<(int, int, int)> {
    seq![start] + samples.map_values(|s: ((int, int, int), int)| s.0)
}

/// The width carried at every polyline point: the pivot's width at the
/// start, then each sample's width.
pub open spec fn sweep_widths(
    pivot_width: int,
    samples: Seq<((int, int, int), int)>,
) -> Seq<int> {
    seq![pivot_width] + samples.map_values(|s: ((int, int, int), int)| s.1)
}

/// Direction of the edge from point `i` to point `i + 1`.
pub open spec fn edge_dir(pts: Seq<(int, int, int)>, i: int) -> (int, int, int) {
    vsub(pts[i + 1], pts[i])
}

/// The direction the sweep carried into edge `i`: the previous edge's
/// direction, or the pivot's direction at the first edge.
pub open spec fn prev_dir(
    pts: Seq<(int, int, int)>,
    d0: (int, int, int),
    i: int,
) -> (int, int, int) {
    if i == 0 {
        d0
    } else {
        edge_dir(pts, i - 1)
    }
}

/// The width the sweep carried into edge `i`.
pub open spec fn prev_width(ws: Seq<int>, i: int) -> int {
    if i == 0 {
        ws[0]
    } else {
        ws[i - 1]
    }
}

/// Two triangles tiling the quad between the left edge (`+off`) and the
/// right edge (`-off`) at `first` and `next`, in the emission order the
/// renderer expects.
pub open spec fn quad_vertices(
    first: (int, int, int),
    next: (int, int, int),
    off: (int, int, int),
) -> Seq<(int, int, int)> {
    seq![
        vadd(first, off),
        vadd(next, off),
        vsub(first, off),
        vsub(next, off),
        vsub(first, off),
        vadd(next, off),
    ]
}

/// The six filler vertices stitched in where the perpendicular changes:
/// they connect the previous edge's left/right border (offset `off_old`)
/// to the new one (offset `off_new`) at the shared point.
pub open spec fn collar_vertices(
    first: (int, int, int),
    off_new: (int, int, int),
    off_old: (int, int, int),
) -> Seq<(int, int, int)> {
    seq![
        vsub(first, off_new),
        vadd(first, off_new),
        vadd(first, off_old),
        vsub(first, off_new),
        vadd(first, off_new),
        vsub(first, off_old),
    ]
}

/// Everything edge `i` emits: its quad, preceded by a collar when its
/// perpendicular differs from the one carried into it.
pub open spec fn edge_vertices(
    pts: Seq<(int, int, int)>,
    ws: Seq<int>,
    d0: (int, int, int),
    i: int,
) -> Seq<(int, int, int)> {
    let first = pts[i];
    let next = pts[i + 1];
    let d = edge_dir(pts, i);
    let off = perp_scaled(d, ws[i]);
    if same_normal(prev_dir(pts, d0, i), d) {
        quad_vertices(first, next, off)
    } else {
        collar_vertices(first, off, perp_scaled(prev_dir(pts, d0, i), prev_width(ws, i)))
            + quad_vertices(first, next, off)
    }
}

/// The vertex stream of the first `n` edges of the polyline.
pub open spec fn ribbon_vertices(
    pts: Seq<(int, int, int)>,
    ws: Seq<int>,
    d0: (int, int, int),
    n: int,
) -> Seq<(int, int, int)>
    decreases n,
{
    if n <= 0 {
        Seq::empty()
    } else {
        ribbon_vertices(pts, ws, d0, n - 1) + edge_vertices(pts, ws, d0, n - 1)
    }
}

/// Some edge among the first `n` has no planar component.
pub open spec fn has_degenerate_edge(pts: Seq<(int, int, int)>, n: int) -> bool {
    exists|i: int| 0 <= i < n && planar_zero(#[trigger] edge_dir(pts, i))
}

/// The sweep over this polyline has an undefined perpendicular: either
/// an edge is degenerate, or there is at least one edge and the incoming
/// direction (which decides the first edge's collar) is degenerate.
pub open spec fn degenerate_sweep(pts: Seq<(int, int, int)>, d0: (int, int, int)) -> bool {
    pts.len() > 1 && (planar_zero(d0) || has_degenerate_edge(pts, pts.len() - 1))
}

/// The declared widths of a straight section's shifts, in order.
pub open spec fn shift_widths(shifts: Seq<Shift>) -> Seq<int> {
    shifts.map_values(|s: Shift| s.0 as int)
}

/// A straight section's shifts as plain width/displacement pairs.
pub open spec fn shift_pairs(shifts: Seq<Shift>) -> Seq<(int, (int, int, int))> {
    shifts.map_values(|s: Shift| (s.0 as int, s.1@))
}

/// The declared widths of a turn section's shifts, in order.
pub open spec fn turn_widths(tshifts: Seq<TurnShift>) -> Seq<int> {
    tshifts.map_values(|ts: TurnShift| ts.0.0 as int)
}

/// All declared widths of the section, in order.
pub open spec fn section_widths(section: Section) -> Seq<int> {
    match section {
        Section::Straight(d) => shift_widths(d@),
        Section::Turn(t) => turn_widths(t@),
    }
}

pub open spec fn num_shifts(section: Section) -> int {
    section_widths(section).len() as int
}

/// Every declared width, and the incoming one, is positive.
pub open spec fn widths_positive(pivot_width: int, ws: Seq<int>) -> bool {
    pivot_width > 0 && forall|i: int| 0 <= i < ws.len() ==> #[trigger] ws[i] > 0
}

/// A pivot model: position, direction, width.
pub open spec fn pm_pos(pm: ((int, int, int), (int, int, int), int)) -> (int, int, int) {
    pm.0
}

pub open spec fn pm_dir(pm: ((int, int, int), (int, int, int), int)) -> (int, int, int) {
    pm.1
}

pub open spec fn pm_width(pm: ((int, int, int), (int, int, int), int)) -> int {
    pm.2
}

/// Every sampled position stays within the coordinate bounds.
pub open spec fn samples_in_bounds(samples: Seq<((int, int, int), int)>) -> bool {
    forall|i: int| 0 <= i < samples.len() ==> in_bounds(#[trigger] samples[i].0)
}

/// Every declared width stays within the coordinate bounds.
pub open spec fn widths_bounded(ws: Seq<int>) -> bool {
    forall|i: int| 0 <= i < ws.len() ==> #[trigger] ws[i] <= COORD_MAX
}

/// The machine limits the builders ask of their input: the pivot, every
/// sampled position and every declared width must stay within the
/// coordinate bounds, so no intermediate product or sum leaves `i64`.
pub open spec fn sweep_input_ok(
    pm: ((int, int, int), (int, int, int), int),
    declared_ws: Seq<int>,
    samples: Seq<((int, int, int), int)>,
) -> bool {
    &&& in_bounds(pm_pos(pm))
    &&& dir_in_bounds(pm_dir(pm))
    &&& pm_width(pm) <= COORD_MAX
    &&& widths_bounded(declared_ws)
    &&& samples_in_bounds(samples)
}

pub open spec fn straight_input_ok(
    pm: ((int, int, int), (int, int, int), int),
    shifts: Seq<Shift>,
) -> bool {
    sweep_input_ok(pm, shift_widths(shifts), straight_samples(pm_pos(pm), shifts))
}

/// A turn additionally keeps every step vector within the coordinate
/// bounds: a step is added to a position before the clamp reins it in.
pub open spec fn turn_input_ok(
    pm: ((int, int, int), (int, int, int), int),
    tshifts: Seq<TurnShift>,
) -> bool {
    &&& sweep_input_ok(pm, turn_widths(tshifts), turn_samples(pm_pos(pm), tshifts))
    &&& forall|i: int| 0 <= i < tshifts.len() ==> in_bounds(#[trigger] tshifts[i].1@)
}

pub open spec fn section_input_ok(
    pm: ((int, int, int), (int, int, int), int),
    section: Section,
) -> bool {
    match section {
        Section::Straight(d) => straight_input_ok(pm, d@),
        Section::Turn(t) => turn_input_ok(pm, t@),
    }
}

/// Which error, if any, a sweep with the given declared widths and
/// samples reports: an empty description first, then a non-positive
/// width, then an undefined perpendicular.
pub open spec fn sweep_error(
    pm: ((int, int, int), (int, int, int), int),
    declared_ws: Seq<int>,
    samples: Seq<((int, int, int), int)>,
) -> Option<RoadError> {
    if declared_ws.len() == 0 {
        Some(RoadError::EmptySection)
    } else if !widths_positive(pm_width(pm), declared_ws) {
        Some(RoadError::InvalidWidth)
    } else if degenerate_sweep(sweep_points(pm_pos(pm), samples), pm_dir(pm)) {
        Some(RoadError::DegenerateSegment)
    } else {
        None
    }
}

/// Which error, if any, building this section reports.
pub open spec fn section_error(
    pm: ((int, int, int), (int, int, int), int),
    section: Section,
) -> Option<RoadError> {
    sweep_error(pm, section_widths(section), section_samples(pm_pos(pm), section))
}

/// The vertex stream a successful sweep over these samples emits.
pub open spec fn sweep_ribbon(
    pm: ((int, int, int), (int, int, int), int),
    samples: Seq<((int, int, int), int)>,
) -> Seq<(int, int, int)> {
    ribbon_vertices(
        sweep_points(pm_pos(pm), samples),
        sweep_widths(pm_width(pm), samples),
        pm_dir(pm),
        samples.len() as int,
    )
}

/// The vertex stream a successful build of this section emits.
pub open spec fn section_ribbon(
    pm: ((int, int, int), (int, int, int), int),
    section: Section,
) -> Seq<(int, int, int)> {
    sweep_ribbon(pm, section_samples(pm_pos(pm), section))
}

/// The pivot a successful sweep hands to the next section: the last
/// sampled position, the last travelled edge's direction (unchanged when
/// nothing was travelled) and the last declared width.
pub open spec fn sweep_after(
    pm: ((int, int, int), (int, int, int), int),
    declared_ws: Seq<int>,
    samples: Seq<((int, int, int), int)>,
) -> ((int, int, int), (int, int, int), int) {
    let pts = sweep_points(pm_pos(pm), samples);
    (
        end_point(pm_pos(pm), samples),
        if samples.len() > 0 {
            edge_dir(pts, pts.len() - 2)
        } else {
            pm_dir(pm)
        },
        if declared_ws.len() > 0 {
            declared_ws.last()
        } else {
            pm_width(pm)
        },
    )
}

pub open spec fn pivot_after(
    pm: ((int, int, int), (int, int, int), int),
    section: Section,
) -> ((int, int, int), (int, int, int), int) {
    sweep_after(pm, section_widths(section), section_samples(pm_pos(pm), section))
}

/// The positions of a vertex buffer, as integer triples.
pub open spec fn positions_model(v: Seq<Vec3>) -> Seq<(int, int, int)> {
    v.map_values(|p: Vec3| p@)
}

/// The widths of an `i64` buffer, as integers.
pub open spec fn widths_model(v: Seq<i64>) -> Seq<int> {
    v.map_values(|w: i64| w as int)
}

/// The per-section invariant the builders guarantee: the three vertex
/// buffers run in parallel, the normals are the constant placeholder and
/// the uvs are zero.
pub open spec fn trajectory_wf(t: Trajectory) -> bool {
    &&& t.normals@.len() == t.positions@.len()
    &&& t.uvs@.len() == t.positions@.len()
    &&& forall|i: int|
        0 <= i < t.normals@.len() ==> #[trigger] t.normals@[i]@ == (1int, 1int, 1int)
    &&& forall|i: int| 0 <= i < t.uvs@.len() ==> #[trigger] t.uvs@[i] == (0i64, 0i64)
}

pub proof fn lemma_straight_samples_len(start: (int, int, int), shifts: Seq<Shift>)
    ensures
        straight_samples(start, shifts).len() == shifts.len(),
    decreases shifts.len(),
{
    if shifts.len() > 0 {
        lemma_straight_samples_len(start, shifts.drop_last());
    }
}

/// A straight section samples its shifts one by one: the samples of a
/// prefix of the shifts are the same prefix of the samples.
pub proof fn lemma_straight_samples_prefix(start: (int, int, int), shifts: Seq<Shift>, j: int)
    requires
        0 <= j <= shifts.len(),
    ensures
        straight_samples(start, shifts.take(j)) == straight_samples(start, shifts).take(j),
    decreases shifts.len(),
{
    lemma_straight_samples_len(start, shifts);
    if j == shifts.len() {
        assert(shifts.take(j) =~= shifts);
        assert(straight_samples(start, shifts).take(j) =~= straight_samples(start, shifts));
    } else {
        let pre = shifts.drop_last();
        lemma_straight_samples_len(start, pre);
        lemma_straight_samples_prefix(start, pre, j);
        assert(shifts.take(j) =~= pre.take(j));
        assert(straight_samples(start, shifts).take(j) =~= straight_samples(start, pre).take(j));
    }
}

/// A straight section's sample widths are its shifts' widths, in order.
pub proof fn lemma_straight_samples_widths(start: (int, int, int), shifts: Seq<Shift>)
    ensures
        straight_samples(start, shifts).len() == shifts.len(),
        forall|i: int|
            0 <= i < shifts.len() ==> #[trigger] straight_samples(start, shifts)[i].1
                == shifts[i].0 as int,
    decreases shifts.len(),
{
    if shifts.len() > 0 {
        lemma_straight_samples_widths(start, shifts.drop_last());
        assert forall|i: int| 0 <= i < shifts.len() implies #[trigger] straight_samples(
            start,
            shifts,
        )[i].1 == shifts[i].0 as int by {
            if i < shifts.len() - 1 {
                assert(straight_samples(start, shifts)[i]
                    == straight_samples(start, shifts.drop_last())[i]);
            }
        }
    }
}

/// A turn shift's sampling is empty exactly when it starts on its
/// target; otherwise its last sample is the target itself.
pub proof fn lemma_turn_steps_last(
    pos: (int, int, int),
    target: (int, int, int),
    step: (int, int, int),
    k: nat,
)
    ensures
        turn_steps(pos, target, step, k).len() == 0 <==> pos == target,
        turn_steps(pos, target, step, k).len() > 0 ==> turn_steps(pos, target, step, k).last()
            == target,
    decreases k,
{
    if pos != target && k > 0 {
        let q = vmin(vadd(pos, step), target);
        lemma_turn_steps_last(q, target, step, (k - 1) as nat);
    }
}

/// Every sample of a turn carries one of its declared widths, so checked
/// width bounds carry over to the samples.
pub proof fn lemma_turn_samples_width_bounds(start: (int, int, int), tshifts: Seq<TurnShift>)
    requires
        forall|j: int| 0 <= j < tshifts.len() ==> 0 < #[trigger] tshifts[j].0.0,
        forall|j: int| 0 <= j < tshifts.len() ==> #[trigger] tshifts[j].0.0 <= COORD_MAX,
    ensures
        forall|i: int|
            0 <= i < turn_samples(start, tshifts).len() ==> 0 < #[trigger] turn_samples(
                start,
                tshifts,
            )[i].1 <= COORD_MAX,
    decreases tshifts.len(),
{
    if tshifts.len() > 0 {
        let pre = turn_samples(start, tshifts.drop_last());
        lemma_turn_samples_width_bounds(start, tshifts.drop_last());
        assert forall|i: int| 0 <= i < turn_samples(start, tshifts).len() implies 0
            < #[trigger] turn_samples(start, tshifts)[i].1 <= COORD_MAX by {
            if i < pre.len() {
                assert(turn_samples(start, tshifts)[i] == pre[i]);
            } else {
                assert(turn_samples(start, tshifts)[i].1 == tshifts.last().0.0 as int);
            }
        }
    }
}

/// A turn samples its shifts batch by batch: the samples of a prefix of
/// the shifts are a prefix of the samples.
pub proof fn lemma_turn_samples_prefix(start: (int, int, int), tshifts: Seq<TurnShift>, i: int)
    requires
        0 <= i <= tshifts.len(),
    ensures
        turn_samples(start, tshifts.take(i)).len() <= turn_samples(start, tshifts).len(),
        turn_samples(start, tshifts.take(i)) == turn_samples(start, tshifts).take(
            turn_samples(start, tshifts.take(i)).len() as int,
        ),
    decreases tshifts.len(),
{
    if i == tshifts.len() {
        assert(tshifts.take(i) =~= tshifts);
        assert(turn_samples(start, tshifts).take(turn_samples(start, tshifts).len() as int)
            =~= turn_samples(start, tshifts));
    } else {
        let pre = tshifts.drop_last();
        lemma_turn_samples_prefix(start, pre, i);
        assert(tshifts.take(i) =~= pre.take(i));
        let part = turn_samples(start, tshifts.take(i));
        assert(turn_samples(start, tshifts).take(part.len() as int) =~= turn_samples(
            start,
            pre,
        ).take(part.len() as int));
    }
}

/// The pivot and section models an error-free road build threads through
/// the catalog, stopping at the first failing section.
pub open spec fn road_error(
    pm: ((int, int, int), (int, int, int), int),
    sections: Seq<Section>,
) -> Option<RoadError>
    decreases sections.len(),
{
    if sections.len() == 0 {
        None
    } else {
        match section_error(pm, sections[0]) {
            Some(e) => Some(e),
            None => road_error(pivot_after(pm, sections[0]), sections.skip(1)),
        }
    }
}

/// The per-section vertex streams of the whole catalog, pivot threaded
/// from section to section.
pub open spec fn road_trajectories(
    pm: ((int, int, int), (int, int, int), int),
    sections: Seq<Section>,
) -> Seq<Seq<(int, int, int)>>
    decreases sections.len(),
{
    if sections.len() == 0 {
        Seq::empty()
    } else {
        seq![section_ribbon(pm, sections[0])] + road_trajectories(
            pivot_after(pm, sections[0]),
            sections.skip(1),
        )
    }
}

/// The machine limits of every section along the threaded sweep.
pub open spec fn road_input_ok(
    pm: ((int, int, int), (int, int, int), int),
    sections: Seq<Section>,
) -> bool
    decreases sections.len(),
{
    if sections.len() == 0 {
        true
    } else {
        &&& section_input_ok(pm, sections[0])
        &&& road_input_ok(pivot_after(pm, sections[0]), sections.skip(1))
    }
}

/// How many vertices the whole catalog emits.
pub open spec fn road_vertex_total(
    pm: ((int, int, int), (int, int, int), int),
    sections: Seq<Section>,
) -> int
    decreases sections.len(),
{
    if sections.len() == 0 {
        0
    } else {
        section_ribbon(pm, sections[0]).len() + road_vertex_total(
            pivot_after(pm, sections[0]),
            sections.skip(1),
        )
    }
}

/// The pivot every road build starts from: the origin, facing along the
/// positive x axis, at the initial road width.
pub open spec fn initial_pivot_model() -> ((int, int, int), (int, int, int), int) {
    ((0int, 0int, 0int), (1int, 0int, 0int), crate::road::INITIAL_ROAD_WIDTH as int)
}

/// The vertex streams of a trajectory list.
pub open spec fn descriptions_model(ts: Seq<Trajectory>) -> Seq<Seq<(int, int, int)>> {
    ts.map_values(|t: Trajectory| positions_model(t.positions@))
}

/// One flat vertex stream out of per-section streams, in order.
pub open spec fn flatten_chunks(chunks: Seq<Seq<(int, int, int)>>) -> Seq<(int, int, int)>
    decreases chunks.len(),
{
    if chunks.len() == 0 {
        Seq::empty()
    } else {
        flatten_chunks(chunks.drop_last()) + chunks.last()
    }
}

/// The concatenated position buffers of a trajectory list.
pub open spec fn concat_positions(ts: Seq<Trajectory>) -> Seq<Vec3>
    decreases ts.len(),
{
    if ts.len() == 0 {
        Seq::empty()
    } else {
        concat_positions(ts.drop_last()) + ts.last().positions@
    }
}

pub open spec fn concat_normals(ts: Seq<Trajectory>) -> Seq<Vec3>
    decreases ts.len(),
{
    if ts.len() == 0 {
        Seq::empty()
    } else {
        concat_normals(ts.drop_last()) + ts.last().normals@
    }
}

pub open spec fn concat_uvs(ts: Seq<Trajectory>) -> Seq<(i64, i64)>
    decreases ts.len(),
{
    if ts.len() == 0 {
        Seq::empty()
    } else {
        concat_uvs(ts.drop_last()) + ts.last().uvs@
    }
}

/// Total vertex count of a trajectory list.
pub open spec fn total_vertices(ts: Seq<Trajectory>) -> int
    decreases ts.len(),
{
    if ts.len() == 0 {
        0
    } else {
        total_vertices(ts.drop_last()) + ts.last().positions@.len()
    }
}

/// The assembled mesh's invariant: parallel buffers, placeholder
/// attributes, and the identity index stream (no vertex sharing).
pub open spec fn mesh_wf(m: crate::road::Mesh) -> bool {
    &&& m.normals@.len() == m.positions@.len()
    &&& m.uvs@.len() == m.positions@.len()
    &&& m.indices@.len() == m.positions@.len()
    &&& forall|i: int|
        0 <= i < m.normals@.len() ==> #[trigger] m.normals@[i]@ == (1int, 1int, 1int)
    &&& forall|i: int| 0 <= i < m.uvs@.len() ==> #[trigger] m.uvs@[i] == (0i64, 0i64)
    &&& forall|i: int| 0 <= i < m.indices@.len() ==> #[trigger] m.indices@[i] as int == i
}

/// Concatenation adds the vertex counts: the assembled mesh holds
/// exactly the sum of its inputs' vertices.
pub proof fn lemma_concat_len(ts: Seq<Trajectory>)
    ensures
        concat_positions(ts).len() == total_vertices(ts),
    decreases ts.len(),
{
    if ts.len() > 0 {
        lemma_concat_len(ts.drop_last());
    }
}

/// Concatenating well-formed trajectories keeps the buffers parallel and
/// the attributes constant.
pub proof fn lemma_concat_wf(ts: Seq<Trajectory>)
    requires
        forall|t: int| 0 <= t < ts.len() ==> trajectory_wf(#[trigger] ts[t]),
    ensures
        concat_normals(ts).len() == concat_positions(ts).len(),
        concat_uvs(ts).len() == concat_positions(ts).len(),
        forall|i: int|
            0 <= i < concat_normals(ts).len() ==> #[trigger] concat_normals(ts)[i]@ == (
                1int,
                1int,
                1int,
            ),
        forall|i: int|
            0 <= i < concat_uvs(ts).len() ==> #[trigger] concat_uvs(ts)[i] == (0i64, 0i64),
    decreases ts.len(),
{
    if ts.len() > 0 {
        let pre = ts.drop_last();
        assert(forall|t: int| 0 <= t < pre.len() ==> trajectory_wf(#[trigger] pre[t]));
        lemma_concat_wf(pre);
        assert(trajectory_wf(ts.last()));
        assert forall|i: int| 0 <= i < concat_normals(ts).len() implies #[trigger] concat_normals(
            ts,
        )[i]@ == (1int, 1int, 1int) by {
            if i < concat_normals(pre).len() {
                assert(concat_normals(ts)[i] == concat_normals(pre)[i]);
            } else {
                assert(concat_normals(ts)[i] == ts.last().normals@[i - concat_normals(pre).len()]);
            }
        }
        assert forall|i: int| 0 <= i < concat_uvs(ts).len() implies #[trigger] concat_uvs(ts)[i]
            == (0i64, 0i64) by {
            if i < concat_uvs(pre).len() {
                assert(concat_uvs(ts)[i] == concat_uvs(pre)[i]);
            } else {
                assert(concat_uvs(ts)[i] == ts.last().uvs@[i - concat_uvs(pre).len()]);
            }
        }
    }
}

/// The concatenated buffer's model is the flattened per-section streams.
pub proof fn lemma_concat_flatten(ts: Seq<Trajectory>)
    ensures
        positions_model(concat_positions(ts)) == flatten_chunks(descriptions_model(ts)),
    decreases ts.len(),
{
    if ts.len() > 0 {
        lemma_concat_flatten(ts.drop_last());
        assert(descriptions_model(ts).drop_last() =~= descriptions_model(ts.drop_last()));
        assert(descriptions_model(ts).last() == positions_model(ts.last().positions@));
        assert(positions_model(concat_positions(ts)) =~= positions_model(
            concat_positions(ts.drop_last()),
        ) + positions_model(ts.last().positions@));
    }
}

/// Every section's displacements, ignoring widths and step vectors: the
/// polyline the centerline extractor walks.
pub open spec fn section_disps(section: Section) -> Seq<(int, int, int)> {
    match section {
        Section::Straight(d) => d@.map_values(|s: Shift| s.1@),
        Section::Turn(t) => t@.map_values(|ts: TurnShift| ts.0.1@),
    }
}

pub open spec fn catalog_disps(sections: Seq<Section>) -> Seq<(int, int, int)>
    decreases sections.len(),
{
    if sections.len() == 0 {
        Seq::empty()
    } else {
        catalog_disps(sections.drop_last()) + section_disps(sections.last())
    }
}

/// The running positions a list of displacements accumulates, starting
/// point included.
pub open spec fn polyline_from(
    start: (int, int, int),
    disps: Seq<(int, int, int)>,
) -> Seq<(int, int, int)>
    decreases disps.len(),
{
    if disps.len() == 0 {
        seq![start]
    } else {
        let pre = polyline_from(start, disps.drop_last());
        pre.push(vadd(pre.last(), disps.last()))
    }
}

/// The debug centerline: one point per shift of the catalog, widths
/// ignored, starting from the origin.
pub open spec fn centerline(sections: Seq<Section>) -> Seq<(int, int, int)> {
    polyline_from((0int, 0int, 0int), catalog_disps(sections))
}

pub proof fn lemma_polyline_len(start: (int, int, int), disps: Seq<(int, int, int)>)
    ensures
        polyline_from(start, disps).len() == disps.len() + 1,
    decreases disps.len(),
{
    if disps.len() > 0 {
        lemma_polyline_len(start, disps.drop_last());
    }
}

/// Accumulation walks the displacements one by one: the polyline of a
/// prefix of the displacements is the same prefix of the polyline.
pub proof fn lemma_polyline_prefix(start: (int, int, int), disps: Seq<(int, int, int)>, j: int)
    requires
        0 <= j <= disps.len(),
    ensures
        polyline_from(start, disps.take(j)) == polyline_from(start, disps).take(j + 1),
    decreases disps.len(),
{
    lemma_polyline_len(start, disps);
    if j == disps.len() {
        assert(disps.take(j) =~= disps);
        assert(polyline_from(start, disps).take(j + 1) =~= polyline_from(start, disps));
    } else {
        let pre = disps.drop_last();
        lemma_polyline_len(start, pre);
        lemma_polyline_prefix(start, pre, j);
        assert(disps.take(j) =~= pre.take(j));
        assert(polyline_from(start, disps).take(j + 1) =~= polyline_from(start, pre).take(j + 1));
    }
}

/// Every component's magnitude is at most `b`.
pub open spec fn within(v: (int, int, int), b: int) -> bool {
    &&& -b <= v.0 <= b
    &&& -b <= v.1 <= b
    &&& -b <= v.2 <= b
}

/// Every displacement of a straight section stays within `l`.
pub open spec fn shifts_modest(shifts: Seq<Shift>, l: int) -> bool {
    forall|i: int| 0 <= i < shifts.len() ==> within((#[trigger] shifts[i]).1@, l)
}

/// Every displacement and step vector of a turn stays within `l`.
pub open spec fn tshifts_modest(tshifts: Seq<TurnShift>, l: int) -> bool {
    forall|i: int|
        0 <= i < tshifts.len() ==> within((#[trigger] tshifts[i]).0.1@, l) && within(
            tshifts[i].1@,
            l,
        )
}

pub open spec fn section_modest(section: Section, l: int) -> bool {
    match section {
        Section::Straight(d) => shifts_modest(d@, l),
        Section::Turn(t) => tshifts_modest(t@, l),
    }
}

/// How many shifts the whole catalog declares.
pub open spec fn total_shifts(sections: Seq<Section>) -> int
    decreases sections.len(),
{
    if sections.len() == 0 {
        0
    } else {
        total_shifts(sections.drop_last()) + num_shifts(sections.last())
    }
}

pub proof fn lemma_total_shifts_nonneg(sections: Seq<Section>)
    ensures
        total_shifts(sections) >= 0,
    decreases sections.len(),
{
    if sections.len() > 0 {
        lemma_total_shifts_nonneg(sections.drop_last());
    }
}

/// The catalog's shifts split at the front: the first section's, then
/// the rest's.
pub proof fn lemma_total_shifts_skip(sections: Seq<Section>)
    requires
        sections.len() > 0,
    ensures
        total_shifts(sections) == num_shifts(sections[0]) + total_shifts(sections.skip(1)),
    decreases sections.len(),
{
    if sections.len() == 1 {
        assert(sections.skip(1) =~= Seq::<Section>::empty());
        assert(sections.drop_last() =~= Seq::<Section>::empty());
    } else {
        let pre = sections.drop_last();
        lemma_total_shifts_skip(pre);
        assert(sections.skip(1).drop_last() =~= pre.skip(1));
        assert(sections.skip(1).last() == sections.last());
    }
}

/// A straight section's samples wander at most one displacement per
/// shift away from the start.
pub proof fn lemma_straight_samples_bounded(start: (int, int, int), shifts: Seq<Shift>, l: int, b: int)
    requires
        l >= 0,
        b >= 0,
        within(start, b),
        shifts_modest(shifts, l),
    ensures
        forall|i: int|
            0 <= i < straight_samples(start, shifts).len() ==> within(
                #[trigger] straight_samples(start, shifts)[i].0,
                b + shifts.len() * l,
            ),
    decreases shifts.len(),
{
    if shifts.len() > 0 {
        let pre = shifts.drop_last();
        lemma_straight_samples_bounded(start, pre, l, b);
        assert(shifts.len() * l == pre.len() * l + l) by (nonlinear_arith)
            requires
                shifts.len() == pre.len() + 1;
        assert forall|i: int| 0 <= i < straight_samples(start, shifts).len() implies within(
            #[trigger] straight_samples(start, shifts)[i].0,
            b + shifts.len() * l,
        ) by {
            let pres = straight_samples(start, pre);
            if i < pres.len() {
                assert(straight_samples(start, shifts)[i] == pres[i]);
            } else {
                assert(within(end_point(start, pres), b + pre.len() * l));
                assert(within(shifts.last().1@, l));
            }
        }
    }
}

/// A turn shift's sampling wanders at most one step per iteration away
/// from where it starts, and never beyond its target.
pub proof fn lemma_turn_steps_bounded(
    pos: (int, int, int),
    target: (int, int, int),
    step: (int, int, int),
    k: nat,
    l: int,
    c: int,
)
    requires
        l >= 0,
        c >= 0,
        within(pos, c),
        within(target, c),
        within(step, l),
    ensures
        forall|i: int|
            0 <= i < turn_steps(pos, target, step, k).len() ==> within(
                #[trigger] turn_steps(pos, target, step, k)[i],
                c + k * l,
            ),
    decreases k,
{
    if pos != target {
        if k == 0 {
            assert(k * l == 0) by (nonlinear_arith)
                requires
                    k == 0;
        } else {
            let q = vmin(vadd(pos, step), target);
            assert(within(q, c + l));
            lemma_turn_steps_bounded(q, target, step, (k - 1) as nat, l, c + l);
            assert(c + l + (k - 1) * l == c + k * l) by (nonlinear_arith)
                requires
                    k >= 1;
            assert forall|i: int| 0 <= i < turn_steps(pos, target, step, k).len() implies within(
                #[trigger] turn_steps(pos, target, step, k)[i],
                c + k * l,
            ) by {
                if i > 0 {
                    assert(turn_steps(pos, target, step, k)[i] == turn_steps(
                        q,
                        target,
                        step,
                        (k - 1) as nat,
                    )[i - 1]);
                } else {
                    assert(k * l >= l) by (nonlinear_arith)
                        requires
                            k >= 1,
                            l >= 0;
                }
            }
        }
    }
}

/// A turn section's samples wander at most four step lengths per shift
/// away from the start: one for the target and up to three for the
/// clamped sampling.
pub proof fn lemma_turn_samples_bounded(
    start: (int, int, int),
    tshifts: Seq<TurnShift>,
    l: int,
    b: int,
)
    requires
        l >= 0,
        b >= 0,
        within(start, b),
        tshifts_modest(tshifts, l),
    ensures
        forall|i: int|
            0 <= i < turn_samples(start, tshifts).len() ==> within(
                #[trigger] turn_samples(start, tshifts)[i].0,
                b + 4 * tshifts.len() * l,
            ),
    decreases tshifts.len(),
{
    if tshifts.len() > 0 {
        let pre = tshifts.drop_last();
        lemma_turn_samples_bounded(start, pre, l, b);
        let bp: int = b + 4 * pre.len() * l;
        assert(4 * tshifts.len() * l == bp - b + 4 * l) by (nonlinear_arith)
            requires
                tshifts.len() == pre.len() + 1,
                bp == b + 4 * pre.len() * l;
        let pres = turn_samples(start, pre);
        let p0 = end_point(start, pres);
        let t = tshifts.last();
        let target = vadd(p0, t.0.1@);
        assert(within(p0, bp));
        assert(within(target, bp + l));
        lemma_turn_steps_bounded(p0, target, t.1@, TURN_STEPS as nat, l, bp + l);
        assert forall|i: int| 0 <= i < turn_samples(start, tshifts).len() implies within(
            #[trigger] turn_samples(start, tshifts)[i].0,
            b + 4 * tshifts.len() * l,
        ) by {
            if i < pres.len() {
                assert(turn_samples(start, tshifts)[i] == pres[i]);
            } else {
                let batch = turn_steps(p0, target, t.1@, TURN_STEPS as nat);
                assert(turn_samples(start, tshifts)[i].0 == batch[i - pres.len()]);
                assert(within(batch[i - pres.len()], bp + l + (TURN_STEPS as int) * l));
            }
        }
    }
}

/// Every edge emits at most twelve vertices.
pub proof fn lemma_ribbon_len_bound(
    pts: Seq<(int, int, int)>,
    ws: Seq<int>,
    d0: (int, int, int),
    n: int,
)
    requires
        n >= 0,
    ensures
        ribbon_vertices(pts, ws, d0, n).len() <= 12 * n,
    decreases n,
{
    if n > 0 {
        lemma_ribbon_len_bound(pts, ws, d0, n - 1);
    }
}

pub proof fn lemma_turn_steps_count(
    pos: (int, int, int),
    target: (int, int, int),
    step: (int, int, int),
    k: nat,
)
    ensures
        turn_steps(pos, target, step, k).len() <= k + 1,
    decreases k,
{
    if pos != target && k > 0 {
        lemma_turn_steps_count(vmin(vadd(pos, step), target), target, step, (k - 1) as nat);
    }
}

/// A section emits at most four samples per shift.
pub proof fn lemma_section_samples_count(start: (int, int, int), section: Section)
    ensures
        section_samples(start, section).len() <= 4 * num_shifts(section),
{
    match section {
        Section::Straight(d) => {
            lemma_straight_samples_len(start, d@);
        },
        Section::Turn(t) => {
            lemma_turn_samples_count_rec(start, t@);
        },
    }
}

proof fn lemma_turn_samples_count_rec(start: (int, int, int), tshifts: Seq<TurnShift>)
    ensures
        turn_samples(start, tshifts).len() <= 4 * tshifts.len(),
    decreases tshifts.len(),
{
    if tshifts.len() > 0 {
        let pre = tshifts.drop_last();
        lemma_turn_samples_count_rec(start, pre);
        let pres = turn_samples(start, pre);
        let p0 = end_point(start, pres);
        let t = tshifts.last();
        lemma_turn_steps_count(p0, vadd(p0, t.0.1@), t.1@, TURN_STEPS as nat);
    }
}

/// A section whose displacements, steps and widths pass the guard's
/// bounds satisfies the builders' machine limits, and its outgoing pivot
/// stays within the grown bound.
pub proof fn lemma_section_within_limits(
    pm: ((int, int, int), (int, int, int), int),
    section: Section,
    l: int,
    b: int,
)
    requires
        0 <= l <= COORD_MAX,
        b >= 0,
        within(pm_pos(pm), b),
        dir_in_bounds(pm_dir(pm)),
        pm_width(pm) <= COORD_MAX,
        section_modest(section, l),
        widths_bounded(section_widths(section)),
        b + 4 * num_shifts(section) * l <= COORD_MAX,
    ensures
        section_input_ok(pm, section),
        within(pm_pos(pivot_after(pm, section)), b + 4 * num_shifts(section) * l),
        dir_in_bounds(pm_dir(pivot_after(pm, section))),
        pm_width(pivot_after(pm, section)) <= COORD_MAX,
        section_ribbon(pm, section).len() <= 48 * num_shifts(section),
{
    let samples = section_samples(pm_pos(pm), section);
    let grown: int = b + 4 * num_shifts(section) * l;
    match section {
        Section::Straight(d) => {
            lemma_straight_samples_len(pm_pos(pm), d@);
            lemma_straight_samples_bounded(pm_pos(pm), d@, l, b);
            assert(b + d@.len() * l <= grown) by (nonlinear_arith)
                requires
                    grown == b + 4 * d@.len() * l,
                    l >= 0,
                    d@.len() >= 0;
        },
        Section::Turn(t) => {
            lemma_turn_samples_bounded(pm_pos(pm), t@, l, b);
        },
    }
    assert(samples_in_bounds(samples));
    lemma_section_samples_count(pm_pos(pm), section);
    lemma_ribbon_len_bound(
        sweep_points(pm_pos(pm), samples),
        sweep_widths(pm_width(pm), samples),
        pm_dir(pm),
        samples.len() as int,
    );
    let after = pivot_after(pm, section);
    assert(within(pm_pos(after), grown));
    if samples.len() > 0 {
        let pts = sweep_points(pm_pos(pm), samples);
        assert(pts[pts.len() - 1] == samples[samples.len() - 1].0);
        if pts.len() - 2 == 0 {
            assert(pts[0] == pm_pos(pm));
        } else {
            assert(pts[pts.len() - 2] == samples[samples.len() - 2].0);
        }
        assert(dir_in_bounds(pm_dir(after)));
    }
}

/// A catalog whose sections all pass the guard's bounds satisfies the
/// road builder's machine limits end to end, with a vertex total of at
/// most forty-eight per shift.
pub proof fn lemma_road_within_limits(
    pm: ((int, int, int), (int, int, int), int),
    sections: Seq<Section>,
    l: int,
    b: int,
)
    requires
        0 <= l <= COORD_MAX,
        b >= 0,
        within(pm_pos(pm), b),
        dir_in_bounds(pm_dir(pm)),
        pm_width(pm) <= COORD_MAX,
        forall|i: int|
            0 <= i < sections.len() ==> section_modest(#[trigger] sections[i], l)
                && widths_bounded(section_widths(sections[i])),
        b + 4 * total_shifts(sections) * l <= COORD_MAX,
    ensures
        road_input_ok(pm, sections),
        road_vertex_total(pm, sections) <= 48 * total_shifts(sections),
    decreases sections.len(),
{
    lemma_total_shifts_nonneg(sections);
    if sections.len() > 0 {
        let s0 = sections[0];
        let rest = sections.skip(1);
        lemma_total_shifts_skip(sections);
        lemma_total_shifts_nonneg(rest);
        let n0 = num_shifts(s0);
        assert(4 * n0 * l <= 4 * total_shifts(sections) * l && 4 * total_shifts(sections) * l
            == 4 * n0 * l + 4 * total_shifts(rest) * l) by (nonlinear_arith)
            requires
                l >= 0,
                n0 >= 0,
                total_shifts(rest) >= 0,
                total_shifts(sections) == n0 + total_shifts(rest);
        lemma_section_within_limits(pm, s0, l, b);
        let pm2 = pivot_after(pm, s0);
        assert forall|i: int| 0 <= i < rest.len() implies section_modest(
            #[trigger] rest[i],
            l,
        ) && widths_bounded(section_widths(rest[i])) by {
            assert(rest[i] == sections[i + 1]);
        }
        lemma_road_within_limits(pm2, rest, l, b + 4 * n0 * l);
    }
}

/// A turn never overshoots: every position a turn shift samples stays
/// component-wise at or below the shift's target, whatever the step
/// vector and however many steps remain.
pub proof fn lemma_turn_no_overshoot(
    pos: (int, int, int),
    target: (int, int, int),
    step: (int, int, int),
    k: nat,
)
    ensures
        forall|i: int|
            0 <= i < turn_steps(pos, target, step, k).len() ==> {
                let q = #[trigger] turn_steps(pos, target, step, k)[i];
                q.0 <= target.0 && q.1 <= target.1 && q.2 <= target.2
            },
    decreases k,
{
    if pos != target && k > 0 {
        let q0 = vmin(vadd(pos, step), target);
        lemma_turn_no_overshoot(q0, target, step, (k - 1) as nat);
        assert forall|i: int| 0 <= i < turn_steps(pos, target, step, k).len() implies {
            let q = #[trigger] turn_steps(pos, target, step, k)[i];
            q.0 <= target.0 && q.1 <= target.1 && q.2 <= target.2
        } by {
            if i > 0 {
                assert(turn_steps(pos, target, step, k)[i] == turn_steps(
                    q0,
                    target,
                    step,
                    (k - 1) as nat,
                )[i - 1]);
            }
        }
    }
}

/// Road generation is a pure function of the catalog: two meshes whose
/// buffers satisfy the builder's contract for the same catalog are equal
/// buffer by buffer.
pub proof fn lemma_generate_road_deterministic(
    sections: Seq<Section>,
    m1: crate::road::Mesh,
    m2: crate::road::Mesh,
)
    requires
        positions_model(m1.positions@) == flatten_chunks(
            road_trajectories(initial_pivot_model(), sections),
        ),
        positions_model(m2.positions@) == flatten_chunks(
            road_trajectories(initial_pivot_model(), sections),
        ),
        mesh_wf(m1),
        mesh_wf(m2),
    ensures
        m1.positions@ == m2.positions@,
        m1.normals@ == m2.normals@,
        m1.uvs@ == m2.uvs@,
        m1.indices@ == m2.indices@,
{
    assert(m1.positions@.len() == positions_model(m1.positions@).len());
    assert(m2.positions@.len() == positions_model(m2.positions@).len());
    assert(m1.positions@.len() == m2.positions@.len());
    assert forall|i: int| 0 <= i < m1.positions@.len() implies m1.positions@[i]
        == m2.positions@[i] by {
        assert(0 <= i < m2.positions@.len());
        assert(m1.positions@[i]@ == positions_model(m1.positions@)[i]);
        assert(m2.positions@[i]@ == positions_model(m2.positions@)[i]);
    }
    assert(m1.positions@ =~= m2.positions@);
    assert forall|i: int| 0 <= i < m1.normals@.len() implies m1.normals@[i] == m2.normals@[i] by {
        assert(m1.normals@[i]@ == (1int, 1int, 1int));
        assert(m2.normals@[i]@ == (1int, 1int, 1int));
    }
    assert(m1.normals@ =~= m2.normals@);
    assert forall|i: int| 0 <= i < m1.uvs@.len() implies m1.uvs@[i] == m2.uvs@[i] by {
        assert(m1.uvs@[i] == (0i64, 0i64));
        assert(m2.uvs@[i] == (0i64, 0i64));
    }
    assert(m1.uvs@ =~= m2.uvs@);
    assert forall|i: int| 0 <= i < m1.indices@.len() implies m1.indices@[i] == m2.indices@[i] by {
        assert(m1.indices@[i] as int == i);
        assert(m2.indices@[i] as int == i);
    }
    assert(m1.indices@ =~= m2.indices@);
}

/// Every edge emits six vertices, or twelve with its collar, so a ribbon
/// is always a whole number of triangle pairs.
pub proof fn lemma_ribbon_len_six(
    pts: Seq<(int, int, int)>,
    ws: Seq<int>,
    d0: (int, int, int),
    n: int,
)
    ensures
        ribbon_vertices(pts, ws, d0, n).len() % 6 == 0,
    decreases n,
{
    if n > 0 {
        lemma_ribbon_len_six(pts, ws, d0, n - 1);
    }
}

} // verus!
