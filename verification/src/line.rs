//! Debug line geometry: turning polylines and meshes into lists of
//! segments for an overlay renderer, and scattering segment endpoints
//! into a growing vertex buffer.

use vstd::prelude::*;

use crate::geometry::{in_bounds, perp_offset, perp_scaled, planar_zero, vadd, vsub, Vec3};
use crate::road::{placeholder_attributes, Mesh, RoadError};

verus! {

/// One line segment, from its first point to its second.
#[derive(Clone, Copy, Debug, PartialEq, Eq, Structural)]
pub struct Point(pub Vec3, pub Vec3);

/// Marker for the engine plugin that owns the debug line pass. The
/// engine-facing application crate implements the plugin trait on its
/// own copy of this type.
pub struct LinePlugin;

/// How far the debug rays drawn by `line_to_normals` reach.
pub const NORMAL_RAY_LEN: i64 = 40;

/// Pairs every polyline point with its predecessor, so a polyline of
/// `n` points yields `n` segments; the first segment degenerates to the
/// first point paired with itself.
pub fn line_to_points(line: &Vec<Vec3>) -> (r: Vec<Point>)
    requires
        line@.len() >= 1,
    ensures
        r@.len() == line@.len(),
        r@[0] == Point(line@[0], line@[0]),
        forall|i: int| 1 <= i < line@.len() ==> #[trigger] r@[i] == Point(line@[i - 1], line@[i]),
{
    let mut points: Vec<Point> = Vec::new();
    let mut current: Vec3 = line[0];
    let mut i: usize = 0;
    while i < line.len()
        invariant
            line@.len() >= 1,
            i <= line@.len(),
            points@.len() == i,
            current == (if i == 0 {
                line@[0]
            } else {
                line@[i - 1]
            }),
            i >= 1 ==> points@[0] == Point(line@[0], line@[0]),
            forall|t: int| 1 <= t < i ==> #[trigger] points@[t] == Point(line@[t - 1], line@[t]),
        decreases line@.len() - i,
    {
        points.push(Point(current, line[i]));
        current = line[i];
        i = i + 1;
    }
    points
}

/// For every segment, the two rays showing its perpendicular: one from
/// each endpoint to the point `NORMAL_RAY_LEN` along the segment's
/// perpendicular. Fails exactly when some segment has no planar
/// component, leaving its perpendicular undefined.
pub fn line_to_normals(line: &Vec<Point>) -> (r: Result<Vec<Point>, RoadError>)
    requires
        forall|i: int| 0 <= i < line@.len() ==> in_bounds((#[trigger] line@[i]).0@),
        forall|i: int| 0 <= i < line@.len() ==> in_bounds((#[trigger] line@[i]).1@),
    ensures
        match r {
            Ok(v) => {
                &&& forall|i: int|
                    0 <= i < line@.len() ==> !planar_zero(
                        vsub((#[trigger] line@[i]).1@, line@[i].0@),
                    )
                &&& v@.len() == 2 * line@.len()
                &&& forall|i: int|
                    0 <= i < line@.len() ==> {
                        let start = line@[i].0;
                        let stop = line@[i].1;
                        let off = perp_scaled(vsub(stop@, start@), NORMAL_RAY_LEN as int);
                        &&& (#[trigger] v@[2 * i]).0 == stop
                        &&& v@[2 * i].1@ == vadd(off, stop@)
                        &&& v@[2 * i + 1].0 == start
                        &&& v@[2 * i + 1].1@ == vadd(off, start@)
                    }
            },
            Err(e) => {
                &&& e == RoadError::DegenerateSegment
                &&& exists|i: int|
                    0 <= i < line@.len() && planar_zero(
                        vsub((#[trigger] line@[i]).1@, line@[i].0@),
                    )
            },
        },
{
    let mut out: Vec<Point> = Vec::new();
    let n: usize = line.len();
    let mut i: usize = 0;
    while i < n
        invariant
            n == line@.len(),
            i <= n,
            forall|t: int| 0 <= t < line@.len() ==> in_bounds((#[trigger] line@[t]).0@),
            forall|t: int| 0 <= t < line@.len() ==> in_bounds((#[trigger] line@[t]).1@),
            out@.len() == 2 * i,
            forall|t: int|
                0 <= t < i ==> !planar_zero(vsub((#[trigger] line@[t]).1@, line@[t].0@)),
            forall|t: int|
                0 <= t < i ==> {
                    let start = line@[t].0;
                    let stop = line@[t].1;
                    let off = perp_scaled(vsub(stop@, start@), NORMAL_RAY_LEN as int);
                    &&& (#[trigger] out@[2 * t]).0 == stop
                    &&& out@[2 * t].1@ == vadd(off, stop@)
                    &&& out@[2 * t + 1].0 == start
                    &&& out@[2 * t + 1].1@ == vadd(off, start@)
                },
        decreases n - i,
    {
        let start = line[i].0;
        let stop = line[i].1;
        let d = stop.minus(start);
        if d.is_planar_zero() {
            return Err(RoadError::DegenerateSegment);
        }
        let off = perp_offset(d, NORMAL_RAY_LEN);
        out.push(Point(stop, off.plus(stop)));
        out.push(Point(start, off.plus(start)));
        i = i + 1;
    }
    Ok(out)
}

/// The edges of an indexed triangle mesh: each index triple becomes the
/// triangle's three boundary segments, in order.
pub fn mesh_edges(mesh: &Mesh) -> (r: Vec<Point>)
    requires
        mesh.indices@.len() % 3 == 0,
        forall|i: int|
            0 <= i < mesh.indices@.len() ==> (#[trigger] mesh.indices@[i]) < mesh.positions@.len(),
    ensures
        r@.len() == mesh.indices@.len(),
        forall|t: int|
            0 <= t < mesh.indices@.len() / 3 ==> {
                let a = mesh.positions@[mesh.indices@[3 * t] as int];
                let b = mesh.positions@[mesh.indices@[3 * t + 1] as int];
                let c = mesh.positions@[mesh.indices@[3 * t + 2] as int];
                &&& (#[trigger] r@[3 * t]) == Point(a, b)
                &&& r@[3 * t + 1] == Point(b, c)
                &&& r@[3 * t + 2] == Point(c, a)
            },
{
    let mut points: Vec<Point> = Vec::new();
    let n: usize = mesh.indices.len();
    let mut i: usize = 0;
    while i < n
        invariant
            n == mesh.indices@.len(),
            n % 3 == 0,
            i % 3 == 0,
            i <= n,
            forall|t: int|
                0 <= t < mesh.indices@.len() ==> (#[trigger] mesh.indices@[t])
                    < mesh.positions@.len(),
            points@.len() == i,
            forall|t: int|
                0 <= t < i / 3 ==> {
                    let a = mesh.positions@[mesh.indices@[3 * t] as int];
                    let b = mesh.positions@[mesh.indices@[3 * t + 1] as int];
                    let c = mesh.positions@[mesh.indices@[3 * t + 2] as int];
                    &&& (#[trigger] points@[3 * t]) == Point(a, b)
                    &&& points@[3 * t + 1] == Point(b, c)
                    &&& points@[3 * t + 2] == Point(c, a)
                },
        decreases n - i,
    {
        let ia = mesh.indices[i] as usize;
        let ib = mesh.indices[i + 1] as usize;
        let ic = mesh.indices[i + 2] as usize;
        let a = mesh.positions[ia];
        let b = mesh.positions[ib];
        let c = mesh.positions[ic];
        points.push(Point(a, b));
        points.push(Point(b, c));
        points.push(Point(c, a));
        i = i + 3;
        proof {
            assert forall|t: int|
                0 <= t < i / 3 implies {
                let pa = mesh.positions@[mesh.indices@[3 * t] as int];
                let pb = mesh.positions@[mesh.indices@[3 * t + 1] as int];
                let pc = mesh.positions@[mesh.indices@[3 * t + 2] as int];
                &&& (#[trigger] points@[3 * t]) == Point(pa, pb)
                &&& points@[3 * t + 1] == Point(pb, pc)
                &&& points@[3 * t + 2] == Point(pc, pa)
            } by {
                if t == i / 3 - 1 {
                    assert(3 * t == i - 3);
                }
            }
        }
    }
    points
}

/// Builds a line mesh out of segment pairs: every segment contributes
/// its two endpoints with `z` zeroed, with placeholder attributes and
/// the sequential index stream.
pub fn create_line(parts: &Vec<Point>) -> (r: Mesh)
    requires
        2 * parts@.len() <= u32::MAX,
    ensures
        r.positions@.len() == 2 * parts@.len(),
        forall|i: int|
            0 <= i < parts@.len() ==> {
                &&& (#[trigger] r.positions@[2 * i])@ == (
                    parts@[i].0@.0,
                    parts@[i].0@.1,
                    0int,
                )
                &&& r.positions@[2 * i + 1]@ == (parts@[i].1@.0, parts@[i].1@.1, 0int)
            },
        r.normals@.len() == r.positions@.len(),
        r.uvs@.len() == r.positions@.len(),
        r.indices@.len() == r.positions@.len(),
        forall|i: int| 0 <= i < r.indices@.len() ==> #[trigger] r.indices@[i] as int == i,
{
    let mut positions: Vec<Vec3> = Vec::new();
    let n: usize = parts.len();
    let mut i: usize = 0;
    while i < n
        invariant
            n == parts@.len(),
            i <= n,
            positions@.len() == 2 * i,
            forall|t: int|
                0 <= t < i ==> {
                    &&& (#[trigger] positions@[2 * t])@ == (
                        parts@[t].0@.0,
                        parts@[t].0@.1,
                        0int,
                    )
                    &&& positions@[2 * t + 1]@ == (parts@[t].1@.0, parts@[t].1@.1, 0int)
                },
        decreases n - i,
    {
        let p = parts[i];
        positions.push(Vec3 { x: p.0.x, y: p.0.y, z: 0 });
        positions.push(Vec3 { x: p.1.x, y: p.1.y, z: 0 });
        i = i + 1;
    }
    let total: usize = positions.len();
    let (normals, uvs) = placeholder_attributes(total);
    let mut indices: Vec<u32> = Vec::new();
    let mut c: usize = 0;
    while c < total
        invariant
            c <= total,
            total <= u32::MAX,
            indices@.len() == c,
            forall|t: int| 0 <= t < c ==> #[trigger] indices@[t] as int == t,
        decreases total - c,
    {
        indices.push(c as u32);
        c = c + 1;
    }
    Mesh { positions, normals, uvs, indices }
}

/// Writes a point into a growing vertex buffer: in place when the slot
/// already exists, appended at the end otherwise.
pub open spec fn place_one(s: Seq<Vec3>, p: Vec3, idx: int) -> Seq<Vec3> {
    if idx < s.len() {
        s.update(idx, p)
    } else {
        s.push(p)
    }
}

/// Where a run of segments lands in the buffer: segment `i` writes its
/// two endpoints at slots `base + 2i` and `base + 2i + 1`.
pub open spec fn place_segments(s: Seq<Vec3>, pts: Seq<Point>, base: int) -> Seq<Vec3>
    decreases pts.len(),
{
    if pts.len() == 0 {
        s
    } else {
        let s2 = place_one(place_one(s, pts[0].0, base), pts[0].1, base + 1);
        place_segments(s2, pts.skip(1), base + 2)
    }
}

/// Writes one point at `index`, overwriting the slot when it exists and
/// appending at the end otherwise.
pub fn place_point(positions: &mut Vec<Vec3>, point: Vec3, index: usize)
    ensures
        final(positions)@ == place_one(old(positions)@, point, index as int),
{
    if index < positions.len() {
        positions.set(index, point);
    } else {
        positions.push(point);
    }
}

/// Scatters a run of segments into the buffer starting at slot
/// `point_counter`, two slots per segment, overwriting where slots exist
/// and appending where they do not.
pub fn place_line(positions: &mut Vec<Vec3>, line: &Vec<Point>, point_counter: usize)
    requires
        point_counter + 2 * line@.len() <= usize::MAX,
    ensures
        final(positions)@ == place_segments(old(positions)@, line@, point_counter as int),
{
    let n: usize = line.len();
    let mut i: usize = 0;
    proof {
        assert(line@.skip(0) =~= line@);
    }
    while i < n
        invariant
            n == line@.len(),
            i <= n,
            point_counter + 2 * n <= usize::MAX,
            place_segments(old(positions)@, line@, point_counter as int) == place_segments(
                positions@,
                line@.skip(i as int),
                point_counter + 2 * i,
            ),
        decreases n - i,
    {
        let ghost rest = line@.skip(i as int);
        proof {
            assert(rest[0] == line@[i as int]);
            assert(rest.skip(1) =~= line@.skip(i as int + 1));
        }
        let seg = line[i];
        place_point(positions, seg.0, point_counter + 2 * i);
        place_point(positions, seg.1, point_counter + 2 * i + 1);
        i = i + 1;
    }
    proof {
        assert(line@.skip(n as int) =~= Seq::<Point>::empty());
    }
}

} // verus!
