//! Integer vector geometry for the road sweep.
//!
//! Positions, directions and displacements are triples of `i64` world
//! units. The perpendicular that offsets the left and right road edges is
//! `cross(direction, Z) / |direction_xy|`, scaled by the road width; the
//! length is taken with an integer square root and the quotient truncates
//! toward zero, so the offset is exact whenever the planar length divides
//! the scaled cross product (in particular for axis-aligned directions).

use vstd::prelude::*;

verus! {

/// Largest coordinate magnitude the sweep accepts for positions, widths
/// and step vectors. Small enough that every intermediate product of the
/// perpendicular computation fits in `i64`/`u64`.
pub const COORD_MAX: i64 = 500_000_000;

/// Largest coordinate magnitude of a travel direction (a difference of
/// two in-bounds positions).
pub const DIR_MAX: i64 = 1_000_000_000;

/// A point, direction or displacement in world space. The road geometry
/// is planar: `z` rides along unchanged and never enters the
/// perpendicular computation.
#[derive(Clone, Copy, Debug, PartialEq, Eq, Structural)]
pub struct Vec3 {
    pub x: i64,
    pub y: i64,
    pub z: i64,
}

impl View for Vec3 {
    type V = (int, int, int);

    open spec fn view(&self) -> (int, int, int) {
        (self.x as int, self.y as int, self.z as int)
    }
}

impl Vec3 {
    /// The zero vector: the sweep's starting position.
    pub fn zero() -> (r: Vec3)
        ensures
            r@ == (0int, 0int, 0int),
    {
        Vec3 { x: 0, y: 0, z: 0 }
    }

    /// Component-wise sum.
    pub fn plus(self, o: Vec3) -> (r: Vec3)
        requires
            i64::MIN <= self@.0 + o@.0 <= i64::MAX,
            i64::MIN <= self@.1 + o@.1 <= i64::MAX,
            i64::MIN <= self@.2 + o@.2 <= i64::MAX,
        ensures
            r@ == vadd(self@, o@),
    {
        Vec3 { x: self.x + o.x, y: self.y + o.y, z: self.z + o.z }
    }

    /// Component-wise difference.
    pub fn minus(self, o: Vec3) -> (r: Vec3)
        requires
            i64::MIN <= self@.0 - o@.0 <= i64::MAX,
            i64::MIN <= self@.1 - o@.1 <= i64::MAX,
            i64::MIN <= self@.2 - o@.2 <= i64::MAX,
        ensures
            r@ == vsub(self@, o@),
    {
        Vec3 { x: self.x - o.x, y: self.y - o.y, z: self.z - o.z }
    }

    /// Component-wise minimum: the turn builder's overshoot clamp.
    pub fn min_with(self, o: Vec3) -> (r: Vec3)
        ensures
            r@ == vmin(self@, o@),
    {
        Vec3 {
            x: if self.x <= o.x { self.x } else { o.x },
            y: if self.y <= o.y { self.y } else { o.y },
            z: if self.z <= o.z { self.z } else { o.z },
        }
    }

    /// Whether the planar component is zero, leaving the perpendicular
    /// undefined.
    pub fn is_planar_zero(&self) -> (r: bool)
        ensures
            r == planar_zero(self@),
    {
        self.x == 0 && self.y == 0
    }
}

/// Whether two travel directions share the same unit perpendicular.
pub fn perp_matches(a: Vec3, b: Vec3) -> (r: bool)
    requires
        dir_in_bounds(a@),
        dir_in_bounds(b@),
        !planar_zero(a@),
        !planar_zero(b@),
    ensures
        r == same_normal(a@, b@),
{
    proof {
        assert(-2_000_000_000_000_000_000 <= a.x * b.y <= 2_000_000_000_000_000_000
            && -2_000_000_000_000_000_000 <= a.y * b.x <= 2_000_000_000_000_000_000
            && -2_000_000_000_000_000_000 <= a.x * b.x <= 2_000_000_000_000_000_000
            && -2_000_000_000_000_000_000 <= a.y * b.y <= 2_000_000_000_000_000_000)
            by (nonlinear_arith)
            requires
                -1_000_000_000 <= a.x <= 1_000_000_000,
                -1_000_000_000 <= a.y <= 1_000_000_000,
                -1_000_000_000 <= b.x <= 1_000_000_000,
                -1_000_000_000 <= b.y <= 1_000_000_000;
    }
    let cross: i64 = a.x * b.y - a.y * b.x;
    let dot: i64 = a.x * b.x + a.y * b.y;
    cross == 0 && dot > 0
}

pub open spec fn vadd(a: (int, int, int), b: (int, int, int)) -> (int, int, int) {
    (a.0 + b.0, a.1 + b.1, a.2 + b.2)
}

pub open spec fn vsub(a: (int, int, int), b: (int, int, int)) -> (int, int, int) {
    (a.0 - b.0, a.1 - b.1, a.2 - b.2)
}

/// Component-wise minimum: the clamp a turn applies so a sampling step
/// never overshoots its target.
pub open spec fn vmin(a: (int, int, int), b: (int, int, int)) -> (int, int, int) {
    (
        if a.0 <= b.0 { a.0 } else { b.0 },
        if a.1 <= b.1 { a.1 } else { b.1 },
        if a.2 <= b.2 { a.2 } else { b.2 },
    )
}

pub open spec fn in_bounds(v: (int, int, int)) -> bool {
    &&& -COORD_MAX <= v.0 <= COORD_MAX
    &&& -COORD_MAX <= v.1 <= COORD_MAX
    &&& -COORD_MAX <= v.2 <= COORD_MAX
}

pub open spec fn dir_in_bounds(v: (int, int, int)) -> bool {
    &&& -DIR_MAX <= v.0 <= DIR_MAX
    &&& -DIR_MAX <= v.1 <= DIR_MAX
    &&& -DIR_MAX <= v.2 <= DIR_MAX
}

/// A direction with no planar component has no defined perpendicular:
/// normalizing it would divide by zero.
pub open spec fn planar_zero(v: (int, int, int)) -> bool {
    v.0 == 0 && v.1 == 0
}

/// Squared length of the planar component.
pub open spec fn norm_sq(v: (int, int, int)) -> int {
    v.0 * v.0 + v.1 * v.1
}

/// z component of the cross product of two planar directions.
pub open spec fn cross_z(a: (int, int, int), b: (int, int, int)) -> int {
    a.0 * b.1 - a.1 * b.0
}

/// Planar dot product.
pub open spec fn dot_xy(a: (int, int, int), b: (int, int, int)) -> int {
    a.0 * b.0 + a.1 * b.1
}

/// Two nondegenerate directions have the same unit perpendicular exactly
/// when they are positive multiples of each other: parallel (zero cross
/// product) and pointing the same way (positive dot product).
pub open spec fn same_normal(a: (int, int, int), b: (int, int, int)) -> bool {
    &&& !planar_zero(a)
    &&& !planar_zero(b)
    &&& cross_z(a, b) == 0
    &&& dot_xy(a, b) > 0
}

/// Floor of the square root.
pub open spec fn sqrt_floor(n: nat) -> nat
    decreases n,
{
    if n == 0 {
        0
    } else {
        let r = sqrt_floor((n - 1) as nat);
        if (r + 1) * (r + 1) <= n {
            r + 1
        } else {
            r
        }
    }
}

pub proof fn lemma_sqrt_floor_bounds(n: nat)
    ensures
        sqrt_floor(n) * sqrt_floor(n) <= n,
        n < (sqrt_floor(n) + 1) * (sqrt_floor(n) + 1),
    decreases n,
{
    if n == 0 {
        assert(sqrt_floor(0nat) == 0);
        assert((0nat + 1) * (0nat + 1) == 1) by (nonlinear_arith);
    } else {
        lemma_sqrt_floor_bounds((n - 1) as nat);
        let r = sqrt_floor((n - 1) as nat);
        if (r + 1) * (r + 1) <= n {
            assert(n < (r + 2) * (r + 2)) by (nonlinear_arith)
                requires
                    n <= (r + 1) * (r + 1);
        }
    }
}

/// The bracketing property determines the square root uniquely.
pub proof fn lemma_sqrt_floor_unique(n: nat, r: nat)
    requires
        r * r <= n,
        n < (r + 1) * (r + 1),
    ensures
        r == sqrt_floor(n),
{
    let s = sqrt_floor(n);
    lemma_sqrt_floor_bounds(n);
    assert(r == s) by (nonlinear_arith)
        requires
            r * r <= n,
            n < (r + 1) * (r + 1),
            s * s <= n,
            n < (s + 1) * (s + 1);
}

pub proof fn lemma_sqrt_floor_monotonic(a: nat, b: nat)
    requires
        a <= b,
    ensures
        sqrt_floor(a) <= sqrt_floor(b),
{
    lemma_sqrt_floor_bounds(a);
    lemma_sqrt_floor_bounds(b);
    assert(sqrt_floor(a) <= sqrt_floor(b)) by (nonlinear_arith)
        requires
            sqrt_floor(a) * sqrt_floor(a) <= a,
            b < (sqrt_floor(b) + 1) * (sqrt_floor(b) + 1),
            a <= b;
}

pub proof fn lemma_sqrt_floor_square(m: nat)
    ensures
        sqrt_floor(m * m) == m,
{
    assert(m * m < (m + 1) * (m + 1)) by (nonlinear_arith);
    lemma_sqrt_floor_unique(m * m, m);
}

/// Floor of the square root, by bisection.
pub fn isqrt(n: u64) -> (r: u64)
    ensures
        r == sqrt_floor(n as nat),
{
    if n == 0 {
        proof {
            assert(sqrt_floor(0nat) == 0);
        }
        return 0;
    }
    let mut lo: u64 = 0;
    let mut hi: u64 = 4_294_967_296;
    proof {
        assert((4_294_967_296int) * 4_294_967_296 > u64::MAX) by (nonlinear_arith);
    }
    while lo + 1 < hi
        invariant
            lo < hi <= 4_294_967_296,
            lo * lo <= n,
            n < hi * hi,
        decreases hi - lo,
    {
        let mid: u64 = lo + (hi - lo) / 2;
        assert(lo < mid < hi);
        assert(mid * mid <= u64::MAX) by (nonlinear_arith)
            requires
                mid < 4_294_967_296;
        if mid * mid <= n {
            lo = mid;
        } else {
            hi = mid;
        }
    }
    proof {
        lemma_sqrt_floor_unique(n as nat, lo as nat);
    }
    lo
}

/// Division truncated toward zero (the quotient a two's-complement
/// machine computes), for a positive divisor.
pub open spec fn tdiv(a: int, b: int) -> int {
    if a >= 0 {
        a / b
    } else {
        -((-a) / b)
    }
}

/// The perpendicular of `d` in the ground plane, scaled to length `w`:
/// `cross(d, Z) * w / |d_xy|`, each component truncated toward zero.
pub open spec fn perp_scaled(d: (int, int, int), w: int) -> (int, int, int) {
    let m = sqrt_floor(norm_sq(d) as nat) as int;
    (tdiv(d.1 * w, m), tdiv(-d.0 * w, m), 0)
}

/// `a * w / m` truncated toward zero, for a numerator component `a` that
/// the divisor `m` dominates in magnitude, so the quotient never exceeds
/// the scale `w`.
fn scaled_div(a: i64, w: i64, m: u64) -> (r: i64)
    requires
        -DIR_MAX <= a <= DIR_MAX,
        0 < w <= COORD_MAX,
        1 <= m <= 1_500_000_000,
        a <= m,
        -a <= m,
    ensures
        r == tdiv(a * w, m as int),
        -w <= r <= w,
{
    let mag: u64 = if a >= 0 {
        a as u64
    } else {
        (-a) as u64
    };
    assert(mag <= m);
    assert(mag * (w as u64) <= m * (w as u64) <= u64::MAX) by (nonlinear_arith)
        requires
            mag <= m <= 1_500_000_000,
            0 < w <= 500_000_000;
    let num: u64 = mag * (w as u64);
    let q: u64 = num / m;
    proof {
        vstd::arithmetic::div_mod::lemma_div_is_ordered(num as int, (m * (w as u64)) as int, m as int);
        vstd::arithmetic::div_mod::lemma_div_multiples_vanish(w as int, m as int);
        assert(q <= w);
        if a >= 0 {
            assert(a * w >= 0 && num == a * w) by (nonlinear_arith)
                requires
                    a >= 0,
                    w > 0,
                    num == a * w;
        } else {
            assert(a * w < 0 && num == -(a * w)) by (nonlinear_arith)
                requires
                    a < 0,
                    w > 0,
                    num == (-a) * w;
        }
    }
    if a >= 0 {
        q as i64
    } else {
        -(q as i64)
    }
}

/// The left-edge offset of the road at travel direction `d` and lateral
/// width `w`: the unit perpendicular `normalize(cross(d, Z))` scaled by
/// `w`, computed entirely in integers. Each component's magnitude is at
/// most `w`.
pub fn perp_offset(d: Vec3, w: i64) -> (r: Vec3)
    requires
        dir_in_bounds(d@),
        !planar_zero(d@),
        0 < w <= COORD_MAX,
    ensures
        r@ == perp_scaled(d@, w as int),
        -w <= r.x <= w,
        -w <= r.y <= w,
        r.z == 0,
{
    proof {
        assert(d.x * d.x <= 1_000_000_000_000_000_000 && d.x * d.x >= 0
            && d.y * d.y <= 1_000_000_000_000_000_000 && d.y * d.y >= 0
            && (d.x != 0 ==> d.x * d.x >= 1) && (d.y != 0 ==> d.y * d.y >= 1)) by (nonlinear_arith)
            requires
                -1_000_000_000 <= d.x <= 1_000_000_000,
                -1_000_000_000 <= d.y <= 1_000_000_000;
    }
    let nsq: i64 = d.x * d.x + d.y * d.y;
    let m: u64 = isqrt(nsq as u64);
    proof {
        lemma_sqrt_floor_bounds(nsq as nat);
        assert(nsq >= 1);
        assert(m >= 1 && m <= 1_500_000_000) by (nonlinear_arith)
            requires
                1 <= nsq <= 2_000_000_000_000_000_000,
                m * m <= nsq,
                nsq < (m + 1) * (m + 1);
        let ya: nat = (if d.y >= 0 { d.y as int } else { -(d.y as int) }) as nat;
        let xa: nat = (if d.x >= 0 { d.x as int } else { -(d.x as int) }) as nat;
        assert(ya * ya == d.y * d.y && xa * xa == d.x * d.x) by (nonlinear_arith)
            requires
                ya == (if d.y >= 0 { d.y as int } else { -(d.y as int) }),
                xa == (if d.x >= 0 { d.x as int } else { -(d.x as int) });
        lemma_sqrt_floor_square(ya);
        lemma_sqrt_floor_square(xa);
        lemma_sqrt_floor_monotonic(ya * ya, nsq as nat);
        lemma_sqrt_floor_monotonic(xa * xa, nsq as nat);
        assert(d.y <= m && -d.y <= m && d.x <= m && -d.x <= m);
    }
    let off_x: i64 = scaled_div(d.y, w, m);
    let off_y: i64 = scaled_div(-d.x, w, m);
    proof {
        assert((-(d.x as int)) * (w as int) == -(d.x as int * w as int)) by (nonlinear_arith);
    }
    Vec3 { x: off_x, y: off_y, z: 0 }
}

} // verus!
