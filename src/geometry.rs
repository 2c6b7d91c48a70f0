//! Fixed-point points, distances and the per-tick movement step.
use vstd::prelude::*;

verus! {

/// Largest magnitude of a coordinate, in millimetres (a thousand kilometres).
pub const COORD_LIMIT: i64 = 1_000_000_000;

/// A point or a vector of the scene, in millimetres.
#[derive(Clone, Copy, Debug, PartialEq, Eq, Structural)]
pub struct Point3 {
    pub x: i64,
    pub y: i64,
    pub z: i64,
}

pub open spec fn coord_ok(c: i64) -> bool {
    -COORD_LIMIT <= c <= COORD_LIMIT
}

impl Point3 {
    /// Every coordinate lies within `COORD_LIMIT`.
    pub open spec fn in_bounds(&self) -> bool {
        coord_ok(self.x) && coord_ok(self.y) && coord_ok(self.z)
    }

    /// Tests whether every coordinate lies within `COORD_LIMIT`.
    pub fn in_bounds_exec(&self) -> (r: bool)
        ensures
            r == self.in_bounds(),
    {
        -COORD_LIMIT <= self.x && self.x <= COORD_LIMIT && -COORD_LIMIT <= self.y && self.y
            <= COORD_LIMIT && -COORD_LIMIT <= self.z && self.z <= COORD_LIMIT
    }

    /// The point straight below or above this one, on the ground plane.
    pub fn flattened(&self) -> (r: Point3)
        ensures
            r == (Point3 { x: self.x, y: 0, z: self.z }),
    {
        Point3 { x: self.x, y: 0, z: self.z }
    }

    pub fn new(x: i64, y: i64, z: i64) -> (r: Point3)
        ensures
            r == (Point3 { x, y, z }),
    {
        Point3 { x, y, z }
    }
}

pub open spec fn sq(a: int) -> int {
    a * a
}

/// Squared Euclidean distance between two points.
pub open spec fn dist_sq(a: Point3, b: Point3) -> int {
    sq(a.x - b.x) + sq(a.y - b.y) + sq(a.z - b.z)
}

/// Squared distance, computed exactly.
pub fn distance_squared(a: Point3, b: Point3) -> (r: u128)
    requires
        a.in_bounds(),
        b.in_bounds(),
    ensures
        r == dist_sq(a, b),
        r <= 12_000_000_000_000_000_000,
{
    let dx: i128 = a.x as i128 - b.x as i128;
    let dy: i128 = a.y as i128 - b.y as i128;
    let dz: i128 = a.z as i128 - b.z as i128;
    assert(0 <= dx * dx <= 4_000_000_000_000_000_000) by (nonlinear_arith)
        requires -2_000_000_000 <= dx <= 2_000_000_000;
    assert(0 <= dy * dy <= 4_000_000_000_000_000_000) by (nonlinear_arith)
        requires -2_000_000_000 <= dy <= 2_000_000_000;
    assert(0 <= dz * dz <= 4_000_000_000_000_000_000) by (nonlinear_arith)
        requires -2_000_000_000 <= dz <= 2_000_000_000;
    (dx * dx + dy * dy + dz * dz) as u128
}

/// `r` is the integer square root of `n`: the largest root whose square fits in `n`.
pub open spec fn is_isqrt(n: int, r: int) -> bool {
    0 <= r && r * r <= n < (r + 1) * (r + 1)
}

/// The integer square root of `n`.
pub open spec fn isqrt_spec(n: int) -> int {
    choose|r: int| is_isqrt(n, r)
}

/// At most one integer square root exists.
pub proof fn lemma_isqrt_unique(n: int, a: int, b: int)
    requires
        is_isqrt(n, a),
        is_isqrt(n, b),
    ensures
        a == b,
{
    if a < b {
        assert((a + 1) * (a + 1) <= b * b) by (nonlinear_arith)
            requires 0 <= a, a + 1 <= b;
    } else if b < a {
        assert((b + 1) * (b + 1) <= a * a) by (nonlinear_arith)
            requires 0 <= b, b + 1 <= a;
    }
}

pub proof fn lemma_sq_nonneg(a: int)
    ensures
        0 <= a * a,
{
    assert(0 <= a * a) by (nonlinear_arith);
}

/// A square no larger than `n` is no larger than the square of `n`'s root.
pub proof fn lemma_sq_le_isqrt(a: int, n: int, r: int)
    requires
        a * a <= n,
        is_isqrt(n, r),
    ensures
        a * a <= r * r,
{
    let b = if a < 0 { -a } else { a };
    assert(b * b == a * a) by (nonlinear_arith)
        requires b == a || b == -a;
    if b > r {
        assert((r + 1) * (r + 1) <= b * b) by (nonlinear_arith)
            requires 0 <= r, r + 1 <= b;
    }
    assert(b * b <= r * r) by (nonlinear_arith)
        requires 0 <= b <= r;
}

/// Every natural number has an integer square root.
pub proof fn lemma_isqrt_exists(n: int)
    requires
        0 <= n,
    ensures
        is_isqrt(n, isqrt_spec(n)),
    decreases n,
{
    if n == 0 {
        assert(is_isqrt(0, 0));
    } else {
        lemma_isqrt_exists(n - 1);
        let r = isqrt_spec(n - 1);
        if (r + 1) * (r + 1) <= n {
            assert((r + 1) * (r + 1) <= n < (r + 2) * (r + 2)) by (nonlinear_arith)
                requires 0 <= r, n - 1 < (r + 1) * (r + 1), (r + 1) * (r + 1) <= n;
            assert(is_isqrt(n, r + 1));
        } else {
            assert(is_isqrt(n, r));
        }
    }
}

/// Moving along one axis by a fraction below one stays between the ends.
pub proof fn lemma_axis_step_between(p: int, t: int, step: int, len: int)
    requires
        -COORD_LIMIT <= p <= COORD_LIMIT,
        -COORD_LIMIT <= t <= COORD_LIMIT,
        0 <= step < len <= 0x1_0000_0000,
        (p - t) * (p - t) <= len * len,
    ensures
        between(axis_step(p, t, step, len), p, t),
{
    let diff = if p <= t { t - p } else { p - t };
    assert(diff * diff == (p - t) * (p - t)) by (nonlinear_arith)
        requires diff == t - p || diff == p - t;
    lemma_axis_move_bounds(diff, step, len);
}

/// The movement step never leaves the box spanned by its two ends.
pub proof fn lemma_step_in_box(p: Point3, t: Point3, step: int)
    requires
        p.in_bounds(),
        t.in_bounds(),
        0 <= step,
    ensures
        in_box(step_toward_spec(p, t, step), p, t),
{
    let d = dist_sq(p, t);
    lemma_sq_nonneg(p.x - t.x);
    lemma_sq_nonneg(p.y - t.y);
    lemma_sq_nonneg(p.z - t.z);
    lemma_isqrt_exists(d);
    let len = isqrt_spec(d);
    if d != 0 && step < len {
        assert(sq(p.x - t.x) <= 4_000_000_000_000_000_000) by (nonlinear_arith)
            requires -2_000_000_000 <= p.x - t.x <= 2_000_000_000;
        assert(sq(p.y - t.y) <= 4_000_000_000_000_000_000) by (nonlinear_arith)
            requires -2_000_000_000 <= p.y - t.y <= 2_000_000_000;
        assert(sq(p.z - t.z) <= 4_000_000_000_000_000_000) by (nonlinear_arith)
            requires -2_000_000_000 <= p.z - t.z <= 2_000_000_000;
        assert(len <= 0x1_0000_0000) by (nonlinear_arith)
            requires len * len <= d, d <= 12_000_000_000_000_000_000, 0 <= len;
        lemma_sq_le_isqrt(p.x - t.x, d, len);
        lemma_sq_le_isqrt(p.y - t.y, d, len);
        lemma_sq_le_isqrt(p.z - t.z, d, len);
        lemma_axis_step_between(p.x as int, t.x as int, step, len);
        lemma_axis_step_between(p.y as int, t.y as int, step, len);
        lemma_axis_step_between(p.z as int, t.z as int, step, len);
    }
}

/// A point inside the box spanned by `p` and `t` is no farther from `t` than `p` is.
pub proof fn lemma_in_box_closer(q: Point3, p: Point3, t: Point3)
    requires
        in_box(q, p, t),
    ensures
        dist_sq(q, t) <= dist_sq(p, t),
{
    assert(sq(q.x - t.x) <= sq(p.x - t.x)) by (nonlinear_arith)
        requires between(q.x as int, p.x as int, t.x as int);
    assert(sq(q.y - t.y) <= sq(p.y - t.y)) by (nonlinear_arith)
        requires between(q.y as int, p.y as int, t.y as int);
    assert(sq(q.z - t.z) <= sq(p.z - t.z)) by (nonlinear_arith)
        requires between(q.z as int, p.z as int, t.z as int);
}

/// Integer square root by bisection.
pub fn isqrt(n: u128) -> (r: u64)
    requires
        n < 0x1_0000_0000_0000_0000,
    ensures
        is_isqrt(n as int, r as int),
        r == isqrt_spec(n as int),
        r < 0x1_0000_0000,
{
    let mut lo: u128 = 0;
    let mut hi: u128 = 0x1_0000_0000;
    while hi - lo > 1
        invariant
            lo < hi <= 0x1_0000_0000,
            lo * lo <= n < hi * hi,
        decreases hi - lo,
    {
        let mid: u128 = lo + (hi - lo) / 2;
        assert(mid * mid <= 0x1_0000_0000 * 0x1_0000_0000) by (nonlinear_arith)
            requires mid <= 0x1_0000_0000;
        if mid * mid <= n {
            lo = mid;
        } else {
            hi = mid;
        }
    }
    assert(is_isqrt(n as int, lo as int));
    proof {
        lemma_isqrt_unique(n as int, lo as int, isqrt_spec(n as int));
    }
    lo as u64
}

/// One coordinate after moving from `p` toward `t` by `step` out of a total
/// distance `len`, rounded toward `p`.
pub open spec fn axis_step(p: int, t: int, step: int, len: int) -> int {
    if p <= t {
        p + (t - p) * step / len
    } else {
        p - (p - t) * step / len
    }
}

/// The point reached by moving from `p` toward `t` by at most `step` millimetres:
/// nothing when `p` is already at `t`, exactly `t` when the step covers the
/// distance, and otherwise the fraction `step / len` of the way along each axis.
pub open spec fn step_toward_spec(p: Point3, t: Point3, step: int) -> Point3 {
    let len = isqrt_spec(dist_sq(p, t));
    if dist_sq(p, t) == 0 {
        p
    } else if step >= len {
        t
    } else {
        Point3 {
            x: axis_step(p.x as int, t.x as int, step, len) as i64,
            y: axis_step(p.y as int, t.y as int, step, len) as i64,
            z: axis_step(p.z as int, t.z as int, step, len) as i64,
        }
    }
}

/// `v` lies between `a` and `b`, both included.
pub open spec fn between(v: int, a: int, b: int) -> bool {
    (a <= v <= b) || (b <= v <= a)
}

/// Each coordinate of `q` lies between those of `p` and `t`.
pub open spec fn in_box(q: Point3, p: Point3, t: Point3) -> bool {
    between(q.x as int, p.x as int, t.x as int) && between(q.y as int, p.y as int, t.y as int)
        && between(q.z as int, p.z as int, t.z as int)
}

/// The distance moved along one axis, `diff * step / len`, is at most `diff`
/// and small enough for exact `u128` arithmetic.
proof fn lemma_axis_move_bounds(diff: int, step: int, len: int)
    requires
        0 <= diff <= 2_000_000_000,
        0 <= step < len <= 0x1_0000_0000,
        diff * diff <= len * len,
    ensures
        diff * step <= 2_000_000_000 * 0x1_0000_0000,
        0 <= diff * step / len <= diff,
{
    assert(diff * step <= 2_000_000_000 * 0x1_0000_0000) by (nonlinear_arith)
        requires 0 <= diff <= 2_000_000_000, 0 <= step <= 0x1_0000_0000;
    assert(diff <= len) by (nonlinear_arith)
        requires diff * diff <= len * len, 0 <= diff, 0 < len;
    assert(0 <= diff * step / len <= diff) by (nonlinear_arith)
        requires 0 <= diff <= len, 0 <= step < len;
}

fn axis_move(p: i64, t: i64, step: u64, len: u64) -> (r: i64)
    requires
        coord_ok(p),
        coord_ok(t),
        0 <= step < len <= 0x1_0000_0000,
        (p - t) * (p - t) <= len * len,
    ensures
        r == axis_step(p as int, t as int, step as int, len as int),
        between(r as int, p as int, t as int),
{
    let toward_t = p <= t;
    let diff: u128 = if toward_t {
        (t as i128 - p as i128) as u128
    } else {
        (p as i128 - t as i128) as u128
    };
    assert(diff * diff == (p - t) * (p - t)) by (nonlinear_arith)
        requires diff == t - p || diff == p - t;
    proof {
        lemma_axis_move_bounds(diff as int, step as int, len as int);
    }
    let m: u128 = diff * (step as u128) / (len as u128);
    if toward_t {
        (p as i128 + m as i128) as i64
    } else {
        (p as i128 - m as i128) as i64
    }
}

/// Moves `p` toward `t` by at most `step` millimetres, never past `t`.
/// A point already at `t` stays where it is.
pub fn step_toward(p: Point3, t: Point3, step: u64) -> (r: Point3)
    requires
        p.in_bounds(),
        t.in_bounds(),
    ensures
        r == step_toward_spec(p, t, step as int),
        in_box(r, p, t),
        r.in_bounds(),
{
    let d = distance_squared(p, t);
    if d == 0 {
        return p;
    }
    let len = isqrt(d);
    if step >= len {
        return t;
    }
    proof {
        lemma_sq_nonneg(p.x - t.x);
        lemma_sq_nonneg(p.y - t.y);
        lemma_sq_nonneg(p.z - t.z);
        lemma_sq_le_isqrt(p.x - t.x, d as int, len as int);
        lemma_sq_le_isqrt(p.y - t.y, d as int, len as int);
        lemma_sq_le_isqrt(p.z - t.z, d as int, len as int);
    }
    let x = axis_move(p.x, t.x, step, len);
    let y = axis_move(p.y, t.y, step, len);
    let z = axis_move(p.z, t.z, step, len);
    Point3 { x, y, z }
}

/// Quotient of `a` by `b`, rounded toward zero.
pub open spec fn div_trunc(a: int, b: int) -> int {
    let q = (if a < 0 { -a } else { a }) / (if b < 0 { -b } else { b });
    if (a < 0) == (b < 0) {
        q
    } else {
        -q
    }
}

/// Horizontal coordinate `c` of the point where the ray from `origin` along
/// `dir` meets the ground plane `y == 0`, rounded toward the origin's.
pub open spec fn hit_coord(o: int, d: int, origin_y: int, dir_y: int) -> int {
    o + div_trunc(d * (0 - origin_y), dir_y)
}

/// The point where the ray from `origin` along `dir` meets the ground plane.
pub open spec fn ground_hit_spec(origin: Point3, dir: Point3) -> Point3 {
    Point3 {
        x: hit_coord(origin.x as int, dir.x as int, origin.y as int, dir.y as int) as i64,
        y: 0,
        z: hit_coord(origin.z as int, dir.z as int, origin.y as int, dir.y as int) as i64,
    }
}

/// The ray is not parallel to the ground plane and meets it inside the
/// coordinate limits.
pub open spec fn ground_hit_ok(origin: Point3, dir: Point3) -> bool {
    &&& dir.y != 0
    &&& -COORD_LIMIT <= hit_coord(origin.x as int, dir.x as int, origin.y as int, dir.y as int)
        <= COORD_LIMIT
    &&& -COORD_LIMIT <= hit_coord(origin.z as int, dir.z as int, origin.y as int, dir.y as int)
        <= COORD_LIMIT
}

fn div_toward_zero(a: i128, b: i128) -> (r: i128)
    requires
        b != 0,
        -0x1_0000_0000_0000_0000_0000 <= a <= 0x1_0000_0000_0000_0000_0000,
        -0x1_0000_0000_0000_0000 <= b <= 0x1_0000_0000_0000_0000,
    ensures
        r == div_trunc(a as int, b as int),
        -0x1_0000_0000_0000_0000_0000 <= r <= 0x1_0000_0000_0000_0000_0000,
{
    let ma: u128 = if a < 0 { (0 - a) as u128 } else { a as u128 };
    let mb: u128 = if b < 0 { (0 - b) as u128 } else { b as u128 };
    let q: u128 = ma / mb;
    assert(q <= ma) by (nonlinear_arith)
        requires q == ma / mb, mb >= 1, ma >= 0;
    if (a < 0) == (b < 0) {
        q as i128
    } else {
        0 - q as i128
    }
}

/// Intersects a ray with the ground plane `y == 0`. There is no hit when the
/// ray runs parallel to the plane, or when the hit lies beyond the coordinate
/// limits.
pub fn ground_hit(origin: Point3, dir: Point3) -> (r: Option<Point3>)
    requires
        origin.in_bounds(),
        dir.in_bounds(),
    ensures
        r.is_none() <==> !ground_hit_ok(origin, dir),
        r.is_some() ==> r.unwrap() == ground_hit_spec(origin, dir) && r.unwrap().in_bounds(),
{
    if dir.y == 0 {
        return None;
    }
    let ny: i128 = 0 - origin.y as i128;
    assert(-1_000_000_000_000_000_000 <= dir.x * ny <= 1_000_000_000_000_000_000)
        by (nonlinear_arith)
        requires
            -1_000_000_000 <= dir.x <= 1_000_000_000,
            -1_000_000_000 <= ny <= 1_000_000_000,
    ;
    assert(-1_000_000_000_000_000_000 <= dir.z * ny <= 1_000_000_000_000_000_000)
        by (nonlinear_arith)
        requires
            -1_000_000_000 <= dir.z <= 1_000_000_000,
            -1_000_000_000 <= ny <= 1_000_000_000,
    ;
    let ox: i128 = div_toward_zero(dir.x as i128 * ny, dir.y as i128);
    let oz: i128 = div_toward_zero(dir.z as i128 * ny, dir.y as i128);
    let hx: i128 = origin.x as i128 + ox;
    let hz: i128 = origin.z as i128 + oz;
    if hx < -(COORD_LIMIT as i128) || hx > COORD_LIMIT as i128 || hz < -(COORD_LIMIT as i128) || hz
        > COORD_LIMIT as i128 {
        return None;
    }
    Some(Point3 { x: hx as i64, y: 0, z: hz as i64 })
}

} // verus!
