use vstd::prelude::*;
use crate::geometry::{ceil_sqrt, coord_ok, dist2, distance_squared, isqrt_ceil, Vec3};

verus! {

/// Division that rounds toward zero.
pub open spec fn tdiv(a: int, d: int) -> int {
    if a >= 0 { a / d } else { -((-a) / d) }
}

/// The share `t / d` of the offset `a`, rounded toward zero.
pub open spec fn scaled_offset(a: int, t: int, d: int) -> int {
    tdiv(a * t, d)
}

/// One step of the lazy-brush cursor `c` toward the raw position `raw`.
///
/// While `raw` lies within `t` of the cursor, the cursor stays. Beyond that it
/// moves `t` along the direction to `raw` (each axis rounded toward zero, the
/// length measured by the square root rounded up).
pub open spec fn smooth_step(c: Vec3, raw: Vec3, t: int) -> Vec3 {
    let r2 = dist2(c, raw);
    if r2 <= t * t {
        c
    } else {
        let d = ceil_sqrt(r2 as nat) as int;
        Vec3 {
            x: (c.x + scaled_offset(raw.x - c.x, t, d)) as i64,
            y: (c.y + scaled_offset(raw.y - c.y, t, d)) as i64,
            z: (c.z + scaled_offset(raw.z - c.z, t, d)) as i64,
        }
    }
}

proof fn lemma_scaled_bounds(a: int, t: int, d: int)
    requires
        0 <= t <= d,
        d > 0,
    ensures
        a >= 0 ==> 0 <= scaled_offset(a, t, d) <= a,
        a < 0 ==> a <= scaled_offset(a, t, d) <= 0,
{
    let m = if a >= 0 { a } else { -a };
    assert(0 <= m * t <= m * d) by (nonlinear_arith)
        requires 0 <= t <= d, m >= 0;
    vstd::arithmetic::div_mod::lemma_div_is_ordered(m * t, m * d, d);
    vstd::arithmetic::div_mod::lemma_div_multiples_vanish(m, d);
    assert(m * d == d * m) by (nonlinear_arith);
    vstd::arithmetic::div_mod::lemma_div_pos_is_pos(m * t, d);
    if a < 0 {
        assert(a * t == -(m * t)) by (nonlinear_arith)
            requires m == -a;
    }
}

/// `tdiv(a * t, d)` for an offset within two coordinate limits.
fn scaled(a: i64, t: u64, d: u64) -> (r: i64)
    requires
        -2_000_000_000 <= a <= 2_000_000_000,
        t <= d,
        t <= 1_000_000_000,
        d > 0,
    ensures
        r == scaled_offset(a as int, t as int, d as int),
{
    proof {
        lemma_scaled_bounds(a as int, t as int, d as int);
    }
    if a >= 0 {
        assert((a as int) * (t as int) <= 2_000_000_000_000_000_000) by (nonlinear_arith)
            requires 0 <= a <= 2_000_000_000, t <= 1_000_000_000;
        ((a as u64) * t / d) as i64
    } else {
        let m: u64 = (-a) as u64;
        assert((m as int) * (t as int) <= 2_000_000_000_000_000_000) by (nonlinear_arith)
            requires m <= 2_000_000_000, t <= 1_000_000_000;
        assert((a as int) * (t as int) == -((m as int) * (t as int))) by (nonlinear_arith)
            requires m == -a;
        -((m * t / d) as i64)
    }
}

/// The lazy-brush step keeps a cursor in range, between its old position and `raw`.
pub proof fn lemma_smooth_step_wf(c: Vec3, raw: Vec3, t: int)
    requires
        c.wf(),
        raw.wf(),
        t >= 0,
    ensures
        smooth_step(c, raw, t).wf(),
{
    let r2 = dist2(c, raw);
    if r2 > t * t {
        let d = ceil_sqrt(r2 as nat) as int;
        lemma_ceil_sqrt_exceeds(r2, t);
        lemma_scaled_bounds(raw.x - c.x, t, d);
        lemma_scaled_bounds(raw.y - c.y, t, d);
        lemma_scaled_bounds(raw.z - c.z, t, d);
    }
}

/// Where `n` exceeds `t * t`, its square root rounded up exceeds `t`.
proof fn lemma_ceil_sqrt_exceeds(n: int, t: int)
    requires
        n > t * t,
        t >= 0,
    ensures
        ceil_sqrt(n as nat) > t,
        ceil_sqrt(n as nat) * ceil_sqrt(n as nat) >= n,
{
    crate::geometry::lemma_isqrt_correct(n as nat);
    let f = crate::geometry::isqrt(n as nat) as int;
    let d = ceil_sqrt(n as nat) as int;
    assert(d * d >= n) by (nonlinear_arith)
        requires
            f * f <= n < (f + 1) * (f + 1),
            d == f || d == f + 1,
            f * f == n || d == f + 1;
    if d <= t {
        assert(d * d <= t * t) by (nonlinear_arith)
            requires 0 <= d <= t;
    }
}

/// Moves the lazy-brush cursor `c` one step toward `raw`.
pub fn smooth(c: Vec3, raw: Vec3, t: u64) -> (r: Vec3)
    requires
        c.wf(),
        raw.wf(),
        t <= 1_000_000_000,
    ensures
        r == smooth_step(c, raw, t as int),
        r.wf(),
{
    proof {
        lemma_smooth_step_wf(c, raw, t as int);
    }
    let r2 = distance_squared(c, raw);
    assert((t as int) * (t as int) <= 1_000_000_000_000_000_000) by (nonlinear_arith)
        requires t <= 1_000_000_000;
    if (r2 as u128) <= (t as u128) * (t as u128) {
        c
    } else {
        proof {
            lemma_ceil_sqrt_exceeds(r2 as int, t as int);
        }
        let d = isqrt_ceil(r2);
        let sx = scaled(raw.x - c.x, t, d);
        let sy = scaled(raw.y - c.y, t, d);
        let sz = scaled(raw.z - c.z, t, d);
        proof {
            lemma_scaled_bounds(raw.x - c.x, t as int, d as int);
            lemma_scaled_bounds(raw.y - c.y, t as int, d as int);
            lemma_scaled_bounds(raw.z - c.z, t as int, d as int);
        }
        Vec3 { x: c.x + sx, y: c.y + sy, z: c.z + sz }
    }
}

proof fn lemma_sq_flip(a: int, b: int)
    ensures
        (a - b) * (a - b) == (b - a) * (b - a),
{
    assert((a - b) * (a - b) == (b - a) * (b - a)) by (nonlinear_arith);
}

proof fn lemma_axis_step(a: int, t: int, d: int)
    requires
        0 <= t <= d,
        d > 0,
    ensures
        scaled_offset(a, t, d) * scaled_offset(a, t, d) * (d * d) <= a * a * (t * t),
        (a - scaled_offset(a, t, d)) * (a - scaled_offset(a, t, d)) <= a * a,
        (if a >= 0 { a } else { -a }) * t >= d ==> (a - scaled_offset(a, t, d)) * (a - scaled_offset(a, t, d)) < a * a,
{
    lemma_scaled_bounds(a, t, d);
    let m = if a >= 0 { a } else { -a };
    let q = (m * t) / d;
    assert(m * t >= 0) by (nonlinear_arith)
        requires m >= 0, t >= 0;
    vstd::arithmetic::div_mod::lemma_fundamental_div_mod(m * t, d);
    vstd::arithmetic::div_mod::lemma_mod_bound(m * t, d);
    vstd::arithmetic::div_mod::lemma_div_pos_is_pos(m * t, d);
    assert(q * d <= m * t);
    if a < 0 {
        assert(a * t == -(m * t)) by (nonlinear_arith)
            requires m == -a;
    }
    let s = scaled_offset(a, t, d);
    if a >= 0 {
        assert(s == q);
    } else if m * t == 0 {
        assert(a * t == 0);
        assert(s == 0 && q == 0);
    } else {
        assert(s == -q);
    }
    assert(s * s == q * q) by (nonlinear_arith)
        requires s == q || s == -q;
    assert(q * q * (d * d) <= m * m * (t * t)) by (nonlinear_arith)
        requires 0 <= q * d <= m * t, q >= 0, d > 0;
    assert(a * a == m * m) by (nonlinear_arith)
        requires m == a || m == -a;
    assert((a - s) * (a - s) <= a * a) by (nonlinear_arith)
        requires (a >= 0 && 0 <= s <= a) || (a < 0 && a <= s <= 0);
    if m * t >= d {
        vstd::arithmetic::div_mod::lemma_div_is_ordered(d, m * t, d);
        vstd::arithmetic::div_mod::lemma_div_by_self(d);
        assert(q >= 1);
        assert((a - s) * (a - s) < a * a) by (nonlinear_arith)
            requires (a >= 0 && 1 <= s <= a) || (a < 0 && a <= s <= -1);
    }
}

/// One lazy-brush step moves the cursor by at most the threshold `t`; while
/// the raw position lies within `t` of the cursor, the cursor stays put.
pub proof fn lemma_smooth_step_bounded(c: Vec3, raw: Vec3, t: int)
    requires
        c.wf(),
        raw.wf(),
        t >= 0,
    ensures
        dist2(c, smooth_step(c, raw, t)) <= t * t,
        dist2(c, raw) <= t * t ==> smooth_step(c, raw, t) == c,
{
    let r2 = dist2(c, raw);
    if r2 > t * t {
        lemma_ceil_sqrt_exceeds(r2, t);
        lemma_smooth_step_wf(c, raw, t);
        let d = ceil_sqrt(r2 as nat) as int;
        let (ax, ay, az) = (raw.x - c.x, raw.y - c.y, raw.z - c.z);
        lemma_scaled_bounds(ax, t, d);
        lemma_scaled_bounds(ay, t, d);
        lemma_scaled_bounds(az, t, d);
        lemma_axis_step(ax, t, d);
        lemma_axis_step(ay, t, d);
        lemma_axis_step(az, t, d);
        let (sx, sy, sz) = (scaled_offset(ax, t, d), scaled_offset(ay, t, d), scaled_offset(az, t, d));
        let n = smooth_step(c, raw, t);
        assert(n.x == c.x + sx && n.y == c.y + sy && n.z == c.z + sz);
        lemma_sq_flip(c.x as int, n.x as int);
        lemma_sq_flip(c.y as int, n.y as int);
        lemma_sq_flip(c.z as int, n.z as int);
        lemma_sq_flip(c.x as int, raw.x as int);
        lemma_sq_flip(c.y as int, raw.y as int);
        lemma_sq_flip(c.z as int, raw.z as int);
        assert(dist2(c, n) == sx * sx + sy * sy + sz * sz);
        assert(r2 == ax * ax + ay * ay + az * az);
        assert((sx * sx + sy * sy + sz * sz) * (d * d) <= (t * t) * r2) by (nonlinear_arith)
            requires
                sx * sx * (d * d) <= ax * ax * (t * t),
                sy * sy * (d * d) <= ay * ay * (t * t),
                sz * sz * (d * d) <= az * az * (t * t),
                r2 == ax * ax + ay * ay + az * az;
        assert((t * t) * r2 <= (t * t) * (d * d)) by (nonlinear_arith)
            requires r2 <= d * d, t >= 0;
        assert(sx * sx + sy * sy + sz * sz <= t * t) by (nonlinear_arith)
            requires
                (sx * sx + sy * sy + sz * sz) * (d * d) <= (t * t) * (d * d),
                d > 0;
    }
}

/// With the raw position held still and a threshold of at least two
/// micrometres, every step that moves the cursor brings it strictly closer.
pub proof fn lemma_smooth_step_progress(c: Vec3, raw: Vec3, t: int)
    requires
        c.wf(),
        raw.wf(),
        t >= 2,
        dist2(c, raw) > t * t,
    ensures
        dist2(smooth_step(c, raw, t), raw) < dist2(c, raw),
{
    let r2 = dist2(c, raw);
    lemma_ceil_sqrt_exceeds(r2, t);
    lemma_smooth_step_wf(c, raw, t);
    let d = ceil_sqrt(r2 as nat) as int;
    let (ax, ay, az) = (raw.x - c.x, raw.y - c.y, raw.z - c.z);
    lemma_scaled_bounds(ax, t, d);
    lemma_scaled_bounds(ay, t, d);
    lemma_scaled_bounds(az, t, d);
    lemma_axis_step(ax, t, d);
    lemma_axis_step(ay, t, d);
    lemma_axis_step(az, t, d);
    let (sx, sy, sz) = (scaled_offset(ax, t, d), scaled_offset(ay, t, d), scaled_offset(az, t, d));
    let n = smooth_step(c, raw, t);
    assert(n.x == c.x + sx && n.y == c.y + sy && n.z == c.z + sz);
    lemma_sq_flip(c.x as int, raw.x as int);
    lemma_sq_flip(c.y as int, raw.y as int);
    lemma_sq_flip(c.z as int, raw.z as int);
    lemma_sq_flip(n.x as int, raw.x as int);
    lemma_sq_flip(n.y as int, raw.y as int);
    lemma_sq_flip(n.z as int, raw.z as int);
    assert(dist2(n, raw) == (ax - sx) * (ax - sx) + (ay - sy) * (ay - sy) + (az - sz) * (az - sz));
    assert(r2 == ax * ax + ay * ay + az * az);
    let mx = if ax >= 0 { ax } else { -ax };
    let my = if ay >= 0 { ay } else { -ay };
    let mz = if az >= 0 { az } else { -az };
    let m = if mx >= my && mx >= mz { mx } else if my >= mz { my } else { mz };
    assert(ax * ax == mx * mx && ay * ay == my * my && az * az == mz * mz) by (nonlinear_arith)
        requires mx == ax || mx == -ax, my == ay || my == -ay, mz == az || mz == -az;
    assert(r2 <= 3 * (m * m)) by (nonlinear_arith)
        requires
            r2 == mx * mx + my * my + mz * mz,
            0 <= mx <= m, 0 <= my <= m, 0 <= mz <= m;
    assert(t * t >= 4) by (nonlinear_arith)
        requires t >= 2;
    assert(m >= 1) by (nonlinear_arith)
        requires r2 > 4, r2 <= 3 * (m * m), m >= 0;
    // the square root rounded up stays within twice the largest axis
    crate::geometry::lemma_isqrt_correct(r2 as nat);
    let f = crate::geometry::isqrt(r2 as nat) as int;
    assert((d - 1) * (d - 1) < r2) by (nonlinear_arith)
        requires
            f * f <= r2,
            (d == f && f * f == r2 && d >= 1) || (d == f + 1 && f * f != r2);
    assert(d <= 2 * m) by (nonlinear_arith)
        requires (d - 1) * (d - 1) < r2, r2 <= 3 * (m * m), m >= 1;
    assert(m * t >= d) by (nonlinear_arith)
        requires d <= 2 * m, t >= 2, m >= 1;
}

/// The cursor after `n` steps toward a raw position held at `raw`.
pub open spec fn smooth_iter(c: Vec3, raw: Vec3, t: int, n: nat) -> Vec3
    decreases n,
{
    if n == 0 { c } else { smooth_iter(smooth_step(c, raw, t), raw, t, (n - 1) as nat) }
}

proof fn lemma_smooth_iter_rests(c: Vec3, raw: Vec3, t: int, n: nat)
    requires
        c.wf(),
        raw.wf(),
        t >= 0,
        dist2(c, raw) <= t * t,
    ensures
        smooth_iter(c, raw, t, n) == c,
    decreases n,
{
    if n > 0 {
        lemma_smooth_step_bounded(c, raw, t);
        lemma_smooth_iter_rests(c, raw, t, (n - 1) as nat);
    }
}

/// Held still, the raw position draws the cursor to within the threshold
/// (of at least two micrometres) of itself, where the cursor then rests.
pub proof fn lemma_smooth_converges(c: Vec3, raw: Vec3, t: int, n: nat)
    requires
        c.wf(),
        raw.wf(),
        t >= 2,
        n >= dist2(c, raw),
    ensures
        dist2(smooth_iter(c, raw, t, n), raw) <= t * t,
        smooth_step(smooth_iter(c, raw, t, n), raw, t) == smooth_iter(c, raw, t, n),
    decreases n,
{
    if dist2(c, raw) <= t * t {
        lemma_smooth_iter_rests(c, raw, t, n);
        lemma_smooth_step_bounded(c, raw, t);
    } else {
        assert(dist2(c, raw) >= 0) by (nonlinear_arith)
            requires dist2(c, raw) > t * t;
        lemma_smooth_step_progress(c, raw, t);
        lemma_smooth_step_wf(c, raw, t);
        let c1 = smooth_step(c, raw, t);
        assert(dist2(c1, raw) >= 0) by (nonlinear_arith)
            requires dist2(c1, raw) == (c1.x - raw.x) * (c1.x - raw.x) + (c1.y - raw.y) * (c1.y - raw.y) + (c1.z - raw.z) * (c1.z - raw.z);
        lemma_smooth_converges(c1, raw, t, (n - 1) as nat);
    }
}

} // verus!
