use vstd::prelude::*;

verus! {

/// Bound on the magnitude of every coordinate, in micrometres (one kilometre).
pub const COORD_LIMIT: i64 = 1_000_000_000;

/// A point or displacement in space, each coordinate in micrometres.
#[derive(Clone, Copy, Debug, PartialEq, Eq, Structural)]
pub struct Vec3 {
    pub x: i64,
    pub y: i64,
    pub z: i64,
}

pub open spec fn coord_ok(c: int) -> bool {
    -COORD_LIMIT <= c <= COORD_LIMIT
}

impl Vec3 {
    /// Every coordinate lies within `COORD_LIMIT`.
    pub open spec fn wf(&self) -> bool {
        coord_ok(self.x as int) && coord_ok(self.y as int) && coord_ok(self.z as int)
    }

    pub fn new(x: i64, y: i64, z: i64) -> (r: Vec3)
        ensures
            r == (Vec3 { x, y, z }),
    {
        Vec3 { x, y, z }
    }

    pub fn zero() -> (r: Vec3)
        ensures
            r == (Vec3 { x: 0, y: 0, z: 0 }),
            r.wf(),
    {
        Vec3 { x: 0, y: 0, z: 0 }
    }
}

/// Squared Euclidean distance between two points.
pub open spec fn dist2(a: Vec3, b: Vec3) -> int {
    (a.x - b.x) * (a.x - b.x) + (a.y - b.y) * (a.y - b.y) + (a.z - b.z) * (a.z - b.z)
}

/// Midpoint of two coordinates, rounded toward negative infinity.
pub open spec fn mid(a: int, b: int) -> int {
    (a + b) / 2
}

pub fn midpoint_coord(a: i64, b: i64) -> (r: i64)
    requires
        coord_ok(a as int),
        coord_ok(b as int),
    ensures
        r == mid(a as int, b as int),
        coord_ok(r as int),
{
    let s: i64 = a + b;
    let h: i64 = s / 2;
    if s % 2 != 0 && s < 0 { h - 1 } else { h }
}


/// Integer square root, rounded down.
pub open spec fn isqrt(n: nat) -> nat
    decreases n,
{
    if n == 0 {
        0
    } else {
        let r = isqrt((n - 1) as nat);
        if (r + 1) * (r + 1) <= n {
            r + 1
        } else {
            r
        }
    }
}

/// `r` is the integer square root of `n`, rounded down.
pub open spec fn is_isqrt(n: int, r: int) -> bool {
    0 <= r && r * r <= n && n < (r + 1) * (r + 1)
}

pub proof fn lemma_isqrt_unique(n: int, r1: int, r2: int)
    requires
        is_isqrt(n, r1),
        is_isqrt(n, r2),
    ensures
        r1 == r2,
{
    if r1 < r2 {
        assert((r1 + 1) * (r1 + 1) <= r2 * r2) by (nonlinear_arith)
            requires 0 <= r1 < r2;
    } else if r2 < r1 {
        assert((r2 + 1) * (r2 + 1) <= r1 * r1) by (nonlinear_arith)
            requires 0 <= r2 < r1;
    }
}

pub proof fn lemma_isqrt_correct(n: nat)
    ensures
        is_isqrt(n as int, isqrt(n) as int),
    decreases n,
{
    if n > 0 {
        lemma_isqrt_correct((n - 1) as nat);
        let r = isqrt((n - 1) as nat) as int;
        assert((r + 1) * (r + 1) < (r + 2) * (r + 2)) by (nonlinear_arith)
            requires 0 <= r;
    }
}

/// The integer square root does not decrease as its argument grows.
pub proof fn lemma_isqrt_monotone(a: nat, b: nat)
    requires
        a <= b,
    ensures
        isqrt(a) <= isqrt(b),
{
    lemma_isqrt_correct(a);
    lemma_isqrt_correct(b);
    let ra = isqrt(a) as int;
    let rb = isqrt(b) as int;
    if ra > rb {
        assert((rb + 1) * (rb + 1) <= ra * ra) by (nonlinear_arith)
            requires 0 <= rb < ra;
    }
}

/// Integer square root of `n`, rounded down.
pub fn isqrt_floor(n: u64) -> (r: u64)
    ensures
        r == isqrt(n as nat),
        r < 0x1_0000_0000,
{
    let mut lo: u64 = 0;
    let mut hi: u64 = 0x1_0000_0000;
    assert((hi as int) * (hi as int) > n as int) by (nonlinear_arith)
        requires hi == 0x1_0000_0000u64, n < 0x1_0000_0000_0000_0000int;
    while lo + 1 < hi
        invariant
            lo < hi <= 0x1_0000_0000,
            (lo as int) * (lo as int) <= n as int,
            (n as int) < (hi as int) * (hi as int),
        decreases hi - lo,
    {
        let m: u64 = lo + (hi - lo) / 2;
        assert((m as int) * (m as int) < 0x1_0000_0000_0000_0000int) by (nonlinear_arith)
            requires m < 0x1_0000_0000u64;
        let sq: u128 = (m as u128) * (m as u128);
        if sq <= n as u128 {
            lo = m;
        } else {
            hi = m;
        }
    }
    proof {
        lemma_isqrt_correct(n as nat);
        lemma_isqrt_unique(n as int, lo as int, isqrt(n as nat) as int);
    }
    lo
}

/// Integer square root, rounded up.
pub open spec fn ceil_sqrt(n: nat) -> nat {
    if isqrt(n) * isqrt(n) == n { isqrt(n) } else { isqrt(n) + 1 }
}

/// Integer square root of `n`, rounded up.
pub fn isqrt_ceil(n: u64) -> (r: u64)
    ensures
        r == ceil_sqrt(n as nat),
        (r as int - 1) * (r as int - 1) < n as int || r == 0,
        n as int <= (r as int) * (r as int),
        r <= 0x1_0000_0000,
{
    let f = isqrt_floor(n);
    proof {
        lemma_isqrt_correct(n as nat);
        assert((f as int) * (f as int) < 0x1_0000_0000_0000_0000int) by (nonlinear_arith)
            requires f < 0x1_0000_0000u64;
        if f > 0 {
            assert((f as int - 1) * (f as int - 1) < (f as int) * (f as int)) by (nonlinear_arith)
                requires f > 0;
        }
    }
    if (f as u128) * (f as u128) == n as u128 {
        f
    } else {
        f + 1
    }
}

/// Squared distance between two points in range.
pub fn distance_squared(a: Vec3, b: Vec3) -> (r: u64)
    requires
        a.wf(),
        b.wf(),
    ensures
        r == dist2(a, b),
{
    let dx: i64 = a.x - b.x;
    let dy: i64 = a.y - b.y;
    let dz: i64 = a.z - b.z;
    assert(0 <= dx * dx <= 4_000_000_000_000_000_000) by (nonlinear_arith)
        requires -2_000_000_000 <= dx <= 2_000_000_000;
    assert(0 <= dy * dy <= 4_000_000_000_000_000_000) by (nonlinear_arith)
        requires -2_000_000_000 <= dy <= 2_000_000_000;
    assert(0 <= dz * dz <= 4_000_000_000_000_000_000) by (nonlinear_arith)
        requires -2_000_000_000 <= dz <= 2_000_000_000;
    ((dx * dx) as u64) + ((dy * dy) as u64) + ((dz * dz) as u64)
}

/// Euclidean distance between two points in range, rounded down.
pub open spec fn distance(a: Vec3, b: Vec3) -> nat {
    isqrt(dist2(a, b) as nat)
}

pub fn distance_floor(a: Vec3, b: Vec3) -> (r: u64)
    requires
        a.wf(),
        b.wf(),
    ensures
        r == distance(a, b),
{
    isqrt_floor(distance_squared(a, b))
}

} // verus!
