use vstd::prelude::*;

verus! {

/// Whether `r` is the square root of `n`, rounded down.
pub open spec fn is_floor_sqrt(n: int, r: int) -> bool {
    0 <= r && r * r <= n < (r + 1) * (r + 1)
}

/// The square of the straight-line distance between two points.
pub open spec fn squared_distance(ax: int, ay: int, bx: int, by: int) -> int {
    (ax - bx) * (ax - bx) + (ay - by) * (ay - by)
}

/// A number has one square root rounded down.
pub proof fn lemma_floor_sqrt_unique(n: int, r: int, s: int)
    requires
        is_floor_sqrt(n, r),
        is_floor_sqrt(n, s),
    ensures
        r == s,
{
    if r < s {
        assert((r + 1) * (r + 1) <= s * s) by (nonlinear_arith)
            requires
                0 <= r,
                r + 1 <= s,
        ;
    } else if s < r {
        assert((s + 1) * (s + 1) <= r * r) by (nonlinear_arith)
            requires
                0 <= s,
                s + 1 <= r,
        ;
    }
}

/// The squared distance from `a` to `b` is that from `b` to `a`, and zero
/// from a point to itself.
pub proof fn lemma_squared_distance_symmetric(ax: int, ay: int, bx: int, by: int)
    ensures
        squared_distance(ax, ay, bx, by) == squared_distance(bx, by, ax, ay),
        squared_distance(ax, ay, ax, ay) == 0,
        squared_distance(ax, ay, bx, by) >= 0,
{
    assert((ax - bx) * (ax - bx) == (bx - ax) * (bx - ax)) by (nonlinear_arith);
    assert((ay - by) * (ay - by) == (by - ay) * (by - ay)) by (nonlinear_arith);
    assert((ax - bx) * (ax - bx) >= 0) by (nonlinear_arith);
    assert((ay - by) * (ay - by) >= 0) by (nonlinear_arith);
}

/// The square root of `n`, rounded down.
pub fn isqrt(n: u64) -> (r: u32)
    ensures
        is_floor_sqrt(n as int, r as int),
{
    let mut lo: u64 = 0;
    let mut hi: u64 = 0x1_0000_0000;
    assert(0x1_0000_0000int * 0x1_0000_0000int > n) by (nonlinear_arith)
        requires
            n <= 0xffff_ffff_ffff_ffff,
    ;
    while hi - lo > 1
        invariant
            lo < hi <= 0x1_0000_0000,
            lo * lo <= n < hi * hi,
        decreases hi - lo,
    {
        let mid = lo + (hi - lo) / 2;
        assert(mid * mid <= 0xffff_ffff * 0xffff_ffff) by (nonlinear_arith)
            requires
                mid <= 0xffff_ffff,
        ;
        if mid * mid <= n {
            lo = mid;
        } else {
            hi = mid;
        }
    }
    lo as u32
}

/// The straight-line distance between two points, rounded down.
pub fn euclidean(ax: i64, ay: i64, bx: i64, by: i64) -> (d: u32)
    requires
        -0x4000_0000 <= ax <= 0x4000_0000,
        -0x4000_0000 <= ay <= 0x4000_0000,
        -0x4000_0000 <= bx <= 0x4000_0000,
        -0x4000_0000 <= by <= 0x4000_0000,
    ensures
        is_floor_sqrt(squared_distance(ax as int, ay as int, bx as int, by as int), d as int),
{
    let dx = ax - bx;
    let dy = ay - by;
    assert(0 <= dx * dx <= 0x4000_0000_0000_0000) by (nonlinear_arith)
        requires
            -0x8000_0000 <= dx <= 0x8000_0000,
    ;
    assert(0 <= dy * dy <= 0x4000_0000_0000_0000) by (nonlinear_arith)
        requires
            -0x8000_0000 <= dy <= 0x8000_0000,
    ;
    let sum: u64 = (dx * dx) as u64 + (dy * dy) as u64;
    isqrt(sum)
}

} // verus!
