//! Exact integer plane geometry: points, squared distances, integer
//! square roots, and the point-to-segment distance test that decides
//! whether a vertex circle obstructs a candidate edge.

use vstd::prelude::*;

verus! {

/// Largest coordinate magnitude the geometry accepts. Keeps every squared
/// distance within `i64` and every product the segment test forms within
/// `i128`.
pub const MAX_COORD: i64 = 1_000_000;

#[derive(Clone, Copy, PartialEq, Eq, Structural, Debug)]
pub struct Point {
    pub x: i64,
    pub y: i64,
}

pub open spec fn in_bounds(p: Point) -> bool {
    -MAX_COORD <= p.x && p.x <= MAX_COORD && -MAX_COORD <= p.y && p.y <= MAX_COORD
}

pub open spec fn dist_sq_spec(p: Point, q: Point) -> int {
    (p.x - q.x) * (p.x - q.x) + (p.y - q.y) * (p.y - q.y)
}

pub proof fn lemma_mul_bound(a: int, b: int, ma: int, mb: int)
    by (nonlinear_arith)
    requires
        -ma <= a <= ma,
        -mb <= b <= mb,
        0 <= ma,
        0 <= mb,
    ensures
        -(ma * mb) <= a * b <= ma * mb,
{
}

pub proof fn lemma_square_nonneg(a: int)
    by (nonlinear_arith)
    ensures
        0 <= a * a,
{
}

pub proof fn lemma_sq_flip(a: int, b: int)
    by (nonlinear_arith)
    ensures
        (a - b) * (a - b) == (b - a) * (b - a),
{
}

pub fn dist_sq(p: Point, q: Point) -> (r: i64)
    requires
        in_bounds(p),
        in_bounds(q),
    ensures
        r == dist_sq_spec(p, q),
        0 <= r <= 8_000_000_000_000,
{
    let dx: i64 = p.x - q.x;
    let dy: i64 = p.y - q.y;
    proof {
        lemma_mul_bound(dx as int, dx as int, 2_000_000, 2_000_000);
        lemma_mul_bound(dy as int, dy as int, 2_000_000, 2_000_000);
        lemma_square_nonneg(dx as int);
        lemma_square_nonneg(dy as int);
    }
    dx * dx + dy * dy
}

/// The integer square root: the largest `r` with `r * r <= n`.
pub closed spec fn isqrt_spec(n: int) -> int
    decreases n,
{
    if n <= 0 {
        0
    } else {
        let r = isqrt_spec(n - 1);
        if (r + 1) * (r + 1) <= n {
            r + 1
        } else {
            r
        }
    }
}

pub proof fn lemma_isqrt_spec(n: int)
    requires
        n >= 0,
    ensures
        0 <= isqrt_spec(n),
        isqrt_spec(n) * isqrt_spec(n) <= n,
        n < (isqrt_spec(n) + 1) * (isqrt_spec(n) + 1),
    decreases n,
{
    if n == 0 {
    } else {
        lemma_isqrt_spec(n - 1);
        let r = isqrt_spec(n - 1);
        if (r + 1) * (r + 1) <= n {
            assert((r + 2) * (r + 2) > n) by (nonlinear_arith)
                requires
                    r >= 0,
                    n - 1 < (r + 1) * (r + 1),
            ;
        }
    }
}

pub proof fn lemma_isqrt_unique(n: int, a: int, b: int)
    by (nonlinear_arith)
    requires
        0 <= a,
        0 <= b,
        a * a <= n,
        n < (a + 1) * (a + 1),
        b * b <= n,
        n < (b + 1) * (b + 1),
    ensures
        a == b,
{
}

pub fn isqrt(n: u64) -> (r: u64)
    requires
        n < 0x4000_0000_0000_0000,
    ensures
        r == isqrt_spec(n as int),
        r * r <= n,
        n < (r + 1) * (r + 1),
        r < 0x8000_0000,
{
    let mut lo: u64 = 0;
    let mut hi: u64 = 0x8000_0000;
    proof {
        assert((0x8000_0000 as int) * (0x8000_0000 as int) == 0x4000_0000_0000_0000)
            by (nonlinear_arith);
    }
    while hi - lo > 1
        invariant
            0 <= lo < hi <= 0x8000_0000,
            lo * lo <= n,
            n < hi * hi,
        decreases hi - lo,
    {
        let mid: u64 = lo + (hi - lo) / 2;
        proof {
            lemma_mul_bound(mid as int, mid as int, 0x8000_0000, 0x8000_0000);
        }
        if mid * mid <= n {
            lo = mid;
        } else {
            hi = mid;
        }
    }
    proof {
        lemma_isqrt_spec(n as int);
        lemma_isqrt_unique(n as int, lo as int, isqrt_spec(n as int));
    }
    lo
}

/// Whether the circle of radius `r` around `c` comes strictly closer than
/// `r` to the segment from `a` to `b`: the exact integer form of
/// "distance from `c` to the segment is less than `r`". When `a == b` the
/// segment degenerates to the point `a`.
pub open spec fn seg_blocked(a: Point, b: Point, c: Point, r: int) -> bool {
    let dx = b.x - a.x;
    let dy = b.y - a.y;
    let fx = c.x - a.x;
    let fy = c.y - a.y;
    let l2 = dx * dx + dy * dy;
    let s = fx * dx + fy * dy;
    if s <= 0 {
        fx * fx + fy * fy < r * r
    } else if s >= l2 {
        dist_sq_spec(c, b) < r * r
    } else {
        let cross = fx * dy - fy * dx;
        cross * cross < r * r * l2
    }
}

pub fn segment_blocked(a: Point, b: Point, c: Point, r: i64) -> (res: bool)
    requires
        in_bounds(a),
        in_bounds(b),
        in_bounds(c),
        0 <= r <= 1_000_000,
    ensures
        res == seg_blocked(a, b, c, r as int),
{
    let dx: i128 = b.x as i128 - a.x as i128;
    let dy: i128 = b.y as i128 - a.y as i128;
    let fx: i128 = c.x as i128 - a.x as i128;
    let fy: i128 = c.y as i128 - a.y as i128;
    proof {
        lemma_mul_bound(dx as int, dx as int, 2_000_000, 2_000_000);
        lemma_mul_bound(dy as int, dy as int, 2_000_000, 2_000_000);
        lemma_mul_bound(fx as int, fx as int, 2_000_000, 2_000_000);
        lemma_mul_bound(fy as int, fy as int, 2_000_000, 2_000_000);
        lemma_mul_bound(fx as int, dx as int, 2_000_000, 2_000_000);
        lemma_mul_bound(fy as int, dy as int, 2_000_000, 2_000_000);
        lemma_mul_bound(fx as int, dy as int, 2_000_000, 2_000_000);
        lemma_mul_bound(fy as int, dx as int, 2_000_000, 2_000_000);
        lemma_mul_bound(r as int, r as int, 1_000_000, 1_000_000);
    }
    let l2: i128 = dx * dx + dy * dy;
    let s: i128 = fx * dx + fy * dy;
    let rr: i128 = (r as i128) * (r as i128);
    if s <= 0 {
        fx * fx + fy * fy < rr
    } else if s >= l2 {
        let ex: i128 = c.x as i128 - b.x as i128;
        let ey: i128 = c.y as i128 - b.y as i128;
        proof {
            lemma_mul_bound(ex as int, ex as int, 2_000_000, 2_000_000);
            lemma_mul_bound(ey as int, ey as int, 2_000_000, 2_000_000);
        }
        ex * ex + ey * ey < rr
    } else {
        let cross: i128 = fx * dy - fy * dx;
        proof {
            lemma_mul_bound(cross as int, cross as int, 8_000_000_000_000, 8_000_000_000_000);
            lemma_mul_bound(rr as int, l2 as int, 1_000_000_000_000, 8_000_000_000_000);
            lemma_square_nonneg(cross as int);
        }
        cross * cross < rr * l2
    }
}

} // verus!
