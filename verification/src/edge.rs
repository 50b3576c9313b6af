//! Player-created edges, and the line-of-sight query that stops a
//! candidate or preview edge at the first vertex circle in its way.

use vstd::prelude::*;

use crate::geometry::{
    dist_sq, dist_sq_spec, in_bounds, isqrt, lemma_mul_bound, lemma_square_nonneg, seg_blocked,
    segment_blocked, Point,
};
use crate::vertex::VERTEX_RADIUS;
use vstd::arithmetic::div_mod::{lemma_div_is_ordered, lemma_div_multiples_vanish};

verus! {

/// Rendered width of an edge segment.
pub const EDGE_WIDTH: i64 = 10;

/// Longest surface-to-surface edge length.
pub const EDGE_MAX_LEN: i64 = 400;

/// Longest center-to-center distance at which two vertices may still be
/// connected: `EDGE_MAX_LEN + 2 * VERTEX_RADIUS`.
pub const MAX_CONNECT_DIST: i64 = 500;

/// `MAX_CONNECT_DIST * MAX_CONNECT_DIST`.
pub const MAX_CONNECT_DIST_SQ: i64 = 250_000;

/// Longest rendered preview segment: `EDGE_MAX_LEN + VERTEX_RADIUS`.
pub const PREVIEW_MAX_LEN: i64 = 450;

/// `PREVIEW_MAX_LEN * PREVIEW_MAX_LEN`.
pub const PREVIEW_MAX_LEN_SQ: i64 = 202_500;

/// An edge between the two vertices with these indices.
#[derive(Clone, Copy, PartialEq, Eq, Structural, Debug)]
pub struct Edge(pub usize, pub usize);

/// Whether edge `e` joins the unordered pair `{a, b}`.
pub open spec fn edge_joins(e: Edge, a: usize, b: usize) -> bool {
    (e.0 == a && e.1 == b) || (e.0 == b && e.1 == a)
}

/// Whether some obstacle circle (radius `VERTEX_RADIUS`) obstructs the
/// straight segment from `a` to `b`. A degenerate segment (`a == b`) is
/// never obstructed.
pub open spec fn obstructed(a: Point, b: Point, obstacles: Seq<Point>) -> bool {
    a != b && exists|k: int|
        0 <= k < obstacles.len() && seg_blocked(a, b, obstacles[k], VERTEX_RADIUS as int)
}

/// Walks the segment from `pos1` toward `pos2` and stops at the first
/// obstructing vertex circle. Returns `pos2` exactly when the path is
/// clear; otherwise a point of the segment short of `pos2`.
pub fn get_obstacle_pos(pos1: Point, pos2: Point, obstacles: &Vec<Point>) -> (r: Point)
    requires
        in_bounds(pos1),
        in_bounds(pos2),
        forall|k: int| 0 <= k < obstacles@.len() ==> in_bounds(#[trigger] obstacles@[k]),
    ensures
        (r == pos2) <==> !obstructed(pos1, pos2, obstacles@),
        in_bounds(r),
        dist_sq_spec(pos1, r) <= dist_sq_spec(pos1, pos2),
        (pos1.x <= r.x <= pos2.x || pos2.x <= r.x <= pos1.x),
        (pos1.y <= r.y <= pos2.y || pos2.y <= r.y <= pos1.y),
{
    if pos1 == pos2 {
        return pos2;
    }
    let dx: i128 = pos2.x as i128 - pos1.x as i128;
    let dy: i128 = pos2.y as i128 - pos1.y as i128;
    proof {
        lemma_mul_bound(dx as int, dx as int, 2_000_000, 2_000_000);
        lemma_mul_bound(dy as int, dy as int, 2_000_000, 2_000_000);
        lemma_square_nonneg(dx as int);
        lemma_square_nonneg(dy as int);
        assert(dx * dx + dy * dy > 0) by (nonlinear_arith)
            requires
                dx != 0 || dy != 0,
        ;
    }
    let l2: i128 = dx * dx + dy * dy;
    let mut best: Option<i128> = None;
    let mut k: usize = 0;
    while k < obstacles.len()
        invariant
            0 <= k <= obstacles@.len(),
            in_bounds(pos1),
            in_bounds(pos2),
            pos1 != pos2,
            forall|k2: int| 0 <= k2 < obstacles@.len() ==> in_bounds(#[trigger] obstacles@[k2]),
            dx == pos2.x - pos1.x,
            dy == pos2.y - pos1.y,
            l2 == dx * dx + dy * dy,
            0 < l2 <= 8_000_000_000_000,
            best is Some <==> exists|k2: int|
                0 <= k2 < k && seg_blocked(pos1, pos2, obstacles@[k2], VERTEX_RADIUS as int),
            match best {
                Some(m) => 0 <= m <= l2,
                None => true,
            },
        decreases obstacles@.len() - k,
    {
        let c = obstacles[k];
        if segment_blocked(pos1, pos2, c, VERTEX_RADIUS) {
            let fx: i128 = c.x as i128 - pos1.x as i128;
            let fy: i128 = c.y as i128 - pos1.y as i128;
            proof {
                lemma_mul_bound(fx as int, dx as int, 2_000_000, 2_000_000);
                lemma_mul_bound(fy as int, dy as int, 2_000_000, 2_000_000);
                lemma_mul_bound(fx as int, dy as int, 2_000_000, 2_000_000);
                lemma_mul_bound(fy as int, dx as int, 2_000_000, 2_000_000);
            }
            let s: i128 = fx * dx + fy * dy;
            let num: i128 = if s <= 0 {
                0
            } else if s >= l2 {
                l2
            } else {
                let cross: i128 = fx * dy - fy * dx;
                proof {
                    lemma_square_nonneg(cross as int);
                    lemma_mul_bound(
                        cross as int,
                        cross as int,
                        8_000_000_000_000,
                        8_000_000_000_000,
                    );
                }
                let under: i128 = 2500 * l2 - cross * cross;
                // `seg_blocked` holds and the projection is interior, so
                // the discriminant is positive.
                assert(cross * cross < 2500 * l2);
                let root: u64 = isqrt(under as u64);
                let n0: i128 = s - root as i128;
                if n0 < 0 {
                    0
                } else if n0 > l2 {
                    l2
                } else {
                    n0
                }
            };
            best = match best {
                Some(m) => if num < m {
                    Some(num)
                } else {
                    Some(m)
                },
                None => Some(num),
            };
        }
        k += 1;
    }
    match best {
        None => pos2,
        Some(num) => {
            let lu: u128 = l2 as u128;
            let nu: u128 = num as u128;
            let adx: u128 = if dx >= 0 {
                dx as u128
            } else {
                (-dx) as u128
            };
            let ady: u128 = if dy >= 0 {
                dy as u128
            } else {
                (-dy) as u128
            };
            let ghost ax: int = adx as int;
            let ghost ay: int = ady as int;
            let ghost nn: int = nu as int;
            let ghost ll: int = lu as int;
            proof {
                lemma_mul_bound(ax, nn, 2_000_000, 8_000_000_000_000);
                lemma_mul_bound(ay, nn, 2_000_000, 8_000_000_000_000);
                assert(ax * nn <= ax * ll && ay * nn <= ay * ll) by (nonlinear_arith)
                    requires
                        0 <= ax,
                        0 <= ay,
                        0 <= nn <= ll,
                ;
                lemma_div_is_ordered(ax * nn, ax * ll, ll);
                lemma_div_is_ordered(ay * nn, ay * ll, ll);
                lemma_div_multiples_vanish(ax, ll);
                lemma_div_multiples_vanish(ay, ll);
            }
            let offx: u128 = adx * nu / lu;
            let offy: u128 = ady * nu / lu;
            proof {
                assert(offx as int == ax * nn / ll && offy as int == ay * nn / ll);
                assert(offx as int <= ax && offy as int <= ay);
                assert(ax <= 2_000_000 && ay <= 2_000_000);
            }
            let ox: i64 = offx as i64;
            let oy: i64 = offy as i64;
            proof {
                assert(0 <= ox <= 2_000_000 && 0 <= oy <= 2_000_000);
                assert(ox as int == offx as int && oy as int == offy as int);
            }
            let rx: i64 = if dx >= 0 {
                pos1.x + ox
            } else {
                pos1.x - ox
            };
            let ry: i64 = if dy >= 0 {
                pos1.y + oy
            } else {
                pos1.y - oy
            };
            let stop = Point { x: rx, y: ry };
            proof {
                assert((rx - pos1.x) * (rx - pos1.x) <= dx * dx) by (nonlinear_arith)
                    requires
                        rx - pos1.x == ox || rx - pos1.x == -ox,
                        0 <= ox,
                        ox <= dx || ox <= -dx,
                ;
                assert((ry - pos1.y) * (ry - pos1.y) <= dy * dy) by (nonlinear_arith)
                    requires
                        ry - pos1.y == oy || ry - pos1.y == -oy,
                        0 <= oy,
                        oy <= dy || oy <= -dy,
                ;
                crate::geometry::lemma_sq_flip(pos1.x as int, stop.x as int);
                crate::geometry::lemma_sq_flip(pos1.y as int, stop.y as int);
                crate::geometry::lemma_sq_flip(pos1.x as int, pos2.x as int);
                crate::geometry::lemma_sq_flip(pos1.y as int, pos2.y as int);
                lemma_square_nonneg((pos1.x - pos2.x) as int);
                lemma_square_nonneg((pos1.y - pos2.y) as int);
                assert(dist_sq_spec(pos1, stop) <= dist_sq_spec(pos1, pos2));
            }
            if stop == pos2 {
                proof {
                    assert(dist_sq_spec(pos1, pos1) == 0) by (nonlinear_arith);
                    assert(dist_sq_spec(pos1, pos2) >= 0) by (nonlinear_arith);
                }
                pos1
            } else {
                stop
            }
        },
    }
}

/// How a coordinate offset `d` scales by the ratio `num / den`, rounded
/// toward zero.
pub open spec fn scaled_off(d: int, num: int, den: int) -> int {
    if d >= 0 {
        d * num / den
    } else {
        -((-d) * num / den)
    }
}

/// Pulls `target` toward `origin` so the preview edge never renders
/// longer than `PREVIEW_MAX_LEN`.
pub fn clamp_preview(origin: Point, target: Point) -> (r: Point)
    requires
        in_bounds(origin),
        in_bounds(target),
    ensures
        dist_sq_spec(origin, target) <= PREVIEW_MAX_LEN_SQ ==> r == target,
        dist_sq_spec(origin, r) <= PREVIEW_MAX_LEN_SQ,
        in_bounds(r),
{
    let d = dist_sq(origin, target);
    if d <= PREVIEW_MAX_LEN_SQ {
        return target;
    }
    let l: u64 = isqrt(d as u64);
    proof {
        assert(l >= 450) by (nonlinear_arith)
            requires
                d > 202_500,
                d < (l + 1) * (l + 1),
                l >= 0,
        ;
    }
    let den: u64 = l + 1;
    let dnu: u128 = den as u128;
    let dx: i64 = target.x - origin.x;
    let dy: i64 = target.y - origin.y;
    let adx: u128 = if dx >= 0 {
        dx as u128
    } else {
        (-dx) as u128
    };
    let ady: u128 = if dy >= 0 {
        dy as u128
    } else {
        (-dy) as u128
    };
    let ghost ax: int = adx as int;
    let ghost ay: int = ady as int;
    let ghost dn: int = dnu as int;
    proof {
        lemma_mul_bound(ax, 450, 2_000_000, 450);
        lemma_mul_bound(ay, 450, 2_000_000, 450);
        assert(ax * 450 <= ax * dn && ay * 450 <= ay * dn) by (nonlinear_arith)
            requires
                0 <= ax,
                0 <= ay,
                450 <= dn,
        ;
        lemma_div_is_ordered(ax * 450, ax * dn, dn);
        lemma_div_is_ordered(ay * 450, ay * dn, dn);
        lemma_div_multiples_vanish(ax, dn);
        lemma_div_multiples_vanish(ay, dn);
    }
    let offx: u128 = adx * 450 / dnu;
    let offy: u128 = ady * 450 / dnu;
    let ox: i64 = offx as i64;
    let oy: i64 = offy as i64;
    let ghost fx: int = offx as int;
    let ghost fy: int = offy as int;
    proof {
        // The scaled offsets keep the point within PREVIEW_MAX_LEN of the
        // origin: (off * den)^2 <= (ad * 450)^2 summed over both axes,
        // and d < den^2 cancels den^2 against 450^2.
        vstd::arithmetic::div_mod::lemma_fundamental_div_mod(ax * 450, dn);
        vstd::arithmetic::div_mod::lemma_fundamental_div_mod(ay * 450, dn);
        assert(fx * dn <= ax * 450) by (nonlinear_arith)
            requires
                0 < dn,
                ax * 450 == dn * (ax * 450 / dn) + (ax * 450) % dn,
                fx == ax * 450 / dn,
                (ax * 450) % dn >= 0,
        ;
        assert(fy * dn <= ay * 450) by (nonlinear_arith)
            requires
                0 < dn,
                ay * 450 == dn * (ay * 450 / dn) + (ay * 450) % dn,
                fy == ay * 450 / dn,
                (ay * 450) % dn >= 0,
        ;
        assert((fx * fx + fy * fy) * (dn * dn) <= (ax * ax + ay * ay) * (450 * 450))
            by (nonlinear_arith)
            requires
                0 <= fx,
                0 <= fy,
                0 <= ax,
                0 <= ay,
                0 < dn,
                fx * dn <= ax * 450,
                fy * dn <= ay * 450,
        ;
        assert(ax * ax + ay * ay == dist_sq_spec(origin, target)) by (nonlinear_arith)
            requires
                ax == (if target.x - origin.x >= 0 {
                    target.x - origin.x
                } else {
                    -(target.x - origin.x)
                }),
                ay == (if target.y - origin.y >= 0 {
                    target.y - origin.y
                } else {
                    -(target.y - origin.y)
                }),
                dist_sq_spec(origin, target) == (origin.x - target.x) * (origin.x - target.x) + (
                origin.y - target.y) * (origin.y - target.y),
        ;
        assert(fx * fx + fy * fy <= 202_500) by (nonlinear_arith)
            requires
                (fx * fx + fy * fy) * (dn * dn) <= (ax * ax + ay * ay) * (450 * 450),
                ax * ax + ay * ay < dn * dn,
                0 < dn,
                0 <= fx,
                0 <= fy,
        ;
    }
    let rx: i64 = if dx >= 0 {
        origin.x + ox
    } else {
        origin.x - ox
    };
    let ry: i64 = if dy >= 0 {
        origin.y + oy
    } else {
        origin.y - oy
    };
    let r = Point { x: rx, y: ry };
    proof {
        assert(dist_sq_spec(origin, r) == fx * fx + fy * fy) by (nonlinear_arith)
            requires
                r.x - origin.x == fx || r.x - origin.x == -fx,
                r.y - origin.y == fy || r.y - origin.y == -fy,
                dist_sq_spec(origin, r) == (origin.x - r.x) * (origin.x - r.x) + (origin.y - r.y) * (
                origin.y - r.y),
        ;
        assert(0 <= fx <= ax && 0 <= fy <= ay);
        assert(origin.x <= r.x <= target.x || target.x <= r.x <= origin.x);
        assert(origin.y <= r.y <= target.y || target.y <= r.y <= origin.y);
        assert(in_bounds(r));
    }
    r
}

} // verus!
