//! The procedural level generator: a pure function of the level number.
//!
//! The generator draws a fixed budget of pseudo-random words from the
//! seeded stream and then computes the level from those words alone, so
//! the whole level is a function of the seed. Vertices are placed one at
//! a time, each offset from an already-placed vertex and kept at least
//! `MIN_VERTEX_DIST` from every other; a bounded number of placement
//! attempts is made per vertex and a vertex that finds no room is
//! skipped. Then every sufficiently close, unobstructed pair is accepted
//! as a potential edge with a coin flip (forced for a vertex that has no
//! edge yet), each accepted pair raises the required degree of both its
//! endpoints, and vertices that end with no potential edge are dropped.

use vstd::prelude::*;

use crate::geometry::{dist_sq, dist_sq_spec, isqrt, isqrt_spec, lemma_mul_bound, seg_blocked,
    segment_blocked, Point};
use crate::rng::{draw_words, stream_prefix, stream_word};
use crate::vertex::{Vertex, MIN_VERTEX_DIST_SQ, VERTEX_RADIUS};
use crate::edge::MAX_CONNECT_DIST_SQ;
use crate::graph::Graph;

verus! {

/// Half-width of the square the generator clamps vertices into.
pub const PLACE_BOUND: i64 = 620;

/// Most vertices a level can have.
pub const MAX_VERTICES: usize = 25;

/// Placement attempts per vertex before it is skipped.
pub const PLACE_RETRIES: usize = 16;

/// Words 1..PAIR_WORDS_BASE hold the placement draws: three words per
/// attempt, sixteen attempts for each of the up to 24 vertices after the
/// first. Word 0 picks the vertex count.
pub const PAIR_WORDS_BASE: usize = 1153;

/// One word per vertex pair, indexed `PAIR_WORDS_BASE + i1 * 25 + i2`.
pub const WORD_COUNT: usize = 1778;

/// The word at index `k`, or 0 past the end of the draw.
pub open spec fn word(ws: Seq<u64>, k: int) -> u64 {
    if 0 <= k < ws.len() {
        ws[k]
    } else {
        0
    }
}

pub open spec fn clamp_coord_spec(x: int) -> int {
    if x < -PLACE_BOUND {
        -PLACE_BOUND as int
    } else if x > PLACE_BOUND {
        PLACE_BOUND as int
    } else {
        x
    }
}

fn clamp_coord(x: i64) -> (r: i64)
    requires
        -1_000_000_000 <= x <= 1_000_000_000,
    ensures
        r == clamp_coord_spec(x as int),
{
    if x < -PLACE_BOUND {
        -PLACE_BOUND
    } else if x > PLACE_BOUND {
        PLACE_BOUND
    } else {
        x
    }
}

/// Every point of the sequence lies in the generator's square.
pub open spec fn all_in_square(ps: Seq<Point>) -> bool {
    forall|t: int| 0 <= t < ps.len() ==> in_square(#[trigger] ps[t])
}

pub open spec fn in_square(p: Point) -> bool {
    -PLACE_BOUND <= p.x <= PLACE_BOUND && -PLACE_BOUND <= p.y <= PLACE_BOUND
}

/// `p` keeps the minimum spacing from every point of `ps`.
pub open spec fn spaced_from(ps: Seq<Point>, p: Point) -> bool {
    forall|t: int| 0 <= t < ps.len() ==> dist_sq_spec(#[trigger] ps[t], p) > MIN_VERTEX_DIST_SQ
}

/// All points of `ps` keep the minimum spacing pairwise.
pub open spec fn pairwise_spaced(ps: Seq<Point>) -> bool {
    forall|u: int, t: int|
        0 <= u < t < ps.len() ==> dist_sq_spec(#[trigger] ps[u], #[trigger] ps[t])
            > MIN_VERTEX_DIST_SQ
}

/// Lowest vertex count for a level: `min(seed + 1, 4)`.
pub open spec fn count_lo(seed: u64) -> int {
    if seed + 1 < 4 {
        seed + 1
    } else {
        4
    }
}

/// Highest vertex count for a level: `min(seed + 1, 25)`.
pub open spec fn count_hi(seed: u64) -> int {
    if seed + 1 < 25 {
        seed + 1
    } else {
        25
    }
}

/// The number of vertices this level aims for, drawn from word 0.
pub open spec fn vert_target(ws: Seq<u64>, seed: u64) -> int {
    count_lo(seed) + word(ws, 0) as int % (count_hi(seed) - count_lo(seed) + 1)
}

/// The candidate position of placement attempt `j` for vertex `i`: an
/// already-placed anchor plus a pseudo-random offset of length below the
/// longest edge, clamped into the square.
pub open spec fn attempt_point(ws: Seq<u64>, ps: Seq<Point>, i: int, j: int) -> Point {
    let base = 1 + ((i - 1) * 16 + j) * 3;
    let anchor = ps[word(ws, base) as int % ps.len() as int];
    let radius = 100 + word(ws, base + 1) as int % 400;
    let woff = word(ws, base + 2) as int;
    let dx = woff % (2 * radius + 1) - radius;
    let dy0 = isqrt_spec(radius * radius - dx * dx);
    let dy = if (woff / 0x1_0000_0000) % 2 == 0 {
        dy0
    } else {
        -dy0
    };
    Point { x: clamp_coord_spec(anchor.x + dx) as i64, y: clamp_coord_spec(anchor.y + dy) as i64 }
}

/// The position vertex `i` settles on: the first sufficiently spaced
/// attempt, or none if all `PLACE_RETRIES` attempts are crowded.
pub open spec fn place_from(ws: Seq<u64>, ps: Seq<Point>, i: int, j: int) -> Option<Point>
    decreases 16 - j,
{
    if j < 0 || j >= PLACE_RETRIES {
        None
    } else {
        let p = attempt_point(ws, ps, i, j);
        if spaced_from(ps, p) {
            Some(p)
        } else {
            place_from(ws, ps, i, j + 1)
        }
    }
}

/// The positions after the first vertex (at the origin) and `i` further
/// placement rounds.
pub open spec fn positions_upto(ws: Seq<u64>, i: int) -> Seq<Point>
    decreases i,
{
    if i <= 0 {
        seq![Point { x: 0, y: 0 }]
    } else {
        let ps = positions_upto(ws, i - 1);
        match place_from(ws, ps, i, 0) {
            Some(p) => ps.push(p),
            None => ps,
        }
    }
}

/// All positions of the level generated from `ws`.
pub open spec fn positions_spec(ws: Seq<u64>, seed: u64) -> Seq<Point> {
    positions_upto(ws, vert_target(ws, seed) - 1)
}

proof fn lemma_positions_upto_ok(ws: Seq<u64>, i: int)
    requires
        i >= 0,
    ensures
        1 <= positions_upto(ws, i).len() <= i + 1,
        all_in_square(positions_upto(ws, i)),
        pairwise_spaced(positions_upto(ws, i)),
        positions_upto(ws, i)[0] == (Point { x: 0, y: 0 }),
    decreases i,
{
    if i <= 0 {
        let ps = positions_upto(ws, 0);
        assert(ps.len() == 1);
    } else {
        lemma_positions_upto_ok(ws, i - 1);
        let ps = positions_upto(ws, i - 1);
        match place_from(ws, ps, i, 0) {
            Some(p) => {
                lemma_place_from_ok(ws, ps, i, 0);
                let ps1 = ps.push(p);
                assert forall|u: int, t: int| 0 <= u < t < ps1.len() implies dist_sq_spec(
                    ps1[u],
                    ps1[t],
                ) > MIN_VERTEX_DIST_SQ by {
                    if t < ps.len() {
                        assert(ps1[u] == ps[u] && ps1[t] == ps[t]);
                    } else {
                        assert(ps1[t] == p && ps1[u] == ps[u]);
                        assert(dist_sq_spec(ps[u], p) > MIN_VERTEX_DIST_SQ);
                    }
                }
            },
            None => {},
        }
    }
}

/// A placed point is in the square and spaced from everything before it.
proof fn lemma_place_from_ok(ws: Seq<u64>, ps: Seq<Point>, i: int, j: int)
    requires
        ps.len() >= 1,
        all_in_square(ps),
    ensures
        match place_from(ws, ps, i, j) {
            Some(p) => in_square(p) && spaced_from(ps, p),
            None => true,
        },
    decreases 16 - j,
{
    if j < 0 || j >= 16 {
    } else {
        let p = attempt_point(ws, ps, i, j);
        if spaced_from(ps, p) {
            lemma_attempt_point_in_square(ws, ps, i, j);
        } else {
            lemma_place_from_ok(ws, ps, i, j + 1);
        }
    }
}

proof fn lemma_attempt_point_in_square(ws: Seq<u64>, ps: Seq<Point>, i: int, j: int)
    requires
        ps.len() >= 1,
    ensures
        in_square(attempt_point(ws, ps, i, j)),
{
}

/// The exec twin of `attempt_point`.
fn attempt_point_exec(words: &Vec<u64>, ps: &Vec<Point>, i: usize, j: usize) -> (p: Point)
    requires
        words@.len() == WORD_COUNT,
        1 <= i <= 24,
        j < 16,
        1 <= ps@.len() <= 25,
        all_in_square(ps@),
    ensures
        p == attempt_point(words@, ps@, i as int, j as int),
        in_square(p),
{
    let base: usize = 1 + ((i - 1) * 16 + j) * 3;
    let w0 = words[base];
    let anchor = ps[(w0 % (ps.len() as u64)) as usize];
    let w1 = words[base + 1];
    let radius: i64 = 100 + (w1 % 400) as i64;
    let w2 = words[base + 2];
    let span: u64 = (2 * radius + 1) as u64;
    let dx: i64 = (w2 % span) as i64 - radius;
    proof {
        assert(dx * dx <= radius * radius) by (nonlinear_arith)
            requires
                -radius <= dx <= radius,
                0 <= radius,
        ;
        assert(radius * radius <= 249_001) by (nonlinear_arith)
            requires
                100 <= radius <= 499,
        ;
        crate::geometry::lemma_square_nonneg(dx as int);
        crate::geometry::lemma_square_nonneg(radius as int);
    }
    let dy0: i64 = isqrt((radius * radius - dx * dx) as u64) as i64;
    proof {
        assert(isqrt_spec((radius * radius - dx * dx) as int) <= 499) by {
            crate::geometry::lemma_isqrt_spec((radius * radius - dx * dx) as int);
            assert(dy0 * dy0 <= 249_001);
            assert(dy0 <= 499) by (nonlinear_arith)
                requires
                    dy0 * dy0 <= 249_001,
                    0 <= dy0,
            ;
        }
    }
    let dy: i64 = if (w2 / 0x1_0000_0000) % 2 == 0 {
        dy0
    } else {
        -dy0
    };
    Point { x: clamp_coord(anchor.x + dx), y: clamp_coord(anchor.y + dy) }
}

/// The exec twin of `place_from`.
fn place_from_exec(words: &Vec<u64>, ps: &Vec<Point>, i: usize, j: usize) -> (r: Option<Point>)
    requires
        words@.len() == WORD_COUNT,
        1 <= i <= 24,
        j <= 16,
        1 <= ps@.len() <= 25,
        all_in_square(ps@),
    ensures
        r == place_from(words@, ps@, i as int, j as int),
    decreases 16 - j,
{
    if j >= PLACE_RETRIES {
        None
    } else {
        let p = attempt_point_exec(words, ps, i, j);
        if spaced_from_exec(ps, p) {
            Some(p)
        } else {
            place_from_exec(words, ps, i, j + 1)
        }
    }
}

/// Whether `p` keeps the minimum spacing from every already-placed point.
fn spaced_from_exec(ps: &Vec<Point>, p: Point) -> (r: bool)
    requires
        all_in_square(ps@),
        in_square(p),
    ensures
        r == spaced_from(ps@, p),
{
    let n = ps.len();
    let mut t: usize = 0;
    while t < n
        invariant
            n == ps@.len(),
            0 <= t <= n,
            all_in_square(ps@),
            in_square(p),
            forall|u: int| 0 <= u < t ==> dist_sq_spec(#[trigger] ps@[u], p) > MIN_VERTEX_DIST_SQ,
        decreases n - t,
    {
        if dist_sq(ps[t], p) <= MIN_VERTEX_DIST_SQ {
            return false;
        }
        t += 1;
    }
    true
}

/// Places all vertices for the level: the exec twin of `positions_upto`.
fn build_positions(words: &Vec<u64>, extras: usize) -> (ps: Vec<Point>)
    requires
        words@.len() == WORD_COUNT,
        extras <= 24,
    ensures
        ps@ == positions_upto(words@, extras as int),
        1 <= ps@.len() <= extras + 1,
        all_in_square(ps@),
        pairwise_spaced(ps@),
{
    let mut ps: Vec<Point> = Vec::new();
    ps.push(Point { x: 0, y: 0 });
    proof {
        assert(ps@ =~= positions_upto(words@, 0));
        lemma_positions_upto_ok(words@, 0);
    }
    let mut i: usize = 1;
    while i <= extras
        invariant
            words@.len() == WORD_COUNT,
            extras <= 24,
            1 <= i <= extras + 1,
            ps@ == positions_upto(words@, i - 1),
            1 <= ps@.len() <= i,
            all_in_square(ps@),
            pairwise_spaced(ps@),
        decreases extras + 1 - i,
    {
        match place_from_exec(words, &ps, i, 0) {
            Some(p) => {
                ps.push(p);
            },
            None => {},
        }
        proof {
            lemma_positions_upto_ok(words@, i as int);
        }
        i += 1;
    }
    ps
}


/// Whether no third vertex obstructs the segment between `i1` and `i2`.
pub open spec fn pair_clear(ps: Seq<Point>, i1: int, i2: int) -> bool {
    forall|t: int|
        0 <= t < ps.len() && t != i1 && t != i2 ==> !seg_blocked(
            ps[i1],
            ps[i2],
            #[trigger] ps[t],
            VERTEX_RADIUS as int,
        )
}

/// The coin flip for pair `(i1, i2)`: accepted on an even word.
pub open spec fn pair_coin(ws: Seq<u64>, i1: int, i2: int) -> bool {
    word(ws, PAIR_WORDS_BASE as int + i1 * 25 + i2) as int % 2 == 0
}

/// Whether the pair `(i1, i2)` becomes a potential edge, given `i1`'s
/// degree so far: the endpoints must be close enough to connect, the
/// coin must land right (forced while `i1` has no edge yet), and no
/// third vertex may obstruct the segment.
pub open spec fn pair_accept(ws: Seq<u64>, ps: Seq<Point>, deg1: int, i1: int, i2: int) -> bool {
    &&& dist_sq_spec(ps[i1], ps[i2]) < MAX_CONNECT_DIST_SQ
    &&& (deg1 == 0 || pair_coin(ws, i1, i2))
    &&& pair_clear(ps, i1, i2)
}

/// Degrees and accepted pairs after the inner pair loop has processed
/// pairs `(i1, i2)`, `(i1, i2 + 1)`, ... up to the last vertex.
pub open spec fn pairs_inner(
    ws: Seq<u64>,
    ps: Seq<Point>,
    degs: Seq<int>,
    pairs: Seq<(int, int)>,
    i1: int,
    i2: int,
) -> (Seq<int>, Seq<(int, int)>)
    decreases ps.len() - i2,
{
    if i2 < 0 || i2 >= ps.len() {
        (degs, pairs)
    } else if pair_accept(ws, ps, degs[i1], i1, i2) {
        pairs_inner(
            ws,
            ps,
            degs.update(i1, degs[i1] + 1).update(i2, degs[i2] + 1),
            pairs.push((i1, i2)),
            i1,
            i2 + 1,
        )
    } else {
        pairs_inner(ws, ps, degs, pairs, i1, i2 + 1)
    }
}

/// Degrees and accepted pairs after the outer pair loop has processed
/// every first endpoint from `i1` up.
pub open spec fn pairs_outer(
    ws: Seq<u64>,
    ps: Seq<Point>,
    degs: Seq<int>,
    pairs: Seq<(int, int)>,
    i1: int,
) -> (Seq<int>, Seq<(int, int)>)
    decreases ps.len() - i1,
{
    if i1 < 0 || i1 >= ps.len() {
        (degs, pairs)
    } else {
        let st = pairs_inner(ws, ps, degs, pairs, i1, i1 + 1);
        pairs_outer(ws, ps, st.0, st.1, i1 + 1)
    }
}

pub open spec fn zero_degs(n: int) -> Seq<int> {
    Seq::new(n as nat, |t: int| 0)
}

/// The potential degree of every position of the level.
pub open spec fn degrees_spec(ws: Seq<u64>, ps: Seq<Point>) -> Seq<int> {
    pairs_outer(ws, ps, zero_degs(ps.len() as int), Seq::empty(), 0).0
}

/// The accepted potential edges of the level.
pub open spec fn pairs_spec(ws: Seq<u64>, ps: Seq<Point>) -> Seq<(int, int)> {
    pairs_outer(ws, ps, zero_degs(ps.len() as int), Seq::empty(), 0).1
}

/// A total order on index pairs: lexicographic for endpoints below 1000.
pub open spec fn pair_key(e: (int, int)) -> int {
    e.0 * 1000 + e.1
}

/// Shape of one inner round: degrees keep their length, never shrink,
/// and grow by at most the number of pairs still to look at; accepted
/// pairs are appended, each of the form `(i1, t)` with `i1 < t`.
proof fn lemma_pairs_inner_shape(
    ws: Seq<u64>,
    ps: Seq<Point>,
    degs: Seq<int>,
    pairs: Seq<(int, int)>,
    i1: int,
    i2: int,
)
    requires
        0 <= i1 < ps.len(),
        i1 < i2,
        degs.len() == ps.len(),
        ps.len() < 1000,
    ensures
        ({
            let st = pairs_inner(ws, ps, degs, pairs, i1, i2);
            &&& st.0.len() == degs.len()
            &&& forall|t: int|
                0 <= t < degs.len() ==> degs[t] <= #[trigger] st.0[t] <= degs[t] + (
                if ps.len() - i2 >= 0 {
                    ps.len() - i2
                } else {
                    0
                })
            &&& pairs.len() <= st.1.len() <= pairs.len() + (if ps.len() - i2 >= 0 {
                ps.len() - i2
            } else {
                0
            })
            &&& forall|k: int| 0 <= k < pairs.len() ==> #[trigger] st.1[k] == pairs[k]
            &&& forall|k: int|
                pairs.len() <= k < st.1.len() ==> (#[trigger] st.1[k]).0 == i1 && i1 < st.1[k].1
                    < ps.len() && i2 <= st.1[k].1 && dist_sq_spec(ps[st.1[k].0], ps[st.1[k].1])
                    < MAX_CONNECT_DIST_SQ && pair_clear(ps, st.1[k].0, st.1[k].1)
            &&& forall|k1: int, k2: int|
                pairs.len() <= k1 < k2 < st.1.len() ==> pair_key(#[trigger] st.1[k1]) < pair_key(
                    #[trigger] st.1[k2],
                )
        }),
    decreases ps.len() - i2,
{
    if i2 < 0 || i2 >= ps.len() {
    } else if pair_accept(ws, ps, degs[i1], i1, i2) {
        let degs2 = degs.update(i1, degs[i1] + 1).update(i2, degs[i2] + 1);
        let pairs2 = pairs.push((i1, i2));
        lemma_pairs_inner_shape(ws, ps, degs2, pairs2, i1, i2 + 1);
        let st = pairs_inner(ws, ps, degs, pairs, i1, i2);
        assert forall|k1: int, k2: int|
            pairs.len() <= k1 < k2 < st.1.len() implies pair_key(#[trigger] st.1[k1]) < pair_key(
            #[trigger] st.1[k2],
        ) by {
            if k1 == pairs.len() as int {
                assert(st.1[k1] == pairs2[k1]);
                assert(st.1[k1] == (i1, i2));
                assert(st.1[k2].0 == i1 && i2 + 1 <= st.1[k2].1);
            }
        }
    } else {
        lemma_pairs_inner_shape(ws, ps, degs, pairs, i1, i2 + 1);
    }
}

/// Shape of the outer loop from `i1` on: degrees keep their length and
/// grow by at most the number of positions per remaining round; pairs
/// are appended with ascending endpoints.
proof fn lemma_pairs_outer_shape(
    ws: Seq<u64>,
    ps: Seq<Point>,
    degs: Seq<int>,
    pairs: Seq<(int, int)>,
    i1: int,
)
    requires
        0 <= i1,
        degs.len() == ps.len(),
        ps.len() < 1000,
    ensures
        ({
            let st = pairs_outer(ws, ps, degs, pairs, i1);
            &&& st.0.len() == degs.len()
            &&& forall|t: int|
                0 <= t < degs.len() ==> degs[t] <= #[trigger] st.0[t] <= degs[t] + (
                if ps.len() - i1 >= 0 {
                    (ps.len() - i1) * ps.len()
                } else {
                    0
                })
            &&& forall|k: int| 0 <= k < pairs.len() ==> #[trigger] st.1[k] == pairs[k]
            &&& forall|k: int|
                pairs.len() <= k < st.1.len() ==> i1 <= (#[trigger] st.1[k]).0 < st.1[k].1
                    < ps.len() && dist_sq_spec(ps[st.1[k].0], ps[st.1[k].1])
                    < MAX_CONNECT_DIST_SQ && pair_clear(ps, st.1[k].0, st.1[k].1)
            &&& forall|k1: int, k2: int|
                pairs.len() <= k1 < k2 < st.1.len() ==> pair_key(#[trigger] st.1[k1]) < pair_key(
                    #[trigger] st.1[k2],
                )
        }),
    decreases ps.len() - i1,
{
    if i1 >= ps.len() {
    } else {
        let st1 = pairs_inner(ws, ps, degs, pairs, i1, i1 + 1);
        lemma_pairs_inner_shape(ws, ps, degs, pairs, i1, i1 + 1);
        lemma_pairs_outer_shape(ws, ps, st1.0, st1.1, i1 + 1);
        let st = pairs_outer(ws, ps, st1.0, st1.1, i1 + 1);
        assert forall|k1: int, k2: int|
            pairs.len() <= k1 < k2 < st.1.len() implies pair_key(#[trigger] st.1[k1]) < pair_key(
            #[trigger] st.1[k2],
        ) by {
            if k2 < st1.1.len() {
                assert(st.1[k1] == st1.1[k1] && st.1[k2] == st1.1[k2]);
            } else if k1 < st1.1.len() {
                assert(st.1[k1] == st1.1[k1]);
                assert(st.1[k1].0 == i1 && st.1[k1].1 < ps.len());
                assert(i1 + 1 <= st.1[k2].0);
            }
        }
        assert forall|t: int| 0 <= t < degs.len() implies degs[t] <= #[trigger] st.0[t] <= degs[t]
            + (if ps.len() - i1 >= 0 {
            (ps.len() - i1) * ps.len()
        } else {
            0
        }) by {
            assert(st1.0[t] <= degs[t] + (ps.len() - (i1 + 1)) + 1);
            assert(st.0[t] <= st1.0[t] + (ps.len() - (i1 + 1)) * ps.len());
            assert((ps.len() - (i1 + 1)) * ps.len() + ps.len() == (ps.len() - i1) * ps.len())
                by (nonlinear_arith);
            assert(ps.len() - (i1 + 1) + 1 <= ps.len()) by {
                assert(i1 >= 0);
            }
        }
    }
}

pub open spec fn degs_view(v: Seq<i64>) -> Seq<int> {
    v.map_values(|d: i64| d as int)
}

pub open spec fn pairs_view(v: Seq<(usize, usize)>) -> Seq<(int, int)> {
    v.map_values(|e: (usize, usize)| (e.0 as int, e.1 as int))
}

/// Whether no third vertex obstructs the segment between `i1` and `i2`:
/// the exec twin of `pair_clear`.
fn pair_clear_exec(ps: &Vec<Point>, i1: usize, i2: usize) -> (r: bool)
    requires
        all_in_square(ps@),
        (i1 as int) < ps@.len(),
        (i2 as int) < ps@.len(),
    ensures
        r == pair_clear(ps@, i1 as int, i2 as int),
{
    let n = ps.len();
    let mut t: usize = 0;
    while t < n
        invariant
            n == ps@.len(),
            0 <= t <= n,
            all_in_square(ps@),
            (i1 as int) < n,
            (i2 as int) < n,
            forall|u: int|
                0 <= u < t && u != i1 as int && u != i2 as int ==> !seg_blocked(
                    ps@[i1 as int],
                    ps@[i2 as int],
                    #[trigger] ps@[u],
                    VERTEX_RADIUS as int,
                ),
        decreases n - t,
    {
        if t != i1 && t != i2 {
            if segment_blocked(ps[i1], ps[i2], ps[t], VERTEX_RADIUS) {
                return false;
            }
        }
        t += 1;
    }
    true
}

/// The exec twin of `pairs_inner`.
fn pairs_inner_exec(
    words: &Vec<u64>,
    ps: &Vec<Point>,
    degs: Vec<i64>,
    pairs: Vec<(usize, usize)>,
    i1: usize,
    i2: usize,
) -> (st: (Vec<i64>, Vec<(usize, usize)>))
    requires
        words@.len() == WORD_COUNT,
        all_in_square(ps@),
        ps@.len() <= 25,
        (i1 as int) < ps@.len(),
        i1 < i2,
        degs@.len() == ps@.len(),
        forall|t: int| 0 <= t < degs@.len() ==> 0 <= #[trigger] degs@[t] <= 2000 + i2,
    ensures
        degs_view(st.0@) == pairs_inner(
            words@,
            ps@,
            degs_view(degs@),
            pairs_view(pairs@),
            i1 as int,
            i2 as int,
        ).0,
        pairs_view(st.1@) == pairs_inner(
            words@,
            ps@,
            degs_view(degs@),
            pairs_view(pairs@),
            i1 as int,
            i2 as int,
        ).1,
    decreases ps@.len() - i2 as int,
{
    let ghost dv = degs_view(degs@);
    let ghost pv = pairs_view(pairs@);
    if i2 >= ps.len() {
        (degs, pairs)
    } else {
        let d1 = degs[i1];
        let close = dist_sq(ps[i1], ps[i2]) < MAX_CONNECT_DIST_SQ;
        let coin_ok = if d1 == 0 {
            true
        } else {
            words[PAIR_WORDS_BASE + i1 * 25 + i2] % 2 == 0
        };
        let accept = close && coin_ok && pair_clear_exec(ps, i1, i2);
        proof {
            assert(dv[i1 as int] == d1 as int);
            assert(word(words@, PAIR_WORDS_BASE as int + (i1 as int) * 25 + (i2 as int))
                == words@[PAIR_WORDS_BASE as int + (i1 as int) * 25 + (i2 as int)]);
            assert(accept == pair_accept(words@, ps@, dv[i1 as int], i1 as int, i2 as int));
        }
        if accept {
            let mut degs = degs;
            let mut pairs = pairs;
            let d2 = degs[i2];
            *vstd::std_specs::vec::vec_index_mut(&mut degs, i1) = d1 + 1;
            *vstd::std_specs::vec::vec_index_mut(&mut degs, i2) = d2 + 1;
            pairs.push((i1, i2));
            proof {
                assert(degs_view(degs@) =~= dv.update(i1 as int, dv[i1 as int] + 1).update(
                    i2 as int,
                    dv[i2 as int] + 1,
                ));
                assert(pairs_view(pairs@) =~= pv.push((i1 as int, i2 as int)));
            }
            pairs_inner_exec(words, ps, degs, pairs, i1, i2 + 1)
        } else {
            pairs_inner_exec(words, ps, degs, pairs, i1, i2 + 1)
        }
    }
}

/// The exec twin of `pairs_outer`.
fn pairs_outer_exec(
    words: &Vec<u64>,
    ps: &Vec<Point>,
    degs: Vec<i64>,
    pairs: Vec<(usize, usize)>,
    i1: usize,
) -> (st: (Vec<i64>, Vec<(usize, usize)>))
    requires
        words@.len() == WORD_COUNT,
        all_in_square(ps@),
        ps@.len() <= 25,
        degs@.len() == ps@.len(),
        forall|t: int| 0 <= t < degs@.len() ==> 0 <= #[trigger] degs@[t] <= 25 * (i1 as int + 1),
    ensures
        degs_view(st.0@) == pairs_outer(
            words@,
            ps@,
            degs_view(degs@),
            pairs_view(pairs@),
            i1 as int,
        ).0,
        pairs_view(st.1@) == pairs_outer(
            words@,
            ps@,
            degs_view(degs@),
            pairs_view(pairs@),
            i1 as int,
        ).1,
    decreases ps@.len() - i1 as int,
{
    let ghost dv = degs_view(degs@);
    let ghost pv = pairs_view(pairs@);
    if i1 >= ps.len() {
        (degs, pairs)
    } else {
        let st1 = pairs_inner_exec(words, ps, degs, pairs, i1, i1 + 1);
        proof {
            lemma_pairs_inner_shape(words@, ps@, dv, pv, i1 as int, i1 as int + 1);
            assert forall|t: int| 0 <= t < st1.0@.len() implies 0 <= #[trigger] st1.0@[t] <= 25 * (
            i1 as int + 2) by {
                assert(degs_view(st1.0@)[t] == st1.0@[t] as int);
                assert(degs_view(st1.0@)[t] <= dv[t] + ps@.len());
                assert(dv[t] == degs@[t] as int);
            }
        }
        pairs_outer_exec(words, ps, st1.0, st1.1, i1 + 1)
    }
}


/// The surviving vertices among the first `k` positions: position and
/// degree of every one that kept at least one potential edge, in order.
pub open spec fn survivors_upto(ps: Seq<Point>, degs: Seq<int>, k: int) -> Seq<(Point, int)>
    decreases k,
{
    if k <= 0 {
        Seq::empty()
    } else {
        let pre = survivors_upto(ps, degs, k - 1);
        if degs[k - 1] > 0 {
            pre.push((ps[k - 1], degs[k - 1]))
        } else {
            pre
        }
    }
}

/// The level generated from `seed`: every surviving vertex's position
/// and required degree. A function of the seed alone: calling the
/// generator twice with one seed yields one level.
pub open spec fn level_spec(seed: u64) -> Seq<(Point, int)> {
    let ws = stream_prefix(seed, WORD_COUNT as int);
    let ps = positions_spec(ws, seed);
    let degs = degrees_spec(ws, ps);
    survivors_upto(ps, degs, ps.len() as int)
}

/// The data a graph's vertices carry: position and required degree.
pub open spec fn level_data(g: Graph) -> Seq<(Point, int)> {
    g.vertices@.map_values(|v: Vertex| (v.pos, v.required_edges as int))
}

/// Survivors keep every generated guarantee: they lie in the square,
/// require at least one edge, and keep the minimum spacing pairwise and
/// from every not-yet-scanned position.
proof fn lemma_survivors_ok(ps: Seq<Point>, degs: Seq<int>, k: int)
    requires
        pairwise_spaced(ps),
        all_in_square(ps),
        0 <= k <= ps.len(),
        degs.len() == ps.len(),
    ensures
        ({
            let sv = survivors_upto(ps, degs, k);
            &&& sv.len() <= k
            &&& forall|t: int| 0 <= t < sv.len() ==> in_square((#[trigger] sv[t]).0) && sv[t].1 > 0
            &&& forall|u: int, t: int|
                0 <= u < t < sv.len() ==> dist_sq_spec((#[trigger] sv[u]).0, (#[trigger] sv[t]).0)
                    > MIN_VERTEX_DIST_SQ
            &&& forall|t: int, o: int|
                0 <= t < sv.len() && k <= o < ps.len() ==> dist_sq_spec(
                    (#[trigger] sv[t]).0,
                    #[trigger] ps[o],
                ) > MIN_VERTEX_DIST_SQ
        }),
    decreases k,
{
    if k <= 0 {
    } else {
        lemma_survivors_ok(ps, degs, k - 1);
        let pre = survivors_upto(ps, degs, k - 1);
        let sv = survivors_upto(ps, degs, k);
        if degs[k - 1] > 0 {
            assert(sv == pre.push((ps[k - 1], degs[k - 1])));
            assert forall|t: int| 0 <= t < sv.len() implies in_square((#[trigger] sv[t]).0)
                && sv[t].1 > 0 by {
                if t < pre.len() {
                    assert(sv[t] == pre[t]);
                } else {
                    assert(sv[t] == (ps[k - 1], degs[k - 1]));
                    assert(in_square(ps[k - 1]));
                }
            }
            assert forall|u: int, t: int| 0 <= u < t < sv.len() implies dist_sq_spec(
                (#[trigger] sv[u]).0,
                (#[trigger] sv[t]).0,
            ) > MIN_VERTEX_DIST_SQ by {
                if t < pre.len() {
                    assert(sv[u] == pre[u] && sv[t] == pre[t]);
                } else {
                    assert(sv[t] == (ps[k - 1], degs[k - 1]) && sv[u] == pre[u]);
                    assert(dist_sq_spec(pre[u].0, ps[k - 1]) > MIN_VERTEX_DIST_SQ);
                }
            }
            assert forall|t: int, o: int| 0 <= t < sv.len() && k <= o < ps.len() implies
                dist_sq_spec((#[trigger] sv[t]).0, #[trigger] ps[o]) > MIN_VERTEX_DIST_SQ by {
                if t < pre.len() {
                    assert(sv[t] == pre[t]);
                } else {
                    assert(sv[t] == (ps[k - 1], degs[k - 1]));
                    assert(dist_sq_spec(ps[k - 1], ps[o]) > MIN_VERTEX_DIST_SQ);
                }
            }
        }
    }
}

/// Builds the surviving vertices: the exec twin of `survivors_upto`.
fn build_survivors(ps: &Vec<Point>, degs: &Vec<i64>) -> (vertices: Vec<Vertex>)
    requires
        degs@.len() == ps@.len(),
        forall|t: int| 0 <= t < degs@.len() ==> 0 <= #[trigger] degs@[t] <= 2000,
    ensures
        vertices@.map_values(|v: Vertex| (v.pos, v.required_edges as int)) == survivors_upto(
            ps@,
            degs_view(degs@),
            ps@.len() as int,
        ),
        forall|t: int|
            0 <= t < vertices@.len() ==> {
                let v = #[trigger] vertices@[t];
                v.edges@.len() == 0 && v.pos == v.start_pos
            },
{
    let n = ps.len();
    let mut vertices: Vec<Vertex> = Vec::new();
    let mut k: usize = 0;
    proof {
        assert(vertices@.map_values(|v: Vertex| (v.pos, v.required_edges as int)) =~= survivors_upto(
            ps@,
            degs_view(degs@),
            0,
        ));
    }
    while k < n
        invariant
            n == ps@.len(),
            degs@.len() == n,
            0 <= k <= n,
            forall|t: int| 0 <= t < degs@.len() ==> 0 <= #[trigger] degs@[t] <= 2000,
            vertices@.map_values(|v: Vertex| (v.pos, v.required_edges as int)) == survivors_upto(
                ps@,
                degs_view(degs@),
                k as int,
            ),
            forall|t: int|
                0 <= t < vertices@.len() ==> {
                    let v = #[trigger] vertices@[t];
                    v.edges@.len() == 0 && v.pos == v.start_pos
                },
        decreases n - k,
    {
        let ghost pre = vertices@.map_values(|v: Vertex| (v.pos, v.required_edges as int));
        if degs[k] > 0 {
            let v = Vertex::new(degs[k] as usize, ps[k]);
            vertices.push(v);
            proof {
                assert(vertices@.map_values(|v: Vertex| (v.pos, v.required_edges as int)) =~= pre.push(
                    (ps@[k as int], degs_view(degs@)[k as int]),
                ));
            }
        }
        k += 1;
    }
    vertices
}

/// Generates the level for `seed`: a well-formed graph of unconnected
/// vertices whose positions and required degrees are a function of the
/// seed alone, pairwise spaced, inside the square, each requiring at
/// least one edge.
pub fn generate_level(seed: u64) -> (g: Graph)
    ensures
        g.wf(),
        level_data(g) == level_spec(seed),
        forall|i: int|
            0 <= i < g.len() ==> {
                let v = #[trigger] g.vertices@[i];
                &&& v.edges@.len() == 0
                &&& v.pos == v.start_pos
                &&& in_square(v.pos)
                &&& v.required_edges >= 1
            },
        forall|i: int, j: int|
            0 <= i < j < g.len() ==> dist_sq_spec(g.vertices@[i].pos, g.vertices@[j].pos)
                > MIN_VERTEX_DIST_SQ,
{
    let words = draw_words(seed, WORD_COUNT);
    let lo: u64 = if seed >= 3 {
        4
    } else {
        seed + 1
    };
    let hi: u64 = if seed >= 24 {
        25
    } else {
        seed + 1
    };
    let target: usize = (lo + words[0] % (hi - lo + 1)) as usize;
    proof {
        assert(lo as int == count_lo(seed) && hi as int == count_hi(seed));
        assert(word(words@, 0) == words@[0]);
        assert(target as int == vert_target(words@, seed));
        assert(1 <= target <= 25);
    }
    let ps = build_positions(&words, target - 1);
    let m = ps.len();
    let mut degs: Vec<i64> = Vec::new();
    let mut k: usize = 0;
    while k < m
        invariant
            0 <= k <= m,
            degs@.len() == k,
            forall|t: int| 0 <= t < k ==> #[trigger] degs@[t] == 0,
        decreases m - k,
    {
        degs.push(0);
        k += 1;
    }
    proof {
        assert(degs_view(degs@) =~= zero_degs(m as int));
        assert(pairs_view(Seq::<(usize, usize)>::empty()) =~= Seq::<(int, int)>::empty());
    }
    let st = pairs_outer_exec(&words, &ps, degs, Vec::new(), 0);
    proof {
        lemma_pairs_outer_shape(words@, ps@, zero_degs(m as int), Seq::empty(), 0);
        assert forall|t: int| 0 <= t < st.0@.len() implies 0 <= #[trigger] st.0@[t] <= 2000 by {
            assert(degs_view(st.0@)[t] == st.0@[t] as int);
            assert(degs_view(st.0@)[t] <= zero_degs(m as int)[t] + ps@.len() * ps@.len())
                by (nonlinear_arith)
                requires
                    degs_view(st.0@)[t] <= zero_degs(m as int)[t] + (ps@.len() - 0) * ps@.len(),
            ;
            assert(ps@.len() * ps@.len() <= 625) by (nonlinear_arith)
                requires
                    0 <= ps@.len() <= 25,
            ;
        }
        assert(degs_view(st.0@) == degrees_spec(words@, ps@));
    }
    let vertices = build_survivors(&ps, &st.0);
    let g = Graph { vertices };
    proof {
        let ws = stream_prefix(seed, WORD_COUNT as int);
        assert(words@ == ws);
        assert(ps@ == positions_spec(ws, seed));
        assert(level_data(g) == level_spec(seed));
        lemma_survivors_ok(ps@, degs_view(st.0@), ps@.len() as int);
        let sv = survivors_upto(ps@, degs_view(st.0@), ps@.len() as int);
        assert forall|i: int| 0 <= i < g.len() implies {
            let v = #[trigger] g.vertices@[i];
            &&& v.edges@.len() == 0
            &&& v.pos == v.start_pos
            &&& in_square(v.pos)
            &&& v.required_edges >= 1
        } by {
            assert(level_data(g)[i] == sv[i]);
            assert(g.vertices@[i].pos == sv[i].0);
            assert(g.vertices@[i].required_edges as int == sv[i].1);
        }
        assert forall|i: int, j: int| 0 <= i < j < g.len() implies dist_sq_spec(
            g.vertices@[i].pos,
            g.vertices@[j].pos,
        ) > MIN_VERTEX_DIST_SQ by {
            assert(level_data(g)[i] == sv[i] && level_data(g)[j] == sv[j]);
            assert(g.vertices@[i].pos == sv[i].0 && g.vertices@[j].pos == sv[j].0);
        }
        assert forall|i: int|
            0 <= i < g.vertices@.len() implies (
        #[trigger] g.vertices@[i]).edges@.no_duplicates() by {
            assert(g.vertices@[i].edges@.len() == 0);
        }
        assert(g.wf());
    }
    g
}


/// Law: the generator is deterministic. Two graphs generated from the
/// same seed carry the same vertex data (positions and required
/// degrees); `generate_level` ensures each equals `level_spec(seed)`.
pub proof fn lemma_generate_deterministic(g1: Graph, g2: Graph, seed: u64)
    requires
        level_data(g1) == level_spec(seed),
        level_data(g2) == level_spec(seed),
    ensures
        level_data(g1) == level_data(g2),
{
}

/// The sum of a sequence of integers.
pub open spec fn seq_sum(s: Seq<int>) -> int
    decreases s.len(),
{
    if s.len() == 0 {
        0
    } else {
        seq_sum(s.drop_last()) + s.last()
    }
}

/// Raising one entry by one raises the sum by one.
proof fn lemma_seq_sum_update(s: Seq<int>, i: int, x: int)
    requires
        0 <= i < s.len(),
    ensures
        seq_sum(s.update(i, x)) == seq_sum(s) - s[i] + x,
    decreases s.len(),
{
    let s2 = s.update(i, x);
    if i == s.len() - 1 {
        assert(s2.drop_last() =~= s.drop_last());
        assert(s2.last() == x && s.last() == s[i]);
    } else {
        assert(s2.drop_last() =~= s.drop_last().update(i, x));
        lemma_seq_sum_update(s.drop_last(), i, x);
        assert(s2.last() == s.last());
    }
}

/// Each accepted pair raises the degree sum by exactly two: the inner
/// pair loop keeps `sum == old sum + 2 * new pairs`.
proof fn lemma_pairs_inner_sum(
    ws: Seq<u64>,
    ps: Seq<Point>,
    degs: Seq<int>,
    pairs: Seq<(int, int)>,
    i1: int,
    i2: int,
)
    requires
        0 <= i1 < ps.len(),
        i1 < i2,
        degs.len() == ps.len(),
        ps.len() < 1000,
    ensures
        ({
            let st = pairs_inner(ws, ps, degs, pairs, i1, i2);
            seq_sum(st.0) == seq_sum(degs) + 2 * (st.1.len() - pairs.len())
        }),
    decreases ps.len() - i2,
{
    if i2 < 0 || i2 >= ps.len() {
    } else if pair_accept(ws, ps, degs[i1], i1, i2) {
        let degs1 = degs.update(i1, degs[i1] + 1);
        let degs2 = degs1.update(i2, degs1[i2] + 1);
        lemma_seq_sum_update(degs, i1, degs[i1] + 1);
        lemma_seq_sum_update(degs1, i2, degs1[i2] + 1);
        lemma_pairs_inner_sum(ws, ps, degs2, pairs.push((i1, i2)), i1, i2 + 1);
    } else {
        lemma_pairs_inner_sum(ws, ps, degs, pairs, i1, i2 + 1);
    }
}

/// The outer pair loop keeps `sum == old sum + 2 * new pairs`.
proof fn lemma_pairs_outer_sum(
    ws: Seq<u64>,
    ps: Seq<Point>,
    degs: Seq<int>,
    pairs: Seq<(int, int)>,
    i1: int,
)
    requires
        0 <= i1,
        degs.len() == ps.len(),
        ps.len() < 1000,
    ensures
        ({
            let st = pairs_outer(ws, ps, degs, pairs, i1);
            seq_sum(st.0) == seq_sum(degs) + 2 * (st.1.len() - pairs.len())
        }),
    decreases ps.len() - i1,
{
    if i1 >= ps.len() {
    } else {
        let st1 = pairs_inner(ws, ps, degs, pairs, i1, i1 + 1);
        lemma_pairs_inner_sum(ws, ps, degs, pairs, i1, i1 + 1);
        lemma_pairs_inner_shape(ws, ps, degs, pairs, i1, i1 + 1);
        lemma_pairs_outer_sum(ws, ps, st1.0, st1.1, i1 + 1);
    }
}

/// The sum of a sequence of zeros is zero.
proof fn lemma_seq_sum_zeros(n: int)
    requires
        n >= 0,
    ensures
        seq_sum(zero_degs(n)) == 0,
    decreases n,
{
    if n == 0 {
        assert(zero_degs(0).len() == 0);
    } else {
        assert(zero_degs(n).drop_last() =~= zero_degs(n - 1));
        lemma_seq_sum_zeros(n - 1);
    }
}

/// The degree sum of the whole pair phase is twice the number of
/// accepted pairs.
proof fn lemma_degrees_sum_even(ws: Seq<u64>, ps: Seq<Point>)
    requires
        ps.len() < 1000,
    ensures
        seq_sum(degrees_spec(ws, ps)) == 2 * pairs_spec(ws, ps).len(),
{
    lemma_seq_sum_zeros(ps.len() as int);
    if ps.len() == 0 {
    } else {
        lemma_pairs_outer_sum(ws, ps, zero_degs(ps.len() as int), Seq::empty(), 0);
    }
}


/// How many endpoints of the pairs name vertex `v`.
pub open spec fn pair_degree(pairs: Seq<(int, int)>, v: int) -> int
    decreases pairs.len(),
{
    if pairs.len() == 0 {
        0
    } else {
        pair_degree(pairs.drop_last(), v) + (if pairs.last().0 == v {
            1int
        } else {
            0int
        }) + (if pairs.last().1 == v {
            1int
        } else {
            0int
        })
    }
}

proof fn lemma_pair_degree_push(pairs: Seq<(int, int)>, e: (int, int), v: int)
    ensures
        pair_degree(pairs.push(e), v) == pair_degree(pairs, v) + (if e.0 == v {
            1int
        } else {
            0int
        }) + (if e.1 == v {
            1int
        } else {
            0int
        }),
{
    assert(pairs.push(e).drop_last() =~= pairs);
    assert(pairs.push(e).last() == e);
}

/// Degrees track the accepted pairs through the inner loop: each
/// vertex's degree grows exactly by its new endpoint count.
proof fn lemma_pairs_inner_degree(
    ws: Seq<u64>,
    ps: Seq<Point>,
    degs: Seq<int>,
    pairs: Seq<(int, int)>,
    i1: int,
    i2: int,
    v: int,
)
    requires
        0 <= i1 < ps.len(),
        i1 < i2,
        degs.len() == ps.len(),
        0 <= v < degs.len(),
        ps.len() < 1000,
    ensures
        ({
            let st = pairs_inner(ws, ps, degs, pairs, i1, i2);
            st.0[v] - degs[v] == pair_degree(st.1, v) - pair_degree(pairs, v)
        }),
    decreases ps.len() - i2,
{
    if i2 < 0 || i2 >= ps.len() {
    } else if pair_accept(ws, ps, degs[i1], i1, i2) {
        let degs2 = degs.update(i1, degs[i1] + 1).update(i2, degs[i2] + 1);
        let pairs2 = pairs.push((i1, i2));
        lemma_pair_degree_push(pairs, (i1, i2), v);
        lemma_pairs_inner_degree(ws, ps, degs2, pairs2, i1, i2 + 1, v);
    } else {
        lemma_pairs_inner_degree(ws, ps, degs, pairs, i1, i2 + 1, v);
    }
}

/// Degrees track the accepted pairs through the outer loop.
proof fn lemma_pairs_outer_degree(
    ws: Seq<u64>,
    ps: Seq<Point>,
    degs: Seq<int>,
    pairs: Seq<(int, int)>,
    i1: int,
    v: int,
)
    requires
        0 <= i1,
        degs.len() == ps.len(),
        0 <= v < degs.len(),
        ps.len() < 1000,
    ensures
        ({
            let st = pairs_outer(ws, ps, degs, pairs, i1);
            st.0[v] - degs[v] == pair_degree(st.1, v) - pair_degree(pairs, v)
        }),
    decreases ps.len() - i1,
{
    if i1 >= ps.len() {
    } else {
        let st1 = pairs_inner(ws, ps, degs, pairs, i1, i1 + 1);
        lemma_pairs_inner_degree(ws, ps, degs, pairs, i1, i1 + 1, v);
        lemma_pairs_inner_shape(ws, ps, degs, pairs, i1, i1 + 1);
        lemma_pairs_outer_degree(ws, ps, st1.0, st1.1, i1 + 1, v);
    }
}

proof fn lemma_pair_degree_empty(v: int)
    ensures
        pair_degree(Seq::<(int, int)>::empty(), v) == 0,
{
}

/// Every potential degree equals the number of accepted pairs that end
/// at that vertex.
proof fn lemma_degrees_match_pairs(ws: Seq<u64>, ps: Seq<Point>, v: int)
    requires
        0 <= v < ps.len(),
        ps.len() < 1000,
    ensures
        degrees_spec(ws, ps)[v] == pair_degree(pairs_spec(ws, ps), v),
{
    lemma_pairs_outer_degree(ws, ps, zero_degs(ps.len() as int), Seq::empty(), 0, v);
    lemma_pair_degree_empty(v);
}

/// A vertex that some pair names has at least one endpoint count, and
/// endpoint counts are never negative.
proof fn lemma_pair_degree_pos(pairs: Seq<(int, int)>, v: int)
    ensures
        pair_degree(pairs, v) >= 0,
        (exists|k: int|
            0 <= k < pairs.len() && ((#[trigger] pairs[k]).0 == v || pairs[k].1 == v))
            ==> pair_degree(pairs, v) >= 1,
    decreases pairs.len(),
{
    if pairs.len() == 0 {
    } else {
        lemma_pair_degree_pos(pairs.drop_last(), v);
        if exists|k: int|
            0 <= k < pairs.len() && ((#[trigger] pairs[k]).0 == v || pairs[k].1 == v) {
            let k = choose|k: int|
                0 <= k < pairs.len() && ((#[trigger] pairs[k]).0 == v || pairs[k].1 == v);
            if k < pairs.len() - 1 {
                assert(pairs.drop_last()[k] == pairs[k]);
            }
        }
    }
}


/// The survivor index of original vertex `i`: how many survivors
/// precede it.
pub open spec fn new_index(ps: Seq<Point>, degs: Seq<int>, i: int) -> int {
    survivors_upto(ps, degs, i).len() as int
}

/// Each survivor prefix extends the one before it by zero or one
/// entries, keeping what was there.
proof fn lemma_survivors_step(ps: Seq<Point>, degs: Seq<int>, k: int)
    requires
        1 <= k <= ps.len(),
    ensures
        ({
            let pre = survivors_upto(ps, degs, k - 1);
            let cur = survivors_upto(ps, degs, k);
            &&& forall|t: int| 0 <= t < pre.len() ==> #[trigger] cur[t] == pre[t]
            &&& (degs[k - 1] > 0 ==> cur.len() == pre.len() + 1 && cur[pre.len() as int] == (
            ps[k - 1],
            degs[k - 1],
            ))
            &&& (degs[k - 1] <= 0 ==> cur == pre)
        }),
{
}

/// A surviving vertex appears at its survivor index in every later
/// prefix, and its survivor index steps by one.
proof fn lemma_survivor_at(ps: Seq<Point>, degs: Seq<int>, k: int, i: int)
    requires
        0 <= i < k <= ps.len(),
        degs[i] > 0,
    ensures
        0 <= new_index(ps, degs, i) < survivors_upto(ps, degs, k).len(),
        survivors_upto(ps, degs, k)[new_index(ps, degs, i)] == (ps[i], degs[i]),
        new_index(ps, degs, i + 1) == new_index(ps, degs, i) + 1,
    decreases k,
{
    lemma_survivors_step(ps, degs, i + 1);
    if k == i + 1 {
    } else {
        lemma_survivor_at(ps, degs, k - 1, i);
        lemma_survivors_step(ps, degs, k);
    }
}

/// Survivor indices never decrease along the original order.
proof fn lemma_new_index_mono(ps: Seq<Point>, degs: Seq<int>, i: int, j: int)
    requires
        0 <= i <= j <= ps.len(),
    ensures
        new_index(ps, degs, i) <= new_index(ps, degs, j),
    decreases j - i,
{
    if i < j {
        lemma_survivors_step(ps, degs, j);
        lemma_new_index_mono(ps, degs, i, j - 1);
    }
}

/// Distinct survivors get distinct survivor indices, in the original
/// order.
proof fn lemma_new_index_strict(ps: Seq<Point>, degs: Seq<int>, i: int, j: int)
    requires
        0 <= i < j <= ps.len(),
        degs[i] > 0,
    ensures
        new_index(ps, degs, i) < new_index(ps, degs, j),
{
    lemma_survivors_step(ps, degs, i + 1);
    lemma_new_index_mono(ps, degs, i + 1, j);
}

/// Every survivor slot holds exactly one original vertex's data.
proof fn lemma_survivor_origin(ps: Seq<Point>, degs: Seq<int>, k: int, w: int)
    requires
        0 <= k <= ps.len(),
        0 <= w < survivors_upto(ps, degs, k).len(),
    ensures
        exists|i: int|
            0 <= i < k && #[trigger] degs[i] > 0 && new_index(ps, degs, i) == w && survivors_upto(
                ps,
                degs,
                k,
            )[w] == (ps[i], degs[i]),
    decreases k,
{
    if k <= 0 {
    } else {
        lemma_survivors_step(ps, degs, k);
        let pre = survivors_upto(ps, degs, k - 1);
        if w < pre.len() {
            lemma_survivor_origin(ps, degs, k - 1, w);
            let i = choose|i: int|
                0 <= i < k - 1 && #[trigger] degs[i] > 0 && new_index(ps, degs, i) == w
                    && survivors_upto(ps, degs, k - 1)[w] == (ps[i], degs[i]);
            assert(survivors_upto(ps, degs, k)[w] == (ps[i], degs[i]));
        } else {
            assert(degs[k - 1] > 0);
            assert(new_index(ps, degs, k - 1) == w);
        }
    }
}

/// The accepted pairs, renumbered to the surviving vertices' indices.
pub open spec fn remap_pairs(ps: Seq<Point>, degs: Seq<int>, pairs: Seq<(int, int)>) -> Seq<
    (int, int),
> {
    pairs.map_values(
        |e: (int, int)| (new_index(ps, degs, e.0), new_index(ps, degs, e.1)),
    )
}

/// Renumbering preserves each survivor's endpoint count.
proof fn lemma_remap_degree(ps: Seq<Point>, degs: Seq<int>, pairs: Seq<(int, int)>, v: int)
    requires
        forall|k: int|
            0 <= k < pairs.len() ==> {
                let e = #[trigger] pairs[k];
                &&& 0 <= e.0 < ps.len()
                &&& 0 <= e.1 < ps.len()
                &&& e.0 != e.1
                &&& degs[e.0] > 0
                &&& degs[e.1] > 0
            },
        0 <= v < ps.len(),
        degs[v] > 0,
    ensures
        pair_degree(remap_pairs(ps, degs, pairs), new_index(ps, degs, v)) == pair_degree(pairs, v),
    decreases pairs.len(),
{
    if pairs.len() == 0 {
        assert(remap_pairs(ps, degs, pairs) =~= Seq::<(int, int)>::empty());
    } else {
        let pre = pairs.drop_last();
        let e = pairs.last();
        assert forall|k: int|
            0 <= k < pre.len() implies {
            let e2 = #[trigger] pre[k];
            &&& 0 <= e2.0 < ps.len()
            &&& 0 <= e2.1 < ps.len()
            &&& e2.0 != e2.1
            &&& degs[e2.0] > 0
            &&& degs[e2.1] > 0
        } by {
            assert(pre[k] == pairs[k]);
        }
        lemma_remap_degree(ps, degs, pre, v);
        let rm = remap_pairs(ps, degs, pairs);
        assert(rm.drop_last() =~= remap_pairs(ps, degs, pre));
        assert(rm.last() == (new_index(ps, degs, e.0), new_index(ps, degs, e.1)));
        assert(e.0 == v || new_index(ps, degs, e.0) != new_index(ps, degs, v)) by {
            if e.0 != v {
                if e.0 < v {
                    lemma_new_index_strict(ps, degs, e.0, v);
                } else {
                    lemma_new_index_strict(ps, degs, v, e.0);
                }
            }
        }
        assert(e.1 == v || new_index(ps, degs, e.1) != new_index(ps, degs, v)) by {
            if e.1 != v {
                if e.1 < v {
                    lemma_new_index_strict(ps, degs, e.1, v);
                } else {
                    lemma_new_index_strict(ps, degs, v, e.1);
                }
            }
        }
    }
}

/// A sequence of index pairs is a pairing of a level: every entry joins
/// two distinct existing vertices that are within connection distance
/// and have a clear line of sight, no unordered pair repeats, and every
/// vertex's required degree equals its endpoint count — so the pairing
/// is a playable solution of the level.
/// No third vertex of the level obstructs the segment between the pair.
pub open spec fn level_pair_clear(lv: Seq<(Point, int)>, i1: int, i2: int) -> bool {
    forall|w: int|
        0 <= w < lv.len() && w != i1 && w != i2 ==> !seg_blocked(
            lv[i1].0,
            lv[i2].0,
            (#[trigger] lv[w]).0,
            VERTEX_RADIUS as int,
        )
}

pub open spec fn valid_pairing(pairs: Seq<(int, int)>, lv: Seq<(Point, int)>) -> bool {
    &&& forall|k: int|
        0 <= k < pairs.len() ==> 0 <= (#[trigger] pairs[k]).0 < lv.len() && 0 <= pairs[k].1
            < lv.len() && pairs[k].0 != pairs[k].1 && dist_sq_spec(
            lv[pairs[k].0].0,
            lv[pairs[k].1].0,
        ) < MAX_CONNECT_DIST_SQ && level_pair_clear(lv, pairs[k].0, pairs[k].1)
    &&& forall|k1: int, k2: int|
        0 <= k1 < k2 < pairs.len() ==> !((#[trigger] pairs[k1]) == #[trigger] pairs[k2] || (
        pairs[k1].1, pairs[k1].0) == pairs[k2])
    &&& forall|v: int| 0 <= v < lv.len() ==> pair_degree(pairs, v) == (#[trigger] lv[v]).1
}


/// The sum of the required degrees of a level's vertices.
pub open spec fn level_degree_sum(lv: Seq<(Point, int)>) -> int
    decreases lv.len(),
{
    if lv.len() == 0 {
        0
    } else {
        level_degree_sum(lv.drop_last()) + lv.last().1
    }
}

/// Dropping the zero-degree vertices does not change the degree sum.
proof fn lemma_survivors_sum(ps: Seq<Point>, degs: Seq<int>, k: int)
    requires
        0 <= k <= ps.len(),
        degs.len() == ps.len(),
        forall|t: int| 0 <= t < degs.len() ==> #[trigger] degs[t] >= 0,
    ensures
        level_degree_sum(survivors_upto(ps, degs, k)) == seq_sum(degs.take(k)),
    decreases k,
{
    if k <= 0 {
        assert(degs.take(0) =~= Seq::<int>::empty());
    } else {
        lemma_survivors_sum(ps, degs, k - 1);
        lemma_survivors_step(ps, degs, k);
        assert(degs.take(k).drop_last() =~= degs.take(k - 1));
        assert(degs.take(k).last() == degs[k - 1]);
        let pre = survivors_upto(ps, degs, k - 1);
        if degs[k - 1] > 0 {
            let cur = survivors_upto(ps, degs, k);
            assert(cur == pre.push((ps[k - 1], degs[k - 1])));
            assert(cur.drop_last() =~= pre);
        }
    }
}

/// The dimensions of a generated level: at most 25 positions, degrees
/// of every position non-negative and tracking the accepted pairs.
proof fn lemma_level_dimensions(seed: u64)
    ensures
        ({
            let ws = stream_prefix(seed, WORD_COUNT as int);
            let ps = positions_spec(ws, seed);
            let degs = degrees_spec(ws, ps);
            &&& 1 <= ps.len() <= 25
            &&& degs.len() == ps.len()
            &&& forall|t: int| 0 <= t < degs.len() ==> #[trigger] degs[t] >= 0
        }),
{
    let ws = stream_prefix(seed, WORD_COUNT as int);
    let target = vert_target(ws, seed);
    assert(1 <= target <= 25);
    lemma_positions_upto_ok(ws, target - 1);
    let ps = positions_spec(ws, seed);
    lemma_pairs_outer_shape(ws, ps, zero_degs(ps.len() as int), Seq::empty(), 0);
}

/// Law: in every generated level the sum of the required degrees is
/// even — each accepted potential edge contributes to exactly two
/// vertices.
pub proof fn lemma_level_degree_sum_even(seed: u64)
    ensures
        level_degree_sum(level_spec(seed)) % 2 == 0,
{
    let ws = stream_prefix(seed, WORD_COUNT as int);
    let ps = positions_spec(ws, seed);
    let degs = degrees_spec(ws, ps);
    lemma_level_dimensions(seed);
    lemma_degrees_sum_even(ws, ps);
    lemma_survivors_sum(ps, degs, ps.len() as int);
    assert(degs.take(ps.len() as int) =~= degs);
    assert(level_degree_sum(level_spec(seed)) == 2 * pairs_spec(ws, ps).len());
    vstd::arithmetic::div_mod::lemma_mod_multiples_basic(pairs_spec(ws, ps).len() as int, 2);
    assert(2 * pairs_spec(ws, ps).len() == (pairs_spec(ws, ps).len() as int) * 2)
        by (nonlinear_arith);
}

/// Law: every generated level is feasible — some set of edges over the
/// level's vertices realizes the required degrees exactly. The witness
/// is the generator's own set of accepted potential edges, renumbered to
/// the surviving vertices.
pub proof fn lemma_level_pairing_exists(seed: u64)
    ensures
        exists|pairs: Seq<(int, int)>| valid_pairing(pairs, level_spec(seed)),
{
    let ws = stream_prefix(seed, WORD_COUNT as int);
    let ps = positions_spec(ws, seed);
    let degs = degrees_spec(ws, ps);
    let pairs = pairs_spec(ws, ps);
    let lv = level_spec(seed);
    let n = ps.len() as int;
    lemma_level_dimensions(seed);
    lemma_pairs_outer_shape(ws, ps, zero_degs(n), Seq::empty(), 0);
    assert forall|k: int| 0 <= k < pairs.len() implies {
        let e = #[trigger] pairs[k];
        &&& 0 <= e.0 < n
        &&& 0 <= e.1 < n
        &&& e.0 < e.1
        &&& degs[e.0] > 0
        &&& degs[e.1] > 0
    } by {
        let e = pairs[k];
        lemma_degrees_match_pairs(ws, ps, e.0);
        lemma_degrees_match_pairs(ws, ps, e.1);
        lemma_pair_degree_pos(pairs, e.0);
        lemma_pair_degree_pos(pairs, e.1);
        assert(0 <= k < pairs.len() && (pairs[k].0 == e.0 || pairs[k].1 == e.0));
        assert(0 <= k < pairs.len() && (pairs[k].0 == e.1 || pairs[k].1 == e.1));
    }
    let rm = remap_pairs(ps, degs, pairs);
    assert(rm.len() == pairs.len());
    assert forall|k: int| 0 <= k < rm.len() implies 0 <= (#[trigger] rm[k]).0 < lv.len() && 0 <= rm[k].1
        < lv.len() && rm[k].0 < rm[k].1 && dist_sq_spec(lv[rm[k].0].0, lv[rm[k].1].0)
        < MAX_CONNECT_DIST_SQ && level_pair_clear(lv, rm[k].0, rm[k].1) by {
        let e = pairs[k];
        assert(rm[k] == (new_index(ps, degs, e.0), new_index(ps, degs, e.1)));
        lemma_survivor_at(ps, degs, n, e.0);
        lemma_survivor_at(ps, degs, n, e.1);
        lemma_new_index_strict(ps, degs, e.0, e.1);
        assert(lv[rm[k].0] == (ps[e.0], degs[e.0]) && lv[rm[k].1] == (ps[e.1], degs[e.1]));
        assert(dist_sq_spec(ps[e.0], ps[e.1]) < MAX_CONNECT_DIST_SQ);
        assert(pair_clear(ps, e.0, e.1));
        assert forall|w: int| 0 <= w < lv.len() && w != rm[k].0 && w != rm[k].1 implies
            !seg_blocked(lv[rm[k].0].0, lv[rm[k].1].0, (#[trigger] lv[w]).0, VERTEX_RADIUS as int)
        by {
            lemma_survivor_origin(ps, degs, n, w);
            let o = choose|o: int|
                0 <= o < n && #[trigger] degs[o] > 0 && new_index(ps, degs, o) == w
                    && survivors_upto(ps, degs, n)[w] == (ps[o], degs[o]);
            assert(o != e.0 && o != e.1);
            assert(!seg_blocked(ps[e.0], ps[e.1], ps[o], VERTEX_RADIUS as int));
            assert(lv[w].0 == ps[o]);
        }
        assert(level_pair_clear(lv, rm[k].0, rm[k].1));
    }
    assert forall|k1: int, k2: int| 0 <= k1 < k2 < rm.len() implies !((#[trigger] rm[k1])
        == #[trigger] rm[k2] || (rm[k1].1, rm[k1].0) == rm[k2]) by {
        let e1 = pairs[k1];
        let e2 = pairs[k2];
        assert(pair_key(e1) < pair_key(e2));
        assert(rm[k1] == (new_index(ps, degs, e1.0), new_index(ps, degs, e1.1)));
        assert(rm[k2] == (new_index(ps, degs, e2.0), new_index(ps, degs, e2.1)));
        lemma_new_index_strict(ps, degs, e1.0, e1.1);
        lemma_new_index_strict(ps, degs, e2.0, e2.1);
        assert(e1.0 <= e2.0) by {
            assert(0 <= e1.0 < n && 0 <= e2.0 < n && e1.1 < n && e2.1 < n && n <= 25);
        }
        if e1.0 == e2.0 {
            assert(e1.1 < e2.1) by {
                assert(pair_key(e1) < pair_key(e2));
            }
            lemma_new_index_strict(ps, degs, e1.1, e2.1);
        } else {
            assert(e1.0 < e2.0);
            lemma_new_index_strict(ps, degs, e1.0, e2.0);
        }
    }
    assert forall|v2: int| 0 <= v2 < lv.len() implies pair_degree(rm, v2) == (
    #[trigger] lv[v2]).1 by {
        lemma_survivor_origin(ps, degs, n, v2);
        let i = choose|i: int|
            0 <= i < n && #[trigger] degs[i] > 0 && new_index(ps, degs, i) == v2
                && survivors_upto(ps, degs, n)[v2] == (ps[i], degs[i]);
        lemma_remap_degree(ps, degs, pairs, i);
        lemma_degrees_match_pairs(ws, ps, i);
    }
    assert(valid_pairing(rm, lv));
}

} // verus!
