use graph_puzzle::edge::{clamp_preview, get_obstacle_pos};
use graph_puzzle::geometry::{dist_sq, isqrt, segment_blocked, Point};
use graph_puzzle::vertex::{drag_target, VERTEX_RADIUS};

fn pt(x: i64, y: i64) -> Point {
    Point { x, y }
}

#[test]
fn dist_sq_exact_values() {
    assert_eq!(dist_sq(pt(0, 0), pt(3, 4)), 25);
    assert_eq!(dist_sq(pt(-3, -4), pt(0, 0)), 25);
    assert_eq!(dist_sq(pt(7, 7), pt(7, 7)), 0);
    assert_eq!(dist_sq(pt(-1_000_000, 0), pt(1_000_000, 0)), 4_000_000_000_000);
}

#[test]
fn isqrt_exact_values() {
    assert_eq!(isqrt(0), 0);
    assert_eq!(isqrt(1), 1);
    assert_eq!(isqrt(15), 3);
    assert_eq!(isqrt(16), 4);
    assert_eq!(isqrt(249_001), 499);
    assert_eq!(isqrt(4_611_686_018_427_387_903), 2_147_483_647);
}

#[test]
fn segment_blocked_by_circle_on_path() {
    // A circle of radius 50 centered right on the segment blocks it.
    assert!(segment_blocked(pt(0, 0), pt(100, 0), pt(50, 0), VERTEX_RADIUS));
    // 49 away from the segment: still within the radius.
    assert!(segment_blocked(pt(0, 0), pt(100, 0), pt(50, 49), VERTEX_RADIUS));
    // Exactly the radius away: not strictly closer, so clear.
    assert!(!segment_blocked(pt(0, 0), pt(100, 0), pt(50, 50), VERTEX_RADIUS));
    // Far off to the side: clear.
    assert!(!segment_blocked(pt(0, 0), pt(100, 0), pt(50, 200), VERTEX_RADIUS));
    // Beyond the far endpoint but within the radius of it: blocked.
    assert!(segment_blocked(pt(0, 0), pt(100, 0), pt(140, 0), VERTEX_RADIUS));
    // Beyond the far endpoint and out of reach: clear.
    assert!(!segment_blocked(pt(0, 0), pt(100, 0), pt(160, 0), VERTEX_RADIUS));
}

#[test]
fn obstacle_pos_clear_path_returns_target() {
    let obstacles = vec![pt(50, 200), pt(-100, -100)];
    let r = get_obstacle_pos(pt(0, 0), pt(100, 0), &obstacles);
    assert_eq!(r, pt(100, 0));
}

#[test]
fn obstacle_pos_blocked_path_stops_short() {
    let obstacles = vec![pt(200, 0)];
    let r = get_obstacle_pos(pt(0, 0), pt(400, 0), &obstacles);
    assert_ne!(r, pt(400, 0));
    // The stop point is on the near side of the obstacle.
    assert!(r.x < 200);
    assert_eq!(r.y, 0);
}

#[test]
fn obstacle_pos_degenerate_segment() {
    let obstacles = vec![pt(10, 0)];
    let r = get_obstacle_pos(pt(0, 0), pt(0, 0), &obstacles);
    assert_eq!(r, pt(0, 0));
}

#[test]
fn clamp_preview_short_segment_unchanged() {
    let r = clamp_preview(pt(0, 0), pt(450, 0));
    assert_eq!(r, pt(450, 0));
}

#[test]
fn clamp_preview_long_segment_shortens() {
    let r = clamp_preview(pt(0, 0), pt(1000, 0));
    let d = dist_sq(pt(0, 0), r);
    assert!(d <= 202_500);
    assert!(r.x > 0 && r.y == 0);
}

#[test]
fn drag_leash_inside_and_outside() {
    // Leash of squared radius 2500 (a 50-unit leash).
    let start = pt(0, 0);
    // 30 to the right: squared distance 900, within the leash.
    assert_eq!(drag_target(pt(0, 0), start, 30, 0, 2500), pt(30, 0));
    // 50 exactly: squared distance 2500, still allowed.
    assert_eq!(drag_target(pt(0, 0), start, 50, 0, 2500), pt(50, 0));
    // 60: squared distance 3600 > 2500, rejected, position unchanged.
    assert_eq!(drag_target(pt(0, 0), start, 60, 0, 2500), pt(0, 0));
    // The y delta is screen-space: dragging down by 40 moves y to -40.
    assert_eq!(drag_target(pt(0, 0), start, 0, 40, 2500), pt(0, -40));
    // A drag from an already-offset position is measured from the spawn.
    assert_eq!(drag_target(pt(40, 0), start, 20, 0, 2500), pt(40, 0));
    assert_eq!(drag_target(pt(40, 0), start, 10, 0, 2500), pt(50, 0));
}
