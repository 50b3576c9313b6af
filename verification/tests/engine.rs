use graph_puzzle::edge::Edge;
use graph_puzzle::engine::{GameState, GraphEngine, NextLevelTimer, LEVEL_TRANSITION_TICKS};
use graph_puzzle::geometry::Point;
use graph_puzzle::graph::Graph;
use graph_puzzle::level::generate_level;
use graph_puzzle::vertex::{TextColor, Vertex, VertexMaterial};

fn pt(x: i64, y: i64) -> Point {
    Point { x, y }
}

fn make_engine(data: &[(i64, i64, usize)]) -> GraphEngine {
    let mut vertices = Vec::new();
    let mut materials = Vec::new();
    let mut text_colors = Vec::new();
    for &(x, y, required) in data {
        vertices.push(Vertex::new(required, pt(x, y)));
        materials.push(VertexMaterial::new());
        text_colors.push(TextColor::White);
    }
    GraphEngine {
        graph: Graph { vertices },
        edges: Vec::new(),
        materials,
        text_colors,
        selected: None,
        level: 1,
        state: GameState::Playing,
        timer: NextLevelTimer { remaining: LEVEL_TRANSITION_TICKS },
    }
}

#[test]
fn click_selects_then_connects() {
    let mut e = make_engine(&[(0, 0, 1), (200, 0, 1)]);
    e.handle_vertex_click(0, pt(0, 0));
    assert!(e.selected.is_some());
    assert_eq!(e.selected.as_ref().unwrap().vertex, 0);
    e.handle_vertex_click(1, pt(200, 0));
    assert!(e.selected.is_none());
    assert_eq!(e.edges.len(), 1);
    assert_eq!(e.edges[0], Edge(0, 1));
    assert!(e.graph.linked(0, 1));
    assert!(e.graph.linked(1, 0));
    // Both vertices required one edge: the level is solved.
    assert_eq!(e.state, GameState::LevelTransition);
}

#[test]
fn click_same_vertex_cancels_selection() {
    let mut e = make_engine(&[(0, 0, 1), (200, 0, 1)]);
    e.handle_vertex_click(0, pt(0, 0));
    e.handle_vertex_click(0, pt(10, 0));
    assert!(e.selected.is_none());
    assert_eq!(e.edges.len(), 0);
    assert!(!e.graph.linked(0, 1));
    assert_eq!(e.state, GameState::Playing);
}

#[test]
fn obstructed_connection_rejected() {
    // Three colinear vertices: C (index 2) sits on the segment from A to
    // B, so connecting A and B is rejected.
    let mut e = make_engine(&[(0, 0, 1), (100, 0, 1), (50, 0, 2)]);
    e.handle_vertex_click(0, pt(0, 0));
    e.handle_vertex_click(1, pt(100, 0));
    assert!(e.selected.is_none());
    assert_eq!(e.edges.len(), 0);
    assert!(!e.graph.linked(0, 1));
    assert_eq!(e.state, GameState::Playing);
}

#[test]
fn overlong_connection_rejected() {
    // 600 apart: farther than EDGE_MAX_LEN + 2 * VERTEX_RADIUS = 500.
    let mut e = make_engine(&[(-300, 0, 1), (300, 0, 1)]);
    e.handle_vertex_click(0, pt(-300, 0));
    e.handle_vertex_click(1, pt(300, 0));
    assert!(!e.graph.linked(0, 1));
    assert_eq!(e.edges.len(), 0);
}

#[test]
fn duplicate_connection_rejected_by_click() {
    let mut e = make_engine(&[(0, 0, 2), (200, 0, 2)]);
    e.handle_vertex_click(0, pt(0, 0));
    e.handle_vertex_click(1, pt(200, 0));
    assert_eq!(e.edges.len(), 1);
    e.handle_vertex_click(0, pt(0, 0));
    e.handle_vertex_click(1, pt(200, 0));
    assert_eq!(e.edges.len(), 1);
    assert_eq!(e.graph.vertices[0].edges.len(), 1);
}

#[test]
fn edge_click_disconnects_both_sides() {
    let mut e = make_engine(&[(0, 0, 2), (200, 0, 1), (0, 200, 1)]);
    e.handle_vertex_click(0, pt(0, 0));
    e.handle_vertex_click(1, pt(200, 0));
    assert_eq!(e.edges.len(), 1);
    assert_eq!(e.state, GameState::Playing);
    e.handle_edge_click(0);
    assert_eq!(e.edges.len(), 0);
    assert!(!e.graph.linked(0, 1));
    assert!(!e.graph.linked(1, 0));
}

#[test]
fn removing_excess_edge_can_solve() {
    // Vertex 0 requires one edge but collects two; removing one solves.
    let mut e = make_engine(&[(0, 0, 1), (200, 0, 1), (0, 200, 0)]);
    e.graph.connect(0, 1);
    e.graph.connect(0, 2);
    e.edges.push(Edge(0, 1));
    e.edges.push(Edge(0, 2));
    // Fix up the solved flags for the hand-built state.
    let mut c = TextColor::White;
    e.materials[1].set_solved(true, &mut c);
    assert!(!e.graph.all_satisfied());
    e.handle_edge_click(1);
    assert!(e.graph.all_satisfied());
    assert_eq!(e.state, GameState::LevelTransition);
}

#[test]
fn drag_within_leash_moves_vertex() {
    let mut e = make_engine(&[(0, 0, 1), (200, 0, 1)]);
    e.handle_vertex_drag(0, 30, 10);
    assert_eq!(e.graph.vertices[0].pos, pt(30, -10));
    assert_eq!(e.graph.vertices[0].start_pos, pt(0, 0));
    // Connectivity untouched.
    assert!(!e.graph.linked(0, 1));
}

#[test]
fn drag_beyond_leash_rejected() {
    let mut e = make_engine(&[(0, 0, 1), (200, 0, 1)]);
    // 101 to the right: squared distance 10201 > 10000.
    e.handle_vertex_drag(0, 101, 0);
    assert_eq!(e.graph.vertices[0].pos, pt(0, 0));
    // Exactly 100: squared distance 10000, allowed.
    e.handle_vertex_drag(0, 100, 0);
    assert_eq!(e.graph.vertices[0].pos, pt(100, 0));
    // Another step would leave the leash: measured from the spawn point.
    e.handle_vertex_drag(0, 10, 0);
    assert_eq!(e.graph.vertices[0].pos, pt(100, 0));
}

#[test]
fn mouse_move_tracks_pointer_when_clear() {
    let mut e = make_engine(&[(0, 0, 1), (200, 0, 1)]);
    e.handle_vertex_click(0, pt(0, 0));
    e.handle_mouse_move(pt(120, 90));
    let sel = e.selected.as_ref().unwrap();
    assert_eq!(sel.vertex, 0);
    assert_eq!(sel.edge_end, pt(120, 90));
}

#[test]
fn mouse_move_clamps_long_preview() {
    let mut e = make_engine(&[(0, 0, 1), (200, 0, 1)]);
    e.handle_vertex_click(0, pt(0, 0));
    e.handle_mouse_move(pt(0, -900));
    let sel = e.selected.as_ref().unwrap();
    let dx = sel.edge_end.x;
    let dy = sel.edge_end.y;
    assert!(dx * dx + dy * dy <= 202_500);
}

#[test]
fn mouse_move_stops_at_obstruction() {
    let mut e = make_engine(&[(0, 0, 1), (200, 0, 1)]);
    e.handle_vertex_click(0, pt(0, 0));
    // Vertex 1 sits between the anchor and the pointer.
    e.handle_mouse_move(pt(400, 0));
    let sel = e.selected.as_ref().unwrap();
    assert_ne!(sel.edge_end, pt(400, 0));
}

#[test]
fn background_click_cancels_selection() {
    let mut e = make_engine(&[(0, 0, 1), (200, 0, 1)]);
    e.handle_vertex_click(0, pt(0, 0));
    assert!(e.selected.is_some());
    e.handle_background_click();
    assert!(e.selected.is_none());
    assert_eq!(e.edges.len(), 0);
    assert_eq!(e.materials[0].bits & 1, 0);
}

#[test]
fn input_ignored_while_not_playing() {
    let mut e = make_engine(&[(0, 0, 1), (200, 0, 1)]);
    e.state = GameState::LevelTransition;
    e.handle_vertex_click(0, pt(0, 0));
    assert!(e.selected.is_none());
    e.handle_vertex_drag(0, 30, 0);
    assert_eq!(e.graph.vertices[0].pos, pt(0, 0));
}

#[test]
fn pause_toggles_and_transition_blocks_it() {
    let mut e = make_engine(&[(0, 0, 1), (200, 0, 1)]);
    e.pause();
    assert_eq!(e.state, GameState::Paused);
    e.pause();
    assert_eq!(e.state, GameState::Playing);
    e.state = GameState::LevelTransition;
    e.pause();
    assert_eq!(e.state, GameState::LevelTransition);
}

#[test]
fn solve_advances_level_after_delay() {
    let mut e = make_engine(&[(0, 0, 1), (200, 0, 1)]);
    e.handle_vertex_click(0, pt(0, 0));
    e.handle_vertex_click(1, pt(200, 0));
    assert_eq!(e.state, GameState::LevelTransition);
    // Input is gated during the transition.
    e.handle_edge_click(0);
    assert_eq!(e.edges.len(), 1);
    // Not enough time: still waiting.
    e.tick_next_level_timer(LEVEL_TRANSITION_TICKS - 1);
    assert_eq!(e.state, GameState::LevelTransition);
    assert_eq!(e.level, 1);
    // The rest of the delay elapses: next level, fresh board.
    e.tick_next_level_timer(1);
    assert_eq!(e.state, GameState::Playing);
    assert_eq!(e.level, 2);
    assert_eq!(e.edges.len(), 0);
    assert!(e.selected.is_none());
    // The new board is exactly what the generator makes of level 2.
    let expect = generate_level(2);
    assert_eq!(e.graph.vertices.len(), expect.vertices.len());
    for (a, b) in e.graph.vertices.iter().zip(expect.vertices.iter()) {
        assert_eq!(a.pos, b.pos);
        assert_eq!(a.required_edges, b.required_edges);
    }
}

#[test]
fn select_level_jumps_to_chosen_seed() {
    let mut e = GraphEngine::new();
    assert_eq!(e.level, 1);
    e.select_level(7);
    assert_eq!(e.level, 7);
    assert_eq!(e.state, GameState::Playing);
    let expect = generate_level(7);
    assert_eq!(e.graph.vertices.len(), expect.vertices.len());
    for (a, b) in e.graph.vertices.iter().zip(expect.vertices.iter()) {
        assert_eq!(a.pos, b.pos);
        assert_eq!(a.required_edges, b.required_edges);
    }
}

#[test]
fn selection_flags_follow_clicks() {
    let mut e = make_engine(&[(0, 0, 1), (200, 0, 1)]);
    e.handle_vertex_click(0, pt(0, 0));
    assert_eq!(e.materials[0].bits & 1, 1);
    assert_eq!(e.materials[1].bits & 1, 0);
    e.handle_vertex_click(0, pt(0, 0));
    assert_eq!(e.materials[0].bits & 1, 0);
}

#[test]
fn solved_flags_follow_connections() {
    let mut e = make_engine(&[(0, 0, 2), (200, 0, 1), (0, 200, 1)]);
    e.handle_vertex_click(0, pt(0, 0));
    e.handle_vertex_click(1, pt(200, 0));
    assert_eq!(e.materials[0].bits & 2, 0);
    assert_eq!(e.materials[1].bits & 2, 2);
    assert_eq!(e.text_colors[1], TextColor::Black);
    assert_eq!(e.text_colors[0], TextColor::White);
}
