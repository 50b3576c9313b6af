use graph_puzzle::geometry::Point;
use graph_puzzle::graph::Graph;
use graph_puzzle::vertex::{TextColor, VertexMaterial};

fn two_vertex_graph() -> Graph {
    let mut g = Graph::new();
    g.add_vertex(Point { x: 0, y: 0 }, 1);
    g.add_vertex(Point { x: 200, y: 0 }, 1);
    g
}

#[test]
fn connect_is_symmetric() {
    let mut g = two_vertex_graph();
    assert!(g.connect(0, 1));
    assert!(g.linked(0, 1));
    assert!(g.linked(1, 0));
}

#[test]
fn disconnect_removes_both_sides() {
    let mut g = two_vertex_graph();
    assert!(g.connect(0, 1));
    assert!(g.disconnect(0, 1));
    assert!(!g.linked(0, 1));
    assert!(!g.linked(1, 0));
}

#[test]
fn duplicate_connect_rejected_and_count_stays_one() {
    let mut g = two_vertex_graph();
    assert!(g.connect(0, 1));
    assert!(!g.connect(0, 1));
    assert!(!g.connect(1, 0));
    assert_eq!(g.vertices[0].edges.len(), 1);
    assert_eq!(g.vertices[1].edges.len(), 1);
}

#[test]
fn self_loop_always_rejected() {
    let mut g = two_vertex_graph();
    assert!(!g.connect(0, 0));
    assert!(!g.connect(1, 1));
    assert_eq!(g.vertices[0].edges.len(), 0);
    assert_eq!(g.vertices[1].edges.len(), 0);
}

#[test]
fn unknown_index_rejected() {
    let mut g = two_vertex_graph();
    assert!(!g.connect(0, 5));
    assert!(!g.connect(5, 0));
    assert!(!g.disconnect(0, 5));
    assert!(!g.disconnect(5, 0));
    assert_eq!(g.vertices[0].edges.len(), 0);
}

#[test]
fn disconnect_absent_edge_is_noop() {
    let mut g = two_vertex_graph();
    assert!(!g.disconnect(0, 1));
    assert_eq!(g.vertices[0].edges.len(), 0);
}

#[test]
fn solve_detection_two_vertices() {
    // Two vertices that each require one edge: connected means solved.
    let mut g = two_vertex_graph();
    assert!(!g.all_satisfied());
    assert!(g.connect(0, 1));
    assert!(g.all_satisfied());
    assert!(g.disconnect(0, 1));
    assert!(!g.all_satisfied());
}

#[test]
fn all_satisfied_empty_graph_vacuous() {
    let g = Graph::new();
    assert!(g.all_satisfied());
}

#[test]
fn degree_satisfied_tracks_required() {
    let mut g = Graph::new();
    g.add_vertex(Point { x: 0, y: 0 }, 2);
    g.add_vertex(Point { x: 200, y: 0 }, 1);
    g.add_vertex(Point { x: 0, y: 200 }, 1);
    assert!(g.connect(0, 1));
    assert!(!g.degree_satisfied(0));
    assert!(g.degree_satisfied(1));
    assert!(g.connect(0, 2));
    assert!(g.degree_satisfied(0));
    assert!(g.all_satisfied());
}

#[test]
fn clear_empties_the_graph() {
    let mut g = two_vertex_graph();
    assert!(g.connect(0, 1));
    g.clear();
    assert_eq!(g.vertices.len(), 0);
}

#[test]
fn material_flag_bits() {
    let mut m = VertexMaterial::new();
    assert_eq!(m.bits, 0);
    m.set_selected(true);
    assert_eq!(m.bits, 1);
    let mut color = TextColor::White;
    m.set_solved(true, &mut color);
    assert_eq!(m.bits, 3);
    assert_eq!(color, TextColor::Black);
    m.set_selected(false);
    assert_eq!(m.bits, 2);
    m.set_solved(false, &mut color);
    assert_eq!(m.bits, 0);
    assert_eq!(color, TextColor::White);
}
