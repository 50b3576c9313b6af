//! The interaction state machine: turns pointer clicks and drags into
//! graph mutations, enforces feasibility (distance, obstruction,
//! duplicate edges), refreshes the visual flags, and decides when the
//! puzzle is solved and the next level starts.

use vstd::prelude::*;

use crate::edge::{clamp_preview, get_obstacle_pos, obstructed, Edge, MAX_CONNECT_DIST_SQ,
    PREVIEW_MAX_LEN_SQ};
use crate::geometry::{dist_sq, dist_sq_spec, in_bounds, seg_blocked, Point};
use crate::graph::{unchanged_but_edges, Graph};
use crate::level::{generate_level, in_square, level_data, level_spec};
use crate::vertex::{Selected, TextColor, Vertex, VertexMaterial, DRAG_LEASH_SQ, VERTEX_RADIUS};

verus! {

/// The phases of the game that gate input handling: clicks and drags
/// only act while `Playing`.
#[derive(Clone, Copy, PartialEq, Eq, Structural, Debug)]
pub enum GameState {
    Playing,
    Paused,
    LevelSelect,
    Settings,
    LevelTransition,
}

/// Settle delay between solving a level and the next one, in ticks.
pub const LEVEL_TRANSITION_TICKS: u64 = 1000;

/// Counts down the settle delay before the next level appears.
pub struct NextLevelTimer {
    pub remaining: u64,
}

impl Default for NextLevelTimer {
    fn default() -> (t: Self)
        ensures
            t.remaining == LEVEL_TRANSITION_TICKS,
    {
        NextLevelTimer { remaining: LEVEL_TRANSITION_TICKS }
    }
}

/// The puzzle engine: the graph, the edge list, per-vertex visual
/// state, the transient selection, and level progression.
pub struct GraphEngine {
    pub graph: Graph,
    /// One entry per player-created edge, in creation order.
    pub edges: Vec<Edge>,
    /// Visual state of each vertex, parallel to the graph's vertices.
    pub materials: Vec<VertexMaterial>,
    /// Label color of each vertex, parallel to the graph's vertices.
    pub text_colors: Vec<TextColor>,
    /// The selected vertex and its preview edge, if any.
    pub selected: Option<Selected>,
    /// Current level number; also the generator seed.
    pub level: u64,
    pub state: GameState,
    pub timer: NextLevelTimer,
}

impl GraphEngine {
    /// Every edge entry joins two distinct, connected vertices, and no
    /// unordered pair is listed twice.
    pub open spec fn edges_wf(self) -> bool {
        &&& forall|k: int|
            0 <= k < self.edges@.len() ==> {
                let e = #[trigger] self.edges@[k];
                &&& (e.0 as int) < self.graph.len()
                &&& (e.1 as int) < self.graph.len()
                &&& e.0 != e.1
                &&& self.graph.connected(e.0, e.1)
            }
        &&& forall|k1: int, k2: int|
            0 <= k1 < k2 < self.edges@.len() ==> !crate::edge::edge_joins(
                #[trigger] self.edges@[k1],
                (#[trigger] self.edges@[k2]).0,
                self.edges@[k2].1,
            )
    }

    /// Every connection has an edge entry.
    pub open spec fn edges_complete(self) -> bool {
        forall|a: usize, b: usize|
            #[trigger] self.graph.connected(a, b) ==> exists|k: int|
                0 <= k < self.edges@.len() && crate::edge::edge_joins(#[trigger] self.edges@[k], a, b)
    }

    /// The solved flag and label color of every vertex reflect whether
    /// it is satisfied.
    pub open spec fn flags_wf(self) -> bool {
        &&& self.materials@.len() == self.graph.len()
        &&& self.text_colors@.len() == self.graph.len()
        &&& forall|i: int|
            0 <= i < self.graph.len() ==> (#[trigger] self.materials@[i]).solved_flag()
                == self.graph.vertices@[i].satisfied()
        &&& forall|i: int|
            0 <= i < self.graph.len() ==> #[trigger] self.text_colors@[i] == (
            if self.graph.vertices@[i].satisfied() {
                TextColor::Black
            } else {
                TextColor::White
            })
    }

    /// The selected flag marks exactly the selected vertex.
    pub open spec fn selected_wf(self) -> bool {
        &&& match self.selected {
            Option::Some(s) => (s.vertex as int) < self.graph.len(),
            Option::None => true,
        }
        &&& forall|i: int|
            0 <= i < self.graph.len() ==> ((#[trigger] self.materials@[i]).selected_flag()
                <==> (match self.selected {
                Option::Some(s) => s.vertex as int == i,
                Option::None => false,
            }))
    }

    /// Every vertex spawned inside the square and has been dragged at
    /// most the leash radius from its spawn position.
    pub open spec fn leash_wf(self) -> bool {
        forall|i: int|
            0 <= i < self.graph.len() ==> {
                let v = #[trigger] self.graph.vertices@[i];
                &&& in_square(v.start_pos)
                &&& dist_sq_spec(v.pos, v.start_pos) <= DRAG_LEASH_SQ
            }
    }

    pub open spec fn wf(self) -> bool {
        &&& self.graph.wf()
        &&& self.edges_wf()
        &&& self.edges_complete()
        &&& self.flags_wf()
        &&& self.selected_wf()
        &&& self.leash_wf()
    }

    /// Everything except the interaction state machine's own transient
    /// fields: what a level change resets.
    pub open spec fn same_level_state(self, other: GraphEngine) -> bool {
        &&& self.graph == other.graph
        &&& self.edges@ == other.edges@
        &&& self.materials@ == other.materials@
        &&& self.text_colors@ == other.text_colors@
        &&& self.selected == other.selected
        &&& self.level == other.level
    }

    /// Starts the game at level 1.
    pub fn new() -> (e: GraphEngine)
        ensures
            e.wf(),
            e.level == 1,
            e.state == GameState::Playing,
            e.selected is None,
            e.edges@.len() == 0,
            level_data(e.graph) == level_spec(1),
    {
        let graph = generate_level(1);
        let (materials, text_colors) = fresh_flags(&graph);
        let e = GraphEngine {
            graph,
            edges: Vec::new(),
            materials,
            text_colors,
            selected: None,
            level: 1,
            state: GameState::Playing,
            timer: NextLevelTimer { remaining: LEVEL_TRANSITION_TICKS },
        };
        proof {
            lemma_fresh_engine_wf(e);
        }
        e
    }

    /// Scans the graph; if every vertex is satisfied the game moves to
    /// the level-transition phase. Invoked after every edge creation or
    /// removal.
    pub fn check_if_solved(&mut self)
        requires
            old(self).wf(),
        ensures
            final(self).wf(),
            final(self).state == (if old(self).graph.all_satisfied_spec() {
                GameState::LevelTransition
            } else {
                old(self).state
            }),
            final(self).same_level_state(*old(self)),
            final(self).timer == old(self).timer,
    {
        let ghost pre = *self;
        if self.graph.all_satisfied() {
            self.state = GameState::LevelTransition;
        }
        proof {
            lemma_unchanged_core_wf(pre, *self);
        }
    }

    /// The escape key: toggles the pause menu; ignored during a level
    /// transition.
    pub fn pause(&mut self)
        requires
            old(self).wf(),
        ensures
            final(self).wf(),
            final(self).same_level_state(*old(self)),
            final(self).timer == old(self).timer,
            final(self).state == (match old(self).state {
                GameState::Playing => GameState::Paused,
                GameState::LevelSelect => GameState::Paused,
                GameState::Settings => GameState::Paused,
                GameState::Paused => GameState::Playing,
                GameState::LevelTransition => GameState::LevelTransition,
            }),
    {
        let ghost pre = *self;
        match self.state {
            GameState::Playing | GameState::LevelSelect | GameState::Settings => {
                self.state = GameState::Paused;
            },
            GameState::Paused => {
                self.state = GameState::Playing;
            },
            GameState::LevelTransition => {},
        }
        proof {
            lemma_unchanged_core_wf(pre, *self);
        }
    }

    /// Clears the board, advances the level counter, and generates the
    /// next level from it.
    pub fn switch_level(&mut self)
        requires
            old(self).wf(),
            old(self).level < u64::MAX,
        ensures
            final(self).wf(),
            final(self).level == old(self).level + 1,
            level_data(final(self).graph) == level_spec(final(self).level),
            final(self).selected is None,
            final(self).edges@.len() == 0,
            final(self).state == old(self).state,
            final(self).timer == old(self).timer,
    {
        self.graph.clear();
        self.level = self.level + 1;
        self.graph = generate_level(self.level);
        let (materials, text_colors) = fresh_flags(&self.graph);
        self.materials = materials;
        self.text_colors = text_colors;
        self.edges = Vec::new();
        self.selected = None;
        proof {
            lemma_fresh_engine_wf(*self);
        }
    }

    /// Jumps straight to a chosen level (the level-select menu).
    pub fn select_level(&mut self, level: u64)
        requires
            old(self).wf(),
        ensures
            final(self).wf(),
            final(self).level == level,
            level_data(final(self).graph) == level_spec(level),
            final(self).selected is None,
            final(self).edges@.len() == 0,
            final(self).state == GameState::Playing,
    {
        self.graph.clear();
        self.level = level;
        self.graph = generate_level(self.level);
        let (materials, text_colors) = fresh_flags(&self.graph);
        self.materials = materials;
        self.text_colors = text_colors;
        self.edges = Vec::new();
        self.selected = None;
        self.state = GameState::Playing;
        proof {
            lemma_fresh_engine_wf(*self);
        }
    }

    /// Advances the level-transition timer; when the settle delay has
    /// elapsed, resets it, switches to the next level and resumes play.
    pub fn tick_next_level_timer(&mut self, delta: u64)
        requires
            old(self).wf(),
            old(self).level < u64::MAX,
        ensures
            final(self).wf(),
            old(self).state != GameState::LevelTransition ==> *final(self) == *old(self),
            old(self).state == GameState::LevelTransition && delta < old(self).timer.remaining
                ==> final(self).timer.remaining == old(self).timer.remaining - delta && final(self).same_level_state(*old(self)) && final(self).state == old(self).state,
            old(self).state == GameState::LevelTransition && delta >= old(self).timer.remaining
                ==> final(self).level == old(self).level + 1 && level_data(final(self).graph)
                == level_spec(final(self).level) && final(self).state == GameState::Playing && final(self).timer.remaining == LEVEL_TRANSITION_TICKS && final(self).selected is None && final(self).edges@.len() == 0,
    {
        let ghost pre = *self;
        if !matches!(self.state, GameState::LevelTransition) {
            return ;
        }
        if delta >= self.timer.remaining {
            self.timer.remaining = LEVEL_TRANSITION_TICKS;
            self.state = GameState::Playing;
            proof {
                lemma_unchanged_core_wf(pre, *self);
            }
            self.switch_level();
        } else {
            self.timer.remaining = self.timer.remaining - delta;
            proof {
                lemma_unchanged_core_wf(pre, *self);
            }
        }
    }

    /// Drags vertex `v` by a pointer delta (screen coordinates: the y
    /// axis is flipped into world space). The move is rejected, leaving
    /// the vertex where it was, exactly when it would take the vertex
    /// further than the leash allows from its spawn position; dragging
    /// never changes connectivity.
    pub fn handle_vertex_drag(&mut self, v: usize, dx: i64, dy: i64)
        requires
            old(self).wf(),
            (v as int) < old(self).graph.len(),
            -100_000 <= dx <= 100_000,
            -100_000 <= dy <= 100_000,
        ensures
            final(self).wf(),
            old(self).state != GameState::Playing ==> *final(self) == *old(self),
            old(self).state == GameState::Playing ==> {
                let vx = old(self).graph.vertices@[v as int];
                let moved = Point { x: (vx.pos.x + dx) as i64, y: (vx.pos.y - dy) as i64 };
                if dist_sq_spec(moved, vx.start_pos) > DRAG_LEASH_SQ {
                    *final(self) == *old(self)
                } else {
                    &&& final(self).graph.vertices@ == old(self).graph.vertices@.update(
                        v as int,
                        final(self).graph.vertices@[v as int],
                    )
                    &&& final(self).graph.vertices@[v as int].pos == moved
                    &&& final(self).graph.vertices@[v as int].edges@ == vx.edges@
                    &&& final(self).graph.vertices@[v as int].required_edges == vx.required_edges
                    &&& final(self).graph.vertices@[v as int].start_pos == vx.start_pos
                    &&& final(self).edges@ == old(self).edges@
                    &&& final(self).materials@ == old(self).materials@
                    &&& final(self).text_colors@ == old(self).text_colors@
                    &&& final(self).selected == old(self).selected
                    &&& final(self).level == old(self).level
                    &&& final(self).state == old(self).state
                }
            },
    {
        if !matches!(self.state, GameState::Playing) {
            return ;
        }
        let ghost pre = *self;
        let pos = self.graph.vertices[v].pos;
        let start = self.graph.vertices[v].start_pos;
        proof {
            lemma_leashed_near_square(self.graph.vertices@[v as int]);
        }
        let moved = Point { x: pos.x + dx, y: pos.y - dy };
        if dist_sq(moved, start) > DRAG_LEASH_SQ {
            return ;
        }
        self.graph.set_pos(v, moved);
        proof {
            lemma_same_shape_wf(pre, *self);
        }
    }
}

/// A leashed vertex sits within 720 of the origin on each axis.
pub proof fn lemma_leashed_near_square(v: Vertex)
    requires
        in_square(v.start_pos),
        dist_sq_spec(v.pos, v.start_pos) <= DRAG_LEASH_SQ,
    ensures
        -720 <= v.pos.x <= 720,
        -720 <= v.pos.y <= 720,
        in_bounds(v.pos),
{
    let dx = v.pos.x - v.start_pos.x;
    let dy = v.pos.y - v.start_pos.y;
    assert(-100 <= dx <= 100 && -100 <= dy <= 100) by (nonlinear_arith)
        requires
            dx * dx + dy * dy <= 10_000,
    ;
}

/// Fresh visual state for a newly generated graph: nothing selected,
/// nothing solved.
fn fresh_flags(graph: &Graph) -> (r: (Vec<VertexMaterial>, Vec<TextColor>))
    requires
        forall|i: int|
            0 <= i < graph.len() ==> (#[trigger] graph.vertices@[i]).edges@.len() == 0
                && graph.vertices@[i].required_edges >= 1,
    ensures
        r.0@.len() == graph.len(),
        r.1@.len() == graph.len(),
        forall|i: int|
            0 <= i < graph.len() ==> !(#[trigger] r.0@[i]).solved_flag() && !r.0@[i].selected_flag(),
        forall|i: int| 0 <= i < graph.len() ==> #[trigger] r.1@[i] == TextColor::White,
{
    let n = self_len(graph);
    let mut materials: Vec<VertexMaterial> = Vec::new();
    let mut text_colors: Vec<TextColor> = Vec::new();
    let mut i: usize = 0;
    while i < n
        invariant
            0 <= i <= n,
            materials@.len() == i,
            text_colors@.len() == i,
            forall|t: int|
                0 <= t < i ==> !(#[trigger] materials@[t]).solved_flag()
                    && !materials@[t].selected_flag(),
            forall|t: int| 0 <= t < i ==> #[trigger] text_colors@[t] == TextColor::White,
        decreases n - i,
    {
        materials.push(VertexMaterial::new());
        text_colors.push(TextColor::White);
        i += 1;
    }
    (materials, text_colors)
}

fn self_len(graph: &Graph) -> (n: usize)
    ensures
        n as int == graph.len(),
{
    graph.vertices.len()
}

/// A freshly generated level makes a well-formed engine: no vertex is
/// satisfied yet, nothing is selected, there are no edges.
proof fn lemma_fresh_engine_wf(e: GraphEngine)
    requires
        e.graph.wf(),
        e.edges@.len() == 0,
        e.selected is None,
        e.materials@.len() == e.graph.len(),
        e.text_colors@.len() == e.graph.len(),
        forall|i: int|
            0 <= i < e.graph.len() ==> {
                let v = #[trigger] e.graph.vertices@[i];
                &&& v.edges@.len() == 0
                &&& v.required_edges >= 1
                &&& v.pos == v.start_pos
                &&& in_square(v.pos)
            },
        forall|i: int|
            0 <= i < e.graph.len() ==> !(#[trigger] e.materials@[i]).solved_flag()
                && !e.materials@[i].selected_flag(),
        forall|i: int| 0 <= i < e.graph.len() ==> #[trigger] e.text_colors@[i] == TextColor::White,
    ensures
        e.wf(),
{
    assert forall|i: int| 0 <= i < e.graph.len() implies {
        let v = #[trigger] e.graph.vertices@[i];
        &&& in_square(v.start_pos)
        &&& dist_sq_spec(v.pos, v.start_pos) <= DRAG_LEASH_SQ
    } by {
        let v = e.graph.vertices@[i];
        assert(dist_sq_spec(v.pos, v.pos) == 0) by (nonlinear_arith);
    }
    assert forall|i: int| 0 <= i < e.graph.len() implies (
    #[trigger] e.materials@[i]).solved_flag() == e.graph.vertices@[i].satisfied() by {
        assert(!e.graph.vertices@[i].satisfied());
    }
}

/// Two engines with identical connectivity, edges, flags and selection
/// but possibly different vertex positions share well-formedness of
/// everything but the leash, which must be rechecked.
proof fn lemma_same_shape_wf(e0: GraphEngine, e1: GraphEngine)
    requires
        e0.wf(),
        e1.graph.len() == e0.graph.len(),
        forall|i: int|
            0 <= i < e0.graph.len() ==> {
                let v0 = #[trigger] e0.graph.vertices@[i];
                let v1 = e1.graph.vertices@[i];
                &&& v1.edges@ == v0.edges@
                &&& v1.required_edges == v0.required_edges
                &&& v1.start_pos == v0.start_pos
                &&& in_square(v1.start_pos)
                &&& dist_sq_spec(v1.pos, v1.start_pos) <= DRAG_LEASH_SQ
            },
        e1.edges@ == e0.edges@,
        e1.materials@ == e0.materials@,
        e1.text_colors@ == e0.text_colors@,
        same_selection(e0, e1),
    ensures
        e1.wf(),
{
    assert forall|i: int|
        0 <= i < e1.graph.vertices@.len() implies (
    #[trigger] e1.graph.vertices@[i]).edges@.no_duplicates() by {
        assert(e0.graph.vertices@[i].edges@.no_duplicates());
    }
    assert forall|i: int, k: int|
        0 <= i < e1.graph.vertices@.len() && 0 <= k < e1.graph.vertices@[i].edges@.len() implies {
        let j = #[trigger] e1.graph.vertices@[i].edges@[k];
        &&& (j as int) < e1.graph.vertices@.len()
        &&& j as int != i
        &&& e1.graph.vertices@[j as int].edges@.contains(i as usize)
    } by {
        assert(e0.graph.vertices@[i].edges@[k] == e1.graph.vertices@[i].edges@[k]);
        let j = e1.graph.vertices@[i].edges@[k];
        assert(e0.graph.vertices@[j as int].edges@.contains(i as usize));
    }
    assert forall|k: int| 0 <= k < e1.edges@.len() implies {
        let e = #[trigger] e1.edges@[k];
        &&& (e.0 as int) < e1.graph.len()
        &&& (e.1 as int) < e1.graph.len()
        &&& e.0 != e.1
        &&& e1.graph.connected(e.0, e.1)
    } by {
        let e = e1.edges@[k];
        assert(e0.graph.connected(e.0, e.1));
    }
    assert forall|a: usize, b: usize| #[trigger] e1.graph.connected(a, b) implies exists|k: int|
        0 <= k < e1.edges@.len() && crate::edge::edge_joins(#[trigger] e1.edges@[k], a, b) by {
        assert(e0.graph.connected(a, b));
        let k = choose|k: int|
            0 <= k < e0.edges@.len() && crate::edge::edge_joins(#[trigger] e0.edges@[k], a, b);
        assert(crate::edge::edge_joins(e1.edges@[k], a, b));
    }
    assert forall|i: int| 0 <= i < e1.graph.len() implies (
    #[trigger] e1.materials@[i]).solved_flag() == e1.graph.vertices@[i].satisfied() by {
        assert(e1.graph.vertices@[i].satisfied() == e0.graph.vertices@[i].satisfied());
    }
    assert forall|i: int| 0 <= i < e1.graph.len() implies #[trigger] e1.text_colors@[i] == (
    if e1.graph.vertices@[i].satisfied() {
        TextColor::Black
    } else {
        TextColor::White
    }) by {
        assert(e1.graph.vertices@[i].satisfied() == e0.graph.vertices@[i].satisfied());
    }
    assert forall|i: int| 0 <= i < e1.graph.len() implies {
        let v = #[trigger] e1.graph.vertices@[i];
        &&& in_square(v.start_pos)
        &&& dist_sq_spec(v.pos, v.start_pos) <= DRAG_LEASH_SQ
    } by {
        let v0 = e0.graph.vertices@[i];
        assert(in_square(e1.graph.vertices@[i].start_pos) && dist_sq_spec(
            e1.graph.vertices@[i].pos,
            e1.graph.vertices@[i].start_pos,
        ) <= DRAG_LEASH_SQ);
    }
    assert forall|i: int| 0 <= i < e1.graph.len() implies ((
    #[trigger] e1.materials@[i]).selected_flag() <==> (match e1.selected {
        Option::Some(s) => s.vertex as int == i,
        Option::None => false,
    })) by {
        assert(e1.materials@[i] == e0.materials@[i]);
    }
}

/// An update that touches only the phase or the timer keeps the engine
/// well-formed.
proof fn lemma_unchanged_core_wf(e0: GraphEngine, e1: GraphEngine)
    requires
        e0.wf(),
        e1.graph == e0.graph,
        e1.edges@ == e0.edges@,
        e1.materials@ == e0.materials@,
        e1.text_colors@ == e0.text_colors@,
        same_selection(e0, e1),
    ensures
        e1.wf(),
{
    assert forall|i: int| 0 <= i < e0.graph.len() implies {
        let v0 = #[trigger] e0.graph.vertices@[i];
        let v1 = e1.graph.vertices@[i];
        &&& v1.edges@ == v0.edges@
        &&& v1.required_edges == v0.required_edges
        &&& v1.start_pos == v0.start_pos
        &&& in_square(v1.start_pos)
        &&& dist_sq_spec(v1.pos, v1.start_pos) <= DRAG_LEASH_SQ
    } by {
        assert(e1.graph.vertices@[i] == e0.graph.vertices@[i]);
    }
    lemma_same_shape_wf(e0, e1);
}


/// The two engines have the same vertex selected (or none), whatever the
/// preview endpoint.
pub open spec fn same_selection(e0: GraphEngine, e1: GraphEngine) -> bool {
    match (e0.selected, e1.selected) {
        (Option::Some(a), Option::Some(b)) => a.vertex == b.vertex,
        (Option::None, Option::None) => true,
        _ => false,
    }
}

/// A third vertex stands between the selected vertex `s` and the
/// pointer, so the attempted edge's line of sight is obstructed.
pub open spec fn click_blocked(g: Graph, s: usize, v: usize, pointer: Point) -> bool {
    g.vertices@[s as int].pos != pointer && exists|t: int|
        0 <= t < g.len() && t != s as int && t != v as int && seg_blocked(
            g.vertices@[s as int].pos,
            pointer,
            (#[trigger] g.vertices@[t]).pos,
            VERTEX_RADIUS as int,
        )
}

/// A third vertex stands between the selected vertex `s` and the
/// pointer while the preview edge tracks it.
pub open spec fn preview_blocked(g: Graph, s: usize, pointer: Point) -> bool {
    g.vertices@[s as int].pos != pointer && exists|t: int|
        0 <= t < g.len() && t != s as int && seg_blocked(
            g.vertices@[s as int].pos,
            pointer,
            (#[trigger] g.vertices@[t]).pos,
            VERTEX_RADIUS as int,
        )
}

/// The feasibility rule for a connection attempt from the selected
/// vertex `s` to the clicked vertex `v` at pointer position `pointer`:
/// no self-loop, no duplicate edge, a clear line of sight, and a short
/// enough span.
pub open spec fn connect_allowed(g: Graph, s: usize, v: usize, pointer: Point) -> bool {
    &&& s != v
    &&& !g.connected(s, v)
    &&& !click_blocked(g, s, v, pointer)
    &&& dist_sq_spec(g.vertices@[s as int].pos, g.vertices@[v as int].pos) <= MAX_CONNECT_DIST_SQ
}

impl GraphEngine {
    /// Refreshes vertex `i`'s solved flag and label color from its
    /// current degree.
    fn refresh_solved(&mut self, i: usize)
        requires
            (i as int) < old(self).graph.len(),
            old(self).materials@.len() == old(self).graph.len(),
            old(self).text_colors@.len() == old(self).graph.len(),
        ensures
            final(self).graph == old(self).graph,
            final(self).edges@ == old(self).edges@,
            final(self).selected == old(self).selected,
            final(self).level == old(self).level,
            final(self).state == old(self).state,
            final(self).timer == old(self).timer,
            final(self).materials@ == old(self).materials@.update(
                i as int,
                final(self).materials@[i as int],
            ),
            final(self).materials@[i as int].solved_flag() == final(self).graph.vertices@[i
                as int].satisfied(),
            final(self).materials@[i as int].selected_flag() == old(self).materials@[i
                as int].selected_flag(),
            final(self).text_colors@ == old(self).text_colors@.update(
                i as int,
                if final(self).graph.vertices@[i as int].satisfied() {
                    TextColor::Black
                } else {
                    TextColor::White
                },
            ),
    {
        let sat = self.graph.degree_satisfied(i);
        let m = vstd::std_specs::vec::vec_index_mut(&mut self.materials, i);
        let tc = vstd::std_specs::vec::vec_index_mut(&mut self.text_colors, i);
        m.set_solved(sat, tc);
    }

    /// The current positions of every vertex except `skip1` and `skip2`:
    /// the obstacles a candidate edge between them must avoid.
    fn collect_obstacles(&self, skip1: usize, skip2: usize) -> (obs: Vec<Point>)
        requires
            self.leash_wf(),
        ensures
            obs@ == obstacle_list(self.graph, skip1 as int, skip2 as int, self.graph.len()),
            forall|kk: int| 0 <= kk < obs@.len() ==> in_bounds(#[trigger] obs@[kk]),
    {
        let n = self.graph.vertices.len();
        let mut obs: Vec<Point> = Vec::new();
        let mut t: usize = 0;
        proof {
            assert(obs@ =~= obstacle_list(self.graph, skip1 as int, skip2 as int, 0));
        }
        while t < n
            invariant
                n == self.graph.len(),
                0 <= t <= n,
                obs@ == obstacle_list(self.graph, skip1 as int, skip2 as int, t as int),
            decreases n - t,
        {
            if t != skip1 && t != skip2 {
                obs.push(self.graph.vertices[t].pos);
            }
            t += 1;
        }
        proof {
            assert forall|i: int| 0 <= i < self.graph.len() implies in_bounds(
                (#[trigger] self.graph.vertices@[i]).pos,
            ) by {
                lemma_leashed_near_square(self.graph.vertices@[i]);
            }
            lemma_obstacle_list_origins(self.graph, skip1 as int, skip2 as int, n as int);
        }
        obs
    }

    /// While a vertex is selected, pointer motion drags the preview
    /// edge's far endpoint after the pointer: it reaches the pointer
    /// exactly when the path is clear, stops at the first obstructing
    /// vertex otherwise, and never stretches past the preview length.
    pub fn handle_mouse_move(&mut self, pointer: Point)
        requires
            old(self).wf(),
            in_bounds(pointer),
        ensures
            final(self).wf(),
            old(self).state != GameState::Playing ==> *final(self) == *old(self),
            old(self).state == GameState::Playing ==> match old(self).selected {
                Option::None => *final(self) == *old(self),
                Option::Some(s) => {
                    let pos_s = old(self).graph.vertices@[s.vertex as int].pos;
                    &&& final(self).graph == old(self).graph
                    &&& final(self).edges@ == old(self).edges@
                    &&& final(self).materials@ == old(self).materials@
                    &&& final(self).text_colors@ == old(self).text_colors@
                    &&& final(self).state == old(self).state
                    &&& final(self).level == old(self).level
                    &&& match final(self).selected {
                        Option::Some(s2) => {
                            &&& s2.vertex == s.vertex
                            &&& dist_sq_spec(pos_s, s2.edge_end) <= PREVIEW_MAX_LEN_SQ
                            &&& (!preview_blocked(old(self).graph, s.vertex, pointer)
                                && dist_sq_spec(pos_s, pointer) <= PREVIEW_MAX_LEN_SQ
                                ==> s2.edge_end == pointer)
                        },
                        Option::None => false,
                    }
                },
            },
    {
        if !matches!(self.state, GameState::Playing) {
            return ;
        }
        let ghost pre = *self;
        match self.selected {
            None => {},
            Some(sel) => {
                let s = sel.vertex;
                let obs = self.collect_obstacles(s, s);
                let pos_s = self.graph.vertices[s].pos;
                proof {
                    lemma_leashed_near_square(self.graph.vertices@[s as int]);
                }
                let resolved = get_obstacle_pos(pos_s, pointer, &obs);
                proof {
                    assert forall|i: int| 0 <= i < self.graph.len() implies in_bounds(
                        (#[trigger] self.graph.vertices@[i]).pos,
                    ) by {
                        lemma_leashed_near_square(self.graph.vertices@[i]);
                    }
                    lemma_obstacles_preview(self.graph, s, pointer);
                }
                let clamped = clamp_preview(pos_s, resolved);
                self.selected = Some(Selected { vertex: s, edge_end: clamped });
                proof {
                    lemma_unchanged_core_wf(pre, *self);
                }
            },
        }
    }
}

/// The current position of vertex `i`.
pub open spec fn g_pos(g: Graph, i: int) -> Point {
    g.vertices@[i].pos
}

/// The obstacle list for a pair: the positions of the first `t`
/// vertices, those of the pair itself left out, in index order.
pub open spec fn obstacle_list(g: Graph, skip1: int, skip2: int, t: int) -> Seq<Point>
    decreases t,
{
    if t <= 0 {
        Seq::empty()
    } else {
        let pre = obstacle_list(g, skip1, skip2, t - 1);
        if t - 1 != skip1 && t - 1 != skip2 {
            pre.push(g.vertices@[t - 1].pos)
        } else {
            pre
        }
    }
}

/// Every obstacle comes from a non-excluded vertex and every
/// non-excluded vertex contributes an obstacle.
#[verifier::spinoff_prover]
#[verifier::rlimit(50)]
proof fn lemma_obstacle_list_origins(g: Graph, skip1: int, skip2: int, t: int)
    requires
        0 <= t <= g.len(),
        forall|i: int| 0 <= i < g.len() ==> in_bounds((#[trigger] g.vertices@[i]).pos),
    ensures
        ({
            let obs = obstacle_list(g, skip1, skip2, t);
            &&& forall|kk: int| 0 <= kk < obs.len() ==> in_bounds(#[trigger] obs[kk])
            &&& forall|kk: int|
                0 <= kk < obs.len() ==> exists|u: int|
                    0 <= u < t && u != skip1 && u != skip2 && #[trigger] obs[kk]
                        == g.vertices@[u].pos
            &&& forall|u: int|
                0 <= u < t && u != skip1 && u != skip2 ==> exists|kk: int|
                    0 <= kk < obs.len() && obs[kk] == (#[trigger] g.vertices@[u]).pos
        }),
    decreases t,
{
    if t <= 0 {
    } else {
        lemma_obstacle_list_origins(g, skip1, skip2, t - 1);
        let pre = obstacle_list(g, skip1, skip2, t - 1);
        let obs = obstacle_list(g, skip1, skip2, t);
        if t - 1 != skip1 && t - 1 != skip2 {
            assert(obs == pre.push(g.vertices@[t - 1].pos));
            assert forall|kk: int| 0 <= kk < obs.len() implies exists|u: int|
                0 <= u < t && u != skip1 && u != skip2 && #[trigger] obs[kk]
                    == g.vertices@[u].pos by {
                if kk < pre.len() {
                    assert(obs[kk] == pre[kk]);
                    let u = choose|u: int|
                        0 <= u < t - 1 && u != skip1 && u != skip2 && pre[kk]
                            == g.vertices@[u].pos;
                    assert(obs[kk] == g.vertices@[u].pos);
                } else {
                    assert(obs[kk] == g.vertices@[t - 1].pos);
                }
            }
            assert forall|u: int| 0 <= u < t && u != skip1 && u != skip2 implies exists|kk: int|
                0 <= kk < obs.len() && obs[kk] == (#[trigger] g.vertices@[u]).pos by {
                if u < t - 1 {
                    let kk = choose|kk: int|
                        0 <= kk < pre.len() && pre[kk] == g.vertices@[u].pos;
                    assert(obs[kk] == g.vertices@[u].pos);
                } else {
                    assert(obs[obs.len() - 1] == g.vertices@[u].pos);
                }
            }
        }
    }
}

/// The preview's obstacle query over the collected list agrees with the
/// obstruction predicate over the graph's vertices.
proof fn lemma_obstacles_preview(g: Graph, s: usize, pointer: Point)
    requires
        (s as int) < g.len(),
        forall|i: int| 0 <= i < g.len() ==> in_bounds((#[trigger] g.vertices@[i]).pos),
    ensures
        obstructed(
            g.vertices@[s as int].pos,
            pointer,
            obstacle_list(g, s as int, s as int, g.len()),
        ) == preview_blocked(g, s, pointer),
{
    let pos_s = g.vertices@[s as int].pos;
    let obs = obstacle_list(g, s as int, s as int, g.len());
    lemma_obstacle_list_origins(g, s as int, s as int, g.len());
    if obstructed(pos_s, pointer, obs) {
        let kk = choose|kk: int|
            0 <= kk < obs.len() && seg_blocked(pos_s, pointer, obs[kk], VERTEX_RADIUS as int);
        let t = choose|t: int|
            0 <= t < g.len() && t != s as int && t != s as int && obs[kk]
                == g.vertices@[t].pos;
        assert(seg_blocked(pos_s, pointer, (g.vertices@[t]).pos, VERTEX_RADIUS as int));
        assert(preview_blocked(g, s, pointer));
    }
    if preview_blocked(g, s, pointer) {
        let t = choose|t: int|
            0 <= t < g.len() && t != s as int && seg_blocked(
                pos_s,
                pointer,
                (#[trigger] g.vertices@[t]).pos,
                VERTEX_RADIUS as int,
            );
        let kk = choose|kk: int|
            0 <= kk < obs.len() && obs[kk] == (g.vertices@[t]).pos;
        assert(seg_blocked(pos_s, pointer, obs[kk], VERTEX_RADIUS as int));
        assert(obstructed(pos_s, pointer, obs));
    }
}

/// The click's obstacle query over the collected list agrees with the
/// obstruction predicate over the graph's vertices.
proof fn lemma_obstacles_click(g: Graph, s: usize, v: usize, pointer: Point)
    requires
        (s as int) < g.len(),
        forall|i: int| 0 <= i < g.len() ==> in_bounds((#[trigger] g.vertices@[i]).pos),
    ensures
        obstructed(
            g.vertices@[s as int].pos,
            pointer,
            obstacle_list(g, s as int, v as int, g.len()),
        ) == click_blocked(g, s, v, pointer),
{
    let pos_s = g.vertices@[s as int].pos;
    let obs = obstacle_list(g, s as int, v as int, g.len());
    lemma_obstacle_list_origins(g, s as int, v as int, g.len());
    if obstructed(pos_s, pointer, obs) {
        let kk = choose|kk: int|
            0 <= kk < obs.len() && seg_blocked(pos_s, pointer, obs[kk], VERTEX_RADIUS as int);
        let t = choose|t: int|
            0 <= t < g.len() && t != s as int && t != v as int && obs[kk]
                == g.vertices@[t].pos;
        assert(seg_blocked(pos_s, pointer, (g.vertices@[t]).pos, VERTEX_RADIUS as int));
        assert(click_blocked(g, s, v, pointer));
    }
    if click_blocked(g, s, v, pointer) {
        let t = choose|t: int|
            0 <= t < g.len() && t != s as int && t != v as int && seg_blocked(
                pos_s,
                pointer,
                (#[trigger] g.vertices@[t]).pos,
                VERTEX_RADIUS as int,
            );
        let kk = choose|kk: int|
            0 <= kk < obs.len() && obs[kk] == (g.vertices@[t]).pos;
        assert(seg_blocked(pos_s, pointer, obs[kk], VERTEX_RADIUS as int));
        assert(obstructed(pos_s, pointer, obs));
    }
}


impl GraphEngine {
    /// The first click on a vertex selects it and anchors the preview
    /// edge there; the second click resolves the attempt: it cancels on
    /// the same vertex, and on another vertex creates the edge exactly
    /// when the attempt is feasible (no self-loop, no duplicate, clear
    /// line of sight, short enough span), then refreshes both endpoint
    /// flags and runs the solve check.
    pub fn handle_vertex_click(&mut self, v: usize, pointer: Point)
        requires
            old(self).wf(),
            (v as int) < old(self).graph.len(),
            in_bounds(pointer),
        ensures
            final(self).wf(),
            final(self).level == old(self).level,
            old(self).state != GameState::Playing ==> *final(self) == *old(self),
            old(self).state == GameState::Playing ==> match old(self).selected {
                Option::None => {
                    &&& final(self).selected == Some(
                        Selected { vertex: v, edge_end: pointer },
                    )
                    &&& final(self).graph == old(self).graph
                    &&& final(self).edges@ == old(self).edges@
                    &&& final(self).state == old(self).state
                    &&& final(self).text_colors@ == old(self).text_colors@
                },
                Option::Some(sel) => {
                    &&& final(self).selected is None
                    &&& if connect_allowed(old(self).graph, sel.vertex, v, pointer) {
                        &&& final(self).graph.connected(sel.vertex, v)
                        &&& final(self).graph.connected(v, sel.vertex)
                        &&& final(self).graph.vertices@[sel.vertex as int].edges@ == old(
                            self,
                        ).graph.vertices@[sel.vertex as int].edges@.push(v)
                        &&& final(self).graph.vertices@[v as int].edges@ == old(
                            self,
                        ).graph.vertices@[v as int].edges@.push(sel.vertex)
                        &&& forall|i: int|
                            0 <= i < old(self).graph.len() && i != sel.vertex as int && i
                                != v as int ==> final(self).graph.vertices@[i] == old(
                                self,
                            ).graph.vertices@[i]
                        &&& final(self).edges@ == old(self).edges@.push(
                            Edge(sel.vertex, v),
                        )
                        &&& final(self).state == (if final(self).graph.all_satisfied_spec() {
                            GameState::LevelTransition
                        } else {
                            GameState::Playing
                        })
                    } else {
                        &&& final(self).graph == old(self).graph
                        &&& final(self).edges@ == old(self).edges@
                        &&& final(self).state == old(self).state
                    }
                },
            },
    {
        if !matches!(self.state, GameState::Playing) {
            return ;
        }
        let ghost pre = *self;
        match self.selected {
            None => {
                let m = vstd::std_specs::vec::vec_index_mut(&mut self.materials, v);
                m.set_selected(true);
                self.selected = Some(Selected { vertex: v, edge_end: pointer });
                proof {
                    assert forall|i: int|
                        0 <= i < self.graph.len() implies ((
                    #[trigger] self.materials@[i]).selected_flag() <==> (match self.selected {
                        Option::Some(x) => x.vertex as int == i,
                        Option::None => false,
                    })) by {
                        if i != v as int {
                            assert(self.materials@[i] == pre.materials@[i]);
                            assert(!pre.materials@[i].selected_flag());
                        }
                    }
                    lemma_select_toggle_wf(pre, *self);
                }
            },
            Some(sel) => {
                let s = sel.vertex;
                self.selected = None;
                let m = vstd::std_specs::vec::vec_index_mut(&mut self.materials, s);
                m.set_selected(false);
                proof {
                    assert forall|i: int|
                        0 <= i < self.graph.len() implies ((
                    #[trigger] self.materials@[i]).selected_flag() <==> (match self.selected {
                        Option::Some(x) => x.vertex as int == i,
                        Option::None => false,
                    })) by {
                        if i != s as int {
                            assert(self.materials@[i] == pre.materials@[i]);
                        }
                    }
                    lemma_select_toggle_wf(pre, *self);
                }
                let ghost des = *self;
                let obs = self.collect_obstacles(s, v);
                let pos_s = self.graph.vertices[s].pos;
                proof {
                    assert forall|i: int| 0 <= i < self.graph.len() implies in_bounds(
                        (#[trigger] self.graph.vertices@[i]).pos,
                    ) by {
                        lemma_leashed_near_square(self.graph.vertices@[i]);
                    }
                    lemma_obstacles_click(self.graph, s, v, pointer);
                }
                let resolved = get_obstacle_pos(pos_s, pointer, &obs);
                if resolved != pointer {
                    proof {
                        assert(click_blocked(pre.graph, s, v, pointer));
                    }
                    return ;
                }
                if s == v {
                    return ;
                }
                if self.graph.linked(s, v) {
                    return ;
                }
                let pos_v = self.graph.vertices[v].pos;
                proof {
                    lemma_leashed_near_square(self.graph.vertices@[v as int]);
                }
                if dist_sq(pos_s, pos_v) > MAX_CONNECT_DIST_SQ {
                    return ;
                }
                proof {
                    assert(connect_allowed(pre.graph, s, v, pointer));
                }
                self.graph.connect(s, v);
                self.edges.push(Edge(s, v));
                self.refresh_solved(s);
                self.refresh_solved(v);
                proof {
                    assert forall|i: int| 0 <= i < self.graph.len() implies (
                    #[trigger] self.materials@[i]).solved_flag()
                        == self.graph.vertices@[i].satisfied() by {
                        if i != s as int && i != v as int {
                            assert(self.materials@[i] == des.materials@[i]);
                            assert(self.graph.vertices@[i] == des.graph.vertices@[i]);
                        }
                    }
                    assert forall|i: int| 0 <= i < self.graph.len() implies
                        #[trigger] self.text_colors@[i] == (
                    if self.graph.vertices@[i].satisfied() {
                        TextColor::Black
                    } else {
                        TextColor::White
                    }) by {
                        if i != s as int && i != v as int {
                            assert(self.text_colors@[i] == des.text_colors@[i]);
                            assert(self.graph.vertices@[i] == des.graph.vertices@[i]);
                        }
                    }
                    assert forall|i: int| 0 <= i < self.graph.len() implies !(
                    #[trigger] self.materials@[i]).selected_flag() by {
                        assert(self.materials@[i].selected_flag() == des.materials@[
                            i].selected_flag());
                    }
                    lemma_edge_added_wf(des, *self, s, v);
                }
                self.check_if_solved();
            },
        }
    }

    /// A click that hits no vertex and no edge: cancels any selection
    /// and discards the preview edge; the graph is untouched.
    pub fn handle_background_click(&mut self)
        requires
            old(self).wf(),
        ensures
            final(self).wf(),
            old(self).state != GameState::Playing ==> *final(self) == *old(self),
            old(self).state == GameState::Playing ==> {
                &&& final(self).selected is None
                &&& final(self).graph == old(self).graph
                &&& final(self).edges@ == old(self).edges@
                &&& final(self).text_colors@ == old(self).text_colors@
                &&& final(self).state == old(self).state
                &&& final(self).level == old(self).level
            },
    {
        if !matches!(self.state, GameState::Playing) {
            return ;
        }
        let ghost pre = *self;
        match self.selected {
            None => {},
            Some(sel) => {
                let s = sel.vertex;
                self.selected = None;
                let m = vstd::std_specs::vec::vec_index_mut(&mut self.materials, s);
                m.set_selected(false);
                proof {
                    assert forall|i: int|
                        0 <= i < self.graph.len() implies ((
                    #[trigger] self.materials@[i]).selected_flag() <==> (match self.selected {
                        Option::Some(x) => x.vertex as int == i,
                        Option::None => false,
                    })) by {
                        if i != s as int {
                            assert(self.materials@[i] == pre.materials@[i]);
                        }
                    }
                    lemma_select_toggle_wf(pre, *self);
                }
            },
        }
    }

    /// Clicking an existing edge removes it: both endpoints drop each
    /// other from their connection sets atomically, both solved flags
    /// refresh, and the solve check runs.
    pub fn handle_edge_click(&mut self, k: usize)
        requires
            old(self).wf(),
            (k as int) < old(self).edges@.len(),
        ensures
            final(self).wf(),
            final(self).level == old(self).level,
            old(self).state != GameState::Playing ==> *final(self) == *old(self),
            old(self).state == GameState::Playing ==> {
                let e = old(self).edges@[k as int];
                &&& final(self).edges@ == old(self).edges@.remove(k as int)
                &&& !final(self).graph.connected(e.0, e.1)
                &&& !final(self).graph.connected(e.1, e.0)
                &&& final(self).graph.vertices@[e.0 as int].degree() == old(
                    self,
                ).graph.vertices@[e.0 as int].degree() - 1
                &&& final(self).graph.vertices@[e.1 as int].degree() == old(
                    self,
                ).graph.vertices@[e.1 as int].degree() - 1
                &&& forall|i: int|
                    0 <= i < old(self).graph.len() && i != e.0 as int && i != e.1 as int
                        ==> final(self).graph.vertices@[i] == old(self).graph.vertices@[i]
                &&& final(self).selected == old(self).selected
                &&& final(self).state == (if final(self).graph.all_satisfied_spec() {
                    GameState::LevelTransition
                } else {
                    GameState::Playing
                })
            },
    {
        if !matches!(self.state, GameState::Playing) {
            return ;
        }
        let ghost pre = *self;
        let e = self.edges[k];
        self.edges.remove(k);
        proof {
            assert(pre.graph.connected(e.0, e.1));
        }
        self.graph.disconnect(e.0, e.1);
        self.refresh_solved(e.0);
        self.refresh_solved(e.1);
        proof {
            assert forall|i: int| 0 <= i < self.graph.len() implies (
            #[trigger] self.materials@[i]).solved_flag()
                == self.graph.vertices@[i].satisfied() by {
                if i != e.0 as int && i != e.1 as int {
                    assert(self.materials@[i] == pre.materials@[i]);
                    assert(self.graph.vertices@[i] == pre.graph.vertices@[i]);
                }
            }
            assert forall|i: int| 0 <= i < self.graph.len() implies #[trigger] self.text_colors@[i]
                == (if self.graph.vertices@[i].satisfied() {
                TextColor::Black
            } else {
                TextColor::White
            }) by {
                if i != e.0 as int && i != e.1 as int {
                    assert(self.text_colors@[i] == pre.text_colors@[i]);
                    assert(self.graph.vertices@[i] == pre.graph.vertices@[i]);
                }
            }
            assert forall|i: int| 0 <= i < self.graph.len() implies ((
            #[trigger] self.materials@[i]).selected_flag() == pre.materials@[
                i].selected_flag()) by {}
            lemma_edge_removed_wf(pre, *self, k as int, e.0, e.1);
        }
        self.check_if_solved();
    }
}

/// Toggling which vertex is selected keeps the engine well-formed: only
/// the selected flags and the selection field change.
proof fn lemma_select_toggle_wf(e0: GraphEngine, e1: GraphEngine)
    requires
        e0.wf(),
        e1.graph == e0.graph,
        e1.edges@ == e0.edges@,
        e1.text_colors@ == e0.text_colors@,
        e1.materials@.len() == e0.materials@.len(),
        forall|i: int|
            0 <= i < e0.materials@.len() ==> (#[trigger] e1.materials@[i]).solved_flag()
                == e0.materials@[i].solved_flag(),
        match e1.selected {
            Option::Some(x) => (x.vertex as int) < e1.graph.len(),
            Option::None => true,
        },
        forall|i: int|
            0 <= i < e1.graph.len() ==> ((#[trigger] e1.materials@[i]).selected_flag()
                <==> (match e1.selected {
                Option::Some(x) => x.vertex as int == i,
                Option::None => false,
            })),
    ensures
        e1.wf(),
{
    assert forall|k: int| 0 <= k < e1.edges@.len() implies {
        let e = #[trigger] e1.edges@[k];
        &&& (e.0 as int) < e1.graph.len()
        &&& (e.1 as int) < e1.graph.len()
        &&& e.0 != e.1
        &&& e1.graph.connected(e.0, e.1)
    } by {
        let e = e1.edges@[k];
        assert(e0.edges@[k] == e);
        assert(e0.graph.connected(e.0, e.1));
    }
    assert forall|k1: int, k2: int| 0 <= k1 < k2 < e1.edges@.len() implies !crate::edge::edge_joins(
        #[trigger] e1.edges@[k1],
        (#[trigger] e1.edges@[k2]).0,
        e1.edges@[k2].1,
    ) by {
        assert(e0.edges@[k1] == e1.edges@[k1] && e0.edges@[k2] == e1.edges@[k2]);
    }
    assert forall|a: usize, b: usize| #[trigger] e1.graph.connected(a, b) implies exists|k: int|
        0 <= k < e1.edges@.len() && crate::edge::edge_joins(#[trigger] e1.edges@[k], a, b) by {
        assert(e0.graph.connected(a, b));
        let k = choose|k: int|
            0 <= k < e0.edges@.len() && crate::edge::edge_joins(#[trigger] e0.edges@[k], a, b);
        assert(crate::edge::edge_joins(e1.edges@[k], a, b));
    }
    assert forall|i: int| 0 <= i < e1.graph.len() implies (
    #[trigger] e1.materials@[i]).solved_flag() == e1.graph.vertices@[i].satisfied() by {
        assert(e0.materials@[i].solved_flag() == e0.graph.vertices@[i].satisfied());
    }
    assert forall|i: int| 0 <= i < e1.graph.len() implies #[trigger] e1.text_colors@[i] == (
    if e1.graph.vertices@[i].satisfied() {
        TextColor::Black
    } else {
        TextColor::White
    }) by {
        assert(e0.text_colors@[i] == e1.text_colors@[i]);
    }
    assert forall|i: int| 0 <= i < e1.graph.len() implies {
        let vx = #[trigger] e1.graph.vertices@[i];
        &&& in_square(vx.start_pos)
        &&& dist_sq_spec(vx.pos, vx.start_pos) <= DRAG_LEASH_SQ
    } by {
        let v0 = e0.graph.vertices@[i];
        assert(in_square(e1.graph.vertices@[i].start_pos) && dist_sq_spec(
            e1.graph.vertices@[i].pos,
            e1.graph.vertices@[i].start_pos,
        ) <= DRAG_LEASH_SQ);
    }
}

/// Creating the edge `{s, v}` keeps the engine well-formed: the graph
/// gained the connection on both sides, the edge list gained one entry,
/// and the endpoint flags were refreshed.
proof fn lemma_edge_added_wf(e0: GraphEngine, e1: GraphEngine, s: usize, v: usize)
    requires
        e0.wf(),
        (s as int) < e0.graph.len(),
        (v as int) < e0.graph.len(),
        s != v,
        !e0.graph.connected(s, v),
        e1.graph.wf(),
        e1.graph.len() == e0.graph.len(),
        e1.graph.vertices@[s as int].edges@ == e0.graph.vertices@[s as int].edges@.push(v),
        e1.graph.vertices@[v as int].edges@ == e0.graph.vertices@[v as int].edges@.push(s),
        forall|i: int|
            0 <= i < e0.graph.len() && i != s as int && i != v as int ==> e1.graph.vertices@[i]
                == e0.graph.vertices@[i],
        crate::graph::unchanged_but_edges(
            e0.graph.vertices@[s as int],
            e1.graph.vertices@[s as int],
        ),
        crate::graph::unchanged_but_edges(
            e0.graph.vertices@[v as int],
            e1.graph.vertices@[v as int],
        ),
        e1.edges@ == e0.edges@.push(Edge(s, v)),
        e1.materials@.len() == e1.graph.len(),
        e1.text_colors@.len() == e1.graph.len(),
        forall|i: int|
            0 <= i < e1.graph.len() ==> (#[trigger] e1.materials@[i]).solved_flag()
                == e1.graph.vertices@[i].satisfied(),
        forall|i: int|
            0 <= i < e1.graph.len() ==> #[trigger] e1.text_colors@[i] == (
            if e1.graph.vertices@[i].satisfied() {
                TextColor::Black
            } else {
                TextColor::White
            }),
        e1.selected is None,
        forall|i: int|
            0 <= i < e1.graph.len() ==> !(#[trigger] e1.materials@[i]).selected_flag(),
    ensures
        e1.wf(),
{
    lemma_wf_not_connected_sym_engine(e0, s, v);
    assert forall|k: int| 0 <= k < e1.edges@.len() implies {
        let e = #[trigger] e1.edges@[k];
        &&& (e.0 as int) < e1.graph.len()
        &&& (e.1 as int) < e1.graph.len()
        &&& e.0 != e.1
        &&& e1.graph.connected(e.0, e.1)
    } by {
        let e = e1.edges@[k];
        if k < e0.edges@.len() {
            assert(e == e0.edges@[k]);
            assert(e0.graph.connected(e.0, e.1));
            lemma_connected_after_add(e0, e1, s, v, e.0, e.1);
        } else {
            assert(e == Edge(s, v));
            assert(e1.graph.vertices@[s as int].edges@.last() == v);
            assert(e1.graph.connected(s, v));
        }
    }
    assert forall|k1: int, k2: int| 0 <= k1 < k2 < e1.edges@.len() implies !crate::edge::edge_joins(
        #[trigger] e1.edges@[k1],
        (#[trigger] e1.edges@[k2]).0,
        e1.edges@[k2].1,
    ) by {
        if k2 < e0.edges@.len() {
            assert(e1.edges@[k1] == e0.edges@[k1] && e1.edges@[k2] == e0.edges@[k2]);
        } else {
            assert(e1.edges@[k2] == Edge(s, v));
            assert(e1.edges@[k1] == e0.edges@[k1]);
            if crate::edge::edge_joins(e0.edges@[k1], s, v) {
                let e = e0.edges@[k1];
                assert(e0.graph.connected(e.0, e.1));
                if e.0 == s && e.1 == v {
                    assert(false);
                } else {
                    assert(e.0 == v && e.1 == s);
                    crate::graph::lemma_wf_connected(e0.graph, v, s);
                    assert(false);
                }
            }
        }
    }
    assert forall|a: usize, b: usize| #[trigger] e1.graph.connected(a, b) implies exists|k: int|
        0 <= k < e1.edges@.len() && crate::edge::edge_joins(#[trigger] e1.edges@[k], a, b) by {
        let new_k = e0.edges@.len() as int;
        if (a == s && b == v) || (a == v && b == s) {
            assert(e1.edges@[new_k] == Edge(s, v));
            assert(crate::edge::edge_joins(e1.edges@[new_k], a, b));
        } else {
            assert(e0.graph.connected(a, b)) by {
                lemma_connected_before_add(e0, e1, s, v, a, b);
            }
            let k = choose|k: int|
                0 <= k < e0.edges@.len() && crate::edge::edge_joins(#[trigger] e0.edges@[k], a, b);
            assert(e1.edges@[k] == e0.edges@[k]);
            assert(crate::edge::edge_joins(e1.edges@[k], a, b));
        }
    }
    assert forall|i: int| 0 <= i < e1.graph.len() implies {
        let vx = #[trigger] e1.graph.vertices@[i];
        &&& in_square(vx.start_pos)
        &&& dist_sq_spec(vx.pos, vx.start_pos) <= DRAG_LEASH_SQ
    } by {
        let v0 = e0.graph.vertices@[i];
        if i == s as int || i == v as int {
            assert(e1.graph.vertices@[i].pos == v0.pos && e1.graph.vertices@[i].start_pos
                == v0.start_pos);
        }
        assert(in_square(v0.start_pos) && dist_sq_spec(v0.pos, v0.start_pos) <= DRAG_LEASH_SQ);
    }
}

/// In a well-formed engine, an absent connection is absent on both
/// sides.
proof fn lemma_wf_not_connected_sym_engine(e0: GraphEngine, s: usize, v: usize)
    requires
        e0.graph.wf(),
        (s as int) < e0.graph.len(),
        (v as int) < e0.graph.len(),
        !e0.graph.connected(s, v),
    ensures
        !e0.graph.connected(v, s),
{
    crate::graph::lemma_wf_not_connected_sym(e0.graph, s, v);
}

/// A connection between two vertices other than the new pair survives
/// adding the pair.
proof fn lemma_connected_after_add(
    e0: GraphEngine,
    e1: GraphEngine,
    s: usize,
    v: usize,
    a: usize,
    b: usize,
)
    requires
        (s as int) < e0.graph.len(),
        (v as int) < e0.graph.len(),
        e1.graph.len() == e0.graph.len(),
        e1.graph.vertices@[s as int].edges@ == e0.graph.vertices@[s as int].edges@.push(v),
        e1.graph.vertices@[v as int].edges@ == e0.graph.vertices@[v as int].edges@.push(s),
        forall|i: int|
            0 <= i < e0.graph.len() && i != s as int && i != v as int ==> e1.graph.vertices@[i]
                == e0.graph.vertices@[i],
        e0.graph.connected(a, b),
    ensures
        e1.graph.connected(a, b),
{
    let edges0 = e0.graph.vertices@[a as int].edges@;
    let k = choose|k: int| 0 <= k < edges0.len() && edges0[k] == b;
    if a == s {
        assert(e1.graph.vertices@[a as int].edges@[k] == b);
    } else if a == v {
        assert(e1.graph.vertices@[a as int].edges@[k] == b);
    } else {
        assert(e1.graph.vertices@[a as int] == e0.graph.vertices@[a as int]);
    }
}

/// A connection in the grown graph that is not the new pair already
/// existed.
proof fn lemma_connected_before_add(
    e0: GraphEngine,
    e1: GraphEngine,
    s: usize,
    v: usize,
    a: usize,
    b: usize,
)
    requires
        (s as int) < e0.graph.len(),
        (v as int) < e0.graph.len(),
        e1.graph.len() == e0.graph.len(),
        e1.graph.vertices@[s as int].edges@ == e0.graph.vertices@[s as int].edges@.push(v),
        e1.graph.vertices@[v as int].edges@ == e0.graph.vertices@[v as int].edges@.push(s),
        forall|i: int|
            0 <= i < e0.graph.len() && i != s as int && i != v as int ==> e1.graph.vertices@[i]
                == e0.graph.vertices@[i],
        e1.graph.connected(a, b),
        !((a == s && b == v) || (a == v && b == s)),
    ensures
        e0.graph.connected(a, b),
{
    let edges1 = e1.graph.vertices@[a as int].edges@;
    let k = choose|k: int| 0 <= k < edges1.len() && edges1[k] == b;
    if a == s {
        let edges0 = e0.graph.vertices@[a as int].edges@;
        if k < edges0.len() {
            assert(edges0[k] == b);
        } else {
            assert(edges1[k] == v);
            assert(false);
        }
    } else if a == v {
        let edges0 = e0.graph.vertices@[a as int].edges@;
        if k < edges0.len() {
            assert(edges0[k] == b);
        } else {
            assert(edges1[k] == s);
            assert(false);
        }
    } else {
        assert(e1.graph.vertices@[a as int] == e0.graph.vertices@[a as int]);
    }
}

/// Removing edge `k`, which joined `s` and `v`, keeps the engine
/// well-formed.
proof fn lemma_edge_removed_wf(e0: GraphEngine, e1: GraphEngine, k: int, s: usize, v: usize)
    requires
        e0.wf(),
        0 <= k < e0.edges@.len(),
        e0.edges@[k] == Edge(s, v),
        e1.graph.wf(),
        e1.graph.len() == e0.graph.len(),
        !e1.graph.connected(s, v),
        !e1.graph.connected(v, s),
        forall|x: usize|
            #[trigger] e1.graph.vertices@[s as int].edges@.contains(x) <==> (
            e0.graph.vertices@[s as int].edges@.contains(x) && x != v),
        forall|x: usize|
            #[trigger] e1.graph.vertices@[v as int].edges@.contains(x) <==> (
            e0.graph.vertices@[v as int].edges@.contains(x) && x != s),
        forall|i: int|
            0 <= i < e0.graph.len() && i != s as int && i != v as int ==> e1.graph.vertices@[i]
                == e0.graph.vertices@[i],
        crate::graph::unchanged_but_edges(
            e0.graph.vertices@[s as int],
            e1.graph.vertices@[s as int],
        ),
        crate::graph::unchanged_but_edges(
            e0.graph.vertices@[v as int],
            e1.graph.vertices@[v as int],
        ),
        e1.edges@ == e0.edges@.remove(k),
        e1.materials@.len() == e1.graph.len(),
        e1.text_colors@.len() == e1.graph.len(),
        forall|i: int|
            0 <= i < e1.graph.len() ==> (#[trigger] e1.materials@[i]).solved_flag()
                == e1.graph.vertices@[i].satisfied(),
        forall|i: int|
            0 <= i < e1.graph.len() ==> #[trigger] e1.text_colors@[i] == (
            if e1.graph.vertices@[i].satisfied() {
                TextColor::Black
            } else {
                TextColor::White
            }),
        forall|i: int|
            0 <= i < e1.graph.len() ==> (#[trigger] e1.materials@[i]).selected_flag()
                == e0.materials@[i].selected_flag(),
        e1.selected == e0.selected,
    ensures
        e1.wf(),
{
    e0.edges@.remove_ensures(k);
    assert(s != v);
    assert forall|k1: int| 0 <= k1 < e1.edges@.len() implies {
        let e = #[trigger] e1.edges@[k1];
        &&& (e.0 as int) < e1.graph.len()
        &&& (e.1 as int) < e1.graph.len()
        &&& e.0 != e.1
        &&& e1.graph.connected(e.0, e.1)
    } by {
        let k0 = if k1 < k {
            k1
        } else {
            k1 + 1
        };
        let e = e1.edges@[k1];
        assert(e == e0.edges@[k0]);
        assert(e0.graph.connected(e.0, e.1));
        assert(k0 != k);
        if k0 < k {
            assert(!crate::edge::edge_joins(e0.edges@[k0], (e0.edges@[k]).0, e0.edges@[k].1));
        } else {
            assert(!crate::edge::edge_joins(e0.edges@[k], (e0.edges@[k0]).0, e0.edges@[k0].1));
        }
        assert(!((e.0 == s && e.1 == v) || (e.0 == v && e.1 == s)));
        lemma_connected_after_remove(e0, e1, s, v, e.0, e.1);
    }
    assert forall|k1: int, k2: int| 0 <= k1 < k2 < e1.edges@.len() implies !crate::edge::edge_joins(
        #[trigger] e1.edges@[k1],
        (#[trigger] e1.edges@[k2]).0,
        e1.edges@[k2].1,
    ) by {
        let j1 = if k1 < k {
            k1
        } else {
            k1 + 1
        };
        let j2 = if k2 < k {
            k2
        } else {
            k2 + 1
        };
        assert(e1.edges@[k1] == e0.edges@[j1] && e1.edges@[k2] == e0.edges@[j2]);
        assert(0 <= j1 < j2 < e0.edges@.len());
    }
    assert forall|a: usize, b: usize| #[trigger] e1.graph.connected(a, b) implies exists|k2: int|
        0 <= k2 < e1.edges@.len() && crate::edge::edge_joins(#[trigger] e1.edges@[k2], a, b) by {
        lemma_connected_before_remove(e0, e1, s, v, a, b);
        let k0 = choose|k0: int|
            0 <= k0 < e0.edges@.len() && crate::edge::edge_joins(#[trigger] e0.edges@[k0], a, b);
        assert(k0 != k) by {
            if k0 == k {
                assert(crate::edge::edge_joins(Edge(s, v), a, b));
                assert(e1.graph.connected(a, b));
                assert((a == s && b == v) || (a == v && b == s));
                assert(false);
            }
        }
        let k2 = if k0 < k {
            k0
        } else {
            k0 - 1
        };
        assert(e1.edges@[k2] == e0.edges@[k0]);
        assert(crate::edge::edge_joins(e1.edges@[k2], a, b));
    }
    assert forall|i: int| 0 <= i < e1.graph.len() implies ((
    #[trigger] e1.materials@[i]).selected_flag() <==> (match e1.selected {
        Option::Some(x) => x.vertex as int == i,
        Option::None => false,
    })) by {
        assert(e0.materials@[i].selected_flag() <==> (match e0.selected {
            Option::Some(x) => x.vertex as int == i,
            Option::None => false,
        }));
    }
    assert forall|i: int| 0 <= i < e1.graph.len() implies {
        let vx = #[trigger] e1.graph.vertices@[i];
        &&& in_square(vx.start_pos)
        &&& dist_sq_spec(vx.pos, vx.start_pos) <= DRAG_LEASH_SQ
    } by {
        let v0 = e0.graph.vertices@[i];
        if i == s as int || i == v as int {
            assert(e1.graph.vertices@[i].pos == v0.pos && e1.graph.vertices@[i].start_pos
                == v0.start_pos);
        }
        assert(in_square(v0.start_pos) && dist_sq_spec(v0.pos, v0.start_pos) <= DRAG_LEASH_SQ);
    }
}

/// A connection between a pair other than the removed one survives the
/// removal.
proof fn lemma_connected_after_remove(
    e0: GraphEngine,
    e1: GraphEngine,
    s: usize,
    v: usize,
    a: usize,
    b: usize,
)
    requires
        (s as int) < e0.graph.len(),
        (v as int) < e0.graph.len(),
        e1.graph.len() == e0.graph.len(),
        forall|x: usize|
            #[trigger] e1.graph.vertices@[s as int].edges@.contains(x) <==> (
            e0.graph.vertices@[s as int].edges@.contains(x) && x != v),
        forall|x: usize|
            #[trigger] e1.graph.vertices@[v as int].edges@.contains(x) <==> (
            e0.graph.vertices@[v as int].edges@.contains(x) && x != s),
        forall|i: int|
            0 <= i < e0.graph.len() && i != s as int && i != v as int ==> e1.graph.vertices@[i]
                == e0.graph.vertices@[i],
        e0.graph.connected(a, b),
        !((a == s && b == v) || (a == v && b == s)),
    ensures
        e1.graph.connected(a, b),
{
    if a == s {
        assert(e1.graph.vertices@[s as int].edges@.contains(b));
    } else if a == v {
        assert(e1.graph.vertices@[v as int].edges@.contains(b));
    } else {
        assert(e1.graph.vertices@[a as int] == e0.graph.vertices@[a as int]);
    }
}

/// A connection in the shrunken graph already existed before the
/// removal.
proof fn lemma_connected_before_remove(
    e0: GraphEngine,
    e1: GraphEngine,
    s: usize,
    v: usize,
    a: usize,
    b: usize,
)
    requires
        (s as int) < e0.graph.len(),
        (v as int) < e0.graph.len(),
        e1.graph.len() == e0.graph.len(),
        forall|x: usize|
            #[trigger] e1.graph.vertices@[s as int].edges@.contains(x) <==> (
            e0.graph.vertices@[s as int].edges@.contains(x) && x != v),
        forall|x: usize|
            #[trigger] e1.graph.vertices@[v as int].edges@.contains(x) <==> (
            e0.graph.vertices@[v as int].edges@.contains(x) && x != s),
        forall|i: int|
            0 <= i < e0.graph.len() && i != s as int && i != v as int ==> e1.graph.vertices@[i]
                == e0.graph.vertices@[i],
        e1.graph.connected(a, b),
    ensures
        e0.graph.connected(a, b),
{
    if a == s {
        assert(e0.graph.vertices@[s as int].edges@.contains(b));
    } else if a == v {
        assert(e0.graph.vertices@[v as int].edges@.contains(b));
    } else {
        assert(e1.graph.vertices@[a as int] == e0.graph.vertices@[a as int]);
    }
}

} // verus!
