//! Puzzle vertices: position, required degree, current connections, and
//! the two-bit visual state the presentation layer renders.

use vstd::prelude::*;

use crate::geometry::{dist_sq, dist_sq_spec, Point};

verus! {

/// Radius of every vertex circle.
pub const VERTEX_RADIUS: i64 = 50;

/// Extra clearance the generator keeps between vertex circles.
pub const SPACING_MARGIN: i64 = 40;

/// Minimum center-to-center distance between two generated vertices:
/// `2 * VERTEX_RADIUS + SPACING_MARGIN`.
pub const MIN_VERTEX_DIST: i64 = 140;

/// `MIN_VERTEX_DIST * MIN_VERTEX_DIST`.
pub const MIN_VERTEX_DIST_SQ: i64 = 19_600;

/// Squared leash radius: how far (squared) a vertex may be dragged from
/// its spawn position.
pub const DRAG_LEASH_SQ: i64 = 10_000;

pub struct Vertex {
    /// Indices of the vertices this one currently has an edge to.
    /// No duplicates, never contains the vertex's own index.
    pub edges: Vec<usize>,
    /// Number of edges this vertex needs for the puzzle to be solved.
    pub required_edges: usize,
    /// Spawn position: anchor of the drag leash.
    pub start_pos: Point,
    /// Current position; differs from `start_pos` only by dragging.
    pub pos: Point,
}

impl Vertex {
    pub open spec fn degree(self) -> int {
        self.edges@.len() as int
    }

    /// Whether this vertex currently has an edge to vertex `j`.
    pub open spec fn linked_to(self, j: usize) -> bool {
        self.edges@.contains(j)
    }

    /// Whether the vertex has exactly as many edges as it requires.
    pub open spec fn satisfied(self) -> bool {
        self.degree() == self.required_edges
    }

    pub fn new(required_edges: usize, start_pos: Point) -> (v: Vertex)
        ensures
            v.edges@ == Seq::<usize>::empty(),
            v.required_edges == required_edges,
            v.start_pos == start_pos,
            v.pos == start_pos,
    {
        Vertex { edges: Vec::new(), required_edges, start_pos, pos: start_pos }
    }

    pub fn degree_satisfied(&self) -> (r: bool)
        ensures
            r == self.satisfied(),
    {
        self.edges.len() == self.required_edges
    }
}

/// Where a drag by the pointer delta `(dx, dy)` takes a vertex: the
/// moved point when it stays within the leash (squared radius `cap`) of
/// the spawn position, the unmoved point otherwise. The delta is in
/// screen coordinates, so the y axis flips into world space.
pub fn drag_target(pos: Point, start_pos: Point, dx: i64, dy: i64, cap: i64) -> (r: Point)
    requires
        -800_000 <= pos.x <= 800_000,
        -800_000 <= pos.y <= 800_000,
        -800_000 <= start_pos.x <= 800_000,
        -800_000 <= start_pos.y <= 800_000,
        -100_000 <= dx <= 100_000,
        -100_000 <= dy <= 100_000,
        0 <= cap,
    ensures
        ({
            let moved = Point { x: (pos.x + dx) as i64, y: (pos.y - dy) as i64 };
            r == if dist_sq_spec(moved, start_pos) > cap {
                pos
            } else {
                moved
            }
        }),
{
    let moved = Point { x: pos.x + dx, y: pos.y - dy };
    if dist_sq(moved, start_pos) > cap {
        pos
    } else {
        moved
    }
}

/// Text color of a vertex's required-degree label; flips when the vertex
/// becomes satisfied.
#[derive(Clone, Copy, PartialEq, Eq, Structural, Debug)]
pub enum TextColor {
    White,
    Black,
}

/// The two-bit visual state of a vertex that the renderer maps to shader
/// parameters.
#[derive(Clone, Copy, PartialEq, Eq, Structural, Debug)]
pub struct VertexMaterial {
    /// 1 << 0: selected
    /// 1 << 1: solved
    pub bits: u32,
}

impl VertexMaterial {
    pub open spec fn selected_flag(self) -> bool {
        self.bits & 1 != 0
    }

    pub open spec fn solved_flag(self) -> bool {
        self.bits & 2 != 0
    }

    pub fn new() -> (m: VertexMaterial)
        ensures
            !m.selected_flag(),
            !m.solved_flag(),
            m.bits == 0,
    {
        proof {
            assert(0u32 & 1 == 0 && 0u32 & 2 == 0) by (bit_vector);
        }
        VertexMaterial { bits: 0 }
    }

    pub fn set_selected(&mut self, v: bool)
        ensures
            final(self).selected_flag() == v,
            final(self).solved_flag() == old(self).solved_flag(),
    {
        let b = self.bits;
        if v {
            proof {
                assert((b | 1) & 1 != 0 && (b | 1) & 2 == b & 2) by (bit_vector);
            }
            self.bits = b | 1;
        } else {
            proof {
                assert((b & !1) & 1 == 0 && (b & !1) & 2 == b & 2) by (bit_vector);
            }
            self.bits = b & !1;
        }
    }

    pub fn set_solved(&mut self, v: bool, text_color: &mut TextColor)
        ensures
            final(self).solved_flag() == v,
            final(self).selected_flag() == old(self).selected_flag(),
            *final(text_color) == (if v {
                TextColor::Black
            } else {
                TextColor::White
            }),
    {
        let b = self.bits;
        if v {
            proof {
                assert((b | 2) & 2 != 0 && (b | 2) & 1 == b & 1) by (bit_vector);
            }
            self.bits = b | 2;
            *text_color = TextColor::Black;
        } else {
            proof {
                assert((b & !2) & 2 == 0 && (b & !2) & 1 == b & 1) by (bit_vector);
            }
            self.bits = b & !2;
            *text_color = TextColor::White;
        }
    }
}

/// The transient selection: at most one vertex is selected, between the
/// click that selects it and the click that resolves the attempt.
#[derive(Clone, Copy, PartialEq, Eq, Structural, Debug)]
pub struct Selected {
    /// Index of the selected vertex.
    pub vertex: usize,
    /// Far endpoint of the preview edge that tracks the pointer.
    pub edge_end: Point,
}

} // verus!
