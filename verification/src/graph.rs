//! The vertex/edge graph model: connection sets that are always
//! symmetric, free of self-loops, and free of duplicate entries.

use vstd::prelude::*;

use crate::geometry::Point;
use crate::vertex::Vertex;

verus! {

pub struct Graph {
    pub vertices: Vec<Vertex>,
}

impl Graph {
    pub open spec fn len(self) -> int {
        self.vertices@.len() as int
    }

    /// Vertex `a` records an edge to vertex `b`.
    pub open spec fn connected(self, a: usize, b: usize) -> bool {
        (a as int) < self.vertices@.len() && self.vertices@[a as int].edges@.contains(b)
    }

    /// Connection sets are mutually consistent: every recorded index is
    /// in range, no vertex lists itself, no vertex lists a peer twice,
    /// and every connection is recorded on both of its endpoints.
    pub open spec fn wf(self) -> bool {
        &&& forall|i: int|
            0 <= i < self.vertices@.len() ==> (
            #[trigger] self.vertices@[i]).edges@.no_duplicates()
        &&& forall|i: int, k: int|
            0 <= i < self.vertices@.len() && 0 <= k < self.vertices@[i].edges@.len() ==> {
                let j = #[trigger] self.vertices@[i].edges@[k];
                &&& (j as int) < self.vertices@.len()
                &&& j as int != i
                &&& self.vertices@[j as int].edges@.contains(i as usize)
            }
    }

    /// Every vertex currently has exactly as many edges as it requires;
    /// vacuously true for an empty graph.
    pub open spec fn all_satisfied_spec(self) -> bool {
        forall|i: int| 0 <= i < self.vertices@.len() ==> (#[trigger] self.vertices@[i]).satisfied()
    }

    pub fn new() -> (g: Graph)
        ensures
            g.len() == 0,
            g.wf(),
    {
        Graph { vertices: Vec::new() }
    }

    /// Adds a fresh, unconnected vertex and returns its stable index.
    pub fn add_vertex(&mut self, position: Point, required_degree: usize) -> (id: usize)
        requires
            old(self).wf(),
        ensures
            final(self).wf(),
            id as int == old(self).len(),
            final(self).len() == old(self).len() + 1,
            final(self).vertices@ == old(self).vertices@.push(final(self).vertices@[id as int]),
            final(self).vertices@[id as int].edges@ == Seq::<usize>::empty(),
            final(self).vertices@[id as int].required_edges == required_degree,
            final(self).vertices@[id as int].pos == position,
            final(self).vertices@[id as int].start_pos == position,
    {
        let id = self.vertices.len();
        self.vertices.push(Vertex::new(required_degree, position));
        proof {
            assert forall|i: int, k: int|
                0 <= i < self.vertices@.len() && 0 <= k < self.vertices@[i].edges@.len() implies {
                let j = #[trigger] self.vertices@[i].edges@[k];
                &&& (j as int) < self.vertices@.len()
                &&& j as int != i
                &&& self.vertices@[j as int].edges@.contains(i as usize)
            } by {
                assert(i < old(self).vertices@.len());
                assert(self.vertices@[i] == old(self).vertices@[i]);
                let j = self.vertices@[i].edges@[k];
                assert(old(self).vertices@[j as int].edges@.contains(i as usize));
                assert(self.vertices@[j as int] == old(self).vertices@[j as int]);
            }
        }
        id
    }

    /// Whether `a` currently has an edge to `b`.
    pub fn linked(&self, a: usize, b: usize) -> (r: bool)
        requires
            (a as int) < self.len(),
        ensures
            r == self.connected(a, b),
    {
        let n = self.vertices[a].edges.len();
        let mut k: usize = 0;
        while k < n
            invariant
                (a as int) < self.vertices@.len(),
                n == self.vertices@[a as int].edges@.len(),
                0 <= k <= n,
                forall|t: int| 0 <= t < k ==> self.vertices@[a as int].edges@[t] != b,
            decreases n - k,
        {
            if self.vertices[a].edges[k] == b {
                return true;
            }
            k += 1;
        }
        false
    }

    pub fn degree_satisfied(&self, i: usize) -> (r: bool)
        requires
            (i as int) < self.len(),
        ensures
            r == self.vertices@[i as int].satisfied(),
    {
        self.vertices[i].degree_satisfied()
    }

    /// Scans the whole graph for unsatisfied vertices.
    pub fn all_satisfied(&self) -> (r: bool)
        ensures
            r == self.all_satisfied_spec(),
    {
        let n = self.vertices.len();
        let mut i: usize = 0;
        while i < n
            invariant
                n == self.vertices@.len(),
                0 <= i <= n,
                forall|t: int| 0 <= t < i ==> (#[trigger] self.vertices@[t]).satisfied(),
            decreases n - i,
        {
            if !self.vertices[i].degree_satisfied() {
                return false;
            }
            i += 1;
        }
        true
    }

    /// Removes every vertex and with them every edge.
    pub fn clear(&mut self)
        ensures
            final(self).len() == 0,
            final(self).wf(),
    {
        self.vertices = Vec::new();
    }

    /// Moves vertex `i`; connectivity is untouched.
    pub fn set_pos(&mut self, i: usize, p: Point)
        requires
            (i as int) < old(self).len(),
        ensures
            final(self).len() == old(self).len(),
            final(self).vertices@ == old(self).vertices@.update(
                i as int,
                final(self).vertices@[i as int],
            ),
            final(self).vertices@[i as int].pos == p,
            final(self).vertices@[i as int].edges@ == old(self).vertices@[i as int].edges@,
            final(self).vertices@[i as int].required_edges == old(self).vertices@[i
                as int].required_edges,
            final(self).vertices@[i as int].start_pos == old(self).vertices@[i as int].start_pos,
    {
        let v = vertex_mut(&mut self.vertices, i);
        v.pos = p;
    }

    /// Attempts to create the undirected edge `{a, b}`. Fails exactly on
    /// a self-loop, an unknown index, or an already-present edge; on
    /// success both endpoint connection sets gain the peer, atomically.
    pub fn connect(&mut self, a: usize, b: usize) -> (ok: bool)
        requires
            old(self).wf(),
        ensures
            final(self).wf(),
            final(self).len() == old(self).len(),
            ok == (a != b && (a as int) < old(self).len() && (b as int) < old(self).len()
                && !old(self).connected(a, b)),
            !ok ==> *final(self) == *old(self),
            ok ==> final(self).vertices@[a as int].edges@ == old(self).vertices@[a
                as int].edges@.push(b),
            ok ==> final(self).vertices@[b as int].edges@ == old(self).vertices@[b
                as int].edges@.push(a),
            ok ==> forall|i: int|
                0 <= i < old(self).len() && i != a as int && i != b as int
                    ==> final(self).vertices@[i] == old(self).vertices@[i],
            ok ==> unchanged_but_edges(old(self).vertices@[a as int], final(self).vertices@[a as int]),
            ok ==> unchanged_but_edges(old(self).vertices@[b as int], final(self).vertices@[b as int]),
            ok ==> final(self).connected(a, b) && final(self).connected(b, a),
    {
        if a == b {
            return false;
        }
        let n = self.vertices.len();
        if a >= n || b >= n {
            return false;
        }
        if self.linked(a, b) {
            return false;
        }
        proof {
            lemma_wf_not_connected_sym(*self, a, b);
        }
        let va = vertex_mut(&mut self.vertices, a);
        va.edges.push(b);
        let vb = vertex_mut(&mut self.vertices, b);
        vb.edges.push(a);
        proof {
            let g0 = *old(self);
            let g1 = *self;
            assert(g1.vertices@[a as int].edges@ == g0.vertices@[a as int].edges@.push(b));
            assert(g1.vertices@[b as int].edges@ == g0.vertices@[b as int].edges@.push(a));
            assert(g1.vertices@[a as int].edges@.last() == b);
            assert(g1.vertices@[b as int].edges@.last() == a);
            assert(g1.connected(a, b));
            assert(g1.connected(b, a));
            lemma_connect_wf(g0, g1, a, b);
        }
        true
    }

    /// Attempts to remove the undirected edge `{a, b}`. Fails exactly
    /// when the edge is absent (an unknown index never has edges); on
    /// success both endpoint connection sets lose the peer, atomically.
    pub fn disconnect(&mut self, a: usize, b: usize) -> (ok: bool)
        requires
            old(self).wf(),
        ensures
            final(self).wf(),
            final(self).len() == old(self).len(),
            ok == old(self).connected(a, b),
            !ok ==> *final(self) == *old(self),
            !final(self).connected(a, b) && !final(self).connected(b, a),
            ok ==> forall|x: usize|
                final(self).vertices@[a as int].edges@.contains(x) <==> (old(
                    self,
                ).vertices@[a as int].edges@.contains(x) && x != b),
            ok ==> forall|x: usize|
                final(self).vertices@[b as int].edges@.contains(x) <==> (old(
                    self,
                ).vertices@[b as int].edges@.contains(x) && x != a),
            ok ==> final(self).vertices@[a as int].edges@.len() == old(self).vertices@[a
                as int].edges@.len() - 1,
            ok ==> final(self).vertices@[b as int].edges@.len() == old(self).vertices@[b
                as int].edges@.len() - 1,
            ok ==> forall|i: int|
                0 <= i < old(self).len() && i != a as int && i != b as int
                    ==> final(self).vertices@[i] == old(self).vertices@[i],
            ok ==> unchanged_but_edges(old(self).vertices@[a as int], final(self).vertices@[a as int]),
            ok ==> unchanged_but_edges(old(self).vertices@[b as int], final(self).vertices@[b as int]),
    {
        let n = self.vertices.len();
        if a >= n {
            return false;
        }
        if !self.linked(a, b) {
            proof {
                if (b as int) < self.len() {
                    lemma_wf_not_connected_sym(*self, a, b);
                }
            }
            return false;
        }
        proof {
            lemma_wf_connected(*self, a, b);
        }
        let va = vertex_mut(&mut self.vertices, a);
        remove_value(&mut va.edges, b);
        let vb = vertex_mut(&mut self.vertices, b);
        remove_value(&mut vb.edges, a);
        proof {
            lemma_disconnect_wf(*old(self), *self, a, b);
        }
        true
    }
}

/// Every field of a vertex except its connection set is unchanged.
pub open spec fn unchanged_but_edges(v0: Vertex, v1: Vertex) -> bool {
    &&& v1.required_edges == v0.required_edges
    &&& v1.start_pos == v0.start_pos
    &&& v1.pos == v0.pos
}

fn vertex_mut(vec: &mut Vec<Vertex>, i: usize) -> (element: &mut Vertex)
    requires
        i < old(vec).len(),
    ensures
        *element == old(vec)@[i as int],
        final(vec)@ == old(vec)@.update(i as int, *final(element)),
{
    &mut vec[i]
}

/// Removes the first occurrence of `x` from `v`, which must be present
/// and unrepeated; afterwards `x` is gone and everything else is kept.
fn remove_value(v: &mut Vec<usize>, x: usize)
    requires
        old(v)@.no_duplicates(),
        old(v)@.contains(x),
    ensures
        final(v)@.no_duplicates(),
        final(v)@.len() == old(v)@.len() - 1,
        !final(v)@.contains(x),
        forall|y: usize| #[trigger] final(v)@.contains(y) <==> (old(v)@.contains(y) && y != x),
{
    let n = v.len();
    let mut k: usize = 0;
    while k < n
        invariant
            n == old(v)@.len(),
            v@ == old(v)@,
            0 <= k <= n,
            forall|t: int| 0 <= t < k ==> old(v)@[t] != x,
            old(v)@.contains(x),
            old(v)@.no_duplicates(),
        decreases n - k,
    {
        if v[k] == x {
            v.remove(k);
            proof {
                let s0 = old(v)@;
                let s1 = v@;
                assert(s1 == s0.remove(k as int));
                s0.remove_ensures(k as int);
                assert forall|y: usize| #[trigger] s1.contains(y) implies (s0.contains(y) && y
                    != x) by {
                    let t = choose|t: int| 0 <= t < s1.len() && s1[t] == y;
                    if t < k {
                        assert(s0[t] == y);
                    } else {
                        assert(s0[t + 1] == y);
                    }
                    assert(s0.contains(y));
                    if y == x {
                        let u = if t < k {
                            t
                        } else {
                            t + 1
                        };
                        assert(0 <= u < s0.len() && u != k);
                        assert(s0[u] == x && s0[k as int] == x);
                        assert(s0[u] != s0[k as int]);
                    }
                }
                assert forall|y: usize| (s0.contains(y) && y != x) implies #[trigger] s1.contains(
                    y,
                ) by {
                    let t = choose|t: int| 0 <= t < s0.len() && s0[t] == y;
                    assert(t != k);
                    if t < k {
                        assert(s1[t] == y);
                    } else {
                        assert(s1[t - 1] == y);
                    }
                }
                assert forall|i: int, j: int|
                    0 <= i < s1.len() && 0 <= j < s1.len() && i != j implies s1[i] != s1[j] by {
                    let i0 = if i < k {
                        i
                    } else {
                        i + 1
                    };
                    let j0 = if j < k {
                        j
                    } else {
                        j + 1
                    };
                    assert(0 <= i0 < s0.len() && 0 <= j0 < s0.len() && i0 != j0);
                    assert(s1[i] == s0[i0] && s1[j] == s0[j0]);
                    assert(s0[i0] != s0[j0]);
                }
                assert(!s1.contains(x));
            }
            return ;
        }
        k += 1;
    }
    proof {
        let t = choose|t: int| 0 <= t < old(v)@.len() && old(v)@[t] == x;
        assert(false);
    }
}

/// In a well-formed graph a recorded connection is mutual, never a
/// self-loop, and its peer index is in range.
pub proof fn lemma_wf_connected(g: Graph, a: usize, b: usize)
    requires
        g.wf(),
        g.connected(a, b),
    ensures
        g.connected(b, a),
        a != b,
        (b as int) < g.len(),
{
    let edges = g.vertices@[a as int].edges@;
    let k = choose|k: int| 0 <= k < edges.len() && edges[k] == b;
    assert(edges[k] == b);
}

/// In a well-formed graph an absent connection is absent from both
/// sides.
pub proof fn lemma_wf_not_connected_sym(g: Graph, a: usize, b: usize)
    requires
        g.wf(),
        (a as int) < g.len(),
        (b as int) < g.len(),
        !g.connected(a, b),
    ensures
        !g.connected(b, a),
{
    if g.connected(b, a) {
        lemma_wf_connected(g, b, a);
    }
}

proof fn lemma_connect_wf(g0: Graph, g1: Graph, a: usize, b: usize)
    requires
        g0.wf(),
        (a as int) < g0.len(),
        (b as int) < g0.len(),
        a != b,
        !g0.connected(a, b),
        !g0.connected(b, a),
        g1.vertices@.len() == g0.vertices@.len(),
        g1.vertices@[a as int].edges@ == g0.vertices@[a as int].edges@.push(b),
        g1.vertices@[b as int].edges@ == g0.vertices@[b as int].edges@.push(a),
        forall|i: int|
            0 <= i < g0.len() && i != a as int && i != b as int ==> g1.vertices@[i]
                == g0.vertices@[i],
    ensures
        g1.wf(),
{
    let ea1 = g1.vertices@[a as int].edges@;
    let eb1 = g1.vertices@[b as int].edges@;
    let ea0 = g0.vertices@[a as int].edges@;
    let eb0 = g0.vertices@[b as int].edges@;
    assert forall|i: int|
        0 <= i < g1.vertices@.len() implies (#[trigger] g1.vertices@[i]).edges@.no_duplicates() by {
        if i == a as int {
            assert forall|s: int, t: int|
                0 <= s < ea1.len() && 0 <= t < ea1.len() && s != t implies ea1[s] != ea1[t] by {
                if s < ea0.len() && t < ea0.len() {
                    assert(ea0.no_duplicates());
                } else if s < ea0.len() {
                    assert(ea1[t] == b && ea1[s] == ea0[s]);
                    assert(!ea0.contains(b));
                } else if t < ea0.len() {
                    assert(ea1[s] == b && ea1[t] == ea0[t]);
                    assert(!ea0.contains(b));
                }
            }
        } else if i == b as int {
            assert forall|s: int, t: int|
                0 <= s < eb1.len() && 0 <= t < eb1.len() && s != t implies eb1[s] != eb1[t] by {
                if s < eb0.len() && t < eb0.len() {
                    assert(eb0.no_duplicates());
                } else if s < eb0.len() {
                    assert(eb1[t] == a && eb1[s] == eb0[s]);
                    assert(!eb0.contains(a));
                } else if t < eb0.len() {
                    assert(eb1[s] == a && eb1[t] == eb0[t]);
                    assert(!eb0.contains(a));
                }
            }
        }
    }
    assert forall|i: int, k: int|
        0 <= i < g1.vertices@.len() && 0 <= k < g1.vertices@[i].edges@.len() implies {
        let j = #[trigger] g1.vertices@[i].edges@[k];
        &&& (j as int) < g1.vertices@.len()
        &&& j as int != i
        &&& g1.vertices@[j as int].edges@.contains(i as usize)
    } by {
        let j = g1.vertices@[i].edges@[k];
        if i == a as int {
            if k < ea0.len() {
                assert(ea1[k] == ea0[k]);
                assert(g0.vertices@[j as int].edges@.contains(a as usize));
                lemma_contains_after_push_or_same(g0, g1, j, a as usize, a, b);
            } else {
                assert(j == b);
                assert(eb1.last() == a);
                assert(eb1.contains(a as usize));
            }
        } else if i == b as int {
            if k < eb0.len() {
                assert(eb1[k] == eb0[k]);
                assert(g0.vertices@[j as int].edges@.contains(b as usize));
                lemma_contains_after_push_or_same(g0, g1, j, b as usize, a, b);
            } else {
                assert(j == a);
                assert(ea1.last() == b);
                assert(ea1.contains(b as usize));
            }
        } else {
            assert(g1.vertices@[i] == g0.vertices@[i]);
            assert(g0.vertices@[i].edges@[k] == j);
            assert(g0.vertices@[j as int].edges@.contains(i as usize));
            lemma_contains_after_push_or_same(g0, g1, j, i as usize, a, b);
        }
    }
}

/// Helper: pushing onto a vertex's connection set preserves what it
/// already contained.
proof fn lemma_contains_after_push_or_same(
    g0: Graph,
    g1: Graph,
    j: usize,
    x: usize,
    a: usize,
    b: usize,
)
    requires
        (j as int) < g0.vertices@.len(),
        g1.vertices@.len() == g0.vertices@.len(),
        g0.vertices@[j as int].edges@.contains(x),
        g1.vertices@[a as int].edges@ == g0.vertices@[a as int].edges@.push(b),
        g1.vertices@[b as int].edges@ == g0.vertices@[b as int].edges@.push(a),
        forall|i: int|
            0 <= i < g0.vertices@.len() && i != a as int && i != b as int ==> g1.vertices@[i]
                == g0.vertices@[i],
    ensures
        g1.vertices@[j as int].edges@.contains(x),
{
    let e0 = g0.vertices@[j as int].edges@;
    let e1 = g1.vertices@[j as int].edges@;
    let k = choose|k: int| 0 <= k < e0.len() && e0[k] == x;
    if j == a {
        assert(e1[k] == x);
    } else if j == b {
        assert(e1[k] == x);
    } else {
        assert(e1 == e0);
    }
}

proof fn lemma_disconnect_wf(g0: Graph, g1: Graph, a: usize, b: usize)
    requires
        g0.wf(),
        g0.vertices@.len() <= usize::MAX,
        (a as int) < g0.len(),
        (b as int) < g0.len(),
        a != b,
        g1.vertices@.len() == g0.vertices@.len(),
        g1.vertices@[a as int].edges@.no_duplicates(),
        g1.vertices@[b as int].edges@.no_duplicates(),
        forall|y: usize|
            #[trigger] g1.vertices@[a as int].edges@.contains(y) <==> (g0.vertices@[a
                as int].edges@.contains(y) && y != b),
        forall|y: usize|
            #[trigger] g1.vertices@[b as int].edges@.contains(y) <==> (g0.vertices@[b
                as int].edges@.contains(y) && y != a),
        forall|i: int|
            0 <= i < g0.len() && i != a as int && i != b as int ==> g1.vertices@[i]
                == g0.vertices@[i],
    ensures
        g1.wf(),
{
    assert forall|i: int|
        0 <= i < g1.vertices@.len() implies (#[trigger] g1.vertices@[i]).edges@.no_duplicates() by {
        if i != a as int && i != b as int {
            assert(g1.vertices@[i] == g0.vertices@[i]);
        }
    }
    assert forall|i: int, k: int|
        0 <= i < g1.vertices@.len() && 0 <= k < g1.vertices@[i].edges@.len() implies {
        let j = #[trigger] g1.vertices@[i].edges@[k];
        &&& (j as int) < g1.vertices@.len()
        &&& j as int != i
        &&& g1.vertices@[j as int].edges@.contains(i as usize)
    } by {
        let j = g1.vertices@[i].edges@[k];
        assert(g1.vertices@[i].edges@.contains(j));
        if i == a as int {
            assert(g0.vertices@[a as int].edges@.contains(j) && j != b);
            let k0 = choose|k0: int|
                0 <= k0 < g0.vertices@[a as int].edges@.len() && g0.vertices@[a
                    as int].edges@[k0] == j;
            assert((j as int) < g0.vertices@.len() && j as int != a as int);
            assert(g0.vertices@[j as int].edges@.contains(a as usize));
            assert(g1.vertices@[j as int] == g0.vertices@[j as int]);
        } else if i == b as int {
            assert(g0.vertices@[b as int].edges@.contains(j) && j != a);
            let k0 = choose|k0: int|
                0 <= k0 < g0.vertices@[b as int].edges@.len() && g0.vertices@[b
                    as int].edges@[k0] == j;
            assert((j as int) < g0.vertices@.len() && j as int != b as int);
            assert(g0.vertices@[j as int].edges@.contains(b as usize));
            assert(g1.vertices@[j as int] == g0.vertices@[j as int]);
        } else {
            assert(g1.vertices@[i] == g0.vertices@[i]);
            assert(g0.vertices@[i].edges@.contains(j));
            let k0 = choose|k0: int|
                0 <= k0 < g0.vertices@[i].edges@.len() && g0.vertices@[i].edges@[k0] == j;
            assert((j as int) < g0.vertices@.len() && j as int != i);
            assert(g0.vertices@[j as int].edges@.contains(i as usize));
            if j == a {
                assert((i as usize) as int == i);
                assert(i as usize != b);
                assert(g1.vertices@[a as int].edges@.contains(i as usize));
            } else if j == b {
                assert((i as usize) as int == i);
                assert(i as usize != a);
                assert(g1.vertices@[b as int].edges@.contains(i as usize));
            } else {
                assert(g1.vertices@[j as int] == g0.vertices@[j as int]);
            }
        }
    }
}

/// Law: in a well-formed graph a recorded edge is recorded exactly once;
/// in particular, after a successful `connect(a, b)` the peer `b` occurs
/// exactly once in `a`'s connection set.
pub proof fn lemma_connection_count_is_one(g: Graph, a: usize, b: usize)
    requires
        g.wf(),
        g.connected(a, b),
    ensures
        g.vertices@[a as int].edges@.to_multiset().count(b) == 1,
{
    let edges = g.vertices@[a as int].edges@;
    edges.lemma_multiset_has_no_duplicates();
    broadcast use vstd::seq_lib::group_seq_properties;

    assert(edges.to_multiset().contains(b));
}

} // verus!
