//! The undirected, simple franchise graph over title identifiers, and the
//! connectivity relation its components are defined by.
//!
//! Edges are stored once, normalized with the smaller endpoint first, so
//! inserting an edge twice or in both directions is a no-op; the abstract edge
//! set contains both directions of every stored edge and is therefore
//! symmetric. Vertices cover every identifier seen so far, including isolated
//! ones, so titles without qualifying edges still appear in the output.

use vstd::prelude::*;
use crate::model::TitleId;

verus! {

broadcast use {
    vstd::seq_lib::lemma_seq_contains_after_push,
    vstd::prelude::Seq::lemma_push_to_set_commute,
};

/// An undirected simple graph over title identifiers.
pub struct FranchiseGraph {
    /// Every discovered vertex, each exactly once.
    pub verts: Vec<TitleId>,
    /// Every edge exactly once, normalized: smaller endpoint first.
    pub edges: Vec<(TitleId, TitleId)>,
}

impl FranchiseGraph {
    /// Internal consistency: vertices unique, edges normalized, unique, with
    /// no self-loops, and with both endpoints among the vertices.
    pub open spec fn wf(self) -> bool {
        &&& self.verts@.no_duplicates()
        &&& self.edges@.no_duplicates()
        &&& forall|k: int|
            0 <= k < self.edges@.len() ==> (#[trigger] self.edges@[k]).0 < self.edges@[k].1
        &&& forall|k: int|
            0 <= k < self.edges@.len() ==> self.verts@.contains((#[trigger] self.edges@[k]).0)
                && self.verts@.contains(self.edges@[k].1)
    }

    /// The abstract vertex set.
    pub open spec fn vert_set(self) -> Set<TitleId> {
        self.verts@.to_set()
    }

    /// The abstract edge set: both directions of every stored edge.
    pub open spec fn edge_set(self) -> Set<(TitleId, TitleId)> {
        Set::new(
            |p: (TitleId, TitleId)| self.edges@.contains(p) || self.edges@.contains((p.1, p.0)),
        )
    }

    /// The empty graph.
    pub fn new() -> (r: FranchiseGraph)
        ensures
            r.wf(),
            r.vert_set() =~= Set::<TitleId>::empty(),
            r.edge_set() =~= Set::<(TitleId, TitleId)>::empty(),
    {
        let r = FranchiseGraph { verts: Vec::new(), edges: Vec::new() };
        proof {
            assert(r.vert_set() =~= Set::<TitleId>::empty());
            assert(r.edge_set() =~= Set::<(TitleId, TitleId)>::empty());
        }
        r
    }

    /// Adds a vertex; a no-op when it is already present.
    pub fn insert_vertex(&mut self, v: TitleId)
        requires
            old(self).wf(),
        ensures
            final(self).wf(),
            final(self).vert_set() == old(self).vert_set().insert(v),
            final(self).edges@ == old(self).edges@,
            final(self).edge_set() == old(self).edge_set(),
    {
        if !contains_id(&self.verts, v) {
            self.verts.push(v);
            proof {
                assert forall|i: int, j: int|
                    0 <= i < j < self.verts@.len() implies self.verts@[i] != self.verts@[j] by {
                    if j == self.verts@.len() - 1 {
                        assert(self.verts@[i] == old(self).verts@[i]);
                    }
                }
            }
        } else {
            proof {
                assert(self.vert_set() =~= old(self).vert_set().insert(v));
            }
        }
        proof {
            assert(self.edge_set() =~= old(self).edge_set());
        }
    }

    /// Adds an undirected edge, inserting both endpoints as vertices.
    /// Inserting an edge twice, or in both directions, leaves the graph
    /// unchanged; a self-referencing pair only records the vertex.
    pub fn insert_edge(&mut self, a: TitleId, b: TitleId)
        requires
            old(self).wf(),
        ensures
            final(self).wf(),
            final(self).vert_set() == old(self).vert_set().insert(a).insert(b),
            final(self).edge_set() == if a == b {
                old(self).edge_set()
            } else {
                old(self).edge_set().insert((a, b)).insert((b, a))
            },
    {
        self.insert_vertex(a);
        self.insert_vertex(b);
        if a != b {
            let lo = if a < b { a } else { b };
            let hi = if a < b { b } else { a };
            if !contains_pair(&self.edges, lo, hi) {
                let ghost mid = self.edges@;
                self.edges.push((lo, hi));
                proof {
                    assert forall|i: int, j: int|
                        0 <= i < j < self.edges@.len() implies self.edges@[i] != self.edges@[j] by {
                        if j == self.edges@.len() - 1 {
                            assert(self.edges@[i] == mid[i]);
                        }
                    }
                    assert(self.vert_set().contains(lo) && self.vert_set().contains(hi));
                    assert(self.verts@.to_set().contains(lo) && self.verts@.to_set().contains(hi));
                    assert(self.verts@.contains(lo) && self.verts@.contains(hi));
                }
            }
            proof {
                assert(self.edge_set() =~= old(self).edge_set().insert((a, b)).insert((b, a)));
            }
        } else {
            proof {
                assert(self.edge_set() =~= old(self).edge_set());
            }
        }
        proof {
            assert(self.vert_set() =~= old(self).vert_set().insert(a).insert(b));
        }
    }

    /// Whether the given undirected edge is present, in either direction.
    pub fn has_edge(&self, a: TitleId, b: TitleId) -> (r: bool)
        requires
            self.wf(),
        ensures
            r == self.edge_set().contains((a, b)),
    {
        contains_pair(&self.edges, a, b) || contains_pair(&self.edges, b, a)
    }

    /// How many vertices the graph has.
    pub fn vertex_count(&self) -> (r: usize)
        ensures
            r == self.verts@.len(),
    {
        self.verts.len()
    }
}

/// Whether a sequence of identifiers holds the given one.
pub fn contains_id(v: &Vec<TitleId>, x: TitleId) -> (r: bool)
    ensures
        r == v@.contains(x),
{
    let mut i: usize = 0;
    while i < v.len()
        invariant
            i <= v@.len(),
            forall|k: int| 0 <= k < i ==> v@[k] != x,
        decreases v@.len() - i,
    {
        if v[i] == x {
            return true;
        }
        i = i + 1;
    }
    false
}

fn contains_pair(v: &Vec<(TitleId, TitleId)>, a: TitleId, b: TitleId) -> (r: bool)
    ensures
        r == v@.contains((a, b)),
{
    let mut i: usize = 0;
    while i < v.len()
        invariant
            i <= v@.len(),
            forall|k: int| 0 <= k < i ==> v@[k] != (a, b),
        decreases v@.len() - i,
    {
        let p = v[i];
        if p.0 == a && p.1 == b {
            return true;
        }
        i = i + 1;
    }
    false
}

/// There is a walk of at most `n` edges from `a` to `b`.
pub open spec fn reach(es: Set<(TitleId, TitleId)>, a: TitleId, b: TitleId, n: nat) -> bool
    decreases n,
{
    a == b || (n > 0 && exists|c: TitleId|
        #[trigger] es.contains((a, c)) && reach(es, c, b, (n - 1) as nat))
}

/// Two identifiers lie in one component: some finite walk joins them.
pub open spec fn connected(es: Set<(TitleId, TitleId)>, a: TitleId, b: TitleId) -> bool {
    exists|n: nat| reach(es, a, b, n)
}

/// The edge set relates only pairs it also relates the other way around.
pub open spec fn symmetric(es: Set<(TitleId, TitleId)>) -> bool {
    forall|a: TitleId, b: TitleId| #[trigger] es.contains((a, b)) ==> es.contains((b, a))
}

/// Connectivity is reflexive.
pub proof fn lemma_connected_refl(es: Set<(TitleId, TitleId)>, a: TitleId)
    ensures
        connected(es, a, a),
{
    assert(reach(es, a, a, 0));
}

/// An edge connects its endpoints.
pub proof fn lemma_connected_edge(es: Set<(TitleId, TitleId)>, a: TitleId, b: TitleId)
    requires
        es.contains((a, b)),
    ensures
        connected(es, a, b),
{
    assert(reach(es, b, b, 0));
    assert(reach(es, a, b, 1));
}

/// A walk can grow by longer bounds.
proof fn lemma_reach_widen(es: Set<(TitleId, TitleId)>, a: TitleId, b: TitleId, n: nat, m: nat)
    requires
        reach(es, a, b, n),
        n <= m,
    ensures
        reach(es, a, b, m),
    decreases n,
{
    if a == b {
    } else {
        let c = choose|c: TitleId| es.contains((a, c)) && reach(es, c, b, (n - 1) as nat);
        lemma_reach_widen(es, c, b, (n - 1) as nat, (m - 1) as nat);
        assert(reach(es, a, b, m));
    }
}

/// Two walks concatenate.
proof fn lemma_reach_trans(
    es: Set<(TitleId, TitleId)>,
    a: TitleId,
    b: TitleId,
    c: TitleId,
    n: nat,
    m: nat,
)
    requires
        reach(es, a, b, n),
        reach(es, b, c, m),
    ensures
        reach(es, a, c, n + m),
    decreases n,
{
    if a == b {
        lemma_reach_widen(es, b, c, m, n + m);
    } else {
        let d = choose|d: TitleId| es.contains((a, d)) && reach(es, d, b, (n - 1) as nat);
        lemma_reach_trans(es, d, b, c, (n - 1) as nat, m);
        assert(reach(es, a, c, n + m));
    }
}

/// Connectivity is transitive.
pub proof fn lemma_connected_trans(
    es: Set<(TitleId, TitleId)>,
    a: TitleId,
    b: TitleId,
    c: TitleId,
)
    requires
        connected(es, a, b),
        connected(es, b, c),
    ensures
        connected(es, a, c),
{
    let n = choose|n: nat| reach(es, a, b, n);
    let m = choose|m: nat| reach(es, b, c, m);
    lemma_reach_trans(es, a, b, c, n, m);
}

/// A walk extends by one edge at its end.
proof fn lemma_reach_snoc(
    es: Set<(TitleId, TitleId)>,
    a: TitleId,
    b: TitleId,
    c: TitleId,
    n: nat,
)
    requires
        reach(es, a, b, n),
        es.contains((b, c)),
    ensures
        reach(es, a, c, n + 1),
{
    assert(reach(es, c, c, 0));
    assert(reach(es, b, c, 1));
    lemma_reach_trans(es, a, b, c, n, 1);
}

/// Over a symmetric edge set, walks reverse.
proof fn lemma_reach_sym(es: Set<(TitleId, TitleId)>, a: TitleId, b: TitleId, n: nat)
    requires
        symmetric(es),
        reach(es, a, b, n),
    ensures
        reach(es, b, a, n),
    decreases n,
{
    if a == b {
    } else {
        let c = choose|c: TitleId| es.contains((a, c)) && reach(es, c, b, (n - 1) as nat);
        lemma_reach_sym(es, c, b, (n - 1) as nat);
        lemma_reach_snoc(es, b, c, a, (n - 1) as nat);
    }
}

/// Over a symmetric edge set, connectivity is symmetric.
pub proof fn lemma_connected_sym(es: Set<(TitleId, TitleId)>, a: TitleId, b: TitleId)
    requires
        symmetric(es),
        connected(es, a, b),
    ensures
        connected(es, b, a),
{
    let n = choose|n: nat| reach(es, a, b, n);
    lemma_reach_sym(es, a, b, n);
}

/// No walk leaves a set that is closed under the edges: whatever is connected
/// to a member is itself a member.
pub proof fn lemma_closed_set_traps_walks(
    es: Set<(TitleId, TitleId)>,
    s: Set<TitleId>,
    a: TitleId,
    b: TitleId,
)
    requires
        s.contains(a),
        connected(es, a, b),
        forall|u: TitleId, w: TitleId|
            s.contains(u) && #[trigger] es.contains((u, w)) ==> s.contains(w),
    ensures
        s.contains(b),
{
    let n = choose|n: nat| reach(es, a, b, n);
    lemma_closed_reach(es, s, a, b, n);
}

proof fn lemma_closed_reach(
    es: Set<(TitleId, TitleId)>,
    s: Set<TitleId>,
    a: TitleId,
    b: TitleId,
    n: nat,
)
    requires
        s.contains(a),
        reach(es, a, b, n),
        forall|u: TitleId, w: TitleId|
            s.contains(u) && #[trigger] es.contains((u, w)) ==> s.contains(w),
    ensures
        s.contains(b),
    decreases n,
{
    if a == b {
    } else {
        let c = choose|c: TitleId| es.contains((a, c)) && reach(es, c, b, (n - 1) as nat);
        lemma_closed_reach(es, s, c, b, (n - 1) as nat);
    }
}

/// A vertex with no incident edges is connected to itself alone.
pub proof fn lemma_isolated_vertex_alone(es: Set<(TitleId, TitleId)>, v: TitleId, u: TitleId)
    requires
        forall|c: TitleId| !(#[trigger] es.contains((v, c))),
        connected(es, v, u),
    ensures
        u == v,
{
    lemma_closed_set_traps_walks(es, Set::empty().insert(v), v, u);
}

/// Connectivity reads the edge set alone: equal edge sets connect the same
/// pairs. In particular, inserting an edge in both directions, or inserting it
/// twice, yields the same components as inserting it once.
pub proof fn lemma_connected_depends_on_edges_only(
    es1: Set<(TitleId, TitleId)>,
    es2: Set<(TitleId, TitleId)>,
    a: TitleId,
    b: TitleId,
)
    requires
        es1 == es2,
    ensures
        connected(es1, a, b) == connected(es2, a, b),
{
}

} // verus!
