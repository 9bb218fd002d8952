//! Verified connected components of the franchise graph.
//!
//! A component list is valid when it partitions the vertex set into nonempty
//! groups whose members are pairwise connected and which no edge leaves. Those
//! conditions pin the partition down: any two valid component lists for the
//! same graph carry the same components, so the grouping depends on the
//! abstract graph alone — not on the order edges were inserted in, nor on
//! duplicated edge directions.

use vstd::prelude::*;
use vstd::set_lib::lemma_len_subset;
use crate::graph::{
    FranchiseGraph, connected, contains_id, lemma_closed_set_traps_walks, lemma_connected_edge,
    lemma_connected_refl, lemma_connected_sym, lemma_connected_trans, symmetric,
};
use crate::model::TitleId;

verus! {

broadcast use {
    vstd::seq_lib::lemma_seq_contains_after_push,
    vstd::prelude::Seq::lemma_push_to_set_commute,
    vstd::seq_lib::seq_to_set_is_finite,
};

/// What it means for `r` to be the connected components of a graph with
/// vertices `vs` and edges `es`: a partition of `vs` into nonempty duplicate-
/// free groups, each internally connected and closed under the edges.
pub open spec fn valid_components(
    r: Seq<Vec<TitleId>>,
    vs: Set<TitleId>,
    es: Set<(TitleId, TitleId)>,
) -> bool {
    &&& forall|i: int| 0 <= i < r.len() ==> (#[trigger] r[i])@.len() > 0
    &&& forall|i: int| 0 <= i < r.len() ==> (#[trigger] r[i])@.no_duplicates()
    &&& forall|i: int, k: int|
        0 <= i < r.len() && 0 <= k < r[i]@.len() ==> vs.contains(#[trigger] r[i]@[k])
    &&& forall|v: TitleId|
        vs.contains(v) ==> exists|i: int| 0 <= i < r.len() && (#[trigger] r[i])@.contains(v)
    &&& forall|i: int, j: int, v: TitleId|
        #![trigger r[i]@.contains(v), r[j]@.contains(v)]
        0 <= i < j < r.len() && r[i]@.contains(v) ==> !r[j]@.contains(v)
    &&& forall|i: int, k: int, l: int|
        #![trigger r[i]@[k], r[i]@[l]]
        0 <= i < r.len() && 0 <= k < r[i]@.len() && 0 <= l < r[i]@.len() ==> connected(
            es,
            r[i]@[k],
            r[i]@[l],
        )
    &&& forall|i: int, u: TitleId, w: TitleId|
        #![trigger r[i]@.contains(u), es.contains((u, w))]
        0 <= i < r.len() && r[i]@.contains(u) && es.contains((u, w)) ==> r[i]@.contains(w)
}

/// Collects the component of `root` by a worklist search over the stored
/// edges.
fn component_from(g: &FranchiseGraph, root: TitleId) -> (comp: Vec<TitleId>)
    requires
        g.wf(),
        g.verts@.contains(root),
    ensures
        comp@.no_duplicates(),
        comp@.contains(root),
        forall|k: int| 0 <= k < comp@.len() ==> g.vert_set().contains(#[trigger] comp@[k]),
        forall|k: int| 0 <= k < comp@.len() ==> connected(g.edge_set(), root, #[trigger] comp@[k]),
        forall|u: TitleId, w: TitleId|
            #![trigger comp@.contains(u), g.edge_set().contains((u, w))]
            comp@.contains(u) && g.edge_set().contains((u, w)) ==> comp@.contains(w),
{
    let mut comp: Vec<TitleId> = Vec::new();
    comp.push(root);
    proof {
        lemma_connected_refl(g.edge_set(), root);
        assert(comp@[0] == root);
        comp_len_bound(g, comp@);
    }
    let mut i: usize = 0;
    while i < comp.len()
        invariant
            g.wf(),
            i <= comp@.len(),
            comp@.len() <= g.verts@.len(),
            comp@.no_duplicates(),
            comp@.contains(root),
            forall|k: int| 0 <= k < comp@.len() ==> g.vert_set().contains(#[trigger] comp@[k]),
            forall|k: int|
                0 <= k < comp@.len() ==> connected(g.edge_set(), root, #[trigger] comp@[k]),
            forall|k: int, w: TitleId|
                #![trigger g.edge_set().contains((comp@[k], w))]
                0 <= k < i && g.edge_set().contains((comp@[k], w)) ==> comp@.contains(w),
        decreases g.verts@.len() - i,
    {
        let u = comp[i];
        let mut j: usize = 0;
        while j < g.edges.len()
            invariant
                g.wf(),
                i < comp@.len(),
                comp@.len() <= g.verts@.len(),
                j <= g.edges@.len(),
                comp@[i as int] == u,
                comp@.no_duplicates(),
                comp@.contains(root),
                forall|k: int| 0 <= k < comp@.len() ==> g.vert_set().contains(#[trigger] comp@[k]),
                forall|k: int|
                    0 <= k < comp@.len() ==> connected(g.edge_set(), root, #[trigger] comp@[k]),
                forall|k: int, w: TitleId|
                    #![trigger g.edge_set().contains((comp@[k], w))]
                    0 <= k < i && g.edge_set().contains((comp@[k], w)) ==> comp@.contains(w),
                forall|jj: int|
                    0 <= jj < j ==> ((#[trigger] g.edges@[jj]).0 == u ==> comp@.contains(
                        g.edges@[jj].1,
                    )) && (g.edges@[jj].1 == u ==> comp@.contains(g.edges@[jj].0)),
            decreases g.edges@.len() - j,
        {
            let e = g.edges[j];
            if e.0 == u && !contains_id(&comp, e.1) {
                proof {
                    assert(g.edges@.contains(e));
                    assert(g.edge_set().contains((u, e.1)));
                    lemma_connected_edge(g.edge_set(), u, e.1);
                    lemma_connected_trans(g.edge_set(), root, u, e.1);
                }
                push_new(&mut comp, e.1);
                proof {
                    comp_len_bound(g, comp@);
                }
            } else if e.1 == u && !contains_id(&comp, e.0) {
                proof {
                    assert(g.edges@.contains(e));
                    assert(g.edge_set().contains((u, e.0)));
                    lemma_connected_edge(g.edge_set(), u, e.0);
                    lemma_connected_trans(g.edge_set(), root, u, e.0);
                }
                push_new(&mut comp, e.0);
                proof {
                    comp_len_bound(g, comp@);
                }
            }
            j = j + 1;
        }
        proof {
            assert forall|w: TitleId| g.edge_set().contains((u, w)) implies comp@.contains(w) by {
                if g.edges@.contains((u, w)) {
                    let jj = choose|jj: int| 0 <= jj < g.edges@.len() && g.edges@[jj] == (u, w);
                    assert(g.edges@[jj].0 == u);
                } else {
                    assert(g.edges@.contains((w, u)));
                    let jj = choose|jj: int| 0 <= jj < g.edges@.len() && g.edges@[jj] == (w, u);
                    assert(g.edges@[jj].1 == u);
                }
            }
        }
        i = i + 1;
    }
    proof {
        assert forall|u: TitleId, w: TitleId|
            comp@.contains(u) && g.edge_set().contains((u, w)) implies comp@.contains(w) by {
            let k = choose|k: int| 0 <= k < comp@.len() && comp@[k] == u;
            assert(g.edge_set().contains((comp@[k], w)));
        }
    }
    comp
}

/// A duplicate-free sequence of vertices is no longer than the vertex list.
proof fn comp_len_bound(g: &FranchiseGraph, comp: Seq<TitleId>)
    requires
        g.wf(),
        comp.no_duplicates(),
        forall|k: int| 0 <= k < comp.len() ==> g.vert_set().contains(#[trigger] comp[k]),
    ensures
        comp.len() <= g.verts@.len(),
{
    comp.unique_seq_to_set();
    assert(comp.to_set() <= g.vert_set()) by {
        assert forall|x: TitleId| comp.to_set().contains(x) implies g.vert_set().contains(x) by {
            let k = choose|k: int| 0 <= k < comp.len() && comp[k] == x;
        }
    }
    lemma_len_subset(comp.to_set(), g.vert_set());
    g.verts@.lemma_cardinality_of_set();
}

/// Appends an identifier known to be absent.
fn push_new(comp: &mut Vec<TitleId>, x: TitleId)
    requires
        old(comp)@.no_duplicates(),
        !old(comp)@.contains(x),
    ensures
        final(comp)@ == old(comp)@.push(x),
        final(comp)@.no_duplicates(),
{
    let ghost before = comp@;
    comp.push(x);
    proof {
        assert forall|a: int, b: int|
            0 <= a < b < comp@.len() implies comp@[a] != comp@[b] by {
            if b == comp@.len() - 1 {
                assert(comp@[a] == before[a]);
            }
        }
    }
}

/// Computes the connected components of the graph. Every vertex lands in
/// exactly one component; isolated vertices form singletons.
pub fn components(g: &FranchiseGraph) -> (r: Vec<Vec<TitleId>>)
    requires
        g.wf(),
    ensures
        valid_components(r@, g.vert_set(), g.edge_set()),
{
    let mut comps: Vec<Vec<TitleId>> = Vec::new();
    let mut assigned: Vec<TitleId> = Vec::new();
    let mut vi: usize = 0;
    proof {
        assert(symmetric(g.edge_set()));
    }
    while vi < g.verts.len()
        invariant
            g.wf(),
            vi <= g.verts@.len(),
            forall|x: TitleId|
                #[trigger] assigned@.contains(x) <==> exists|i: int|
                    0 <= i < comps@.len() && (#[trigger] comps@[i])@.contains(x),
            forall|k: int| 0 <= k < vi ==> assigned@.contains(#[trigger] g.verts@[k]),
            forall|i: int| 0 <= i < comps@.len() ==> (#[trigger] comps@[i])@.len() > 0,
            forall|i: int| 0 <= i < comps@.len() ==> (#[trigger] comps@[i])@.no_duplicates(),
            forall|i: int, k: int|
                0 <= i < comps@.len() && 0 <= k < comps@[i]@.len() ==> g.vert_set().contains(
                    #[trigger] comps@[i]@[k],
                ),
            forall|i: int, j: int, v: TitleId|
                #![trigger comps@[i]@.contains(v), comps@[j]@.contains(v)]
                0 <= i < j < comps@.len() && comps@[i]@.contains(v) ==> !comps@[j]@.contains(v),
            forall|i: int, k: int, l: int|
                #![trigger comps@[i]@[k], comps@[i]@[l]]
                0 <= i < comps@.len() && 0 <= k < comps@[i]@.len() && 0 <= l < comps@[i]@.len()
                    ==> connected(g.edge_set(), comps@[i]@[k], comps@[i]@[l]),
            forall|i: int, u: TitleId, w: TitleId|
                #![trigger comps@[i]@.contains(u), g.edge_set().contains((u, w))]
                0 <= i < comps@.len() && comps@[i]@.contains(u) && g.edge_set().contains((u, w))
                    ==> comps@[i]@.contains(w),
        decreases g.verts@.len() - vi,
    {
        let v = g.verts[vi];
        proof {
            assert(g.verts@.contains(v));
        }
        if !contains_id(&assigned, v) {
            let comp = component_from(g, v);
            let ghost pre_assigned = assigned@;
            let ghost prev_comps = comps@;
            proof {
                // the new component touches no earlier one: an edge path from
                // `v` into an earlier, closed component would put `v` there
                assert forall|x: TitleId| comp@.contains(x) implies !pre_assigned.contains(x) by {
                    if pre_assigned.contains(x) {
                        let i = choose|i: int|
                            0 <= i < prev_comps.len() && (#[trigger] prev_comps[i])@.contains(x);
                        assert(connected(g.edge_set(), v, x));
                        lemma_connected_sym(g.edge_set(), v, x);
                        lemma_closed_set_traps_walks(
                            g.edge_set(),
                            Set::new(|y: TitleId| prev_comps[i]@.contains(y)),
                            x,
                            v,
                        );
                        assert(prev_comps[i]@.contains(v));
                        assert(pre_assigned.contains(v));
                        assert(false);
                    }
                }
                // members are pairwise connected through the root
                assert forall|k: int, l: int|
                    0 <= k < comp@.len() && 0 <= l < comp@.len() implies connected(
                    g.edge_set(),
                    comp@[k],
                    comp@[l],
                ) by {
                    lemma_connected_sym(g.edge_set(), v, comp@[k]);
                    lemma_connected_trans(g.edge_set(), comp@[k], v, comp@[l]);
                }
            }
            let mut k: usize = 0;
            while k < comp.len()
                invariant
                    k <= comp@.len(),
                    comps@ == prev_comps,
                    comp@.no_duplicates(),
                    forall|x: TitleId|
                        #[trigger] assigned@.contains(x) <==> pre_assigned.contains(x)
                            || comp@.take(k as int).contains(x),
                decreases comp@.len() - k,
            {
                let id = comp[k];
                proof {
                    assert(comp@.take(k as int + 1) =~= comp@.take(k as int).push(id));
                }
                assigned.push(id);
                k = k + 1;
            }
            proof {
                assert(comp@.take(comp@.len() as int) =~= comp@);
            }
            comps.push(comp);
            proof {
                assert(comps@ == prev_comps.push(comp));
                assert(comps@.len() == prev_comps.len() + 1);
                assert(forall|i: int| 0 <= i < prev_comps.len() ==> comps@[i] == prev_comps[i]);
                assert(comps@[prev_comps.len() as int] == comp);
                // the mirror between `assigned` and the components
                assert forall|x: TitleId| #[trigger] assigned@.contains(x) implies exists|i: int|
                    0 <= i < comps@.len() && (#[trigger] comps@[i])@.contains(x) by {
                    if comp@.contains(x) {
                        assert(comps@[prev_comps.len() as int]@.contains(x));
                    } else {
                        assert(pre_assigned.contains(x));
                        let i = choose|i: int|
                            0 <= i < prev_comps.len() && (#[trigger] prev_comps[i])@.contains(x);
                        assert(comps@[i]@.contains(x));
                    }
                }
                assert forall|x: TitleId|
                    (exists|i: int| 0 <= i < comps@.len() && (#[trigger] comps@[i])@.contains(x))
                        implies assigned@.contains(x) by {
                    let i = choose|i: int|
                        0 <= i < comps@.len() && (#[trigger] comps@[i])@.contains(x);
                    if i < prev_comps.len() {
                        assert(prev_comps[i]@.contains(x));
                        assert(pre_assigned.contains(x));
                    } else {
                        assert(comp@.contains(x));
                    }
                }
                // every earlier clause splits on old component vs the new one
                assert forall|i: int, j: int, v2: TitleId|
                    #![trigger comps@[i]@.contains(v2), comps@[j]@.contains(v2)]
                    0 <= i < j < comps@.len() && comps@[i]@.contains(v2) implies !comps@[j]@
                    .contains(v2) by {
                    if j == prev_comps.len() {
                        assert(comps@[i]@.contains(v2) == prev_comps[i]@.contains(v2));
                        assert(prev_comps[i]@.contains(v2) ==> pre_assigned.contains(v2));
                        if comps@[j]@.contains(v2) {
                            assert(comp@.contains(v2));
                            assert(!pre_assigned.contains(v2));
                        }
                    } else {
                        assert(prev_comps[i]@.contains(v2) == comps@[i]@.contains(v2));
                        assert(prev_comps[j]@.contains(v2) == comps@[j]@.contains(v2));
                    }
                }
                assert forall|i: int, k2: int, l: int|
                    #![trigger comps@[i]@[k2], comps@[i]@[l]]
                    0 <= i < comps@.len() && 0 <= k2 < comps@[i]@.len() && 0 <= l
                        < comps@[i]@.len() implies connected(
                    g.edge_set(),
                    comps@[i]@[k2],
                    comps@[i]@[l],
                ) by {
                    if i < prev_comps.len() {
                        assert(comps@[i] == prev_comps[i]);
                        assert(connected(g.edge_set(), prev_comps[i]@[k2], prev_comps[i]@[l]));
                    } else {
                        assert(comps@[i] == comp);
                    }
                }
                assert forall|i: int, u: TitleId, w: TitleId|
                    #![trigger comps@[i]@.contains(u), g.edge_set().contains((u, w))]
                    0 <= i < comps@.len() && comps@[i]@.contains(u) && g.edge_set().contains(
                        (u, w),
                    ) implies comps@[i]@.contains(w) by {
                    if i < prev_comps.len() {
                        assert(comps@[i] == prev_comps[i]);
                        assert(prev_comps[i]@.contains(u));
                    } else {
                        assert(comps@[i] == comp);
                        assert(comp@.contains(u));
                    }
                }
            }
        }
        vi = vi + 1;
    }
    proof {
        assert forall|v: TitleId| g.vert_set().contains(v) implies exists|i: int|
            0 <= i < comps@.len() && (#[trigger] comps@[i])@.contains(v) by {
            let k = choose|k: int| 0 <= k < g.verts@.len() && g.verts@[k] == v;
            assert(assigned@.contains(g.verts@[k]));
        }
    }
    comps
}

/// Law: the component partition is canonical. Any two valid component lists
/// for the same vertex and edge sets carry the same components as sets, so
/// component extraction does not depend on how — or in which direction, or
/// how often — the qualifying edges were inserted, only on the abstract graph.
pub proof fn lemma_components_unique(
    r1: Seq<Vec<TitleId>>,
    r2: Seq<Vec<TitleId>>,
    vs: Set<TitleId>,
    es: Set<(TitleId, TitleId)>,
)
    requires
        valid_components(r1, vs, es),
        valid_components(r2, vs, es),
    ensures
        forall|i: int| 0 <= i < r1.len() ==> #[trigger] appears_in(r1, r2, i),
{
    assert forall|i: int| 0 <= i < r1.len() implies #[trigger] appears_in(r1, r2, i) by {
        let u = r1[i]@[0];
        assert(r1[i]@.contains(u));
        assert(vs.contains(u)) by {
            assert(vs.contains(r1[i]@[0]));
        }
        let j = choose|j: int| 0 <= j < r2.len() && (#[trigger] r2[j])@.contains(u);
        assert forall|x: TitleId| r1[i]@.to_set().contains(x) implies r2[j]@.to_set().contains(
            x,
        ) by {
            assert(r1[i]@.contains(x));
            let k = choose|k: int| 0 <= k < r1[i]@.len() && r1[i]@[k] == x;
            assert(connected(es, u, x)) by {
                assert(connected(es, r1[i]@[0], r1[i]@[k]));
            }
            lemma_closed_set_traps_walks(es, Set::new(|y: TitleId| r2[j]@.contains(y)), u, x);
            assert(r2[j]@.contains(x));
        }
        assert forall|x: TitleId| r2[j]@.to_set().contains(x) implies r1[i]@.to_set().contains(
            x,
        ) by {
            assert(r2[j]@.contains(x));
            let k = choose|k: int| 0 <= k < r2[j]@.len() && r2[j]@[k] == x;
            let ku = choose|ku: int| 0 <= ku < r2[j]@.len() && r2[j]@[ku] == u;
            assert(connected(es, u, x)) by {
                assert(connected(es, r2[j]@[ku], r2[j]@[k]));
            }
            lemma_closed_set_traps_walks(es, Set::new(|y: TitleId| r1[i]@.contains(y)), u, x);
            assert(r1[i]@.contains(x));
        }
        assert(r1[i]@.to_set() =~= r2[j]@.to_set());
        assert(0 <= j < r2.len() && (#[trigger] r2[j])@.to_set() == r1[i]@.to_set());
    }
}

/// The `i`th group of `r1` appears, as a set, among the groups of `r2`.
pub open spec fn appears_in(r1: Seq<Vec<TitleId>>, r2: Seq<Vec<TitleId>>, i: int) -> bool {
    exists|j: int| 0 <= j < r2.len() && (#[trigger] r2[j])@.to_set() == r1[i]@.to_set()
}

/// Law: a title with no qualifying edges forms a singleton component: the
/// component that holds it holds nothing else.
pub proof fn lemma_isolated_singleton(
    r: Seq<Vec<TitleId>>,
    vs: Set<TitleId>,
    es: Set<(TitleId, TitleId)>,
    v: TitleId,
)
    requires
        valid_components(r, vs, es),
        symmetric(es),
        vs.contains(v),
        forall|c: TitleId| !(#[trigger] es.contains((v, c))),
    ensures
        exists|i: int| 0 <= i < r.len() && (#[trigger] r[i])@ =~= seq![v],
{
    let i = choose|i: int| 0 <= i < r.len() && (#[trigger] r[i])@.contains(v);
    let kv = choose|kv: int| 0 <= kv < r[i]@.len() && r[i]@[kv] == v;
    assert forall|k: int| 0 <= k < r[i]@.len() implies r[i]@[k] == v by {
        assert(connected(es, r[i]@[kv], r[i]@[k]));
        assert(connected(es, v, r[i]@[k]));
        crate::graph::lemma_isolated_vertex_alone(es, v, r[i]@[k]);
    }
    assert(r[i]@.len() == 1) by {
        if r[i]@.len() > 1 {
            assert(r[i]@[0] == v && r[i]@[1] == v);
        }
    }
    assert(r[i]@ =~= seq![v]) by {
        assert(r[i]@[0] == v);
    }
}

} // verus!
