//! The franchise graph builder: the iterative, paginated closure computation
//! that expands the relation graph until no related identifier remains
//! unresolved.
//!
//! [`Builder`] is the decision core, a verified state machine. Whoever drives
//! it — the bundled [`build`] over a prepared sequence of replies, or an
//! outside caller talking to the real catalog service — reads the pending
//! request from it and feeds each reply back through [`Builder::on_page`].
//! Every round sends the whole current frontier, pages in increasing order,
//! and closes by marking the entire frontier visited, returned or not, so a
//! service that silently omits an identifier cannot stall the computation.

use vstd::prelude::*;
use vstd::set_lib::lemma_len_subset;
use crate::graph::FranchiseGraph;
use crate::model::{
    FetchError, FilterPolicy, PageResult, ServiceReply, TitleId, TitleRecord, qualifying,
};

verus! {

broadcast use {
    vstd::seq_lib::lemma_seq_contains_after_push,
    vstd::prelude::Seq::lemma_push_to_set_commute,
    vstd::seq_lib::seq_to_set_is_finite,
};

/// The undirected pairs that a prefix of a title's relation list contributes:
/// both directions of every qualifying, non-self edge among its first `j`
/// entries.
pub open spec fn title_pairs_upto(policy: FilterPolicy, t: TitleRecord, j: int) -> Set<
    (TitleId, TitleId),
> {
    Set::new(
        |p: (TitleId, TitleId)|
            exists|k: int|
                0 <= k < j && k < t.related_edges@.len() && qualifying(
                    policy,
                    #[trigger] t.related_edges@[k],
                ) && t.related_edges@[k].related_id != t.id && (p == (
                    t.id,
                    t.related_edges@[k].related_id,
                ) || p == (t.related_edges@[k].related_id, t.id)),
    )
}

/// The undirected pairs one fetched title contributes to the graph.
pub open spec fn title_pairs(policy: FilterPolicy, t: TitleRecord) -> Set<(TitleId, TitleId)> {
    title_pairs_upto(policy, t, t.related_edges@.len() as int)
}

/// The vertices that a prefix of a title's relation list contributes: the
/// title itself and the target of every qualifying edge among its first `j`
/// entries.
pub open spec fn title_verts_upto(policy: FilterPolicy, t: TitleRecord, j: int) -> Set<TitleId> {
    Set::new(
        |x: TitleId|
            x == t.id || exists|k: int|
                0 <= k < j && k < t.related_edges@.len() && qualifying(
                    policy,
                    #[trigger] t.related_edges@[k],
                ) && t.related_edges@[k].related_id == x,
    )
}

/// The vertices one fetched title contributes to the graph.
pub open spec fn title_verts(policy: FilterPolicy, t: TitleRecord) -> Set<TitleId> {
    title_verts_upto(policy, t, t.related_edges@.len() as int)
}

/// The undirected pairs the first `n` titles of a batch contribute.
pub open spec fn titles_pairs_upto(policy: FilterPolicy, ts: Seq<TitleRecord>, n: int) -> Set<
    (TitleId, TitleId),
> {
    Set::new(
        |p: (TitleId, TitleId)|
            exists|i: int|
                0 <= i < n && i < ts.len() && #[trigger] title_pairs(policy, ts[i]).contains(p),
    )
}

/// The undirected pairs a whole batch of titles contributes.
pub open spec fn titles_pairs(policy: FilterPolicy, ts: Seq<TitleRecord>) -> Set<
    (TitleId, TitleId),
> {
    titles_pairs_upto(policy, ts, ts.len() as int)
}

/// The vertices the first `n` titles of a batch contribute.
pub open spec fn titles_verts_upto(policy: FilterPolicy, ts: Seq<TitleRecord>, n: int) -> Set<
    TitleId,
> {
    Set::new(
        |x: TitleId|
            exists|i: int|
                0 <= i < n && i < ts.len() && #[trigger] title_verts(policy, ts[i]).contains(x),
    )
}

/// The vertices a whole batch of titles contributes.
pub open spec fn titles_verts(policy: FilterPolicy, ts: Seq<TitleRecord>) -> Set<TitleId> {
    titles_verts_upto(policy, ts, ts.len() as int)
}

/// The identifiers of the first `n` titles of a batch.
pub open spec fn title_ids_upto(ts: Seq<TitleRecord>, n: int) -> Set<TitleId> {
    Set::new(|x: TitleId| exists|i: int| 0 <= i < n && i < ts.len() && (#[trigger] ts[i]).id == x)
}

/// The identifiers of a whole batch of titles.
pub open spec fn title_ids(ts: Seq<TitleRecord>) -> Set<TitleId> {
    title_ids_upto(ts, ts.len() as int)
}

proof fn lemma_title_upto_step(policy: FilterPolicy, t: TitleRecord, j: int)
    requires
        0 <= j < t.related_edges@.len(),
    ensures
        qualifying(policy, t.related_edges@[j]) && t.related_edges@[j].related_id != t.id
            ==> title_pairs_upto(policy, t, j + 1) =~= title_pairs_upto(policy, t, j).insert(
            (t.id, t.related_edges@[j].related_id),
        ).insert((t.related_edges@[j].related_id, t.id)),
        qualifying(policy, t.related_edges@[j]) ==> title_verts_upto(policy, t, j + 1)
            =~= title_verts_upto(policy, t, j).insert(t.related_edges@[j].related_id),
        !qualifying(policy, t.related_edges@[j]) ==> title_pairs_upto(policy, t, j + 1)
            =~= title_pairs_upto(policy, t, j),
        !qualifying(policy, t.related_edges@[j]) ==> title_verts_upto(policy, t, j + 1)
            =~= title_verts_upto(policy, t, j),
        qualifying(policy, t.related_edges@[j]) && t.related_edges@[j].related_id == t.id
            ==> title_pairs_upto(policy, t, j + 1) =~= title_pairs_upto(policy, t, j),
{
}

proof fn lemma_titles_upto_step(policy: FilterPolicy, ts: Seq<TitleRecord>, n: int)
    requires
        0 <= n < ts.len(),
    ensures
        titles_pairs_upto(policy, ts, n + 1) =~= titles_pairs_upto(policy, ts, n) + title_pairs(
            policy,
            ts[n],
        ),
        titles_verts_upto(policy, ts, n + 1) =~= titles_verts_upto(policy, ts, n) + title_verts(
            policy,
            ts[n],
        ),
        title_ids_upto(ts, n + 1) =~= title_ids_upto(ts, n).insert(ts[n].id),
{
}

/// Records an identifier as visited; a no-op when it already is.
fn mark_visited(visited: &mut Vec<TitleId>, id: TitleId)
    requires
        old(visited)@.no_duplicates(),
    ensures
        final(visited)@.no_duplicates(),
        final(visited)@.to_set() == old(visited)@.to_set().insert(id),
{
    if !crate::graph::contains_id(visited, id) {
        let ghost before = visited@;
        visited.push(id);
        proof {
            assert forall|i: int, j: int|
                0 <= i < j < visited@.len() implies visited@[i] != visited@[j] by {
                if j == visited@.len() - 1 {
                    assert(visited@[i] == before[i]);
                }
            }
        }
    } else {
        proof {
            assert(visited@.to_set() =~= visited@.to_set().insert(id));
        }
    }
}

/// The graph's vertices that are not yet visited, in vertex order.
fn unvisited_vertices(g: &FranchiseGraph, visited: &Vec<TitleId>) -> (r: Vec<TitleId>)
    requires
        g.wf(),
    ensures
        r@.no_duplicates(),
        r@.to_set() == g.vert_set().difference(visited@.to_set()),
        r@.len() == 0 ==> g.vert_set() <= visited@.to_set(),
{
    let mut r: Vec<TitleId> = Vec::new();
    let mut i: usize = 0;
    while i < g.verts.len()
        invariant
            g.wf(),
            i <= g.verts@.len(),
            r@.no_duplicates(),
            forall|k: int| 0 <= k < r@.len() ==> g.verts@.take(i as int).contains(#[trigger] r@[k]),
            r@.to_set() == g.verts@.take(i as int).to_set().difference(visited@.to_set()),
        decreases g.verts@.len() - i,
    {
        let v = g.verts[i];
        proof {
            assert(g.verts@.take(i as int + 1) =~= g.verts@.take(i as int).push(v));
        }
        if !crate::graph::contains_id(visited, v) {
            let ghost before = r@;
            proof {
                if r@.contains(v) {
                    let k = choose|k: int| 0 <= k < r@.len() && r@[k] == v;
                    let m = choose|m: int|
                        0 <= m < i && g.verts@.take(i as int)[m] == v && g.verts@[m] == v;
                    assert(g.verts@[m] == g.verts@[i as int]);
                    assert(false);
                }
            }
            r.push(v);
            proof {
                assert forall|a: int, b: int|
                    0 <= a < b < r@.len() implies r@[a] != r@[b] by {
                    if b == r@.len() - 1 {
                        assert(r@[a] == before[a]);
                    }
                }
                assert forall|k: int|
                    0 <= k < r@.len() implies g.verts@.take(i as int + 1).contains(
                    #[trigger] r@[k],
                ) by {
                    if k < r@.len() - 1 {
                        assert(before[k] == r@[k]);
                        assert(g.verts@.take(i as int).contains(r@[k]));
                    } else {
                        assert(g.verts@.take(i as int + 1)[i as int] == v);
                    }
                }
                assert(r@.to_set() =~= g.verts@.take(i as int + 1).to_set().difference(
                    visited@.to_set(),
                ));
            }
        } else {
            proof {
                assert(r@.to_set() =~= g.verts@.take(i as int + 1).to_set().difference(
                    visited@.to_set(),
                ));
            }
        }
        i = i + 1;
    }
    proof {
        assert(g.verts@.take(g.verts@.len() as int) =~= g.verts@);
        if r@.len() == 0 {
            assert forall|x: TitleId| g.vert_set().contains(x) implies visited@.to_set().contains(
                x,
            ) by {
                if !visited@.to_set().contains(x) {
                    assert(r@.to_set().contains(x));
                    assert(r@.contains(x));
                }
            }
        }
    }
    r
}

/// Adds one fetched title to the graph: the title as a vertex, plus both
/// directions of every qualifying relation edge.
fn absorb_title(g: &mut FranchiseGraph, policy: FilterPolicy, t: &TitleRecord)
    requires
        old(g).wf(),
    ensures
        final(g).wf(),
        final(g).vert_set() == old(g).vert_set() + title_verts(policy, *t),
        final(g).edge_set() == old(g).edge_set() + title_pairs(policy, *t),
{
    g.insert_vertex(t.id);
    proof {
        assert(g.vert_set() =~= old(g).vert_set() + title_verts_upto(policy, *t, 0));
        assert(g.edge_set() =~= old(g).edge_set() + title_pairs_upto(policy, *t, 0));
    }
    let mut j: usize = 0;
    while j < t.related_edges.len()
        invariant
            g.wf(),
            j <= t.related_edges@.len(),
            g.vert_set() == old(g).vert_set() + title_verts_upto(policy, *t, j as int),
            g.edge_set() == old(g).edge_set() + title_pairs_upto(policy, *t, j as int),
        decreases t.related_edges@.len() - j,
    {
        let e = t.related_edges[j];
        proof {
            lemma_title_upto_step(policy, *t, j as int);
        }
        if crate::model::is_franchise_edge(policy, e.relation_kind, e.related_kind) {
            g.insert_edge(t.id, e.related_id);
            proof {
                assert(g.vert_set() =~= old(g).vert_set() + title_verts_upto(
                    policy,
                    *t,
                    j as int + 1,
                ));
                assert(g.edge_set() =~= old(g).edge_set() + title_pairs_upto(
                    policy,
                    *t,
                    j as int + 1,
                ));
            }
        } else {
            proof {
                assert(g.vert_set() =~= old(g).vert_set() + title_verts_upto(
                    policy,
                    *t,
                    j as int + 1,
                ));
                assert(g.edge_set() =~= old(g).edge_set() + title_pairs_upto(
                    policy,
                    *t,
                    j as int + 1,
                ));
            }
        }
        j = j + 1;
    }
}

/// The closure computation's state between two requests.
pub struct Builder {
    /// The active relation filter policy.
    pub policy: FilterPolicy,
    /// The graph discovered so far.
    pub graph: FranchiseGraph,
    /// Every identifier fetched (or deliberately given up on), each once.
    pub visited: Vec<TitleId>,
    /// The identifiers the current round is resolving, each once.
    pub frontier: Vec<TitleId>,
    /// The next page to request for the current frontier, starting at 1.
    pub page: u32,
    /// The visited set as it stood when the current round began; each
    /// completed round with a nonempty frontier strictly grows it, which is
    /// why the computation terminates over any finite universe of
    /// identifiers.
    pub round_base: Ghost<Set<TitleId>>,
}

impl Builder {
    /// Internal consistency, maintained by every operation.
    pub open spec fn wf(self) -> bool {
        &&& self.graph.wf()
        &&& self.visited@.no_duplicates()
        &&& self.frontier@.no_duplicates()
        &&& self.visited@.to_set() <= self.graph.vert_set()
        &&& self.frontier@.to_set() <= self.graph.vert_set()
        &&& self.round_base@ <= self.visited@.to_set()
        &&& self.frontier@.to_set().disjoint(self.round_base@)
        &&& self.page >= 1
        &&& (self.frontier@.len() == 0 ==> self.graph.vert_set() <= self.visited@.to_set())
    }

    /// The build is complete: no identifier is left unresolved.
    pub open spec fn done_spec(self) -> bool {
        self.frontier@.len() == 0
    }

    /// Starts a build from the user's seed titles: every seed id becomes a
    /// visited vertex (isolated seeds stay in the graph as singletons), every
    /// qualifying seed edge enters the graph, and the first frontier is
    /// whatever edge targets are not themselves seeds.
    pub fn new(seeds: &Vec<TitleRecord>, policy: FilterPolicy) -> (r: Builder)
        ensures
            r.wf(),
            r.policy == policy,
            r.graph.vert_set() == titles_verts(policy, seeds@),
            r.graph.edge_set() == titles_pairs(policy, seeds@),
            r.visited@.to_set() == title_ids(seeds@),
            r.frontier@.to_set() == r.graph.vert_set().difference(r.visited@.to_set()),
            r.page == 1,
            r.round_base@ == r.visited@.to_set(),
    {
        let mut graph = FranchiseGraph::new();
        let mut visited: Vec<TitleId> = Vec::new();
        let mut i: usize = 0;
        proof {
            assert(graph.vert_set() =~= titles_verts_upto(policy, seeds@, 0));
            assert(graph.edge_set() =~= titles_pairs_upto(policy, seeds@, 0));
            assert(visited@.to_set() =~= title_ids_upto(seeds@, 0));
        }
        while i < seeds.len()
            invariant
                graph.wf(),
                i <= seeds@.len(),
                visited@.no_duplicates(),
                graph.vert_set() == titles_verts_upto(policy, seeds@, i as int),
                graph.edge_set() == titles_pairs_upto(policy, seeds@, i as int),
                visited@.to_set() == title_ids_upto(seeds@, i as int),
            decreases seeds@.len() - i,
        {
            absorb_title(&mut graph, policy, &seeds[i]);
            mark_visited(&mut visited, seeds[i].id);
            proof {
                lemma_titles_upto_step(policy, seeds@, i as int);
                assert(graph.vert_set() =~= titles_verts_upto(policy, seeds@, i as int + 1));
                assert(graph.edge_set() =~= titles_pairs_upto(policy, seeds@, i as int + 1));
                assert(visited@.to_set() =~= title_ids_upto(seeds@, i as int + 1));
            }
            i = i + 1;
        }
        let frontier = unvisited_vertices(&graph, &visited);
        let ghost base = visited@.to_set();
        let r = Builder { policy, graph, visited, frontier, page: 1, round_base: Ghost(base) };
        proof {
            assert forall|x: TitleId| title_ids(seeds@).contains(x) implies r.graph.vert_set()
                .contains(x) by {
                let k = choose|k: int| 0 <= k < seeds@.len() && (#[trigger] seeds@[k]).id == x;
                assert(title_verts(policy, seeds@[k]).contains(x));
            }
        }
        r
    }

    /// Whether the graph is fully resolved.
    pub fn done(&self) -> (r: bool)
        ensures
            r == self.done_spec(),
    {
        self.frontier.len() == 0
    }

    /// The identifiers the pending lookup request must carry: the whole
    /// current frontier, on every page of the round.
    pub fn request_ids(&self) -> (r: &Vec<TitleId>)
        ensures
            r@ == self.frontier@,
    {
        &self.frontier
    }

    /// The page number the pending lookup request must carry.
    pub fn request_page(&self) -> (r: u32)
        ensures
            r == self.page,
    {
        self.page
    }

    /// Feeds one page of lookup results back in. Every returned title is
    /// absorbed into the graph and marked visited. When the service reports
    /// more pages, only the page number advances; otherwise the round closes:
    /// the whole frontier is marked visited — returned by the service or not —
    /// and the next frontier is recomputed from the grown graph.
    pub fn on_page(&mut self, pr: &PageResult)
        requires
            old(self).wf(),
            !old(self).done_spec(),
            pr.has_next_page ==> old(self).page < 0xffff_ffffu32,
        ensures
            final(self).wf(),
            final(self).policy == old(self).policy,
            final(self).graph.vert_set() == old(self).graph.vert_set() + titles_verts(
                old(self).policy,
                pr.titles@,
            ),
            final(self).graph.edge_set() == old(self).graph.edge_set() + titles_pairs(
                old(self).policy,
                pr.titles@,
            ),
            pr.has_next_page ==> final(self).visited@.to_set() == old(self).visited@.to_set()
                + title_ids(pr.titles@),
            pr.has_next_page ==> final(self).frontier@ == old(self).frontier@ && final(self).page
                == old(self).page + 1 && final(self).round_base@ == old(self).round_base@,
            !pr.has_next_page ==> final(self).visited@.to_set() == old(self).visited@.to_set()
                + title_ids(pr.titles@) + old(self).frontier@.to_set(),
            !pr.has_next_page ==> final(self).frontier@.to_set() == final(self).graph.vert_set()
                .difference(final(self).visited@.to_set()) && final(self).page == 1,
            !pr.has_next_page ==> final(self).round_base@ == final(self).visited@.to_set(),
            !pr.has_next_page ==> final(self).round_base@.len() > old(self).round_base@.len(),
    {
        let ghost policy = self.policy;
        let n = pr.titles.len();
        let mut i: usize = 0;
        proof {
            assert(self.graph.vert_set() =~= old(self).graph.vert_set() + titles_verts_upto(
                policy,
                pr.titles@,
                0,
            ));
            assert(self.graph.edge_set() =~= old(self).graph.edge_set() + titles_pairs_upto(
                policy,
                pr.titles@,
                0,
            ));
            assert(self.visited@.to_set() =~= old(self).visited@.to_set() + title_ids_upto(
                pr.titles@,
                0,
            ));
        }
        while i < n
            invariant
                self.graph.wf(),
                self.visited@.no_duplicates(),
                self.policy == old(self).policy,
                self.frontier == old(self).frontier,
                self.page == old(self).page,
                self.round_base == old(self).round_base,
                n == pr.titles@.len(),
                i <= n,
                self.graph.vert_set() == old(self).graph.vert_set() + titles_verts_upto(
                    policy,
                    pr.titles@,
                    i as int,
                ),
                self.graph.edge_set() == old(self).graph.edge_set() + titles_pairs_upto(
                    policy,
                    pr.titles@,
                    i as int,
                ),
                self.visited@.to_set() == old(self).visited@.to_set() + title_ids_upto(
                    pr.titles@,
                    i as int,
                ),
                self.visited@.to_set() <= self.graph.vert_set(),
                policy == old(self).policy,
            decreases n - i,
        {
            let t = &pr.titles[i];
            absorb_title(&mut self.graph, self.policy, t);
            mark_visited(&mut self.visited, t.id);
            proof {
                lemma_titles_upto_step(policy, pr.titles@, i as int);
                assert(self.graph.vert_set() =~= old(self).graph.vert_set() + titles_verts_upto(
                    policy,
                    pr.titles@,
                    i as int + 1,
                ));
                assert(self.graph.edge_set() =~= old(self).graph.edge_set() + titles_pairs_upto(
                    policy,
                    pr.titles@,
                    i as int + 1,
                ));
                assert(self.visited@.to_set() =~= old(self).visited@.to_set() + title_ids_upto(
                    pr.titles@,
                    i as int + 1,
                ));
                assert(title_verts(policy, pr.titles@[i as int]).contains(pr.titles@[i as int].id));
            }
            i = i + 1;
        }
        if pr.has_next_page {
            self.page = self.page + 1;
            proof {
                assert(self.frontier@.to_set() <= self.graph.vert_set());
            }
        } else {
            let ghost mid_visited = self.visited@.to_set();
            let ghost grown_graph = self.graph;
            let mut k: usize = 0;
            while k < self.frontier.len()
                invariant
                    self.graph == grown_graph,
                    self.graph.wf(),
                    self.visited@.no_duplicates(),
                    self.policy == old(self).policy,
                    self.frontier == old(self).frontier,
                    self.page == old(self).page,
                    self.round_base == old(self).round_base,
                    k <= self.frontier@.len(),
                    self.visited@.to_set() == mid_visited + self.frontier@.take(k as int).to_set(),
                    self.visited@.to_set() <= self.graph.vert_set(),
                    self.frontier@.to_set() <= self.graph.vert_set(),
                decreases self.frontier@.len() - k,
            {
                let id = self.frontier[k];
                proof {
                    assert(self.frontier@.take(k as int + 1) =~= self.frontier@.take(
                        k as int,
                    ).push(id));
                }
                mark_visited(&mut self.visited, id);
                proof {
                    assert(self.visited@.to_set() =~= mid_visited + self.frontier@.take(
                        k as int + 1,
                    ).to_set());
                }
                k = k + 1;
            }
            proof {
                assert(self.frontier@.take(self.frontier@.len() as int) =~= self.frontier@);
            }
            let next = unvisited_vertices(&self.graph, &self.visited);
            self.frontier = next;
            self.page = 1;
            let ghost newbase = self.visited@.to_set();
            proof {
                let f = old(self).frontier@[0];
                assert(old(self).frontier@.to_set().contains(f));
                assert(!old(self).round_base@.contains(f));
                let grown = old(self).round_base@.insert(f);
                assert(grown <= newbase);
                lemma_len_subset(old(self).round_base@, old(self).visited@.to_set());
                lemma_len_subset(grown, newbase);
                assert(newbase.finite());
                assert(grown.len() == old(self).round_base@.len() + 1);
            }
            self.round_base = Ghost(newbase);
        }
    }

    /// Hands the finished graph over once the computation is done; every
    /// vertex has then been resolved.
    pub fn finish(self) -> (r: FranchiseGraph)
        requires
            self.wf(),
            self.done_spec(),
        ensures
            r == self.graph,
            r.wf(),
            r.vert_set() <= self.visited@.to_set(),
    {
        self.graph
    }
}

/// Law: a completed round strictly shrinks what is left of any finite
/// universe of identifiers that contains the graph's vertices: the count of
/// identifiers not yet visited goes down by at least one. Chained over
/// rounds, this is why the closure computation terminates on every finite
/// relation universe, cyclic or not, even when the service never returns some
/// identifier.
pub proof fn lemma_round_measure_decreases(
    universe: Set<TitleId>,
    before: Set<TitleId>,
    after: Set<TitleId>,
)
    requires
        universe.finite(),
        before <= after,
        after <= universe,
        before.len() < after.len(),
    ensures
        universe.difference(after).len() < universe.difference(before).len(),
{
    lemma_len_subset(after, universe);
    let x = choose|x: TitleId| after.contains(x) && !before.contains(x);
    if forall|y: TitleId| #[trigger] after.contains(y) ==> before.contains(y) {
        lemma_len_subset(after, before);
        assert(false);
    }
    assert(after.contains(x) && !before.contains(x));
    assert(universe.difference(before).contains(x));
    lemma_len_subset(universe.difference(after), universe);
    lemma_len_subset(universe.difference(before), universe);
    assert(universe.difference(after) <= universe.difference(before).remove(x));
    lemma_len_subset(universe.difference(after), universe.difference(before).remove(x));
    assert(universe.difference(before).remove(x).len() == universe.difference(before).len() - 1);
}

/// What a whole build comes to: either the resolved graph's vertex and edge
/// sets, or the error that aborted it.
pub enum BuildOutcome {
    Resolved { verts: Set<TitleId>, edges: Set<(TitleId, TitleId)> },
    Failed { err: FetchError },
}

/// The closure computation as a function of the decoded replies, one consumed
/// per request: while the frontier is nonempty, a data page grows the graph
/// and the visited set exactly as [`Builder::on_page`] states, closing the
/// round when no next page is reported; the first reply of any other shape
/// aborts with the matching error, and an exhausted reply sequence is a
/// transport failure.
pub open spec fn run_build(
    policy: FilterPolicy,
    verts: Set<TitleId>,
    edges: Set<(TitleId, TitleId)>,
    visited: Set<TitleId>,
    frontier: Set<TitleId>,
    responses: Seq<ServiceReply<PageResult>>,
) -> BuildOutcome
    decreases responses.len(),
{
    if frontier == Set::<TitleId>::empty() {
        BuildOutcome::Resolved { verts, edges }
    } else if responses.len() == 0 {
        BuildOutcome::Failed { err: FetchError::Transport }
    } else {
        match responses[0] {
            ServiceReply::Data(pr) => {
                let verts2 = verts + titles_verts(policy, pr.titles@);
                let edges2 = edges + titles_pairs(policy, pr.titles@);
                let mid = visited + title_ids(pr.titles@);
                if pr.has_next_page {
                    run_build(policy, verts2, edges2, mid, frontier, responses.drop_first())
                } else {
                    run_build(
                        policy,
                        verts2,
                        edges2,
                        mid + frontier,
                        verts2.difference(mid + frontier),
                        responses.drop_first(),
                    )
                }
            },
            ServiceReply::Failures(es) => if es@.len() > 0 {
                BuildOutcome::Failed {
                    err: (FetchError::Service { status: es@[0].status, message: es@[0].message }),
                }
            } else {
                BuildOutcome::Failed { err: FetchError::Decode }
            },
            ServiceReply::Unrecognized => BuildOutcome::Failed { err: FetchError::Decode },
        }
    }
}

/// The outcome a build over the given seeds and replies must come to.
pub open spec fn build_outcome(
    policy: FilterPolicy,
    seeds: Seq<TitleRecord>,
    responses: Seq<ServiceReply<PageResult>>,
) -> BuildOutcome {
    let verts = titles_verts(policy, seeds);
    let visited = title_ids(seeds);
    run_build(
        policy,
        verts,
        titles_pairs(policy, seeds),
        visited,
        verts.difference(visited),
        responses,
    )
}

/// Runs the whole closure computation against a prepared sequence of decoded
/// replies, one per request, in the order the requests would be issued: the
/// verified core of the build, with transport left to the caller. The result
/// is exactly [`build_outcome`] of the inputs: the resolved graph's vertex
/// and edge sets when the replies suffice, and otherwise the first failure —
/// the first entry of a reported failure list, a decode failure for an
/// unrecognized reply (or an empty failure list), a transport failure when
/// the replies run out. Every failure aborts the whole build; no partial
/// result is returned.
pub fn build(
    seeds: &Vec<TitleRecord>,
    policy: FilterPolicy,
    responses: &Vec<ServiceReply<PageResult>>,
) -> (r: Result<FranchiseGraph, FetchError>)
    requires
        responses@.len() < 0xffff_ffff,
    ensures
        ({
            let o = build_outcome(policy, seeds@, responses@);
            &&& (o matches BuildOutcome::Resolved { verts, edges } ==> (r matches Ok(g) && g.wf()
                && g.vert_set() == verts && g.edge_set() == edges))
            &&& (o matches BuildOutcome::Failed { err } ==> r == Err::<
                FranchiseGraph,
                FetchError,
            >(err))
        }),
{
    let mut b = Builder::new(seeds, policy);
    let mut i: usize = 0;
    proof {
        assert(responses@.skip(0) =~= responses@);
    }
    while !b.done()
        invariant
            b.wf(),
            b.policy == policy,
            i <= responses@.len(),
            b.page <= i + 1,
            responses@.len() < 0xffff_ffff,
            run_build(
                policy,
                b.graph.vert_set(),
                b.graph.edge_set(),
                b.visited@.to_set(),
                b.frontier@.to_set(),
                responses@.skip(i as int),
            ) == build_outcome(policy, seeds@, responses@),
        decreases responses@.len() - i,
    {
        proof {
            assert(b.frontier@.to_set().contains(b.frontier@[0]));
            assert(b.frontier@.to_set() != Set::<TitleId>::empty());
        }
        if i >= responses.len() {
            return Err(FetchError::Transport);
        }
        proof {
            assert(responses@.skip(i as int)[0] == responses@[i as int]);
            assert(responses@.skip(i as int).drop_first() =~= responses@.skip(i as int + 1));
        }
        match &responses[i] {
            ServiceReply::Data(pr) => {
                let ghost pre = b;
                b.on_page(pr);
                proof {
                    if !pr.has_next_page {
                        assert(b.visited@.to_set() =~= (pre.visited@.to_set() + title_ids(
                            pr.titles@,
                        )) + pre.frontier@.to_set());
                    }
                    assert(run_build(
                        policy,
                        b.graph.vert_set(),
                        b.graph.edge_set(),
                        b.visited@.to_set(),
                        b.frontier@.to_set(),
                        responses@.skip(i as int + 1),
                    ) == build_outcome(policy, seeds@, responses@));
                }
            },
            ServiceReply::Failures(es) => {
                if es.len() > 0 {
                    let status = es[0].status;
                    let message = es[0].message.clone();
                    return Err(FetchError::Service { status, message });
                } else {
                    return Err(FetchError::Decode);
                }
            },
            ServiceReply::Unrecognized => {
                return Err(FetchError::Decode);
            },
        }
        i = i + 1;
    }
    proof {
        assert(b.frontier@.to_set() =~= Set::<TitleId>::empty());
    }
    Ok(b.finish())
}

} // verus!
