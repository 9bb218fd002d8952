//! Franchise extraction: turns the resolved graph and the fetched records
//! into the final, deterministically ordered franchise list.
//!
//! Entries inside a franchise are ordered by release date ascending, unknown
//! dates last, ties by position in the fetched list; the representative title
//! is the earliest entry's display title, or empty for a component without
//! display data. The franchise list itself is ordered by representative
//! title. This fixes one ordering policy for the whole library: record-level
//! release dates decide entry order, titles decide franchise order, and no
//! other key is consulted.

use vstd::prelude::*;
use vstd::multiset::Multiset;
use crate::components::{components, valid_components};
use crate::date::{FuzzyDate, date_le, lemma_date_le_total_order};
use crate::graph::{FranchiseGraph, connected, contains_id};
use crate::model::{TitleId, TitleRecord};
use crate::ordering::{record_le, lemma_record_le_props, sorted_indices, display_positions};
use crate::text::{chars_le, lemma_chars_le_total, lemma_chars_le_trans, title_le};

verus! {

broadcast use {
    vstd::seq_lib::lemma_seq_contains_after_push,
    vstd::seq_lib::group_to_multiset_ensures,
};

/// One displayed entry of a franchise.
pub struct FranchiseEntry {
    pub id: TitleId,
    pub title: String,
    pub release_date: FuzzyDate,
}

/// One franchise: entries ordered by release date, and the earliest entry's
/// display title as the representative.
pub struct Franchise {
    pub representative_title: String,
    pub entries: Vec<FranchiseEntry>,
}

/// An entry displays exactly one fetched record.
pub open spec fn entry_shows(e: FranchiseEntry, t: TitleRecord) -> bool {
    e.id == t.id && e.title@ == t.display_title@ && e.release_date == t.release_date
}

/// The entry displays one of the fetched records.
pub open spec fn shows_some_record(e: FranchiseEntry, recs: Seq<TitleRecord>) -> bool {
    exists|m: int| 0 <= m < recs.len() && entry_shows(e, recs[m])
}

/// Some entry of the sequence displays the given record.
pub open spec fn some_entry_shows(es: Seq<FranchiseEntry>, t: TitleRecord) -> bool {
    exists|k: int| 0 <= k < es.len() && entry_shows(#[trigger] es[k], t)
}

/// What every returned franchise satisfies: entries ordered by release date,
/// each entry displaying a fetched record, all entries mutually connected in
/// the graph, and the representative title equal to the earliest entry's
/// title — or empty when the component carries no fetched record.
pub open spec fn franchise_ok(
    f: Franchise,
    es: Set<(TitleId, TitleId)>,
    recs: Seq<TitleRecord>,
) -> bool {
    &&& forall|k: int, l: int|
        0 <= k < l < f.entries@.len() ==> date_le(
            (#[trigger] f.entries@[k]).release_date,
            (#[trigger] f.entries@[l]).release_date,
        )
    &&& forall|k: int|
        0 <= k < f.entries@.len() ==> shows_some_record(#[trigger] f.entries@[k], recs)
    &&& forall|k: int, l: int|
        0 <= k < f.entries@.len() && 0 <= l < f.entries@.len() ==> connected(
            es,
            (#[trigger] f.entries@[k]).id,
            (#[trigger] f.entries@[l]).id,
        )
    &&& (f.entries@.len() > 0 ==> f.representative_title@ == f.entries@[0].title@)
    &&& (f.entries@.len() == 0 ==> f.representative_title@ == Seq::<char>::empty())
}

/// A record projected to its displayed entry.
pub open spec fn entry_of(t: TitleRecord) -> FranchiseEntry {
    FranchiseEntry { id: t.id, title: t.display_title, release_date: t.release_date }
}

/// The entries a component's franchise carries after the first `q` display
/// positions: an entry for each record whose id lies in the component, in
/// display order, one per record.
pub open spec fn component_entries_upto(
    c: Set<TitleId>,
    recs: Seq<TitleRecord>,
    q: int,
) -> Seq<FranchiseEntry>
    decreases q,
{
    if q <= 0 {
        Seq::empty()
    } else {
        let prev = component_entries_upto(c, recs, q - 1);
        let p = display_positions(recs)[q - 1];
        if c.contains(recs[p as int].id) {
            prev.push(entry_of(recs[p as int]))
        } else {
            prev
        }
    }
}

/// The one entry list a component's franchise can carry: exactly the records
/// whose id lies in the component, each once per record, in display order
/// (release date ascending, unknown components last, ties in fetched order).
pub open spec fn component_entries(c: Set<TitleId>, recs: Seq<TitleRecord>) -> Seq<FranchiseEntry> {
    component_entries_upto(c, recs, display_positions(recs).len() as int)
}

/// A franchise reduced to what graph and records determine: the
/// representative title's characters and the entry list.
pub open spec fn franchise_shape(f: Franchise) -> (Seq<char>, Seq<FranchiseEntry>) {
    (f.representative_title@, f.entries@)
}

/// The one shape a component's franchise can take.
pub open spec fn component_shape(c: Set<TitleId>, recs: Seq<TitleRecord>) -> (
    Seq<char>,
    Seq<FranchiseEntry>,
) {
    let es = component_entries(c, recs);
    (
        if es.len() > 0 {
            es[0].title@
        } else {
            Seq::<char>::empty()
        },
        es,
    )
}

/// The shapes of a whole franchise list.
pub open spec fn shapes(s: Seq<Franchise>) -> Seq<(Seq<char>, Seq<FranchiseEntry>)> {
    Seq::new(s.len(), |i: int| franchise_shape(s[i]))
}

/// The shapes the components of a graph demand, one per component.
pub open spec fn component_shapes(cs: Seq<Set<TitleId>>, recs: Seq<TitleRecord>) -> Seq<
    (Seq<char>, Seq<FranchiseEntry>),
> {
    Seq::new(cs.len(), |j: int| component_shape(cs[j], recs))
}

/// The vertex sets of a component list.
pub open spec fn vert_sets_of(comps: Seq<Vec<TitleId>>) -> Seq<Set<TitleId>> {
    Seq::new(comps.len(), |j: int| comps[j]@.to_set())
}

/// A sequence of vertex sets that partitions the graph into its connected
/// components: nonempty, disjoint, covering the vertices, internally
/// connected and closed under the edges. Only the connectivity classes
/// satisfy all of this, each exactly once, so any two such sequences carry
/// the same sets.
pub open spec fn component_partition(
    cs: Seq<Set<TitleId>>,
    vs: Set<TitleId>,
    es: Set<(TitleId, TitleId)>,
) -> bool {
    &&& forall|j: int| 0 <= j < cs.len() ==> (#[trigger] cs[j]) != Set::<TitleId>::empty()
    &&& forall|j: int| 0 <= j < cs.len() ==> (#[trigger] cs[j]) <= vs
    &&& forall|v: TitleId|
        vs.contains(v) ==> exists|j: int| 0 <= j < cs.len() && (#[trigger] cs[j]).contains(v)
    &&& forall|i: int, j: int, v: TitleId|
        #![trigger cs[i].contains(v), cs[j].contains(v)]
        0 <= i < j < cs.len() && cs[i].contains(v) ==> !cs[j].contains(v)
    &&& forall|j: int, u: TitleId, w: TitleId|
        #![trigger cs[j].contains(u), cs[j].contains(w)]
        0 <= j < cs.len() && cs[j].contains(u) && cs[j].contains(w) ==> connected(es, u, w)
    &&& forall|j: int, u: TitleId, w: TitleId|
        #![trigger cs[j].contains(u), es.contains((u, w))]
        0 <= j < cs.len() && cs[j].contains(u) && es.contains((u, w)) ==> cs[j].contains(w)
}

/// Law: the component partition of a graph is unique — any two sequences of
/// vertex sets that each partition the same graph carry exactly the same
/// sets. With [`extract`]'s contract, which ties the output's shapes to such
/// a partition, rerunning extraction on one graph and record list — or on a
/// graph rebuilt from reordered or direction-duplicated edge insertions,
/// which has the same abstract edge set — yields the same franchises.
pub proof fn lemma_partition_unique(
    cs1: Seq<Set<TitleId>>,
    cs2: Seq<Set<TitleId>>,
    vs: Set<TitleId>,
    es: Set<(TitleId, TitleId)>,
)
    requires
        component_partition(cs1, vs, es),
        component_partition(cs2, vs, es),
    ensures
        forall|i: int| 0 <= i < cs1.len() ==> #[trigger] set_appears_in(cs1, cs2, i),
{
    assert forall|i: int| 0 <= i < cs1.len() implies #[trigger] set_appears_in(cs1, cs2, i) by {
        assert(exists|u: TitleId| cs1[i].contains(u)) by {
            if forall|u: TitleId| !(#[trigger] cs1[i].contains(u)) {
                assert(cs1[i] =~= Set::<TitleId>::empty());
            }
        }
        let u = choose|u: TitleId| cs1[i].contains(u);
        assert(vs.contains(u));
        let j = choose|j: int| 0 <= j < cs2.len() && (#[trigger] cs2[j]).contains(u);
        assert forall|x: TitleId| cs1[i].contains(x) implies cs2[j].contains(x) by {
            assert(connected(es, u, x));
            crate::graph::lemma_closed_set_traps_walks(es, cs2[j], u, x);
        }
        assert forall|x: TitleId| cs2[j].contains(x) implies cs1[i].contains(x) by {
            assert(connected(es, u, x));
            crate::graph::lemma_closed_set_traps_walks(es, cs1[i], u, x);
        }
        assert(cs1[i] =~= cs2[j]);
        assert(0 <= j < cs2.len() && (#[trigger] cs2[j]) == cs1[i]);
    }
}

/// The `i`th set of `cs1` appears among the sets of `cs2`.
pub open spec fn set_appears_in(cs1: Seq<Set<TitleId>>, cs2: Seq<Set<TitleId>>, i: int) -> bool {
    exists|j: int| 0 <= j < cs2.len() && (#[trigger] cs2[j]) == cs1[i]
}

/// Collects, in display order, an entry for every record whose title belongs
/// to the given component.
fn entries_for(comp: &Vec<TitleId>, records: &Vec<TitleRecord>, order: &Vec<usize>) -> (es: Vec<
    FranchiseEntry,
>)
    requires
        order@ == display_positions(records@),
        order@.len() == records@.len(),
        forall|p: int| 0 <= p < order@.len() ==> (#[trigger] order@[p]) < records@.len(),
        forall|p: int, q: int|
            0 <= p < q < order@.len() ==> record_le(records@, order@[p] as int, order@[q] as int),
        forall|m: int| 0 <= m < records@.len() ==> #[trigger] order@.contains(m as usize),
    ensures
        es@ == component_entries(comp@.to_set(), records@),
        forall|k: int, l: int|
            0 <= k < l < es@.len() ==> date_le(
                (#[trigger] es@[k]).release_date,
                (#[trigger] es@[l]).release_date,
            ),
        forall|k: int| 0 <= k < es@.len() ==> shows_some_record(#[trigger] es@[k], records@),
        forall|k: int| 0 <= k < es@.len() ==> comp@.contains((#[trigger] es@[k]).id),
        forall|m: int|
            0 <= m < records@.len() && comp@.contains(records@[m].id)
                ==> #[trigger] some_entry_shows(es@, records@[m]),
{
    let mut es: Vec<FranchiseEntry> = Vec::new();
    let mut q: usize = 0;
    while q < order.len()
        invariant
            order@ == display_positions(records@),
            es@ == component_entries_upto(comp@.to_set(), records@, q as int),
            order@.len() == records@.len(),
            forall|p: int| 0 <= p < order@.len() ==> (#[trigger] order@[p]) < records@.len(),
            forall|p: int, p2: int|
                0 <= p < p2 < order@.len() ==> record_le(
                    records@,
                    order@[p] as int,
                    order@[p2] as int,
                ),
            q <= order@.len(),
            forall|k: int, l: int|
                0 <= k < l < es@.len() ==> date_le(
                    (#[trigger] es@[k]).release_date,
                    (#[trigger] es@[l]).release_date,
                ),
            forall|k: int, p: int|
                0 <= k < es@.len() && q <= p < order@.len() ==> date_le(
                    (#[trigger] es@[k]).release_date,
                    (#[trigger] records@[order@[p] as int]).release_date,
                ),
            forall|k: int| 0 <= k < es@.len() ==> shows_some_record(#[trigger] es@[k], records@),
            forall|k: int| 0 <= k < es@.len() ==> comp@.contains((#[trigger] es@[k]).id),
            forall|p: int|
                0 <= p < q && comp@.contains(records@[order@[p] as int].id)
                    ==> #[trigger] some_entry_shows(es@, records@[order@[p] as int]),
        decreases order@.len() - q,
    {
        let m = order[q];
        let t = &records[m];
        if contains_id(comp, t.id) {
            let ghost before = es@;
            let e = FranchiseEntry {
                id: t.id,
                title: t.display_title.clone(),
                release_date: t.release_date,
            };
            proof {
                assert(entry_shows(e, records@[m as int]));
            }
            es.push(e);
            proof {
                assert(e == entry_of(records@[m as int]));
                assert(comp@.to_set().contains(records@[m as int].id));
                assert(display_positions(records@)[q as int] == m);
                assert(es@ == component_entries_upto(comp@.to_set(), records@, q as int + 1));
                assert forall|k: int|
                    0 <= k < es@.len() implies shows_some_record(#[trigger] es@[k], records@) by {
                    if k == es@.len() - 1 {
                        assert(entry_shows(es@[k], records@[m as int]));
                    } else {
                        assert(es@[k] == before[k]);
                        assert(shows_some_record(before[k], records@));
                    }
                }
                assert forall|k: int|
                    0 <= k < es@.len() implies comp@.contains((#[trigger] es@[k]).id) by {
                    if k < es@.len() - 1 {
                        assert(es@[k] == before[k]);
                    }
                }
                assert forall|k: int, l: int|
                    0 <= k < l < es@.len() implies date_le(
                    (#[trigger] es@[k]).release_date,
                    (#[trigger] es@[l]).release_date,
                ) by {
                    if l == es@.len() - 1 {
                        assert(es@[k] == before[k]);
                        assert(date_le(before[k].release_date, records@[order@[q as int] as int].release_date));
                    } else {
                        assert(es@[k] == before[k] && es@[l] == before[l]);
                    }
                }
                assert forall|k: int, p: int|
                    0 <= k < es@.len() && q + 1 <= p < order@.len() implies date_le(
                    (#[trigger] es@[k]).release_date,
                    (#[trigger] records@[order@[p] as int]).release_date,
                ) by {
                    if k == es@.len() - 1 {
                        assert(record_le(records@, order@[q as int] as int, order@[p] as int));
                        lemma_record_le_props(
                            records@,
                            order@[q as int] as int,
                            order@[p] as int,
                            order@[p] as int,
                        );
                        lemma_date_le_total_order(
                            records@[order@[q as int] as int].release_date,
                            records@[order@[p] as int].release_date,
                            records@[order@[p] as int].release_date,
                        );
                    } else {
                        assert(es@[k] == before[k]);
                    }
                }
                assert forall|p: int|
                    0 <= p < q + 1 && comp@.contains(records@[order@[p] as int].id)
                        implies #[trigger] some_entry_shows(es@, records@[order@[p] as int]) by {
                    if p == q {
                        assert(es@[es@.len() - 1] == e);
                        assert(entry_shows(es@[es@.len() - 1], records@[order@[p] as int]));
                    } else {
                        assert(some_entry_shows(before, records@[order@[p] as int]));
                        let k = choose|k: int|
                            0 <= k < before.len() && entry_shows(
                                #[trigger] before[k],
                                records@[order@[p] as int],
                            );
                        assert(es@[k] == before[k]);
                        assert(entry_shows(es@[k], records@[order@[p] as int]));
                    }
                }
            }
        } else {
            proof {
                assert(!comp@.to_set().contains(records@[m as int].id));
                assert(display_positions(records@)[q as int] == m);
                assert(es@ == component_entries_upto(comp@.to_set(), records@, q as int + 1));
                assert forall|p: int|
                    0 <= p < q + 1 && comp@.contains(records@[order@[p] as int].id)
                        implies #[trigger] some_entry_shows(es@, records@[order@[p] as int]) by {
                    if p == q {
                        assert(!comp@.contains(records@[order@[p] as int].id));
                    }
                }
            }
        }
        q = q + 1;
    }
    proof {
        assert(display_positions(records@).len() == order@.len());
        assert(es@ == component_entries(comp@.to_set(), records@));
        assert forall|m: int|
            0 <= m < records@.len() && comp@.contains(records@[m].id)
                implies #[trigger] some_entry_shows(es@, records@[m]) by {
            assert(order@.contains(m as usize));
            let p = choose|p: int| 0 <= p < order@.len() && order@[p] == m as usize;
            assert(comp@.contains(records@[order@[p] as int].id));
            assert(some_entry_shows(es@, records@[order@[p] as int]));
        }
    }
    es
}

/// Sorts franchises by representative title, keeping ties in the order the
/// components were discovered in.
fn sort_franchises(v: Vec<Franchise>) -> (r: Vec<Franchise>)
    ensures
        r@.to_multiset() == v@.to_multiset(),
        shapes(r@).to_multiset() == shapes(v@).to_multiset(),
        forall|i: int, j: int|
            0 <= i < j < r@.len() ==> chars_le(
                (#[trigger] r@[i]).representative_title@,
                (#[trigger] r@[j]).representative_title@,
            ),
{
    let ghost orig = v@;
    let mut v = v;
    let mut r: Vec<Franchise> = Vec::new();
    proof {
        assert(r@.to_multiset().add(v@.to_multiset()) =~= orig.to_multiset());
        assert(shapes(r@).to_multiset().add(shapes(v@).to_multiset()) =~= shapes(
            orig,
        ).to_multiset());
    }
    while v.len() > 0
        invariant
            r@.to_multiset().add(v@.to_multiset()) == orig.to_multiset(),
            shapes(r@).to_multiset().add(shapes(v@).to_multiset()) == shapes(orig).to_multiset(),
            forall|i: int, j: int|
                0 <= i < j < r@.len() ==> chars_le(
                    (#[trigger] r@[i]).representative_title@,
                    (#[trigger] r@[j]).representative_title@,
                ),
        decreases v@.len(),
    {
        let ghost v_before = v@;
        let x = v.remove(0);
        let ghost gx = x;
        let mut j: usize = 0;
        while j < r.len() && title_le(
            r[j].representative_title.as_str(),
            x.representative_title.as_str(),
        )
            invariant
                j <= r@.len(),
                forall|k: int|
                    0 <= k < j ==> chars_le(
                        (#[trigger] r@[k]).representative_title@,
                        x.representative_title@,
                    ),
            decreases r@.len() - j,
        {
            j = j + 1;
        }
        let ghost before = r@;
        r.insert(j, x);
        proof {
            before.insert_ensures(j as int, gx);
            assert(r@ == before.insert(j as int, gx));
            assert forall|i: int, j2: int|
                0 <= i < j2 < r@.len() implies chars_le(
                (#[trigger] r@[i]).representative_title@,
                (#[trigger] r@[j2]).representative_title@,
            ) by {
                if j2 < j {
                    assert(r@[i] == before[i] && r@[j2] == before[j2]);
                } else if j2 == j {
                    assert(r@[i] == before[i]);
                    assert(chars_le(before[i].representative_title@, gx.representative_title@));
                } else {
                    if j < before.len() {
                        lemma_chars_le_total(
                            before[j as int].representative_title@,
                            gx.representative_title@,
                        );
                    }
                    if i < j {
                        assert(r@[i] == before[i] && r@[j2] == before[j2 - 1]);
                        if j2 - 1 == j {
                            lemma_chars_le_trans(
                                before[i].representative_title@,
                                gx.representative_title@,
                                before[j as int].representative_title@,
                            );
                        }
                    } else if i == j {
                        assert(r@[i] == gx && r@[j2] == before[j2 - 1]);
                        if j2 - 1 > j {
                            lemma_chars_le_trans(
                                gx.representative_title@,
                                before[j as int].representative_title@,
                                before[j2 - 1].representative_title@,
                            );
                        }
                    } else {
                        assert(r@[i] == before[i - 1] && r@[j2] == before[j2 - 1]);
                    }
                }
            }
            assert(v_before[0] == gx);
            assert(r@.to_multiset() =~= before.to_multiset().insert(gx));
            assert(v@.to_multiset() =~= v_before.to_multiset().remove(gx));
            assert(v_before.to_multiset().contains(gx));
            assert(r@.to_multiset().add(v@.to_multiset()) =~= orig.to_multiset());
            shapes(before).insert_ensures(j as int, franchise_shape(gx));
            assert(shapes(r@) =~= shapes(before).insert(j as int, franchise_shape(gx)));
            vstd::seq_lib::to_multiset_insert(shapes(before), j as int, franchise_shape(gx));
            assert(shapes(r@).to_multiset() =~= shapes(before).to_multiset().insert(
                franchise_shape(gx),
            ));
            v_before.remove_ensures(0);
            shapes(v_before).remove_ensures(0);
            assert(shapes(v@) =~= shapes(v_before).remove(0));
            assert(shapes(v_before)[0] == franchise_shape(gx));
            vstd::seq_lib::to_multiset_remove(shapes(v_before), 0);
            assert(shapes(v@).to_multiset() =~= shapes(v_before).to_multiset().remove(
                franchise_shape(gx),
            ));
            assert(shapes(v_before).to_multiset().contains(franchise_shape(gx)));
            assert(shapes(r@).to_multiset().add(shapes(v@).to_multiset()) =~= shapes(
                orig,
            ).to_multiset());
        }
    }
    proof {
        assert(v@.to_multiset() =~= Multiset::<Franchise>::empty());
        assert(r@.to_multiset() =~= orig.to_multiset());
        assert(shapes(v@) =~= Seq::<(Seq<char>, Seq<FranchiseEntry>)>::empty());
        assert(shapes(v@).to_multiset() =~= Multiset::<(Seq<char>, Seq<FranchiseEntry>)>::empty());
        assert(shapes(r@).to_multiset() =~= shapes(orig).to_multiset());
    }
    r
}

/// Groups the fetched records into franchises along the graph's connected
/// components: one franchise per component, entries ordered by release date
/// (unknown dates last, ties in fetched order), the earliest entry's title as
/// the representative — empty for components without display data — and the
/// whole list ordered by representative title. Extraction reads only the
/// abstract graph and the records, so rerunning it, or rebuilding the graph
/// with reordered or direction-flipped edge insertions, regroups identically.
#[verifier::rlimit(60)]
pub fn extract(g: &FranchiseGraph, records: &Vec<TitleRecord>) -> (r: Vec<Franchise>)
    requires
        g.wf(),
    ensures
        forall|i: int, j: int|
            0 <= i < j < r@.len() ==> chars_le(
                (#[trigger] r@[i]).representative_title@,
                (#[trigger] r@[j]).representative_title@,
            ),
        forall|i: int| 0 <= i < r@.len() ==> franchise_ok(#[trigger] r@[i], g.edge_set(), records@),
        forall|m: int|
            0 <= m < records@.len() && g.vert_set().contains(records@[m].id) ==> exists|i: int|
                0 <= i < r@.len() && some_entry_shows((#[trigger] r@[i]).entries@, records@[m]),
        exists|cs: Seq<Set<TitleId>>|
            #[trigger] component_partition(cs, g.vert_set(), g.edge_set()) && shapes(
                r@,
            ).to_multiset() == component_shapes(cs, records@).to_multiset(),
{
    let order = sorted_indices(records);
    let comps = components(g);
    let mut out: Vec<Franchise> = Vec::new();
    let mut ci: usize = 0;
    while ci < comps.len()
        invariant
            g.wf(),
            valid_components(comps@, g.vert_set(), g.edge_set()),
            order@ == display_positions(records@),
            order@.len() == records@.len(),
            forall|p: int| 0 <= p < order@.len() ==> (#[trigger] order@[p]) < records@.len(),
            forall|p: int, q: int|
                0 <= p < q < order@.len() ==> record_le(
                    records@,
                    order@[p] as int,
                    order@[q] as int,
                ),
            forall|m: int| 0 <= m < records@.len() ==> #[trigger] order@.contains(m as usize),
            ci <= comps@.len(),
            out@.len() == ci,
            forall|i: int|
                0 <= i < out@.len() ==> franchise_ok(#[trigger] out@[i], g.edge_set(), records@),
            forall|i: int, m: int|
                #![trigger some_entry_shows(out@[i].entries@, records@[m])]
                0 <= i < out@.len() && 0 <= m < records@.len() && comps@[i]@.contains(
                    records@[m].id,
                ) ==> some_entry_shows(out@[i].entries@, records@[m]),
            forall|i: int|
                0 <= i < out@.len() ==> franchise_shape(#[trigger] out@[i]) == component_shape(
                    vert_sets_of(comps@)[i],
                    records@,
                ),
        decreases comps@.len() - ci,
    {
        let comp = &comps[ci];
        let es = entries_for(comp, records, &order);
        proof {
            // entries of one component are mutually connected
            assert forall|k: int, l: int|
                0 <= k < es@.len() && 0 <= l < es@.len() implies connected(
                g.edge_set(),
                (#[trigger] es@[k]).id,
                (#[trigger] es@[l]).id,
            ) by {
                let a = choose|a: int| 0 <= a < comp@.len() && comp@[a] == es@[k].id;
                let b = choose|b: int| 0 <= b < comp@.len() && comp@[b] == es@[l].id;
                assert(connected(g.edge_set(), comps@[ci as int]@[a], comps@[ci as int]@[b]));
            }
        }
        let rep = if es.len() > 0 {
            es[0].title.clone()
        } else {
            String::new()
        };
        let ghost before = out@;
        out.push(Franchise { representative_title: rep, entries: es });
        proof {
            assert(franchise_ok(out@[before.len() as int], g.edge_set(), records@));
            assert(vert_sets_of(comps@)[ci as int] == comps@[ci as int]@.to_set());
            assert(franchise_shape(out@[before.len() as int]) == component_shape(
                vert_sets_of(comps@)[ci as int],
                records@,
            ));
            assert forall|i: int|
                0 <= i < out@.len() implies franchise_shape(#[trigger] out@[i]) == component_shape(
                vert_sets_of(comps@)[i],
                records@,
            ) by {
                if i < before.len() {
                    assert(out@[i] == before[i]);
                }
            }
            assert forall|i: int, m: int|
                #![trigger some_entry_shows(out@[i].entries@, records@[m])]
                0 <= i < out@.len() && 0 <= m < records@.len() && comps@[i]@.contains(
                    records@[m].id,
                ) implies some_entry_shows(out@[i].entries@, records@[m]) by {
                if i < before.len() {
                    assert(out@[i] == before[i]);
                    assert(some_entry_shows(before[i].entries@, records@[m]));
                }
            }
        }
        ci = ci + 1;
    }
    let r = sort_franchises(out);
    proof {
        let ghost cs = vert_sets_of(comps@);
        assert(component_partition(cs, g.vert_set(), g.edge_set())) by {
            assert forall|j: int|
                0 <= j < cs.len() implies (#[trigger] cs[j]) != Set::<TitleId>::empty() by {
                assert(comps@[j]@.len() > 0);
                assert(comps@[j]@.contains(comps@[j]@[0]));
                assert(cs[j].contains(comps@[j]@[0]));
            }
            assert forall|j: int| 0 <= j < cs.len() implies (#[trigger] cs[j]) <= g.vert_set() by {
                assert forall|x: TitleId| cs[j].contains(x) implies g.vert_set().contains(x) by {
                    let k = choose|k: int| 0 <= k < comps@[j]@.len() && comps@[j]@[k] == x;
                    assert(g.vert_set().contains(comps@[j]@[k]));
                }
            }
            assert forall|v: TitleId| g.vert_set().contains(v) implies exists|j: int|
                0 <= j < cs.len() && (#[trigger] cs[j]).contains(v) by {
                let j = choose|j: int|
                    0 <= j < comps@.len() && (#[trigger] comps@[j])@.contains(v);
                assert(cs[j].contains(v));
            }
            assert forall|i: int, j: int, v: TitleId|
                #![trigger cs[i].contains(v), cs[j].contains(v)]
                0 <= i < j < cs.len() && cs[i].contains(v) implies !cs[j].contains(v) by {
                assert(comps@[i]@.contains(v) == cs[i].contains(v));
                assert(comps@[j]@.contains(v) == cs[j].contains(v));
            }
            assert forall|j: int, u: TitleId, w: TitleId|
                #![trigger cs[j].contains(u), cs[j].contains(w)]
                0 <= j < cs.len() && cs[j].contains(u) && cs[j].contains(w) implies connected(
                g.edge_set(),
                u,
                w,
            ) by {
                let a = choose|a: int| 0 <= a < comps@[j]@.len() && comps@[j]@[a] == u;
                let b = choose|b: int| 0 <= b < comps@[j]@.len() && comps@[j]@[b] == w;
                assert(connected(g.edge_set(), comps@[j]@[a], comps@[j]@[b]));
            }
            assert forall|j: int, u: TitleId, w: TitleId|
                #![trigger cs[j].contains(u), g.edge_set().contains((u, w))]
                0 <= j < cs.len() && cs[j].contains(u) && g.edge_set().contains(
                    (u, w),
                ) implies cs[j].contains(w) by {
                assert(comps@[j]@.contains(u));
                assert(comps@[j]@.contains(w));
            }
        }
        assert(shapes(out@) =~= component_shapes(cs, records@));
        assert(shapes(r@).to_multiset() == component_shapes(cs, records@).to_multiset());
        assert(component_partition(cs, g.vert_set(), g.edge_set()) && shapes(r@).to_multiset()
            == component_shapes(cs, records@).to_multiset());
        assert forall|i: int|
            0 <= i < r@.len() implies franchise_ok(#[trigger] r@[i], g.edge_set(), records@) by {
            assert(r@.contains(r@[i]));
            assert(r@.to_multiset().contains(r@[i]));
            assert(out@.to_multiset().contains(r@[i]));
            assert(out@.contains(r@[i]));
            let p = choose|p: int| 0 <= p < out@.len() && out@[p] == r@[i];
            assert(franchise_ok(out@[p], g.edge_set(), records@));
        }
        assert forall|m: int|
            0 <= m < records@.len() && g.vert_set().contains(records@[m].id)
                implies exists|i: int|
            0 <= i < r@.len() && some_entry_shows((#[trigger] r@[i]).entries@, records@[m]) by {
            let ci2 = choose|ci2: int|
                0 <= ci2 < comps@.len() && (#[trigger] comps@[ci2])@.contains(records@[m].id);
            assert(some_entry_shows(out@[ci2].entries@, records@[m]));
            assert(out@.contains(out@[ci2]));
            assert(out@.to_multiset().contains(out@[ci2]));
            assert(r@.to_multiset().contains(out@[ci2]));
            assert(r@.contains(out@[ci2]));
            let i = choose|i: int| 0 <= i < r@.len() && r@[i] == out@[ci2];
            assert(0 <= i < r@.len() && some_entry_shows((r@[i]).entries@, records@[m]));
        }
    }
    r
}

} // verus!
