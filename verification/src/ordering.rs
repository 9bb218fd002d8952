//! The display order of fetched records: release date ascending, unknown
//! components last, ties kept in fetched order.

use vstd::prelude::*;
use crate::date::{date_le, lemma_date_le_total_order};
use crate::model::TitleRecord;

verus! {

/// The order records are displayed in: by release date, unknown components
/// last, with ties kept in fetched order.
pub open spec fn record_le(recs: Seq<TitleRecord>, a: int, b: int) -> bool {
    if recs[a].release_date == recs[b].release_date {
        a <= b
    } else {
        date_le(recs[a].release_date, recs[b].release_date)
    }
}

pub proof fn lemma_record_le_props(recs: Seq<TitleRecord>, a: int, b: int, c: int)
    ensures
        record_le(recs, a, a),
        record_le(recs, a, b) || record_le(recs, b, a),
        record_le(recs, a, b) && record_le(recs, b, c) ==> record_le(recs, a, c),
{
    lemma_date_le_total_order(recs[a].release_date, recs[b].release_date, recs[c].release_date);
    lemma_date_le_total_order(recs[b].release_date, recs[a].release_date, recs[c].release_date);
    lemma_date_le_total_order(recs[a].release_date, recs[c].release_date, recs[b].release_date);
}

/// Decides the display order of two records.
pub fn record_le_exec(records: &Vec<TitleRecord>, a: usize, b: usize) -> (r: bool)
    requires
        a < records@.len(),
        b < records@.len(),
    ensures
        r == record_le(records@, a as int, b as int),
{
    let da = records[a].release_date;
    let db = records[b].release_date;
    if da.same(&db) {
        a <= b
    } else {
        da.le(&db)
    }
}

/// Where a new position lands among already ordered ones, scanning from `j`:
/// right after every position it does not precede.
pub open spec fn insertion_point(s: Seq<usize>, recs: Seq<TitleRecord>, x: usize, j: int) -> int
    decreases s.len() - j,
{
    if j < 0 || j >= s.len() {
        s.len() as int
    } else if record_le(recs, s[j] as int, x as int) {
        insertion_point(s, recs, x, j + 1)
    } else {
        j
    }
}

/// One position placed into an already ordered sequence of positions.
pub open spec fn ordered_insert(s: Seq<usize>, recs: Seq<TitleRecord>, x: usize) -> Seq<usize> {
    s.insert(insertion_point(s, recs, x, 0), x)
}

/// The first `m` record positions, in display order.
pub open spec fn positions_upto(recs: Seq<TitleRecord>, m: int) -> Seq<usize>
    decreases m,
{
    if m <= 0 {
        Seq::empty()
    } else {
        ordered_insert(positions_upto(recs, m - 1), recs, (m - 1) as usize)
    }
}

/// Every record position, in display order: by release date, unknown
/// components last, ties kept in fetched order. This is the one display
/// order; whoever lays records out sorts by it.
pub open spec fn display_positions(recs: Seq<TitleRecord>) -> Seq<usize> {
    positions_upto(recs, recs.len() as int)
}

/// The positions of the records in display order: exactly
/// [`display_positions`] — a permutation of the positions, sorted by release
/// date with ties kept in fetched order.
pub fn sorted_indices(records: &Vec<TitleRecord>) -> (r: Vec<usize>)
    ensures
        r@ == display_positions(records@),
        r@.len() == records@.len(),
        forall|p: int| 0 <= p < r@.len() ==> (#[trigger] r@[p]) < records@.len(),
        r@.no_duplicates(),
        forall|p: int, q: int|
            0 <= p < q < r@.len() ==> record_le(records@, r@[p] as int, r@[q] as int),
        forall|m: int| 0 <= m < records@.len() ==> #[trigger] r@.contains(m as usize),
{
    let mut r: Vec<usize> = Vec::new();
    let mut m: usize = 0;
    while m < records.len()
        invariant
            m <= records@.len(),
            r@ == positions_upto(records@, m as int),
            r@.len() == m,
            forall|p: int| 0 <= p < r@.len() ==> (#[trigger] r@[p]) < m,
            r@.no_duplicates(),
            forall|p: int, q: int|
                0 <= p < q < r@.len() ==> record_le(records@, r@[p] as int, r@[q] as int),
            forall|x: int| 0 <= x < m ==> #[trigger] r@.contains(x as usize),
        decreases records@.len() - m,
    {
        let mut j: usize = 0;
        while j < r.len() && record_le_exec(records, r[j], m)
            invariant
                m < records@.len(),
                r@.len() == m,
                forall|p: int| 0 <= p < r@.len() ==> (#[trigger] r@[p]) < m,
                j <= r@.len(),
                forall|k: int| 0 <= k < j ==> record_le(records@, r@[k] as int, m as int),
                insertion_point(r@, records@, m, 0) == insertion_point(r@, records@, m, j as int),
            decreases r@.len() - j,
        {
            j = j + 1;
        }
        let ghost before = r@;
        r.insert(j, m);
        proof {
            assert(insertion_point(before, records@, m, j as int) == j as int);
            assert(r@ == ordered_insert(before, records@, m));
            assert(r@ == positions_upto(records@, m as int + 1));
            before.insert_ensures(j as int, m);
            assert(r@ == before.insert(j as int, m));
            assert forall|p: int, q: int|
                0 <= p < q < r@.len() implies record_le(records@, r@[p] as int, r@[q] as int) by {
                lemma_record_le_props(records@, r@[p] as int, r@[q] as int, m as int);
                if q < j {
                } else if q == j {
                    assert(r@[p] == before[p]);
                    assert(r@[q] == m);
                } else {
                    if j < before.len() {
                        lemma_record_le_props(records@, m as int, before[j as int] as int, r@[q] as int);
                        assert(!record_le(records@, before[j as int] as int, m as int));
                        lemma_record_le_props(
                            records@,
                            before[j as int] as int,
                            m as int,
                            r@[q] as int,
                        );
                    }
                    if p < j {
                        assert(r@[p] == before[p]);
                        assert(r@[q] == before[q - 1]);
                        assert(record_le(records@, before[p] as int, before[q - 1] as int));
                    } else if p == j {
                        assert(r@[p] == m);
                        assert(r@[q] == before[q - 1]);
                        assert(j <= q - 1 < before.len());
                        if j == q - 1 {
                        } else {
                            assert(record_le(
                                records@,
                                before[j as int] as int,
                                before[q - 1] as int,
                            ));
                            lemma_record_le_props(
                                records@,
                                m as int,
                                before[j as int] as int,
                                before[q - 1] as int,
                            );
                        }
                    } else {
                        assert(r@[p] == before[p - 1]);
                        assert(r@[q] == before[q - 1]);
                        assert(record_le(records@, before[p - 1] as int, before[q - 1] as int));
                    }
                }
            }
            assert forall|p: int, q: int|
                0 <= p < q < r@.len() implies r@[p] != r@[q] by {
                if q == j {
                    assert(r@[p] == before[p] && before[p] < m);
                } else if p == j {
                    assert(r@[q] == before[q - 1] && before[q - 1] < m);
                } else if p < j && q > j {
                    assert(r@[p] == before[p] && r@[q] == before[q - 1]);
                } else if q < j {
                    assert(r@[p] == before[p] && r@[q] == before[q]);
                } else {
                    assert(r@[p] == before[p - 1] && r@[q] == before[q - 1]);
                }
            }
            assert forall|x: int| 0 <= x < m + 1 implies #[trigger] r@.contains(x as usize) by {
                if x == m {
                    assert(r@[j as int] == m as usize);
                } else {
                    assert(before.contains(x as usize));
                    let p = choose|p: int| 0 <= p < before.len() && before[p] == x as usize;
                    if p < j {
                        assert(r@[p] == x as usize);
                    } else {
                        assert(r@[p + 1] == x as usize);
                    }
                }
            }
            assert forall|p: int| 0 <= p < r@.len() implies (#[trigger] r@[p]) < m + 1 by {
                if p < j {
                    assert(r@[p] == before[p]);
                } else if p == j {
                } else {
                    assert(r@[p] == before[p - 1]);
                }
            }
        }
        m = m + 1;
    }
    r
}

} // verus!
