//! Rows and index entries under ascending ids: finding, changing and dropping them.

use crate::models::{IndexEntry, IndexView, Row, RowView};
use crate::records::{ascending, entry_of, index_views, row_views};
use vstd::prelude::*;

verus! {

/// All index entries have different ids, ascending in the order of the index.
pub open spec fn entries_ascending(index: Seq<IndexView>) -> bool {
    forall|i: int, j: int| 0 <= i < j < index.len() ==> (#[trigger] index[i]).rowid < (
    #[trigger] index[j]).rowid
}

/// The id of the first row that `p` holds of.
pub open spec fn first_id(rows: Seq<RowView>, p: spec_fn(RowView) -> bool) -> Option<i64>
    decreases rows.len(),
{
    if rows.len() == 0 {
        None
    } else if p(rows[0]) {
        Some(rows[0].id)
    } else {
        first_id(rows.drop_first(), p)
    }
}

/// The row with the id `id`.
pub open spec fn row_with(rows: Seq<RowView>, id: i64) -> Option<RowView> {
    if exists|i: int| 0 <= i < rows.len() && (#[trigger] rows[i]).id == id {
        Some(rows[choose|i: int| 0 <= i < rows.len() && (#[trigger] rows[i]).id == id])
    } else {
        None
    }
}

/// The rows, with `f` applied to the one that has the id `id`.
pub open spec fn updated(
    rows: Seq<RowView>,
    id: i64,
    f: spec_fn(RowView) -> RowView,
) -> Seq<RowView> {
    rows.map_values(
        |r: RowView|
            if r.id == id {
                f(r)
            } else {
                r
            },
    )
}

/// The rows whose ids are not among `ids`.
pub open spec fn rows_without(rows: Seq<RowView>, ids: Seq<i64>) -> Seq<RowView> {
    rows.filter(|r: RowView| !ids.contains(r.id))
}

/// The index entries whose ids are not among `ids`.
pub open spec fn entries_without(index: Seq<IndexView>, ids: Seq<i64>) -> Seq<IndexView> {
    index.filter(|e: IndexView| !ids.contains(e.rowid))
}

/// The index that belongs to `rows`.
pub open spec fn index_of(rows: Seq<RowView>) -> Seq<IndexView> {
    rows.map_values(|r: RowView| entry_of(r))
}

/// The row at place `i` of ascending rows is the one with its id.
pub proof fn lemma_row_at(rows: Seq<RowView>, i: int)
    requires
        ascending(rows),
        0 <= i < rows.len(),
    ensures
        row_with(rows, rows[i].id) == Some(rows[i]),
{
    let id = rows[i].id;
    let k = choose|k: int| 0 <= k < rows.len() && (#[trigger] rows[k]).id == id;
    assert(rows[i].id == id);
    if k < i {
        assert(rows[k].id < rows[i].id);
    } else if k > i {
        assert(rows[i].id < rows[k].id);
    }
}

/// To update the row at place `i` is to update the row with its id.
pub proof fn lemma_update_at(rows: Seq<RowView>, i: int, f: spec_fn(RowView) -> RowView)
    requires
        ascending(rows),
        0 <= i < rows.len(),
    ensures
        updated(rows, rows[i].id, f) == rows.update(i, f(rows[i])),
{
    let u = updated(rows, rows[i].id, f);
    assert forall|k: int| 0 <= k < rows.len() implies u[k] == rows.update(i, f(rows[i]))[k] by {
        if k < i {
            assert(rows[k].id < rows[i].id);
        } else if k > i {
            assert(rows[i].id < rows[k].id);
        }
    }
    assert(u =~= rows.update(i, f(rows[i])));
}

/// Where no row has the id `id`, an update of it changes nothing.
pub proof fn lemma_update_missing(rows: Seq<RowView>, id: i64, f: spec_fn(RowView) -> RowView)
    requires
        forall|k: int| 0 <= k < rows.len() ==> (#[trigger] rows[k]).id != id,
    ensures
        updated(rows, id, f) == rows,
{
    assert(updated(rows, id, f) =~= rows);
}

/// What is left of ascending rows is ascending.
pub proof fn lemma_filter_ascending(rows: Seq<RowView>, p: spec_fn(RowView) -> bool)
    requires
        ascending(rows),
    ensures
        ascending(rows.filter(p)),
        forall|r: RowView| #[trigger] rows.filter(p).contains(r) ==> rows.contains(r) && p(r),
        forall|r: RowView| rows.contains(r) && p(r) ==> #[trigger] rows.filter(p).contains(r),
    decreases rows.len(),
{
    reveal(Seq::filter);
    if rows.len() > 0 {
        let init = rows.drop_last();
        let last = rows.last();
        lemma_filter_ascending(init, p);
        let f = init.filter(p);
        let g = rows.filter(p);
        assert forall|r: RowView| g.contains(r) implies rows.contains(r) && p(r) by {
            let k = choose|k: int| 0 <= k < g.len() && g[k] == r;
            if k < f.len() {
                assert(f[k] == r);
                assert(f.contains(r));
                let m = choose|m: int| 0 <= m < init.len() && init[m] == r;
                assert(rows[m] == r);
            } else {
                assert(r == last);
                assert(rows[rows.len() - 1] == r);
            }
        }
        assert forall|r: RowView| rows.contains(r) && p(r) implies #[trigger] g.contains(r) by {
            let m = choose|m: int| 0 <= m < rows.len() && rows[m] == r;
            if m < init.len() {
                assert(init[m] == r);
                assert(init.contains(r));
                assert(f.contains(r));
                let k = choose|k: int| 0 <= k < f.len() && f[k] == r;
                assert(g[k] == r);
            } else {
                assert(g[g.len() - 1] == r);
            }
        }
        assert forall|i: int, j: int| 0 <= i < j < g.len() implies (#[trigger] g[i]).id < (
        #[trigger] g[j]).id by {
            assert(g[i] == f[i]);
            if j < f.len() {
                assert(g[j] == f[j]);
            } else {
                assert(f.contains(f[i]));
                let m = choose|m: int| 0 <= m < init.len() && init[m] == f[i];
                assert(rows[m].id < rows[rows.len() - 1].id);
            }
        }
    }
}

/// What is left of ascending index entries is ascending.
pub proof fn lemma_filter_entries(index: Seq<IndexView>, p: spec_fn(IndexView) -> bool)
    requires
        entries_ascending(index),
    ensures
        entries_ascending(index.filter(p)),
        forall|e: IndexView| #[trigger] index.filter(p).contains(e) ==> index.contains(e) && p(e),
    decreases index.len(),
{
    reveal(Seq::filter);
    if index.len() > 0 {
        let init = index.drop_last();
        let last = index.last();
        lemma_filter_entries(init, p);
        let f = init.filter(p);
        let g = index.filter(p);
        assert forall|e: IndexView| g.contains(e) implies index.contains(e) && p(e) by {
            let k = choose|k: int| 0 <= k < g.len() && g[k] == e;
            if k < f.len() {
                assert(f[k] == e);
                assert(f.contains(e));
                let m = choose|m: int| 0 <= m < init.len() && init[m] == e;
                assert(index[m] == e);
            } else {
                assert(e == last);
                assert(index[index.len() - 1] == e);
            }
        }
        assert forall|i: int, j: int| 0 <= i < j < g.len() implies (#[trigger] g[i]).rowid < (
        #[trigger] g[j]).rowid by {
            assert(g[i] == f[i]);
            if j < f.len() {
                assert(g[j] == f[j]);
            } else {
                assert(f.contains(f[i]));
                let m = choose|m: int| 0 <= m < init.len() && init[m] == f[i];
                assert(index[m].rowid < index[index.len() - 1].rowid);
            }
        }
    }
}

/// Dropping ids from rows and from the index that belongs to them leaves rows and the index that
/// belongs to them.
pub proof fn lemma_drop_keeps_sync(rows: Seq<RowView>, ids: Seq<i64>)
    ensures
        entries_without(index_of(rows), ids) == index_of(rows_without(rows, ids)),
    decreases rows.len(),
{
    reveal(Seq::filter);
    if rows.len() == 0 {
        assert(index_of(rows) =~= seq![]);
        assert(rows_without(rows, ids) =~= seq![]);
        assert(entries_without(index_of(rows), ids) =~= index_of(rows_without(rows, ids)));
    } else {
        let init = rows.drop_last();
        let last = rows.last();
        lemma_drop_keeps_sync(init, ids);
        assert(index_of(rows).drop_last() =~= index_of(init));
        assert(index_of(rows).last() == entry_of(last));
        assert(index_of(rows_without(init, ids).push(last)) =~= index_of(
            rows_without(init, ids),
        ).push(entry_of(last)));
    }
}

/// The place of the row with the id `id`.
pub fn row_place(rows: &[Row], id: i64) -> (r: Option<usize>)
    ensures
        match r {
            Some(i) => i < rows@.len() && rows@[i as int]@.id == id,
            None => forall|k: int| 0 <= k < rows@.len() ==> (#[trigger] rows@[k])@.id != id,
        },
{
    for i in 0..rows.len()
        invariant
            forall|k: int| 0 <= k < i ==> (#[trigger] rows@[k])@.id != id,
    {
        if rows[i].id == id {
            return Some(i);
        }
    }
    None
}

/// Whether the ids of `rows` are ascending.
pub fn rows_ascend(rows: &[Row]) -> (r: bool)
    ensures
        r == ascending(row_views(rows@)),
{
    let ghost v = row_views(rows@);
    let n: usize = rows.len();
    let mut k: usize = 1;
    while k < n
        invariant
            n == rows@.len(),
            v == row_views(rows@),
            1 <= k,
            forall|i: int, j: int| 0 <= i < j < k && j < n ==> (#[trigger] v[i]).id < (
            #[trigger] v[j]).id,
        decreases n - k,
    {
        if rows[k - 1].id >= rows[k].id {
            assert(v[k - 1].id >= v[k as int].id);
            return false;
        }
        assert(v[k - 1].id < v[k as int].id);
        k = k + 1;
    }
    true
}

/// Whether the ids of `index` are ascending.
pub fn entries_ascend(index: &[IndexEntry]) -> (r: bool)
    ensures
        r == entries_ascending(index_views(index@)),
{
    let ghost v = index_views(index@);
    let n: usize = index.len();
    let mut k: usize = 1;
    while k < n
        invariant
            n == index@.len(),
            v == index_views(index@),
            1 <= k,
            forall|i: int, j: int| 0 <= i < j < k && j < n ==> (#[trigger] v[i]).rowid < (
            #[trigger] v[j]).rowid,
        decreases n - k,
    {
        if index[k - 1].rowid >= index[k].rowid {
            assert(v[k - 1].rowid >= v[k as int].rowid);
            return false;
        }
        assert(v[k - 1].rowid < v[k as int].rowid);
        k = k + 1;
    }
    true
}

/// Whether `ids` holds `id`.
pub fn has_id(ids: &[i64], id: i64) -> (r: bool)
    ensures
        r == ids@.contains(id),
{
    for i in 0..ids.len()
        invariant
            forall|k: int| 0 <= k < i ==> ids@[k] != id,
    {
        if ids[i] == id {
            return true;
        }
    }
    false
}

/// The rows whose ids are not among `ids`.
pub fn drop_rows(rows: &[Row], ids: &[i64]) -> (r: Vec<Row>)
    ensures
        row_views(r@) == rows_without(row_views(rows@), ids@),
{
    let mut out: Vec<Row> = Vec::new();
    let ghost all = row_views(rows@);
    let ghost p = |r: RowView| !ids@.contains(r.id);
    proof {
        reveal(Seq::filter);
        assert(all.take(0) =~= seq![]);
        assert(row_views(out@) =~= all.take(0).filter(p));
    }
    for k in 0..rows.len()
        invariant
            all == row_views(rows@),
            p == (|r: RowView| !ids@.contains(r.id)),
            row_views(out@) == all.take(k as int).filter(p),
    {
        let ghost before = out@;
        let keep = !has_id(ids, rows[k].id);
        if keep {
            out.push(rows[k].copy());
        }
        proof {
            reveal(Seq::filter);
            assert(all.take(k + 1).drop_last() =~= all.take(k as int));
            assert(all[k as int].id == rows@[k as int].id);
            if keep {
                assert(row_views(out@) =~= row_views(before).push(all[k as int]));
            }
        }
    }
    assert(all.take(all.len() as int) =~= all);
    out
}

/// A copy of an index entry.
pub fn copy_entry(e: &IndexEntry) -> (r: IndexEntry)
    ensures
        r@ == e@,
{
    IndexEntry {
        rowid: e.rowid,
        content: e.content.clone(),
        file_paths: e.file_paths.clone(),
        file_name: e.file_name.clone(),
    }
}

/// The index entries whose ids are not among `ids`.
pub fn drop_entries(index: &[IndexEntry], ids: &[i64]) -> (r: Vec<IndexEntry>)
    ensures
        index_views(r@) == entries_without(index_views(index@), ids@),
{
    let mut out: Vec<IndexEntry> = Vec::new();
    let ghost all = index_views(index@);
    let ghost p = |e: IndexView| !ids@.contains(e.rowid);
    proof {
        reveal(Seq::filter);
        assert(all.take(0) =~= seq![]);
        assert(index_views(out@) =~= all.take(0).filter(p));
    }
    for k in 0..index.len()
        invariant
            all == index_views(index@),
            p == (|e: IndexView| !ids@.contains(e.rowid)),
            index_views(out@) == all.take(k as int).filter(p),
    {
        let ghost before = out@;
        let keep = !has_id(ids, index[k].rowid);
        if keep {
            out.push(copy_entry(&index[k]));
        }
        proof {
            reveal(Seq::filter);
            assert(all.take(k + 1).drop_last() =~= all.take(k as int));
            assert(all[k as int].rowid == index@[k as int].rowid);
            if keep {
                assert(index_views(out@) =~= index_views(before).push(all[k as int]));
            }
        }
    }
    assert(all.take(all.len() as int) =~= all);
    out
}

} // verus!
