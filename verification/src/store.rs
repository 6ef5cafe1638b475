//! What has to be written to the store so that it holds the history as it is after a change.

use crate::db::Database;
use crate::models::{IndexEntry, IndexView, Row, RowView};
use crate::records::{ascending, index_views, row_views};
use crate::table::{copy_entry, entries_ascending};
use crate::text::{opt_text, same_text};
use vstd::prelude::*;

verus! {

/// A write to the table of records.
pub enum RowChange {
    /// The row is stored under its id, in the place of one that is there.
    Put(Row),
    /// The row with this id is deleted.
    Drop(i64),
}

/// A write to the full-text index.
pub enum EntryChange {
    /// The entry is stored under its id, in the place of one that is there.
    Put(IndexEntry),
    /// The entry with this id is deleted.
    Drop(i64),
}

/// A write to a table in which `V` stands under ids.
pub enum ChangeView<V> {
    Put(i64, V),
    Drop(i64),
}

impl View for RowChange {
    type V = ChangeView<RowView>;

    open spec fn view(&self) -> ChangeView<RowView> {
        match self {
            RowChange::Put(r) => ChangeView::Put(r@.id, r@),
            RowChange::Drop(id) => ChangeView::Drop(*id),
        }
    }
}

impl View for EntryChange {
    type V = ChangeView<IndexView>;

    open spec fn view(&self) -> ChangeView<IndexView> {
        match self {
            EntryChange::Put(e) => ChangeView::Put(e@.rowid, e@),
            EntryChange::Drop(id) => ChangeView::Drop(*id),
        }
    }
}

/// The views of writes to the table of records.
pub open spec fn row_changes(v: Seq<RowChange>) -> Seq<ChangeView<RowView>> {
    v.map_values(|c: RowChange| c@)
}

/// The views of writes to the full-text index.
pub open spec fn entry_changes(v: Seq<EntryChange>) -> Seq<ChangeView<IndexView>> {
    v.map_values(|c: EntryChange| c@)
}

/// Rows with their ids.
pub open spec fn keyed_rows(rows: Seq<RowView>) -> Seq<(i64, RowView)> {
    rows.map_values(|r: RowView| (r.id, r))
}

/// Index entries with their ids.
pub open spec fn keyed_entries(index: Seq<IndexView>) -> Seq<(i64, IndexView)> {
    index.map_values(|e: IndexView| (e.rowid, e))
}

/// The table in which the items of `s` stand under their ids.
pub open spec fn table_of<V>(s: Seq<(i64, V)>) -> Map<i64, V>
    decreases s.len(),
{
    if s.len() == 0 {
        Map::empty()
    } else {
        table_of(s.drop_last()).insert(s.last().0, s.last().1)
    }
}

/// A table after the writes `changes`, one after the other.
pub open spec fn written<V>(table: Map<i64, V>, changes: Seq<ChangeView<V>>) -> Map<i64, V>
    decreases changes.len(),
{
    if changes.len() == 0 {
        table
    } else {
        let before = written(table, changes.drop_last());
        match changes.last() {
            ChangeView::Put(id, v) => before.insert(id, v),
            ChangeView::Drop(id) => before.remove(id),
        }
    }
}

spec fn rising<V>(s: Seq<(i64, V)>) -> bool {
    forall|i: int, j: int| 0 <= i < j < s.len() ==> (#[trigger] s[i]).0 < (#[trigger] s[j]).0
}

/// A table under rising ids holds each item under its id, and nothing else.
proof fn lemma_table<V>(s: Seq<(i64, V)>)
    requires
        rising(s),
    ensures
        forall|i: int|
            0 <= i < s.len() ==> #[trigger] table_of(s).contains_key(s[i].0) && table_of(s)[s[i].0]
                == s[i].1,
        forall|id: i64| #[trigger]
            table_of(s).contains_key(id) ==> exists|i: int|
                0 <= i < s.len() && (#[trigger] s[i]).0 == id,
    decreases s.len(),
{
    if s.len() > 0 {
        let init = s.drop_last();
        lemma_table(init);
        assert forall|i: int| 0 <= i < s.len() implies #[trigger] table_of(s).contains_key(s[i].0)
            && table_of(s)[s[i].0] == s[i].1 by {
            if i < init.len() {
                assert(init[i] == s[i]);
                assert(table_of(init).contains_key(init[i].0));
                assert(s[i].0 < s[s.len() - 1].0);
            }
        }
        assert forall|id: i64| #[trigger] table_of(s).contains_key(id) implies exists|i: int|
            0 <= i < s.len() && (#[trigger] s[i]).0 == id by {
            if id == s.last().0 {
                assert(s[s.len() - 1].0 == id);
            } else {
                assert(table_of(init).contains_key(id));
                let i = choose|i: int| 0 <= i < init.len() && (#[trigger] init[i]).0 == id;
                assert(s[i].0 == id);
            }
        }
    }
}

/// The items while they are being written: the new ones so far, then the old ones still to come.
spec fn midway<V>(before: Seq<(i64, V)>, after: Seq<(i64, V)>, i: int, j: int) -> Seq<(i64, V)> {
    after.take(j) + before.skip(i)
}

/// What is written midway is in the order of the ids.
spec fn meet<V>(before: Seq<(i64, V)>, after: Seq<(i64, V)>, i: int, j: int) -> bool {
    forall|a: int, b: int|
        0 <= a < j && i <= b < before.len() ==> (#[trigger] after[a]).0 < (#[trigger] before[b]).0
}

proof fn lemma_midway_rising<V>(before: Seq<(i64, V)>, after: Seq<(i64, V)>, i: int, j: int)
    requires
        rising(before),
        rising(after),
        0 <= i <= before.len(),
        0 <= j <= after.len(),
        meet(before, after, i, j),
    ensures
        rising(midway(before, after, i, j)),
{
    let m = midway(before, after, i, j);
    assert forall|x: int, y: int| 0 <= x < y < m.len() implies (#[trigger] m[x]).0 < (
    #[trigger] m[y]).0 by {
        if y < j {
            assert(m[x] == after[x] && m[y] == after[y]);
        } else if x < j {
            assert(m[x] == after[x] && m[y] == before[i + y - j]);
        } else {
            assert(m[x] == before[i + x - j] && m[y] == before[i + y - j]);
        }
    }
}

/// A table that holds each item of `a` under its id, and nothing else, is the table of `a`.
proof fn lemma_same_table<V>(a: Seq<(i64, V)>, t: Map<i64, V>)
    requires
        rising(a),
        forall|i: int|
            0 <= i < a.len() ==> t.contains_key((#[trigger] a[i]).0) && t[a[i].0] == a[i].1,
        forall|id: i64| #[trigger]
            t.contains_key(id) ==> exists|i: int| 0 <= i < a.len() && (#[trigger] a[i]).0 == id,
    ensures
        table_of(a) == t,
{
    lemma_table(a);
    assert forall|id: i64| table_of(a).contains_key(id) == t.contains_key(id) by {
        if table_of(a).contains_key(id) {
            let i = choose|i: int| 0 <= i < a.len() && (#[trigger] a[i]).0 == id;
            assert(t.contains_key(a[i].0));
        }
        if t.contains_key(id) {
            let i = choose|i: int| 0 <= i < a.len() && (#[trigger] a[i]).0 == id;
            assert(table_of(a).contains_key(a[i].0));
        }
    }
    assert forall|id: i64| table_of(a).contains_key(id) implies table_of(a)[id] == t[id] by {
        let i = choose|i: int| 0 <= i < a.len() && (#[trigger] a[i]).0 == id;
        assert(table_of(a).contains_key(a[i].0));
    }
    assert(table_of(a) =~= t);
}

/// One step from the old items to the new ones.
proof fn lemma_step<V>(
    before: Seq<(i64, V)>,
    after: Seq<(i64, V)>,
    i: int,
    j: int,
    i2: int,
    j2: int,
)
    requires
        rising(before),
        rising(after),
        0 <= i <= i2 <= before.len(),
        0 <= j <= j2 <= after.len(),
        i2 <= i + 1,
        j2 <= j + 1,
        meet(before, after, i, j),
        i2 == i + 1 && j2 == j + 1 ==> before[i].0 == after[j].0,
        i2 == i + 1 && j2 == j && j < after.len() ==> before[i].0 < after[j].0,
        i2 == i && j2 == j + 1 && i < before.len() ==> after[j].0 < before[i].0,
    ensures
        meet(before, after, i2, j2),
        j2 == j + 1 ==> table_of(midway(before, after, i2, j2)) == table_of(
            midway(before, after, i, j),
        ).insert(after[j].0, after[j].1),
        i2 == i + 1 && j2 == j ==> table_of(midway(before, after, i2, j2)) == table_of(
            midway(before, after, i, j),
        ).remove(before[i].0),
        i2 == i + 1 && j2 == j + 1 && before[i] == after[j] ==> table_of(
            midway(before, after, i2, j2),
        ) == table_of(midway(before, after, i, j)),
{
    assert forall|a: int, b: int| 0 <= a < j2 && i2 <= b < before.len() implies (
    #[trigger] after[a]).0 < (#[trigger] before[b]).0 by {
        if a == j && j2 == j + 1 {
            if i2 == i + 1 {
                assert(before[i].0 < before[b].0);
            } else if b > i {
                assert(before[i].0 < before[b].0);
            }
        }
    }
    lemma_midway_rising(before, after, i, j);
    lemma_midway_rising(before, after, i2, j2);
    let m = midway(before, after, i, j);
    let n = midway(before, after, i2, j2);
    lemma_table(m);
    if j2 == j + 1 {
        let t = table_of(m).insert(after[j].0, after[j].1);
        assert forall|k: int| 0 <= k < n.len() implies t.contains_key((#[trigger] n[k]).0)
            && t[n[k].0] == n[k].1 by {
            if k < j {
                assert(n[k] == m[k]);
                assert(table_of(m).contains_key(m[k].0));
                assert(after[k].0 < after[j].0);
            } else if k > j {
                let b = i2 + k - j2;
                assert(n[k] == before[b]);
                assert(m[j + b - i] == before[b]);
                assert(table_of(m).contains_key(m[j + b - i].0));
                assert(after[j].0 < before[b].0);
            }
        }
        assert forall|id: i64| #[trigger] t.contains_key(id) implies exists|k: int|
            0 <= k < n.len() && (#[trigger] n[k]).0 == id by {
            if id == after[j].0 {
                assert(n[j].0 == id);
            } else {
                assert(table_of(m).contains_key(id));
                let k = choose|k: int| 0 <= k < m.len() && (#[trigger] m[k]).0 == id;
                if k < j {
                    assert(n[k] == m[k]);
                } else {
                    let b = i + k - j;
                    assert(m[k] == before[b]);
                    assert(b >= i2);
                    assert(n[j2 + b - i2] == before[b]);
                }
            }
        }
        lemma_same_table(n, t);
        if i2 == i + 1 && before[i] == after[j] {
            assert(m[j] == before[i]);
            assert(table_of(m).contains_key(m[j].0));
            assert(t =~= table_of(m));
        }
    } else if i2 == i + 1 {
        let t = table_of(m).remove(before[i].0);
        assert forall|k: int| 0 <= k < n.len() implies t.contains_key((#[trigger] n[k]).0)
            && t[n[k].0] == n[k].1 by {
            if k < j {
                assert(n[k] == m[k]);
                assert(table_of(m).contains_key(m[k].0));
                assert(after[k].0 < before[i].0);
            } else {
                let b = i2 + k - j;
                assert(n[k] == before[b]);
                assert(m[j + b - i] == before[b]);
                assert(table_of(m).contains_key(m[j + b - i].0));
                assert(before[i].0 < before[b].0);
            }
        }
        assert forall|id: i64| #[trigger] t.contains_key(id) implies exists|k: int|
            0 <= k < n.len() && (#[trigger] n[k]).0 == id by {
            assert(table_of(m).contains_key(id));
            let k = choose|k: int| 0 <= k < m.len() && (#[trigger] m[k]).0 == id;
            if k < j {
                assert(n[k] == m[k]);
            } else {
                let b = i + k - j;
                assert(m[k] == before[b]);
                assert(n[j + b - i2] == before[b]);
            }
        }
        lemma_same_table(n, t);
    }
}

fn same_opt(a: &Option<String>, b: &Option<String>) -> (r: bool)
    ensures
        r == (opt_text(*a) == opt_text(*b)),
{
    match (a, b) {
        (Some(x), Some(y)) => same_text(x, y),
        (None, None) => true,
        _ => false,
    }
}

fn same_row(a: &Row, b: &Row) -> (r: bool)
    ensures
        r == (a@ == b@),
{
    a.id == b.id && same_text(&a.item_type, &b.item_type) && same_opt(&a.content, &b.content)
        && same_opt(&a.image_path, &b.image_path) && same_opt(&a.thumbnail_path, &b.thumbnail_path)
        && same_opt(&a.file_paths, &b.file_paths) && a.file_count == b.file_count && a.is_favorite
        == b.is_favorite && a.is_pinned == b.is_pinned && same_text(&a.created_at, &b.created_at)
        && same_opt(&a.source_app, &b.source_app) && same_opt(&a.image_hash, &b.image_hash)
}

fn same_entry(a: &IndexEntry, b: &IndexEntry) -> (r: bool)
    ensures
        r == (a@ == b@),
{
    a.rowid == b.rowid && same_text(&a.content, &b.content) && same_text(
        &a.file_paths,
        &b.file_paths,
    ) && same_text(&a.file_name, &b.file_name)
}

/// The writes that make a table of the rows `before` one of the rows `after`.
fn diff_rows(before: &[Row], after: &[Row]) -> (r: Vec<RowChange>)
    requires
        ascending(row_views(before@)),
        ascending(row_views(after@)),
    ensures
        written(table_of(keyed_rows(row_views(before@))), row_changes(r@)) == table_of(
            keyed_rows(row_views(after@)),
        ),
{
    let ghost bv = keyed_rows(row_views(before@));
    let ghost av = keyed_rows(row_views(after@));
    let n: usize = before.len();
    let m: usize = after.len();
    let mut i: usize = 0;
    let mut j: usize = 0;
    let mut out: Vec<RowChange> = Vec::new();
    proof {
        assert(row_changes(out@) =~= seq![]);
        assert(midway(bv, av, 0, 0) =~= bv);
        assert forall|x: int, y: int| 0 <= x < y < bv.len() implies (#[trigger] bv[x]).0 < (
        #[trigger] bv[y]).0 by {
            assert(row_views(before@)[x].id < row_views(before@)[y].id);
        }
        assert forall|x: int, y: int| 0 <= x < y < av.len() implies (#[trigger] av[x]).0 < (
        #[trigger] av[y]).0 by {
            assert(row_views(after@)[x].id < row_views(after@)[y].id);
        }
    }
    while i < n || j < m
        invariant
            n == before@.len(),
            m == after@.len(),
            i <= n,
            j <= m,
            bv == keyed_rows(row_views(before@)),
            av == keyed_rows(row_views(after@)),
            rising(bv),
            rising(av),
            meet(bv, av, i as int, j as int),
            written(table_of(bv), row_changes(out@)) == table_of(
                midway(bv, av, i as int, j as int),
            ),
        decreases n - i + m - j,
    {
        let ghost so_far = row_changes(out@);
        assert(i < n ==> bv[i as int] == (before@[i as int]@.id, before@[i as int]@));
        assert(j < m ==> av[j as int] == (after@[j as int]@.id, after@[j as int]@));
        if j >= m || (i < n && before[i].id < after[j].id) {
            out.push(RowChange::Drop(before[i].id));
            proof {
                lemma_step(bv, av, i as int, j as int, i + 1, j as int);
                assert(row_changes(out@).drop_last() =~= so_far);
            }
            i = i + 1;
        } else if i >= n || after[j].id < before[i].id {
            out.push(RowChange::Put(after[j].copy()));
            proof {
                lemma_step(bv, av, i as int, j as int, i as int, j + 1);
                assert(row_changes(out@).drop_last() =~= so_far);
            }
            j = j + 1;
        } else {
            proof {
                lemma_step(bv, av, i as int, j as int, i + 1, j + 1);
            }
            if !same_row(&before[i], &after[j]) {
                out.push(RowChange::Put(after[j].copy()));
                assert(row_changes(out@).drop_last() =~= so_far);
            }
            i = i + 1;
            j = j + 1;
        }
    }
    assert(midway(bv, av, n as int, m as int) =~= av);
    out
}

/// The writes that make an index of the entries `before` one of the entries `after`.
fn diff_entries(before: &[IndexEntry], after: &[IndexEntry]) -> (r: Vec<EntryChange>)
    requires
        entries_ascending(index_views(before@)),
        entries_ascending(index_views(after@)),
    ensures
        written(table_of(keyed_entries(index_views(before@))), entry_changes(r@)) == table_of(
            keyed_entries(index_views(after@)),
        ),
{
    let ghost bv = keyed_entries(index_views(before@));
    let ghost av = keyed_entries(index_views(after@));
    let n: usize = before.len();
    let m: usize = after.len();
    let mut i: usize = 0;
    let mut j: usize = 0;
    let mut out: Vec<EntryChange> = Vec::new();
    proof {
        assert(entry_changes(out@) =~= seq![]);
        assert(midway(bv, av, 0, 0) =~= bv);
        assert forall|x: int, y: int| 0 <= x < y < bv.len() implies (#[trigger] bv[x]).0 < (
        #[trigger] bv[y]).0 by {
            assert(index_views(before@)[x].rowid < index_views(before@)[y].rowid);
        }
        assert forall|x: int, y: int| 0 <= x < y < av.len() implies (#[trigger] av[x]).0 < (
        #[trigger] av[y]).0 by {
            assert(index_views(after@)[x].rowid < index_views(after@)[y].rowid);
        }
    }
    while i < n || j < m
        invariant
            n == before@.len(),
            m == after@.len(),
            i <= n,
            j <= m,
            bv == keyed_entries(index_views(before@)),
            av == keyed_entries(index_views(after@)),
            rising(bv),
            rising(av),
            meet(bv, av, i as int, j as int),
            written(table_of(bv), entry_changes(out@)) == table_of(
                midway(bv, av, i as int, j as int),
            ),
        decreases n - i + m - j,
    {
        let ghost so_far = entry_changes(out@);
        assert(i < n ==> bv[i as int] == (before@[i as int]@.rowid, before@[i as int]@));
        assert(j < m ==> av[j as int] == (after@[j as int]@.rowid, after@[j as int]@));
        if j >= m || (i < n && before[i].rowid < after[j].rowid) {
            out.push(EntryChange::Drop(before[i].rowid));
            proof {
                lemma_step(bv, av, i as int, j as int, i + 1, j as int);
                assert(entry_changes(out@).drop_last() =~= so_far);
            }
            i = i + 1;
        } else if i >= n || after[j].rowid < before[i].rowid {
            out.push(EntryChange::Put(copy_entry(&after[j])));
            proof {
                lemma_step(bv, av, i as int, j as int, i as int, j + 1);
                assert(entry_changes(out@).drop_last() =~= so_far);
            }
            j = j + 1;
        } else {
            proof {
                lemma_step(bv, av, i as int, j as int, i + 1, j + 1);
            }
            if !same_entry(&before[i], &after[j]) {
                out.push(EntryChange::Put(copy_entry(&after[j])));
                assert(entry_changes(out@).drop_last() =~= so_far);
            }
            i = i + 1;
            j = j + 1;
        }
    }
    assert(midway(bv, av, n as int, m as int) =~= av);
    out
}

impl Database {
    /// The writes that make a store of the history `before` one of this history.
    pub fn changes_since(&self, before: &Database) -> (r: (Vec<RowChange>, Vec<EntryChange>))
        requires
            self@.wf(),
            before@.wf(),
        ensures
            written(table_of(keyed_rows(before@.rows)), row_changes(r.0@)) == table_of(
                keyed_rows(self@.rows),
            ),
            written(table_of(keyed_entries(before@.index)), entry_changes(r.1@)) == table_of(
                keyed_entries(self@.index),
            ),
    {
        (
            diff_rows(before.row_slice(), self.row_slice()),
            diff_entries(before.entry_slice(), self.entry_slice()),
        )
    }
}

} // verus!
