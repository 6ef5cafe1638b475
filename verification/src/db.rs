//! The history: its records, the full-text index over them, and the rules by which records are
//! added, found, listed, changed and dropped.

use crate::clock::{expiry_cutoff, iso_text, now_micros, writable, DAY_MICROS};
use crate::fts::{build_fts_query, indexed, match_query};
use crate::history_laws::{
    law_cleanup_goes_by_date, law_list_shows_all_or_favorites, law_search_shows_the_hits,
};
use crate::laws::law_list_is_complete;
use crate::models::{ClipboardItem, IndexEntry, IndexView, ItemView, Row, RowView};
use crate::outside::{json_read, json_written, read_json, utc_text, ISO_FORMAT};
use crate::records::{
    ascending, entry_of, index_views, is_listing, item_of, item_to_row, item_views, list_rows,
    listing, row_entry, row_of, row_to_item, row_views,
};
use crate::table::{
    drop_entries, drop_rows, entries_ascend, entries_ascending, entries_without, first_id, has_id,
    index_of, lemma_drop_keeps_sync, lemma_filter_ascending, lemma_filter_entries, lemma_row_at,
    lemma_update_at, lemma_update_missing, row_place, row_with, rows_ascend, rows_without, updated,
};
use crate::text::{has_text, same_text, text_before, text_lt, texts, words};
use crate::winpath::{join_path, joined};
use vstd::prelude::*;

verus! {

/// The history, kept under the data directory `data_dir`.
pub struct Database {
    rows: Vec<Row>,
    index: Vec<IndexEntry>,
    last_id: i64,
    data_dir: String,
}

/// The view of a [`Database`].
pub struct DbView {
    /// The rows, in the order of their ids.
    pub rows: Seq<RowView>,
    /// The entries of the full-text index, in the order of their ids.
    pub index: Seq<IndexView>,
    /// The largest id that was ever given.
    pub last_id: i64,
    pub data_dir: Seq<char>,
}

impl View for Database {
    type V = DbView;

    closed spec fn view(&self) -> DbView {
        DbView {
            rows: row_views(self.rows@),
            index: index_views(self.index@),
            last_id: self.last_id,
            data_dir: self.data_dir@,
        }
    }
}

impl DbView {
    /// Ids are ascending, and no row's is above the last one given.
    pub open spec fn wf(self) -> bool {
        &&& ascending(self.rows)
        &&& entries_ascending(self.index)
        &&& forall|i: int| 0 <= i < self.rows.len() ==> (#[trigger] self.rows[i]).id <= self.last_id
    }

    /// The index holds one entry for each row, made from it, and no other.
    pub open spec fn in_sync(self) -> bool {
        self.index == index_of(self.rows)
    }
}

/// The directory for pictures under a data directory.
pub open spec fn images_in(data_dir: Seq<char>) -> Seq<char> {
    joined(data_dir, "images"@)
}

/// The directory for thumbnails under a data directory.
pub open spec fn thumbs_in(data_dir: Seq<char>) -> Seq<char> {
    joined(data_dir, "thumbs"@)
}

/// The directory for pictures that wait to be taken in, under a data directory.
pub open spec fn buffer_in(data_dir: Seq<char>) -> Seq<char> {
    joined(data_dir, "clip_buffer"@)
}

/// The larger of `floor` and the last id.
pub open spec fn id_floor(rows: Seq<RowView>, floor: i64) -> i64 {
    if rows.len() > 0 && rows.last().id > floor {
        rows.last().id
    } else {
        floor
    }
}

/// The index with one entry more, in the place of its id.
pub open spec fn placed(index: Seq<IndexView>, e: IndexView) -> Seq<IndexView>
    decreases index.len(),
{
    if index.len() == 0 || index.last().rowid < e.rowid {
        index.push(e)
    } else {
        placed(index.drop_last(), e).push(index.last())
    }
}

/// Whether the index holds an entry for the id `id`.
pub open spec fn has_entry(index: Seq<IndexView>, id: int) -> bool {
    exists|i: int| 0 <= i < index.len() && (#[trigger] index[i]).rowid == id
}

/// Why no record can be added, if so: there are no more ids, or the index holds an entry for the
/// next one, which a stale index may.
pub open spec fn add_fault(d: DbView) -> Option<Seq<char>> {
    if d.last_id == i64::MAX {
        Some("database or disk is full"@)
    } else if has_entry(d.index, d.last_id + 1) {
        Some("constraint failed"@)
    } else {
        None
    }
}

/// The state after `item` was added.
pub open spec fn added(d: DbView, item: ItemView) -> DbView {
    let id = (d.last_id + 1) as i64;
    let row = row_of(id, item);
    DbView { rows: d.rows.push(row), index: placed(d.index, entry_of(row)), last_id: id, ..d }
}

/// A text record with this content.
pub open spec fn is_text(r: RowView, content: Seq<char>) -> bool {
    r.item_type == "text"@ && r.content == Some(content)
}

/// An image record with this fingerprint.
pub open spec fn is_image(r: RowView, hash: Seq<char>) -> bool {
    r.item_type == "image"@ && r.image_hash == Some(hash)
}

/// A file record with this set of paths.
pub open spec fn is_file(r: RowView, paths: Seq<Seq<char>>) -> bool {
    &&& r.item_type == "file"@
    &&& r.file_paths matches Some(j) && json_read(j) matches Some(l) && l.to_set()
        == paths.to_set()
}

/// The record of a row that may be missing.
pub open spec fn opt_item(r: Option<RowView>) -> Option<ItemView> {
    match r {
        Some(v) => Some(item_of(v)),
        None => None,
    }
}

/// The view of a record that may be missing.
pub open spec fn opt_item_view(o: Option<ClipboardItem>) -> Option<ItemView> {
    match o {
        Some(i) => Some(i@),
        None => None,
    }
}

/// The rows that a list shows: all of them, or the favourites.
pub open spec fn shown(rows: Seq<RowView>, favorite_only: bool) -> Seq<RowView> {
    rows.filter(|r: RowView| !favorite_only || r.is_favorite == 1)
}

/// The records of `rows` as they are listed.
pub open spec fn listed(rows: Seq<RowView>, asc: bool) -> Seq<ItemView> {
    listing(rows, asc).map_values(|v: RowView| item_of(v))
}

/// A flag after it was switched.
pub open spec fn flipped(v: i32) -> i32 {
    if v == 0 {
        1
    } else {
        0
    }
}

/// A path that may be missing, as a list.
pub open spec fn path_list(p: Option<Seq<char>>) -> Seq<Seq<char>> {
    match p {
        Some(s) => seq![s],
        None => seq![],
    }
}

/// The files that belong to a record: its picture and its thumbnail.
pub open spec fn files_of(r: RowView) -> Seq<Seq<char>> {
    path_list(r.image_path) + path_list(r.thumbnail_path)
}

/// The files that belong to records, in their order.
pub open spec fn all_files(rows: Seq<RowView>) -> Seq<Seq<char>>
    decreases rows.len(),
{
    if rows.len() == 0 {
        seq![]
    } else {
        all_files(rows.drop_last()) + files_of(rows.last())
    }
}

/// A record whose time has run out: no favourite, and last copied before `cutoff`.
pub open spec fn expired(r: RowView, cutoff: Seq<char>) -> bool {
    r.is_favorite == 0 && text_lt(r.created_at, cutoff)
}

/// The rows whose time has run out.
pub open spec fn expired_rows(rows: Seq<RowView>, cutoff: Seq<char>) -> Seq<RowView> {
    rows.filter(|r: RowView| expired(r, cutoff))
}

/// The ids of rows.
pub open spec fn ids_of(rows: Seq<RowView>) -> Seq<i64> {
    rows.map_values(|r: RowView| r.id)
}

/// The state after the rows and index entries with these ids were dropped.
pub open spec fn dropped(d: DbView, ids: Seq<i64>) -> DbView {
    DbView { rows: rows_without(d.rows, ids), index: entries_without(d.index, ids), ..d }
}

fn push_files(files: &mut Vec<String>, row: &Row)
    ensures
        texts(final(files)@) == texts(old(files)@) + files_of(row@),
{
    let ghost start = files@;
    match &row.image_path {
        Some(p) => files.push(p.clone()),
        None => {},
    }
    let ghost mid = files@;
    assert(texts(mid) =~= texts(start) + path_list(row@.image_path));
    match &row.thumbnail_path {
        Some(p) => files.push(p.clone()),
        None => {},
    }
    assert(texts(files@) =~= texts(mid) + path_list(row@.thumbnail_path));
    assert(texts(files@) =~= texts(start) + files_of(row@));
}

fn all_in(a: &[String], b: &[String]) -> (r: bool)
    ensures
        r == texts(a@).to_set().subset_of(texts(b@).to_set()),
{
    let ghost av = texts(a@);
    let ghost bv = texts(b@);
    for k in 0..a.len()
        invariant
            av == texts(a@),
            bv == texts(b@),
            forall|i: int| 0 <= i < k ==> bv.contains(#[trigger] av[i]),
    {
        assert(av[k as int] == a@[k as int]@);
        if !has_text(b, &a[k]) {
            assert(av.contains(av[k as int]));
            assert(av.to_set().contains(av[k as int]));
            assert(!bv.to_set().contains(av[k as int]));
            return false;
        }
    }
    true
}

/// Whether two lists hold the same texts, in whatever order and however often.
pub fn same_members(a: &[String], b: &[String]) -> (r: bool)
    ensures
        r == (texts(a@).to_set() == texts(b@).to_set()),
{
    let r = all_in(a, b) && all_in(b, a);
    proof {
        if r {
            assert(texts(a@).to_set() =~= texts(b@).to_set());
        }
    }
    r
}

/// Two conditions that agree on all rows pick the same rows.
pub proof fn lemma_same_filter(
    rows: Seq<RowView>,
    p: spec_fn(RowView) -> bool,
    q: spec_fn(RowView) -> bool,
)
    requires
        forall|i: int| 0 <= i < rows.len() ==> p(#[trigger] rows[i]) == q(rows[i]),
    ensures
        rows.filter(p) == rows.filter(q),
    decreases rows.len(),
{
    reveal(Seq::filter);
    if rows.len() > 0 {
        let init = rows.drop_last();
        assert forall|i: int| 0 <= i < init.len() implies p(#[trigger] init[i]) == q(init[i]) by {
            assert(init[i] == rows[i]);
        }
        lemma_same_filter(init, p, q);
        assert(p(rows[rows.len() - 1]) == q(rows[rows.len() - 1]));
    }
}

/// `b` holds as many rows as `a`, with the same ids, contents and paths.
pub open spec fn same_keys(a: Seq<RowView>, b: Seq<RowView>) -> bool {
    &&& a.len() == b.len()
    &&& forall|i: int|
        0 <= i < b.len() ==> (#[trigger] b[i]).id == a[i].id && b[i].content == a[i].content
            && b[i].file_paths == a[i].file_paths
}

/// A change of rows that keeps their ids, contents and paths keeps the index as it should be.
proof fn lemma_update_keeps(d: DbView, rows: Seq<RowView>)
    requires
        d.wf(),
        same_keys(d.rows, rows),
    ensures
        (DbView { rows, ..d }).wf(),
        d.in_sync() ==> (DbView { rows, ..d }).in_sync(),
{
    assert forall|i: int, j: int| 0 <= i < j < rows.len() implies (#[trigger] rows[i]).id < (
    #[trigger] rows[j]).id by {
        assert(d.rows[i].id < d.rows[j].id);
    }
    assert forall|i: int| 0 <= i < rows.len() implies (#[trigger] rows[i]).id <= d.last_id by {
        assert(d.rows[i].id <= d.last_id);
    }
    if d.in_sync() {
        assert(index_of(rows) =~= index_of(d.rows)) by {
            assert forall|i: int| 0 <= i < rows.len() implies entry_of(#[trigger] rows[i])
                == entry_of(d.rows[i]) by {}
        }
    }
}

/// Dropping no ids changes nothing.
pub proof fn lemma_drop_nothing(d: DbView, ids: Seq<i64>)
    requires
        ids.len() == 0,
    ensures
        dropped(d, ids) == d,
{
    lemma_all_rows_kept(d.rows, |r: RowView| !ids.contains(r.id));
    lemma_all_entries_kept(d.index, |e: IndexView| !ids.contains(e.rowid));
}

proof fn lemma_all_rows_kept(rows: Seq<RowView>, p: spec_fn(RowView) -> bool)
    requires
        forall|r: RowView| #[trigger] p(r),
    ensures
        rows.filter(p) == rows,
    decreases rows.len(),
{
    reveal(Seq::filter);
    if rows.len() > 0 {
        lemma_all_rows_kept(rows.drop_last(), p);
        assert(rows.drop_last().push(rows.last()) =~= rows);
    }
}

proof fn lemma_all_entries_kept(index: Seq<IndexView>, p: spec_fn(IndexView) -> bool)
    requires
        forall|e: IndexView| #[trigger] p(e),
    ensures
        index.filter(p) == index,
    decreases index.len(),
{
    reveal(Seq::filter);
    if index.len() > 0 {
        lemma_all_entries_kept(index.drop_last(), p);
        assert(index.drop_last().push(index.last()) =~= index);
    }
}

/// Dropping ids keeps the rest in order and the index in step with it.
proof fn lemma_drop_keeps(d: DbView, ids: Seq<i64>)
    requires
        d.wf(),
    ensures
        dropped(d, ids).wf(),
        d.in_sync() ==> dropped(d, ids).in_sync(),
{
    let n = dropped(d, ids);
    let p = |r: RowView| !ids.contains(r.id);
    let q = |e: IndexView| !ids.contains(e.rowid);
    lemma_filter_ascending(d.rows, p);
    lemma_filter_entries(d.index, q);
    assert forall|i: int| 0 <= i < n.rows.len() implies (#[trigger] n.rows[i]).id <= n.last_id by {
        assert(d.rows.filter(p).contains(n.rows[i]));
    }
    lemma_drop_keeps_sync(d.rows, ids);
}

proof fn lemma_placed(index: Seq<IndexView>, e: IndexView)
    requires
        entries_ascending(index),
        !has_entry(index, e.rowid as int),
    ensures
        entries_ascending(placed(index, e)),
        forall|x: IndexView| #[trigger]
            placed(index, e).contains(x) ==> x == e || index.contains(x),
    decreases index.len(),
{
    let n = placed(index, e);
    if index.len() == 0 || index.last().rowid < e.rowid {
        assert forall|i: int, j: int| 0 <= i < j < n.len() implies (#[trigger] n[i]).rowid < (
        #[trigger] n[j]).rowid by {
            if j == n.len() - 1 && i < index.len() - 1 {
                assert(index[i].rowid < index[index.len() - 1].rowid);
            }
        }
        assert forall|x: IndexView| #[trigger] n.contains(x) implies x == e || index.contains(x) by {
            let k = choose|k: int| 0 <= k < n.len() && n[k] == x;
            if k < index.len() {
                assert(index[k] == x);
            }
        }
    } else {
        let init = index.drop_last();
        let last = index.last();
        assert(index[index.len() - 1].rowid != e.rowid);
        assert(!has_entry(init, e.rowid as int)) by {
            if has_entry(init, e.rowid as int) {
                let i = choose|i: int| 0 <= i < init.len() && (#[trigger] init[i]).rowid == e.rowid;
                assert(index[i].rowid == e.rowid);
            }
        }
        lemma_placed(init, e);
        let m = placed(init, e);
        assert forall|i: int, j: int| 0 <= i < j < n.len() implies (#[trigger] n[i]).rowid < (
        #[trigger] n[j]).rowid by {
            if j < m.len() {
                assert(m[i].rowid < m[j].rowid);
            } else {
                assert(m.contains(m[i]));
                if m[i] != e {
                    let k = choose|k: int| 0 <= k < init.len() && init[k] == m[i];
                    assert(index[k].rowid < index[index.len() - 1].rowid);
                }
            }
        }
        assert forall|x: IndexView| #[trigger] n.contains(x) implies x == e || index.contains(x) by {
            let k = choose|k: int| 0 <= k < n.len() && n[k] == x;
            if k < m.len() {
                assert(m.contains(m[k]));
                if x != e {
                    let i = choose|i: int| 0 <= i < init.len() && init[i] == x;
                    assert(index[i] == x);
                }
            } else {
                assert(index[index.len() - 1] == x);
            }
        }
    }
}

/// In an index that is in step with the rows, a fresh id comes last, and is free.
pub proof fn lemma_placed_last(d: DbView, id: i64)
    requires
        d.wf(),
        d.in_sync(),
        id > d.last_id,
    ensures
        !has_entry(d.index, id as int),
        forall|e: IndexView| e.rowid == id ==> #[trigger] placed(d.index, e) == d.index.push(e),
{
    assert forall|i: int| 0 <= i < d.index.len() implies (#[trigger] d.index[i]).rowid < id by {
        assert(d.index[i] == entry_of(d.rows[i]));
        assert(d.rows[i].id <= d.last_id);
    }
    assert forall|e: IndexView| e.rowid == id implies #[trigger] placed(d.index, e)
        == d.index.push(e) by {
        if d.index.len() > 0 {
            assert(d.index[d.index.len() - 1].rowid < id);
        }
    }
}

fn holds_entry(index: &[IndexEntry], id: i64) -> (r: bool)
    ensures
        r == has_entry(index_views(index@), id as int),
{
    let ghost v = index_views(index@);
    for k in 0..index.len()
        invariant
            v == index_views(index@),
            forall|i: int| 0 <= i < k ==> (#[trigger] v[i]).rowid != id,
    {
        assert(v[k as int] == index@[k as int]@);
        if index[k].rowid == id {
            return true;
        }
    }
    false
}

fn place_entry(index: &mut Vec<IndexEntry>, e: IndexEntry)
    ensures
        index_views(final(index)@) == placed(index_views(old(index)@), e@),
{
    let ghost v = index_views(index@);
    let mut k: usize = index.len();
    assert(v.take(k as int) =~= v);
    assert(v.skip(k as int) =~= seq![]);
    assert(placed(v, e@) =~= placed(v.take(k as int), e@) + v.skip(k as int));
    while k > 0 && index[k - 1].rowid >= e.rowid
        invariant
            v == index_views(index@),
            k <= index@.len(),
            placed(v, e@) == placed(v.take(k as int), e@) + v.skip(k as int),
        decreases k,
    {
        proof {
            let t = v.take(k as int);
            assert(t.last() == index@[k - 1]@);
            assert(t.drop_last() =~= v.take(k - 1));
            assert(placed(v.take(k - 1), e@).push(t.last()) + v.skip(k as int) =~= placed(
                v.take(k - 1),
                e@,
            ) + v.skip(k - 1));
        }
        k = k - 1;
    }
    proof {
        let t = v.take(k as int);
        assert(k > 0 ==> t.last() == index@[k - 1]@);
        assert(placed(t, e@) == t.push(e@));
    }
    let ghost ev = e@;
    index.insert(k, e);
    assert(index_views(index@) =~= v.take(k as int).push(ev) + v.skip(k as int));
}

/// The state after the record `id` was dated to `now`.
pub open spec fn touched(d: DbView, id: i64, now: Seq<char>) -> DbView {
    DbView { rows: updated(d.rows, id, |r: RowView| RowView { created_at: now, ..r }), ..d }
}

/// The state after the favourite mark of the record `id` was switched.
pub open spec fn favorite_flipped(d: DbView, id: i64) -> DbView {
    DbView {
        rows: updated(
            d.rows,
            id,
            |r: RowView| RowView { is_favorite: flipped(r.is_favorite), ..r },
        ),
        ..d
    }
}

/// The state after the pin of the record `id` was switched.
pub open spec fn pin_flipped(d: DbView, id: i64) -> DbView {
    DbView {
        rows: updated(d.rows, id, |r: RowView| RowView { is_pinned: flipped(r.is_pinned), ..r }),
        ..d
    }
}

/// The rows with ids among `hits`.
pub open spec fn found(rows: Seq<RowView>, hits: Seq<i64>) -> Seq<RowView> {
    rows.filter(|r: RowView| hits.contains(r.id))
}

proof fn lemma_no_such_row(rows: Seq<Row>, id: i64)
    requires
        forall|k: int| 0 <= k < rows.len() ==> (#[trigger] rows[k])@.id != id,
    ensures
        forall|k: int| 0 <= k < row_views(rows).len() ==> (#[trigger] row_views(rows)[k]).id != id,
        row_with(row_views(rows), id) is None,
{
    assert forall|k: int| 0 <= k < row_views(rows).len() implies (#[trigger] row_views(rows)[k]).id
        != id by {
        assert(rows[k]@.id != id);
    }
}

/// To drop the ids of the rows whose time has run out is to keep the others.
proof fn lemma_expired_ids(rows: Seq<RowView>, cutoff: Seq<char>)
    requires
        ascending(rows),
    ensures
        rows_without(rows, ids_of(expired_rows(rows, cutoff))) == rows.filter(
            |r: RowView| !expired(r, cutoff),
        ),
{
    let p = |r: RowView| expired(r, cutoff);
    let gone = rows.filter(p);
    let ids = ids_of(gone);
    lemma_filter_ascending(rows, p);
    let keep = |r: RowView| !ids.contains(r.id);
    let fresh = |r: RowView| !expired(r, cutoff);
    assert forall|i: int| 0 <= i < rows.len() implies keep(#[trigger] rows[i]) == fresh(rows[i]) by {
        assert(rows.contains(rows[i]));
        if p(rows[i]) {
            assert(gone.contains(rows[i]));
            let k = choose|k: int| 0 <= k < gone.len() && gone[k] == rows[i];
            assert(ids[k] == rows[i].id);
        }
        if ids.contains(rows[i].id) {
            let k = choose|k: int| 0 <= k < ids.len() && ids[k] == rows[i].id;
            assert(gone.contains(gone[k]));
            let m = choose|m: int| 0 <= m < rows.len() && rows[m] == gone[k];
            assert(rows[m].id == rows[i].id);
            if m < i {
                assert(rows[m].id < rows[i].id);
            } else if i < m {
                assert(rows[i].id < rows[m].id);
            }
        }
    }
    lemma_same_filter(rows, keep, fresh);
}

impl Database {
    /// The history with these rows and index entries, which must come with ascending ids; `sequence`
    /// is the largest id that the table remembers.
    pub fn new(
        data_dir: String,
        rows: Vec<Row>,
        index: Vec<IndexEntry>,
        sequence: i64,
    ) -> (r: Result<Database, String>)
        ensures
            r is Ok <==> ascending(row_views(rows@)) && entries_ascending(index_views(index@)),
            match r {
                Ok(db) => db@ == (DbView {
                    rows: row_views(rows@),
                    index: index_views(index@),
                    last_id: id_floor(row_views(rows@), sequence),
                    data_dir: data_dir@,
                }) && db@.wf(),
                Err(e) => e@ == "ids are not ascending"@,
            },
    {
        let ghost rv = row_views(rows@);
        if !rows_ascend(&rows) || !entries_ascend(&index) {
            return Err("ids are not ascending".to_string());
        }
        let mut last_id: i64 = sequence;
        if rows.len() > 0 && rows[rows.len() - 1].id > last_id {
            last_id = rows[rows.len() - 1].id;
        }
        assert(rv.len() > 0 ==> rv.last().id == rows@[rows@.len() - 1].id);
        Ok(Database { rows, index, last_id, data_dir })
    }

    /// The data directory.
    pub fn data_dir(&self) -> (r: String)
        ensures
            r@ == self@.data_dir,
    {
        self.data_dir.clone()
    }

    /// The directory for pictures.
    pub fn images_dir(&self) -> (r: String)
        ensures
            r@ == images_in(self@.data_dir),
    {
        join_path(&self.data_dir, "images")
    }

    /// The directory for thumbnails.
    pub fn thumbs_dir(&self) -> (r: String)
        ensures
            r@ == thumbs_in(self@.data_dir),
    {
        join_path(&self.data_dir, "thumbs")
    }

    /// The directory for pictures that wait to be taken in.
    pub fn buffer_dir(&self) -> (r: String)
        ensures
            r@ == buffer_in(self@.data_dir),
    {
        join_path(&self.data_dir, "clip_buffer")
    }

    /// Adds a record under a fresh id, with its index entry. The id that `item` bears is not looked
    /// at.
    pub fn add_item(&mut self, item: &ClipboardItem) -> (r: Result<i64, String>)
        requires
            old(self)@.wf(),
        ensures
            final(self)@.wf(),
            match r {
                Ok(id) => {
                    &&& add_fault(old(self)@) is None
                    &&& id == old(self)@.last_id + 1
                    &&& final(self)@ == added(old(self)@, item@)
                },
                Err(e) => add_fault(old(self)@) == Some(e@) && final(self)@ == old(self)@,
            },
            r matches Ok(id) ==> opt_item(row_with(final(self)@.rows, id)) == Some(
                ItemView { id, ..item@ },
            ),
            r is Ok && item@.file_paths is Some ==> json_read(
                json_written(item@.file_paths->0),
            ) == item@.file_paths,
            old(self)@.in_sync() ==> final(self)@.in_sync(),
    {
        if self.last_id == i64::MAX {
            return Err("database or disk is full".to_string());
        }
        let ghost d = self@;
        let id: i64 = self.last_id + 1;
        if holds_entry(&self.index, id) {
            return Err("constraint failed".to_string());
        }
        let (row, e) = item_to_row(id, item);
        self.rows.push(row);
        place_entry(&mut self.index, e);
        self.last_id = id;
        proof {
            let n = added(d, item@);
            assert(row_views(self.rows@) =~= n.rows);
            assert(self@ == n);
            lemma_placed(d.index, entry_of(row_of(id, item@)));
            if d.in_sync() {
                lemma_placed_last(d, id);
            }
            lemma_row_at(n.rows, d.rows.len() as int);
            if d.in_sync() {
                assert(index_of(n.rows) =~= index_of(d.rows).push(entry_of(row_of(id, item@))));
            }
        }
        Ok(id)
    }

    /// The records, or the favourites among them: pinned ones first, then by time.
    pub fn get_items(&self, favorite_only: bool, sort_asc: bool) -> (r: Vec<ClipboardItem>)
        requires
            self@.wf(),
        ensures
            item_views(r@) == listed(shown(self@.rows, favorite_only), sort_asc),
            is_listing(
                listing(shown(self@.rows, favorite_only), sort_asc),
                shown(self@.rows, favorite_only),
                sort_asc,
            ),
            r@.len() == shown(self@.rows, favorite_only).len(),
            forall|row: RowView| #[trigger]
                listing(shown(self@.rows, favorite_only), sort_asc).contains(row)
                    <==> self@.rows.contains(row) && (favorite_only ==> row.is_favorite == 1),
    {
        let ghost p = |r: RowView| !favorite_only || r.is_favorite == 1;
        let ghost all = self@.rows;
        let mut picked: Vec<Row> = Vec::new();
        proof {
            reveal(Seq::filter);
            assert(all.take(0) =~= seq![]);
            assert(row_views(picked@) =~= all.take(0).filter(p));
        }
        for k in 0..self.rows.len()
            invariant
                all == row_views(self.rows@),
                p == (|r: RowView| !favorite_only || r.is_favorite == 1),
                row_views(picked@) == all.take(k as int).filter(p),
        {
            let ghost before = picked@;
            let keep = !favorite_only || self.rows[k].is_favorite == 1;
            if keep {
                picked.push(self.rows[k].copy());
            }
            proof {
                reveal(Seq::filter);
                assert(all.take(k + 1).drop_last() =~= all.take(k as int));
                assert(all[k as int] == self.rows@[k as int]@);
                if keep {
                    assert(row_views(picked@) =~= row_views(before).push(all[k as int]));
                }
            }
        }
        proof {
            assert(all.take(all.len() as int) =~= all);
            lemma_filter_ascending(all, p);
        }
        let r = list_rows(&picked, sort_asc);
        proof {
            let q = shown(all, favorite_only);
            let l = listing(q, sort_asc);
            assert forall|row: RowView| #[trigger] l.contains(row) <==> all.contains(row) && (
            favorite_only ==> row.is_favorite == 1) by {
                law_list_is_complete(l, q, sort_asc, row);
                law_list_shows_all_or_favorites(self@, favorite_only, row);
            }
            law_list_is_complete(l, q, sort_asc, arbitrary());
            assert(item_views(r@).len() == r@.len());
        }
        r
    }

    /// The first text record with exactly this content.
    pub fn find_text(&self, content: &str) -> (r: Option<i64>)
        ensures
            r == first_id(self@.rows, |r: RowView| is_text(r, content@)),
    {
        let ghost all = self@.rows;
        let ghost p = |r: RowView| is_text(r, content@);
        assert(all.skip(0) =~= all);
        for k in 0..self.rows.len()
            invariant
                all == row_views(self.rows@),
                all == self@.rows,
                p == (|r: RowView| is_text(r, content@)),
                first_id(all, p) == first_id(all.skip(k as int), p),
        {
            let row = &self.rows[k];
            let hit = same_text(&row.item_type, "text") && match &row.content {
                Some(c) => same_text(c, content),
                None => false,
            };
            assert(all.skip(k as int)[0] == row@);
            assert(all.skip(k as int).drop_first() =~= all.skip(k + 1));
            if hit {
                return Some(row.id);
            }
        }
        None
    }

    /// The first image record with this fingerprint.
    pub fn find_image_by_hash(&self, hash: &str) -> (r: Option<i64>)
        ensures
            r == first_id(self@.rows, |r: RowView| is_image(r, hash@)),
    {
        let ghost all = self@.rows;
        let ghost p = |r: RowView| is_image(r, hash@);
        assert(all.skip(0) =~= all);
        for k in 0..self.rows.len()
            invariant
                all == row_views(self.rows@),
                all == self@.rows,
                p == (|r: RowView| is_image(r, hash@)),
                first_id(all, p) == first_id(all.skip(k as int), p),
        {
            let row = &self.rows[k];
            let hit = same_text(&row.item_type, "image") && match &row.image_hash {
                Some(h) => same_text(h, hash),
                None => false,
            };
            assert(all.skip(k as int)[0] == row@);
            assert(all.skip(k as int).drop_first() =~= all.skip(k + 1));
            if hit {
                return Some(row.id);
            }
        }
        None
    }

    /// The first file record with this set of paths.
    pub fn find_file(&self, paths: &[String]) -> (r: Option<i64>)
        ensures
            r == first_id(self@.rows, |r: RowView| is_file(r, texts(paths@))),
    {
        let ghost all = self@.rows;
        let ghost p = |r: RowView| is_file(r, texts(paths@));
        assert(all.skip(0) =~= all);
        for k in 0..self.rows.len()
            invariant
                all == row_views(self.rows@),
                all == self@.rows,
                p == (|r: RowView| is_file(r, texts(paths@))),
                first_id(all, p) == first_id(all.skip(k as int), p),
        {
            let row = &self.rows[k];
            let hit = same_text(&row.item_type, "file") && match &row.file_paths {
                Some(j) => match read_json(j) {
                    Some(list) => same_members(&list, paths),
                    None => false,
                },
                None => false,
            };
            assert(all.skip(k as int)[0] == row@);
            assert(all.skip(k as int).drop_first() =~= all.skip(k + 1));
            if hit {
                return Some(row.id);
            }
        }
        None
    }

    /// The record with the id `id`.
    pub fn get_item(&self, id: i64) -> (r: Option<ClipboardItem>)
        requires
            self@.wf(),
        ensures
            opt_item_view(r) == opt_item(row_with(self@.rows, id)),
    {
        match row_place(&self.rows, id) {
            Some(i) => {
                proof {
                    lemma_row_at(self@.rows, i as int);
                }
                Some(row_to_item(&self.rows[i]))
            },
            None => {
                proof {
                    assert forall|k: int| 0 <= k < self@.rows.len() implies (
                    #[trigger] self@.rows[k]).id != id by {
                        assert(self.rows@[k]@.id != id);
                    }
                }
                None
            },
        }
    }

    /// A copy of the history.
    pub fn copy(&self) -> (r: Database)
        ensures
            r@ == self@,
    {
        let no_ids: [i64; 0] = [];
        let rows = drop_rows(&self.rows, &no_ids);
        let index = drop_entries(&self.index, &no_ids);
        proof {
            lemma_drop_nothing(self@, no_ids@);
        }
        Database { rows, index, last_id: self.last_id, data_dir: self.data_dir.clone() }
    }

    /// The rows.
    pub(crate) fn row_slice(&self) -> (r: &[Row])
        ensures
            row_views(r@) == self@.rows,
    {
        &self.rows
    }

    /// The index entries.
    pub(crate) fn entry_slice(&self) -> (r: &[IndexEntry])
        ensures
            index_views(r@) == self@.index,
    {
        &self.index
    }

    /// Puts `rows` in the place of all rows, for rows with the same ids, contents and paths.
    pub(crate) fn put_rows(&mut self, rows: Vec<Row>)
        requires
            old(self)@.wf(),
            same_keys(old(self)@.rows, row_views(rows@)),
        ensures
            final(self)@ == (DbView { rows: row_views(rows@), ..old(self)@ }),
            final(self)@.wf(),
            old(self)@.in_sync() ==> final(self)@.in_sync(),
    {
        let ghost d = self@;
        self.rows = rows;
        proof {
            lemma_update_keeps(d, self@.rows);
        }
    }

    /// Puts `row` in the place `i`, for a row with the same id, content and paths.
    pub(crate) fn put_row(&mut self, i: usize, row: Row)
        requires
            old(self)@.wf(),
            i < old(self)@.rows.len(),
            row@.id == old(self)@.rows[i as int].id,
            row@.content == old(self)@.rows[i as int].content,
            row@.file_paths == old(self)@.rows[i as int].file_paths,
        ensures
            final(self)@ == (DbView {
                rows: old(self)@.rows.update(i as int, row@),
                ..old(self)@
            }),
            final(self)@.wf(),
            old(self)@.in_sync() ==> final(self)@.in_sync(),
    {
        let ghost d = self@;
        self.rows.set(i, row);
        proof {
            assert(row_views(self.rows@) =~= d.rows.update(i as int, row@));
            lemma_update_keeps(d, self@.rows);
        }
    }

    /// Dates the record `id` to `now`.
    pub fn touch_item_at(&mut self, id: i64, now: &str)
        requires
            old(self)@.wf(),
        ensures
            final(self)@ == touched(old(self)@, id, now@),
            final(self)@.wf(),
            old(self)@.in_sync() ==> final(self)@.in_sync(),
    {
        let ghost d = self@;
        let ghost f = |r: RowView| RowView { created_at: now@, ..r };
        match row_place(&self.rows, id) {
            Some(i) => {
                let mut row = self.rows[i].copy();
                row.created_at = now.to_string();
                proof {
                    lemma_update_at(d.rows, i as int, f);
                }
                self.put_row(i, row);
            },
            None => {
                proof {
                    lemma_no_such_row(self.rows@, id);
                    lemma_update_missing(d.rows, id, f);
                }
            },
        }
    }

    /// Dates the record `id` to the current time.
    pub fn touch_item(&mut self, id: i64)
        requires
            old(self)@.wf(),
        ensures
            exists|micros: i64|
                writable(micros as int) && final(self)@ == touched(
                    old(self)@,
                    id,
                    #[trigger] utc_text(micros, ISO_FORMAT@),
                ),
            final(self)@.wf(),
            old(self)@.in_sync() ==> final(self)@.in_sync(),
    {
        let now: i64 = now_micros();
        let text = iso_text(now);
        self.touch_item_at(id, &text);
    }

    /// Makes a record a favourite, or no longer one, and tells which.
    pub fn toggle_favorite(&mut self, id: i64) -> (r: Result<bool, String>)
        requires
            old(self)@.wf(),
        ensures
            final(self)@ == favorite_flipped(old(self)@, id),
            final(self)@.wf(),
            old(self)@.in_sync() ==> final(self)@.in_sync(),
            match (r, row_with(old(self)@.rows, id)) {
                (Ok(b), Some(row)) => b == (row.is_favorite == 0),
                (Err(e), None) => e@ == "Query returned no rows"@,
                _ => false,
            },
    {
        let ghost d = self@;
        let ghost f = |r: RowView| RowView { is_favorite: flipped(r.is_favorite), ..r };
        match row_place(&self.rows, id) {
            Some(i) => {
                let mut row = self.rows[i].copy();
                let on = row.is_favorite == 0;
                row.is_favorite = if on {
                    1
                } else {
                    0
                };
                proof {
                    lemma_update_at(d.rows, i as int, f);
                    lemma_row_at(d.rows, i as int);
                }
                self.put_row(i, row);
                Ok(on)
            },
            None => {
                proof {
                    lemma_no_such_row(self.rows@, id);
                    lemma_update_missing(d.rows, id, f);
                }
                Err("Query returned no rows".to_string())
            },
        }
    }

    /// Pins a record to the top of the list, or no longer, and tells which.
    pub fn toggle_pin(&mut self, id: i64) -> (r: Result<bool, String>)
        requires
            old(self)@.wf(),
        ensures
            final(self)@ == pin_flipped(old(self)@, id),
            final(self)@.wf(),
            old(self)@.in_sync() ==> final(self)@.in_sync(),
            match (r, row_with(old(self)@.rows, id)) {
                (Ok(b), Some(row)) => b == (row.is_pinned == 0),
                (Err(e), None) => e@ == "Query returned no rows"@,
                _ => false,
            },
    {
        let ghost d = self@;
        let ghost f = |r: RowView| RowView { is_pinned: flipped(r.is_pinned), ..r };
        match row_place(&self.rows, id) {
            Some(i) => {
                let mut row = self.rows[i].copy();
                let on = row.is_pinned == 0;
                row.is_pinned = if on {
                    1
                } else {
                    0
                };
                proof {
                    lemma_update_at(d.rows, i as int, f);
                    lemma_row_at(d.rows, i as int);
                }
                self.put_row(i, row);
                Ok(on)
            },
            None => {
                proof {
                    lemma_no_such_row(self.rows@, id);
                    lemma_update_missing(d.rows, id, f);
                }
                Err("Query returned no rows".to_string())
            },
        }
    }

    /// Drops the rows and index entries with these ids.
    pub(crate) fn drop_ids(&mut self, ids: &[i64])
        requires
            old(self)@.wf(),
        ensures
            final(self)@ == dropped(old(self)@, ids@),
            final(self)@.wf(),
            old(self)@.in_sync() ==> final(self)@.in_sync(),
    {
        let ghost d = self@;
        self.rows = drop_rows(&self.rows, ids);
        self.index = drop_entries(&self.index, ids);
        proof {
            lemma_drop_keeps(d, ids@);
        }
    }

    /// Deletes a record with its index entry. What comes back are the files that belonged to it.
    pub fn delete_item(&mut self, id: i64) -> (r: Vec<String>)
        requires
            old(self)@.wf(),
        ensures
            final(self)@ == dropped(old(self)@, seq![id]),
            final(self)@.wf(),
            old(self)@.in_sync() ==> final(self)@.in_sync(),
            texts(r@) == match row_with(old(self)@.rows, id) {
                Some(row) => files_of(row),
                None => seq![],
            },
    {
        let ghost d = self@;
        let mut files: Vec<String> = Vec::new();
        assert(texts(files@) =~= seq![]);
        match row_place(&self.rows, id) {
            Some(i) => {
                push_files(&mut files, &self.rows[i]);
                proof {
                    lemma_row_at(d.rows, i as int);
                    assert(texts(files@) =~= files_of(d.rows[i as int]));
                }
            },
            None => {
                proof {
                    lemma_no_such_row(self.rows@, id);
                }
            },
        }
        let ids: [i64; 1] = [id];
        self.drop_ids(&ids);
        assert(ids@ =~= seq![id]);
        files
    }

    /// Deletes all records and the whole index. What comes back is how many records there were, and
    /// the files that belonged to them.
    pub fn clear_all_items(&mut self) -> (r: (usize, Vec<String>))
        ensures
            final(self)@ == (DbView { rows: seq![], index: seq![], ..old(self)@ }),
            final(self)@.wf(),
            final(self)@.in_sync(),
            r.0 == old(self)@.rows.len(),
            texts(r.1@) == all_files(old(self)@.rows),
    {
        let ghost d = self@;
        let mut files: Vec<String> = Vec::new();
        let count: usize = self.rows.len();
        proof {
            assert(texts(files@) =~= seq![]);
            assert(d.rows.take(0) =~= seq![]);
        }
        for k in 0..count
            invariant
                d.rows == row_views(self.rows@),
                count == self.rows@.len(),
                texts(files@) == all_files(d.rows.take(k as int)),
        {
            push_files(&mut files, &self.rows[k]);
            proof {
                assert(d.rows.take(k + 1).drop_last() =~= d.rows.take(k as int));
                assert(d.rows[k as int] == self.rows@[k as int]@);
            }
        }
        assert(d.rows.take(d.rows.len() as int) =~= d.rows);
        self.rows = Vec::new();
        self.index = Vec::new();
        proof {
            assert(row_views(self.rows@) =~= seq![]);
            assert(index_views(self.index@) =~= seq![]);
            assert(index_of(self@.rows) =~= seq![]);
        }
        (count, files)
    }

    /// The records that match a query: `hits` are the ids for which the index matches
    /// [`build_fts_query`] of it. A query without words finds everything.
    pub fn search_items(&self, query: &str, hits: &[i64]) -> (r: Vec<ClipboardItem>)
        requires
            self@.wf(),
        ensures
            item_views(r@) == if match_query(query@).len() == 0 {
                listed(shown(self@.rows, false), false)
            } else {
                listed(found(self@.rows, hits@), false)
            },
            match_query(query@).len() > 0 ==> is_listing(
                listing(found(self@.rows, hits@), false),
                found(self@.rows, hits@),
                false,
            ),
            words(indexed(query@)).len() == 0 ==> item_views(r@) == listed(self@.rows, false),
            words(indexed(query@)).len() > 0 ==> item_views(r@) == listed(
                found(self@.rows, hits@),
                false,
            ) && forall|row: RowView| #[trigger]
                listing(found(self@.rows, hits@), false).contains(row) <==> self@.rows.contains(row)
                    && hits@.contains(row.id),
    {
        let expression = build_fts_query(query);
        if same_text(&expression, "") {
            proof {
                reveal_strlit("");
                law_list_shows_all_or_favorites(self@, false, arbitrary());
            }
            return self.get_items(false, false);
        }
        proof {
            reveal_strlit("");
            if match_query(query@).len() == 0 {
                assert(match_query(query@) =~= ""@);
            }
        }
        let ghost p = |r: RowView| hits@.contains(r.id);
        let ghost all = self@.rows;
        let mut picked: Vec<Row> = Vec::new();
        proof {
            reveal(Seq::filter);
            assert(all.take(0) =~= seq![]);
            assert(row_views(picked@) =~= all.take(0).filter(p));
        }
        for k in 0..self.rows.len()
            invariant
                all == row_views(self.rows@),
                p == (|r: RowView| hits@.contains(r.id)),
                row_views(picked@) == all.take(k as int).filter(p),
        {
            let ghost before = picked@;
            let keep = has_id(hits, self.rows[k].id);
            if keep {
                picked.push(self.rows[k].copy());
            }
            proof {
                reveal(Seq::filter);
                assert(all.take(k + 1).drop_last() =~= all.take(k as int));
                assert(all[k as int] == self.rows@[k as int]@);
                if keep {
                    assert(row_views(picked@) =~= row_views(before).push(all[k as int]));
                }
            }
        }
        proof {
            assert(all.take(all.len() as int) =~= all);
            lemma_filter_ascending(all, p);
        }
        let r = list_rows(&picked, false);
        proof {
            let q = found(all, hits@);
            let l = listing(q, false);
            assert forall|row: RowView| #[trigger] l.contains(row) <==> all.contains(row)
                && hits@.contains(row.id) by {
                law_list_is_complete(l, q, false, row);
                law_search_shows_the_hits(self@, hits@, row);
            }
        }
        r
    }

    /// Makes the index anew from the records, and tells how many there are.
    pub fn backfill_fts(&mut self) -> (r: usize)
        requires
            old(self)@.wf(),
        ensures
            final(self)@ == (DbView { index: index_of(old(self)@.rows), ..old(self)@ }),
            final(self)@.wf(),
            final(self)@.in_sync(),
            r == old(self)@.rows.len(),
    {
        let ghost d = self@;
        let mut index: Vec<IndexEntry> = Vec::new();
        let count: usize = self.rows.len();
        assert(index_views(index@) =~= index_of(d.rows.take(0)));
        for k in 0..count
            invariant
                d.rows == row_views(self.rows@),
                count == self.rows@.len(),
                index_views(index@) == index_of(d.rows.take(k as int)),
        {
            let ghost before = index@;
            index.push(row_entry(&self.rows[k]));
            proof {
                assert(index_views(index@) =~= index_views(before).push(
                    entry_of(d.rows[k as int]),
                ));
                assert(index_of(d.rows.take(k + 1)) =~= index_of(d.rows.take(k as int)).push(
                    entry_of(d.rows[k as int]),
                ));
            }
        }
        assert(d.rows.take(d.rows.len() as int) =~= d.rows);
        self.index = index;
        proof {
            let ix = index_of(d.rows);
            assert forall|i: int, j: int| 0 <= i < j < ix.len() implies (#[trigger] ix[i]).rowid < (
            #[trigger] ix[j]).rowid by {
                assert(d.rows[i].id < d.rows[j].id);
            }
        }
        count
    }

    /// Deletes the records whose time has run out at `now`, where they are kept for
    /// `retention_days` days; favourites stay, and everything stays where no days are given. What
    /// comes back is how many records were deleted, and the files that belonged to them.
    pub fn cleanup_expired(&mut self, retention_days: i64, now: i64) -> (r: (usize, Vec<String>))
        requires
            old(self)@.wf(),
            writable(now as int),
            retention_days > 0 ==> writable(now - retention_days * DAY_MICROS),
        ensures
            final(self)@.wf(),
            old(self)@.in_sync() ==> final(self)@.in_sync(),
            if retention_days <= 0 {
                &&& final(self)@ == old(self)@
                &&& r.0 == 0
                &&& r.1@.len() == 0
            } else {
                let cutoff = utc_text((now - retention_days * DAY_MICROS) as i64, ISO_FORMAT@);
                let gone = expired_rows(old(self)@.rows, cutoff);
                &&& final(self)@ == dropped(old(self)@, ids_of(gone))
                &&& final(self)@.rows == old(self)@.rows.filter(
                    |r: RowView| !expired(r, cutoff),
                )
                &&& r.0 == gone.len()
                &&& texts(r.1@) == all_files(gone)
                &&& forall|row: RowView| #[trigger]
                    final(self)@.rows.contains(row) <==> old(self)@.rows.contains(row) && (
                    row.is_favorite != 0 || !text_lt(row.created_at, cutoff))
                &&& r.0 + final(self)@.rows.len() == old(self)@.rows.len()
            },
    {
        if retention_days <= 0 {
            return (0, Vec::new());
        }
        let cutoff = expiry_cutoff(now, retention_days).unwrap();
        let ghost d = self@;
        let ghost p = |r: RowView| expired(r, cutoff@);
        let mut ids: Vec<i64> = Vec::new();
        let mut files: Vec<String> = Vec::new();
        proof {
            reveal(Seq::filter);
            assert(d.rows.take(0) =~= seq![]);
            assert(ids@ =~= ids_of(d.rows.take(0).filter(p)));
            assert(texts(files@) =~= all_files(d.rows.take(0).filter(p)));
        }
        for k in 0..self.rows.len()
            invariant
                d.rows == row_views(self.rows@),
                p == (|r: RowView| expired(r, cutoff@)),
                ids@ == ids_of(d.rows.take(k as int).filter(p)),
                texts(files@) == all_files(d.rows.take(k as int).filter(p)),
        {
            let row = &self.rows[k];
            let ghost f = d.rows.take(k as int).filter(p);
            let hit = row.is_favorite == 0 && text_before(&row.created_at, &cutoff);
            if hit {
                ids.push(row.id);
                push_files(&mut files, row);
            }
            proof {
                reveal(Seq::filter);
                assert(d.rows.take(k + 1).drop_last() =~= d.rows.take(k as int));
                assert(d.rows[k as int] == row@);
                if hit {
                    assert(ids_of(f.push(row@)) =~= ids_of(f).push(row@.id));
                    assert(f.push(row@).drop_last() =~= f);
                }
            }
        }
        let ghost gone = expired_rows(d.rows, cutoff@);
        proof {
            assert(d.rows.take(d.rows.len() as int) =~= d.rows);
            lemma_expired_ids(d.rows, cutoff@);
        }
        let count: usize = ids.len();
        self.drop_ids(&ids);
        proof {
            assert(self@ == dropped(d, ids_of(gone)));
            assert forall|row: RowView| #[trigger] self@.rows.contains(row) <==> d.rows.contains(row)
                && (row.is_favorite != 0 || !text_lt(row.created_at, cutoff@)) by {
                law_cleanup_goes_by_date(d, cutoff@, row);
            }
            law_cleanup_goes_by_date(d, cutoff@, arbitrary());
        }
        (count, files)
    }
}

} // verus!
