//! From records to rows, to index entries and back, and the order in which records are listed.

use crate::fts::{file_names, fts_paths, fts_text, indexed, path_texts, paths_or_none};
use crate::models::{copy_opt, ClipboardItem, IndexEntry, IndexView, ItemView, Row, RowView};
use crate::outside::{json_read, json_written, read_json, write_json};
use crate::text::{
    join, lemma_text_lt_irreflexive, lemma_text_lt_total, lemma_text_lt_transitive, text_before,
    text_lt, texts,
};
use vstd::prelude::*;

verus! {

/// The views of rows.
pub open spec fn row_views(v: Seq<Row>) -> Seq<RowView> {
    v.map_values(|r: Row| r@)
}

/// The views of items.
pub open spec fn item_views(v: Seq<ClipboardItem>) -> Seq<ItemView> {
    v.map_values(|i: ClipboardItem| i@)
}

/// The views of index entries.
pub open spec fn index_views(v: Seq<IndexEntry>) -> Seq<IndexView> {
    v.map_values(|e: IndexEntry| e@)
}

/// The paths in a stored JSON text: none where it is no list of texts.
pub open spec fn stored_paths(json: Option<Seq<char>>) -> Seq<Seq<char>> {
    match json {
        Some(j) => paths_or_none(json_read(j)),
        None => seq![],
    }
}

/// The record that a row stands for.
pub open spec fn item_of(r: RowView) -> ItemView {
    ItemView {
        id: r.id,
        item_type: r.item_type,
        content: r.content,
        image_path: r.image_path,
        thumbnail_path: r.thumbnail_path,
        file_paths: match r.file_paths {
            Some(j) => Some(stored_paths(Some(j))),
            None => None,
        },
        file_count: r.file_count,
        is_favorite: r.is_favorite != 0,
        is_pinned: r.is_pinned != 0,
        created_at: r.created_at,
        source_app: r.source_app,
        image_hash: r.image_hash,
    }
}

/// A flag as it is stored.
pub open spec fn flag(b: bool) -> i32 {
    if b {
        1
    } else {
        0
    }
}

/// The row under which `item` is stored with the id `id`.
pub open spec fn row_of(id: i64, item: ItemView) -> RowView {
    RowView {
        id,
        item_type: item.item_type,
        content: item.content,
        image_path: item.image_path,
        thumbnail_path: item.thumbnail_path,
        file_paths: match item.file_paths {
            Some(l) => Some(json_written(l)),
            None => None,
        },
        file_count: item.file_count,
        is_favorite: flag(item.is_favorite),
        is_pinned: flag(item.is_pinned),
        created_at: item.created_at,
        source_app: item.source_app,
        image_hash: item.image_hash,
    }
}

/// A text that may be missing: empty then.
pub open spec fn text_or_empty(t: Option<Seq<char>>) -> Seq<char> {
    match t {
        Some(s) => s,
        None => seq![],
    }
}

/// The index entry for a record with this content and these paths.
pub open spec fn entry(id: i64, content: Option<Seq<char>>, paths: Seq<Seq<char>>) -> IndexView {
    IndexView {
        rowid: id,
        content: indexed(text_or_empty(content)),
        file_paths: indexed(join(paths, " "@)),
        file_name: indexed(join(file_names(paths), " "@)),
    }
}

/// The index entry that belongs to a row.
pub open spec fn entry_of(r: RowView) -> IndexView {
    entry(r.id, r.content, stored_paths(r.file_paths))
}

/// The record of a row.
pub fn row_to_item(row: &Row) -> (r: ClipboardItem)
    ensures
        r@ == item_of(row@),
{
    let file_paths: Option<Vec<String>> = match &row.file_paths {
        Some(j) => Some(paths_in_json(j)),
        None => None,
    };
    ClipboardItem {
        id: row.id,
        item_type: row.item_type.clone(),
        content: copy_opt(&row.content),
        image_path: copy_opt(&row.image_path),
        thumbnail_path: copy_opt(&row.thumbnail_path),
        file_paths,
        file_count: row.file_count,
        is_favorite: row.is_favorite != 0,
        is_pinned: row.is_pinned != 0,
        created_at: row.created_at.clone(),
        source_app: copy_opt(&row.source_app),
        image_hash: copy_opt(&row.image_hash),
    }
}

/// The paths in the JSON text `json`: none where it is no list of texts.
pub fn paths_in_json(json: &str) -> (r: Vec<String>)
    ensures
        texts(r@) == stored_paths(Some(json@)),
{
    match read_json(json) {
        Some(v) => v,
        None => {
            let v: Vec<String> = Vec::new();
            assert(texts(v@) =~= seq![]);
            v
        },
    }
}

/// The row for `item` with the id `id`, and the index entry that goes with it.
pub fn item_to_row(id: i64, item: &ClipboardItem) -> (r: (Row, IndexEntry))
    ensures
        r.0@ == row_of(id, item@),
        r.1@ == entry_of(row_of(id, item@)),
        item_of(r.0@) == (ItemView { id, ..item@ }),
        item@.file_paths matches Some(l) ==> json_read(json_written(l)) == Some(l),
{
    let file_paths: Option<String> = match &item.file_paths {
        Some(v) => Some(write_json(v)),
        None => None,
    };
    let (paths_text, names) = fts_paths(item);
    let content = match &item.content {
        Some(s) => fts_text(s),
        None => fts_text(""),
    };
    proof {
        reveal_strlit("");
        assert(""@ =~= seq![]);
        let stored = stored_paths(row_of(id, item@).file_paths);
        assert(stored == paths_or_none(item@.file_paths));
    }
    let e = IndexEntry {
        rowid: id,
        content,
        file_paths: fts_text(&paths_text),
        file_name: fts_text(&names),
    };
    let row = Row {
        id,
        item_type: item.item_type.clone(),
        content: copy_opt(&item.content),
        image_path: copy_opt(&item.image_path),
        thumbnail_path: copy_opt(&item.thumbnail_path),
        file_paths,
        file_count: item.file_count,
        is_favorite: if item.is_favorite {
            1
        } else {
            0
        },
        is_pinned: if item.is_pinned {
            1
        } else {
            0
        },
        created_at: item.created_at.clone(),
        source_app: copy_opt(&item.source_app),
        image_hash: copy_opt(&item.image_hash),
    };
    (row, e)
}

/// The index entry of a row.
pub fn row_entry(row: &Row) -> (r: IndexEntry)
    ensures
        r@ == entry_of(row@),
{
    let paths: Vec<String> = match &row.file_paths {
        Some(j) => paths_in_json(j),
        None => {
            let v: Vec<String> = Vec::new();
            assert(texts(v@) =~= seq![]);
            v
        },
    };
    let (paths_text, names) = path_texts(&paths);
    let content = match &row.content {
        Some(s) => fts_text(s),
        None => fts_text(""),
    };
    proof {
        reveal_strlit("");
        assert(""@ =~= seq![]);
    }
    IndexEntry {
        rowid: row.id,
        content,
        file_paths: fts_text(&paths_text),
        file_name: fts_text(&names),
    }
}

/// Whether `a` is listed before `b`: pinned records first, then by time in the direction asked for,
/// then by id.
pub open spec fn listed_before(a: RowView, b: RowView, asc: bool) -> bool {
    if a.is_pinned != b.is_pinned {
        a.is_pinned > b.is_pinned
    } else if a.created_at != b.created_at {
        if asc {
            text_lt(a.created_at, b.created_at)
        } else {
            text_lt(b.created_at, a.created_at)
        }
    } else {
        a.id < b.id
    }
}

/// `q` holds the rows `rows`, in the order in which they are listed.
pub open spec fn is_listing(q: Seq<RowView>, rows: Seq<RowView>, asc: bool) -> bool {
    &&& q.to_multiset() == rows.to_multiset()
    &&& forall|i: int, j: int| 0 <= i < j < q.len() ==> #[trigger] listed_before(q[i], q[j], asc)
}

/// The rows `rows` in the order in which they are listed.
pub open spec fn listing(rows: Seq<RowView>, asc: bool) -> Seq<RowView> {
    choose|q: Seq<RowView>| is_listing(q, rows, asc)
}

/// All rows have different ids, ascending in the order of the table.
pub open spec fn ascending(rows: Seq<RowView>) -> bool {
    forall|i: int, j: int| 0 <= i < j < rows.len() ==> (#[trigger] rows[i]).id < (
    #[trigger] rows[j]).id
}

proof fn lemma_listed_total(a: RowView, b: RowView, asc: bool)
    requires
        a.id != b.id,
    ensures
        listed_before(a, b, asc) != listed_before(b, a, asc),
{
    lemma_text_lt_total(a.created_at, b.created_at);
    if text_lt(a.created_at, b.created_at) && text_lt(b.created_at, a.created_at) {
        lemma_text_lt_transitive(a.created_at, b.created_at, a.created_at);
        lemma_text_lt_irreflexive(a.created_at);
    }
}

proof fn lemma_listed_asymmetric(a: RowView, b: RowView, asc: bool)
    requires
        listed_before(a, b, asc),
    ensures
        !listed_before(b, a, asc),
{
    if text_lt(a.created_at, b.created_at) && text_lt(b.created_at, a.created_at) {
        lemma_text_lt_transitive(a.created_at, b.created_at, a.created_at);
        lemma_text_lt_irreflexive(a.created_at);
    }
}

proof fn lemma_listed_transitive(a: RowView, b: RowView, c: RowView, asc: bool)
    requires
        listed_before(a, b, asc),
        listed_before(b, c, asc),
    ensures
        listed_before(a, c, asc),
{
    if a.is_pinned == b.is_pinned && b.is_pinned == c.is_pinned {
        let (x, y, z) = (a.created_at, b.created_at, c.created_at);
        if x != y && y != z {
            if asc {
                lemma_text_lt_transitive(x, y, z);
                lemma_text_lt_irreflexive(x);
            } else {
                lemma_text_lt_transitive(z, y, x);
                lemma_text_lt_irreflexive(x);
            }
        }
    }
}

/// There is only one order in which given rows can be listed.
pub proof fn law_listing_is_unique(p: Seq<RowView>, q: Seq<RowView>, rows: Seq<RowView>, asc: bool)
    requires
        is_listing(p, rows, asc),
        is_listing(q, rows, asc),
    ensures
        p == q,
    decreases p.len(),
{
    broadcast use vstd::seq_lib::group_to_multiset_ensures;

    assert(p.len() == p.to_multiset().len());
    assert(q.len() == q.to_multiset().len());
    if p.len() == 0 {
        assert(p =~= q);
    } else {
        assert(p.to_multiset().count(p[0]) > 0) by {
            assert(p.contains(p[0]));
        }
        assert(q.to_multiset().count(q[0]) > 0) by {
            assert(q.contains(q[0]));
        }
        assert(q.contains(p[0]));
        assert(p.contains(q[0]));
        let k = choose|k: int| 0 <= k < q.len() && q[k] == p[0];
        let m = choose|m: int| 0 <= m < p.len() && p[m] == q[0];
        if k > 0 {
            assert(listed_before(q[0], q[k], asc));
            lemma_listed_asymmetric(q[0], p[0], asc);
            if m > 0 {
                assert(listed_before(p[0], p[m], asc));
            }
            assert(false);
        }
        let p1 = p.drop_first();
        let q1 = q.drop_first();
        assert(p.remove(0) =~= p1);
        assert(q.remove(0) =~= q1);
        assert forall|i: int, j: int| 0 <= i < j < p1.len() implies #[trigger] listed_before(
            p1[i],
            p1[j],
            asc,
        ) by {
            assert(listed_before(p[i + 1], p[j + 1], asc));
        }
        assert forall|i: int, j: int| 0 <= i < j < q1.len() implies #[trigger] listed_before(
            q1[i],
            q1[j],
            asc,
        ) by {
            assert(listed_before(q[i + 1], q[j + 1], asc));
        }
        assert(is_listing(p1, p1, asc));
        assert(is_listing(q1, p1, asc));
        law_listing_is_unique(p1, q1, p1, asc);
        assert(seq![p[0]] + p1 =~= p);
        assert(seq![q[0]] + q1 =~= q);
    }
}

fn row_before(a: &Row, b: &Row, asc: bool) -> (r: bool)
    ensures
        r == listed_before(a@, b@, asc),
{
    if a.is_pinned != b.is_pinned {
        a.is_pinned > b.is_pinned
    } else if !crate::text::same_text(&a.created_at, &b.created_at) {
        if asc {
            text_before(&a.created_at, &b.created_at)
        } else {
            text_before(&b.created_at, &a.created_at)
        }
    } else {
        a.id < b.id
    }
}

/// The records of `rows` in the order in which they are listed.
pub fn list_rows(rows: &[Row], asc: bool) -> (r: Vec<ClipboardItem>)
    requires
        ascending(row_views(rows@)),
    ensures
        is_listing(listing(row_views(rows@), asc), row_views(rows@), asc),
        item_views(r@) == listing(row_views(rows@), asc).map_values(|v: RowView| item_of(v)),
{
    let mut sorted: Vec<Row> = Vec::new();
    let ghost all = row_views(rows@);
    proof {
        assert(row_views(sorted@) =~= seq![]);
        assert(all.take(0) =~= seq![]);
    }
    for k in 0..rows.len()
        invariant
            all == row_views(rows@),
            ascending(all),
            is_listing(row_views(sorted@), all.take(k as int), asc),
    {
        let ghost q = row_views(sorted@);
        let ghost x = all[k as int];
        let mut pos: usize = 0;
        let n: usize = sorted.len();
        while pos < n && row_before(&sorted[pos], &rows[k], asc)
            invariant
                n == sorted@.len(),
                pos <= n,
                q == row_views(sorted@),
                k < rows@.len(),
                all == row_views(rows@),
                x == all[k as int],
                forall|j: int| 0 <= j < pos ==> listed_before(#[trigger] q[j], x, asc),
            decreases n - pos,
        {
            assert(q[pos as int] == sorted@[pos as int]@);
            pos = pos + 1;
        }
        proof {
            broadcast use vstd::seq_lib::group_to_multiset_ensures;

            let prior = all.take(k as int);
            assert(q.len() == q.to_multiset().len());
            assert(prior.len() == prior.to_multiset().len());
            assert forall|j: int| 0 <= j < q.len() implies (#[trigger] q[j]).id != x.id by {
                assert(q.contains(q[j]));
                assert(q.to_multiset().count(q[j]) > 0);
                assert(prior.contains(q[j]));
                let i = choose|i: int| 0 <= i < prior.len() && prior[i] == q[j];
                assert(all[i].id < all[k as int].id);
            }
            assert forall|j: int| pos <= j < q.len() implies listed_before(
                x,
                #[trigger] q[j],
                asc,
            ) by {
                lemma_listed_total(q[pos as int], x, asc);
                assert(q[pos as int] == sorted@[pos as int]@);
                if j > pos {
                    assert(listed_before(q[pos as int], q[j], asc));
                    lemma_listed_transitive(x, q[pos as int], q[j], asc);
                }
            }
        }
        let ghost before = sorted@;
        sorted.insert(pos, rows[k].copy());
        proof {
            broadcast use vstd::seq_lib::group_to_multiset_ensures;

            let q2 = row_views(sorted@);
            assert(q2 =~= q.insert(pos as int, x));
            assert(all.take(k + 1) =~= all.take(k as int).push(x));
            assert forall|i: int, j: int| 0 <= i < j < q2.len() implies #[trigger] listed_before(
                q2[i],
                q2[j],
                asc,
            ) by {
                if i < pos && j == pos {
                    assert(q2[i] == q[i]);
                } else if i == pos {
                    assert(q2[j] == q[j - 1]);
                } else {
                    let a = if i < pos { i } else { i - 1 };
                    let b = if j < pos { j } else { j - 1 };
                    assert(q2[i] == q[a] && q2[j] == q[b]);
                    assert(listed_before(q[a], q[b], asc));
                }
            }
        }
    }
    let ghost q = row_views(sorted@);
    proof {
        assert(all.take(all.len() as int) =~= all);
        assert(is_listing(q, all, asc));
        law_listing_is_unique(q, listing(all, asc), all, asc);
    }
    let mut out: Vec<ClipboardItem> = Vec::new();
    let ghost f = |v: RowView| item_of(v);
    for k in 0..sorted.len()
        invariant
            q == row_views(sorted@),
            f == (|v: RowView| item_of(v)),
            item_views(out@) == q.take(k as int).map_values(f),
    {
        let ghost before = out@;
        out.push(row_to_item(&sorted[k]));
        proof {
            assert(item_views(out@) =~= item_views(before).push(item_of(q[k as int])));
            assert(q.take(k + 1).map_values(f) =~= q.take(k as int).map_values(f).push(
                item_of(q[k as int]),
            ));
        }
    }
    assert(q.take(q.len() as int) =~= q);
    out
}

} // verus!
