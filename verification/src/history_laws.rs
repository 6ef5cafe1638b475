//! What the operations on the history do, field by field: adding, finding, marking, dating, listing,
//! deleting and expiring.

use crate::clock::DAY_MICROS;
use crate::db::{
    add_fault, added, all_files, dropped, expired_rows, favorite_flipped, files_of, found, id_floor,
    ids_of, listed, opt_item, pin_flipped, placed, shown, touched, DbView,
};
use crate::laws::{law_list_is_complete, lemma_row_with};
use crate::models::{IndexView, ItemView, RowView};
use crate::outside::{json_read, json_written};
use crate::records::{
    ascending, entry_of, is_listing, item_of, law_listing_is_unique, listed_before, listing,
};
use crate::table::{lemma_filter_ascending, lemma_row_at, row_with};
use crate::text::text_lt;
use vstd::prelude::*;

verus! {

/// Of two texts that one comes first which has the lower code point where they first differ, or
/// which the other goes on after. Times in the one form that the history stores are compared so.
pub proof fn law_text_order(a: Seq<char>, b: Seq<char>)
    ensures
        text_lt(a, b) <==> exists|k: int|
            0 <= k <= a.len() && k < b.len() && #[trigger] a.take(k) == b.take(k) && (k == a.len() || (
            a[k] as u32) < (b[k] as u32)),
    decreases a.len(),
{
    if b.len() > 0 && a.len() > 0 {
        let (x, y) = (a.drop_first(), b.drop_first());
        if a[0] == b[0] {
            law_text_order(x, y);
            if text_lt(x, y) {
                let k = choose|k: int|
                    0 <= k <= x.len() && k < y.len() && #[trigger] x.take(k) == y.take(k) && (k
                        == x.len() || (x[k] as u32) < (y[k] as u32));
                assert(a.take(k + 1) =~= seq![a[0]] + x.take(k));
                assert(b.take(k + 1) =~= seq![b[0]] + y.take(k));
                assert(a.take(k + 1) == b.take(k + 1));
            }
            if exists|k: int|
                0 <= k <= a.len() && k < b.len() && #[trigger] a.take(k) == b.take(k) && (k == a.len()
                    || (a[k] as u32) < (b[k] as u32)) {
                let k = choose|k: int|
                    0 <= k <= a.len() && k < b.len() && #[trigger] a.take(k) == b.take(k) && (k
                        == a.len() || (a[k] as u32) < (b[k] as u32));
                assert(k > 0);
                assert(x.take(k - 1) =~= a.take(k).drop_first());
                assert(y.take(k - 1) =~= b.take(k).drop_first());
                assert(x.take(k - 1) == y.take(k - 1));
            }
        } else {
            assert(a.take(0) =~= b.take(0));
            if exists|k: int|
                0 <= k <= a.len() && k < b.len() && #[trigger] a.take(k) == b.take(k) && (k == a.len()
                    || (a[k] as u32) < (b[k] as u32)) {
                let k = choose|k: int|
                    0 <= k <= a.len() && k < b.len() && #[trigger] a.take(k) == b.take(k) && (k
                        == a.len() || (a[k] as u32) < (b[k] as u32));
                if k > 0 {
                    assert(a.take(k)[0] == b.take(k)[0]);
                }
            }
        }
    } else if b.len() > 0 {
        assert(a.take(0) =~= b.take(0));
    }
}

/// A day has twenty-four hours of sixty minutes of sixty seconds.
pub proof fn law_day_length()
    ensures
        DAY_MICROS == 24 * 60 * 60 * 1000 * 1000,
{
}

/// The record with an id is the row that bears it, and there is none where no row does.
pub proof fn law_record_by_id(d: DbView, id: i64, r: RowView)
    requires
        d.wf(),
    ensures
        row_with(d.rows, id) == Some(r) <==> d.rows.contains(r) && r.id == id,
        row_with(d.rows, id) is None <==> forall|i: int|
            0 <= i < d.rows.len() ==> (#[trigger] d.rows[i]).id != id,
{
    lemma_row_with(d.rows, id);
    if d.rows.contains(r) && r.id == id {
        let i = choose|i: int| 0 <= i < d.rows.len() && d.rows[i] == r;
        lemma_row_at(d.rows, i);
    }
    if row_with(d.rows, id) is Some {
        let x = row_with(d.rows, id)->0;
        let i = choose|i: int| 0 <= i < d.rows.len() && d.rows[i] == x;
        assert(d.rows[i].id == id);
    }
}

/// A record shows what its row holds. A flag is set where it is not zero, and a list of paths that
/// cannot be read is an empty one.
pub proof fn law_record_shows_its_row(r: RowView)
    ensures
        ({
            let i = item_of(r);
            &&& i.id == r.id
            &&& i.item_type == r.item_type
            &&& i.content == r.content
            &&& i.image_path == r.image_path
            &&& i.thumbnail_path == r.thumbnail_path
            &&& i.file_paths is Some <==> r.file_paths is Some
            &&& r.file_paths matches Some(j) ==> match json_read(j) {
                Some(l) => i.file_paths == Some(l),
                None => i.file_paths matches Some(l) && l.len() == 0,
            }
            &&& i.file_count == r.file_count
            &&& i.is_favorite <==> r.is_favorite != 0
            &&& i.is_pinned <==> r.is_pinned != 0
            &&& i.created_at == r.created_at
            &&& i.source_app == r.source_app
            &&& i.image_hash == r.image_hash
        }),
        opt_item(Some(r)) == Some(item_of(r)),
        opt_item(None) is None,
{
}

/// An added record comes after all others, which stay as they are, under the id after the largest
/// that was ever given. Its row holds what the record holds.
pub proof fn law_added_record(d: DbView, item: ItemView)
    requires
        d.last_id < i64::MAX,
    ensures
        ({
            let n = added(d, item);
            let r = n.rows.last();
            &&& n.rows.len() == d.rows.len() + 1
            &&& n.rows.drop_last() == d.rows
            &&& n.last_id == d.last_id + 1
            &&& n.data_dir == d.data_dir
            &&& r.id == d.last_id + 1
            &&& r.item_type == item.item_type
            &&& r.content == item.content
            &&& r.image_path == item.image_path
            &&& r.thumbnail_path == item.thumbnail_path
            &&& r.file_paths is Some <==> item.file_paths is Some
            &&& item.file_paths matches Some(l) ==> r.file_paths == Some(json_written(l))
            &&& r.file_count == item.file_count
            &&& r.is_favorite == if item.is_favorite { 1i32 } else { 0i32 }
            &&& r.is_pinned == if item.is_pinned { 1i32 } else { 0i32 }
            &&& r.created_at == item.created_at
            &&& r.source_app == item.source_app
            &&& r.image_hash == item.image_hash
        }),
        added(d, item).index.to_multiset() == d.index.to_multiset().insert(
            entry_of(added(d, item).rows.last()),
        ),
{
    let n = added(d, item);
    assert(n.rows.drop_last() =~= d.rows);
    lemma_placed_members(d.index, entry_of(n.rows.last()));
}

proof fn lemma_placed_members(index: Seq<IndexView>, e: IndexView)
    ensures
        placed(index, e).to_multiset() == index.to_multiset().insert(e),
    decreases index.len(),
{
    broadcast use vstd::seq_lib::group_to_multiset_ensures;

    if !(index.len() == 0 || index.last().rowid < e.rowid) {
        let init = index.drop_last();
        lemma_placed_members(init, e);
        assert(index =~= init.push(index.last()));
        assert(placed(index, e) == placed(init, e).push(index.last()));
        assert(init.to_multiset().insert(e).insert(index.last()) =~= init.to_multiset().insert(
            index.last(),
        ).insert(e));
    }
}

/// A record can be added as long as there is an id left, and the index is free under the next one.
pub proof fn law_adding_fails_for_want_of_an_id(d: DbView)
    ensures
        add_fault(d) is None <==> d.last_id < i64::MAX && forall|i: int|
            0 <= i < d.index.len() ==> (#[trigger] d.index[i]).rowid != d.last_id + 1,
{
    if add_fault(d) is None {
        assert forall|i: int| 0 <= i < d.index.len() implies (#[trigger] d.index[i]).rowid
            != d.last_id + 1 by {
            assert(!crate::db::has_entry(d.index, d.last_id + 1));
        }
    }
}

/// The largest id that was ever given is the larger of the one that the table remembers and that of
/// the last row.
pub proof fn law_ids_go_on(rows: Seq<RowView>, floor: i64)
    ensures
        id_floor(rows, floor) >= floor,
        rows.len() > 0 ==> id_floor(rows, floor) >= rows.last().id,
        id_floor(rows, floor) == floor || (rows.len() > 0 && id_floor(rows, floor)
            == rows.last().id),
{
}

/// To switch the favourite mark of a record makes it a favourite where it was none, and none where
/// it was one, and changes nothing else: no other field, no other record, nothing in the index.
pub proof fn law_favorite_switches_one_mark(d: DbView, id: i64, i: int)
    requires
        0 <= i < d.rows.len(),
    ensures
        ({
            let n = favorite_flipped(d, id);
            &&& n.rows.len() == d.rows.len()
            &&& n.index == d.index && n.last_id == d.last_id && n.data_dir == d.data_dir
            &&& d.rows[i].id != id ==> n.rows[i] == d.rows[i]
            &&& d.rows[i].id == id ==> n.rows[i] == (RowView {
                is_favorite: n.rows[i].is_favorite,
                ..d.rows[i]
            })
            &&& d.rows[i].id == id ==> n.rows[i].is_favorite == (if d.rows[i].is_favorite == 0 {
                1i32
            } else {
                0i32
            })
        }),
{
}

/// To switch the pin of a record pins it where it was not pinned, and the other way round, and
/// changes nothing else.
pub proof fn law_pin_switches_one_mark(d: DbView, id: i64, i: int)
    requires
        0 <= i < d.rows.len(),
    ensures
        ({
            let n = pin_flipped(d, id);
            &&& n.rows.len() == d.rows.len()
            &&& n.index == d.index && n.last_id == d.last_id && n.data_dir == d.data_dir
            &&& d.rows[i].id != id ==> n.rows[i] == d.rows[i]
            &&& d.rows[i].id == id ==> n.rows[i] == (RowView {
                is_pinned: n.rows[i].is_pinned,
                ..d.rows[i]
            })
            &&& d.rows[i].id == id ==> n.rows[i].is_pinned == (if d.rows[i].is_pinned == 0 {
                1i32
            } else {
                0i32
            })
        }),
{
}

/// To date a record anew changes its date and nothing else.
pub proof fn law_dating_changes_one_date(d: DbView, id: i64, now: Seq<char>, i: int)
    requires
        0 <= i < d.rows.len(),
    ensures
        ({
            let n = touched(d, id, now);
            &&& n.rows.len() == d.rows.len()
            &&& n.index == d.index && n.last_id == d.last_id && n.data_dir == d.data_dir
            &&& d.rows[i].id != id ==> n.rows[i] == d.rows[i]
            &&& d.rows[i].id == id ==> n.rows[i] == (RowView { created_at: now, ..d.rows[i] })
        }),
{
}

/// What is left of a table of rows, by membership and by number.
proof fn lemma_parted(rows: Seq<RowView>, p: spec_fn(RowView) -> bool, q: spec_fn(RowView) -> bool)
    requires
        forall|i: int| 0 <= i < rows.len() ==> p(#[trigger] rows[i]) != q(rows[i]),
    ensures
        rows.filter(p).len() + rows.filter(q).len() == rows.len(),
    decreases rows.len(),
{
    reveal(Seq::filter);
    if rows.len() > 0 {
        let init = rows.drop_last();
        assert forall|i: int| 0 <= i < init.len() implies p(#[trigger] init[i]) != q(init[i]) by {
            assert(init[i] == rows[i]);
        }
        lemma_parted(init, p, q);
        assert(p(rows[rows.len() - 1]) != q(rows[rows.len() - 1]));
    }
}

/// Deleting takes the records with the ids that are named, of whatever kind, with their entries in
/// the index, and no others.
pub proof fn law_deleting_takes_what_is_named(d: DbView, ids: Seq<i64>, r: RowView, e: IndexView)
    requires
        d.wf(),
    ensures
        dropped(d, ids).rows.contains(r) <==> d.rows.contains(r) && !ids.contains(r.id),
        dropped(d, ids).index.contains(e) <==> d.index.contains(e) && !ids.contains(e.rowid),
        dropped(d, ids).last_id == d.last_id,
        dropped(d, ids).data_dir == d.data_dir,
{
    lemma_filter_ascending(d.rows, |x: RowView| !ids.contains(x.id));
    lemma_entries_kept(d.index, ids, e);
}

proof fn lemma_entries_kept(index: Seq<IndexView>, ids: Seq<i64>, e: IndexView)
    ensures
        index.filter(|x: IndexView| !ids.contains(x.rowid)).contains(e) <==> index.contains(e)
            && !ids.contains(e.rowid),
    decreases index.len(),
{
    reveal(Seq::filter);
    let p = |x: IndexView| !ids.contains(x.rowid);
    if index.len() > 0 {
        let init = index.drop_last();
        let last = index.last();
        lemma_entries_kept(init, ids, e);
        let f = init.filter(p);
        let g = index.filter(p);
        if f.contains(e) {
            let k = choose|k: int| 0 <= k < f.len() && f[k] == e;
            assert(g[k] == e);
        }
        if g.contains(e) {
            let k = choose|k: int| 0 <= k < g.len() && g[k] == e;
            if k < f.len() {
                assert(f[k] == e);
            } else {
                assert(index[index.len() - 1] == e);
            }
        }
        if init.contains(e) {
            let k = choose|k: int| 0 <= k < init.len() && init[k] == e;
            assert(index[k] == e);
        }
        if index.contains(e) {
            let k = choose|k: int| 0 <= k < index.len() && index[k] == e;
            if k < init.len() {
                assert(init[k] == e);
            } else if p(last) {
                assert(g[g.len() - 1] == e);
            }
        }
    }
}

/// The files of a record are its picture and its thumbnail, as far as it has them. What is removed
/// with deleted records are their files, and no file of another record unless it is theirs too.
pub proof fn law_files_of_records(rows: Seq<RowView>, f: Seq<char>)
    ensures
        all_files(rows).contains(f) <==> exists|i: int|
            0 <= i < rows.len() && ((#[trigger] rows[i]).image_path == Some(f)
                || rows[i].thumbnail_path == Some(f)),
    decreases rows.len(),
{
    if rows.len() > 0 {
        let init = rows.drop_last();
        let r = rows.last();
        law_files_of_records(init, f);
        law_files_of_one_record(r, f);
        let a = all_files(init);
        let b = files_of(r);
        let all = all_files(rows);
        if a.contains(f) {
            let k = choose|k: int| 0 <= k < a.len() && a[k] == f;
            assert(all[k] == f);
            let i = choose|i: int|
                0 <= i < init.len() && ((#[trigger] init[i]).image_path == Some(f)
                    || init[i].thumbnail_path == Some(f));
            assert(rows[i] == init[i]);
        }
        if b.contains(f) {
            let k = choose|k: int| 0 <= k < b.len() && b[k] == f;
            assert(all[a.len() + k] == f);
            assert(rows[rows.len() - 1] == r);
        }
        if all.contains(f) {
            let k = choose|k: int| 0 <= k < all.len() && all[k] == f;
            if k < a.len() {
                assert(a[k] == f);
            } else {
                assert(b[k - a.len()] == f);
            }
        }
        if exists|i: int|
            0 <= i < rows.len() && ((#[trigger] rows[i]).image_path == Some(f)
                || rows[i].thumbnail_path == Some(f)) {
            let i = choose|i: int|
                0 <= i < rows.len() && ((#[trigger] rows[i]).image_path == Some(f)
                    || rows[i].thumbnail_path == Some(f));
            if i < init.len() {
                assert(init[i] == rows[i]);
            }
        }
    }
}

/// The files of a record: its picture and its thumbnail, as far as it has them, and no others.
pub proof fn law_files_of_one_record(r: RowView, f: Seq<char>)
    ensures
        files_of(r).contains(f) <==> r.image_path == Some(f) || r.thumbnail_path == Some(f),
{
    let l = files_of(r);
    if r.image_path == Some(f) {
        assert(l[0] == f);
    }
    if r.thumbnail_path == Some(f) {
        assert(l[l.len() - 1] == f);
    }
}

/// Cleaning up deletes every record that is no favourite and is dated before the cutoff, of whatever
/// type, and no record that is dated at or after it, and no favourite. Nothing is deleted but such
/// records and their entries, and what is counted is what is gone.
pub proof fn law_cleanup_goes_by_date(d: DbView, cutoff: Seq<char>, r: RowView)
    requires
        d.wf(),
    ensures
        ({
            let gone = expired_rows(d.rows, cutoff);
            let n = dropped(d, ids_of(gone));
            &&& n.rows.contains(r) <==> d.rows.contains(r) && (r.is_favorite != 0 || !text_lt(
                r.created_at,
                cutoff,
            ))
            &&& gone.contains(r) <==> d.rows.contains(r) && r.is_favorite == 0 && text_lt(
                r.created_at,
                cutoff,
            )
            &&& gone.len() + n.rows.len() == d.rows.len()
        }),
{
    let old_one = |x: RowView| x.is_favorite == 0 && text_lt(x.created_at, cutoff);
    let gone = expired_rows(d.rows, cutoff);
    let ids = ids_of(gone);
    let kept = |x: RowView| !ids.contains(x.id);
    let fresh = |x: RowView| !old_one(x);
    crate::db::lemma_same_filter(d.rows, |x: RowView| crate::db::expired(x, cutoff), old_one);
    lemma_filter_ascending(d.rows, old_one);
    lemma_filter_ascending(d.rows, kept);
    assert forall|i: int| 0 <= i < d.rows.len() implies old_one(#[trigger] d.rows[i]) != kept(
        d.rows[i],
    ) by {
        assert(d.rows.contains(d.rows[i]));
        if old_one(d.rows[i]) {
            assert(gone.contains(d.rows[i]));
            let k = choose|k: int| 0 <= k < gone.len() && gone[k] == d.rows[i];
            assert(ids[k] == d.rows[i].id);
        }
        if ids.contains(d.rows[i].id) {
            let k = choose|k: int| 0 <= k < ids.len() && ids[k] == d.rows[i].id;
            assert(gone.contains(gone[k]));
            let m = choose|m: int| 0 <= m < d.rows.len() && d.rows[m] == gone[k];
            assert(d.rows[m].id == d.rows[i].id);
            if m < i {
                assert(d.rows[m].id < d.rows[i].id);
            } else if i < m {
                assert(d.rows[i].id < d.rows[m].id);
            }
        }
    }
    lemma_parted(d.rows, old_one, kept);
    if d.rows.contains(r) {
        let i = choose|i: int| 0 <= i < d.rows.len() && d.rows[i] == r;
        assert(old_one(d.rows[i]) != kept(d.rows[i]));
    }
}

/// The list shows all records, or the favourites among them, of whatever type and whether pinned or
/// not.
pub proof fn law_list_shows_all_or_favorites(d: DbView, favorite_only: bool, r: RowView)
    requires
        d.wf(),
    ensures
        shown(d.rows, favorite_only).contains(r) <==> d.rows.contains(r) && (favorite_only
            ==> r.is_favorite == 1),
        !favorite_only ==> shown(d.rows, favorite_only) == d.rows,
        ascending(shown(d.rows, favorite_only)),
{
    let p = |x: RowView| !favorite_only || x.is_favorite == 1;
    lemma_filter_ascending(d.rows, p);
    if !favorite_only {
        lemma_all_kept(d.rows, p);
    }
}

proof fn lemma_all_kept(rows: Seq<RowView>, p: spec_fn(RowView) -> bool)
    requires
        forall|r: RowView| #[trigger] p(r),
    ensures
        rows.filter(p) == rows,
    decreases rows.len(),
{
    reveal(Seq::filter);
    if rows.len() > 0 {
        lemma_all_kept(rows.drop_last(), p);
        assert(rows.drop_last().push(rows.last()) =~= rows);
    }
}

/// A search shows the records with the ids that were found, and no others.
pub proof fn law_search_shows_the_hits(d: DbView, hits: Seq<i64>, r: RowView)
    requires
        d.wf(),
    ensures
        found(d.rows, hits).contains(r) <==> d.rows.contains(r) && hits.contains(r.id),
        ascending(found(d.rows, hits)),
{
    lemma_filter_ascending(d.rows, |x: RowView| hits.contains(x.id));
}

/// What is listed are the records of the rows, each once, pinned ones first, and among those alike
/// in that by date: the newest first, or, where that is asked for, the oldest.
pub proof fn law_listed_records(rows: Seq<RowView>, asc: bool, q: Seq<RowView>, i: int, j: int)
    requires
        is_listing(q, rows, asc),
        0 <= i < j < q.len(),
    ensures
        listed(rows, asc).len() == rows.len(),
        listed(rows, asc)[i] == item_of(q[i]),
        listed(rows, asc)[j] == item_of(q[j]),
        rows.contains(q[i]),
        q[i] != q[j],
        q[i].is_pinned >= q[j].is_pinned,
        q[i].is_pinned == q[j].is_pinned && q[i].created_at != q[j].created_at ==> (if asc {
            text_lt(q[i].created_at, q[j].created_at)
        } else {
            text_lt(q[j].created_at, q[i].created_at)
        }),
        q[i].is_pinned == q[j].is_pinned && q[i].created_at == q[j].created_at ==> q[i].id < q[j].id,
{
    let l = listing(rows, asc);
    law_listing_is_unique(l, q, rows, asc);
    law_list_is_complete(q, rows, asc, q[i]);
    assert(q.contains(q[i]));
    assert(listed_before(q[i], q[j], asc));
}

} // verus!
