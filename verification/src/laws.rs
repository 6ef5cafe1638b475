//! What holds of the history across its operations.

use crate::db::{
    added, dropped, expired, expired_rows, favorite_flipped, found, is_file, is_image, is_text,
    pin_flipped, placed, touched, DbView,
};
use crate::fts::{
    cjk, indexed, law_han_query_words, law_han_substring_is_found, match_query, quoted,
};
use crate::models::{IndexView, ItemView, RowView};
use crate::outside::{json_read, json_written};
use crate::records::{entry_of, is_listing, listed_before, row_of};
use crate::table::{first_id, lemma_filter_ascending, lemma_row_at, row_with};
use crate::text::{lemma_text_lt_irreflexive, lemma_text_lt_transitive, text_lt, words};
use vstd::prelude::*;

verus! {

/// A row with a given id is in the rows, and the only one with it.
pub proof fn lemma_row_with(rows: Seq<RowView>, id: i64)
    ensures
        row_with(rows, id) matches Some(r) ==> rows.contains(r) && r.id == id,
        row_with(rows, id) is None ==> forall|k: int|
            0 <= k < rows.len() ==> (#[trigger] rows[k]).id != id,
{
    if row_with(rows, id) is Some {
        let k = choose|k: int| 0 <= k < rows.len() && (#[trigger] rows[k]).id == id;
        assert(rows[k].id == id);
    }
}

/// A new id was never given before: it is above that of every record.
pub proof fn law_new_id_is_fresh(d: DbView, k: int)
    requires
        d.wf(),
        0 <= k < d.rows.len(),
    ensures
        d.rows[k].id < d.last_id + 1,
{
}

/// Deleting records gives none of their ids free again.
pub proof fn law_deleted_ids_stay_used(d: DbView, ids: Seq<i64>)
    ensures
        dropped(d, ids).last_id == d.last_id,
{
}

/// The first match among rows with one more at the end is the first match before, or else the new
/// row.
pub proof fn lemma_first_push(rows: Seq<RowView>, r: RowView, p: spec_fn(RowView) -> bool)
    ensures
        first_id(rows.push(r), p) == match first_id(rows, p) {
            Some(id) => Some(id),
            None => if p(r) {
                Some(r.id)
            } else {
                None
            },
        },
    decreases rows.len(),
{
    let q = rows.push(r);
    if rows.len() == 0 {
        assert(q.drop_first() =~= seq![]);
        assert(first_id(q.drop_first(), p) is None);
    } else {
        assert(q[0] == rows[0]);
        assert(q.drop_first() =~= rows.drop_first().push(r));
        lemma_first_push(rows.drop_first(), r, p);
    }
}

/// A text that was added is found again: a later copy of it meets a record.
pub proof fn law_added_text_is_found(d: DbView, item: ItemView, content: Seq<char>)
    requires
        d.wf(),
        d.last_id < i64::MAX,
        item.item_type == "text"@,
        item.content == Some(content),
    ensures
        first_id(added(d, item).rows, |r: RowView| is_text(r, content)) is Some,
        first_id(d.rows, |r: RowView| is_text(r, content)) is None ==> first_id(
            added(d, item).rows,
            |r: RowView| is_text(r, content),
        ) == Some((d.last_id + 1) as i64),
{
    lemma_first_push(
        d.rows,
        row_of((d.last_id + 1) as i64, item),
        |r: RowView| is_text(r, content),
    );
}

/// A picture that was added is found again by its fingerprint.
pub proof fn law_added_image_is_found(d: DbView, item: ItemView, hash: Seq<char>)
    requires
        d.wf(),
        d.last_id < i64::MAX,
        item.item_type == "image"@,
        item.image_hash == Some(hash),
    ensures
        first_id(added(d, item).rows, |r: RowView| is_image(r, hash)) is Some,
        first_id(d.rows, |r: RowView| is_image(r, hash)) is None ==> first_id(
            added(d, item).rows,
            |r: RowView| is_image(r, hash),
        ) == Some((d.last_id + 1) as i64),
{
    lemma_first_push(
        d.rows,
        row_of((d.last_id + 1) as i64, item),
        |r: RowView| is_image(r, hash),
    );
}

/// A list of files that was added is found again, in whatever order and however often its paths
/// come, given that stored lists read back as they were.
pub proof fn law_added_files_are_found(
    d: DbView,
    item: ItemView,
    paths: Seq<Seq<char>>,
    other: Seq<Seq<char>>,
)
    requires
        d.wf(),
        d.last_id < i64::MAX,
        item.item_type == "file"@,
        item.file_paths == Some(paths),
        json_read(json_written(paths)) == Some(paths),
        paths.to_set() == other.to_set(),
    ensures
        first_id(added(d, item).rows, |r: RowView| is_file(r, other)) is Some,
        first_id(d.rows, |r: RowView| is_file(r, other)) is None ==> first_id(
            added(d, item).rows,
            |r: RowView| is_file(r, other),
        ) == Some((d.last_id + 1) as i64),
{
    lemma_first_push(
        d.rows,
        row_of((d.last_id + 1) as i64, item),
        |r: RowView| is_file(r, other),
    );
}

/// A deleted record is gone, and every other record is as it was.
pub proof fn law_delete_takes_one(d: DbView, id: i64, other: i64)
    requires
        d.wf(),
    ensures
        row_with(dropped(d, seq![id]).rows, id) is None,
        other != id ==> row_with(dropped(d, seq![id]).rows, other) == row_with(d.rows, other),
{
    let ids = seq![id];
    let p = |r: RowView| !ids.contains(r.id);
    let rest = d.rows.filter(p);
    lemma_filter_ascending(d.rows, p);
    lemma_row_with(rest, id);
    if row_with(rest, id) is Some {
        assert(ids[0] == id);
    }
    if other != id {
        lemma_row_with(rest, other);
        lemma_row_with(d.rows, other);
        if row_with(rest, other) is Some {
            let r = row_with(rest, other)->0;
            assert(d.rows.contains(r));
            let k = choose|k: int| 0 <= k < d.rows.len() && d.rows[k] == r;
            lemma_row_at(d.rows, k);
        } else if row_with(d.rows, other) is Some {
            let r = row_with(d.rows, other)->0;
            assert(p(r));
            assert(rest.contains(r));
            let k = choose|k: int| 0 <= k < rest.len() && rest[k] == r;
            assert(rest[k].id == other);
        }
    }
}

/// To switch the favourite mark of a record twice is to leave it as it was.
pub proof fn law_favorite_twice(d: DbView, id: i64)
    requires
        forall|i: int|
            0 <= i < d.rows.len() ==> (#[trigger] d.rows[i]).is_favorite == 0
                || d.rows[i].is_favorite == 1,
    ensures
        favorite_flipped(favorite_flipped(d, id), id) == d,
{
    assert(favorite_flipped(favorite_flipped(d, id), id).rows =~= d.rows);
}

/// To switch the pin of a record twice is to leave it as it was.
pub proof fn law_pin_twice(d: DbView, id: i64)
    requires
        forall|i: int|
            0 <= i < d.rows.len() ==> (#[trigger] d.rows[i]).is_pinned == 0 || d.rows[i].is_pinned
                == 1,
    ensures
        pin_flipped(pin_flipped(d, id), id) == d,
{
    assert(pin_flipped(pin_flipped(d, id), id).rows =~= d.rows);
}

/// In every list pinned records come before the others, and among those alike in that, the times
/// run in the direction asked for.
pub proof fn law_list_order(q: Seq<RowView>, rows: Seq<RowView>, asc: bool, i: int, j: int)
    requires
        is_listing(q, rows, asc),
        0 <= i < j < q.len(),
    ensures
        q[i].is_pinned >= q[j].is_pinned,
        q[i].is_pinned == q[j].is_pinned && asc ==> !text_lt(q[j].created_at, q[i].created_at),
        q[i].is_pinned == q[j].is_pinned && !asc ==> !text_lt(q[i].created_at, q[j].created_at),
{
    assert(listed_before(q[i], q[j], asc));
    let (x, y) = (q[i].created_at, q[j].created_at);
    if text_lt(x, y) && text_lt(y, x) {
        lemma_text_lt_transitive(x, y, x);
    }
    lemma_text_lt_irreflexive(x);
}

/// A list shows every record that it is over, each once.
pub proof fn law_list_is_complete(q: Seq<RowView>, rows: Seq<RowView>, asc: bool, r: RowView)
    requires
        is_listing(q, rows, asc),
    ensures
        q.len() == rows.len(),
        q.contains(r) == rows.contains(r),
{
    broadcast use vstd::seq_lib::group_to_multiset_ensures;

    assert(q.len() == q.to_multiset().len());
    assert(rows.len() == rows.to_multiset().len());
    assert(q.contains(r) == (q.to_multiset().count(r) > 0));
    assert(rows.contains(r) == (rows.to_multiset().count(r) > 0));
}

/// A record that is dated later than all others comes before every one that is not pinned above
/// it: a repeated copy moves to the top, below the pinned records.
pub proof fn law_touched_record_is_first(
    d: DbView,
    id: i64,
    now: Seq<char>,
    q: Seq<RowView>,
    t: int,
    k: int,
)
    requires
        d.wf(),
        is_listing(q, touched(d, id, now).rows, false),
        0 <= t < q.len(),
        0 <= k < q.len(),
        q[t].id == id,
        q[k].id != id,
        q[k].is_pinned <= q[t].is_pinned,
        forall|i: int|
            0 <= i < d.rows.len() && d.rows[i].id != id ==> text_lt(
                (#[trigger] d.rows[i]).created_at,
                now,
            ),
    ensures
        t < k,
{
    let rows = touched(d, id, now).rows;
    law_list_is_complete(q, rows, false, q[t]);
    law_list_is_complete(q, rows, false, q[k]);
    assert(q.contains(q[t]));
    assert(q.contains(q[k]));
    let a = choose|a: int| 0 <= a < rows.len() && rows[a] == q[t];
    let b = choose|b: int| 0 <= b < rows.len() && rows[b] == q[k];
    assert(rows[a].created_at == now);
    assert(rows[b] == d.rows[b]);
    assert(text_lt(d.rows[b].created_at, now));
    if k < t {
        assert(listed_before(q[k], q[t], false));
        lemma_text_lt_irreflexive(now);
        if text_lt(now, q[k].created_at) {
            lemma_text_lt_transitive(now, q[k].created_at, now);
        }
    }
}

/// No favourite is ever deleted for its age.
pub proof fn law_cleanup_spares_favorites(d: DbView, cutoff: Seq<char>, r: RowView)
    requires
        d.wf(),
        d.rows.contains(r),
        r.is_favorite != 0,
    ensures
        d.rows.filter(|r: RowView| !expired(r, cutoff)).contains(r),
        !expired_rows(d.rows, cutoff).contains(r),
{
    lemma_filter_ascending(d.rows, |r: RowView| !expired(r, cutoff));
    lemma_filter_ascending(d.rows, |r: RowView| expired(r, cutoff));
}

/// No row is listed twice.
pub proof fn law_list_has_no_row_twice(
    q: Seq<RowView>,
    rows: Seq<RowView>,
    asc: bool,
    i: int,
    j: int,
)
    requires
        is_listing(q, rows, asc),
        0 <= i < j < q.len(),
    ensures
        q[i] != q[j],
{
    assert(listed_before(q[i], q[j], asc));
}

/// Whether the content of an index entry has all words that a query asks for.
pub open spec fn answers(e: IndexView, query: Seq<char>) -> bool {
    forall|w: Seq<char>| #[trigger]
        words(indexed(query)).contains(w) ==> words(e.content).contains(w)
}

/// Whether `hits` leaves out no entry of the index whose content answers a query.
pub open spec fn finds_all(index: Seq<IndexView>, query: Seq<char>, hits: Seq<i64>) -> bool {
    forall|i: int|
        0 <= i < index.len() && answers(#[trigger] index[i], query) ==> hits.contains(
            index[i].rowid,
        )
}

/// In a history whose index is in step, every record has its entry.
pub proof fn law_every_record_is_indexed(d: DbView, r: RowView)
    requires
        d.in_sync(),
        d.rows.contains(r),
    ensures
        d.index.contains(entry_of(r)),
{
    let i = choose|i: int| 0 <= i < d.rows.len() && d.rows[i] == r;
    assert(d.index[i] == entry_of(r));
}

/// A record that was added has its entry.
pub proof fn law_added_record_is_indexed(d: DbView, item: ItemView)
    requires
        d.last_id < i64::MAX,
    ensures
        added(d, item).rows.contains(row_of((d.last_id + 1) as i64, item)),
        added(d, item).index.contains(entry_of(row_of((d.last_id + 1) as i64, item))),
{
    let r = row_of((d.last_id + 1) as i64, item);
    assert(added(d, item).rows[d.rows.len() as int] == r);
    lemma_placed_contains(d.index, entry_of(r));
}

proof fn lemma_placed_contains(index: Seq<IndexView>, e: IndexView)
    ensures
        placed(index, e).contains(e),
    decreases index.len(),
{
    if index.len() == 0 || index.last().rowid < e.rowid {
        assert(placed(index, e)[index.len() as int] == e);
    } else {
        let m = placed(index.drop_last(), e);
        lemma_placed_contains(index.drop_last(), e);
        let k = choose|k: int| 0 <= k < m.len() && m[k] == e;
        assert(placed(index, e)[k] == e);
    }
}

/// A record with its entry in the index is found by every query made of Han characters that stand
/// next to each other in its content: the expression for the query is not empty, the entry answers
/// it, and where the index leaves out no entry that does, the list of what was found shows the
/// record.
pub proof fn law_han_substring_finds_the_record(
    d: DbView,
    r: RowView,
    content: Seq<char>,
    from: int,
    to: int,
    hits: Seq<i64>,
    q: Seq<RowView>,
)
    requires
        d.wf(),
        d.rows.contains(r),
        d.index.contains(entry_of(r)),
        r.content == Some(content),
        0 <= from < to <= content.len(),
        forall|i: int| from <= i < to ==> cjk(#[trigger] content[i]),
        finds_all(d.index, content.subrange(from, to), hits),
        is_listing(q, found(d.rows, hits), false),
    ensures
        match_query(content.subrange(from, to)).len() > 0,
        answers(entry_of(r), content.subrange(from, to)),
        q.contains(r),
{
    let query = content.subrange(from, to);
    law_han_substring_is_found(content, from, to);
    assert forall|i: int| 0 <= i < query.len() implies cjk(#[trigger] query[i]) by {
        assert(query[i] == content[from + i]);
    }
    law_han_query_words(query);
    let ws = words(indexed(query)).map_values(|t: Seq<char>| quoted(t));
    assert(ws.len() == query.len());
    assert(ws.last().len() > 0);
    assert(match_query(query).len() >= ws.last().len());
    let k = choose|k: int| 0 <= k < d.index.len() && d.index[k] == entry_of(r);
    assert(answers(d.index[k], query));
    lemma_filter_ascending(d.rows, |x: RowView| hits.contains(x.id));
    law_list_is_complete(q, found(d.rows, hits), false, r);
}

} // verus!
