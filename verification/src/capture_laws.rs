//! What becomes of what is copied: when there is a new record, what it holds, and what happens to a
//! record that holds the same already.

use crate::db::{added, expired_rows, shown, DbView};
use crate::history_laws::{law_added_record, law_cleanup_goes_by_date, law_dating_changes_one_date};
use crate::models::{ItemView, RowView};
use crate::monitor::{
    after_copied_files, after_copied_text, all_pictures, file_item, image_item, known_files,
    known_image, known_text, picture_path, refresh_outcome, refreshed, text_item, OutcomeView,
};
use crate::outside::{json_read, json_written};
use crate::table::first_id;
use crate::text::text_lt;
use crate::winpath::{lemma_stem, single_name, stem};
use vstd::prelude::*;

verus! {

/// A row that holds the text `text`.
pub open spec fn holds_text(r: RowView, text: Seq<char>) -> bool {
    r.item_type == "text"@ && r.content == Some(text)
}

/// A row that holds a picture with the fingerprint `hash`.
pub open spec fn holds_picture(r: RowView, hash: Seq<char>) -> bool {
    r.item_type == "image"@ && r.image_hash == Some(hash)
}

/// A row that holds the files `paths`, in whatever order and however often each is named.
pub open spec fn holds_files(r: RowView, paths: Seq<Seq<char>>) -> bool {
    &&& r.item_type == "file"@
    &&& r.file_paths matches Some(j)
    &&& json_read(j) matches Some(l)
    &&& forall|p: Seq<char>| #[trigger] l.contains(p) <==> paths.contains(p)
}

/// A record that nobody has marked, dated to `now`: neither a favourite nor pinned.
pub open spec fn unmarked(r: RowView, now: Seq<char>) -> bool {
    r.is_favorite == 0 && r.is_pinned == 0 && r.created_at == now
}

proof fn lemma_first(rows: Seq<RowView>, p: spec_fn(RowView) -> bool, i: int)
    requires
        0 <= i < rows.len(),
        p(rows[i]),
        forall|j: int| 0 <= j < i ==> !p(#[trigger] rows[j]),
    ensures
        first_id(rows, p) == Some(rows[i].id),
    decreases rows.len(),
{
    if i > 0 {
        assert(!p(rows[0]));
        let rest = rows.drop_first();
        assert(rest[i - 1] == rows[i]);
        assert forall|j: int| 0 <= j < i - 1 implies !p(#[trigger] rest[j]) by {
            assert(rest[j] == rows[j + 1]);
        }
        lemma_first(rest, p, i - 1);
    }
}

proof fn lemma_none(rows: Seq<RowView>, p: spec_fn(RowView) -> bool)
    requires
        forall|j: int| 0 <= j < rows.len() ==> !p(#[trigger] rows[j]),
    ensures
        first_id(rows, p) is None,
    decreases rows.len(),
{
    if rows.len() > 0 {
        assert(!p(rows[0]));
        let rest = rows.drop_first();
        assert forall|j: int| 0 <= j < rest.len() implies !p(#[trigger] rest[j]) by {
            assert(rest[j] == rows[j + 1]);
        }
        lemma_none(rest, p);
    }
}

/// A new row that is no favourite is not among the favourites, and expires once its date lies before
/// the cutoff.
proof fn lemma_new_row(d: DbView, n: DbView, cutoff: Seq<char>)
    requires
        d.wf(),
        n.rows.len() == d.rows.len() + 1,
        n.rows.drop_last() == d.rows,
        n.rows.last().is_favorite == 0,
        n.rows.last().id == d.last_id + 1,
        n.last_id == d.last_id + 1,
    ensures
        shown(n.rows, true) == shown(d.rows, true),
        expired_rows(n.rows, cutoff).contains(n.rows.last()) <==> text_lt(
            n.rows.last().created_at,
            cutoff,
        ),
{
    reveal(Seq::filter);
    let last = n.rows.last();
    let m = DbView { index: seq![], ..n };
    assert forall|i: int, j: int| 0 <= i < j < m.rows.len() implies (#[trigger] m.rows[i]).id < (
    #[trigger] m.rows[j]).id by {
        assert(m.rows[i] == n.rows.drop_last()[i]);
        if j < d.rows.len() {
            assert(m.rows[j] == n.rows.drop_last()[j]);
        }
    }
    assert forall|i: int| 0 <= i < m.rows.len() implies (#[trigger] m.rows[i]).id <= m.last_id by {
        if i < d.rows.len() {
            assert(m.rows[i] == n.rows.drop_last()[i]);
        }
    }
    law_cleanup_goes_by_date(m, cutoff, last);
    assert(n.rows[n.rows.len() - 1] == last);
}

/// A text that no record holds, copied for the first time, becomes one record at the end: it holds
/// the text and nothing else, and nobody has marked it. All other records stay as they are, the
/// favourites are the same as before, and the record expires by its date.
pub proof fn law_new_text_becomes_a_record(
    d: DbView,
    text: Seq<char>,
    internal: Seq<i64>,
    now: Seq<char>,
    cutoff: Seq<char>,
)
    requires
        d.wf(),
        d.last_id < i64::MAX,
        text.len() > 0,
        forall|i: int| 0 <= i < d.rows.len() ==> !holds_text(#[trigger] d.rows[i], text),
    ensures
        ({
            let n = after_copied_text(d, text, false, internal, now);
            let r = n.rows.last();
            &&& n.rows.len() == d.rows.len() + 1
            &&& n.rows.drop_last() == d.rows
            &&& n.last_id == d.last_id + 1
            &&& r.id == d.last_id + 1
            &&& holds_text(r, text) && unmarked(r, now)
            &&& r.image_path is None && r.thumbnail_path is None && r.image_hash is None
            &&& r.file_paths is None && r.file_count == 0 && r.source_app is None
            &&& shown(n.rows, true) == shown(d.rows, true)
            &&& expired_rows(n.rows, cutoff).contains(r) <==> text_lt(now, cutoff)
        }),
{
    let p = |r: RowView| crate::db::is_text(r, text);
    assert forall|j: int| 0 <= j < d.rows.len() implies !p(#[trigger] d.rows[j]) by {
        assert(!holds_text(d.rows[j], text));
    }
    lemma_none(d.rows, p);
    let n = after_copied_text(d, text, false, internal, now);
    law_added_record(d, text_item(text, now));
    lemma_new_row(d, n, cutoff);
}

/// A copy of a text that a record holds makes no record: the first such record is dated to now, and
/// so comes to the top, unless the program itself has put it on the clipboard. Nothing else changes,
/// whether the copy before was the same or not.
pub proof fn law_known_text_is_dated_anew(
    d: DbView,
    text: Seq<char>,
    repeated: bool,
    internal: Seq<i64>,
    now: Seq<char>,
    i: int,
    k: int,
)
    requires
        d.wf(),
        text.len() > 0,
        0 <= i < d.rows.len(),
        holds_text(d.rows[i], text),
        forall|j: int| 0 <= j < i ==> !holds_text(#[trigger] d.rows[j], text),
        0 <= k < d.rows.len(),
    ensures
        ({
            let n = after_copied_text(d, text, repeated, internal, now);
            &&& n.rows.len() == d.rows.len()
            &&& n.index == d.index && n.last_id == d.last_id && n.data_dir == d.data_dir
            &&& k != i ==> n.rows[k] == d.rows[k]
            &&& n.rows[i] == if internal.contains(d.rows[i].id) {
                d.rows[i]
            } else {
                RowView { created_at: now, ..d.rows[i] }
            }
        }),
{
    let p = |r: RowView| crate::db::is_text(r, text);
    assert(p(d.rows[i]));
    assert forall|j: int| 0 <= j < i implies !p(#[trigger] d.rows[j]) by {
        assert(!holds_text(d.rows[j], text));
    }
    lemma_first(d.rows, p, i);
    lemma_refreshed(d, i, internal, now, k);
}

proof fn lemma_refreshed(d: DbView, i: int, internal: Seq<i64>, now: Seq<char>, k: int)
    requires
        d.wf(),
        0 <= i < d.rows.len(),
        0 <= k < d.rows.len(),
    ensures
        ({
            let n = refreshed(d, d.rows[i].id, internal, now);
            &&& n.rows.len() == d.rows.len()
            &&& n.index == d.index && n.last_id == d.last_id && n.data_dir == d.data_dir
            &&& k != i ==> n.rows[k] == d.rows[k]
            &&& n.rows[i] == if internal.contains(d.rows[i].id) {
                d.rows[i]
            } else {
                RowView { created_at: now, ..d.rows[i] }
            }
        }),
{
    law_dating_changes_one_date(d, d.rows[i].id, now, i);
    law_dating_changes_one_date(d, d.rows[i].id, now, k);
    if k < i {
        assert(d.rows[k].id < d.rows[i].id);
    } else if i < k {
        assert(d.rows[i].id < d.rows[k].id);
    }
}

/// An empty text, and one that was just copied but that no record holds any longer, leave the history
/// as it is.
pub proof fn law_no_text_to_record(
    d: DbView,
    text: Seq<char>,
    repeated: bool,
    internal: Seq<i64>,
    now: Seq<char>,
)
    requires
        text.len() == 0 || (repeated && forall|i: int|
            0 <= i < d.rows.len() ==> !holds_text(#[trigger] d.rows[i], text)),
    ensures
        after_copied_text(d, text, repeated, internal, now) == d,
{
    let p = |r: RowView| crate::db::is_text(r, text);
    if text.len() > 0 {
        assert forall|j: int| 0 <= j < d.rows.len() implies !p(#[trigger] d.rows[j]) by {
            assert(!holds_text(d.rows[j], text));
        }
        lemma_none(d.rows, p);
    }
}

proof fn lemma_same_files(r: RowView, paths: Seq<Seq<char>>)
    ensures
        crate::db::is_file(r, paths) == holds_files(r, paths),
{
    if r.file_paths is Some && json_read(r.file_paths->0) is Some {
        let l = json_read(r.file_paths->0)->0;
        if l.to_set() == paths.to_set() {
            assert forall|p: Seq<char>| #[trigger] l.contains(p) <==> paths.contains(p) by {
                assert(l.to_set().contains(p) == paths.to_set().contains(p));
            }
        }
        if forall|p: Seq<char>| #[trigger] l.contains(p) <==> paths.contains(p) {
            assert(l.to_set() =~= paths.to_set());
        }
    }
}

/// Files that no record holds become one record at the end: it holds all their paths in their order,
/// with how many there are and the first of them as where they came from, and nobody has marked it.
pub proof fn law_new_files_become_a_record(
    d: DbView,
    paths: Seq<Seq<char>>,
    internal: Seq<i64>,
    now: Seq<char>,
    cutoff: Seq<char>,
)
    requires
        d.wf(),
        d.last_id < i64::MAX,
        paths.len() <= i64::MAX,
        forall|i: int| 0 <= i < d.rows.len() ==> !holds_files(#[trigger] d.rows[i], paths),
    ensures
        ({
            let n = after_copied_files(d, paths, internal, now);
            let r = n.rows.last();
            &&& n.rows.len() == d.rows.len() + 1
            &&& n.rows.drop_last() == d.rows
            &&& n.last_id == d.last_id + 1
            &&& r.id == d.last_id + 1
            &&& r.item_type == "file"@ && r.file_paths == Some(json_written(paths))
            &&& r.file_count == paths.len()
            &&& r.source_app is Some <==> paths.len() > 0
            &&& r.source_app matches Some(p) ==> p == paths[0]
            &&& unmarked(r, now)
            &&& r.content is None && r.image_path is None && r.thumbnail_path is None
            &&& r.image_hash is None
            &&& shown(n.rows, true) == shown(d.rows, true)
            &&& expired_rows(n.rows, cutoff).contains(r) <==> text_lt(now, cutoff)
        }),
{
    let p = |r: RowView| crate::db::is_file(r, paths);
    assert forall|j: int| 0 <= j < d.rows.len() implies !p(#[trigger] d.rows[j]) by {
        assert(!holds_files(d.rows[j], paths));
        lemma_same_files(d.rows[j], paths);
    }
    lemma_none(d.rows, p);
    let n = after_copied_files(d, paths, internal, now);
    law_added_record(d, file_item(paths, now));
    lemma_new_row(d, n, cutoff);
}

/// A copy of files that a record holds makes no record: the first such record is dated to now, unless
/// the program itself has put it on the clipboard, and nothing else changes.
pub proof fn law_known_files_are_dated_anew(
    d: DbView,
    paths: Seq<Seq<char>>,
    internal: Seq<i64>,
    now: Seq<char>,
    i: int,
    k: int,
)
    requires
        d.wf(),
        0 <= i < d.rows.len(),
        holds_files(d.rows[i], paths),
        forall|j: int| 0 <= j < i ==> !holds_files(#[trigger] d.rows[j], paths),
        0 <= k < d.rows.len(),
    ensures
        ({
            let n = after_copied_files(d, paths, internal, now);
            &&& n.rows.len() == d.rows.len()
            &&& n.index == d.index && n.last_id == d.last_id && n.data_dir == d.data_dir
            &&& k != i ==> n.rows[k] == d.rows[k]
            &&& n.rows[i] == if internal.contains(d.rows[i].id) {
                d.rows[i]
            } else {
                RowView { created_at: now, ..d.rows[i] }
            }
        }),
{
    let p = |r: RowView| crate::db::is_file(r, paths);
    lemma_same_files(d.rows[i], paths);
    assert(p(d.rows[i]));
    assert forall|j: int| 0 <= j < i implies !p(#[trigger] d.rows[j]) by {
        assert(!holds_files(d.rows[j], paths));
        lemma_same_files(d.rows[j], paths);
    }
    lemma_first(d.rows, p, i);
    lemma_refreshed(d, i, internal, now, k);
}

/// A picture is known where a record of a picture has its fingerprint, and the first such record is
/// the one that is meant.
pub proof fn law_picture_is_known_by_its_fingerprint(d: DbView, hash: Seq<char>, i: int)
    requires
        0 <= i <= d.rows.len(),
        forall|j: int| 0 <= j < i ==> !holds_picture(#[trigger] d.rows[j], hash),
        i < d.rows.len() ==> holds_picture(d.rows[i], hash),
    ensures
        known_image(d, hash) == if i < d.rows.len() {
            Some(d.rows[i].id)
        } else {
            None
        },
{
    let p = |r: RowView| crate::db::is_image(r, hash);
    assert forall|j: int| 0 <= j < i implies !p(#[trigger] d.rows[j]) by {
        assert(!holds_picture(d.rows[j], hash));
    }
    if i < d.rows.len() {
        assert(p(d.rows[i]));
        lemma_first(d.rows, p, i);
    } else {
        lemma_none(d.rows, p);
    }
}

/// A text is known where a record of a text has that content, and the first such record is the one
/// that is meant.
pub proof fn law_text_is_known_by_its_content(d: DbView, text: Seq<char>, i: int)
    requires
        0 <= i <= d.rows.len(),
        forall|j: int| 0 <= j < i ==> !holds_text(#[trigger] d.rows[j], text),
        i < d.rows.len() ==> holds_text(d.rows[i], text),
    ensures
        known_text(d, text) == if i < d.rows.len() {
            Some(d.rows[i].id)
        } else {
            None
        },
{
    let p = |r: RowView| crate::db::is_text(r, text);
    assert forall|j: int| 0 <= j < i implies !p(#[trigger] d.rows[j]) by {
        assert(!holds_text(d.rows[j], text));
    }
    if i < d.rows.len() {
        assert(p(d.rows[i]));
        lemma_first(d.rows, p, i);
    } else {
        lemma_none(d.rows, p);
    }
}

/// Files are known where a record of files has the same paths, and the first such record is the one
/// that is meant.
pub proof fn law_files_are_known_by_their_paths(d: DbView, paths: Seq<Seq<char>>, i: int)
    requires
        0 <= i <= d.rows.len(),
        forall|j: int| 0 <= j < i ==> !holds_files(#[trigger] d.rows[j], paths),
        i < d.rows.len() ==> holds_files(d.rows[i], paths),
    ensures
        known_files(d, paths) == if i < d.rows.len() {
            Some(d.rows[i].id)
        } else {
            None
        },
{
    let p = |r: RowView| crate::db::is_file(r, paths);
    assert forall|j: int| 0 <= j < i implies !p(#[trigger] d.rows[j]) by {
        assert(!holds_files(d.rows[j], paths));
        lemma_same_files(d.rows[j], paths);
    }
    if i < d.rows.len() {
        lemma_same_files(d.rows[i], paths);
        assert(p(d.rows[i]));
        lemma_first(d.rows, p, i);
    } else {
        lemma_none(d.rows, p);
    }
}

/// The record that is meant is dated to now, unless the program itself has put it on the clipboard:
/// then nothing is done and nothing is told.
pub proof fn law_known_record_is_dated_anew(
    d: DbView,
    internal: Seq<i64>,
    now: Seq<char>,
    i: int,
    k: int,
)
    requires
        d.wf(),
        0 <= i < d.rows.len(),
        0 <= k < d.rows.len(),
    ensures
        ({
            let n = refreshed(d, d.rows[i].id, internal, now);
            &&& n.rows.len() == d.rows.len()
            &&& n.index == d.index && n.last_id == d.last_id && n.data_dir == d.data_dir
            &&& k != i ==> n.rows[k] == d.rows[k]
            &&& n.rows[i] == if internal.contains(d.rows[i].id) {
                d.rows[i]
            } else {
                RowView { created_at: now, ..d.rows[i] }
            }
            &&& refresh_outcome(d.rows[i].id, internal) == if internal.contains(d.rows[i].id) {
                OutcomeView::Nothing
            } else {
                OutcomeView::Touched(d.rows[i].id)
            }
        }),
{
    lemma_refreshed(d, i, internal, now, k);
}

/// A picture that is taken in becomes a record of the place where it is stored, of its fingerprint
/// and of where it came from, that nobody has marked.
pub proof fn law_new_picture_becomes_a_record(
    d: DbView,
    path: Seq<char>,
    hash: Seq<char>,
    source: Option<Seq<char>>,
    now: Seq<char>,
    cutoff: Seq<char>,
)
    requires
        d.wf(),
        d.last_id < i64::MAX,
    ensures
        ({
            let n = added(d, image_item(path, hash, source, now));
            let r = n.rows.last();
            &&& n.rows.len() == d.rows.len() + 1
            &&& n.rows.drop_last() == d.rows
            &&& r.id == d.last_id + 1
            &&& holds_picture(r, hash) && unmarked(r, now)
            &&& r.image_path == Some(path) && r.thumbnail_path is None && r.source_app == source
            &&& r.content is None && r.file_paths is None && r.file_count == 0
            &&& shown(n.rows, true) == shown(d.rows, true)
            &&& expired_rows(n.rows, cutoff).contains(r) <==> text_lt(now, cutoff)
        }),
{
    let n = added(d, image_item(path, hash, source, now));
    law_added_record(d, image_item(path, hash, source, now));
    lemma_new_row(d, n, cutoff);
}

/// What is told of a new record is what it holds: the item under its id, with no mark.
pub proof fn law_told_records(
    text: Seq<char>,
    paths: Seq<Seq<char>>,
    path: Seq<char>,
    hash: Seq<char>,
    source: Option<Seq<char>>,
    now: Seq<char>,
)
    requires
        paths.len() <= i64::MAX,
    ensures
        text_item(text, now) == (ItemView {
            id: 0,
            item_type: "text"@,
            content: Some(text),
            image_path: None,
            thumbnail_path: None,
            file_paths: None,
            file_count: 0,
            is_favorite: false,
            is_pinned: false,
            created_at: now,
            source_app: None,
            image_hash: None,
        }),
        file_item(paths, now) == (ItemView {
            item_type: "file"@,
            content: None,
            file_paths: Some(paths),
            file_count: paths.len() as i64,
            source_app: if paths.len() > 0 {
                Some(paths[0])
            } else {
                None
            },
            ..text_item(text, now)
        }),
        image_item(path, hash, source, now) == (ItemView {
            item_type: "image"@,
            content: None,
            image_path: Some(path),
            image_hash: Some(hash),
            source_app: source,
            ..text_item(text, now)
        }),
{
}

/// Files are taken in as pictures only where every single one of them is a picture.
pub proof fn law_pictures_only_where_all_are(image: Seq<bool>)
    ensures
        all_pictures(image) <==> !image.contains(false),
{
    if !all_pictures(image) {
        let i = choose|i: int| 0 <= i < image.len() && !#[trigger] image[i];
        assert(image.contains(false));
    }
    if image.contains(false) {
        let i = choose|i: int| 0 <= i < image.len() && image[i] == false;
        assert(!image[i]);
    }
}

/// A picture is stored in the folder given, under a name of its kind and its time, as PNG.
pub proof fn law_picture_name(dir: Seq<char>, kind: Seq<char>, stamp: Seq<char>)
    requires
        single_name(kind + stamp + seq!['.', 'p', 'n', 'g']),
    ensures
        picture_path(dir, kind, stamp) == stem(dir) + kind + stamp + seq!['.', 'p', 'n', 'g'],
{
    reveal_strlit(".png");
    assert(".png"@ =~= seq!['.', 'p', 'n', 'g']);
    let name = kind + stamp + ".png"@;
    lemma_stem(dir, name);
    assert(stem(dir) + name =~= stem(dir) + kind + stamp + ".png"@);
}

} // verus!
