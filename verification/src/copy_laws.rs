//! What goes back to the clipboard, which files are shown in their folder, and what may be read.

use crate::capture_laws::{
    holds_text, law_new_files_become_a_record, law_new_picture_becomes_a_record,
    law_new_text_becomes_a_record,
};
use crate::commands::{
    batch_plan, chosen, contents, copy_plan, first_missing, item_files, items_files,
    missing_message, no_record, selected, still_there, within, PlanView,
};
use crate::db::{added, opt_item, DbView};
use crate::digits::{decimal, signed_decimal};
use crate::history_laws::law_record_shows_its_row;
use crate::models::ItemView;
use crate::monitor::{after_copied_files, after_copied_text, image_item};
use crate::outside::{json_read, json_written, lower};
use crate::records::item_of;
use crate::table::{lemma_row_at, row_with};
use crate::text::{join, lemma_join_push};
use crate::upkeep::with_thumbnail;
use crate::winpath::{components, folder_key, ComponentView};
use vstd::prelude::*;

verus! {

/// What goes back to the clipboard for a record is what it holds, by its type: the text of a text,
/// the stored picture of a picture whatever thumbnail there is, and all files of a list. It is
/// refused where that is missing, and for other types.
pub proof fn law_copy_gives_what_the_record_holds(item: ItemView)
    ensures
        item.item_type == "text"@ ==> match item.content {
            Some(t) => copy_plan(item) == Ok::<PlanView, Seq<char>>(PlanView::Text(t)),
            None => copy_plan(item) is Err,
        },
        item.item_type == "image"@ ==> match item.image_path {
            Some(p) => copy_plan(item) == Ok::<PlanView, Seq<char>>(PlanView::Image(p)),
            None => copy_plan(item) is Err,
        },
        item.item_type == "file"@ ==> match item.file_paths {
            Some(l) => copy_plan(item) == Ok::<PlanView, Seq<char>>(PlanView::Files(l)),
            None => copy_plan(item) is Err,
        },
        item.item_type != "text"@ && item.item_type != "image"@ && item.item_type != "file"@
            ==> copy_plan(item) is Err,
{
    reveal_strlit("text");
    reveal_strlit("image");
    reveal_strlit("file");
    assert("text"@[0] == 't' && "image"@[0] == 'i' && "file"@[0] == 'f');
}

/// A text that was taken in goes back to the clipboard as it was.
pub proof fn law_text_copies_back(d: DbView, text: Seq<char>, internal: Seq<i64>, now: Seq<char>)
    requires
        d.wf(),
        d.last_id < i64::MAX,
        text.len() > 0,
        forall|i: int| 0 <= i < d.rows.len() ==> !holds_text(#[trigger] d.rows[i], text),
    ensures
        ({
            let n = after_copied_text(d, text, false, internal, now);
            opt_item(row_with(n.rows, (d.last_id + 1) as i64)) matches Some(item) && copy_plan(item)
                == Ok::<PlanView, Seq<char>>(PlanView::Text(text))
        }),
{
    let n = after_copied_text(d, text, false, internal, now);
    law_new_text_becomes_a_record(d, text, internal, now, now);
    lemma_last_by_id(d, n);
    law_copy_gives_what_the_record_holds(item_of(n.rows.last()));
}

proof fn lemma_last_by_id(d: DbView, n: DbView)
    requires
        d.wf(),
        n.rows.len() == d.rows.len() + 1,
        n.rows.drop_last() == d.rows,
        d.last_id < i64::MAX,
        n.rows.last().id == d.last_id + 1,
    ensures
        row_with(n.rows, (d.last_id + 1) as i64) == Some(n.rows.last()),
{
    assert forall|i: int, j: int| 0 <= i < j < n.rows.len() implies (#[trigger] n.rows[i]).id < (
    #[trigger] n.rows[j]).id by {
        assert(n.rows[i] == n.rows.drop_last()[i]);
        if j < d.rows.len() {
            assert(n.rows[j] == n.rows.drop_last()[j]);
        }
    }
    lemma_row_at(n.rows, n.rows.len() - 1);
}

/// A picture that was taken in goes back to the clipboard from the path under which it was stored,
/// before its thumbnail was made and after.
pub proof fn law_picture_copies_back(
    d: DbView,
    path: Seq<char>,
    hash: Seq<char>,
    source: Option<Seq<char>>,
    now: Seq<char>,
)
    requires
        d.wf(),
        d.last_id < i64::MAX,
    ensures
        ({
            let id = (d.last_id + 1) as i64;
            let n = added(d, image_item(path, hash, source, now));
            let t = with_thumbnail(n, id);
            &&& opt_item(row_with(n.rows, id)) matches Some(item) && copy_plan(item) == Ok::<
                PlanView,
                Seq<char>,
            >(PlanView::Image(path))
            &&& opt_item(row_with(t.rows, id)) matches Some(item) && copy_plan(item) == Ok::<
                PlanView,
                Seq<char>,
            >(PlanView::Image(path))
        }),
{
    let id = (d.last_id + 1) as i64;
    let n = added(d, image_item(path, hash, source, now));
    let t = with_thumbnail(n, id);
    law_new_picture_becomes_a_record(d, path, hash, source, now, now);
    lemma_last_by_id(d, n);
    let u = t.rows;
    assert(u.drop_last() =~= d.rows) by {
        assert forall|i: int| 0 <= i < d.rows.len() implies #[trigger] u.drop_last()[i]
            == d.rows[i] by {
            assert(n.rows.drop_last()[i] == d.rows[i]);
            assert(d.rows[i].id <= d.last_id);
        }
    }
    lemma_last_by_id(d, t);
    law_copy_gives_what_the_record_holds(item_of(n.rows.last()));
    law_copy_gives_what_the_record_holds(item_of(t.rows.last()));
}

/// Files that were taken in go back to the clipboard, all of them and in their order, given that
/// stored lists read back as they were.
pub proof fn law_files_copy_back(
    d: DbView,
    paths: Seq<Seq<char>>,
    internal: Seq<i64>,
    now: Seq<char>,
)
    requires
        d.wf(),
        d.last_id < i64::MAX,
        paths.len() <= i64::MAX,
        json_read(json_written(paths)) == Some(paths),
        forall|i: int|
            0 <= i < d.rows.len() ==> !crate::capture_laws::holds_files(#[trigger] d.rows[i], paths),
    ensures
        ({
            let n = after_copied_files(d, paths, internal, now);
            opt_item(row_with(n.rows, (d.last_id + 1) as i64)) matches Some(item) && copy_plan(item)
                == Ok::<PlanView, Seq<char>>(PlanView::Files(paths))
        }),
{
    let n = after_copied_files(d, paths, internal, now);
    law_new_files_become_a_record(d, paths, internal, now, now);
    lemma_last_by_id(d, n);
    law_record_shows_its_row(n.rows.last());
    law_copy_gives_what_the_record_holds(item_of(n.rows.last()));
}

/// The message for a record that is gone names its id.
pub proof fn law_missing_record_is_named(id: i64)
    ensures
        no_record(id).len() > signed_decimal(id as int).len(),
        no_record(id).skip(no_record(id).len() - signed_decimal(id as int).len())
            == signed_decimal(id as int),
{
    reveal_strlit("记录不存在 id=");
    let n = signed_decimal(id as int);
    assert(no_record(id).skip(no_record(id).len() - n.len()) =~= n);
}

/// The contents of records, one to a line, in their order; one without content is an empty line.
pub open spec fn lines_of(items: Seq<ItemView>) -> Seq<char>
    decreases items.len(),
{
    if items.len() == 0 {
        seq![]
    } else {
        let line = match items.last().content {
            Some(t) => t,
            None => seq![],
        };
        if items.len() == 1 {
            line
        } else {
            lines_of(items.drop_last()).push('\n') + line
        }
    }
}

/// The files of records, in their order: of a picture the stored picture, and of files all of them.
pub open spec fn paths_of(items: Seq<ItemView>) -> Seq<Seq<char>>
    decreases items.len(),
{
    if items.len() == 0 {
        seq![]
    } else {
        let i = items[0];
        (if i.item_type == "image"@ && i.image_path is Some {
            seq![i.image_path->0]
        } else if i.item_type == "file"@ && i.file_paths is Some {
            i.file_paths->0
        } else {
            seq![]
        }) + paths_of(items.skip(1))
    }
}

proof fn lemma_lines(items: Seq<ItemView>)
    ensures
        join(contents(items), "\n"@) == lines_of(items),
    decreases items.len(),
{
    reveal_strlit("\n");
    assert("\n"@ =~= seq!['\n']);
    if items.len() == 0 {
        assert(contents(items) =~= seq![]);
        assert(lines_of(items) =~= seq![]);
    } else {
        let init = items.drop_last();
        lemma_lines(init);
        let line = match items.last().content {
            Some(t) => t,
            None => seq![],
        };
        assert(contents(items) =~= contents(init).push(line));
        lemma_join_push(contents(init), line, "\n"@);
        if items.len() > 1 {
            assert(lines_of(init) + "\n"@ + line =~= lines_of(init).push('\n') + line);
        }
    }
}

proof fn lemma_paths(items: Seq<ItemView>)
    ensures
        items_files(items) == paths_of(items),
    decreases items.len(),
{
    if items.len() > 0 {
        let init = items.drop_last();
        lemma_paths(init);
        lemma_paths_push(init, items.last());
        assert(init.push(items.last()) =~= items);
        reveal_strlit("image");
        reveal_strlit("file");
        assert("image"@.len() == 5 && "file"@.len() == 4);
        let x = items.last();
        assert(seq![x].skip(1) =~= seq![]);
        assert(paths_of(seq![x].skip(1)) =~= seq![]);
        assert(paths_of(seq![x]) =~= item_files(x));
    }
}

proof fn lemma_paths_push(items: Seq<ItemView>, x: ItemView)
    ensures
        paths_of(items.push(x)) == paths_of(items) + paths_of(seq![x]),
    decreases items.len(),
{
    let n = items.push(x);
    if items.len() == 0 {
        assert(n =~= seq![x]);
        assert(paths_of(items) + paths_of(seq![x]) =~= paths_of(seq![x]));
    } else {
        lemma_paths_push(items.skip(1), x);
        assert(n.skip(1) =~= items.skip(1).push(x));
        assert(n[0] == items[0]);
    }
    assert(seq![x].skip(1) =~= seq![]);
    assert(paths_of(seq![x].skip(1)) =~= seq![]);
}

/// What goes back to the clipboard for several records: texts are put together one to a line,
/// pictures and files are put together as files, and a choice that holds both a text and a picture or
/// file is refused.
pub proof fn law_batch_puts_records_together(items: Seq<ItemView>)
    ensures
        ({
            let text = exists|i: int|
                0 <= i < items.len() && (#[trigger] items[i]).item_type == "text"@;
            let other = exists|i: int|
                0 <= i < items.len() && ((#[trigger] items[i]).item_type == "image"@
                    || items[i].item_type == "file"@);
            &&& batch_plan(items) is Err <==> text && other
            &&& text && !other ==> batch_plan(items) == Ok::<PlanView, Seq<char>>(
                PlanView::Text(lines_of(items)),
            )
            &&& !text ==> batch_plan(items) == Ok::<PlanView, Seq<char>>(
                PlanView::Files(paths_of(items)),
            )
        }),
{
    lemma_lines(items);
    lemma_paths(items);
}

/// The records that are copied together are those with the ids chosen, in the order in which they
/// were chosen.
pub proof fn law_chosen_records(d: DbView, ids: Seq<i64>, k: int)
    requires
        0 <= k < ids.len(),
    ensures
        chosen(d, ids).len() == ids.len(),
        chosen(d, ids)[k] == match row_with(d.rows, ids[k]) {
            Some(r) => Some(item_of(r)),
            None => None,
        },
{
}

/// The first of the chosen ids that no record has is the one that is told.
pub proof fn law_first_missing_record(d: DbView, ids: Seq<i64>, k: int)
    requires
        0 <= k <= ids.len(),
        forall|j: int| 0 <= j < k ==> row_with(d.rows, #[trigger] ids[j]) is Some,
        k < ids.len() ==> row_with(d.rows, ids[k]) is None,
    ensures
        first_missing(d, ids) == if k < ids.len() {
            Some(ids[k])
        } else {
            None
        },
    decreases ids.len(),
{
    if k > 0 {
        assert(row_with(d.rows, ids[0]) is Some);
        let rest = ids.drop_first();
        assert forall|j: int| 0 <= j < k - 1 implies row_with(d.rows, #[trigger] rest[j]) is Some by {
            assert(rest[j] == ids[j + 1]);
        }
        law_first_missing_record(d, rest, k - 1);
    }
}

/// Of the files of a list those go on that are there, in the order of the list.
pub proof fn law_files_that_are_there(paths: Seq<Seq<char>>, present: Seq<bool>, p: Seq<char>, b: bool)
    requires
        paths.len() == present.len(),
    ensures
        still_there(paths.push(p), present.push(b)) == if b {
            still_there(paths, present).push(p)
        } else {
            still_there(paths, present)
        },
        still_there(seq![], seq![]).len() == 0,
{
    assert(paths.push(p).drop_last() =~= paths);
    assert(present.push(b).drop_last() =~= present);
}

/// A message is given exactly where files are gone, and it says how many.
pub proof fn law_missing_files_are_told(missing: nat)
    ensures
        missing_message(missing).len() == 0 <==> missing == 0,
        missing > 0 ==> missing_message(missing).len() >= decimal(missing).len()
            && missing_message(missing).take(decimal(missing).len() as int) == decimal(missing),
{
    reveal_strlit(" 个文件已不存在，已复制剩余文件");
    if missing > 0 {
        assert(missing_message(missing).take(decimal(missing).len() as int) =~= decimal(missing));
    }
}

/// Files are shown selected together where they are all in one folder; where they are not, the first
/// is shown.
pub proof fn law_files_shown_in_one_folder(left: Seq<Seq<char>>)
    requires
        left.len() > 0,
    ensures
        (forall|i: int, j: int|
            0 <= i < left.len() && 0 <= j < left.len() ==> folder_key(#[trigger] left[i])
                == folder_key(#[trigger] left[j])) ==> selected(left) == left,
        (exists|i: int, j: int|
            0 <= i < left.len() && 0 <= j < left.len() && folder_key(#[trigger] left[i])
                != folder_key(#[trigger] left[j])) ==> selected(left).len() == 1 && selected(left)[0]
            == left[0],
{
    if exists|i: int, j: int|
        0 <= i < left.len() && 0 <= j < left.len() && folder_key(#[trigger] left[i]) != folder_key(
            #[trigger] left[j],
        ) {
        let (i, j) = choose|i: int, j: int|
            0 <= i < left.len() && 0 <= j < left.len() && folder_key(#[trigger] left[i])
                != folder_key(#[trigger] left[j]);
        if folder_key(left[i]) == folder_key(left[0]) {
            assert(folder_key(left[j]) != folder_key(left[0]));
        }
    }
}

/// A path may be read as one of a directory where it begins with the components of the directory, in
/// whatever case, and no later component leads out of one again.
pub proof fn law_readable_paths_stay_inside(path: Seq<char>, dir: Seq<char>)
    ensures
        within(path, dir) <==> ({
            let p = components(lower(path));
            let b = components(lower(dir));
            &&& b.len() <= p.len()
            &&& forall|i: int| 0 <= i < b.len() ==> #[trigger] p[i] == b[i]
            &&& forall|i: int|
                b.len() <= i < p.len() ==> #[trigger] p[i] != ComponentView::ParentDir
        }),
{
    let p = components(lower(path));
    let b = components(lower(dir));
    if b.len() <= p.len() {
        let c = p.skip(b.len() as int);
        if within(path, dir) {
            assert forall|i: int| 0 <= i < b.len() implies #[trigger] p[i] == b[i] by {
                assert(p.subrange(0, b.len() as int)[i] == p[i]);
            }
            assert forall|i: int| b.len() <= i < p.len() implies #[trigger] p[i]
                != ComponentView::ParentDir by {
                assert(!(c[i - b.len()] is ParentDir));
            }
        }
        if (forall|i: int| 0 <= i < b.len() ==> #[trigger] p[i] == b[i]) && (forall|i: int|
            b.len() <= i < p.len() ==> #[trigger] p[i] != ComponentView::ParentDir) {
            assert(b =~= p.subrange(0, b.len() as int));
            assert forall|i: int| 0 <= i < c.len() implies !(#[trigger] c[i] is ParentDir) by {
                assert(c[i] == p[b.len() + i]);
            }
        }
    }
}

} // verus!
