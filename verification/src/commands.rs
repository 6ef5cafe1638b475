//! What the commands of the window decide: what goes back to the clipboard, which files are shown,
//! and what may be read.

use crate::config::AppState;
use crate::copy_laws::law_copy_gives_what_the_record_holds;
use crate::db::{images_in, opt_item, thumbs_in, Database, DbView};
use crate::digits::{count_text, decimal, decimal_text, signed_decimal};
use crate::exchange::{
    bitmap_bytes, bitmap_head, bitmap_rows, drop_files, drop_files_bytes, encode16, wide_z,
};
use crate::models::{copy_strings, ClipboardItem, ItemView};
use crate::outside::{base64_encode, base64_text, lower, to_lower};
use crate::picture::Picture;
use crate::records::item_views;
use crate::table::row_with;
use crate::text::{join, join_strings, opt_text, push_text, same_text, texts};
use crate::winpath::{
    folder_key, norm_dir, parent, parent_path, parts, relative, strip_base, Component,
};
use vstd::prelude::*;

verus! {

/// What goes back to the clipboard.
pub enum CopyPlan {
    /// A text.
    Text(String),
    /// The picture in this file, and the file itself.
    Image(String),
    /// Files, as far as they are still there.
    Files(Vec<String>),
}

/// The view of a [`CopyPlan`].
pub enum PlanView {
    Text(Seq<char>),
    Image(Seq<char>),
    Files(Seq<Seq<char>>),
}

impl View for CopyPlan {
    type V = PlanView;

    open spec fn view(&self) -> PlanView {
        match self {
            CopyPlan::Text(t) => PlanView::Text(t@),
            CopyPlan::Image(p) => PlanView::Image(p@),
            CopyPlan::Files(v) => PlanView::Files(texts(v@)),
        }
    }
}

/// The view of a plan, or of the message that there is none.
pub open spec fn plan_view(r: Result<CopyPlan, String>) -> Result<PlanView, Seq<char>> {
    match r {
        Ok(p) => Ok(p@),
        Err(e) => Err(e@),
    }
}

/// The message that there is no record `id`.
pub open spec fn no_record(id: i64) -> Seq<char> {
    "记录不存在 id="@ + signed_decimal(id as int)
}

/// What goes back to the clipboard for a record: what it holds, by its type.
pub open spec fn copy_plan(item: ItemView) -> Result<PlanView, Seq<char>> {
    if item.item_type == "text"@ {
        match item.content {
            Some(t) => Ok(PlanView::Text(t)),
            None => Err("文本记录缺少 content"@),
        }
    } else if item.item_type == "image"@ {
        match item.image_path {
            Some(p) => Ok(PlanView::Image(p)),
            None => Err("图片记录缺少 image_path"@),
        }
    } else if item.item_type == "file"@ {
        match item.file_paths {
            Some(l) => Ok(PlanView::Files(l)),
            None => Err("文件记录缺少 file_paths"@),
        }
    } else {
        Err("不支持的记录类型: "@ + item.item_type)
    }
}

fn missing_record(id: i64) -> (r: String)
    ensures
        r@ == no_record(id),
{
    let mut e = "记录不存在 id=".to_string();
    push_text(&mut e, &decimal_text(id));
    e
}

fn plan_of(item: ClipboardItem) -> (r: Result<CopyPlan, String>)
    ensures
        plan_view(r) == copy_plan(item@),
{
    if same_text(&item.item_type, "text") {
        match item.content {
            Some(t) => Ok(CopyPlan::Text(t)),
            None => Err("文本记录缺少 content".to_string()),
        }
    } else if same_text(&item.item_type, "image") {
        match item.image_path {
            Some(p) => Ok(CopyPlan::Image(p)),
            None => Err("图片记录缺少 image_path".to_string()),
        }
    } else if same_text(&item.item_type, "file") {
        match item.file_paths {
            Some(l) => Ok(CopyPlan::Files(l)),
            None => Err("文件记录缺少 file_paths".to_string()),
        }
    } else {
        let mut e = "不支持的记录类型: ".to_string();
        push_text(&mut e, &item.item_type);
        Err(e)
    }
}

/// What goes back to the clipboard for the record `id`, which is noted as put there by the program
/// itself.
pub fn copy_item(db: &Database, state: &mut AppState, id: i64) -> (r: Result<CopyPlan, String>)
    requires
        db@.wf(),
    ensures
        final(state).config_path == old(state).config_path,
        final(state).config == old(state).config,
        match opt_item(row_with(db@.rows, id)) {
            Some(item) => {
                &&& plan_view(r) == copy_plan(item)
                &&& item.item_type == "text"@ && item.content is Some ==> plan_view(r) == Ok::<
                    PlanView,
                    Seq<char>,
                >(PlanView::Text(item.content->0))
                &&& item.item_type == "image"@ && item.image_path is Some ==> plan_view(r) == Ok::<
                    PlanView,
                    Seq<char>,
                >(PlanView::Image(item.image_path->0))
                &&& item.item_type == "file"@ && item.file_paths is Some ==> plan_view(r) == Ok::<
                    PlanView,
                    Seq<char>,
                >(PlanView::Files(item.file_paths->0))
                &&& final(state).internal_copy@ == seq![id]
            },
            None => {
                &&& plan_view(r) == Err::<PlanView, Seq<char>>(no_record(id))
                &&& final(state).internal_copy == old(state).internal_copy
            },
        },
{
    match db.get_item(id) {
        Some(item) => {
            let mut ids: Vec<i64> = Vec::new();
            ids.push(id);
            assert(ids@ =~= seq![id]);
            state.mark_internal_copy(ids);
            proof {
                law_copy_gives_what_the_record_holds(item@);
            }
            plan_of(item)
        },
        None => Err(missing_record(id)),
    }
}

/// The paths that are still there; `present` tells which are.
pub open spec fn still_there(paths: Seq<Seq<char>>, present: Seq<bool>) -> Seq<Seq<char>>
    decreases paths.len(),
{
    if paths.len() == 0 {
        seq![]
    } else if present.last() {
        still_there(paths.drop_last(), present.drop_last()).push(paths.last())
    } else {
        still_there(paths.drop_last(), present.drop_last())
    }
}

fn keep_present(paths: &[String], present: &[bool]) -> (r: Vec<String>)
    requires
        paths@.len() == present@.len(),
    ensures
        texts(r@) == still_there(texts(paths@), present@),
        r@.len() <= paths@.len(),
{
    let mut out: Vec<String> = Vec::new();
    let ghost all = texts(paths@);
    assert(texts(out@) =~= seq![]);
    for k in 0..paths.len()
        invariant
            all == texts(paths@),
            paths@.len() == present@.len(),
            texts(out@) == still_there(all.take(k as int), present@.take(k as int)),
            out@.len() <= k,
    {
        let ghost before = out@;
        if present[k] {
            out.push(paths[k].clone());
            assert(texts(out@) =~= texts(before).push(all[k as int]));
        }
        proof {
            assert(all.take(k + 1).drop_last() =~= all.take(k as int));
            assert(present@.take(k + 1).drop_last() =~= present@.take(k as int));
        }
    }
    proof {
        assert(all.take(all.len() as int) =~= all);
        assert(present@.take(all.len() as int) =~= present@);
    }
    out
}

/// The message that `missing` files are gone: empty where none is.
pub open spec fn missing_message(missing: nat) -> Seq<char> {
    if missing == 0 {
        seq![]
    } else {
        decimal(missing) + " 个文件已不存在，已复制剩余文件"@
    }
}

/// The files that go back to the clipboard out of `paths`, with a message where some are gone;
/// `present` tells which are still there. It fails where none is.
pub fn copy_files(paths: &[String], present: &[bool]) -> (r: Result<(Vec<String>, String), String>)
    requires
        paths@.len() == present@.len(),
    ensures
        ({
            let left = still_there(texts(paths@), present@);
            match r {
                Ok((files, message)) => {
                    &&& left.len() > 0
                    &&& texts(files@) == left
                    &&& message@ == missing_message((paths@.len() - left.len()) as nat)
                },
                Err(e) => left.len() == 0 && e@ == "源文件不存在"@,
            }
        }),
{
    let left = keep_present(paths, present);
    assert(texts(left@).len() == left@.len());
    if left.len() == 0 {
        return Err("源文件不存在".to_string());
    }
    let missing: usize = paths.len() - left.len();
    if missing > 0 {
        let mut message = count_text(missing);
        push_text(&mut message, " 个文件已不存在，已复制剩余文件");
        Ok((left, message))
    } else {
        let message = String::new();
        assert(message@ =~= seq![]);
        Ok((left, message))
    }
}

/// The picture as a bitmap and its file as a file list, which go to the clipboard together: the one
/// pastes into a chat, the other into a folder.
pub fn write_image_clipboard(picture: &Picture, paths: &[String]) -> (r: (Vec<u8>, Vec<u8>))
    requires
        picture.wf(),
    ensures
        r.0@ == bitmap_head(picture.width, picture.height) + bitmap_rows(
            picture.rgba@,
            picture.width as nat,
            picture.height as nat,
        ),
        r.1@ == drop_files(texts(paths@)),
{
    (bitmap_bytes(picture), drop_files_bytes(paths))
}

/// The records with these ids, in their order, as far as there are any.
pub open spec fn chosen(d: DbView, ids: Seq<i64>) -> Seq<Option<ItemView>> {
    ids.map_values(|id: i64| opt_item(row_with(d.rows, id)))
}

/// Whether one of the records is a text.
pub open spec fn has_text(items: Seq<ItemView>) -> bool {
    exists|i: int| 0 <= i < items.len() && (#[trigger] items[i]).item_type == "text"@
}

/// Whether one of the records is a picture or files.
pub open spec fn has_files(items: Seq<ItemView>) -> bool {
    exists|i: int|
        0 <= i < items.len() && ((#[trigger] items[i]).item_type == "image"@ || items[i].item_type
            == "file"@)
}

/// The contents of the records, empty where one has none.
pub open spec fn contents(items: Seq<ItemView>) -> Seq<Seq<char>> {
    items.map_values(
        |i: ItemView|
            match i.content {
                Some(t) => t,
                None => seq![],
            },
    )
}

/// The files of a record: the file of a picture, or all files.
pub open spec fn item_files(i: ItemView) -> Seq<Seq<char>> {
    if i.item_type == "image"@ {
        match i.image_path {
            Some(p) => seq![p],
            None => seq![],
        }
    } else if i.item_type == "file"@ {
        match i.file_paths {
            Some(l) => l,
            None => seq![],
        }
    } else {
        seq![]
    }
}

/// The files of the records, in their order.
pub open spec fn items_files(items: Seq<ItemView>) -> Seq<Seq<char>>
    decreases items.len(),
{
    if items.len() == 0 {
        seq![]
    } else {
        items_files(items.drop_last()) + item_files(items.last())
    }
}

/// What goes back to the clipboard for several records: their texts, one to a line, or their files.
pub open spec fn batch_plan(items: Seq<ItemView>) -> Result<PlanView, Seq<char>> {
    if has_text(items) && has_files(items) {
        Err("文本不能与文件/图片混选"@)
    } else if has_text(items) {
        Ok(PlanView::Text(join(contents(items), "\n"@)))
    } else {
        Ok(PlanView::Files(items_files(items)))
    }
}

fn push_item_files(out: &mut Vec<String>, item: &ClipboardItem)
    ensures
        texts(final(out)@) == texts(old(out)@) + item_files(item@),
{
    let ghost start = out@;
    if same_text(&item.item_type, "image") {
        match &item.image_path {
            Some(p) => out.push(p.clone()),
            None => {},
        }
        assert(texts(out@) =~= texts(start) + item_files(item@));
    } else if same_text(&item.item_type, "file") {
        match &item.file_paths {
            Some(l) => {
                let mut more = copy_strings(l);
                let ghost tail = more@;
                out.append(&mut more);
                assert(texts(out@) =~= texts(start) + texts(tail));
            },
            None => {
                assert(texts(out@) =~= texts(start) + item_files(item@));
            },
        }
    } else {
        assert(texts(out@) =~= texts(start) + item_files(item@));
    }
}

fn plan_batch(items: &[ClipboardItem]) -> (r: Result<CopyPlan, String>)
    ensures
        plan_view(r) == batch_plan(item_views(items@)),
{
    let ghost all = item_views(items@);
    let mut text = false;
    let mut other = false;
    let mut lines: Vec<String> = Vec::new();
    let mut files: Vec<String> = Vec::new();
    proof {
        assert(texts(lines@) =~= contents(all.take(0)));
        assert(texts(files@) =~= seq![]);
    }
    for k in 0..items.len()
        invariant
            all == item_views(items@),
            text == has_text(all.take(k as int)),
            other == has_files(all.take(k as int)),
            texts(lines@) == contents(all.take(k as int)),
            texts(files@) == items_files(all.take(k as int)),
    {
        let item = &items[k];
        let ghost t = all.take(k as int);
        let ghost n = all.take(k + 1);
        let ghost old_lines = lines@;
        let is_text = same_text(&item.item_type, "text");
        let is_other = same_text(&item.item_type, "image") || same_text(&item.item_type, "file");
        match &item.content {
            Some(c) => lines.push(c.clone()),
            None => {
                let empty = String::new();
                assert(empty@ =~= seq![]);
                lines.push(empty);
            },
        }
        push_item_files(&mut files, item);
        proof {
            assert(n =~= t.push(item@));
            assert(n.drop_last() =~= t);
            assert(texts(lines@) =~= texts(old_lines).push(lines@.last()@));
            assert(contents(n) =~= contents(t).push(lines@.last()@));
            assert(has_text(n) == (has_text(t) || is_text)) by {
                if has_text(t) {
                    let i = choose|i: int|
                        0 <= i < t.len() && (#[trigger] t[i]).item_type == "text"@;
                    assert(n[i] == t[i]);
                }
                if is_text {
                    assert(n[k as int].item_type == "text"@);
                }
                if has_text(n) {
                    let i = choose|i: int|
                        0 <= i < n.len() && (#[trigger] n[i]).item_type == "text"@;
                    if i < k {
                        assert(t[i] == n[i]);
                    }
                }
            }
            assert(has_files(n) == (has_files(t) || is_other)) by {
                if has_files(t) {
                    let i = choose|i: int|
                        0 <= i < t.len() && ((#[trigger] t[i]).item_type == "image"@
                            || t[i].item_type == "file"@);
                    assert(n[i] == t[i]);
                }
                if is_other {
                    assert(n[k as int].item_type == item@.item_type);
                }
                if has_files(n) {
                    let i = choose|i: int|
                        0 <= i < n.len() && ((#[trigger] n[i]).item_type == "image"@
                            || n[i].item_type == "file"@);
                    if i < k {
                        assert(t[i] == n[i]);
                    }
                }
            }
        }
        text = text || is_text;
        other = other || is_other;
    }
    assert(all.take(all.len() as int) =~= all);
    if text && other {
        return Err("文本不能与文件/图片混选".to_string());
    }
    if text {
        Ok(CopyPlan::Text(join_strings(&lines, "\n")))
    } else {
        Ok(CopyPlan::Files(files))
    }
}

/// What goes back to the clipboard for the records `ids`, in their order, which are noted as put
/// there by the program itself. It fails where no record is chosen, one is gone, or texts are mixed
/// with pictures or files.
pub fn batch_copy(db: &Database, state: &mut AppState, ids: &[i64]) -> (r: Result<
    CopyPlan,
    String,
>)
    requires
        db@.wf(),
    ensures
        final(state).config_path == old(state).config_path,
        final(state).config == old(state).config,
        ids@.len() == 0 ==> {
            &&& plan_view(r) == Err::<PlanView, Seq<char>>("未选择任何记录"@)
            &&& final(state).internal_copy == old(state).internal_copy
        },
        ids@.len() > 0 ==> final(state).internal_copy@ == ids@,
        ids@.len() > 0 ==> match first_missing(db@, ids@) {
            Some(id) => plan_view(r) == Err::<PlanView, Seq<char>>(no_record(id)),
            None => plan_view(r) == batch_plan(
                chosen(db@, ids@).map_values(|i: Option<ItemView>| i->0),
            ),
        },
{
    if ids.len() == 0 {
        return Err("未选择任何记录".to_string());
    }
    let mut mark: Vec<i64> = Vec::new();
    for k in 0..ids.len()
        invariant
            mark@ == ids@.take(k as int),
    {
        mark.push(ids[k]);
        assert(ids@.take(k + 1) =~= ids@.take(k as int).push(ids@[k as int]));
    }
    assert(ids@.take(ids@.len() as int) =~= ids@);
    state.mark_internal_copy(mark);
    let mut items: Vec<ClipboardItem> = Vec::new();
    let ghost want = chosen(db@, ids@).map_values(|i: Option<ItemView>| i->0);
    assert(item_views(items@) =~= want.take(0));
    assert(ids@.skip(0) =~= ids@);
    for k in 0..ids.len()
        invariant
            db@.wf(),
            want == chosen(db@, ids@).map_values(|i: Option<ItemView>| i->0),
            item_views(items@) == want.take(k as int),
            first_missing(db@, ids@) == first_missing(db@, ids@.skip(k as int)),
            state.internal_copy@ == ids@,
            state.config_path == old(state).config_path,
            state.config == old(state).config,
            ids@.len() > 0,
    {
        assert(ids@.skip(k as int)[0] == ids@[k as int]);
        assert(ids@.skip(k as int).drop_first() =~= ids@.skip(k + 1));
        match db.get_item(ids[k]) {
            Some(item) => {
                let ghost before = items@;
                items.push(item);
                assert(item_views(items@) =~= item_views(before).push(item@));
                assert(want.take(k + 1) =~= want.take(k as int).push(want[k as int]));
            },
            None => {
                return Err(missing_record(ids[k]));
            },
        }
    }
    assert(want.take(want.len() as int) =~= want);
    plan_batch(&items)
}

/// The first of `ids` that no record has.
pub open spec fn first_missing(d: DbView, ids: Seq<i64>) -> Option<i64>
    decreases ids.len(),
{
    if ids.len() == 0 {
        None
    } else if row_with(d.rows, ids[0]) is None {
        Some(ids[0])
    } else {
        first_missing(d, ids.drop_first())
    }
}

/// The files that are shown selected out of `paths`: those that are still there, if they are all in
/// one folder, and else the first of them.
pub open spec fn selected(left: Seq<Seq<char>>) -> Seq<Seq<char>> {
    if forall|i: int| 0 <= i < left.len() ==> folder_key(#[trigger] left[i]) == folder_key(left[0]) {
        left
    } else {
        seq![left[0]]
    }
}

/// The files that are shown selected in their folder; `present` tells which are still there. It
/// fails where none is.
pub fn reveal_file(paths: &[String], present: &[bool]) -> (r: Result<Vec<String>, String>)
    requires
        paths@.len() == present@.len(),
    ensures
        ({
            let left = still_there(texts(paths@), present@);
            match r {
                Ok(v) => left.len() > 0 && texts(v@) == selected(left),
                Err(e) => left.len() == 0 && e@ == "源文件不存在"@,
            }
        }),
{
    let left = keep_present(paths, present);
    let ghost lv = texts(left@);
    assert(lv.len() == left@.len());
    if left.len() == 0 {
        return Err("源文件不存在".to_string());
    }
    let first = norm_dir(&left[0]);
    assert(lv[0] == left@[0]@);
    let mut same = true;
    for k in 0..left.len()
        invariant
            lv == texts(left@),
            opt_text(first) == folder_key(lv[0]),
            same == forall|i: int|
                0 <= i < k ==> folder_key(#[trigger] lv[i]) == folder_key(lv[0]),
    {
        let key = norm_dir(&left[k]);
        assert(lv[k as int] == left@[k as int]@);
        let here = match (&key, &first) {
            (Some(a), Some(b)) => same_text(a, b),
            (None, None) => true,
            _ => false,
        };
        same = same && here;
    }
    if same {
        Ok(left)
    } else {
        let mut one: Vec<String> = Vec::new();
        one.push(left[0].clone());
        assert(texts(one@) =~= seq![lv[0]]);
        Ok(one)
    }
}

/// Texts as they are handed to the shell.
pub open spec fn wide_texts(list: Seq<Seq<char>>) -> Seq<Seq<u16>> {
    list.map_values(|t: Seq<char>| encode16(t).push(0))
}

/// The views of lists of units.
pub open spec fn unit_lists(v: Seq<Vec<u16>>) -> Seq<Seq<u16>> {
    v.map_values(|u: Vec<u16>| u@)
}

/// The folder and the files to select in it, as they are handed to the shell. It fails where there
/// are no files, or the first is in no folder.
pub fn reveal_in_explorer(files: &[String]) -> (r: Result<(Vec<u16>, Vec<Vec<u16>>), String>)
    ensures
        match r {
            Ok((folder, list)) => {
                &&& files@.len() > 0
                &&& parent(files@[0]@) matches Some(p) && folder@ == encode16(p).push(0)
                &&& unit_lists(list@) == wide_texts(texts(files@))
            },
            Err(e) => if files@.len() == 0 {
                e@ == "无有效文件"@
            } else {
                parent(files@[0]@) is None && e@ == "无法确定所在文件夹"@
            },
        },
{
    if files.len() == 0 {
        return Err("无有效文件".to_string());
    }
    match parent_path(&files[0]) {
        Some(p) => {
            let folder = wide_z(&p);
            let mut list: Vec<Vec<u16>> = Vec::new();
            let ghost all = wide_texts(texts(files@));
            assert(unit_lists(list@) =~= all.take(0));
            for k in 0..files.len()
                invariant
                    all == wide_texts(texts(files@)),
                    unit_lists(list@) == all.take(k as int),
            {
                let ghost before = list@;
                list.push(wide_z(&files[k]));
                proof {
                    assert(all[k as int] == encode16(files@[k as int]@).push(0));
                    assert(unit_lists(list@) =~= unit_lists(before).push(all[k as int]));
                    assert(all.take(k + 1) =~= all.take(k as int).push(all[k as int]));
                }
            }
            assert(all.take(all.len() as int) =~= all);
            Ok((folder, list))
        },
        None => Err("无法确定所在文件夹".to_string()),
    }
}

/// Whether a path may be read as one in the directory `dir`: it lies below it, in either case, and
/// does not leave it again.
pub open spec fn within(path: Seq<char>, dir: Seq<char>) -> bool {
    &&& relative(lower(path), lower(dir)) matches Some(c)
    &&& forall|i: int| 0 <= i < c.len() ==> !(#[trigger] c[i] is ParentDir)
}

fn check_within(path: &str, dir: &str) -> (r: Result<(), String>)
    ensures
        r is Ok <==> within(path@, dir@),
        r matches Err(e) ==> e@ == "invalid path"@,
{
    let p = to_lower(path);
    let d = to_lower(dir);
    match strip_base(&p, &d) {
        Some(c) => {
            let ghost v = parts(c@);
            for k in 0..c.len()
                invariant
                    v == parts(c@),
                    relative(lower(path@), lower(dir@)) == Some(v),
                    forall|i: int| 0 <= i < k ==> !(#[trigger] v[i] is ParentDir),
            {
                assert(v[k as int] == c@[k as int]@);
                match &c[k] {
                    Component::ParentDir => {
                        return Err("invalid path".to_string());
                    },
                    _ => {},
                }
            }
            Ok(())
        },
        None => Err("invalid path".to_string()),
    }
}

/// Whether the file `path` may be read as a thumbnail.
pub fn check_thumbnail_path(db: &Database, path: &str) -> (r: Result<(), String>)
    ensures
        r is Ok <==> within(path@, thumbs_in(db@.data_dir)),
        r matches Err(e) ==> e@ == "invalid path"@,
{
    check_within(path, &db.thumbs_dir())
}

/// Whether the file `path` may be read as a picture.
pub fn check_image_path(db: &Database, path: &str) -> (r: Result<(), String>)
    ensures
        r is Ok <==> within(path@, images_in(db@.data_dir)),
        r matches Err(e) ==> e@ == "invalid path"@,
{
    check_within(path, &db.images_dir())
}

/// The bytes of a PNG file as a data URI, for the window to show.
pub fn data_uri(bytes: &[u8]) -> (r: String)
    requires
        (bytes@.len() + 2) / 3 * 4 <= isize::MAX,
    ensures
        r@ == "data:image/png;base64,"@ + base64_text(bytes@),
{
    let mut uri = "data:image/png;base64,".to_string();
    push_text(&mut uri, &base64_encode(bytes));
    uri
}

/// The files that go back to the clipboard are chosen files that are still there, and all of those.
pub proof fn law_copied_files_are_there(paths: Seq<Seq<char>>, present: Seq<bool>, p: Seq<char>)
    requires
        paths.len() == present.len(),
    ensures
        still_there(paths, present).contains(p) <==> exists|i: int|
            0 <= i < paths.len() && #[trigger] paths[i] == p && present[i],
        still_there(paths, present).len() <= paths.len(),
    decreases paths.len(),
{
    let left = still_there(paths, present);
    if paths.len() > 0 {
        let init = paths.drop_last();
        let pi = present.drop_last();
        law_copied_files_are_there(init, pi, p);
        let l = still_there(init, pi);
        if left.contains(p) {
            let k = choose|k: int| 0 <= k < left.len() && left[k] == p;
            if k < l.len() {
                assert(l[k] == p);
                assert(l.contains(p));
                let i = choose|i: int| 0 <= i < init.len() && #[trigger] init[i] == p && pi[i];
                assert(paths[i] == p && present[i]);
            } else {
                assert(paths[paths.len() - 1] == p && present[paths.len() - 1]);
            }
        }
        if exists|i: int| 0 <= i < paths.len() && #[trigger] paths[i] == p && present[i] {
            let i = choose|i: int| 0 <= i < paths.len() && #[trigger] paths[i] == p && present[i];
            if i < init.len() {
                assert(init[i] == p && pi[i]);
                let k = choose|k: int| 0 <= k < l.len() && l[k] == p;
                assert(left[k] == p);
            } else {
                assert(left[left.len() - 1] == p);
            }
        }
    }
}

} // verus!
