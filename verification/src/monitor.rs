//! What becomes of a change of the clipboard: a new record, a known one that moves to the top, or
//! nothing.

use crate::db::{
    add_fault, added, buffer_in, images_in, is_file, is_image, is_text, touched, Database, DbView,
};
use crate::history_laws::law_added_record;
use crate::models::{copy_strings, ClipboardItem, ItemView, RowView};
use crate::outside::{json_read, json_written};
use crate::picture::{compute_image_hash, fingerprint, Picture};
use crate::table::{first_id, has_id, updated};
use crate::text::{opt_text, push_text, same_text, texts};
use crate::winpath::{join_path, joined};
use vstd::prelude::*;

verus! {

/// What is to be read from the clipboard, or done with what was read.
#[derive(Clone, Copy, PartialEq, Eq, Structural, Debug)]
pub enum Reading {
    /// Nothing is left to do.
    Done,
    /// The files are to be taken in.
    Files,
    /// The text is to be read.
    ReadText,
    /// The text is to be taken in.
    Text,
    /// The picture is to be read.
    ReadImage,
}

/// What to do once it was tried to read a list of files: that comes first.
pub fn after_files(files: &Option<Vec<String>>) -> (r: Reading)
    ensures
        r == match *files {
            Some(v) => if v@.len() == 0 {
                Reading::Done
            } else {
                Reading::Files
            },
            None => Reading::ReadText,
        },
{
    match files {
        Some(v) => if v.len() == 0 {
            Reading::Done
        } else {
            Reading::Files
        },
        None => Reading::ReadText,
    }
}

/// What to do once it was tried to read a text: that comes before a picture.
pub fn after_text(text: &Option<String>) -> (r: Reading)
    ensures
        r == match opt_text(*text) {
            Some(t) => if t.len() == 0 {
                Reading::Done
            } else {
                Reading::Text
            },
            None => Reading::ReadImage,
        },
{
    match text {
        Some(t) => {
            proof {
                reveal_strlit("");
                if t@.len() == 0 {
                    assert(t@ =~= ""@);
                }
            }
            if same_text(t, "") {
                Reading::Done
            } else {
                Reading::Text
            }
        },
        None => Reading::ReadImage,
    }
}

/// What has become of something on the clipboard.
pub enum Outcome {
    /// Nothing has changed.
    Nothing,
    /// The record with this id was dated anew.
    Touched(i64),
    /// This record was added under this id.
    Added(i64, ClipboardItem),
}

/// The view of an [`Outcome`].
pub enum OutcomeView {
    Nothing,
    Touched(i64),
    Added(i64, ItemView),
}

impl View for Outcome {
    type V = OutcomeView;

    open spec fn view(&self) -> OutcomeView {
        match self {
            Outcome::Nothing => OutcomeView::Nothing,
            Outcome::Touched(id) => OutcomeView::Touched(*id),
            Outcome::Added(id, item) => OutcomeView::Added(*id, item@),
        }
    }
}

/// A record without contents, dated to `now`.
pub open spec fn bare_item(item_type: Seq<char>, now: Seq<char>) -> ItemView {
    ItemView {
        id: 0,
        item_type,
        content: None,
        image_path: None,
        thumbnail_path: None,
        file_paths: None,
        file_count: 0,
        is_favorite: false,
        is_pinned: false,
        created_at: now,
        source_app: None,
        image_hash: None,
    }
}

/// The record of a text.
pub open spec fn text_item(text: Seq<char>, now: Seq<char>) -> ItemView {
    ItemView { content: Some(text), ..bare_item("text"@, now) }
}

/// The record of a picture that is stored at `path` and came from the file `source`, if from one.
pub open spec fn image_item(
    path: Seq<char>,
    hash: Seq<char>,
    source: Option<Seq<char>>,
    now: Seq<char>,
) -> ItemView {
    ItemView {
        image_path: Some(path),
        source_app: source,
        image_hash: Some(hash),
        ..bare_item("image"@, now)
    }
}

/// The record of files.
pub open spec fn file_item(paths: Seq<Seq<char>>, now: Seq<char>) -> ItemView {
    ItemView {
        file_paths: Some(paths),
        file_count: paths.len() as i64,
        source_app: if paths.len() > 0 {
            Some(paths[0])
        } else {
            None
        },
        ..bare_item("file"@, now)
    }
}

/// The history after a copy of what the record `id` holds already: the record is dated to `now`,
/// unless the program itself has put it on the clipboard.
pub open spec fn refreshed(d: DbView, id: i64, internal: Seq<i64>, now: Seq<char>) -> DbView {
    if internal.contains(id) {
        d
    } else {
        touched(d, id, now)
    }
}

/// What becomes of a copy of what the record `id` holds already.
pub open spec fn refresh_outcome(id: i64, internal: Seq<i64>) -> OutcomeView {
    if internal.contains(id) {
        OutcomeView::Nothing
    } else {
        OutcomeView::Touched(id)
    }
}

/// The text record with this content.
pub open spec fn known_text(d: DbView, text: Seq<char>) -> Option<i64> {
    first_id(d.rows, |r: RowView| is_text(r, text))
}

/// The image record with this fingerprint.
pub open spec fn known_image(d: DbView, hash: Seq<char>) -> Option<i64> {
    first_id(d.rows, |r: RowView| is_image(r, hash))
}

/// The file record with these paths.
pub open spec fn known_files(d: DbView, paths: Seq<Seq<char>>) -> Option<i64> {
    first_id(d.rows, |r: RowView| is_file(r, paths))
}

/// The history after a text was copied; `repeated` where the copy before held the same text.
pub open spec fn after_copied_text(
    d: DbView,
    text: Seq<char>,
    repeated: bool,
    internal: Seq<i64>,
    now: Seq<char>,
) -> DbView {
    if text.len() == 0 {
        d
    } else {
        match known_text(d, text) {
            Some(id) => refreshed(d, id, internal, now),
            None => if repeated {
                d
            } else {
                added(d, text_item(text, now))
            },
        }
    }
}

/// The history after files were copied.
pub open spec fn after_copied_files(
    d: DbView,
    paths: Seq<Seq<char>>,
    internal: Seq<i64>,
    now: Seq<char>,
) -> DbView {
    match known_files(d, paths) {
        Some(id) => refreshed(d, id, internal, now),
        None => added(d, file_item(paths, now)),
    }
}

fn bare(item_type: &str, now: &str) -> (r: ClipboardItem)
    ensures
        r@ == bare_item(item_type@, now@),
{
    ClipboardItem {
        id: 0,
        item_type: item_type.to_string(),
        content: None,
        image_path: None,
        thumbnail_path: None,
        file_paths: None,
        file_count: 0,
        is_favorite: false,
        is_pinned: false,
        created_at: now.to_string(),
        source_app: None,
        image_hash: None,
    }
}

fn refresh(db: &mut Database, id: i64, internal: &[i64], now: &str) -> (r: Outcome)
    requires
        old(db)@.wf(),
    ensures
        final(db)@ == refreshed(old(db)@, id, internal@, now@),
        r@ == refresh_outcome(id, internal@),
        final(db)@.wf(),
        old(db)@.in_sync() ==> final(db)@.in_sync(),
{
    if has_id(internal, id) {
        Outcome::Nothing
    } else {
        db.touch_item_at(id, now);
        Outcome::Touched(id)
    }
}

/// Takes in a text: a known one moves to the top, unless the program itself has put it on the
/// clipboard, and a new one is added, unless it is the same as last time. `last_text` is the text
/// of last time.
pub fn process_text(
    db: &mut Database,
    last_text: &mut Option<String>,
    text: &str,
    internal: &[i64],
    now: &str,
) -> (r: Result<Outcome, String>)
    requires
        old(db)@.wf(),
    ensures
        final(db)@.wf(),
        old(db)@.in_sync() ==> final(db)@.in_sync(),
        opt_text(*final(last_text)) == if text@.len() == 0 {
            opt_text(*old(last_text))
        } else {
            Some(text@)
        },
        ({
            let d = old(db)@;
            let repeated = opt_text(*old(last_text)) == Some(text@);
            let new = text@.len() > 0 && known_text(d, text@) is None && !repeated;
            match r {
                Ok(o) => {
                    &&& !(new && add_fault(d) is Some)
                    &&& final(db)@ == after_copied_text(d, text@, repeated, internal@, now@)
                    &&& o@ == if text@.len() == 0 {
                        OutcomeView::Nothing
                    } else {
                        match known_text(d, text@) {
                            Some(id) => refresh_outcome(id, internal@),
                            None => if repeated {
                                OutcomeView::Nothing
                            } else {
                                OutcomeView::Added((d.last_id + 1) as i64, text_item(text@, now@))
                            },
                        }
                    }
                },
                Err(e) => new && add_fault(d) == Some(e@) && final(db)@ == d,
            }
        }),
        r matches Ok(o) && o@ is Added ==> ({
            let row = final(db)@.rows.last();
            &&& final(db)@.rows.len() > 0 && final(db)@.rows.drop_last() == old(db)@.rows
            &&& row.item_type == "text"@ && row.content == Some(text@)
            &&& row.is_favorite == 0 && row.is_pinned == 0 && row.created_at == now@
        }),
{
    proof {
        reveal_strlit("");
        if text@.len() == 0 {
            assert(text@ =~= ""@);
        }
    }
    if same_text(text, "") {
        return Ok(Outcome::Nothing);
    }
    let repeated: bool = match last_text.as_ref() {
        Some(t) => same_text(t, text),
        None => false,
    };
    *last_text = Some(text.to_string());
    match db.find_text(text) {
        Some(id) => Ok(refresh(db, id, internal, now)),
        None => {
            if repeated {
                return Ok(Outcome::Nothing);
            }
            let mut item = bare("text", now);
            item.content = Some(text.to_string());
            proof {
                if db@.last_id < i64::MAX {
                    law_added_record(db@, item@);
                }
            }
            match db.add_item(&item) {
                Ok(id) => Ok(Outcome::Added(id, item)),
                Err(e) => Err(e),
            }
        },
    }
}

/// Takes in a list of files: a known one moves to the top, unless the program itself has put it on
/// the clipboard, and a new one is added.
pub fn process_file_record(
    db: &mut Database,
    paths: &[String],
    internal: &[i64],
    now: &str,
) -> (r: Result<Outcome, String>)
    requires
        old(db)@.wf(),
        paths@.len() <= i64::MAX,
    ensures
        final(db)@.wf(),
        old(db)@.in_sync() ==> final(db)@.in_sync(),
        ({
            let d = old(db)@;
            let new = known_files(d, texts(paths@)) is None;
            match r {
                Ok(o) => {
                    &&& !(new && add_fault(d) is Some)
                    &&& final(db)@ == after_copied_files(d, texts(paths@), internal@, now@)
                    &&& o@ == match known_files(d, texts(paths@)) {
                        Some(id) => refresh_outcome(id, internal@),
                        None => OutcomeView::Added(
                            (d.last_id + 1) as i64,
                            file_item(texts(paths@), now@),
                        ),
                    }
                    &&& new ==> json_read(json_written(texts(paths@))) == Some(texts(paths@))
                },
                Err(e) => new && add_fault(d) == Some(e@) && final(db)@ == d,
            }
        }),
        r matches Ok(o) && o@ is Added ==> ({
            let row = final(db)@.rows.last();
            &&& final(db)@.rows.len() > 0 && final(db)@.rows.drop_last() == old(db)@.rows
            &&& row.item_type == "file"@ && row.file_count == paths@.len()
            &&& row.is_favorite == 0 && row.is_pinned == 0 && row.created_at == now@
        }),
{
    match db.find_file(paths) {
        Some(id) => Ok(refresh(db, id, internal, now)),
        None => {
            let mut item = bare("file", now);
            item.file_paths = Some(copy_strings(paths));
            item.file_count = paths.len() as i64;
            if paths.len() > 0 {
                item.source_app = Some(paths[0].clone());
            }
            assert(item@ == file_item(texts(paths@), now@));
            proof {
                if db@.last_id < i64::MAX {
                    law_added_record(db@, item@);
                }
            }
            match db.add_item(&item) {
                Ok(id) => Ok(Outcome::Added(id, item)),
                Err(e) => Err(e),
            }
        },
    }
}

/// Whether all of some files are pictures, by what was found of each.
pub open spec fn all_pictures(image: Seq<bool>) -> bool {
    forall|i: int| 0 <= i < image.len() ==> #[trigger] image[i]
}

/// Whether files are taken in as pictures, one by one: all of them must be.
pub fn taken_as_pictures(image: &[bool]) -> (r: bool)
    ensures
        r == all_pictures(image@),
{
    for k in 0..image.len()
        invariant
            forall|i: int| 0 <= i < k ==> #[trigger] image@[i],
    {
        if !image[k] {
            return false;
        }
    }
    true
}

/// Takes in files that are not all pictures as one file record of them all; pictures alone are taken
/// in each by itself instead. `image` tells which are.
pub fn process_files(
    db: &mut Database,
    paths: &[String],
    image: &[bool],
    internal: &[i64],
    now: &str,
) -> (r: Result<Outcome, String>)
    requires
        old(db)@.wf(),
        paths@.len() == image@.len(),
        paths@.len() <= i64::MAX,
    ensures
        final(db)@.wf(),
        old(db)@.in_sync() ==> final(db)@.in_sync(),
        ({
            let d = old(db)@;
            let list = texts(paths@);
            let new = !all_pictures(image@) && known_files(d, list) is None;
            match r {
                Ok(o) => {
                    &&& !(new && add_fault(d) is Some)
                    &&& final(db)@ == if all_pictures(image@) {
                        d
                    } else {
                        after_copied_files(d, list, internal@, now@)
                    }
                    &&& o@ == if all_pictures(image@) {
                        OutcomeView::Nothing
                    } else {
                        match known_files(d, list) {
                            Some(id) => refresh_outcome(id, internal@),
                            None => OutcomeView::Added(
                                (d.last_id + 1) as i64,
                                file_item(list, now@),
                            ),
                        }
                    }
                },
                Err(e) => new && add_fault(d) == Some(e@) && final(db)@ == d,
            }
        }),
{
    if taken_as_pictures(image) {
        return Ok(Outcome::Nothing);
    }
    process_file_record(db, paths, internal, now)
}

/// What becomes of a picture.
pub enum ImageStep {
    /// It is known, and this has become of it.
    Known(Outcome),
    /// It is new: its PNG file goes to the path of this record, which is to be added then.
    New(ClipboardItem),
}

/// The path of a stored picture: `kind`, a time, and the ending of its format.
pub open spec fn picture_path(dir: Seq<char>, kind: Seq<char>, stamp: Seq<char>) -> Seq<char> {
    joined(dir, kind + stamp + ".png"@)
}

fn png_path(dir: &str, kind: &str, stamp: &str) -> (r: String)
    ensures
        r@ == picture_path(dir@, kind@, stamp@),
{
    let mut name = kind.to_string();
    push_text(&mut name, stamp);
    push_text(&mut name, ".png");
    join_path(dir, &name)
}

/// The path where a picture waits to be taken in, by the time at which it was copied.
pub fn buffer_path(db: &Database, stamp: &str) -> (r: String)
    ensures
        r@ == picture_path(buffer_in(db@.data_dir), "buf_"@, stamp@),
{
    png_path(&db.buffer_dir(), "buf_", stamp)
}

fn image_step(
    db: &mut Database,
    picture: &Picture,
    kind: &str,
    source: Option<String>,
    internal: &[i64],
    now: &str,
    stamp: &str,
) -> (r: ImageStep)
    requires
        old(db)@.wf(),
    ensures
        final(db)@.wf(),
        old(db)@.in_sync() ==> final(db)@.in_sync(),
        ({
            let d = old(db)@;
            let hash = fingerprint(picture.rgba@);
            match (r, known_image(d, hash)) {
                (ImageStep::Known(o), Some(id)) => {
                    &&& final(db)@ == refreshed(d, id, internal@, now@)
                    &&& o@ == refresh_outcome(id, internal@)
                },
                (ImageStep::New(item), None) => {
                    &&& final(db)@ == d
                    &&& item@ == image_item(
                        picture_path(images_in(d.data_dir), kind@, stamp@),
                        hash,
                        opt_text(source),
                        now@,
                    )
                },
                _ => false,
            }
        }),
{
    let hash = compute_image_hash(picture);
    match db.find_image_by_hash(&hash) {
        Some(id) => ImageStep::Known(refresh(db, id, internal, now)),
        None => {
            let mut item = bare("image", now);
            item.image_path = Some(png_path(&db.images_dir(), kind, stamp));
            item.source_app = source;
            item.image_hash = Some(hash);
            ImageStep::New(item)
        },
    }
}

/// Takes in a picture that was copied as such and waits in the buffer: a known one moves to the
/// top, unless the program itself has put it on the clipboard.
pub fn process_image_job(
    db: &mut Database,
    picture: &Picture,
    internal: &[i64],
    now: &str,
    stamp: &str,
) -> (r: ImageStep)
    requires
        old(db)@.wf(),
    ensures
        final(db)@.wf(),
        old(db)@.in_sync() ==> final(db)@.in_sync(),
        ({
            let d = old(db)@;
            let hash = fingerprint(picture.rgba@);
            match (r, known_image(d, hash)) {
                (ImageStep::Known(o), Some(id)) => {
                    &&& final(db)@ == refreshed(d, id, internal@, now@)
                    &&& o@ == refresh_outcome(id, internal@)
                },
                (ImageStep::New(item), None) => {
                    &&& final(db)@ == d
                    &&& item@ == image_item(
                        picture_path(images_in(d.data_dir), "clip_"@, stamp@),
                        hash,
                        None,
                        now@,
                    )
                },
                _ => false,
            }
        }),
{
    image_step(db, picture, "clip_", None, internal, now, stamp)
}

/// Takes in a picture that was copied as the file `path`: a known one moves to the top, unless the
/// program itself has put it on the clipboard.
pub fn try_process_image(
    db: &mut Database,
    picture: &Picture,
    path: &str,
    internal: &[i64],
    now: &str,
    stamp: &str,
) -> (r: ImageStep)
    requires
        old(db)@.wf(),
    ensures
        final(db)@.wf(),
        old(db)@.in_sync() ==> final(db)@.in_sync(),
        ({
            let d = old(db)@;
            let hash = fingerprint(picture.rgba@);
            match (r, known_image(d, hash)) {
                (ImageStep::Known(o), Some(id)) => {
                    &&& final(db)@ == refreshed(d, id, internal@, now@)
                    &&& o@ == refresh_outcome(id, internal@)
                },
                (ImageStep::New(item), None) => {
                    &&& final(db)@ == d
                    &&& item@ == image_item(
                        picture_path(images_in(d.data_dir), "file_"@, stamp@),
                        hash,
                        Some(path@),
                        now@,
                    )
                },
                _ => false,
            }
        }),
{
    image_step(db, picture, "file_", Some(path.to_string()), internal, now, stamp)
}

/// Dating a record anew does not change which row is the first of a kind, where the kind does not
/// depend on the date.
proof fn lemma_touch_keeps_first(
    rows: Seq<RowView>,
    id: i64,
    now: Seq<char>,
    p: spec_fn(RowView) -> bool,
)
    requires
        forall|r: RowView| #[trigger] p(r) == p(RowView { created_at: now, ..r }),
    ensures
        first_id(updated(rows, id, |r: RowView| RowView { created_at: now, ..r }), p) == first_id(
            rows,
            p,
        ),
    decreases rows.len(),
{
    let f = |r: RowView| RowView { created_at: now, ..r };
    let u = updated(rows, id, f);
    if rows.len() > 0 {
        lemma_touch_keeps_first(rows.drop_first(), id, now, p);
        assert(u.drop_first() =~= updated(rows.drop_first(), id, f));
        assert(p(rows[0]) == p(f(rows[0])));
    }
}

/// A text that is copied again makes no further record, whoever copies it and whenever.
pub proof fn law_text_is_recorded_once(
    d: DbView,
    text: Seq<char>,
    repeated: bool,
    internal: Seq<i64>,
    now: Seq<char>,
    repeated_later: bool,
    internal_later: Seq<i64>,
    later: Seq<char>,
)
    requires
        d.wf(),
        d.last_id < i64::MAX,
    ensures
        ({
            let once = after_copied_text(d, text, repeated, internal, now);
            text.len() > 0 && !repeated ==> known_text(once, text) is Some && after_copied_text(
                once,
                text,
                repeated_later,
                internal_later,
                later,
            ).rows.len() == once.rows.len()
        }),
{
    let p = |r: RowView| is_text(r, text);
    if text.len() > 0 && !repeated {
        match known_text(d, text) {
            Some(id) => {
                lemma_touch_keeps_first(d.rows, id, now, p);
            },
            None => {
                crate::laws::law_added_text_is_found(d, text_item(text, now), text);
            },
        }
    }
}

/// The same files, copied again in whatever order, make no further record, given that stored lists
/// read back as they were.
pub proof fn law_files_are_recorded_once(
    d: DbView,
    paths: Seq<Seq<char>>,
    internal: Seq<i64>,
    now: Seq<char>,
    other: Seq<Seq<char>>,
    internal_later: Seq<i64>,
    later: Seq<char>,
)
    requires
        d.wf(),
        d.last_id < i64::MAX,
        paths.to_set() == other.to_set(),
        json_read(json_written(paths)) == Some(paths),
    ensures
        ({
            let once = after_copied_files(d, paths, internal, now);
            after_copied_files(once, other, internal_later, later).rows.len() == once.rows.len()
        }),
{
    let p = |r: RowView| is_file(r, paths);
    let q = |r: RowView| is_file(r, other);
    lemma_same_first(d.rows, p, q);
    match known_files(d, paths) {
        Some(id) => {
            lemma_touch_keeps_first(d.rows, id, now, q);
        },
        None => {
            crate::laws::law_added_files_are_found(d, file_item(paths, now), paths, other);
        },
    }
}

proof fn lemma_same_first(
    rows: Seq<RowView>,
    p: spec_fn(RowView) -> bool,
    q: spec_fn(RowView) -> bool,
)
    requires
        forall|r: RowView| #[trigger] p(r) == q(r),
    ensures
        first_id(rows, p) == first_id(rows, q),
    decreases rows.len(),
{
    if rows.len() > 0 {
        lemma_same_first(rows.drop_first(), p, q);
        assert(p(rows[0]) == q(rows[0]));
    }
}

/// A picture that was added is known from then on, so that a further copy makes no record.
pub proof fn law_image_is_recorded_once(
    d: DbView,
    path: Seq<char>,
    hash: Seq<char>,
    source: Option<Seq<char>>,
    now: Seq<char>,
)
    requires
        d.wf(),
        d.last_id < i64::MAX,
    ensures
        known_image(added(d, image_item(path, hash, source, now)), hash) is Some,
{
    crate::laws::law_added_image_is_found(d, image_item(path, hash, source, now), hash);
}

proof fn lemma_first_exists(rows: Seq<RowView>, i: int, p: spec_fn(RowView) -> bool)
    requires
        0 <= i < rows.len(),
        p(rows[i]),
    ensures
        first_id(rows, p) is Some,
    decreases rows.len(),
{
    if !p(rows[0]) {
        assert(rows.drop_first()[i - 1] == rows[i]);
        lemma_first_exists(rows.drop_first(), i - 1, p);
    }
}

/// Putting what a record holds back on the clipboard makes no further record.
pub proof fn law_copying_back_adds_nothing(
    d: DbView,
    i: int,
    text: Seq<char>,
    hash: Seq<char>,
    paths: Seq<Seq<char>>,
    repeated: bool,
    internal: Seq<i64>,
    now: Seq<char>,
)
    requires
        0 <= i < d.rows.len(),
    ensures
        is_text(d.rows[i], text) ==> after_copied_text(
            d,
            text,
            repeated,
            internal,
            now,
        ).rows.len() == d.rows.len(),
        is_image(d.rows[i], hash) ==> known_image(d, hash) is Some,
        is_file(d.rows[i], paths) ==> after_copied_files(d, paths, internal, now).rows.len()
            == d.rows.len(),
{
    if is_text(d.rows[i], text) {
        lemma_first_exists(d.rows, i, |r: RowView| is_text(r, text));
    }
    if is_image(d.rows[i], hash) {
        lemma_first_exists(d.rows, i, |r: RowView| is_image(r, hash));
    }
    if is_file(d.rows[i], paths) {
        lemma_first_exists(d.rows, i, |r: RowView| is_file(r, paths));
    }
}

/// What the program itself puts on the clipboard leaves the history as it is.
pub proof fn law_internal_copy_changes_nothing(
    d: DbView,
    text: Seq<char>,
    paths: Seq<Seq<char>>,
    repeated: bool,
    internal: Seq<i64>,
    now: Seq<char>,
)
    ensures
        known_text(d, text) matches Some(id) && internal.contains(id) ==> after_copied_text(
            d,
            text,
            repeated,
            internal,
            now,
        ) == d,
        known_files(d, paths) matches Some(id) && internal.contains(id) ==> after_copied_files(
            d,
            paths,
            internal,
            now,
        ) == d,
{
}

} // verus!
