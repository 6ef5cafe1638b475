//! Upkeep of the history: what older stores lack, and paths that have moved.

use crate::db::{images_in, thumbs_in, Database, DbView};
use crate::digits::{decimal_text, signed_decimal};
use crate::models::{Row, RowView};
use crate::outside::{fitted, resampled};
use crate::patterns::{is_like, law_like_own_prefix, like};
use crate::picture::{can_shrink, fitted_thumbnail, thumb_size, thumbnail, Picture, THUMB_HEIGHT};
use crate::records::row_views;
use crate::table::{has_id, lemma_update_at, lemma_update_missing, row_place, updated};
use crate::text::{
    chars_of, has_text, opt_text, push_chars, push_text, same_chars, same_text, texts,
};
use crate::winpath::{file_name, is_sep, join_path, joined, name_of, sep_char};
use vstd::prelude::*;
use vstd::slice::slice_subrange;

verus! {

/// The paths to look for when a stored path may have moved to the directory `dir`: itself, and the
/// file of its name there.
pub open spec fn path_probes(path: Option<Seq<char>>, dir: Seq<char>) -> Seq<Seq<char>> {
    match path {
        Some(p) => match name_of(p) {
            Some(n) => seq![p, joined(dir, n)],
            None => seq![p],
        },
        None => seq![],
    }
}

/// The paths to look for when the files of `rows` may have moved.
pub open spec fn row_probes(
    rows: Seq<RowView>,
    images: Seq<char>,
    thumbs: Seq<char>,
) -> Seq<Seq<char>>
    decreases rows.len(),
{
    if rows.len() == 0 {
        seq![]
    } else {
        row_probes(rows.drop_last(), images, thumbs) + path_probes(rows.last().image_path, images)
            + path_probes(rows.last().thumbnail_path, thumbs)
    }
}

/// Where the file of a stored path has moved to, where it has: it is not at its path, and there is
/// one of its name in the directory `dir`. `present` lists the paths at which there is a file.
pub open spec fn moved_to(
    path: Option<Seq<char>>,
    dir: Seq<char>,
    present: Seq<Seq<char>>,
) -> Option<Seq<char>> {
    match path {
        Some(p) => if present.contains(p) {
            None
        } else {
            match name_of(p) {
                Some(n) => if present.contains(joined(dir, n)) {
                    Some(joined(dir, n))
                } else {
                    None
                },
                None => None,
            }
        },
        None => None,
    }
}

/// Whether a file of the record has moved.
pub open spec fn needs_repair(
    r: RowView,
    images: Seq<char>,
    thumbs: Seq<char>,
    present: Seq<Seq<char>>,
) -> bool {
    moved_to(r.image_path, images, present) is Some || moved_to(
        r.thumbnail_path,
        thumbs,
        present,
    ) is Some
}

/// A stored path after a repair: where its file has moved to, or else as it was.
pub open spec fn mended(
    path: Option<Seq<char>>,
    dir: Seq<char>,
    present: Seq<Seq<char>>,
) -> Option<Seq<char>> {
    if moved_to(path, dir, present) is Some {
        moved_to(path, dir, present)
    } else {
        path
    }
}

/// The record with the new path of each of its files that has moved.
pub open spec fn repaired(
    r: RowView,
    images: Seq<char>,
    thumbs: Seq<char>,
    present: Seq<Seq<char>>,
) -> RowView {
    RowView {
        image_path: mended(r.image_path, images, present),
        thumbnail_path: mended(r.thumbnail_path, thumbs, present),
        ..r
    }
}

/// A repair changes a path only where there was no file, and to one where there is: a path with a
/// file keeps it, and no path is given up.
pub proof fn law_repair_loses_nothing(
    path: Option<Seq<char>>,
    dir: Seq<char>,
    present: Seq<Seq<char>>,
)
    ensures
        path is None <==> mended(path, dir, present) is None,
        path matches Some(p) && present.contains(p) ==> mended(path, dir, present) == path,
        mended(path, dir, present) != path ==> present.contains(mended(path, dir, present)->0),
{
}

fn push_probes(out: &mut Vec<String>, path: &Option<String>, dir: &str)
    ensures
        texts(final(out)@) == texts(old(out)@) + path_probes(opt_text(*path), dir@),
{
    let ghost start = out@;
    match path {
        Some(p) => {
            out.push(p.clone());
            assert(texts(out@) =~= texts(start).push(p@));
            match file_name(p) {
                Some(n) => {
                    let ghost mid = out@;
                    out.push(join_path(dir, &n));
                    assert(texts(out@) =~= texts(mid).push(joined(dir@, n@)));
                },
                None => {},
            }
        },
        None => {},
    }
    assert(texts(out@) =~= texts(start) + path_probes(opt_text(*path), dir@));
}

fn new_place(path: &Option<String>, dir: &str, present: &[String]) -> (r: Option<String>)
    ensures
        opt_text(r) == moved_to(opt_text(*path), dir@, texts(present@)),
{
    match path {
        Some(p) => {
            if has_text(present, p) {
                return None;
            }
            match file_name(p) {
                Some(n) => {
                    let np = join_path(dir, &n);
                    if has_text(present, &np) {
                        Some(np)
                    } else {
                        None
                    }
                },
                None => None,
            }
        },
        None => None,
    }
}

/// An image record without a fingerprint.
pub open spec fn lacks_hash(r: RowView) -> bool {
    r.item_type == "image"@ && (r.image_hash is None || r.image_hash == Some(""@))
}

/// An image record without a thumbnail.
pub open spec fn lacks_thumb(r: RowView) -> bool {
    r.item_type == "image"@ && (r.thumbnail_path is None || r.thumbnail_path == Some(""@))
}

/// A record whose picture can be read to make its fingerprint.
pub open spec fn hash_job(r: RowView) -> bool {
    lacks_hash(r) && r.image_path is Some
}

/// A record whose picture can be read to make its thumbnail.
pub open spec fn thumb_job(r: RowView) -> bool {
    lacks_thumb(r) && r.image_path is Some && r.image_path->0.len() > 0
}

/// The ids and pictures of rows.
pub open spec fn jobs(rows: Seq<RowView>) -> Seq<(i64, Seq<char>)> {
    rows.map_values(|r: RowView| (r.id, r.image_path->0))
}

/// The views of ids with texts.
pub open spec fn pairs(v: Seq<(i64, String)>) -> Seq<(i64, Seq<char>)> {
    v.map_values(|p: (i64, String)| (p.0, p.1@))
}

/// The text that goes with an id: the first one given.
pub open spec fn text_for(v: Seq<(i64, Seq<char>)>, id: i64) -> Option<Seq<char>>
    decreases v.len(),
{
    if v.len() == 0 {
        None
    } else if v[0].0 == id {
        Some(v[0].1)
    } else {
        text_for(v.drop_first(), id)
    }
}

/// The record with its fingerprint, where it lacked one and one is given.
pub open spec fn hashed(r: RowView, hashes: Seq<(i64, Seq<char>)>) -> RowView {
    if hash_job(r) && text_for(hashes, r.id) is Some {
        RowView { image_hash: text_for(hashes, r.id), ..r }
    } else {
        r
    }
}

/// The name of the thumbnail of the record `id`.
pub open spec fn thumb_name(id: i64) -> Seq<char> {
    "thumb_"@ + signed_decimal(id as int) + ".png"@
}

/// The path of the thumbnail of the record `id`.
pub open spec fn thumb_path(data_dir: Seq<char>, id: i64) -> Seq<char> {
    joined(thumbs_in(data_dir), thumb_name(id))
}

/// The state after the thumbnail of the record `id` was made.
pub open spec fn with_thumbnail(d: DbView, id: i64) -> DbView {
    DbView {
        rows: updated(
            d.rows,
            id,
            |r: RowView| RowView { thumbnail_path: Some(thumb_path(d.data_dir, id)), ..r },
        ),
        ..d
    }
}

/// The record with the path of its thumbnail, where it lacked one and one was made.
pub open spec fn thumbed(r: RowView, data_dir: Seq<char>, made: Seq<i64>) -> RowView {
    if thumb_job(r) && made.contains(r.id) {
        RowView { thumbnail_path: Some(thumb_path(data_dir, r.id)), ..r }
    } else {
        r
    }
}

fn text_of_pair(v: &[(i64, String)], id: i64) -> (r: Option<String>)
    ensures
        opt_text(r) == text_for(pairs(v@), id),
{
    let ghost all = pairs(v@);
    assert(all.skip(0) =~= all);
    for k in 0..v.len()
        invariant
            all == pairs(v@),
            text_for(all, id) == text_for(all.skip(k as int), id),
    {
        assert(all.skip(k as int)[0] == (v@[k as int].0, v@[k as int].1@));
        assert(all.skip(k as int).drop_first() =~= all.skip(k + 1));
        if v[k].0 == id {
            return Some(v[k].1.clone());
        }
    }
    None
}

fn blank(o: &Option<String>) -> (r: bool)
    ensures
        r == (opt_text(*o) is None || opt_text(*o) == Some(""@)),
{
    match o {
        Some(s) => same_text(s, ""),
        None => true,
    }
}

impl Database {
    /// The paths that [`Database::repair_missing_paths`] has to know of whether there is a file.
    pub fn repair_probes(&self) -> (r: Vec<String>)
        ensures
            texts(r@) == row_probes(
                self@.rows,
                images_in(self@.data_dir),
                thumbs_in(self@.data_dir),
            ),
    {
        let images = self.images_dir();
        let thumbs = self.thumbs_dir();
        let rows = self.row_slice();
        let ghost all = self@.rows;
        let mut out: Vec<String> = Vec::new();
        proof {
            assert(texts(out@) =~= seq![]);
            assert(all.take(0) =~= seq![]);
        }
        for k in 0..rows.len()
            invariant
                all == row_views(rows@),
                texts(out@) == row_probes(all.take(k as int), images@, thumbs@),
        {
            push_probes(&mut out, &rows[k].image_path, &images);
            push_probes(&mut out, &rows[k].thumbnail_path, &thumbs);
            proof {
                assert(all.take(k + 1).drop_last() =~= all.take(k as int));
                assert(all.take(k + 1).last() == rows@[k as int]@);
            }
        }
        assert(all.take(all.len() as int) =~= all);
        out
    }

    /// Gives the records whose files have moved to the data directory their new paths, and tells how
    /// many there are. `present` lists the probed paths at which there is a file.
    pub fn repair_missing_paths(&mut self, present: &[String]) -> (r: usize)
        requires
            old(self)@.wf(),
        ensures
            final(self)@.wf(),
            old(self)@.in_sync() ==> final(self)@.in_sync(),
            ({
                let d = old(self)@;
                let images = images_in(d.data_dir);
                let thumbs = thumbs_in(d.data_dir);
                &&& final(self)@ == (DbView {
                    rows: d.rows.map_values(
                        |r: RowView| repaired(r, images, thumbs, texts(present@)),
                    ),
                    ..d
                })
                &&& r == d.rows.filter(
                    |r: RowView| needs_repair(r, images, thumbs, texts(present@)),
                ).len()
            }),
    {
        let images = self.images_dir();
        let thumbs = self.thumbs_dir();
        let ghost d = self@;
        let ghost f = |r: RowView| repaired(r, images@, thumbs@, texts(present@));
        let ghost p = |r: RowView| needs_repair(r, images@, thumbs@, texts(present@));
        let rows = self.row_slice();
        let mut out: Vec<Row> = Vec::new();
        let mut fixed: usize = 0;
        proof {
            reveal(Seq::filter);
            assert(d.rows.take(0).filter(p) =~= seq![]);
            assert(row_views(out@) =~= d.rows.take(0).map_values(f));
        }
        for k in 0..rows.len()
            invariant
                d.rows == row_views(rows@),
                f == (|r: RowView| repaired(r, images@, thumbs@, texts(present@))),
                p == (|r: RowView| needs_repair(r, images@, thumbs@, texts(present@))),
                row_views(out@) == d.rows.take(k as int).map_values(f),
                fixed == d.rows.take(k as int).filter(p).len(),
                fixed <= k,
        {
            let mut row = rows[k].copy();
            let ghost before = out@;
            let image = new_place(&row.image_path, &images, present);
            let thumb = new_place(&row.thumbnail_path, &thumbs, present);
            if image.is_some() || thumb.is_some() {
                fixed = fixed + 1;
            }
            if image.is_some() {
                row.image_path = image;
            }
            if thumb.is_some() {
                row.thumbnail_path = thumb;
            }
            let ghost placed = row@;
            out.push(row);
            proof {
                reveal(Seq::filter);
                assert(d.rows[k as int] == rows@[k as int]@);
                assert(placed == f(d.rows[k as int]));
                assert(d.rows.take(k + 1).drop_last() =~= d.rows.take(k as int));
                assert(row_views(out@) =~= row_views(before).push(placed));
                assert(d.rows.take(k + 1).map_values(f) =~= d.rows.take(k as int).map_values(
                    f,
                ).push(placed));
            }
        }
        assert(d.rows.take(d.rows.len() as int) =~= d.rows);
        self.put_rows(out);
        fixed
    }

    /// The records without a fingerprint, with the pictures that it is to be made from.
    pub fn hash_jobs(&self) -> (r: Vec<(i64, String)>)
        ensures
            pairs(r@) == jobs(self@.rows.filter(|r: RowView| hash_job(r))),
    {
        let rows = self.row_slice();
        let ghost all = self@.rows;
        let ghost p = |r: RowView| hash_job(r);
        let mut out: Vec<(i64, String)> = Vec::new();
        proof {
            reveal(Seq::filter);
            assert(all.take(0).filter(p) =~= seq![]);
            assert(pairs(out@) =~= jobs(all.take(0).filter(p)));
        }
        for k in 0..rows.len()
            invariant
                all == row_views(rows@),
                p == (|r: RowView| hash_job(r)),
                pairs(out@) == jobs(all.take(k as int).filter(p)),
        {
            let row = &rows[k];
            let ghost before = out@;
            let ghost f = all.take(k as int).filter(p);
            let lacks = same_text(&row.item_type, "image") && blank(&row.image_hash);
            proof {
                reveal(Seq::filter);
                assert(all[k as int] == row@);
                assert(all.take(k + 1).drop_last() =~= all.take(k as int));
            }
            if lacks {
                match &row.image_path {
                    Some(path) => {
                        out.push((row.id, path.clone()));
                        assert(pairs(out@) =~= pairs(before).push((row@.id, path@)));
                        assert(jobs(f.push(row@)) =~= jobs(f).push((row@.id, path@)));
                    },
                    None => {},
                }
            }
        }
        assert(all.take(all.len() as int) =~= all);
        out
    }

    /// Stores the fingerprints that could be made for [`Database::hash_jobs`], and tells how many
    /// records were lacking one and have it now.
    pub fn backfill_image_hashes(&mut self, hashes: &[(i64, String)]) -> (r: usize)
        requires
            old(self)@.wf(),
        ensures
            final(self)@.wf(),
            old(self)@.in_sync() ==> final(self)@.in_sync(),
            final(self)@ == (DbView {
                rows: old(self)@.rows.map_values(|r: RowView| hashed(r, pairs(hashes@))),
                ..old(self)@
            }),
            r == old(self)@.rows.filter(
                |r: RowView| hash_job(r) && text_for(pairs(hashes@), r.id) is Some,
            ).len(),
    {
        let ghost d = self@;
        let ghost f = |r: RowView| hashed(r, pairs(hashes@));
        let ghost p = |r: RowView| hash_job(r) && text_for(pairs(hashes@), r.id) is Some;
        let rows = self.row_slice();
        let mut out: Vec<Row> = Vec::new();
        let mut stored: usize = 0;
        proof {
            reveal(Seq::filter);
            assert(d.rows.take(0).filter(p) =~= seq![]);
            assert(row_views(out@) =~= d.rows.take(0).map_values(f));
        }
        for k in 0..rows.len()
            invariant
                d.rows == row_views(rows@),
                f == (|r: RowView| hashed(r, pairs(hashes@))),
                p == (|r: RowView| hash_job(r) && text_for(pairs(hashes@), r.id) is Some),
                row_views(out@) == d.rows.take(k as int).map_values(f),
                stored == d.rows.take(k as int).filter(p).len(),
                stored <= k,
        {
            let mut row = rows[k].copy();
            let ghost before = out@;
            if same_text(&row.item_type, "image") && blank(&row.image_hash)
                && row.image_path.is_some() {
                let hash = text_of_pair(hashes, row.id);
                if hash.is_some() {
                    row.image_hash = hash;
                    stored = stored + 1;
                }
            }
            let ghost placed = row@;
            out.push(row);
            proof {
                reveal(Seq::filter);
                assert(d.rows[k as int] == rows@[k as int]@);
                assert(placed == f(d.rows[k as int]));
                assert(d.rows.take(k + 1).drop_last() =~= d.rows.take(k as int));
                assert(row_views(out@) =~= row_views(before).push(placed));
                assert(d.rows.take(k + 1).map_values(f) =~= d.rows.take(k as int).map_values(
                    f,
                ).push(placed));
            }
        }
        assert(d.rows.take(d.rows.len() as int) =~= d.rows);
        self.put_rows(out);
        stored
    }

    /// The path of the thumbnail of the record `id`.
    pub fn thumbnail_path(&self, id: i64) -> (r: String)
        ensures
            r@ == thumb_path(self@.data_dir, id),
    {
        let mut name = "thumb_".to_string();
        push_text(&mut name, &decimal_text(id));
        push_text(&mut name, ".png");
        join_path(&self.thumbs_dir(), &name)
    }

    /// Stores the path of the thumbnail of the record `record_id`, and hands it out.
    fn store_thumbnail_path(&mut self, record_id: i64) -> (r: String)
        requires
            old(self)@.wf(),
        ensures
            final(self)@ == with_thumbnail(old(self)@, record_id),
            final(self)@.wf(),
            old(self)@.in_sync() ==> final(self)@.in_sync(),
            r@ == thumb_path(old(self)@.data_dir, record_id),
    {
        let ghost d = self@;
        let path = self.thumbnail_path(record_id);
        let ghost f = |r: RowView|
            RowView { thumbnail_path: Some(thumb_path(d.data_dir, record_id)), ..r };
        match row_place(self.row_slice(), record_id) {
            Some(i) => {
                let mut row = self.row_slice()[i].copy();
                row.thumbnail_path = Some(path.clone());
                proof {
                    lemma_update_at(d.rows, i as int, f);
                }
                self.put_row(i, row);
            },
            None => {
                proof {
                    lemma_update_missing(d.rows, record_id, f);
                }
            },
        }
        path
    }

    /// The thumbnail of the record `record_id`, scaled with its proportions kept from the picture in
    /// its file, and the path where it goes, which is stored.
    pub fn generate_thumbnail(&mut self, record_id: i64, picture: Picture, scaled: u32) -> (r: (
        String,
        Picture,
    ))
        requires
            old(self)@.wf(),
            picture.wf(),
            can_shrink(picture.width, picture.height, scaled),
        ensures
            final(self)@ == with_thumbnail(old(self)@, record_id),
            final(self)@.wf(),
            old(self)@.in_sync() ==> final(self)@.in_sync(),
            r.0@ == thumb_path(old(self)@.data_dir, record_id),
            r.1.wf(),
            ((r.1.width, r.1.height), r.1.rgba@) == fitted(
                (picture.width, picture.height),
                picture.rgba@,
                thumb_size((picture.width, picture.height), scaled),
            ),
            r.1.height <= THUMB_HEIGHT,
            r.1.width <= thumb_size((picture.width, picture.height), scaled).0 || r.1.width == 1,
    {
        let small = fitted_thumbnail(picture, scaled);
        let path = self.store_thumbnail_path(record_id);
        (path, small)
    }

    /// The thumbnail of the record `record_id`, made from its picture, and the path where it goes,
    /// which is stored.
    pub fn generate_thumbnail_from_rgba(
        &mut self,
        record_id: i64,
        picture: Picture,
        scaled: u32,
    ) -> (r: (String, Picture))
        requires
            old(self)@.wf(),
            picture.wf(),
            can_shrink(picture.width, picture.height, scaled),
        ensures
            final(self)@ == with_thumbnail(old(self)@, record_id),
            final(self)@.wf(),
            old(self)@.in_sync() ==> final(self)@.in_sync(),
            r.0@ == thumb_path(old(self)@.data_dir, record_id),
            r.1.wf(),
            (r.1.width, r.1.height) == thumb_size((picture.width, picture.height), scaled),
            r.1.height <= THUMB_HEIGHT,
            r.1.rgba@ == resampled(
                (picture.width, picture.height),
                picture.rgba@,
                thumb_size((picture.width, picture.height), scaled),
            ),
    {
        let small = thumbnail(picture, scaled);
        let path = self.store_thumbnail_path(record_id);
        (path, small)
    }

    /// The records without a thumbnail, with the pictures that it is to be made from.
    pub fn thumbnail_jobs(&self) -> (r: Vec<(i64, String)>)
        ensures
            pairs(r@) == jobs(self@.rows.filter(|r: RowView| thumb_job(r))),
    {
        let rows = self.row_slice();
        let ghost all = self@.rows;
        let ghost p = |r: RowView| thumb_job(r);
        let mut out: Vec<(i64, String)> = Vec::new();
        proof {
            reveal(Seq::filter);
            reveal_strlit("");
            assert(all.take(0).filter(p) =~= seq![]);
            assert(pairs(out@) =~= jobs(all.take(0).filter(p)));
        }
        for k in 0..rows.len()
            invariant
                all == row_views(rows@),
                p == (|r: RowView| thumb_job(r)),
                pairs(out@) == jobs(all.take(k as int).filter(p)),
        {
            let row = &rows[k];
            let ghost before = out@;
            let ghost f = all.take(k as int).filter(p);
            let lacks = same_text(&row.item_type, "image") && blank(&row.thumbnail_path);
            proof {
                reveal(Seq::filter);
                reveal_strlit("");
                assert(all[k as int] == row@);
                assert(all.take(k + 1).drop_last() =~= all.take(k as int));
            }
            if lacks && !blank(&row.image_path) {
                match &row.image_path {
                    Some(path) => {
                        assert(path@.len() == 0 ==> path@ =~= ""@);
                        out.push((row.id, path.clone()));
                        assert(pairs(out@) =~= pairs(before).push((row@.id, path@)));
                        assert(jobs(f.push(row@)) =~= jobs(f).push((row@.id, path@)));
                    },
                    None => {},
                }
            }
        }
        assert(all.take(all.len() as int) =~= all);
        out
    }

    /// Stores the paths of the thumbnails that could be made for [`Database::thumbnail_jobs`], and
    /// tells how many records were lacking one and have it now.
    pub fn backfill_thumbnails(&mut self, made: &[i64]) -> (r: usize)
        requires
            old(self)@.wf(),
        ensures
            final(self)@.wf(),
            old(self)@.in_sync() ==> final(self)@.in_sync(),
            final(self)@ == (DbView {
                rows: old(self)@.rows.map_values(
                    |r: RowView| thumbed(r, old(self)@.data_dir, made@),
                ),
                ..old(self)@
            }),
            r == old(self)@.rows.filter(|r: RowView| thumb_job(r) && made@.contains(r.id)).len(),
    {
        let ghost d = self@;
        let ghost f = |r: RowView| thumbed(r, d.data_dir, made@);
        let ghost p = |r: RowView| thumb_job(r) && made@.contains(r.id);
        let rows = self.row_slice();
        let mut out: Vec<Row> = Vec::new();
        let mut stored: usize = 0;
        proof {
            reveal(Seq::filter);
            assert(d.rows.take(0).filter(p) =~= seq![]);
            assert(row_views(out@) =~= d.rows.take(0).map_values(f));
        }
        for k in 0..rows.len()
            invariant
                d == self@,
                d.rows == row_views(rows@),
                f == (|r: RowView| thumbed(r, d.data_dir, made@)),
                p == (|r: RowView| thumb_job(r) && made@.contains(r.id)),
                row_views(out@) == d.rows.take(k as int).map_values(f),
                stored == d.rows.take(k as int).filter(p).len(),
                stored <= k,
        {
            let mut row = rows[k].copy();
            let ghost before = out@;
            proof {
                reveal_strlit("");
                if row@.image_path is Some && row@.image_path->0.len() == 0 {
                    assert(row@.image_path->0 =~= ""@);
                }
            }
            if same_text(&row.item_type, "image") && blank(&row.thumbnail_path) && !blank(
                &row.image_path,
            ) && has_id(made, row.id) {
                row.thumbnail_path = Some(self.thumbnail_path(row.id));
                stored = stored + 1;
            }
            let ghost placed = row@;
            out.push(row);
            proof {
                reveal(Seq::filter);
                assert(d.rows[k as int] == rows@[k as int]@);
                assert(placed == f(d.rows[k as int]));
                assert(d.rows.take(k + 1).drop_last() =~= d.rows.take(k as int));
                assert(row_views(out@) =~= row_views(before).push(placed));
                assert(d.rows.take(k + 1).map_values(f) =~= d.rows.take(k as int).map_values(
                    f,
                ).push(placed));
            }
        }
        assert(d.rows.take(d.rows.len() as int) =~= d.rows);
        self.put_rows(out);
        stored
    }
}

/// Whether the path `p` is written as one in the directory `dir`: it begins with it, and there it
/// ends, or a separator stands.
pub open spec fn lies_under(p: Seq<char>, dir: Seq<char>) -> bool {
    &&& 0 < dir.len() <= p.len()
    &&& p.take(dir.len() as int) == dir
    &&& p.len() == dir.len() || is_sep(dir.last()) || is_sep(p[dir.len() as int])
}

/// A stored path under the data directory `old`, moved to the data directory `new`.
pub open spec fn migrated(path: Option<Seq<char>>, old: Seq<char>, new: Seq<char>) -> Option<
    Seq<char>,
> {
    match path {
        Some(p) => if lies_under(p, old) {
            Some(new + p.skip(old.len() as int))
        } else {
            Some(p)
        },
        None => None,
    }
}

/// Whether a stored path is looked at when the data directory `old` has moved: it is like one that
/// begins so, as SQL takes that.
pub open spec fn considered(path: Option<Seq<char>>, old: Seq<char>) -> bool {
    path matches Some(p) && like(old.push('%'), p)
}

/// The record with its files under the new data directory.
pub open spec fn migrated_row(r: RowView, old: Seq<char>, new: Seq<char>) -> RowView {
    RowView {
        image_path: migrated(r.image_path, old, new),
        thumbnail_path: migrated(r.thumbnail_path, old, new),
        ..r
    }
}

fn migrate_path(path: &Option<String>, old: &[char], new: &str) -> (r: Option<String>)
    ensures
        opt_text(r) == migrated(opt_text(*path), old@, new@),
{
    match path {
        Some(p) => {
            let cs = chars_of(p);
            let n: usize = old.len();
            if n == 0 || cs.len() < n {
                return Some(p.clone());
            }
            let head = slice_subrange(&cs, 0, n);
            assert(head@ =~= p@.take(n as int));
            if same_chars(head, old) && (cs.len() == n || sep_char(old[n - 1]) || sep_char(cs[n])) {
                let tail = slice_subrange(&cs, n, cs.len());
                assert(tail@ =~= p@.skip(n as int));
                let mut moved = new.to_string();
                push_chars(&mut moved, tail);
                Some(moved)
            } else {
                Some(p.clone())
            }
        },
        None => None,
    }
}

fn is_considered(path: &Option<String>, pattern: &[char]) -> (r: bool)
    ensures
        r == (opt_text(*path) matches Some(p) && like(pattern@, p)),
{
    match path {
        Some(p) => is_like(pattern, &chars_of(p)),
        None => false,
    }
}

/// Moves the stored paths of pictures and thumbnails from the data directory `old_dir` to
/// `new_dir`, and tells how many pictures and how many thumbnails were looked at. Among those looked
/// at are paths that only resemble one in `old_dir`, and they stay as they are.
pub fn update_migrated_paths(db: &mut Database, new_dir: &str, old_dir: &str) -> (r: (usize, usize))
    requires
        old(db)@.wf(),
    ensures
        final(db)@.wf(),
        old(db)@.in_sync() ==> final(db)@.in_sync(),
        final(db)@ == (DbView {
            rows: old(db)@.rows.map_values(|r: RowView| migrated_row(r, old_dir@, new_dir@)),
            ..old(db)@
        }),
        r.0 == old(db)@.rows.filter(|r: RowView| considered(r.image_path, old_dir@)).len(),
        r.1 == old(db)@.rows.filter(|r: RowView| considered(r.thumbnail_path, old_dir@)).len(),
{
    let ghost d = db@;
    let ghost f = |r: RowView| migrated_row(r, old_dir@, new_dir@);
    let ghost p = |r: RowView| considered(r.image_path, old_dir@);
    let ghost q = |r: RowView| considered(r.thumbnail_path, old_dir@);
    let old_chars = chars_of(old_dir);
    let mut pattern = chars_of(old_dir);
    pattern.push('%');
    let rows = db.row_slice();
    let mut out: Vec<Row> = Vec::new();
    let mut images: usize = 0;
    let mut thumbs: usize = 0;
    proof {
        reveal(Seq::filter);
        assert(d.rows.take(0).filter(p) =~= seq![]);
        assert(d.rows.take(0).filter(q) =~= seq![]);
        assert(row_views(out@) =~= d.rows.take(0).map_values(f));
    }
    for k in 0..rows.len()
        invariant
            d.rows == row_views(rows@),
            old_chars@ == old_dir@,
            pattern@ == old_dir@.push('%'),
            f == (|r: RowView| migrated_row(r, old_dir@, new_dir@)),
            p == (|r: RowView| considered(r.image_path, old_dir@)),
            q == (|r: RowView| considered(r.thumbnail_path, old_dir@)),
            row_views(out@) == d.rows.take(k as int).map_values(f),
            images == d.rows.take(k as int).filter(p).len(),
            thumbs == d.rows.take(k as int).filter(q).len(),
            images <= k,
            thumbs <= k,
    {
        let mut row = rows[k].copy();
        let ghost before = out@;
        if is_considered(&row.image_path, &pattern) {
            images = images + 1;
        }
        if is_considered(&row.thumbnail_path, &pattern) {
            thumbs = thumbs + 1;
        }
        row.image_path = migrate_path(&row.image_path, &old_chars, new_dir);
        row.thumbnail_path = migrate_path(&row.thumbnail_path, &old_chars, new_dir);
        let ghost placed = row@;
        out.push(row);
        proof {
            reveal(Seq::filter);
            assert(d.rows[k as int] == rows@[k as int]@);
            assert(placed == f(d.rows[k as int]));
            assert(d.rows.take(k + 1).drop_last() =~= d.rows.take(k as int));
            assert(row_views(out@) =~= row_views(before).push(placed));
            assert(d.rows.take(k + 1).map_values(f) =~= d.rows.take(k as int).map_values(f).push(
                placed,
            ));
        }
    }
    assert(d.rows.take(d.rows.len() as int) =~= d.rows);
    db.put_rows(out);
    (images, thumbs)
}

/// A path under the old data directory is looked at, is afterwards the same path under the new one,
/// and moving back gives the path again.
pub proof fn law_migrated_path_moves(old: Seq<char>, new: Seq<char>, rest: Seq<char>)
    requires
        old.len() > 0,
        rest.len() == 0 || is_sep(rest[0]),
    ensures
        considered(Some(old + rest), old),
        migrated(Some(old + rest), old, new) == Some(new + rest),
        new.len() > 0 ==> migrated(migrated(Some(old + rest), old, new), new, old) == Some(
            old + rest,
        ),
{
    law_like_own_prefix(old, rest);
    assert((old + rest).take(old.len() as int) =~= old);
    assert((old + rest).skip(old.len() as int) =~= rest);
    assert((new + rest).take(new.len() as int) =~= new);
    assert((new + rest).skip(new.len() as int) =~= rest);
}

/// No path moves that is not looked at.
pub proof fn law_moved_is_considered(old: Seq<char>, new: Seq<char>, p: Seq<char>)
    requires
        migrated(Some(p), old, new) != Some(p),
    ensures
        considered(Some(p), old),
{
    law_like_own_prefix(old, p.skip(old.len() as int));
    assert(old + p.skip(old.len() as int) =~= p);
}

/// A path outside of the old data directory, such as one in a directory whose name goes on, stays as
/// it is.
pub proof fn law_other_paths_stay(old: Seq<char>, new: Seq<char>, p: Seq<char>)
    requires
        !lies_under(p, old),
    ensures
        migrated(Some(p), old, new) == Some(p),
{
}

/// The columns that older tables lack.
pub open spec fn later_columns() -> Seq<Seq<char>> {
    seq!["thumbnail_path"@, "file_count"@, "image_hash"@]
}

/// The statement that adds a column to the table of records.
pub open spec fn add_column(column: Seq<char>) -> Seq<char> {
    "ALTER TABLE clipboard_items ADD COLUMN "@ + column + if column == "file_count"@ {
        " INTEGER DEFAULT 0"@
    } else {
        " TEXT"@
    }
}

/// The statements that add to a table with the columns `columns` those that it lacks.
pub open spec fn upgrades(columns: Seq<Seq<char>>) -> Seq<Seq<char>> {
    later_columns().filter(|c: Seq<char>| !columns.contains(c)).map_values(
        |c: Seq<char>| add_column(c),
    )
}

/// The statements that bring a table of records with the columns `columns` up to date.
pub fn schema_upgrades(columns: &[String]) -> (r: Vec<String>)
    ensures
        texts(r@) == upgrades(texts(columns@)),
{
    let ghost all = later_columns();
    let ghost p = |c: Seq<char>| !texts(columns@).contains(c);
    let ghost f = |c: Seq<char>| add_column(c);
    let mut out: Vec<String> = Vec::new();
    let later: [&str; 3] = ["thumbnail_path", "file_count", "image_hash"];
    proof {
        reveal(Seq::filter);
        assert(all.take(0).filter(p) =~= seq![]);
        assert(texts(out@) =~= all.take(0).filter(p).map_values(f));
    }
    for k in 0..3usize
        invariant
            all == later_columns(),
            later@.len() == 3,
            later@[0]@ == "thumbnail_path"@,
            later@[1]@ == "file_count"@,
            later@[2]@ == "image_hash"@,
            p == (|c: Seq<char>| !texts(columns@).contains(c)),
            f == (|c: Seq<char>| add_column(c)),
            texts(out@) == all.take(k as int).filter(p).map_values(f),
    {
        let column = later[k];
        let ghost g = all.take(k as int).filter(p);
        let ghost before = out@;
        let lacks = !has_text(columns, column);
        proof {
            reveal(Seq::filter);
            assert(all[k as int] == column@);
            assert(all.take(k + 1).drop_last() =~= all.take(k as int));
        }
        if lacks {
            let mut sql = "ALTER TABLE clipboard_items ADD COLUMN ".to_string();
            push_text(&mut sql, column);
            if same_text(column, "file_count") {
                push_text(&mut sql, " INTEGER DEFAULT 0");
            } else {
                push_text(&mut sql, " TEXT");
            }
            let ghost made = sql@;
            out.push(sql);
            proof {
                assert(made =~= add_column(column@));
                assert(texts(out@) =~= texts(before).push(made));
                assert(g.push(column@).map_values(f) =~= g.map_values(f).push(made));
            }
        }
    }
    assert(all.take(3) =~= all);
    out
}

} // verus!
