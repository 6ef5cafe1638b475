//! What upkeep does: repairing paths, filling in fingerprints and thumbnails, bringing older tables up
//! to date, and keeping files within their limits.

use crate::db::{buffer_in, images_in, thumbs_in, DbView};
use crate::digits::{decimal, digit, signed_decimal};
use crate::models::RowView;
use crate::outside::ascii_lower_char;
use crate::patterns::like;
use crate::picture::thumb_size;
use crate::records::ascending;
use crate::sweep::{in_order, less, may_go, older, oldest_first, BufferView, SweepView};
use crate::table::lemma_filter_ascending;
use crate::text::text_lt;
use crate::upkeep::{
    add_column, considered, hash_job, hashed, jobs, mended, needs_repair, repaired, row_probes,
    text_for, thumb_job, thumb_name, thumb_path, thumbed, upgrades, with_thumbnail,
};
use crate::winpath::{joined, lemma_plain_name, lemma_stem, name_of, stem};
use vstd::prelude::*;

verus! {

/// A stored path is repaired exactly where there is no file at it, and one of its name in the
/// directory: then it becomes the path of that. Otherwise it stays.
pub proof fn law_repair_of_a_path(path: Option<Seq<char>>, dir: Seq<char>, present: Seq<Seq<char>>)
    ensures
        path is None ==> mended(path, dir, present) is None,
        path matches Some(p) ==> mended(path, dir, present) == if !present.contains(p) && (name_of(
            p,
        ) matches Some(n) && present.contains(joined(dir, n))) {
            Some(joined(dir, name_of(p)->0))
        } else {
            Some(p)
        },
{
}

/// A repair changes at most the two paths of a record, the picture by the directory of pictures and
/// the thumbnail by that of thumbnails; it counts exactly the records that it changes, and a second
/// one finds nothing to do.
pub proof fn law_repair_of_a_record(
    r: RowView,
    images: Seq<char>,
    thumbs: Seq<char>,
    present: Seq<Seq<char>>,
)
    ensures
        repaired(r, images, thumbs, present) == (RowView {
            image_path: mended(r.image_path, images, present),
            thumbnail_path: mended(r.thumbnail_path, thumbs, present),
            ..r
        }),
        needs_repair(r, images, thumbs, present) <==> repaired(r, images, thumbs, present) != r,
        !needs_repair(repaired(r, images, thumbs, present), images, thumbs, present),
{
}

/// What has to be known before a repair: of each stored path whether there is a file at it, and
/// whether there is one of its name in the directory.
pub proof fn law_repair_asks_for_every_path(
    rows: Seq<RowView>,
    images: Seq<char>,
    thumbs: Seq<char>,
    i: int,
    p: Seq<char>,
)
    requires
        0 <= i < rows.len(),
    ensures
        rows[i].image_path == Some(p) ==> row_probes(rows, images, thumbs).contains(p) && (name_of(
            p,
        ) matches Some(n) ==> row_probes(rows, images, thumbs).contains(joined(images, n))),
        rows[i].thumbnail_path == Some(p) ==> row_probes(rows, images, thumbs).contains(p) && (
        name_of(p) matches Some(n) ==> row_probes(rows, images, thumbs).contains(
            joined(thumbs, n),
        )),
    decreases rows.len(),
{
    let init = rows.drop_last();
    let last = rows.last();
    let a = row_probes(init, images, thumbs);
    let b = crate::upkeep::path_probes(last.image_path, images);
    let c = crate::upkeep::path_probes(last.thumbnail_path, thumbs);
    let all = row_probes(rows, images, thumbs);
    assert(all == a + b + c);
    assert forall|x: Seq<char>| a.contains(x) implies #[trigger] all.contains(x) by {
        let k = choose|k: int| 0 <= k < a.len() && a[k] == x;
        assert(all[k] == x);
    }
    if i < init.len() {
        assert(init[i] == rows[i]);
        law_repair_asks_for_every_path(init, images, thumbs, i, p);
    } else {
        if last.image_path == Some(p) {
            assert(b[0] == p);
            assert(all[a.len() as int] == p);
            if name_of(p) is Some {
                assert(b[1] == joined(images, name_of(p)->0));
                assert(all[a.len() as int + 1] == b[1]);
            }
        }
        if last.thumbnail_path == Some(p) {
            let n = a.len() + b.len();
            assert(c[0] == p);
            assert(all[n as int] == p);
            if name_of(p) is Some {
                assert(c[1] == joined(thumbs, name_of(p)->0));
                assert(all[n as int + 1] == c[1]);
            }
        }
    }
}

/// A record gets a fingerprint exactly where it is of a picture that is stored somewhere, has none, or
/// an empty one, and one is given for it; nothing else of it changes. The first one given for its id
/// counts.
pub proof fn law_fingerprint_is_filled_in(r: RowView, hashes: Seq<(i64, Seq<char>)>)
    ensures
        ({
            let lacks = r.item_type == "image"@ && (r.image_hash matches Some(h) ==> h.len() == 0)
                && r.image_path is Some;
            &&& hash_job(r) == lacks
            &&& hashed(r, hashes) == if lacks && text_for(hashes, r.id) is Some {
                RowView { image_hash: text_for(hashes, r.id), ..r }
            } else {
                r
            }
        }),
{
    reveal_strlit("");
    if r.image_hash is Some && r.image_hash->0.len() == 0 {
        assert(r.image_hash->0 =~= ""@);
    }
}

/// What is given for an id is the text of the first pair with it.
pub proof fn law_first_text_given_counts(v: Seq<(i64, Seq<char>)>, id: i64, k: int)
    requires
        0 <= k <= v.len(),
        forall|i: int| 0 <= i < k ==> (#[trigger] v[i]).0 != id,
        k < v.len() ==> v[k].0 == id,
    ensures
        text_for(v, id) == if k < v.len() {
            Some(v[k].1)
        } else {
            None
        },
    decreases v.len(),
{
    if k > 0 {
        assert(v[0].0 != id);
        let rest = v.drop_first();
        assert forall|i: int| 0 <= i < k - 1 implies (#[trigger] rest[i]).0 != id by {
            assert(rest[i] == v[i + 1]);
        }
        law_first_text_given_counts(rest, id, k - 1);
    }
}

/// A record gets a thumbnail exactly where it is of a picture that is stored somewhere, has none, or
/// an empty path of one, and one was made for it; nothing else of it changes.
pub proof fn law_thumbnail_is_filled_in(r: RowView, data_dir: Seq<char>, made: Seq<i64>)
    ensures
        ({
            let lacks = r.item_type == "image"@ && (r.thumbnail_path matches Some(t) ==> t.len()
                == 0) && (r.image_path matches Some(p) && p.len() > 0);
            &&& thumb_job(r) == lacks
            &&& thumbed(r, data_dir, made) == if lacks && made.contains(r.id) {
                RowView { thumbnail_path: Some(thumb_path(data_dir, r.id)), ..r }
            } else {
                r
            }
        }),
{
    reveal_strlit("");
    if r.thumbnail_path is Some && r.thumbnail_path->0.len() == 0 {
        assert(r.thumbnail_path->0 =~= ""@);
    }
}

/// The work that is handed out names a record by its id and the picture by where it is stored.
pub proof fn law_work_names_record_and_picture(rows: Seq<RowView>, k: int)
    requires
        0 <= k < rows.len(),
        rows[k].image_path is Some,
    ensures
        jobs(rows).len() == rows.len(),
        jobs(rows)[k].0 == rows[k].id,
        Some(jobs(rows)[k].1) == rows[k].image_path,
{
}

/// The number that digits stand for.
pub open spec fn value_of(s: Seq<char>) -> int
    decreases s.len(),
{
    if s.len() == 0 {
        0
    } else {
        value_of(s.drop_last()) * 10 + (s.last() as u32 - 48)
    }
}

/// A number is written in decimal digits that stand for it, the first of them not zero unless it is
/// the only one.
pub proof fn law_decimal_stands_for_the_number(n: nat)
    ensures
        value_of(decimal(n)) == n,
        decimal(n).len() > 0,
        decimal(n).len() > 1 ==> decimal(n)[0] != '0',
        forall|i: int| 0 <= i < decimal(n).len() ==> '0' <= #[trigger] decimal(n)[i] <= '9',
    decreases n,
{
    if n < 10 {
        let s = seq![digit(n as int)];
        assert(s.drop_last() =~= seq![]);
        assert(value_of(s.drop_last()) == 0);
    } else {
        law_decimal_stands_for_the_number(n / 10);
        let s = decimal(n / 10);
        let c = digit((n % 10) as int);
        assert(s.push(c).drop_last() =~= s);
        assert forall|i: int| 0 <= i < s.push(c).len() implies '0' <= #[trigger] s.push(c)[i]
            <= '9' by {
            if i < s.len() {
                assert(s.push(c)[i] == s[i]);
            }
        }
        if s.len() == 1 {
            assert(s.drop_last() =~= seq![]);
            assert(value_of(s.drop_last()) == 0);
            assert(value_of(s) == s[0] as u32 - 48);
        }
    }
}

/// Numbers that are written alike are the same.
pub proof fn law_numbers_are_told_apart(a: int, b: int)
    requires
        signed_decimal(a) == signed_decimal(b),
    ensures
        a == b,
{
    if a < 0 {
        assert(signed_decimal(a)[0] == '-');
        law_decimal_stands_for_the_number((-a) as nat);
        assert(signed_decimal(a).skip(1) =~= decimal((-a) as nat));
    } else {
        law_decimal_stands_for_the_number(a as nat);
        assert('0' <= decimal(a as nat)[0]);
    }
    if b < 0 {
        assert(signed_decimal(b)[0] == '-');
        law_decimal_stands_for_the_number((-b) as nat);
        assert(signed_decimal(b).skip(1) =~= decimal((-b) as nat));
    } else {
        law_decimal_stands_for_the_number(b as nat);
        assert('0' <= decimal(b as nat)[0]);
    }
}

/// A thumbnail is called by the id of its record, so that no two records share one.
pub proof fn law_each_record_has_its_own_thumbnail(data_dir: Seq<char>, a: i64, b: i64)
    ensures
        thumb_name(a) == seq!['t', 'h', 'u', 'm', 'b', '_'] + signed_decimal(a as int) + seq![
            '.',
            'p',
            'n',
            'g',
        ],
        thumb_path(data_dir, a) == stem(thumbs_in(data_dir)) + thumb_name(a),
        thumb_path(data_dir, a) == thumb_path(data_dir, b) ==> a == b,
{
    lemma_thumb_name(data_dir, a);
    lemma_thumb_name(data_dir, b);
    if thumb_path(data_dir, a) == thumb_path(data_dir, b) {
        let s = stem(thumbs_in(data_dir));
        let (x, y) = (thumb_name(a), thumb_name(b));
        assert((s + x).skip(s.len() as int) =~= x);
        assert((s + y).skip(s.len() as int) =~= y);
        assert(x.subrange(6, x.len() - 4) =~= signed_decimal(a as int));
        assert(y.subrange(6, y.len() - 4) =~= signed_decimal(b as int));
        law_numbers_are_told_apart(a as int, b as int);
    }
}

proof fn lemma_thumb_name(data_dir: Seq<char>, a: i64)
    ensures
        thumb_name(a) == seq!['t', 'h', 'u', 'm', 'b', '_'] + signed_decimal(a as int) + seq![
            '.',
            'p',
            'n',
            'g',
        ],
        thumb_path(data_dir, a) == stem(thumbs_in(data_dir)) + thumb_name(a),
{
    reveal_strlit("thumb_");
    reveal_strlit(".png");
    assert("thumb_"@ =~= seq!['t', 'h', 'u', 'm', 'b', '_']);
    assert(".png"@ =~= seq!['.', 'p', 'n', 'g']);
    let m = signed_decimal(a as int);
    let n = thumb_name(a);
    law_decimal_stands_for_the_number(if a < 0 {
        (-a) as nat
    } else {
        a as nat
    });
    assert forall|i: int| 0 <= i < m.len() implies #[trigger] m[i] != '\\' && m[i] != '/' && m[i]
        != ':' by {
        if a < 0 {
            if i > 0 {
                assert(m[i] == decimal((-a) as nat)[i - 1]);
            }
        } else {
            assert(m[i] == decimal(a as nat)[i]);
        }
    }
    assert forall|i: int| 0 <= i < n.len() implies !crate::winpath::is_sep(#[trigger] n[i]) by {
        if 6 <= i < 6 + m.len() {
            assert(n[i] == m[i - 6]);
        }
    }
    assert(n[0] == 't' && n[1] == 'h');
    assert(n != seq!['.']) by {
        assert(seq!['.'][0] == '.');
    }
    assert(n != seq!['.', '.']) by {
        assert(seq!['.', '.'][0] == '.');
    }
    lemma_plain_name(n);
    lemma_stem(thumbs_in(data_dir), n);
}

/// Pictures, thumbnails and pictures that wait lie in three directories of the data directory, each
/// under its own name.
pub proof fn law_places_of_files(data_dir: Seq<char>)
    ensures
        images_in(data_dir) == stem(data_dir) + seq!['i', 'm', 'a', 'g', 'e', 's'],
        thumbs_in(data_dir) == stem(data_dir) + seq!['t', 'h', 'u', 'm', 'b', 's'],
        buffer_in(data_dir) == stem(data_dir) + seq![
            'c',
            'l',
            'i',
            'p',
            '_',
            'b',
            'u',
            'f',
            'f',
            'e',
            'r',
        ],
{
    reveal_strlit("images");
    reveal_strlit("thumbs");
    reveal_strlit("clip_buffer");
    lemma_plain_name("images"@);
    lemma_plain_name("thumbs"@);
    lemma_plain_name("clip_buffer"@);
    lemma_stem(data_dir, "images"@);
    lemma_stem(data_dir, "thumbs"@);
    lemma_stem(data_dir, "clip_buffer"@);
    assert("images"@ =~= seq!['i', 'm', 'a', 'g', 'e', 's']);
    assert("thumbs"@ =~= seq!['t', 'h', 'u', 'm', 'b', 's']);
    assert("clip_buffer"@ =~= seq!['c', 'l', 'i', 'p', '_', 'b', 'u', 'f', 'f', 'e', 'r']);
}

/// Making the thumbnail of a record stores its path with that record, and changes nothing else.
pub proof fn law_thumbnail_is_stored_with_its_record(d: DbView, id: i64, i: int)
    requires
        0 <= i < d.rows.len(),
    ensures
        ({
            let n = with_thumbnail(d, id);
            &&& n.rows.len() == d.rows.len()
            &&& n.index == d.index && n.last_id == d.last_id && n.data_dir == d.data_dir
            &&& d.rows[i].id != id ==> n.rows[i] == d.rows[i]
            &&& d.rows[i].id == id ==> n.rows[i] == (RowView {
                thumbnail_path: Some(thumb_path(d.data_dir, id)),
                ..d.rows[i]
            })
        }),
{
}

/// A picture that is not higher than a thumbnail may be keeps its size, and a higher one gets the
/// greatest height, with the width that was worked out for it.
pub proof fn law_thumbnail_size(width: u32, height: u32, scaled: u32)
    ensures
        height <= 128 ==> thumb_size((width, height), scaled) == (width, height),
        height > 128 ==> thumb_size((width, height), scaled) == (scaled, 128u32),
{
}

/// An older table is given exactly those of the three later columns that it lacks, the number with a
/// default.
pub proof fn law_older_tables_get_what_they_lack(columns: Seq<Seq<char>>, s: Seq<char>)
    ensures
        upgrades(columns).contains(s) <==> exists|c: Seq<char>|
            !#[trigger] columns.contains(c) && s == add_column(c) && (c == "thumbnail_path"@ || c
                == "file_count"@ || c == "image_hash"@),
        add_column("file_count"@)
            == "ALTER TABLE clipboard_items ADD COLUMN "@ + "file_count"@ + " INTEGER DEFAULT 0"@,
        add_column("thumbnail_path"@)
            == "ALTER TABLE clipboard_items ADD COLUMN "@ + "thumbnail_path"@ + " TEXT"@,
        add_column("image_hash"@)
            == "ALTER TABLE clipboard_items ADD COLUMN "@ + "image_hash"@ + " TEXT"@,
{
    reveal_strlit("thumbnail_path");
    reveal_strlit("file_count");
    reveal_strlit("image_hash");
    assert("thumbnail_path"@[0] == 't' && "file_count"@[0] == 'f' && "image_hash"@[0] == 'i');
    let all = crate::upkeep::later_columns();
    let p = |c: Seq<char>| !columns.contains(c);
    let f = |c: Seq<char>| add_column(c);
    let some = all.filter(p);
    lemma_kept_texts(all, p);
    let u = upgrades(columns);
    assert(all[0] == "thumbnail_path"@ && all[1] == "file_count"@ && all[2] == "image_hash"@);
    if u.contains(s) {
        let k = choose|k: int| 0 <= k < u.len() && u[k] == s;
        assert(some.contains(some[k]));
        assert(!columns.contains(some[k]) && s == add_column(some[k]));
    }
    if exists|c: Seq<char>|
        !#[trigger] columns.contains(c) && s == add_column(c) && (c == "thumbnail_path"@ || c
            == "file_count"@ || c == "image_hash"@) {
        let c = choose|c: Seq<char>|
            !#[trigger] columns.contains(c) && s == add_column(c) && (c == "thumbnail_path"@ || c
                == "file_count"@ || c == "image_hash"@);
        assert(all.contains(c));
        assert(some.contains(c));
        let k = choose|k: int| 0 <= k < some.len() && some[k] == c;
        assert(u[k] == s);
    }
}

proof fn lemma_kept_texts(list: Seq<Seq<char>>, p: spec_fn(Seq<char>) -> bool)
    ensures
        forall|c: Seq<char>| #[trigger] list.filter(p).contains(c) <==> list.contains(c) && p(c),
    decreases list.len(),
{
    reveal(Seq::filter);
    if list.len() > 0 {
        let init = list.drop_last();
        let last = list.last();
        lemma_kept_texts(init, p);
        let f = init.filter(p);
        let g = list.filter(p);
        assert forall|c: Seq<char>| #[trigger] g.contains(c) <==> list.contains(c) && p(c) by {
            if g.contains(c) {
                let k = choose|k: int| 0 <= k < g.len() && g[k] == c;
                if k < f.len() {
                    assert(f[k] == c);
                    assert(f.contains(c));
                    let m = choose|m: int| 0 <= m < init.len() && init[m] == c;
                    assert(list[m] == c);
                } else {
                    assert(list[list.len() - 1] == c);
                }
            }
            if list.contains(c) && p(c) {
                let m = choose|m: int| 0 <= m < list.len() && list[m] == c;
                if m < init.len() {
                    assert(init[m] == c);
                    assert(f.contains(c));
                    let k = choose|k: int| 0 <= k < f.len() && f[k] == c;
                    assert(g[k] == c);
                } else {
                    assert(g[g.len() - 1] == c);
                }
            }
        }
    }
}

/// A pattern without wildcards and with `%` at its end is answered by the texts that begin with it,
/// up to the case of ASCII letters.
pub proof fn law_pattern_of_a_beginning(prefix: Seq<char>, s: Seq<char>)
    requires
        !prefix.contains('%'),
        !prefix.contains('_'),
    ensures
        like(prefix.push('%'), s) <==> prefix.len() <= s.len() && forall|i: int|
            0 <= i < prefix.len() ==> ascii_lower_char(#[trigger] prefix[i]) == ascii_lower_char(
                s[i],
            ),
    decreases prefix.len(),
{
    let p = prefix.push('%');
    if prefix.len() == 0 {
        assert(p.drop_first() =~= Seq::<char>::empty());
        assert(s.skip(s.len() as int) =~= Seq::<char>::empty());
        assert(like(p.drop_first(), s.skip(s.len() as int)));
    } else {
        assert(prefix.contains(prefix[0]));
        let rest = prefix.drop_first();
        assert(p.drop_first() =~= rest.push('%'));
        assert(!rest.contains('%') && !rest.contains('_')) by {
            if rest.contains('%') {
                let k = choose|k: int| 0 <= k < rest.len() && rest[k] == '%';
                assert(prefix[k + 1] == '%');
            }
            if rest.contains('_') {
                let k = choose|k: int| 0 <= k < rest.len() && rest[k] == '_';
                assert(prefix[k + 1] == '_');
            }
        }
        if s.len() > 0 {
            let t = s.drop_first();
            law_pattern_of_a_beginning(rest, t);
            if like(p, s) {
                assert forall|i: int| 0 <= i < prefix.len() implies ascii_lower_char(
                    #[trigger] prefix[i],
                ) == ascii_lower_char(s[i]) by {
                    if i > 0 {
                        assert(ascii_lower_char(rest[i - 1]) == ascii_lower_char(t[i - 1]));
                    }
                }
            }
            if prefix.len() <= s.len() && forall|i: int|
                0 <= i < prefix.len() ==> ascii_lower_char(#[trigger] prefix[i])
                    == ascii_lower_char(s[i]) {
                assert(ascii_lower_char(prefix[0]) == ascii_lower_char(s[0]));
                assert forall|i: int| 0 <= i < rest.len() implies ascii_lower_char(
                    #[trigger] rest[i],
                ) == ascii_lower_char(t[i]) by {
                    assert(rest[i] == prefix[i + 1]);
                    assert(t[i] == s[i + 1]);
                }
            }
        }
    }
}

/// In a pattern `_` stands for any one character, `%` for any number of them, and another character
/// for itself, up to the case of ASCII letters.
pub proof fn law_pattern_step(c: char, pattern: Seq<char>, s: Seq<char>)
    ensures
        like(seq![], s) <==> s.len() == 0,
        c == '%' ==> (like(seq![c] + pattern, s) <==> like(pattern, s) || (s.len() > 0 && like(
            seq![c] + pattern,
            s.drop_first(),
        ))),
        c == '_' ==> (like(seq![c] + pattern, s) <==> s.len() > 0 && like(pattern, s.drop_first())),
        c != '%' && c != '_' ==> (like(seq![c] + pattern, s) <==> s.len() > 0 && ascii_lower_char(c)
            == ascii_lower_char(s[0]) && like(pattern, s.drop_first())),
{
    let p = seq![c] + pattern;
    assert(p.drop_first() =~= pattern);
    if c == '%' {
        assert(s.skip(0) =~= s);
        if s.len() > 0 {
            let t = s.drop_first();
            if like(p, t) {
                let k = choose|k: int| 0 <= k <= t.len() && like(pattern, #[trigger] t.skip(k));
                assert(t.skip(k) =~= s.skip(k + 1));
                assert(like(p.drop_first(), s.skip(k + 1)));
            }
            if like(p, s) && !like(pattern, s) {
                let k = choose|k: int| 0 <= k <= s.len() && like(p.drop_first(), #[trigger] s.skip(k));
                assert(k > 0);
                assert(t.skip(k - 1) =~= s.skip(k));
                assert(like(p.drop_first(), t.skip(k - 1)));
            }
        } else if like(p, s) {
            let k = choose|k: int| 0 <= k <= s.len() && like(p.drop_first(), #[trigger] s.skip(k));
            assert(k == 0);
        }
        if like(pattern, s) {
            assert(like(p.drop_first(), s.skip(0)));
        }
    }
}

/// Two characters are alike for a pattern where they are the same, or the same ASCII letter in either
/// case.
pub proof fn law_case_of_letters(c: char)
    ensures
        'A' <= c <= 'Z' ==> ascii_lower_char(c) as u32 == c as u32 + 32,
        !('A' <= c <= 'Z') ==> ascii_lower_char(c) == c,
{
}

/// The records that may go when pictures take too much room: all records of pictures that are no
/// favourites, and no others, whether pinned or not, the one dated first foremost.
pub proof fn law_what_goes_for_want_of_room(
    q: Seq<RowView>,
    rows: Seq<RowView>,
    r: RowView,
    i: int,
    j: int,
)
    requires
        ascending(rows),
        oldest_first(q, rows.filter(|r: RowView| may_go(r))),
        0 <= i < j < q.len(),
    ensures
        q.contains(r) <==> rows.contains(r) && r.item_type == "image"@ && r.is_favorite == 0,
        q[i] != q[j],
        text_lt(q[i].created_at, q[j].created_at) || (q[i].created_at == q[j].created_at && q[i].id
            < q[j].id),
{
    broadcast use vstd::seq_lib::group_to_multiset_ensures;

    let p = |r: RowView| may_go(r);
    let f = rows.filter(p);
    lemma_filter_ascending(rows, p);
    assert(older(q[i], q[j]));
    assert(q.contains(r) == (q.to_multiset().count(r) > 0));
    assert(f.contains(r) == (f.to_multiset().count(r) > 0));
    crate::text::lemma_text_lt_irreflexive(q[i].created_at);
}

/// A record has to go as long as the pictures take more than one gibibyte and one is left that may,
/// and it is the next one; what it took is then room again.
pub proof fn law_one_goes_until_the_rest_fits(v: SweepView, size: u64)
    ensures
        v.victim() is None <==> v.total <= 1024 * 1024 * 1024 || v.rest.len() == 0,
        v.victim() matches Some(r) ==> r == v.rest[0],
        v.after(size).rest == v.rest.skip(1) || v.rest.len() == 0,
        v.after(size).total == if size <= v.total {
            v.total - size
        } else {
            0
        },
        v.after(size).deleted == v.deleted + 1,
{
    if v.rest.len() > 0 {
        assert(v.rest.drop_first() =~= v.rest.skip(1));
    }
}

/// A file that waits has to go as long as those that wait take more than two gibibytes and one is
/// left, and it is the first by name.
pub proof fn law_waiting_files_go_until_the_rest_fits(v: BufferView)
    ensures
        v.victim() is None <==> v.total <= 2 * 1024 * 1024 * 1024 || v.rest.len() == 0,
        v.victim() matches Some(f) ==> f == v.rest[0],
{
}

/// Files that wait go in the order of their names, which hold the time; all of them are looked at.
pub proof fn law_waiting_files_in_order(q: Seq<Seq<char>>, list: Seq<Seq<char>>, i: int, j: int, f: Seq<char>)
    requires
        in_order(q, list),
        0 <= i < j < q.len(),
    ensures
        q.len() == list.len(),
        q.contains(f) <==> list.contains(f),
        !text_lt(q[j], q[i]),
{
    broadcast use vstd::seq_lib::group_to_multiset_ensures;

    assert(q.len() == q.to_multiset().len());
    assert(list.len() == list.to_multiset().len());
    assert(q.contains(f) == (q.to_multiset().count(f) > 0));
    assert(list.contains(f) == (list.to_multiset().count(f) > 0));
}

/// What is left of a room after something has gone from it is never less than nothing.
pub proof fn law_room_left(total: u64, size: u64)
    ensures
        size <= total ==> less(total, size) == total - size,
        size > total ==> less(total, size) == 0,
{
}

/// A stored path is looked at in a move where it is there and answers the pattern of the old data
/// directory.
pub proof fn law_paths_looked_at(path: Option<Seq<char>>, old: Seq<char>)
    ensures
        considered(path, old) <==> (path matches Some(p) && like(old.push('%'), p)),
{
}

} // verus!
