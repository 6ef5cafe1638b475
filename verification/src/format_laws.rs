//! What the formats hold: trimmed texts, digits of bytes, the heads of image files, UTF-16, file lists
//! and bitmaps on the clipboard, and the tables of the store.

use crate::digits::{hex, lemma_hex_len};
use crate::exchange::{
    before_nul, before_zero, bitmap_head, bitmap_rows, char_units, decode16, drop_files,
    dropped_paths, encode16, from_le32, law_bitmap_pixel, list_units, narrow_list, text_part,
    unit_bytes, units_of, wide_list,
};
use crate::models::{IndexView, RowView};
use crate::outside::utf8_lossy;
use crate::picture::{begins, image_magic};
use crate::records::ascending;
use crate::search_laws::gap;
use crate::store::{keyed_entries, keyed_rows, table_of, written, ChangeView};
use crate::table::entries_ascending;
use crate::text::{is_space, trim, trim_end, trim_start};
use vstd::prelude::*;

verus! {

proof fn lemma_trim_end(s: Seq<char>)
    ensures
        trim_end(s).len() <= s.len(),
        trim_end(s) == s.take(trim_end(s).len() as int),
        forall|i: int| trim_end(s).len() <= i < s.len() ==> gap(#[trigger] s[i]),
        trim_end(s).len() > 0 ==> !gap(trim_end(s).last()),
    decreases s.len(),
{
    if s.len() > 0 && is_space(s.last()) {
        let init = s.drop_last();
        lemma_trim_end(init);
        assert(init.take(trim_end(s).len() as int) =~= s.take(trim_end(s).len() as int));
        assert forall|i: int| trim_end(s).len() <= i < s.len() implies gap(#[trigger] s[i]) by {
            if i < init.len() {
                assert(s[i] == init[i]);
            }
        }
    } else {
        assert(s.take(s.len() as int) =~= s);
    }
}

proof fn lemma_trim_start(s: Seq<char>)
    ensures
        trim_start(s).len() <= s.len(),
        trim_start(s) == s.skip(s.len() - trim_start(s).len()),
        forall|i: int| 0 <= i < s.len() - trim_start(s).len() ==> gap(#[trigger] s[i]),
        trim_start(s).len() > 0 ==> !gap(trim_start(s)[0]),
    decreases s.len(),
{
    if s.len() > 0 && is_space(s[0]) {
        let rest = s.drop_first();
        lemma_trim_start(rest);
        let t = trim_start(s);
        assert(rest.skip(rest.len() - t.len()) =~= s.skip(s.len() - t.len()));
        assert forall|i: int| 0 <= i < s.len() - t.len() implies gap(#[trigger] s[i]) by {
            if i > 0 {
                assert(s[i] == rest[i - 1]);
            }
        }
    } else {
        assert(s.skip(0) =~= s);
    }
}

/// Trimming takes the white space from both ends of a text, and nothing else.
pub proof fn law_trimming(s: Seq<char>)
    ensures
        exists|a: int|
            0 <= a <= a + trim(s).len() <= s.len() && trim(s) == #[trigger] s.subrange(
                a,
                a + trim(s).len(),
            ) && (forall|i: int| 0 <= i < a ==> gap(#[trigger] s[i])) && (forall|i: int|
                a + trim(s).len() <= i < s.len() ==> gap(#[trigger] s[i])),
        trim(s).len() > 0 ==> !gap(trim(s)[0]) && !gap(trim(s).last()),
{
    let m = trim_start(s);
    let t = trim(s);
    lemma_trim_start(s);
    lemma_trim_end(m);
    let a = s.len() - m.len();
    assert(t =~= s.subrange(a, a + t.len()));
    assert forall|i: int| a + t.len() <= i < s.len() implies gap(#[trigger] s[i]) by {
        assert(m[i - a] == s[i]);
    }
}

/// The digit for a number below sixteen.
pub open spec fn sixteenth(n: int) -> char {
    let digits = seq![
        '0',
        '1',
        '2',
        '3',
        '4',
        '5',
        '6',
        '7',
        '8',
        '9',
        'a',
        'b',
        'c',
        'd',
        'e',
        'f',
    ];
    digits[n]
}

/// A byte is written in two digits, the higher one first.
pub proof fn law_hexadecimal(bytes: Seq<u8>, i: int)
    requires
        0 <= i < bytes.len(),
    ensures
        hex(bytes).len() == 2 * bytes.len(),
        hex(bytes)[2 * i] == sixteenth((bytes[i] / 16) as int),
        hex(bytes)[2 * i + 1] == sixteenth((bytes[i] % 16) as int),
    decreases bytes.len(),
{
    lemma_hex_len(bytes);
    lemma_hex_len(bytes.drop_last());
    let n = bytes.len() - 1;
    if i < n {
        law_hexadecimal(bytes.drop_last(), i);
    }
}

/// What the first bytes of an image file are, by its format.
pub open spec fn image_head(h: Seq<u8>) -> bool {
    let n = h.len();
    ||| n >= 8 && h[0] == 0x89 && h[1] == 'P' as u8 && h[2] == 'N' as u8 && h[3] == 'G' as u8 && h[4]
        == 13 && h[5] == 10 && h[6] == 26 && h[7] == 10
    ||| n >= 3 && h[0] == 0xFF && h[1] == 0xD8 && h[2] == 0xFF
    ||| n >= 4 && h[0] == 'G' as u8 && h[1] == 'I' as u8 && h[2] == 'F' as u8 && h[3] == '8' as u8
    ||| n >= 2 && h[0] == 'B' as u8 && h[1] == 'M' as u8
    ||| n >= 12 && h[0] == 'R' as u8 && h[1] == 'I' as u8 && h[2] == 'F' as u8 && h[3] == 'F' as u8
        && h[8] == 'W' as u8 && h[9] == 'E' as u8 && h[10] == 'B' as u8 && h[11] == 'P' as u8
    ||| n >= 4 && h[0] == 'I' as u8 && h[1] == 'I' as u8 && h[2] == 42 && h[3] == 0
    ||| n >= 4 && h[0] == 'M' as u8 && h[1] == 'M' as u8 && h[2] == 0 && h[3] == 42
    ||| n >= 4 && h[0] == 0 && h[1] == 0 && h[2] == 1 && h[3] == 0
    ||| n >= 12 && h[4] == 'f' as u8 && h[5] == 't' as u8 && h[6] == 'y' as u8 && h[7] == 'p' as u8
        && h[8] == 'a' as u8 && h[9] == 'v' as u8 && h[10] == 'i' as u8 && (h[11] == 'f' as u8 || h[11]
        == 's' as u8)
}

/// A file is taken for an image by its first bytes: those of PNG, JPEG, GIF, BMP, WebP, TIFF in either
/// byte order, ICO or AVIF.
#[verifier::rlimit(40)]
pub proof fn law_image_files_by_their_head(h: Seq<u8>)
    ensures
        image_magic(h) <==> image_head(h),
{
    lemma_begins(h, seq![0x89u8, 0x50, 0x4E, 0x47, 0x0D, 0x0A, 0x1A, 0x0A]);
    lemma_begins(h, seq![0xFFu8, 0xD8, 0xFF]);
    lemma_begins(h, seq![0x47u8, 0x49, 0x46, 0x38]);
    lemma_begins(h, seq![0x42u8, 0x4D]);
    lemma_begins(h, seq![0x52u8, 0x49, 0x46, 0x46]);
    lemma_begins(h, seq![0x49u8, 0x49, 0x2A, 0x00]);
    lemma_begins(h, seq![0x4Du8, 0x4D, 0x00, 0x2A]);
    lemma_begins(h, seq![0x00u8, 0x00, 0x01, 0x00]);
    if h.len() >= 12 {
        let webp = seq![0x57u8, 0x45, 0x42, 0x50];
        let avif = seq![0x66u8, 0x74, 0x79, 0x70, 0x61, 0x76, 0x69, 0x66];
        let avis = seq![0x66u8, 0x74, 0x79, 0x70, 0x61, 0x76, 0x69, 0x73];
        lemma_same_bytes(h, 8, webp);
        lemma_same_bytes(h, 4, avif);
        lemma_same_bytes(h, 4, avis);
    }
}

proof fn lemma_begins(h: Seq<u8>, sig: Seq<u8>)
    ensures
        begins(h, sig) <==> sig.len() <= h.len() && forall|i: int|
            0 <= i < sig.len() ==> #[trigger] sig[i] == h[i],
{
    if sig.len() <= h.len() {
        if begins(h, sig) {
            assert forall|i: int| 0 <= i < sig.len() implies #[trigger] sig[i] == h[i] by {
                assert(h.take(sig.len() as int)[i] == h[i]);
            }
        }
        if forall|i: int| 0 <= i < sig.len() ==> #[trigger] sig[i] == h[i] {
            assert(h.take(sig.len() as int) =~= sig);
        }
    }
}

proof fn lemma_same_bytes(h: Seq<u8>, at: int, sig: Seq<u8>)
    requires
        0 <= at <= at + sig.len() <= h.len(),
    ensures
        h.subrange(at, at + sig.len()) == sig <==> forall|i: int|
            0 <= i < sig.len() ==> #[trigger] sig[i] == h[at + i],
{
    if h.subrange(at, at + sig.len()) == sig {
        assert forall|i: int| 0 <= i < sig.len() implies #[trigger] sig[i] == h[at + i] by {
            assert(h.subrange(at, at + sig.len())[i] == h[at + i]);
        }
    }
    if forall|i: int| 0 <= i < sig.len() ==> #[trigger] sig[i] == h[at + i] {
        assert(h.subrange(at, at + sig.len()) =~= sig);
    }
}

/// A character is one unit of UTF-16 where its code point is below 65536, and else a high unit and a
/// low unit that share it.
pub proof fn law_units_of_a_character(c: char)
    ensures
        (c as u32) < 0x10000 ==> char_units(c).len() == 1 && char_units(c)[0] as u32 == c as u32,
        c as u32 >= 0x10000 ==> char_units(c).len() == 2 && 0xD800 <= char_units(c)[0] <= 0xDBFF
            && 0xDC00 <= char_units(c)[1] <= 0xDFFF && c as u32 == 0x10000 + (char_units(c)[0]
            - 0xD800) * 0x400 + (char_units(c)[1] - 0xDC00),
{
}

/// A text in UTF-16 is its characters one after the other.
pub proof fn law_text_in_units(c: char, s: Seq<char>)
    ensures
        encode16(seq![]).len() == 0,
        encode16(seq![c] + s) == char_units(c) + encode16(s),
{
    assert((seq![c] + s).drop_first() =~= s);
}

/// Units of UTF-16 are read from the front: a unit that is no half of a pair is a character, two
/// halves that belong together are one, and a half by itself is replaced.
pub proof fn law_reading_units(u: u16, rest: Seq<u16>)
    ensures
        decode16(seq![]).len() == 0,
        (u < 0xD800 || u > 0xDFFF) ==> decode16(seq![u] + rest) == seq![u as char] + decode16(rest),
        0xD800 <= u <= 0xDBFF && rest.len() > 0 && 0xDC00 <= rest[0] <= 0xDFFF ==> decode16(
            seq![u] + rest,
        ) == seq![(0x10000 + (u - 0xD800) * 0x400 + (rest[0] - 0xDC00)) as char] + decode16(
            rest.skip(1),
        ),
        0xD800 <= u <= 0xDFFF && !(u <= 0xDBFF && rest.len() > 0 && 0xDC00 <= rest[0] <= 0xDFFF)
            ==> decode16(seq![u] + rest) == seq!['\u{FFFD}'] + decode16(rest),
{
    let w = seq![u] + rest;
    assert(w.skip(1) =~= rest);
    if rest.len() > 0 {
        assert(w[1] == rest[0]);
        assert(w.skip(2) =~= rest.skip(1));
    }
}

/// Of what the clipboard holds as text, what comes before the first zero is read, up to 32768 units.
pub proof fn law_units_that_are_read(u: Seq<u16>)
    ensures
        text_part(u).len() <= 32768,
        text_part(u).len() <= u.len(),
        text_part(u) == u.take(text_part(u).len() as int),
        !text_part(u).contains(0),
        text_part(u).len() < 32768 && text_part(u).len() < u.len() ==> u[text_part(u).len() as int]
            == 0,
{
    lemma_zero(u);
    let t = text_part(u);
    assert(t =~= u.take(t.len() as int));
    if t.contains(0) {
        let k = choose|k: int| 0 <= k < t.len() && t[k] == 0;
        assert(u[k] != 0);
    }
}

proof fn lemma_zero(u: Seq<u16>)
    ensures
        before_zero(u) <= u.len(),
        forall|i: int| 0 <= i < before_zero(u) ==> #[trigger] u[i] != 0,
        before_zero(u) < u.len() ==> u[before_zero(u) as int] == 0,
    decreases u.len(),
{
    if u.len() > 0 && u[0] != 0 {
        lemma_zero(u.drop_first());
        assert forall|i: int| 0 <= i < before_zero(u) implies #[trigger] u[i] != 0 by {
            if i > 0 {
                assert(u[i] == u.drop_first()[i - 1]);
            }
        }
    }
}

proof fn lemma_nul(b: Seq<u8>)
    ensures
        before_nul(b) <= b.len(),
        forall|i: int| 0 <= i < before_nul(b) ==> #[trigger] b[i] != 0,
        before_nul(b) < b.len() ==> b[before_nul(b) as int] == 0,
    decreases b.len(),
{
    if b.len() > 0 && b[0] != 0 {
        lemma_nul(b.drop_first());
        assert forall|i: int| 0 <= i < before_nul(b) implies #[trigger] b[i] != 0 by {
            if i > 0 {
                assert(b[i] == b.drop_first()[i - 1]);
            }
        }
    }
}

/// A file list is read text by text, each up to its zero, and ends at one that is empty. A list that
/// stops before that is none.
pub proof fn law_reading_a_list(t: Seq<u16>, rest: Seq<u16>)
    requires
        !t.contains(0),
        t.len() > 0,
    ensures
        wide_list(t) is None,
        wide_list(seq![]) is None,
        wide_list(seq![0u16] + rest) == Some(Seq::<Seq<char>>::empty()),
        wide_list(t.push(0) + rest) == match wide_list(rest) {
            Some(l) => Some(seq![decode16(t)] + l),
            None => None,
        },
{
    lemma_zero(t);
    if before_zero(t) < t.len() {
        assert(t.contains(t[before_zero(t) as int]));
    }
    let z = seq![0u16] + rest;
    lemma_zero(z);
    assert(z[0] == 0);
    let w = t.push(0) + rest;
    lemma_zero(w);
    let n = t.len() as int;
    assert(w[n] == 0);
    if before_zero(w) < n {
        assert(w[before_zero(w) as int] == t[before_zero(w) as int]);
        assert(t.contains(t[before_zero(w) as int]));
    }
    assert(before_zero(w) == n);
    assert(w.take(n) =~= t);
    assert(w.skip(n + 1) =~= rest);
}

/// The same of a file list in single bytes.
pub proof fn law_reading_a_narrow_list(t: Seq<u8>, rest: Seq<u8>)
    requires
        !t.contains(0),
        t.len() > 0,
    ensures
        narrow_list(t) is None,
        narrow_list(seq![]) is None,
        narrow_list(seq![0u8] + rest) == Some(Seq::<Seq<char>>::empty()),
        narrow_list(t.push(0) + rest) == match narrow_list(rest) {
            Some(l) => Some(seq![utf8_lossy(t)] + l),
            None => None,
        },
{
    lemma_nul(t);
    if before_nul(t) < t.len() {
        assert(t.contains(t[before_nul(t) as int]));
    }
    let z = seq![0u8] + rest;
    lemma_nul(z);
    assert(z[0] == 0);
    let w = t.push(0) + rest;
    lemma_nul(w);
    let n = t.len() as int;
    assert(w[n] == 0);
    if before_nul(w) < n {
        assert(w[before_nul(w) as int] == t[before_nul(w) as int]);
        assert(t.contains(t[before_nul(w) as int]));
    }
    assert(before_nul(w) == n);
    assert(w.take(n) =~= t);
    assert(w.skip(n + 1) =~= rest);
}

/// The number in four bytes, the lowest first.
pub open spec fn number_at(b: Seq<u8>, at: int) -> int {
    b[at] + b[at + 1] * 256 + b[at + 2] * 65536 + b[at + 3] * 16777216
}

/// The head of a file list says where the list begins and whether it is in UTF-16; without a whole
/// head, or with a beginning behind the end, there is no list.
pub proof fn law_head_of_a_file_list(b: Seq<u8>)
    ensures
        b.len() < 20 ==> dropped_paths(b) is None,
        b.len() >= 20 ==> ({
            let at = number_at(b, 0);
            let wide = number_at(b, 16) != 0;
            &&& at > b.len() ==> dropped_paths(b) is None
            &&& at <= b.len() && wide ==> dropped_paths(b) == wide_list(units_of(b.skip(at)))
            &&& at <= b.len() && !wide ==> dropped_paths(b) == narrow_list(b.skip(at))
        }),
{
    if b.len() >= 20 {
        assert(from_le32(b, 0) as int == number_at(b, 0));
        assert(from_le32(b, 16) as int == number_at(b, 16));
    }
}

/// Units are read from bytes two by two, the lower byte first.
pub proof fn law_units_from_bytes(b: Seq<u8>, i: int)
    requires
        0 <= i < b.len() / 2,
    ensures
        units_of(b).len() == b.len() / 2,
        units_of(b)[i] as int == b[2 * i] + b[2 * i + 1] * 256,
{
}

/// A file list that is written has a head of twenty bytes that says so, and that the list is in
/// UTF-16.
pub proof fn law_head_of_a_written_list(paths: Seq<Seq<char>>)
    ensures
        drop_files(paths).len() >= 20,
        number_at(drop_files(paths), 0) == 20,
        number_at(drop_files(paths), 4) == 0,
        number_at(drop_files(paths), 8) == 0,
        number_at(drop_files(paths), 12) == 0,
        number_at(drop_files(paths), 16) == 1,
        drop_files(paths).skip(20) == unit_bytes(list_units(paths).push(0)),
{
    let b = drop_files(paths);
    let h = crate::exchange::drop_head();
    assert(h.len() == 20);
    assert forall|i: int| 0 <= i < 20 implies b[i] == h[i] by {}
    assert(b.skip(20) =~= unit_bytes(list_units(paths).push(0)));
}

/// The head of a bitmap says its own length, the width and the height, that there is one plane of 32
/// bits to the pixel, and nothing of compression.
pub proof fn law_head_of_a_bitmap(width: u32, height: u32)
    ensures
        ({
            let h = bitmap_head(width, height);
            &&& h.len() == 40
            &&& number_at(h, 0) == 40
            &&& number_at(h, 4) == width
            &&& number_at(h, 8) == height
            &&& h[12] == 1 && h[13] == 0
            &&& h[14] == 32 && h[15] == 0
            &&& number_at(h, 16) == 0
            &&& number_at(h, 20) == width * height * 4 % 0x1_0000_0000
            &&& forall|i: int| 24 <= i < 40 ==> #[trigger] h[i] == 0
        }),
{
    let h = bitmap_head(width, height);
    assert(h.len() == 40);
    let n = (width * height * 4 % 0x1_0000_0000) as u32;
    assert(0 <= width * height) by (nonlinear_arith);
    assert(n as int == width * height * 4 % 0x1_0000_0000);
    lemma_le32(width);
    lemma_le32(height);
    lemma_le32(n);
    let a = crate::exchange::le32(width);
    let b = crate::exchange::le32(height);
    let c = crate::exchange::le32(n);
    assert(h[4] == a[0] && h[5] == a[1] && h[6] == a[2] && h[7] == a[3]);
    assert(h[8] == b[0] && h[9] == b[1] && h[10] == b[2] && h[11] == b[3]);
    assert(h[20] == c[0] && h[21] == c[1] && h[22] == c[2] && h[23] == c[3]);
}

proof fn lemma_le32(n: u32)
    ensures
        crate::exchange::le32(n).len() == 4,
        number_at(crate::exchange::le32(n), 0) == n,
{
    let q = n / 256;
    let r = q / 256;
    let t = r / 256;
    assert(n / 65536 == r);
    assert(n / 16777216 == t);
}

/// Of each pixel a bitmap has blue, green, red and opacity, in this order, and it begins with the
/// lowest row.
pub proof fn law_pixel_in_a_bitmap(width: u32, height: u32, rgba: Seq<u8>, row: int, col: int)
    requires
        rgba.len() == width * height * 4,
        0 <= row < height,
        0 <= col < width,
    ensures
        ({
            let b = bitmap_head(width, height) + bitmap_rows(rgba, width as nat, height as nat);
            let at = 40 + ((height - 1 - row) * width + col) * 4;
            let from = (row * width + col) * 4;
            &&& b.len() == 40 + rgba.len()
            &&& 40 <= at && at + 4 <= b.len()
            &&& b[at] == rgba[from + 2]
            &&& b[at + 1] == rgba[from + 1]
            &&& b[at + 2] == rgba[from]
            &&& b[at + 3] == rgba[from + 3]
        }),
{
    law_bitmap_pixel(width, height, rgba, row, col);
    let b = bitmap_head(width, height) + bitmap_rows(rgba, width as nat, height as nat);
    let at = 40 + ((height - 1 - row) * width + col) * 4;
    assert(0 <= (height - 1 - row) * width) by (nonlinear_arith)
        requires
            row < height,
    ;
    let four = b.subrange(at, at + 4);
    assert(four[0] == b[at] && four[1] == b[at + 1] && four[2] == b[at + 2] && four[3] == b[at + 3]);
}

/// The table of rows holds each row under its id, and nothing else.
pub proof fn law_table_of_rows(rows: Seq<RowView>, id: i64, r: RowView)
    requires
        ascending(rows),
    ensures
        table_of(keyed_rows(rows)).contains_pair(id, r) <==> rows.contains(r) && r.id == id,
    decreases rows.len(),
{
    let s = keyed_rows(rows);
    if rows.len() > 0 {
        let init = rows.drop_last();
        let last = rows.last();
        assert forall|i: int, j: int| 0 <= i < j < init.len() implies (#[trigger] init[i]).id < (
        #[trigger] init[j]).id by {
            assert(rows[i].id < rows[j].id);
        }
        law_table_of_rows(init, id, r);
        assert(s.drop_last() =~= keyed_rows(init));
        assert(s.last() == (last.id, last));
        if init.contains(r) {
            let k = choose|k: int| 0 <= k < init.len() && init[k] == r;
            assert(rows[k] == r);
            assert(rows[k].id < rows[rows.len() - 1].id);
        }
        if rows.contains(r) {
            let k = choose|k: int| 0 <= k < rows.len() && rows[k] == r;
            if k < init.len() {
                assert(init[k] == r);
            }
        }
        if r == last {
            assert(rows[rows.len() - 1] == r);
        }
    }
}

/// The table of the index holds each entry under its id, and nothing else.
pub proof fn law_table_of_entries(index: Seq<IndexView>, id: i64, e: IndexView)
    requires
        entries_ascending(index),
    ensures
        table_of(keyed_entries(index)).contains_pair(id, e) <==> index.contains(e) && e.rowid == id,
    decreases index.len(),
{
    let s = keyed_entries(index);
    if index.len() > 0 {
        let init = index.drop_last();
        let last = index.last();
        assert forall|i: int, j: int| 0 <= i < j < init.len() implies (#[trigger] init[i]).rowid < (
        #[trigger] init[j]).rowid by {
            assert(index[i].rowid < index[j].rowid);
        }
        law_table_of_entries(init, id, e);
        assert(s.drop_last() =~= keyed_entries(init));
        assert(s.last() == (last.rowid, last));
        if init.contains(e) {
            let k = choose|k: int| 0 <= k < init.len() && init[k] == e;
            assert(index[k] == e);
            assert(index[k].rowid < index[index.len() - 1].rowid);
        }
        if index.contains(e) {
            let k = choose|k: int| 0 <= k < index.len() && index[k] == e;
            if k < init.len() {
                assert(init[k] == e);
            }
        }
        if e == last {
            assert(index[index.len() - 1] == e);
        }
    }
}

/// Writes are carried out one after the other: one stores an item under its id, the other deletes
/// what is under one.
pub proof fn law_writes_in_their_order<V>(table: Map<i64, V>, changes: Seq<ChangeView<V>>, id: i64, v: V)
    ensures
        written(table, Seq::<ChangeView<V>>::empty()) == table,
        written(table, changes.push(ChangeView::Put(id, v))) == written(table, changes).insert(id, v),
        written(table, changes.push(ChangeView::Drop(id))) == written(table, changes).remove(id),
{
    assert(changes.push(ChangeView::Put(id, v)).drop_last() =~= changes);
    assert(changes.push(ChangeView::<V>::Drop(id)).drop_last() =~= changes);
}

} // verus!
