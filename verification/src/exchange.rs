//! The formats in which texts, file lists and pictures pass through the system clipboard.

use crate::outside::{from_utf8_lossy, utf8_lossy};
use crate::picture::Picture;
use crate::text::{chars_of, texts};
use vstd::prelude::*;

verus! {

/// The UTF-16 units of a character.
pub open spec fn char_units(c: char) -> Seq<u16> {
    let u = c as u32;
    if u < 0x10000 {
        seq![u as u16]
    } else {
        seq![
            (0xD800 + (u - 0x10000) / 0x400) as u16,
            (0xDC00 + (u - 0x10000) % 0x400) as u16,
        ]
    }
}

/// The UTF-16 units of a text.
pub open spec fn encode16(s: Seq<char>) -> Seq<u16>
    decreases s.len(),
{
    if s.len() == 0 {
        seq![]
    } else {
        char_units(s[0]) + encode16(s.drop_first())
    }
}

/// The first unit of a pair that stands for one character.
pub open spec fn high_unit(u: u16) -> bool {
    0xD800 <= u < 0xDC00
}

/// The second unit of such a pair.
pub open spec fn low_unit(u: u16) -> bool {
    0xDC00 <= u < 0xE000
}

/// The character that a pair of units stands for.
pub open spec fn pair_char(high: u16, low: u16) -> char {
    (0x10000 + (high - 0xD800) * 0x400 + (low - 0xDC00)) as char
}

/// The character that stands for a unit that is no character and no part of a pair.
pub const REPLACEMENT: char = '\u{FFFD}';

/// The text that UTF-16 units stand for, with a replacement for each unit that stands alone but
/// belongs in a pair.
pub open spec fn decode16(u: Seq<u16>) -> Seq<char>
    decreases u.len(),
{
    if u.len() == 0 {
        seq![]
    } else if high_unit(u[0]) && u.len() > 1 && low_unit(u[1]) {
        seq![pair_char(u[0], u[1])] + decode16(u.skip(2))
    } else if high_unit(u[0]) || low_unit(u[0]) {
        seq![REPLACEMENT] + decode16(u.skip(1))
    } else {
        seq![u[0] as char] + decode16(u.skip(1))
    }
}

/// The units of `s`.
pub fn utf16_units(s: &str) -> (r: Vec<u16>)
    ensures
        r@ == encode16(s@),
{
    let cs = chars_of(s);
    let mut out: Vec<u16> = Vec::new();
    assert(cs@.skip(0) =~= cs@);
    for i in 0..cs.len()
        invariant
            out@ + encode16(cs@.skip(i as int)) == encode16(cs@),
    {
        let ghost before = out@;
        let c: char = cs[i];
        let u: u32 = c as u32;
        if u < 0x10000 {
            out.push(u as u16);
        } else {
            out.push((0xD800 + (u - 0x10000) / 0x400) as u16);
            out.push((0xDC00 + (u - 0x10000) % 0x400) as u16);
        }
        proof {
            assert(out@ =~= before + char_units(c));
            assert(cs@.skip(i as int).drop_first() =~= cs@.skip(i + 1));
            assert(before + (char_units(c) + encode16(cs@.skip(i + 1))) =~= out@ + encode16(
                cs@.skip(i + 1),
            ));
        }
    }
    assert(cs@.skip(cs@.len() as int) =~= seq![]);
    assert(out@ + encode16(seq![]) =~= out@);
    out
}

fn char_at(code: u32) -> (r: char)
    requires
        code < 0xD800 || 0xE000 <= code <= 0x10FFFF,
    ensures
        r as u32 == code,
{
    match char::from_u32(code) {
        Some(c) => c,
        None => REPLACEMENT,
    }
}

/// The text of `u`.
pub fn utf16_text(u: &[u16]) -> (r: String)
    ensures
        r@ == decode16(u@),
{
    let n: usize = u.len();
    let mut out = String::new();
    let mut i: usize = 0;
    assert(u@.skip(0) =~= u@);
    while i < n
        invariant
            n == u@.len(),
            i <= n,
            out@ + decode16(u@.skip(i as int)) == decode16(u@),
        decreases n - i,
    {
        let ghost before = out@;
        let ghost rest = u@.skip(i as int);
        let a: u16 = u[i];
        if 0xD800 <= a && a < 0xDC00 && i + 1 < n && 0xDC00 <= u[i + 1] && u[i + 1] < 0xE000 {
            let b: u16 = u[i + 1];
            let code: u32 = 0x10000 + ((a - 0xD800) as u32) * 0x400 + (b - 0xDC00) as u32;
            out.push(char_at(code));
            proof {
                assert(rest[1] == b);
                assert(rest.skip(2) =~= u@.skip(i + 2));
                assert(before + (seq![pair_char(a, b)] + decode16(u@.skip(i + 2))) =~= out@
                    + decode16(u@.skip(i + 2)));
            }
            i = i + 2;
        } else {
            if 0xD800 <= a && a < 0xE000 {
                out.push(REPLACEMENT);
            } else {
                out.push(char_at(a as u32));
            }
            proof {
                assert(rest.skip(1) =~= u@.skip(i + 1));
                assert(rest.len() > 1 ==> rest[1] == u@[i + 1]);
                assert(before + (seq![out@.last()] + decode16(u@.skip(i + 1))) =~= out@ + decode16(
                    u@.skip(i + 1),
                ));
            }
            i = i + 1;
        }
    }
    assert(u@.skip(n as int) =~= seq![]);
    assert(out@ + decode16(seq![]) =~= out@);
    out
}

proof fn lemma_char_units(c: char, rest: Seq<u16>)
    ensures
        decode16(char_units(c) + rest) == seq![c] + decode16(rest),
{
    let u = char_units(c) + rest;
    let k = c as u32;
    if k < 0x10000 {
        assert(u[0] == k);
        assert(u.skip(1) =~= rest);
        assert(u[0] as char == c);
    } else {
        assert(u[0] == 0xD800 + (k - 0x10000) / 0x400);
        assert(u[1] == 0xDC00 + (k - 0x10000) % 0x400);
        assert(u.skip(2) =~= rest);
        assert(pair_char(u[0], u[1]) == c);
    }
}

/// Writing a text in UTF-16 and reading it gives the text back.
pub proof fn law_utf16_round_trip(s: Seq<char>)
    ensures
        decode16(encode16(s)) == s,
    decreases s.len(),
{
    if s.len() == 0 {
        assert(decode16(seq![]) =~= s);
    } else {
        lemma_char_units(s[0], encode16(s.drop_first()));
        law_utf16_round_trip(s.drop_first());
        assert(seq![s[0]] + s.drop_first() =~= s);
    }
}

/// A text handed to the shell: its units and a zero after them.
pub fn wide_z(s: &str) -> (r: Vec<u16>)
    ensures
        r@ == encode16(s@).push(0),
{
    let mut out = utf16_units(s);
    out.push(0);
    out
}

/// At most this many units of a text are read from the clipboard: 64 KiB.
pub const TEXT_UNITS: usize = 32768;

/// How many units come before the first zero.
pub open spec fn before_zero(u: Seq<u16>) -> nat
    decreases u.len(),
{
    if u.len() == 0 || u[0] == 0 {
        0
    } else {
        1 + before_zero(u.drop_first())
    }
}

proof fn lemma_before_zero(u: Seq<u16>)
    ensures
        before_zero(u) <= u.len(),
        forall|i: int| 0 <= i < before_zero(u) ==> #[trigger] u[i] != 0,
        before_zero(u) < u.len() ==> u[before_zero(u) as int] == 0,
    decreases u.len(),
{
    if u.len() > 0 && u[0] != 0 {
        lemma_before_zero(u.drop_first());
        assert forall|i: int| 0 <= i < before_zero(u) implies #[trigger] u[i] != 0 by {
            if i > 0 {
                assert(u[i] == u.drop_first()[i - 1]);
            }
        }
    }
}

proof fn lemma_before_zero_is(u: Seq<u16>, k: int)
    requires
        0 <= k <= u.len(),
        forall|i: int| 0 <= i < k ==> #[trigger] u[i] != 0,
        k < u.len() ==> u[k] == 0,
    ensures
        before_zero(u) == k,
{
    lemma_before_zero(u);
    if before_zero(u) < k {
        assert(u[before_zero(u) as int] != 0);
    }
    if k < before_zero(u) {
        assert(u[k] != 0);
    }
}

/// The units that are read of what the clipboard holds as text: up to the first zero, and no more
/// than the limit.
pub open spec fn text_part(u: Seq<u16>) -> Seq<u16> {
    if before_zero(u) < TEXT_UNITS {
        u.take(before_zero(u) as int)
    } else {
        u.take(TEXT_UNITS as int)
    }
}

/// The text in what the clipboard holds as UTF-16 text.
pub fn clipboard_text(u: &[u16]) -> (r: String)
    ensures
        r@ == decode16(text_part(u@)),
{
    let n: usize = u.len();
    let mut end: usize = 0;
    while end < n && end < TEXT_UNITS && u[end] != 0
        invariant
            n == u@.len(),
            end <= n,
            end <= TEXT_UNITS,
            forall|j: int| 0 <= j < end ==> u@[j] != 0,
        decreases n - end,
    {
        end = end + 1;
    }
    proof {
        lemma_before_zero(u@);
        if end == n || u@[end as int] == 0 {
            lemma_before_zero_is(u@, end as int);
        } else if before_zero(u@) < end {
            assert(u@[before_zero(u@) as int] != 0);
        }
        assert(u@.subrange(0, end as int) =~= text_part(u@));
    }
    utf16_text(vstd::slice::slice_subrange(u, 0, end))
}

/// A number as four bytes, the lowest first.
pub open spec fn le32(n: u32) -> Seq<u8> {
    seq![
        (n % 256) as u8,
        (n / 256 % 256) as u8,
        (n / 65536 % 256) as u8,
        (n / 16777216) as u8,
    ]
}

/// A number as two bytes, the lower first.
pub open spec fn le16(n: u16) -> Seq<u8> {
    seq![(n % 256) as u8, (n / 256) as u8]
}

/// The number that four bytes are, the lowest first.
pub open spec fn from_le32(b: Seq<u8>, at: int) -> u32 {
    (b[at] + b[at + 1] * 256 + b[at + 2] * 65536 + b[at + 3] * 16777216) as u32
}

fn push_le32(out: &mut Vec<u8>, n: u32)
    ensures
        final(out)@ == old(out)@ + le32(n),
{
    out.push((n % 256) as u8);
    out.push((n / 256 % 256) as u8);
    out.push((n / 65536 % 256) as u8);
    out.push((n / 16777216) as u8);
    assert(out@ =~= old(out)@ + le32(n));
}

fn push_le16(out: &mut Vec<u8>, n: u16)
    ensures
        final(out)@ == old(out)@ + le16(n),
{
    out.push((n % 256) as u8);
    out.push((n / 256) as u8);
    assert(out@ =~= old(out)@ + le16(n));
}

fn read_le32(b: &[u8], at: usize) -> (r: u32)
    requires
        at + 4 <= b@.len(),
    ensures
        r == from_le32(b@, at as int),
{
    let n: usize = b.len();
    assert(n == b@.len());
    (b[at] as u32) + (b[at + 1] as u32) * 256 + (b[at + 2] as u32) * 65536 + (b[at + 3] as u32)
        * 16777216
}

/// UTF-16 units as bytes, the lower byte of each first.
pub open spec fn unit_bytes(u: Seq<u16>) -> Seq<u8>
    decreases u.len(),
{
    if u.len() == 0 {
        seq![]
    } else {
        unit_bytes(u.drop_last()) + le16(u.last())
    }
}

/// The paths in UTF-16, a zero after each.
pub open spec fn list_units(paths: Seq<Seq<char>>) -> Seq<u16>
    decreases paths.len(),
{
    if paths.len() == 0 {
        seq![]
    } else {
        encode16(paths[0]).push(0) + list_units(paths.drop_first())
    }
}

/// The head of a file list: the list begins twenty bytes on, at no place, in UTF-16.
pub open spec fn drop_head() -> Seq<u8> {
    le32(20) + le32(0) + le32(0) + le32(0) + le32(1)
}

/// A file list as the clipboard holds it.
pub open spec fn drop_files(paths: Seq<Seq<char>>) -> Seq<u8> {
    drop_head() + unit_bytes(list_units(paths).push(0))
}

/// The file list of `paths` as the clipboard holds it.
pub fn drop_files_bytes(paths: &[String]) -> (r: Vec<u8>)
    ensures
        r@ == drop_files(texts(paths@)),
{
    let mut units: Vec<u16> = Vec::new();
    assert(paths@.skip(0) =~= paths@);
    for i in 0..paths.len()
        invariant
            units@ + list_units(texts(paths@.skip(i as int))) == list_units(texts(paths@)),
    {
        let ghost before = units@;
        let mut one = wide_z(&paths[i]);
        units.append(&mut one);
        proof {
            let rest = texts(paths@.skip(i as int));
            let p = encode16(paths@[i as int]@).push(0);
            assert(rest.drop_first() =~= texts(paths@.skip(i + 1)));
            assert(units@ =~= before + p);
            assert(before + (p + list_units(texts(paths@.skip(i + 1)))) =~= units@ + list_units(
                texts(paths@.skip(i + 1)),
            ));
        }
    }
    proof {
        assert(paths@.skip(paths@.len() as int) =~= seq![]);
        assert(texts(Seq::<String>::empty()) =~= seq![]);
        assert(units@ + list_units(seq![]) =~= units@);
    }
    units.push(0);
    let mut out: Vec<u8> = Vec::new();
    push_le32(&mut out, 20);
    push_le32(&mut out, 0);
    push_le32(&mut out, 0);
    push_le32(&mut out, 0);
    push_le32(&mut out, 1);
    assert(out@ =~= drop_head());
    for i in 0..units.len()
        invariant
            out@ == drop_head() + unit_bytes(units@.take(i as int)),
    {
        let ghost before = out@;
        push_le16(&mut out, units[i]);
        proof {
            assert(units@.take(i + 1).drop_last() =~= units@.take(i as int));
            assert(out@ =~= drop_head() + unit_bytes(units@.take(i + 1)));
        }
    }
    assert(units@.take(units@.len() as int) =~= units@);
    out
}

/// The whole UTF-16 units in bytes, the lower byte of each first.
pub open spec fn units_of(b: Seq<u8>) -> Seq<u16> {
    Seq::new((b.len() / 2) as nat, |i: int| (b[2 * i] + b[2 * i + 1] * 256) as u16)
}

/// The texts in `u`, each before a zero, up to the first that is empty; nothing where `u` ends
/// before that.
pub open spec fn wide_list(u: Seq<u16>) -> Option<Seq<Seq<char>>>
    decreases u.len(),
{
    let n = before_zero(u);
    if n >= u.len() {
        None
    } else if n == 0 {
        Some(seq![])
    } else {
        match wide_list(u.skip(n as int + 1)) {
            Some(rest) => Some(seq![decode16(u.take(n as int))] + rest),
            None => None,
        }
    }
}

/// How many bytes come before the first zero.
pub open spec fn before_nul(b: Seq<u8>) -> nat
    decreases b.len(),
{
    if b.len() == 0 || b[0] == 0 {
        0
    } else {
        1 + before_nul(b.drop_first())
    }
}

proof fn lemma_before_nul_is(b: Seq<u8>, k: int)
    requires
        0 <= k <= b.len(),
        forall|i: int| 0 <= i < k ==> #[trigger] b[i] != 0,
        k < b.len() ==> b[k] == 0,
    ensures
        before_nul(b) == k,
    decreases b.len(),
{
    if k > 0 {
        assert(b[0] != 0);
        assert forall|i: int| 0 <= i < k - 1 implies #[trigger] b.drop_first()[i] != 0 by {
            assert(b.drop_first()[i] == b[i + 1]);
        }
        lemma_before_nul_is(b.drop_first(), k - 1);
    }
}

/// As [`wide_list`], of single bytes read as UTF-8.
pub open spec fn narrow_list(b: Seq<u8>) -> Option<Seq<Seq<char>>>
    decreases b.len(),
{
    let n = before_nul(b);
    if n >= b.len() {
        None
    } else if n == 0 {
        Some(seq![])
    } else {
        match narrow_list(b.skip(n as int + 1)) {
            Some(rest) => Some(seq![utf8_lossy(b.take(n as int))] + rest),
            None => None,
        }
    }
}

/// The paths of a file list that the clipboard holds; nothing where it ends before its end mark.
pub open spec fn dropped_paths(b: Seq<u8>) -> Option<Seq<Seq<char>>> {
    if b.len() < 20 || from_le32(b, 0) > b.len() {
        None
    } else if from_le32(b, 16) != 0 {
        wide_list(units_of(b.skip(from_le32(b, 0) as int)))
    } else {
        narrow_list(b.skip(from_le32(b, 0) as int))
    }
}

fn read_wide_list(u: &[u16]) -> (r: Option<Vec<String>>)
    ensures
        match r {
            Some(v) => wide_list(u@) == Some(texts(v@)),
            None => wide_list(u@) is None,
        },
{
    let n: usize = u.len();
    let mut out: Vec<String> = Vec::new();
    let mut start: usize = 0;
    assert(u@.skip(0) =~= u@);
    assert(texts(out@) =~= seq![]);
    assert(wide_list(u@) is Some ==> seq![] + wide_list(u@)->0 =~= wide_list(u@)->0);
    loop
        invariant
            n == u@.len(),
            start <= n,
            wide_list(u@) is Some <==> wide_list(u@.skip(start as int)) is Some,
            wide_list(u@) is Some ==> wide_list(u@)->0 == texts(out@) + wide_list(
                u@.skip(start as int),
            )->0,
        decreases n - start,
    {
        let ghost rest = u@.skip(start as int);
        let mut end: usize = start;
        while end < n && u[end] != 0
            invariant
                n == u@.len(),
                start <= end <= n,
                forall|j: int| start <= j < end ==> u@[j] != 0,
            decreases n - end,
        {
            end = end + 1;
        }
        proof {
            assert forall|j: int| 0 <= j < end - start implies #[trigger] rest[j] != 0 by {
                assert(rest[j] == u@[start + j]);
            }
            lemma_before_zero_is(rest, end - start);
        }
        if end == n {
            return None;
        }
        if end == start {
            assert(texts(out@) + seq![] =~= texts(out@));
            return Some(out);
        }
        let one = utf16_text(vstd::slice::slice_subrange(u, start, end));
        let ghost before = out@;
        out.push(one);
        proof {
            assert(u@.subrange(start as int, end as int) =~= rest.take(end - start));
            assert(rest.skip(end - start + 1) =~= u@.skip(end + 1));
            assert(texts(out@) =~= texts(before).push(one@));
            if wide_list(u@.skip(end + 1)) is Some {
                let tail = wide_list(u@.skip(end + 1))->0;
                assert(texts(before) + (seq![one@] + tail) =~= texts(out@) + tail);
            }
        }
        start = end + 1;
    }
}

fn read_narrow_list(b: &[u8]) -> (r: Option<Vec<String>>)
    ensures
        match r {
            Some(v) => narrow_list(b@) == Some(texts(v@)),
            None => narrow_list(b@) is None,
        },
{
    let n: usize = b.len();
    let mut out: Vec<String> = Vec::new();
    let mut start: usize = 0;
    assert(b@.skip(0) =~= b@);
    assert(texts(out@) =~= seq![]);
    assert(narrow_list(b@) is Some ==> seq![] + narrow_list(b@)->0 =~= narrow_list(b@)->0);
    loop
        invariant
            n == b@.len(),
            start <= n,
            narrow_list(b@) is Some <==> narrow_list(b@.skip(start as int)) is Some,
            narrow_list(b@) is Some ==> narrow_list(b@)->0 == texts(out@) + narrow_list(
                b@.skip(start as int),
            )->0,
        decreases n - start,
    {
        let ghost rest = b@.skip(start as int);
        let mut end: usize = start;
        while end < n && b[end] != 0
            invariant
                n == b@.len(),
                start <= end <= n,
                forall|j: int| start <= j < end ==> b@[j] != 0,
            decreases n - end,
        {
            end = end + 1;
        }
        proof {
            assert forall|j: int| 0 <= j < end - start implies #[trigger] rest[j] != 0 by {
                assert(rest[j] == b@[start + j]);
            }
            lemma_before_nul_is(rest, end - start);
        }
        if end == n {
            return None;
        }
        if end == start {
            assert(texts(out@) + seq![] =~= texts(out@));
            return Some(out);
        }
        let one = from_utf8_lossy(vstd::slice::slice_subrange(b, start, end));
        let ghost before = out@;
        out.push(one);
        proof {
            assert(b@.subrange(start as int, end as int) =~= rest.take(end - start));
            assert(rest.skip(end - start + 1) =~= b@.skip(end + 1));
            assert(texts(out@) =~= texts(before).push(one@));
            if narrow_list(b@.skip(end + 1)) is Some {
                let tail = narrow_list(b@.skip(end + 1))->0;
                assert(texts(before) + (seq![one@] + tail) =~= texts(out@) + tail);
            }
        }
        start = end + 1;
    }
}

/// The paths of the file list `b`.
pub fn read_drop_files(b: &[u8]) -> (r: Option<Vec<String>>)
    ensures
        match r {
            Some(v) => dropped_paths(b@) == Some(texts(v@)),
            None => dropped_paths(b@) is None,
        },
{
    let n: usize = b.len();
    if n < 20 {
        return None;
    }
    let offset: u32 = read_le32(b, 0);
    let wide: bool = read_le32(b, 16) != 0;
    if (offset as u64) > (n as u64) {
        return None;
    }
    let start: usize = offset as usize;
    let body = vstd::slice::slice_subrange(b, start, n);
    assert(body@ =~= b@.skip(start as int));
    if wide {
        let m: usize = body.len() / 2;
        assert(2 * m <= n);
        let mut units: Vec<u16> = Vec::new();
        for i in 0..m
            invariant
                m == body@.len() / 2,
                2 * m <= n,
                units@ == units_of(body@).take(i as int),
        {
            units.push((body[2 * i] as u16) + (body[2 * i + 1] as u16) * 256);
            assert(units@ =~= units_of(body@).take(i + 1));
        }
        assert(units_of(body@).take(m as int) =~= units_of(body@));
        read_wide_list(&units)
    } else {
        read_narrow_list(body)
    }
}

/// The four bytes of the pixel whose samples begin at `at`, in the order that a bitmap has them.
pub open spec fn bgra(rgba: Seq<u8>, at: int) -> Seq<u8> {
    seq![rgba[at + 2], rgba[at + 1], rgba[at], rgba[at + 3]]
}

/// The pixels of the row whose samples begin at `at`, up to column `cols`.
pub open spec fn bitmap_row(rgba: Seq<u8>, at: int, cols: nat) -> Seq<u8>
    decreases cols,
{
    if cols == 0 {
        seq![]
    } else {
        bitmap_row(rgba, at, (cols - 1) as nat) + bgra(rgba, at + (cols - 1) * 4)
    }
}

/// The pixels of the first `rows` rows, the lowest first.
pub open spec fn bitmap_rows(rgba: Seq<u8>, width: nat, rows: nat) -> Seq<u8>
    decreases rows,
{
    if rows == 0 {
        seq![]
    } else {
        bitmap_row(rgba, (rows - 1) * width * 4, width) + bitmap_rows(
            rgba,
            width,
            (rows - 1) as nat,
        )
    }
}

/// The head of a bitmap: its length, the size of the picture, one plane of 32 bits, not compressed,
/// the length of the pixels, and nothing else said.
pub open spec fn bitmap_head(width: u32, height: u32) -> Seq<u8> {
    le32(40) + le32(width) + le32(height) + le16(1) + le16(32) + le32(0) + le32(
        (width * height * 4 % 0x1_0000_0000) as u32,
    ) + Seq::new(16, |i: int| 0u8)
}

/// The picture as a device independent bitmap.
pub fn bitmap_bytes(picture: &Picture) -> (r: Vec<u8>)
    requires
        picture.wf(),
    ensures
        r@ == bitmap_head(picture.width, picture.height) + bitmap_rows(
            picture.rgba@,
            picture.width as nat,
            picture.height as nat,
        ),
{
    let w: usize = picture.width as usize;
    let h: usize = picture.height as usize;
    let len: usize = picture.rgba.len();
    let mut out: Vec<u8> = Vec::new();
    push_le32(&mut out, 40);
    push_le32(&mut out, picture.width);
    push_le32(&mut out, picture.height);
    push_le16(&mut out, 1);
    push_le16(&mut out, 32);
    push_le32(&mut out, 0);
    push_le32(&mut out, ((len as u64) % 0x1_0000_0000) as u32);
    for i in 0..16usize
        invariant
            out@ == le32(40) + le32(picture.width) + le32(picture.height) + le16(1) + le16(32)
                + le32(0) + le32((len as int % 0x1_0000_0000) as u32) + Seq::new(i as nat, |j: int| 0u8),
    {
        let ghost before = out@;
        out.push(0);
        assert(Seq::new((i + 1) as nat, |j: int| 0u8) =~= Seq::new(i as nat, |j: int| 0u8).push(
            0u8,
        ));
        assert(out@ =~= before.push(0u8));
    }
    let ghost head = bitmap_head(picture.width, picture.height);
    assert(out@ =~= head);
    let ghost all = head + bitmap_rows(picture.rgba@, w as nat, h as nat);
    let mut row: usize = h;
    while row > 0
        invariant
            picture.wf(),
            w == picture.width,
            h == picture.height,
            len == picture.rgba@.len(),
            row <= h,
            out@ + bitmap_rows(picture.rgba@, w as nat, row as nat) == all,
        decreases row,
    {
        let ghost before = out@;
        let r1: usize = row - 1;
        assert(r1 * w * 4 + w * 4 <= len) by (nonlinear_arith)
            requires
                r1 + 1 <= h,
                len == w * h * 4,
        ;
        assert(0 <= r1 * w * 4) by (nonlinear_arith);
        assert(r1 * w <= r1 * w * 4) by (nonlinear_arith)
            requires
                0 <= r1 * w * 4,
        ;
        let at: usize = r1 * w * 4;
        let mut col: usize = 0;
        while col < w
            invariant
                len == picture.rgba@.len(),
                at + w * 4 <= len,
                col <= w,
                out@ == before + bitmap_row(picture.rgba@, at as int, col as nat),
            decreases w - col,
        {
            let i: usize = at + col * 4;
            let ghost prior = out@;
            out.push(picture.rgba[i + 2]);
            out.push(picture.rgba[i + 1]);
            out.push(picture.rgba[i]);
            out.push(picture.rgba[i + 3]);
            proof {
                assert(out@ =~= prior + bgra(picture.rgba@, i as int));
                assert(out@ =~= before + bitmap_row(picture.rgba@, at as int, (col + 1) as nat));
            }
            col = col + 1;
        }
        proof {
            let line = bitmap_row(picture.rgba@, at as int, w as nat);
            let below = bitmap_rows(picture.rgba@, w as nat, r1 as nat);
            assert(bitmap_rows(picture.rgba@, w as nat, row as nat) == line + below);
            assert(before + (line + below) =~= out@ + below);
        }
        row = r1;
    }
    assert(out@ + bitmap_rows(picture.rgba@, w as nat, 0) =~= out@);
    out
}

proof fn lemma_char_units_nonzero(c: char)
    requires
        c != '\0',
    ensures
        char_units(c).len() > 0,
        forall|i: int| 0 <= i < char_units(c).len() ==> #[trigger] char_units(c)[i] != 0,
{
}

proof fn lemma_encode16_nonzero(s: Seq<char>)
    requires
        !s.contains('\0'),
    ensures
        s.len() > 0 ==> encode16(s).len() > 0,
        forall|i: int| 0 <= i < encode16(s).len() ==> #[trigger] encode16(s)[i] != 0,
    decreases s.len(),
{
    if s.len() > 0 {
        let rest = s.drop_first();
        assert(!rest.contains('\0')) by {
            if rest.contains('\0') {
                let i = choose|i: int| 0 <= i < rest.len() && rest[i] == '\0';
                assert(s[i + 1] == '\0');
            }
        }
        assert(s[0] != '\0');
        lemma_char_units_nonzero(s[0]);
        lemma_encode16_nonzero(rest);
        let head = char_units(s[0]);
        assert forall|i: int| 0 <= i < encode16(s).len() implies #[trigger] encode16(s)[i] != 0 by {
            if i < head.len() {
                assert(encode16(s)[i] == head[i]);
            } else {
                assert(encode16(s)[i] == encode16(rest)[i - head.len()]);
            }
        }
    }
}

proof fn lemma_unit_bytes(u: Seq<u16>)
    ensures
        unit_bytes(u).len() == 2 * u.len(),
        units_of(unit_bytes(u)) == u,
    decreases u.len(),
{
    let b = unit_bytes(u);
    if u.len() > 0 {
        let n = u.len() - 1;
        let p = unit_bytes(u.drop_last());
        lemma_unit_bytes(u.drop_last());
        assert forall|i: int| 0 <= i < u.len() implies #[trigger] units_of(b)[i] == u[i] by {
            if i < n {
                assert(b[2 * i] == p[2 * i]);
                assert(b[2 * i + 1] == p[2 * i + 1]);
                assert(units_of(p)[i] == u.drop_last()[i]);
            } else {
                assert(b[2 * i] == le16(u.last())[0]);
                assert(b[2 * i + 1] == le16(u.last())[1]);
            }
        }
    }
    assert(units_of(b) =~= u);
}

/// A path that a file list can hold: it has a character, and none of its characters is zero.
pub open spec fn listable(p: Seq<char>) -> bool {
    p.len() > 0 && !p.contains('\0')
}

proof fn lemma_wide_list(paths: Seq<Seq<char>>)
    requires
        forall|i: int| 0 <= i < paths.len() ==> listable(#[trigger] paths[i]),
    ensures
        wide_list(list_units(paths).push(0)) == Some(paths),
    decreases paths.len(),
{
    let u = list_units(paths).push(0);
    if paths.len() == 0 {
        assert(u[0] == 0);
        lemma_before_zero_is(u, 0);
        assert(paths =~= seq![]);
    } else {
        let p = paths[0];
        let e = encode16(p);
        let rest = list_units(paths.drop_first()).push(0);
        lemma_encode16_nonzero(p);
        assert(u =~= e.push(0) + rest);
        assert forall|i: int| 0 <= i < e.len() implies #[trigger] u[i] != 0 by {
            assert(u[i] == e[i]);
        }
        assert(u[e.len() as int] == 0);
        lemma_before_zero_is(u, e.len() as int);
        assert(u.take(e.len() as int) =~= e);
        assert(u.skip(e.len() as int + 1) =~= rest);
        law_utf16_round_trip(p);
        assert forall|i: int| 0 <= i < paths.drop_first().len() implies listable(
            #[trigger] paths.drop_first()[i],
        ) by {
            assert(paths.drop_first()[i] == paths[i + 1]);
        }
        lemma_wide_list(paths.drop_first());
        assert(seq![p] + paths.drop_first() =~= paths);
    }
}

/// A text that was put on the clipboard, with a zero after it, is read back as it was, as long as it
/// is within the limit and has no zero in it.
pub proof fn law_text_reads_back(s: Seq<char>)
    requires
        encode16(s).len() <= TEXT_UNITS,
        !s.contains('\0'),
    ensures
        decode16(text_part(encode16(s).push(0))) == s,
{
    let e = encode16(s);
    let u = e.push(0);
    lemma_encode16_nonzero(s);
    assert forall|i: int| 0 <= i < e.len() implies #[trigger] u[i] != 0 by {
        assert(u[i] == e[i]);
    }
    lemma_before_zero_is(u, e.len() as int);
    assert(text_part(u) =~= e);
    law_utf16_round_trip(s);
}

/// Reading a file list that was written gives the same paths in the same order.
pub proof fn law_drop_files_round_trip(paths: Seq<Seq<char>>)
    requires
        forall|i: int| 0 <= i < paths.len() ==> listable(#[trigger] paths[i]),
    ensures
        dropped_paths(drop_files(paths)) == Some(paths),
{
    let b = drop_files(paths);
    let u = list_units(paths).push(0);
    let body = unit_bytes(u);
    assert(drop_head().len() == 20);
    assert forall|i: int| 0 <= i < 20 implies b[i] == drop_head()[i] by {}
    assert(b[0] == 20 && b[1] == 0 && b[2] == 0 && b[3] == 0);
    assert(b[16] == 1 && b[17] == 0 && b[18] == 0 && b[19] == 0);
    assert(b.skip(20) =~= body);
    lemma_unit_bytes(u);
    lemma_wide_list(paths);
}

proof fn lemma_bitmap_row(rgba: Seq<u8>, at: int, cols: nat, col: int)
    requires
        0 <= col < cols,
    ensures
        bitmap_row(rgba, at, cols).len() == cols * 4,
        bitmap_row(rgba, at, cols).subrange(col * 4, col * 4 + 4) == bgra(rgba, at + col * 4),
    decreases cols,
{
    let before = bitmap_row(rgba, at, (cols - 1) as nat);
    if cols > 1 {
        lemma_bitmap_row(rgba, at, (cols - 1) as nat, if col < cols - 1 { col } else { 0 });
    }
    assert(before.len() == (cols - 1) * 4);
    let line = bitmap_row(rgba, at, cols);
    if col < cols - 1 {
        assert(line.subrange(col * 4, col * 4 + 4) =~= before.subrange(col * 4, col * 4 + 4));
    } else {
        assert(line.subrange(col * 4, col * 4 + 4) =~= bgra(rgba, at + col * 4));
    }
}

proof fn lemma_bitmap_rows_len(rgba: Seq<u8>, width: nat, rows: nat)
    ensures
        bitmap_rows(rgba, width, rows).len() == rows * width * 4,
    decreases rows,
{
    if rows > 0 {
        lemma_bitmap_rows_len(rgba, width, (rows - 1) as nat);
        if width > 0 {
            lemma_bitmap_row(rgba, (rows - 1) * width * 4, width, 0);
        }
        assert(rows * width * 4 == width * 4 + (rows - 1) * width * 4) by (nonlinear_arith)
            requires
                rows > 0,
        ;
    } else {
        assert(rows * width * 4 == 0) by (nonlinear_arith)
            requires
                rows == 0,
        ;
    }
}

proof fn lemma_bitmap_rows(rgba: Seq<u8>, width: nat, rows: nat, row: int, col: int)
    requires
        0 <= row < rows,
        0 <= col < width,
    ensures
        ((rows - 1 - row) * width + col) * 4 + 4 <= bitmap_rows(rgba, width, rows).len(),
        bitmap_rows(rgba, width, rows).subrange(
            ((rows - 1 - row) * width + col) * 4,
            ((rows - 1 - row) * width + col) * 4 + 4,
        ) == bgra(rgba, (row * width + col) * 4),
    decreases rows,
{
    let all = bitmap_rows(rgba, width, rows);
    let line = bitmap_row(rgba, (rows - 1) * width * 4, width);
    let below = bitmap_rows(rgba, width, (rows - 1) as nat);
    lemma_bitmap_rows_len(rgba, width, rows);
    lemma_bitmap_row(rgba, (rows - 1) * width * 4, width, col);
    let k = ((rows - 1 - row) * width + col) * 4;
    if row == rows - 1 {
        assert(k == col * 4) by (nonlinear_arith)
            requires
                row == rows - 1,
                k == ((rows - 1 - row) * width + col) * 4,
        ;
        assert((rows - 1) * width * 4 + col * 4 == (row * width + col) * 4) by (nonlinear_arith)
            requires
                row == rows - 1,
        ;
        assert(rows * width * 4 >= width * 4) by (nonlinear_arith)
            requires
                rows >= 1,
        ;
        assert(all.subrange(k, k + 4) =~= line.subrange(col * 4, col * 4 + 4));
    } else {
        lemma_bitmap_rows(rgba, width, (rows - 1) as nat, row, col);
        let j = (((rows - 1) as nat - 1 - row) * width + col) * 4;
        assert(k == width * 4 + j) by (nonlinear_arith)
            requires
                k == ((rows - 1 - row) * width + col) * 4,
                j == ((rows - 1 - 1 - row) * width + col) * 4,
        ;
        assert(0 <= j) by (nonlinear_arith)
            requires
                j == ((rows - 1 - 1 - row) * width + col) * 4,
                row < rows - 1,
                col >= 0,
        ;
        assert(all.subrange(k, k + 4) =~= below.subrange(j, j + 4));
    }
}

/// Where a pixel of a picture stands in its bitmap: the rows come from the lowest up, and of each
/// pixel blue comes first, then green, red and opacity.
pub proof fn law_bitmap_pixel(width: u32, height: u32, rgba: Seq<u8>, row: int, col: int)
    requires
        rgba.len() == width * height * 4,
        0 <= row < height,
        0 <= col < width,
    ensures
        ({
            let b = bitmap_head(width, height) + bitmap_rows(rgba, width as nat, height as nat);
            let at = 40 + ((height - 1 - row) * width + col) * 4;
            &&& b.len() == 40 + rgba.len()
            &&& at + 4 <= b.len()
            &&& b.subrange(at, at + 4) == bgra(rgba, (row * width + col) * 4)
        }),
{
    let head = bitmap_head(width, height);
    let body = bitmap_rows(rgba, width as nat, height as nat);
    let b = head + body;
    assert(head.len() == 40);
    lemma_bitmap_rows_len(rgba, width as nat, height as nat);
    assert(height as nat * width as nat * 4 == width * height * 4) by (nonlinear_arith);
    lemma_bitmap_rows(rgba, width as nat, height as nat, row, col);
    let k = ((height - 1 - row) * width + col) * 4;
    assert(0 <= k) by (nonlinear_arith)
        requires
            k == ((height - 1 - row) * width + col) * 4,
            row < height,
            col >= 0,
    ;
    assert(b.subrange(40 + k, 40 + k + 4) =~= body.subrange(k, k + 4));
}

} // verus!
