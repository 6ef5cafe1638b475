//! What a search finds: the query language of the index, the words that are indexed, and the records
//! that a query shows.

use crate::db::{found, DbView};
use crate::fts::{double_quotes, file_names, indexed, last_segment, match_query, quoted, spaced};
use crate::laws::law_list_is_complete;
use crate::models::{IndexView, RowView};
use crate::outside::json_read;
use crate::records::{entry_of, is_listing};
use crate::table::lemma_filter_ascending;
use crate::text::{is_space, join, lemma_join_push, lemma_words_push, lemma_words_trim, words};
use crate::winpath::lemma_join_first;
use vstd::prelude::*;

verus! {

/// What a string of the query language holds, out of what follows its opening quote, and what comes
/// after its closing quote: two quotes in a row stand for one.
pub open spec fn unquoted(t: Seq<char>) -> Option<(Seq<char>, Seq<char>)>
    decreases t.len(),
{
    if t.len() == 0 {
        None
    } else if t[0] != '"' {
        match unquoted(t.skip(1)) {
            Some(x) => Some((seq![t[0]] + x.0, x.1)),
            None => None,
        }
    } else if t.len() > 1 && t[1] == '"' {
        match unquoted(t.skip(2)) {
            Some(x) => Some((seq!['"'] + x.0, x.1)),
            None => None,
        }
    } else {
        Some((seq![], t.skip(1)))
    }
}

pub proof fn lemma_unquoted_len(t: Seq<char>)
    ensures
        unquoted(t) matches Some(x) ==> x.1.len() < t.len(),
    decreases t.len(),
{
    if t.len() > 0 {
        if t[0] != '"' {
            lemma_unquoted_len(t.skip(1));
        } else if t.len() > 1 && t[1] == '"' {
            lemma_unquoted_len(t.skip(2));
        }
    }
}

/// Whether an expression of the query language, after strings that were all held, or not all, and
/// that `AND` has joined to it, is met where `holds` tells which strings are held. `AND` binds
/// tighter than `OR`; what is no such expression is never met.
pub open spec fn met(e: Seq<char>, holds: spec_fn(Seq<char>) -> bool, so_far: bool) -> bool
    decreases e.len(),
{
    if e.len() == 0 || e[0] != '"' {
        false
    } else {
        proof {
            lemma_unquoted_len(e.skip(1));
        }
        match unquoted(e.skip(1)) {
            Some(x) => {
                let held = so_far && holds(x.0);
                let rest = x.1;
                if rest.len() == 0 {
                    held
                } else if rest.len() > 5 && rest.take(5) == seq![' ', 'A', 'N', 'D', ' '] {
                    met(rest.skip(5), holds, held)
                } else if rest.len() > 4 && rest.take(4) == seq![' ', 'O', 'R', ' '] {
                    held || met(rest.skip(4), holds, true)
                } else {
                    false
                }
            },
            None => false,
        }
    }
}

proof fn lemma_double_first(c: char, w: Seq<char>)
    ensures
        double_quotes(seq![c] + w) == (if c == '"' {
            seq!['"', '"']
        } else {
            seq![c]
        }) + double_quotes(w),
    decreases w.len(),
{
    let s = seq![c] + w;
    let head = if c == '"' {
        seq!['"', '"']
    } else {
        seq![c]
    };
    if w.len() == 0 {
        assert(s.drop_last() =~= Seq::<char>::empty());
        assert(s.last() == c);
        assert(double_quotes(s.drop_last()) =~= Seq::<char>::empty());
        assert(double_quotes(w) =~= Seq::<char>::empty());
        assert(double_quotes(s) =~= head + double_quotes(w));
    } else {
        assert(s.last() == w.last());
        assert(s.drop_last() =~= seq![c] + w.drop_last());
        lemma_double_first(c, w.drop_last());
        assert(double_quotes(s) =~= head + double_quotes(w));
    }
}

proof fn lemma_unquoted(w: Seq<char>, rest: Seq<char>)
    requires
        rest.len() == 0 || rest[0] != '"',
    ensures
        unquoted(double_quotes(w) + seq!['"'] + rest) == Some((w, rest)),
    decreases w.len(),
{
    let t = double_quotes(w) + seq!['"'] + rest;
    if w.len() == 0 {
        assert(t =~= seq!['"'] + rest);
        assert(t.skip(1) =~= rest);
        assert(w =~= Seq::<char>::empty());
    } else {
        let tail = w.skip(1);
        assert(w =~= seq![w[0]] + tail);
        lemma_double_first(w[0], tail);
        lemma_unquoted(tail, rest);
        let u = double_quotes(tail) + seq!['"'] + rest;
        if w[0] == '"' {
            assert(t =~= seq!['"', '"'] + u);
            assert(t.skip(2) =~= u);
        } else {
            assert(t =~= seq![w[0]] + u);
            assert(t.skip(1) =~= u);
        }
    }
}

proof fn lemma_met_all(list: Seq<Seq<char>>, holds: spec_fn(Seq<char>) -> bool, so_far: bool)
    requires
        list.len() > 0,
    ensures
        met(join(list.map_values(|t: Seq<char>| quoted(t)), " AND "@), holds, so_far) <==> so_far
            && forall|w: Seq<char>| #[trigger] list.contains(w) ==> holds(w),
    decreases list.len(),
{
    reveal_strlit(" AND ");
    let f = |t: Seq<char>| quoted(t);
    let sep = " AND "@;
    assert(sep =~= seq![' ', 'A', 'N', 'D', ' ']);
    let w = list[0];
    let tail = list.skip(1);
    let parts = list.map_values(f);
    let e = join(parts, sep);
    let held = so_far && holds(w);
    if list.len() == 1 {
        assert(parts =~= Seq::<Seq<char>>::empty().push(quoted(w)));
        lemma_join_push(Seq::<Seq<char>>::empty(), quoted(w), sep);
        let none = Seq::<char>::empty();
        assert(e.skip(1) =~= double_quotes(w) + seq!['"'] + none);
        lemma_unquoted(w, none);
        assert(e[0] == '"');
        assert(met(e, holds, so_far) == held);
    } else {
        let rest = join(tail.map_values(f), sep);
        assert(parts =~= seq![quoted(w)] + tail.map_values(f));
        lemma_join_first(quoted(w), tail.map_values(f), sep);
        let after = sep + rest;
        assert(e.skip(1) =~= double_quotes(w) + seq!['"'] + after);
        assert(after[0] == ' ');
        lemma_unquoted(w, after);
        lemma_met_all(tail, holds, held);
        assert(after.take(5) =~= sep);
        assert(after.skip(5) =~= rest);
        assert(e[0] == '"');
        lemma_join_some(tail.map_values(f), sep);
        assert(met(e, holds, so_far) == met(rest, holds, held));
    }
    assert(list.contains(list[0]));
    assert forall|x: Seq<char>| #[trigger] list.contains(x) <==> x == w || tail.contains(x) by {
        if list.contains(x) {
            let k = choose|k: int| 0 <= k < list.len() && list[k] == x;
            if k > 0 {
                assert(tail[k - 1] == x);
            }
        }
        if tail.contains(x) {
            let k = choose|k: int| 0 <= k < tail.len() && tail[k] == x;
            assert(list[k + 1] == x);
        }
    }
    let all = forall|x: Seq<char>| #[trigger] list.contains(x) ==> holds(x);
    let others = forall|x: Seq<char>| #[trigger] tail.contains(x) ==> holds(x);
    if all {
        assert forall|x: Seq<char>| #[trigger] tail.contains(x) implies holds(x) by {
            assert(list.contains(x));
        }
        assert(list.contains(w));
    }
    if holds(w) && others {
        assert forall|x: Seq<char>| #[trigger] list.contains(x) implies holds(x) by {
            if x != w {
                assert(tail.contains(x));
            }
        }
    }
    assert(all == (holds(w) && others));
}

proof fn lemma_join_some(list: Seq<Seq<char>>, sep: Seq<char>)
    requires
        list.len() > 0,
        list.last().len() > 0,
    ensures
        join(list, sep).len() > 0,
{
}

/// The expression that a search runs is met by exactly those entries that hold every word of the
/// prepared query, however many words there are and whatever is meant by holding one. A query
/// without words has no expression.
pub proof fn law_query_asks_for_every_word(q: Seq<char>, holds: spec_fn(Seq<char>) -> bool)
    ensures
        words(indexed(q)).len() == 0 <==> match_query(q).len() == 0,
        words(indexed(q)).len() > 0 ==> (met(match_query(q), holds, true) <==> forall|w: Seq<char>|
         #[trigger]
            words(indexed(q)).contains(w) ==> holds(w)),
{
    let list = words(indexed(q));
    if list.len() > 0 {
        lemma_met_all(list, holds, true);
        lemma_join_some(list.map_values(|t: Seq<char>| quoted(t)), " AND "@);
    }
}

/// An ideograph of Chinese writing, by its code point.
pub open spec fn ideograph(c: char) -> bool {
    let u = c as u32;
    (0x3400 <= u <= 0x4DBF) || (0x4E00 <= u <= 0x9FFF) || (0xF900 <= u <= 0xFAFF) || (0x20000 <= u
        <= 0x2EBEF)
}

/// A character that parts words, by its code point.
pub open spec fn gap(c: char) -> bool {
    let u = c as u32;
    (9 <= u <= 13) || u == 32 || u == 0x85 || u == 0xA0 || u == 0x1680 || (0x2000 <= u <= 0x200A)
        || u == 0x2028 || u == 0x2029 || u == 0x202F || u == 0x205F || u == 0x3000
}

/// The last character, where there is one, is a space.
spec fn open_end(s: Seq<char>) -> bool {
    s.len() == 0 || is_space(s.last())
}

/// Whatever follows a place where words are parted makes the same words there as by itself.
proof fn lemma_spaced_after(x: Seq<char>, b: Seq<char>)
    requires
        x.len() > 0,
        open_end(spaced(x)),
        spaced(x).len() > 0,
    ensures
        words(spaced(x + b)) == words(spaced(x)) + words(spaced(b)),
        open_end(spaced(x + b)) == open_end(spaced(b)),
        spaced(x + b).len() > 0,
    decreases b.len(),
{
    let front = words(spaced(x));
    if b.len() == 0 {
        assert(x + b =~= x);
        assert(spaced(b) =~= Seq::<char>::empty());
        assert(words(spaced(b)) =~= seq![]);
        assert(front + words(spaced(b)) =~= front);
    } else {
        let init = b.drop_last();
        let c = b.last();
        lemma_spaced_after(x, init);
        assert((x + b).drop_last() =~= x + init);
        assert((x + b).last() == c);
        let p = spaced(x + init);
        let q = spaced(init);
        assert(is_space(' '));
        lemma_words_push(p, c);
        lemma_words_push(q, c);
        if ideograph(c) {
            let pm = if p.len() > 0 && p.last() != ' ' {
                p.push(' ')
            } else {
                p
            };
            let qm = if q.len() > 0 && q.last() != ' ' {
                q.push(' ')
            } else {
                q
            };
            lemma_words_push(p, ' ');
            lemma_words_push(q, ' ');
            lemma_words_push(pm, c);
            lemma_words_push(qm, c);
            lemma_words_push(pm.push(c), ' ');
            lemma_words_push(qm.push(c), ' ');
            assert(!is_space(c));
            assert((front + words(q)).push(seq![c]) =~= front + words(q).push(seq![c]));
        } else if is_space(c) {
            assert(words(spaced(x + b)) == words(p));
        } else if open_end(q) {
            assert((front + words(q)).push(seq![c]) =~= front + words(q).push(seq![c]));
        } else {
            let m = words(q);
            assert((front + m).last() == m.last());
            assert((front + m).drop_last().push(m.last().push(c)) =~= front + m.drop_last().push(
                m.last().push(c),
            ));
        }
    }
}

/// An ideograph is a word of its own in what is indexed and in what is searched, with the words of
/// what comes before it and of what comes after it on either side.
pub proof fn law_ideograph_stands_alone(a: Seq<char>, h: char, b: Seq<char>)
    requires
        ideograph(h),
    ensures
        words(indexed(a + seq![h] + b)) == words(indexed(a)).push(seq![h]) + words(indexed(b)),
{
    let x = a + seq![h];
    let done = spaced(a);
    assert(x.drop_last() =~= a);
    assert(x.last() == h);
    let mid = if done.len() > 0 && done.last() != ' ' {
        done.push(' ')
    } else {
        done
    };
    assert(is_space(' ') && !is_space(h));
    lemma_words_push(done, ' ');
    lemma_words_push(mid, h);
    lemma_words_push(mid.push(h), ' ');
    lemma_spaced_after(x, b);
    lemma_words_trim(spaced(a));
    lemma_words_trim(spaced(b));
    lemma_words_trim(spaced(x + b));
}

/// White space parts words, and is part of none.
pub proof fn law_gap_parts_words(a: Seq<char>, c: char, b: Seq<char>)
    requires
        gap(c),
    ensures
        words(indexed(a + seq![c] + b)) == words(indexed(a)) + words(indexed(b)),
{
    let x = a + seq![c];
    assert(x.drop_last() =~= a);
    assert(x.last() == c);
    assert(is_space(c));
    lemma_words_push(spaced(a), c);
    lemma_spaced_after(x, b);
    lemma_words_trim(spaced(a));
    lemma_words_trim(spaced(b));
    lemma_words_trim(spaced(x + b));
}

/// A text without white space and ideographs is one word, as it is; no text has no word.
pub proof fn law_plain_text_is_one_word(a: Seq<char>)
    requires
        forall|i: int| 0 <= i < a.len() ==> !gap(#[trigger] a[i]) && !ideograph(a[i]),
    ensures
        a.len() > 0 ==> words(indexed(a)) == seq![a],
        a.len() == 0 ==> words(indexed(a)).len() == 0,
{
    lemma_plain(a);
    lemma_words_trim(spaced(a));
}

proof fn lemma_plain(a: Seq<char>)
    requires
        forall|i: int| 0 <= i < a.len() ==> !gap(#[trigger] a[i]) && !ideograph(a[i]),
    ensures
        spaced(a) == a,
        a.len() > 0 ==> words(a) == seq![a],
        a.len() == 0 ==> words(a).len() == 0,
    decreases a.len(),
{
    if a.len() == 0 {
        assert(spaced(a) =~= a);
    } else {
        let init = a.drop_last();
        assert forall|i: int| 0 <= i < init.len() implies !gap(#[trigger] init[i]) && !ideograph(
            init[i],
        ) by {
            assert(init[i] == a[i]);
        }
        lemma_plain(init);
        let c = a[a.len() - 1];
        assert(!gap(c) && !ideograph(c));
        assert(a =~= init.push(c));
        lemma_words_push(init, c);
        if init.len() > 0 {
            assert(!gap(a[a.len() - 2]));
            assert(init.last() == a[a.len() - 2]);
            assert(words(a) =~= seq![a]);
        } else {
            assert(words(init) =~= seq![]);
            assert(seq![c] =~= a);
            assert(words(a) =~= seq![a]);
        }
    }
}

/// The words of several texts that stand in one with blanks between them are the words of each.
proof fn lemma_joined_words(list: Seq<Seq<char>>, w: Seq<char>)
    ensures
        words(indexed(join(list, " "@))).contains(w) <==> exists|k: int|
            0 <= k < list.len() && #[trigger] words(indexed(list[k])).contains(w),
    decreases list.len(),
{
    reveal_strlit(" ");
    assert(" "@ =~= seq![' ']);
    if list.len() == 0 {
        law_plain_text_is_one_word(join(list, " "@));
    } else {
        let init = list.drop_last();
        let t = list.last();
        assert(list =~= init.push(t));
        lemma_join_push(init, t, " "@);
        lemma_joined_words(init, w);
        let a = words(indexed(join(init, " "@)));
        let b = words(indexed(t));
        let all = words(indexed(join(list, " "@)));
        if init.len() > 0 {
            law_gap_parts_words(join(init, " "@), ' ', t);
            assert(all == a + b);
            if a.contains(w) {
                let i = choose|i: int| 0 <= i < a.len() && a[i] == w;
                assert(all[i] == w);
            }
            if b.contains(w) {
                let i = choose|i: int| 0 <= i < b.len() && b[i] == w;
                assert(all[a.len() + i] == w);
            }
            if all.contains(w) {
                let i = choose|i: int| 0 <= i < all.len() && all[i] == w;
                if i < a.len() {
                    assert(a[i] == w);
                } else {
                    assert(b[i - a.len()] == w);
                }
            }
        }
        if exists|k: int| 0 <= k < init.len() && #[trigger] words(indexed(init[k])).contains(w) {
            let k = choose|k: int| 0 <= k < init.len() && #[trigger] words(indexed(init[k])).contains(w);
            assert(words(indexed(list[k])).contains(w));
        }
        if b.contains(w) {
            assert(words(indexed(list[list.len() - 1])).contains(w));
        }
        if exists|k: int| 0 <= k < list.len() && #[trigger] words(indexed(list[k])).contains(w) {
            let k = choose|k: int| 0 <= k < list.len() && #[trigger] words(indexed(list[k])).contains(w);
            if k < init.len() {
                assert(words(indexed(init[k])).contains(w));
            }
        }
    }
}

/// A file name is what follows the last slash or backslash of a path.
pub proof fn law_file_name_is_the_last_part(p: Seq<char>)
    ensures
        last_segment(p).len() <= p.len(),
        p.skip(p.len() - last_segment(p).len()) == last_segment(p),
        !last_segment(p).contains('\\') && !last_segment(p).contains('/'),
        last_segment(p).len() < p.len() ==> ({
            let c = p[p.len() - last_segment(p).len() - 1];
            c == '\\' || c == '/'
        }),
    decreases p.len(),
{
    if p.len() == 0 || p.last() == '\\' || p.last() == '/' {
        assert(last_segment(p) =~= seq![]);
        assert(p.skip(p.len() as int) =~= seq![]);
    } else {
        let init = p.drop_last();
        law_file_name_is_the_last_part(init);
        let s = last_segment(init);
        let n = p.len() - last_segment(p).len();
        assert(last_segment(p) == s.push(p.last()));
        assert(p.skip(n) =~= init.skip(init.len() - s.len()).push(p.last()));
        assert forall|i: int| 0 <= i < s.push(p.last()).len() implies s.push(p.last())[i] != '\\'
            && s.push(p.last())[i] != '/' by {
            if i < s.len() {
                assert(s.contains(s[i]));
            }
        }
    }
}

/// The index knows a record by the words of its content, by those of its paths and by those of the
/// names of its files, and by no others.
pub proof fn law_entry_holds_the_words_of_the_record(r: RowView, paths: Seq<Seq<char>>, w: Seq<char>)
    requires
        match r.file_paths {
            Some(j) => json_read(j) == Some(paths),
            None => paths.len() == 0,
        },
    ensures
        entry_of(r).rowid == r.id,
        words(entry_of(r).content).contains(w) <==> (r.content matches Some(c) && words(
            indexed(c),
        ).contains(w)),
        words(entry_of(r).file_paths).contains(w) <==> exists|k: int|
            0 <= k < paths.len() && #[trigger] words(indexed(paths[k])).contains(w),
        words(entry_of(r).file_name).contains(w) <==> exists|k: int|
            0 <= k < paths.len() && #[trigger] words(indexed(last_segment(paths[k]))).contains(w),
{
    let none = Seq::<char>::empty();
    law_plain_text_is_one_word(none);
    lemma_words_trim(spaced(none));
    lemma_indexed_again(r);
    assert(r.file_paths is None ==> paths =~= seq![]);
    lemma_joined_words(paths, w);
    let names = file_names(paths);
    lemma_joined_words(names, w);
    if exists|k: int| 0 <= k < names.len() && #[trigger] words(indexed(names[k])).contains(w) {
        let k = choose|k: int| 0 <= k < names.len() && #[trigger] words(indexed(names[k])).contains(w);
        assert(names[k] == last_segment(paths[k]));
        assert(words(indexed(last_segment(paths[k]))).contains(w));
    }
    if exists|k: int| 0 <= k < paths.len() && #[trigger] words(
        indexed(last_segment(paths[k])),
    ).contains(w) {
        let k = choose|k: int| 0 <= k < paths.len() && #[trigger] words(
            indexed(last_segment(paths[k])),
        ).contains(w);
        assert(names[k] == last_segment(paths[k]));
        assert(words(indexed(names[k])).contains(w));
    }
}

proof fn lemma_indexed_again(r: RowView)
    ensures
        r.content matches Some(c) ==> entry_of(r).content == indexed(c),
        r.content is None ==> words(entry_of(r).content).len() == 0,
{
    law_plain_text_is_one_word(Seq::<char>::empty());
}

/// Whether an entry of the index holds a word, in whichever of its texts.
pub open spec fn entry_holds(e: IndexView, w: Seq<char>) -> bool {
    words(e.content).contains(w) || words(e.file_paths).contains(w) || words(e.file_name).contains(w)
}

/// A search with words shows a record exactly where its entry holds all of them, given that the
/// index reports the entries that meet the expression.
pub proof fn law_search_shows_what_holds_every_word(
    d: DbView,
    query: Seq<char>,
    hits: Seq<i64>,
    q: Seq<RowView>,
    r: RowView,
)
    requires
        d.wf(),
        words(indexed(query)).len() > 0,
        forall|i: int|
            0 <= i < d.rows.len() ==> (hits.contains((#[trigger] d.rows[i]).id) <==> met(
                match_query(query),
                |w: Seq<char>| entry_holds(entry_of(d.rows[i]), w),
                true,
            )),
        is_listing(q, found(d.rows, hits), false),
    ensures
        q.contains(r) <==> d.rows.contains(r) && forall|w: Seq<char>| #[trigger]
            words(indexed(query)).contains(w) ==> entry_holds(entry_of(r), w),
{
    lemma_filter_ascending(d.rows, |x: RowView| hits.contains(x.id));
    law_list_is_complete(q, found(d.rows, hits), false, r);
    if d.rows.contains(r) {
        let i = choose|i: int| 0 <= i < d.rows.len() && d.rows[i] == r;
        let holds = |w: Seq<char>| entry_holds(entry_of(d.rows[i]), w);
        law_query_asks_for_every_word(query, holds);
        assert(hits.contains(d.rows[i].id) <==> met(match_query(query), holds, true));
        if met(match_query(query), holds, true) {
            assert forall|w: Seq<char>| #[trigger] words(indexed(query)).contains(w) implies entry_holds(
                entry_of(r),
                w,
            ) by {
                assert(holds(w));
            }
        }
        if forall|w: Seq<char>| #[trigger]
            words(indexed(query)).contains(w) ==> entry_holds(entry_of(r), w) {
            assert forall|w: Seq<char>| #[trigger] words(indexed(query)).contains(w) implies holds(
                w,
            ) by {}
        }
    }
}

} // verus!
