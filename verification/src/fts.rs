//! Preparing texts and queries for the full-text index.
//!
//! The tokenizer of the index keeps a run of Han characters as one token. Each of them is
//! therefore set apart by blanks, in what is indexed and in what is searched, so that any part of
//! a Chinese text is found.

use crate::models::ClipboardItem;
use crate::search_laws::{law_query_asks_for_every_word, met};
use crate::text::{
    chars_of, is_space, join, join_strings, lemma_words_push, lemma_words_trim, split_words, texts,
    trim, trim_text, words,
};
use vstd::prelude::*;

verus! {

/// Han characters: the unified ideographs with their extensions, and the compatibility forms.
pub open spec fn cjk(c: char) -> bool {
    ||| 0x3400 <= c as u32 <= 0x4DBF
    ||| 0x4E00 <= c as u32 <= 0x9FFF
    ||| 0xF900 <= c as u32 <= 0xFAFF
    ||| 0x20000 <= c as u32 <= 0x2EBEF
}

/// Whether `c` is a Han character.
pub fn is_cjk(c: char) -> (r: bool)
    ensures
        r == cjk(c),
{
    let u: u32 = c as u32;
    (0x3400 <= u && u <= 0x4DBF) || (0x4E00 <= u && u <= 0x9FFF) || (0xF900 <= u && u <= 0xFAFF)
        || (0x20000 <= u && u <= 0x2EBEF)
}

/// `s` with a blank after each Han character, and one before it unless a blank or nothing is there.
pub open spec fn spaced(s: Seq<char>) -> Seq<char>
    decreases s.len(),
{
    if s.len() == 0 {
        seq![]
    } else {
        let done = spaced(s.drop_last());
        let c = s.last();
        if !cjk(c) {
            done.push(c)
        } else if done.len() > 0 && done.last() != ' ' {
            done.push(' ').push(c).push(' ')
        } else {
            done.push(c).push(' ')
        }
    }
}

/// What the index holds of the text `s`.
pub open spec fn indexed(s: Seq<char>) -> Seq<char> {
    trim(spaced(s))
}

/// The text `s` as the index holds it: every Han character set apart by blanks, trimmed.
pub fn fts_text(s: &str) -> (r: String)
    ensures
        r@ == indexed(s@),
{
    let cs = chars_of(s);
    let mut out = String::new();
    let mut ends_blank: bool = false;
    let mut empty: bool = true;
    for i in 0..cs.len()
        invariant
            out@ == spaced(cs@.take(i as int)),
            empty == (out@.len() == 0),
            ends_blank == (out@.len() > 0 && out@.last() == ' '),
    {
        let c: char = cs[i];
        assert(cs@.take(i + 1).drop_last() =~= cs@.take(i as int));
        if is_cjk(c) {
            if !empty && !ends_blank {
                out.push(' ');
            }
            out.push(c);
            out.push(' ');
            ends_blank = true;
        } else {
            out.push(c);
            ends_blank = c == ' ';
        }
        empty = false;
    }
    assert(cs@.take(cs@.len() as int) =~= cs@);
    trim_text(&out)
}

/// `t` with every double quote doubled.
pub open spec fn double_quotes(t: Seq<char>) -> Seq<char>
    decreases t.len(),
{
    if t.len() == 0 {
        seq![]
    } else if t.last() == '"' {
        double_quotes(t.drop_last()).push('"').push('"')
    } else {
        double_quotes(t.drop_last()).push(t.last())
    }
}

/// `t` as a string of the query language.
pub open spec fn quoted(t: Seq<char>) -> Seq<char> {
    seq!['"'] + double_quotes(t) + seq!['"']
}

/// The query that asks for every word of `q`, each as the index holds it.
pub open spec fn match_query(q: Seq<char>) -> Seq<char> {
    join(words(indexed(q)).map_values(|t: Seq<char>| quoted(t)), " AND "@)
}

fn quote_token(t: &[char]) -> (r: String)
    ensures
        r@ == quoted(t@),
{
    let mut out = String::new();
    out.push('"');
    for i in 0..t.len()
        invariant
            out@ == seq!['"'] + double_quotes(t@.take(i as int)),
    {
        assert(t@.take(i + 1).drop_last() =~= t@.take(i as int));
        if t[i] == '"' {
            out.push('"');
            out.push('"');
        } else {
            out.push(t[i]);
        }
        assert(out@ =~= seq!['"'] + double_quotes(t@.take(i + 1)));
    }
    assert(t@.take(t@.len() as int) =~= t@);
    out.push('"');
    assert(out@ =~= quoted(t@));
    out
}

/// The query for the index: all words of `q` must occur. Empty when `q` holds no word.
pub fn build_fts_query(q: &str) -> (r: String)
    ensures
        r@ == match_query(q@),
        r@.len() == 0 <==> words(indexed(q@)).len() == 0,
        forall|holds: spec_fn(Seq<char>) -> bool|
            words(indexed(q@)).len() > 0 ==> (#[trigger] met(r@, holds, true) <==> forall|w: Seq<char>|
             #[trigger]
                words(indexed(q@)).contains(w) ==> holds(w)),
{
    let processed = fts_text(q);
    let cs = chars_of(&processed);
    let tokens = split_words(&cs);
    let ghost f = |w: Vec<char>| w@;
    let ghost g = |t: Seq<char>| quoted(t);
    let mut parts: Vec<String> = Vec::new();
    for i in 0..tokens.len()
        invariant
            f == (|w: Vec<char>| w@),
            g == (|t: Seq<char>| quoted(t)),
            texts(parts@) == tokens@.take(i as int).map_values(f).map_values(g),
    {
        let ghost before = parts@;
        parts.push(quote_token(&tokens[i]));
        proof {
            assert(texts(parts@) =~= texts(before).push(quoted(tokens@[i as int]@)));
            assert(tokens@.take(i + 1).map_values(f).map_values(g) =~= tokens@.take(
                i as int,
            ).map_values(f).map_values(g).push(quoted(tokens@[i as int]@)));
        }
    }
    assert(tokens@.take(tokens@.len() as int) =~= tokens@);
    let r = join_strings(&parts, " AND ");
    proof {
        let list = texts(parts@);
        assert(list.len() == words(indexed(q@)).len());
        if list.len() > 0 {
            lemma_join_ge_last(list, " AND "@);
            assert(list.last() == quoted(tokens@.last()@));
        }
        assert forall|holds: spec_fn(Seq<char>) -> bool|
            words(indexed(q@)).len() > 0 implies (#[trigger] met(r@, holds, true) <==> forall|
            w: Seq<char>,
        | #[trigger]
            words(indexed(q@)).contains(w) ==> holds(w)) by {
            law_query_asks_for_every_word(q@, holds);
        }
    }
    r
}

proof fn lemma_join_ge_last(list: Seq<Seq<char>>, sep: Seq<char>)
    requires
        list.len() > 0,
    ensures
        join(list, sep).len() >= list.last().len(),
{
}

/// What follows the last separator of `p`: its file name.
pub open spec fn last_segment(p: Seq<char>) -> Seq<char>
    decreases p.len(),
{
    if p.len() == 0 || p.last() == '\\' || p.last() == '/' {
        seq![]
    } else {
        last_segment(p.drop_last()).push(p.last())
    }
}

fn file_segment(p: &str) -> (r: String)
    ensures
        r@ == last_segment(p@),
{
    let cs = chars_of(p);
    let mut out = String::new();
    for i in 0..cs.len()
        invariant
            out@ == last_segment(cs@.take(i as int)),
    {
        assert(cs@.take(i + 1).drop_last() =~= cs@.take(i as int));
        if cs[i] == '\\' || cs[i] == '/' {
            out = String::new();
        } else {
            out.push(cs[i]);
        }
    }
    assert(cs@.take(cs@.len() as int) =~= cs@);
    out
}

/// The file names of `paths`.
pub open spec fn file_names(paths: Seq<Seq<char>>) -> Seq<Seq<char>> {
    paths.map_values(|p: Seq<char>| last_segment(p))
}

/// All paths in one text, and all their file names in another.
pub fn path_texts(paths: &[String]) -> (r: (String, String))
    ensures
        r.0@ == join(texts(paths@), " "@),
        r.1@ == join(file_names(texts(paths@)), " "@),
{
    let all = join_strings(paths, " ");
    let mut names: Vec<String> = Vec::new();
    for i in 0..paths.len()
        invariant
            texts(names@) == file_names(texts(paths@.take(i as int))),
    {
        let ghost before = names@;
        names.push(file_segment(&paths[i]));
        assert(texts(names@) =~= texts(before).push(last_segment(paths@[i as int]@)));
        assert(file_names(texts(paths@.take(i + 1))) =~= file_names(
            texts(paths@.take(i as int)),
        ).push(last_segment(paths@[i as int]@)));
    }
    assert(paths@.take(paths@.len() as int) =~= paths@);
    (all, join_strings(&names, " "))
}

/// The paths of an item, none where it has no list.
pub open spec fn paths_or_none(p: Option<Seq<Seq<char>>>) -> Seq<Seq<char>> {
    match p {
        Some(v) => v,
        None => seq![],
    }
}

/// The path text and the file names under which `item` is indexed.
pub fn fts_paths(item: &ClipboardItem) -> (r: (String, String))
    ensures
        r.0@ == join(paths_or_none(item@.file_paths), " "@),
        r.1@ == join(file_names(paths_or_none(item@.file_paths)), " "@),
{
    match &item.file_paths {
        Some(v) => path_texts(v),
        None => {
            let empty: Vec<String> = Vec::new();
            assert(texts(empty@) =~= seq![]);
            path_texts(&empty)
        },
    }
}

/// Every Han character of `s` is a word of its own in what the index holds of `s`, and stays one
/// whatever follows.
proof fn lemma_han_words(s: Seq<char>, i: int)
    requires
        0 <= i < s.len(),
        cjk(s[i]),
    ensures
        exists|k: int|
            0 <= k < words(spaced(s)).len() && #[trigger] words(spaced(s))[k] == seq![s[i]] && (k
                < words(spaced(s)).len() - 1 || is_space(spaced(s).last())),
        spaced(s).len() > 0,
    decreases s.len(),
{
    let done = spaced(s.drop_last());
    let c = s.last();
    let w = words(done);
    if !cjk(c) {
        lemma_han_words(s.drop_last(), i);
        let k = choose|k: int|
            0 <= k < w.len() && #[trigger] w[k] == seq![s[i]] && (k < w.len() - 1 || is_space(
                done.last(),
            ));
        lemma_words_push(done, c);
        assert(words(spaced(s))[k] == seq![s[i]]);
    } else {
        assert(is_space(' '));
        assert(!is_space(c));
        let mid = if done.len() > 0 && done.last() != ' ' {
            done.push(' ')
        } else {
            done
        };
        lemma_words_push(done, ' ');
        lemma_words_push(mid, c);
        lemma_words_push(mid.push(c), ' ');
        assert(words(spaced(s)) == w.push(seq![c]));
        if i == s.len() - 1 {
            assert(words(spaced(s))[w.len() as int] == seq![s[i]]);
        } else {
            lemma_han_words(s.drop_last(), i);
            let k = choose|k: int| 0 <= k < w.len() && #[trigger] w[k] == seq![s[i]];
            assert(words(spaced(s))[k] == seq![s[i]]);
        }
    }
}

/// Every Han character of a text is a word of its own in what the index holds of the text.
pub proof fn law_han_character_is_indexed(s: Seq<char>, i: int)
    requires
        0 <= i < s.len(),
        cjk(s[i]),
    ensures
        words(indexed(s)).contains(seq![s[i]]),
{
    lemma_han_words(s, i);
    lemma_words_trim(spaced(s));
}

/// The words that a query made of Han characters asks for are those characters, one by one.
pub proof fn law_han_query_words(q: Seq<char>)
    requires
        forall|i: int| 0 <= i < q.len() ==> cjk(#[trigger] q[i]),
    ensures
        words(indexed(q)) == q.map_values(|c: char| seq![c]),
{
    lemma_han_query(q);
    lemma_words_trim(spaced(q));
}

proof fn lemma_han_query(q: Seq<char>)
    requires
        forall|i: int| 0 <= i < q.len() ==> cjk(#[trigger] q[i]),
    ensures
        words(spaced(q)) == q.map_values(|c: char| seq![c]),
        q.len() > 0 ==> spaced(q).len() > 0 && spaced(q).last() == ' ',
    decreases q.len(),
{
    let f = |c: char| seq![c];
    if q.len() == 0 {
        assert(q.map_values(f) =~= seq![]);
    } else {
        let p = q.drop_last();
        assert forall|i: int| 0 <= i < p.len() implies cjk(#[trigger] p[i]) by {
            assert(p[i] == q[i]);
        }
        lemma_han_query(p);
        let c = q.last();
        assert(cjk(q[q.len() - 1]));
        assert(is_space(' ') && !is_space(c));
        lemma_words_push(spaced(p), c);
        lemma_words_push(spaced(p).push(c), ' ');
        assert(q.map_values(f) =~= p.map_values(f).push(seq![c]));
    }
}

/// A query made of Han characters that stand next to each other in a text finds the text: each
/// word it asks for is a word of what the index holds of the text.
pub proof fn law_han_substring_is_found(s: Seq<char>, from: int, to: int)
    requires
        0 <= from <= to <= s.len(),
        forall|i: int| from <= i < to ==> cjk(#[trigger] s[i]),
    ensures
        forall|w: Seq<char>| #[trigger]
            words(indexed(s.subrange(from, to))).contains(w) ==> words(indexed(s)).contains(w),
{
    let q = s.subrange(from, to);
    assert forall|i: int| 0 <= i < q.len() implies cjk(#[trigger] q[i]) by {
        assert(q[i] == s[from + i]);
    }
    law_han_query_words(q);
    assert forall|w: Seq<char>| #[trigger]
        words(indexed(q)).contains(w) implies words(indexed(s)).contains(w) by {
        let k = choose|k: int| 0 <= k < words(indexed(q)).len() && words(indexed(q))[k] == w;
        assert(w == seq![s[from + k]]);
        law_han_character_is_indexed(s, from + k);
    }
}

/// `t` with each pair of double quotes made one.
pub open spec fn single_quotes(t: Seq<char>) -> Seq<char>
    decreases t.len(),
{
    if t.len() < 2 {
        t
    } else if t.last() == '"' && t[t.len() - 2] == '"' {
        single_quotes(t.take(t.len() - 2)).push('"')
    } else {
        single_quotes(t.drop_last()).push(t.last())
    }
}

/// No word is changed by being quoted: doubling its quotes can be undone.
pub proof fn law_quoting_keeps_the_word(t: Seq<char>)
    ensures
        single_quotes(double_quotes(t)) == t,
    decreases t.len(),
{
    if t.len() > 0 {
        let p = double_quotes(t.drop_last());
        law_quoting_keeps_the_word(t.drop_last());
        if t.last() == '"' {
            assert(double_quotes(t).take(double_quotes(t).len() - 2) =~= p);
        } else {
            assert(double_quotes(t).drop_last() =~= p);
            if p.len() == 0 {
                assert(t.drop_last().len() == 0);
            }
        }
        assert(t.drop_last().push(t.last()) =~= t);
    }
}

} // verus!
