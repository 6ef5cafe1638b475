//! Text as sequences of characters: white space, trimming, words, joining and ordering.

use vstd::prelude::*;

verus! {

/// `String::push` of the standard library: the character is appended to the text.
pub assume_specification[ String::push ](s: &mut String, c: char)
    ensures
        final(s)@ == old(s)@.push(c),
;

/// The view of a list of strings: the list of their texts.
pub open spec fn texts(v: Seq<String>) -> Seq<Seq<char>> {
    v.map_values(|s: String| s@)
}

/// The view of an optional string.
pub open spec fn opt_text(o: Option<String>) -> Option<Seq<char>> {
    match o {
        Some(s) => Some(s@),
        None => None,
    }
}

/// Characters with the Unicode property `White_Space`.
pub open spec fn is_space(c: char) -> bool {
    ||| 0x9 <= c as u32 <= 0xD
    ||| c as u32 == 0x20
    ||| c as u32 == 0x85
    ||| c as u32 == 0xA0
    ||| c as u32 == 0x1680
    ||| 0x2000 <= c as u32 <= 0x200A
    ||| c as u32 == 0x2028
    ||| c as u32 == 0x2029
    ||| c as u32 == 0x202F
    ||| c as u32 == 0x205F
    ||| c as u32 == 0x3000
}

/// `s` without its leading white space.
pub open spec fn trim_start(s: Seq<char>) -> Seq<char>
    decreases s.len(),
{
    if s.len() > 0 && is_space(s[0]) {
        trim_start(s.drop_first())
    } else {
        s
    }
}

/// `s` without its trailing white space.
pub open spec fn trim_end(s: Seq<char>) -> Seq<char>
    decreases s.len(),
{
    if s.len() > 0 && is_space(s.last()) {
        trim_end(s.drop_last())
    } else {
        s
    }
}

/// `s` without white space at either end.
pub open spec fn trim(s: Seq<char>) -> Seq<char> {
    trim_end(trim_start(s))
}

/// How many characters of `s` come before its first white space.
pub open spec fn word_len(s: Seq<char>) -> nat
    decreases s.len(),
{
    if s.len() == 0 || is_space(s[0]) {
        0
    } else {
        1 + word_len(s.drop_first())
    }
}

/// The maximal runs of characters of `s` that hold no white space, in order.
pub open spec fn words(s: Seq<char>) -> Seq<Seq<char>>
    decreases s.len(),
{
    if s.len() == 0 {
        seq![]
    } else if is_space(s[0]) {
        words(s.drop_first())
    } else {
        proof {
            lemma_word_len(s);
        }
        seq![s.take(word_len(s) as int)] + words(s.skip(word_len(s) as int))
    }
}

pub proof fn lemma_word_len(s: Seq<char>)
    ensures
        word_len(s) <= s.len(),
        s.len() > 0 && !is_space(s[0]) ==> word_len(s) > 0,
        forall|i: int| 0 <= i < word_len(s) ==> !is_space(#[trigger] s[i]),
        word_len(s) < s.len() ==> is_space(s[word_len(s) as int]),
    decreases s.len(),
{
    if s.len() > 0 && !is_space(s[0]) {
        lemma_word_len(s.drop_first());
        assert forall|i: int| 0 <= i < word_len(s) implies !is_space(#[trigger] s[i]) by {
            if i > 0 {
                assert(s[i] == s.drop_first()[i - 1]);
            }
        }
    }
}

/// The texts of `list` one after the other, with `sep` between each two neighbours.
pub open spec fn join(list: Seq<Seq<char>>, sep: Seq<char>) -> Seq<char>
    decreases list.len(),
{
    if list.len() == 0 {
        seq![]
    } else if list.len() == 1 {
        list[0]
    } else {
        join(list.drop_last(), sep) + sep + list.last()
    }
}

/// Lexicographic order by code point.
pub open spec fn text_lt(a: Seq<char>, b: Seq<char>) -> bool
    decreases a.len(),
{
    if b.len() == 0 {
        false
    } else if a.len() == 0 {
        true
    } else if a[0] != b[0] {
        (a[0] as u32) < (b[0] as u32)
    } else {
        text_lt(a.drop_first(), b.drop_first())
    }
}

/// Whether `c` is white space.
pub fn is_white_space(c: char) -> (r: bool)
    ensures
        r == is_space(c),
{
    let u: u32 = c as u32;
    (0x9 <= u && u <= 0xD) || u == 0x20 || u == 0x85 || u == 0xA0 || u == 0x1680 || (0x2000 <= u
        && u <= 0x200A) || u == 0x2028 || u == 0x2029 || u == 0x202F || u == 0x205F || u == 0x3000
}

/// The characters of `s`.
pub fn chars_of(s: &str) -> (r: Vec<char>)
    ensures
        r@ == s@,
{
    let mut out: Vec<char> = Vec::new();
    for c in it: s.chars()
        invariant
            it.seq() == s@,
            out@ == s@.take(it.index() as int),
    {
        out.push(c);
    }
    out
}

/// The string made of the characters `cs`.
pub fn string_of(cs: &[char]) -> (r: String)
    ensures
        r@ == cs@,
{
    let mut out = String::new();
    for i in 0..cs.len()
        invariant
            out@ == cs@.take(i as int),
    {
        out.push(cs[i]);
    }
    assert(cs@.take(cs@.len() as int) =~= cs@);
    out
}

/// Whether two texts are the same.
pub fn same_chars(a: &[char], b: &[char]) -> (r: bool)
    ensures
        r == (a@ == b@),
{
    if a.len() != b.len() {
        return false;
    }
    for i in 0..a.len()
        invariant
            a@.len() == b@.len(),
            forall|j: int| 0 <= j < i ==> a@[j] == b@[j],
    {
        if a[i] != b[i] {
            return false;
        }
    }
    assert(a@ =~= b@);
    true
}

/// Whether two texts are the same.
pub fn same_text(a: &str, b: &str) -> (r: bool)
    ensures
        r == (a@ == b@),
{
    let x = chars_of(a);
    let y = chars_of(b);
    same_chars(&x, &y)
}

proof fn lemma_word_len_is(s: Seq<char>, k: int)
    requires
        0 <= k <= s.len(),
        forall|i: int| 0 <= i < k ==> !is_space(#[trigger] s[i]),
        k < s.len() ==> is_space(s[k]),
    ensures
        word_len(s) == k,
{
    lemma_word_len(s);
    if word_len(s) < k {
        assert(!is_space(s[word_len(s) as int]));
    }
    if k < word_len(s) {
        assert(!is_space(s[k]));
    }
}

/// How one more character changes the words of a text.
pub proof fn lemma_words_push(t: Seq<char>, c: char)
    ensures
        is_space(c) ==> words(t.push(c)) == words(t),
        !is_space(c) && (t.len() == 0 || is_space(t.last())) ==> words(t.push(c)) == words(t).push(
            seq![c],
        ),
        !is_space(c) && t.len() > 0 && !is_space(t.last()) ==> {
            &&& words(t).len() > 0
            &&& words(t.push(c)) == words(t).drop_last().push(words(t).last().push(c))
        },
    decreases t.len(),
{
    let u = t.push(c);
    assert(words(Seq::<char>::empty()) =~= seq![]);
    if t.len() == 0 {
        assert(u =~= seq![c]);
        assert(u.drop_first() =~= seq![]);
        if !is_space(c) {
            lemma_word_len_is(u, 1);
            assert(u.take(1) =~= seq![c]);
            assert(u.skip(1) =~= seq![]);
            assert(words(u) =~= seq![seq![c]]);
            assert(words(t).push(seq![c]) =~= seq![seq![c]]);
        }
    } else if is_space(t[0]) {
        assert(u.drop_first() =~= t.drop_first().push(c));
        lemma_words_push(t.drop_first(), c);
    } else {
        lemma_word_len(t);
        let n = word_len(t) as int;
        if n < t.len() {
            assert forall|i: int| 0 <= i < n implies !is_space(#[trigger] u[i]) by {
                assert(u[i] == t[i]);
            }
            lemma_word_len_is(u, n);
            assert(u.take(n) =~= t.take(n));
            assert(u.skip(n) =~= t.skip(n).push(c));
            lemma_words_push(t.skip(n), c);
            let w = words(t.skip(n));
            let first = seq![t.take(n)];
            assert(words(t) == first + w);
            assert((first + w).push(seq![c]) =~= first + w.push(seq![c]));
            if w.len() > 0 {
                assert((first + w).drop_last() =~= first + w.drop_last());
                assert((first + w).last() == w.last());
                assert((first + w.drop_last()).push(w.last().push(c)) =~= first
                    + w.drop_last().push(w.last().push(c)));
            }
        } else {
            assert(t.take(n) =~= t);
            assert(t.skip(n) =~= seq![]);
            assert(words(t) =~= seq![t]);
            if is_space(c) {
                assert forall|i: int| 0 <= i < n implies !is_space(#[trigger] u[i]) by {
                    assert(u[i] == t[i]);
                }
                lemma_word_len_is(u, n);
                assert(u.take(n) =~= t);
                assert(u.skip(n) =~= seq![c]);
                assert(seq![c].drop_first() =~= seq![]);
                assert(words(seq![c]) =~= seq![]);
                assert(words(u) =~= seq![t]);
            } else {
                assert forall|i: int| 0 <= i < n + 1 implies !is_space(#[trigger] u[i]) by {
                    if i < n {
                        assert(u[i] == t[i]);
                    }
                }
                lemma_word_len_is(u, n + 1);
                assert(u.take(n + 1) =~= u);
                assert(u.skip(n + 1) =~= seq![]);
                assert(words(u) =~= seq![u]);
                assert(words(t).drop_last().push(words(t).last().push(c)) =~= seq![u]);
            }
        }
    }
}

/// Trimming a text keeps its words.
pub proof fn lemma_words_trim(s: Seq<char>)
    ensures
        words(trim(s)) == words(s),
{
    lemma_words_trim_start(s);
    lemma_words_trim_end(trim_start(s));
}

proof fn lemma_words_trim_start(s: Seq<char>)
    ensures
        words(trim_start(s)) == words(s),
    decreases s.len(),
{
    if s.len() > 0 && is_space(s[0]) {
        lemma_words_trim_start(s.drop_first());
    }
}

proof fn lemma_words_trim_end(s: Seq<char>)
    ensures
        words(trim_end(s)) == words(s),
    decreases s.len(),
{
    if s.len() > 0 && is_space(s.last()) {
        lemma_words_trim_end(s.drop_last());
        lemma_words_push(s.drop_last(), s.last());
        assert(s.drop_last().push(s.last()) =~= s);
    }
}

/// The text `s` without white space at either end.
pub fn trim_text(s: &str) -> (r: String)
    ensures
        r@ == trim(s@),
{
    let cs = chars_of(s);
    let n: usize = cs.len();
    let mut i: usize = 0;
    assert(cs@.skip(0) =~= cs@);
    while i < n && is_white_space(cs[i])
        invariant
            n == cs@.len(),
            i <= n,
            trim_start(cs@) == trim_start(cs@.skip(i as int)),
        decreases n - i,
    {
        assert(cs@.skip(i as int).drop_first() =~= cs@.skip(i + 1));
        i = i + 1;
    }
    let ghost left = cs@.skip(i as int);
    assert(trim_start(cs@) == left);
    let mut j: usize = n;
    assert(cs@.subrange(i as int, n as int) =~= left);
    while j > i && is_white_space(cs[j - 1])
        invariant
            n == cs@.len(),
            i <= j <= n,
            trim_end(left) == trim_end(cs@.subrange(i as int, j as int)),
        decreases j,
    {
        assert(cs@.subrange(i as int, j as int).drop_last() =~= cs@.subrange(i as int, j - 1));
        j = j - 1;
    }
    let mut out = String::new();
    let mut k: usize = i;
    while k < j
        invariant
            n == cs@.len(),
            i <= k <= j <= n,
            out@ == cs@.subrange(i as int, k as int),
        decreases j - k,
    {
        out.push(cs[k]);
        k = k + 1;
    }
    out
}

/// The words of `cs`.
pub fn split_words(cs: &[char]) -> (r: Vec<Vec<char>>)
    ensures
        r@.map_values(|w: Vec<char>| w@) == words(cs@),
{
    let n: usize = cs.len();
    let mut out: Vec<Vec<char>> = Vec::new();
    let mut i: usize = 0;
    let ghost f = |w: Vec<char>| w@;
    assert(cs@.skip(0) =~= cs@);
    assert(out@.map_values(f) + words(cs@) =~= words(cs@));
    while i < n
        invariant
            n == cs@.len(),
            i <= n,
            f == (|w: Vec<char>| w@),
            out@.map_values(f) + words(cs@.skip(i as int)) == words(cs@),
        decreases n - i,
    {
        let ghost rest = cs@.skip(i as int);
        if is_white_space(cs[i]) {
            assert(rest.drop_first() =~= cs@.skip(i + 1));
            i = i + 1;
        } else {
            let start: usize = i;
            let mut word: Vec<char> = Vec::new();
            while i < n && !is_white_space(cs[i])
                invariant
                    n == cs@.len(),
                    start <= i <= n,
                    rest == cs@.skip(start as int),
                    word@ == rest.take(i - start),
                    word_len(rest) == (i - start) + word_len(cs@.skip(i as int)),
                decreases n - i,
            {
                assert(cs@.skip(i as int).drop_first() =~= cs@.skip(i + 1));
                assert(rest.take(i - start).push(cs@[i as int]) =~= rest.take(i + 1 - start));
                word.push(cs[i]);
                i = i + 1;
            }
            proof {
                assert(word_len(cs@.skip(i as int)) == 0);
                assert(word@ == rest.take(word_len(rest) as int));
                assert(rest.skip(word_len(rest) as int) =~= cs@.skip(i as int));
                assert(words(rest) == seq![word@] + words(cs@.skip(i as int)));
            }
            let ghost before = out@;
            out.push(word);
            proof {
                assert(out@.map_values(f) =~= before.map_values(f).push(word@));
                assert(out@.map_values(f) + words(cs@.skip(i as int)) =~= before.map_values(f)
                    + words(rest));
            }
        }
    }
    assert(cs@.skip(n as int) =~= Seq::<char>::empty());
    assert(out@.map_values(f) + words(cs@.skip(n as int)) =~= out@.map_values(f));
    out
}

pub proof fn lemma_join_push(list: Seq<Seq<char>>, t: Seq<char>, sep: Seq<char>)
    ensures
        list.len() == 0 ==> join(list.push(t), sep) == t,
        list.len() > 0 ==> join(list.push(t), sep) == join(list, sep) + sep + t,
{
    assert(list.push(t).drop_last() =~= list);
}

/// The strings of `list` joined by `sep`.
pub fn join_strings(list: &[String], sep: &str) -> (r: String)
    ensures
        r@ == join(texts(list@), sep@),
{
    let mut out = String::new();
    for i in 0..list.len()
        invariant
            out@ == join(texts(list@.take(i as int)), sep@),
    {
        proof {
            let t = texts(list@.take(i as int));
            lemma_join_push(t, list@[i as int]@, sep@);
            assert(texts(list@.take(i + 1)) =~= t.push(list@[i as int]@));
        }
        if i > 0 {
            push_text(&mut out, sep);
        }
        push_text(&mut out, &list[i]);
    }
    assert(list@.take(list@.len() as int) =~= list@);
    out
}

/// Appends `t` to `s`.
pub fn push_text(s: &mut String, t: &str)
    ensures
        final(s)@ == old(s)@ + t@,
{
    let cs = chars_of(t);
    push_chars(s, &cs);
}

/// Appends the characters `cs` to `s`.
pub fn push_chars(s: &mut String, cs: &[char])
    ensures
        final(s)@ == old(s)@ + cs@,
{
    for i in 0..cs.len()
        invariant
            s@ == old(s)@ + cs@.take(i as int),
    {
        s.push(cs[i]);
        assert(s@ =~= old(s)@ + cs@.take(i + 1));
    }
    assert(cs@.take(cs@.len() as int) =~= cs@);
}

/// Whether `list` holds `t`.
pub fn has_text(list: &[String], t: &str) -> (r: bool)
    ensures
        r == texts(list@).contains(t@),
{
    for i in 0..list.len()
        invariant
            forall|k: int| 0 <= k < i ==> (#[trigger] list@[k])@ != t@,
    {
        if same_text(&list[i], t) {
            assert(texts(list@)[i as int] == t@);
            return true;
        }
    }
    proof {
        if texts(list@).contains(t@) {
            let k = choose|k: int| 0 <= k < list@.len() && texts(list@)[k] == t@;
            assert(list@[k]@ == t@);
        }
    }
    false
}

/// No text comes before itself.
pub proof fn lemma_text_lt_irreflexive(a: Seq<char>)
    ensures
        !text_lt(a, a),
    decreases a.len(),
{
    if a.len() > 0 {
        lemma_text_lt_irreflexive(a.drop_first());
    }
}

/// Of two different texts one comes before the other.
pub proof fn lemma_text_lt_total(a: Seq<char>, b: Seq<char>)
    ensures
        text_lt(a, b) || text_lt(b, a) || a == b,
    decreases a.len(),
{
    if a.len() == 0 || b.len() == 0 {
        assert(a.len() == 0 && b.len() == 0 ==> a =~= b);
    } else if a[0] == b[0] {
        lemma_text_lt_total(a.drop_first(), b.drop_first());
        if a.drop_first() == b.drop_first() {
            assert(seq![a[0]] + a.drop_first() =~= a);
            assert(seq![b[0]] + b.drop_first() =~= b);
        }
    } else {
        lemma_code_points(a[0], b[0]);
    }
}

proof fn lemma_code_points(a: char, b: char)
    ensures
        a != b ==> (a as u32) < (b as u32) || (b as u32) < (a as u32),
{
}

/// What comes before a text comes before all that the text comes before.
pub proof fn lemma_text_lt_transitive(a: Seq<char>, b: Seq<char>, c: Seq<char>)
    requires
        text_lt(a, b),
        text_lt(b, c),
    ensures
        text_lt(a, c),
    decreases a.len(),
{
    if a.len() > 0 {
        if a[0] == b[0] && b[0] == c[0] {
            lemma_text_lt_transitive(a.drop_first(), b.drop_first(), c.drop_first());
        } else {
            lemma_code_points(a[0], c[0]);
        }
    }
}

/// Whether `a` comes before `b` in lexicographic order by code point.
pub fn text_before(a: &str, b: &str) -> (r: bool)
    ensures
        r == text_lt(a@, b@),
{
    let x = chars_of(a);
    let y = chars_of(b);
    let mut i: usize = 0;
    assert(x@.skip(0) =~= x@);
    assert(y@.skip(0) =~= y@);
    while i < x.len() && i < y.len()
        invariant
            x@ == a@,
            y@ == b@,
            i <= x@.len(),
            i <= y@.len(),
            text_lt(x@, y@) == text_lt(x@.skip(i as int), y@.skip(i as int)),
        decreases x@.len() - i,
    {
        if x[i] != y[i] {
            return (x[i] as u32) < (y[i] as u32);
        }
        assert(x@.skip(i as int).drop_first() =~= x@.skip(i + 1));
        assert(y@.skip(i as int).drop_first() =~= y@.skip(i + 1));
        i = i + 1;
    }
    x.len() < y.len()
}

} // verus!
