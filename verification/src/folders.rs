//! Files of one folder are known as such, whatever their names and the case of the folder's.

use crate::outside::{ascii, ascii_lower, ascii_lower_char};
use crate::winpath::{
    after_part, ascii_folder_key, body_start, components, drive_letter, first_part, is_sep,
    is_verbatim, joined, last_part, leading_dot, lemma_part_len_is, lemma_prefix_len, lemma_stem,
    lemma_tidied_end, lemma_without_last_part, no_trailing_sep, parent, part_component, part_len,
    prefix_len, prefix_of, single_name, splits, starts_here, stem, tidied, trimmed,
    without_last_part, written_root, ComponentView,
};
use vstd::prelude::*;

verus! {

/// One character is the other, or the same ASCII letter in the other case.
pub open spec fn same_letter(c: char, d: char) -> bool {
    ||| c == d
    ||| 'A' <= c && c <= 'Z' && d as u32 == c as u32 + 32
    ||| 'A' <= d && d <= 'Z' && c as u32 == d as u32 + 32
}

/// The texts differ in the case of ASCII letters at most.
pub open spec fn same_but_case(s: Seq<char>, t: Seq<char>) -> bool {
    &&& s.len() == t.len()
    &&& forall|i: int| 0 <= i < s.len() ==> same_letter(#[trigger] s[i], t[i])
}

/// Whether a path begins with the mark of a verbatim network path, which is written in capitals.
pub open spec fn network_mark(p: Seq<char>) -> bool {
    &&& p.len() >= 8
    &&& p[4] == 'U' && p[5] == 'N' && p[6] == 'C'
    &&& p[0] == '\\' && p[1] == '\\' && p[2] == '?' && p[3] == '\\' && is_sep(p[7])
}

/// Whether a path begins with that mark, but not in capitals, so that it is not taken for it.
spec fn small_mark(p: Seq<char>) -> bool {
    &&& p.len() >= 8
    &&& p[0] == '\\' && p[1] == '\\' && p[2] == '?' && p[3] == '\\' && is_sep(p[7])
    &&& same_letter('U', p[4]) && same_letter('N', p[5]) && same_letter('C', p[6])
    &&& !network_mark(p)
}

/// Whether `p` is more than a prefix: it names something that the prefix does not.
pub open spec fn names_file(p: Seq<char>) -> bool {
    prefix_len(p) < p.len()
}

/// The views of two folders agree up to case, where there are any.
spec fn same_folder(x: Option<Seq<char>>, y: Option<Seq<char>>) -> bool {
    match (x, y) {
        (Some(a), Some(b)) => same_but_case(a, b),
        (None, None) => true,
        _ => false,
    }
}

proof fn lemma_letter(c: char, d: char, v: bool)
    requires
        same_letter(c, d),
    ensures
        is_sep(c) == is_sep(d),
        splits(c, v) == splits(d, v),
        c == '.' <==> d == '.',
        c == ':' <==> d == ':',
        c == '?' <==> d == '?',
        c == '\\' <==> d == '\\',
        drive_letter(c) == drive_letter(d),
        ascii_lower_char(c) == ascii_lower_char(d),
        c <= '\u{7F}' ==> d <= '\u{7F}',
{
}

proof fn lemma_case_skip(s: Seq<char>, t: Seq<char>, k: int)
    requires
        same_but_case(s, t),
        0 <= k <= s.len(),
    ensures
        same_but_case(s.skip(k), t.skip(k)),
        same_but_case(s.take(k), t.take(k)),
{
    assert forall|i: int| 0 <= i < s.skip(k).len() implies same_letter(
        #[trigger] s.skip(k)[i],
        t.skip(k)[i],
    ) by {
        assert(same_letter(s[k + i], t[k + i]));
    }
    assert forall|i: int| 0 <= i < s.take(k).len() implies same_letter(
        #[trigger] s.take(k)[i],
        t.take(k)[i],
    ) by {
        assert(same_letter(s[i], t[i]));
    }
}

proof fn lemma_case_part_len(s: Seq<char>, t: Seq<char>, v: bool)
    requires
        same_but_case(s, t),
    ensures
        part_len(s, v) == part_len(t, v),
        part_len(s, v) <= s.len(),
    decreases s.len(),
{
    if s.len() > 0 {
        assert(same_letter(s[0], t[0]));
        lemma_letter(s[0], t[0], v);
        lemma_case_skip(s, t, 1);
        assert(s.skip(1) =~= s.drop_first());
        assert(t.skip(1) =~= t.drop_first());
        lemma_case_part_len(s.drop_first(), t.drop_first(), v);
    }
}

/// The parts after the first one agree up to case.
proof fn lemma_case_after(s: Seq<char>, t: Seq<char>, v: bool)
    requires
        same_but_case(s, t),
    ensures
        same_but_case(after_part(s, v), after_part(t, v)),
        first_part(s, v).len() == first_part(t, v).len(),
        first_part(after_part(s, v), v).len() == first_part(after_part(t, v), v).len(),
{
    lemma_case_part_len(s, t, v);
    let k = part_len(s, v) as int;
    if k < s.len() {
        lemma_case_skip(s, t, k + 1);
    }
    lemma_case_part_len(after_part(s, v), after_part(t, v), v);
}

/// Prefixes of paths that agree up to case are of one kind and length.
proof fn lemma_case_prefix(s: Seq<char>, t: Seq<char>)
    requires
        same_but_case(s, t),
        network_mark(s) == network_mark(t),
    ensures
        prefix_of(s) is Some == prefix_of(t) is Some,
        prefix_len(s) == prefix_len(t),
        0 <= prefix_len(s) <= s.len(),
        is_verbatim(s) == is_verbatim(t),
        prefix_of(s) matches Some(x) ==> (x.0 is Disk == (prefix_of(t)->0).0 is Disk),
{
    assert forall|i: int| 0 <= i < s.len() implies is_sep(#[trigger] s[i]) == is_sep(t[i]) && (s[i]
        == '\\' <==> t[i] == '\\') && (s[i] == '.' <==> t[i] == '.') && (s[i] == '?' <==> t[i]
        == '?') && (s[i] == ':' <==> t[i] == ':') && drive_letter(s[i])
        == drive_letter(t[i]) by {
        assert(same_letter(s[i], t[i]));
        lemma_letter(s[i], t[i], true);
    }
    if s.len() >= 2 {
        lemma_case_skip(s, t, 2);
        lemma_case_after(s.skip(2), t.skip(2), false);
        lemma_case_part_len(s.skip(2), t.skip(2), false);
        lemma_case_part_len(after_part(s.skip(2), false), after_part(t.skip(2), false), false);
    }
    if s.len() >= 4 {
        lemma_case_skip(s, t, 4);
        lemma_case_part_len(s.skip(4), t.skip(4), true);
        lemma_case_part_len(s.skip(4), t.skip(4), false);
        assert forall|i: int| 0 <= i < s.skip(4).len() implies #[trigger] s.skip(4)[i] == s[i
            + 4] by {}
        assert forall|i: int| 0 <= i < t.skip(4).len() implies #[trigger] t.skip(4)[i] == t[i
            + 4] by {}
    }
    if s.len() >= 8 {
        lemma_case_skip(s, t, 8);
        lemma_case_after(s.skip(8), t.skip(8), true);
        lemma_case_part_len(s.skip(8), t.skip(8), true);
        lemma_case_part_len(after_part(s.skip(8), true), after_part(t.skip(8), true), true);
    }
}

proof fn lemma_case_last(s: Seq<char>, t: Seq<char>, v: bool)
    requires
        same_but_case(s, t),
    ensures
        same_but_case(last_part(s, v), last_part(t, v)),
        same_but_case(without_last_part(s, v), without_last_part(t, v)),
    decreases s.len(),
{
    if s.len() > 0 {
        let k = s.len() - 1;
        assert(same_letter(s[k], t[k]));
        lemma_letter(s[k], t[k], v);
        lemma_case_skip(s, t, k);
        assert(s.take(k) =~= s.drop_last());
        assert(t.take(k) =~= t.drop_last());
        lemma_case_last(s.drop_last(), t.drop_last(), v);
        if !splits(s.last(), v) {
            let a = last_part(s.drop_last(), v);
            let b = last_part(t.drop_last(), v);
            assert forall|i: int| 0 <= i < a.push(s.last()).len() implies same_letter(
                #[trigger] a.push(s.last())[i],
                b.push(t.last())[i],
            ) by {
                if i < a.len() {
                    assert(same_letter(a[i], b[i]));
                }
            }
        }
    }
}

proof fn lemma_case_trimmed(s: Seq<char>, t: Seq<char>, v: bool)
    requires
        same_but_case(s, t),
    ensures
        same_but_case(trimmed(s, v), trimmed(t, v)),
    decreases s.len(),
{
    lemma_case_last(s, t, v);
    let a = last_part(s, v);
    let b = last_part(t, v);
    assert((part_component(a, v).len() > 0) == (part_component(b, v).len() > 0)) by {
        if a.len() == 1 {
            assert(same_letter(a[0], b[0]));
            lemma_letter(a[0], b[0], v);
            assert(a =~= seq![a[0]]);
            assert(b =~= seq![b[0]]);
            assert(a == seq!['.'] <==> a[0] == '.') by {
                if a == seq!['.'] {
                    assert(a[0] == seq!['.'][0]);
                }
            }
            assert(b == seq!['.'] <==> b[0] == '.') by {
                if b == seq!['.'] {
                    assert(b[0] == seq!['.'][0]);
                }
            }
        }
    }
    if s.len() > 0 && part_component(a, v).len() == 0 {
        lemma_without_last_part(s, v);
        lemma_case_trimmed(without_last_part(s, v), without_last_part(t, v), v);
    }
}

proof fn lemma_case_append(s: Seq<char>, t: Seq<char>, a: Seq<char>, b: Seq<char>)
    requires
        same_but_case(s, t),
        same_but_case(a, b),
    ensures
        same_but_case(s + a, t + b),
{
    assert forall|i: int| 0 <= i < (s + a).len() implies same_letter(
        #[trigger] (s + a)[i],
        (t + b)[i],
    ) by {
        if i < s.len() {
            assert(same_letter(s[i], t[i]));
        } else {
            assert(same_letter(a[i - s.len()], b[i - s.len()]));
        }
    }
}

/// The folders of paths that agree up to case agree up to case.
proof fn lemma_case_parent(s: Seq<char>, t: Seq<char>)
    requires
        same_but_case(s, t),
        network_mark(s) == network_mark(t),
    ensures
        same_folder(parent(s), parent(t)),
{
    lemma_case_prefix(s, t);
    let n = prefix_len(s);
    if n < s.len() {
        assert(same_letter(s[n], t[n]));
        lemma_letter(s[n], t[n], true);
    }
    if n + 1 < s.len() {
        assert(same_letter(s[n + 1], t[n + 1]));
        lemma_letter(s[n + 1], t[n + 1], true);
    }
    let v = is_verbatim(s);
    let start = body_start(s);
    assert(start == body_start(t));
    lemma_case_skip(s, t, start);
    lemma_case_trimmed(s.skip(start), t.skip(start), v);
    let x = trimmed(s.skip(start), v);
    let y = trimmed(t.skip(start), v);
    if x.len() > 0 {
        lemma_case_last(x, y, v);
        lemma_case_trimmed(without_last_part(x, v), without_last_part(y, v), v);
        lemma_case_append(
            s.take(start),
            t.take(start),
            trimmed(without_last_part(x, v), v),
            trimmed(without_last_part(y, v), v),
        );
    } else if starts_here(s) {
        lemma_case_skip(s, t, n);
    }
}

/// A folder to which a name can be put: nothing, one that ends in a separator, or a bare drive.
spec fn open_ended(s: Seq<char>) -> bool {
    ||| s.len() == 0
    ||| is_sep(s.last())
    ||| s.len() == 2 && drive_letter(s[0]) && s[1] == ':'
}

proof fn lemma_name(a: Seq<char>)
    requires
        single_name(a),
    ensures
        a.len() > 0,
        !(a.len() == 1 && a[0] == '.'),
        !(a.len() >= 2 && drive_letter(a[0]) && a[1] == ':'),
        a != seq!['.'],
{
    if a.len() == 0 {
        assert(prefix_of(a) is None);
        assert(a.skip(0) =~= a);
        assert(components(a) =~= seq![]);
        assert(components(a).len() == 0);
    } else {
        assert(components(a)[0] == ComponentView::Normal(a));
        if a.len() >= 2 && drive_letter(a[0]) && a[1] == ':' {
            assert(!is_sep(a[0]));
            assert(prefix_of(a) is Some);
            assert(components(a)[0] is Prefix);
        } else if a.len() == 1 && a[0] == '.' {
            assert(!is_sep(a[0]));
            assert(prefix_of(a) is None);
            assert(starts_here(a));
            assert(components(a)[0] is CurDir);
        }
        if a == seq!['.'] {
            assert(a.len() == 1 && a[0] == '.');
        }
    }
}

/// A name put to `t` changes its first part only where `t` is but one part.
proof fn lemma_part_append(t: Seq<char>, a: Seq<char>, v: bool)
    requires
        forall|i: int| 0 <= i < a.len() ==> !is_sep(#[trigger] a[i]),
    ensures
        part_len(t, v) <= t.len(),
        part_len(t + a, v) == if part_len(t, v) < t.len() {
            part_len(t, v)
        } else {
            (t.len() + a.len()) as nat
        },
    decreases t.len() + a.len(),
{
    let p = t + a;
    if t.len() > 0 {
        assert(p[0] == t[0]);
        if !splits(t[0], v) {
            assert(p.drop_first() =~= t.drop_first() + a);
            lemma_part_append(t.drop_first(), a, v);
        }
    } else if a.len() > 0 {
        assert(p[0] == a[0]);
        assert(!is_sep(a[0]));
        let rest = a.drop_first();
        assert(p.drop_first() =~= t + rest);
        assert forall|i: int| 0 <= i < rest.len() implies !is_sep(#[trigger] rest[i]) by {
            assert(rest[i] == a[i + 1]);
        }
        lemma_part_append(t, rest, v);
    }
}

/// What follows the first part of `t`, with a name put to it.
proof fn lemma_after_append(t: Seq<char>, a: Seq<char>, v: bool)
    requires
        forall|i: int| 0 <= i < a.len() ==> !is_sep(#[trigger] a[i]),
    ensures
        part_len(t, v) < t.len() ==> after_part(t + a, v) == after_part(t, v) + a
            && first_part(t + a, v) == first_part(t, v),
        part_len(t, v) >= t.len() ==> after_part(t + a, v) == Seq::<char>::empty()
            && first_part(t + a, v) == t + a,
{
    lemma_part_append(t, a, v);
    let p = t + a;
    let k = part_len(t, v) as int;
    if k < t.len() {
        assert(p.skip(k + 1) =~= t.skip(k + 1) + a);
        assert(p.take(k) =~= t.take(k));
    } else {
        assert(p.take(p.len() as int) =~= p);
    }
}

/// The prefix of a path in a folder either is in the folder, whatever the name, or takes the whole
/// path, whatever the name.
spec fn prefix_agrees(s: Seq<char>, a: Seq<char>, b: Seq<char>) -> bool {
    let p = s + a;
    let q = s + b;
    ||| prefix_of(p) == prefix_of(q) && 0 <= prefix_len(p) <= s.len()
    ||| prefix_of(p) is Some && prefix_of(q) is Some && prefix_len(p) == p.len() && prefix_len(q)
        == q.len()
}

proof fn lemma_starts(s: Seq<char>, a: Seq<char>)
    requires
        single_name(a),
    ensures
        (s + a).len() > s.len(),
        forall|i: int| 0 <= i < s.len() ==> #[trigger] (s + a)[i] == s[i],
        forall|i: int| s.len() <= i < (s + a).len() ==> !is_sep(#[trigger] (s + a)[i]),
        forall|k: int| 0 <= k <= s.len() ==> #[trigger] (s + a).skip(k) == s.skip(k) + a,
{
    lemma_name(a);
    let p = s + a;
    assert forall|i: int| s.len() <= i < p.len() implies !is_sep(#[trigger] p[i]) by {
        assert(p[i] == a[i - s.len()]);
    }
    assert forall|k: int| 0 <= k <= s.len() implies #[trigger] p.skip(k) == s.skip(k) + a by {
        assert(p.skip(k) =~= s.skip(k) + a);
    }
}

proof fn lemma_network_prefix(s: Seq<char>, a: Seq<char>, b: Seq<char>)
    requires
        network_mark(s),
        single_name(a),
        single_name(b),
    ensures
        prefix_agrees(s, a, b),
{
    lemma_name(a);
    lemma_name(b);
    lemma_starts(s, a);
    lemma_starts(s, b);
    let p = s + a;
    let q = s + b;
    let t8 = s.skip(8);
    lemma_two_parts(t8, a, b, true);
    assert(p.skip(4)[0] == s[4] && p.skip(4)[1] == s[5] && p.skip(4)[2] == s[6] && p.skip(4)[3]
        == s[7]);
    assert(q.skip(4)[0] == s[4] && q.skip(4)[1] == s[5] && q.skip(4)[2] == s[6] && q.skip(4)[3]
        == s[7]);
    assert(p.skip(8) == t8 + a);
    assert(q.skip(8) == t8 + b);
}

#[verifier::rlimit(40)]
proof fn lemma_verbatim_prefix(s: Seq<char>, a: Seq<char>, b: Seq<char>)
    requires
        s.len() >= 4,
        s[0] == '\\' && s[1] == '\\' && s[2] == '?' && s[3] == '\\',
        !network_mark(s),
        is_sep(s.last()),
        single_name(a),
        single_name(b),
    ensures
        prefix_agrees(s, a, b),
{
    lemma_name(a);
    lemma_name(b);
    lemma_starts(s, a);
    lemma_starts(s, b);
    let p = s + a;
    let q = s + b;
    let t = s.skip(4);
    lemma_after_append(t, a, true);
    lemma_after_append(t, b, true);
    lemma_part_append(t, a, true);
    let x = p.skip(4);
    let y = q.skip(4);
    assert(x == t + a && y == t + b);
    assert(!(x.len() >= 4 && x[0] == 'U' && x[1] == 'N' && x[2] == 'C' && is_sep(x[3]))) by {
        if x.len() >= 4 && x[0] == 'U' && x[1] == 'N' && x[2] == 'C' && is_sep(x[3]) {
            assert(x[3] == p[7] && x[0] == p[4] && x[1] == p[5] && x[2] == p[6]);
        }
    }
    assert(!(y.len() >= 4 && y[0] == 'U' && y[1] == 'N' && y[2] == 'C' && is_sep(y[3]))) by {
        if y.len() >= 4 && y[0] == 'U' && y[1] == 'N' && y[2] == 'C' && is_sep(y[3]) {
            assert(y[3] == q[7] && y[0] == q[4] && y[1] == q[5] && y[2] == q[6]);
        }
    }
    if t.len() == 0 {
        assert(x =~= a && y =~= b);
    } else if t.len() <= 2 {
        assert(t[t.len() - 1] == s.last());
        assert(x[t.len() - 1] == t[t.len() - 1] && y[t.len() - 1] == t[t.len() - 1]);
    } else {
        assert(x[0] == t[0] && x[1] == t[1] && x[2] == t[2]);
        assert(y[0] == t[0] && y[1] == t[1] && y[2] == t[2]);
    }
}

proof fn lemma_share_prefix(s: Seq<char>, a: Seq<char>, b: Seq<char>)
    requires
        s.len() >= 2,
        is_sep(s[0]) && is_sep(s[1]),
        !(s.len() >= 4 && s[0] == '\\' && s[1] == '\\' && s[2] == '?' && s[3] == '\\'),
        is_sep(s.last()),
        single_name(a),
        single_name(b),
    ensures
        prefix_agrees(s, a, b),
{
    lemma_name(a);
    lemma_name(b);
    lemma_starts(s, a);
    lemma_starts(s, b);
    let p = s + a;
    let q = s + b;
    if s.len() >= 4 && s[2] == '.' && is_sep(s[3]) {
        let t = s.skip(4);
        lemma_after_append(t, a, false);
        lemma_after_append(t, b, false);
        lemma_part_append(t, a, false);
        assert(p.skip(4) == t + a && q.skip(4) == t + b);
    } else {
        let t = s.skip(2);
        lemma_two_parts(t, a, b, false);
        assert(p.skip(2) == t + a && q.skip(2) == t + b);
        if s.len() == 3 {
            assert(p[2] == s[2] && q[2] == s[2]);
        } else if s.len() == 2 {
            if p.len() >= 4 {
                assert(!is_sep(p[3]));
            }
            if q.len() >= 4 {
                assert(!is_sep(q[3]));
            }
        }
    }
}

proof fn lemma_name_prefix(s: Seq<char>, a: Seq<char>, b: Seq<char>)
    requires
        open_ended(s),
        single_name(a),
        single_name(b),
    ensures
        prefix_agrees(s, a, b),
{
    if s.len() >= 2 && is_sep(s[0]) && is_sep(s[1]) {
        if s.len() >= 4 && s[0] == '\\' && s[1] == '\\' && s[2] == '?' && s[3] == '\\' {
            if network_mark(s) {
                lemma_network_prefix(s, a, b);
            } else {
                lemma_verbatim_prefix(s, a, b);
            }
        } else {
            lemma_share_prefix(s, a, b);
        }
    } else {
        lemma_name(a);
        lemma_name(b);
        lemma_starts(s, a);
        lemma_starts(s, b);
        let p = s + a;
        let q = s + b;
        if s.len() == 0 {
            assert(p =~= a && q =~= b);
            assert(!is_sep(a[0]) && !is_sep(b[0]));
        } else if s.len() == 1 {
            assert(p[0] == s[0] && q[0] == s[0]);
            assert(!is_sep(p[1]) && !is_sep(q[1]));
        } else {
            assert(p[0] == s[0] && p[1] == s[1] && q[0] == s[0] && q[1] == s[1]);
        }
    }
}

/// The first two parts of what follows, with a name put to it, are in it, or reach to the end.
proof fn lemma_two_parts(t: Seq<char>, a: Seq<char>, b: Seq<char>, v: bool)
    requires
        forall|i: int| 0 <= i < a.len() ==> !is_sep(#[trigger] a[i]),
        forall|i: int| 0 <= i < b.len() ==> !is_sep(#[trigger] b[i]),
        a.len() > 0,
        b.len() > 0,
    ensures
        ({
            let k = part_len(t, v) as int;
            let u = after_part(t, v);
            let m = part_len(u, v) as int;
            &&& k <= t.len()
            &&& k < t.len() ==> first_part(t + a, v) == first_part(t, v) && first_part(t + b, v)
                == first_part(t, v) && first_part(t, v).len() == k && u.len() == t.len() - k - 1
            &&& k < t.len() && m < u.len() ==> first_part(after_part(t + a, v), v) == first_part(u, v)
                && first_part(after_part(t + b, v), v) == first_part(u, v) && first_part(u, v).len()
                == m
            &&& k < t.len() && m >= u.len() ==> first_part(after_part(t + a, v), v) == u + a
                && first_part(after_part(t + b, v), v) == u + b
            &&& k >= t.len() ==> first_part(t + a, v) == t + a && first_part(t + b, v) == t + b
                && first_part(after_part(t + a, v), v).len() == 0 && first_part(
                after_part(t + b, v),
                v,
            ).len() == 0
        }),
{
    lemma_after_append(t, a, v);
    lemma_after_append(t, b, v);
    lemma_part_append(t, a, v);
    let u = after_part(t, v);
    lemma_after_append(u, a, v);
    lemma_after_append(u, b, v);
    lemma_part_append(u, a, v);
    assert(part_len(Seq::<char>::empty(), v) == 0);
}

/// A name put to `t` is, or ends, its last part.
proof fn lemma_last_append(t: Seq<char>, a: Seq<char>, v: bool)
    requires
        forall|i: int| 0 <= i < a.len() ==> !is_sep(#[trigger] a[i]),
    ensures
        without_last_part(t + a, v) == without_last_part(t, v),
        last_part(t + a, v) == last_part(t, v) + a,
    decreases a.len(),
{
    let p = t + a;
    if a.len() == 0 {
        assert(p =~= t);
        assert(last_part(t, v) + a =~= last_part(t, v));
    } else {
        let init = a.drop_last();
        assert(p.last() == a.last());
        assert(!is_sep(a[a.len() - 1]));
        assert(p.drop_last() =~= t + init);
        assert forall|i: int| 0 <= i < init.len() implies !is_sep(#[trigger] init[i]) by {
            assert(init[i] == a[i]);
        }
        lemma_last_append(t, init, v);
        assert((last_part(t, v) + init).push(a.last()) =~= last_part(t, v) + a);
    }
}

/// A file's folder does not depend on its name.
#[verifier::rlimit(60)]
proof fn lemma_name_parent(s: Seq<char>, a: Seq<char>, b: Seq<char>)
    requires
        open_ended(s),
        single_name(a),
        single_name(b),
    ensures
        parent(s + a) == parent(s + b),
        parent(s + a) matches Some(x) ==> x.is_prefix_of(s),
        names_file(s + a) == parent(s + a) is Some,
{
    lemma_name(a);
    lemma_name(b);
    lemma_name_prefix(s, a, b);
    let p = s + a;
    let q = s + b;
    let n = prefix_len(p);
    if prefix_of(p) == prefix_of(q) && 0 <= n <= s.len() {
        assert forall|i: int| 0 <= i < s.len() implies #[trigger] p[i] == s[i] && q[i] == s[i] by {}
        assert(p[s.len() as int] == a[0] && q[s.len() as int] == b[0]);
        assert(!is_sep(a[0]) && !is_sep(b[0]));
        if a.len() > 1 {
            assert(p[s.len() as int + 1] == a[1]);
            assert(!is_sep(a[1]));
        }
        if b.len() > 1 {
            assert(q[s.len() as int + 1] == b[1]);
            assert(!is_sep(b[1]));
        }
        let start = body_start(p);
        assert(written_root(p) == written_root(q));
        assert(leading_dot(p) == leading_dot(q));
        assert(start == body_start(q) && start <= s.len());
        let v = is_verbatim(p);
        let t = s.skip(start);
        assert(p.skip(start) =~= t + a);
        assert(q.skip(start) =~= t + b);
        lemma_whole_body(t, a, v);
        lemma_whole_body(t, b, v);
        lemma_last_append(t, a, v);
        lemma_last_append(t, b, v);
        assert(p.take(start) =~= s.take(start));
        assert(q.take(start) =~= s.take(start));
        let w = without_last_part(t, v);
        lemma_without_last_part(t, v);
        lemma_trimmed_prefix(w, v);
        let x = s.take(start) + trimmed(w, v);
        assert(trimmed(w, v) =~= w.subrange(0, trimmed(w, v).len() as int));
        assert(w =~= t.subrange(0, w.len() as int));
        assert(x =~= s.subrange(0, x.len() as int));
    } else {
        assert(p.skip(n) =~= seq![]);
        assert(q.skip(prefix_len(q)) =~= seq![]);
    }
}

/// With a name put to it, a body ends in a component.
proof fn lemma_whole_body(t: Seq<char>, a: Seq<char>, v: bool)
    requires
        single_name(a),
    ensures
        trimmed(t + a, v) == t + a,
        (t + a).len() > 0,
{
    lemma_name(a);
    lemma_last_append(t, a, v);
    let l = last_part(t, v) + a;
    if last_part(t, v).len() == 0 {
        assert(l =~= a);
    }
    if l == seq!['.'] {
        assert(l.len() == 1);
        assert(last_part(t, v).len() == 0);
    }
}

proof fn lemma_trimmed_prefix(b: Seq<char>, v: bool)
    ensures
        trimmed(b, v).is_prefix_of(b),
    decreases b.len(),
{
    if b.len() == 0 || part_component(last_part(b, v), v).len() > 0 {
        assert(b =~= b.subrange(0, b.len() as int));
    } else {
        lemma_without_last_part(b, v);
        let w = without_last_part(b, v);
        lemma_trimmed_prefix(w, v);
        let x = trimmed(w, v);
        assert(x =~= w.subrange(0, x.len() as int));
        assert(w =~= b.subrange(0, w.len() as int));
        assert(x =~= b.subrange(0, x.len() as int));
    }
}

/// What is told of the first part of a text.
proof fn lemma_part_stop(p: Seq<char>, v: bool)
    ensures
        part_len(p, v) <= p.len(),
        forall|i: int| 0 <= i < part_len(p, v) ==> !splits(#[trigger] p[i], v),
        part_len(p, v) < p.len() ==> splits(p[part_len(p, v) as int], v),
    decreases p.len(),
{
    if p.len() > 0 && !splits(p[0], v) {
        let rest = p.drop_first();
        lemma_part_stop(rest, v);
        assert forall|i: int| 0 <= i < part_len(p, v) implies !splits(#[trigger] p[i], v) by {
            if i > 0 {
                assert(rest[i - 1] == p[i]);
            }
        }
    }
}

proof fn lemma_case_tidied(s: Seq<char>, t: Seq<char>)
    requires
        same_but_case(s, t),
    ensures
        same_but_case(tidied(s), tidied(t)),
    decreases s.len(),
{
    if s.len() > 0 {
        lemma_case_part_len(s, t, true);
        lemma_case_after(s, t, true);
        lemma_case_skip(s, t, part_len(s, true) as int);
        let a = first_part(s, true);
        let b = first_part(t, true);
        lemma_case_append(a, b, seq!['\\'], seq!['\\']);
        assert(a + seq!['\\'] =~= a.push('\\'));
        assert(b + seq!['\\'] =~= b.push('\\'));
        lemma_case_tidied(after_part(s, true), after_part(t, true));
        let x = tidied(after_part(s, true));
        let y = tidied(after_part(t, true));
        if a.len() > 0 {
            lemma_case_append(a.push('\\'), b.push('\\'), x, y);
        } else {
            lemma_case_append(seq![], seq![], x, y);
        }
    }
}

proof fn lemma_ascii_tidied(b: Seq<char>)
    requires
        ascii(b),
    ensures
        ascii(tidied(b)),
    decreases b.len(),
{
    if b.len() > 0 {
        lemma_part_stop(b, true);
        let rest = after_part(b, true);
        lemma_ascii_tidied(rest);
        let name = first_part(b, true);
        let x = if name.len() > 0 {
            name.push('\\')
        } else {
            seq![]
        };
        assert forall|i: int| 0 <= i < tidied(b).len() implies #[trigger] tidied(b)[i]
            <= '\u{7F}' by {
            if i < x.len() {
                assert(tidied(b)[i] == x[i]);
            } else {
                assert(tidied(b)[i] == tidied(rest)[i - x.len()]);
            }
        }
    }
}

proof fn lemma_ascii_stem(d: Seq<char>, a: Seq<char>)
    requires
        ascii(d),
        single_name(a),
    ensures
        ascii(stem(d)),
{
    lemma_stem(d, a);
    let s = stem(d);
    if is_verbatim(d) {
        lemma_prefix_len(d);
        let x = d.take(prefix_len(d)).push('\\');
        let b = d.skip(body_start(d));
        assert(ascii(b)) by {
            assert forall|i: int| 0 <= i < b.len() implies #[trigger] b[i] <= '\u{7F}' by {
                assert(b[i] == d[i + body_start(d)]);
            }
        }
        lemma_ascii_tidied(b);
        assert forall|i: int| 0 <= i < s.len() implies #[trigger] s[i] <= '\u{7F}' by {
            if i < x.len() {
                assert(s[i] == x[i]);
            } else {
                assert(s[i] == tidied(b)[i - x.len()]);
            }
        }
    } else {
        assert forall|i: int| 0 <= i < s.len() implies #[trigger] s[i] <= '\u{7F}' by {
            if i < d.len() {
                assert(s[i] == d[i]);
            }
        }
    }
}

/// The stems of folders that agree up to case agree up to case.
proof fn lemma_case_stem(d: Seq<char>, e: Seq<char>)
    requires
        same_but_case(d, e),
        network_mark(d) == network_mark(e),
    ensures
        same_but_case(stem(d), stem(e)),
{
    lemma_case_prefix(d, e);
    let n = prefix_len(d);
    let one = seq!['\\'];
    if is_verbatim(d) {
        if n < d.len() {
            assert(same_letter(d[n], e[n]));
            lemma_letter(d[n], e[n], true);
        }
        let start = body_start(d);
        assert(start == body_start(e));
        lemma_case_skip(d, e, n);
        lemma_case_skip(d, e, start);
        lemma_case_tidied(d.skip(start), e.skip(start));
        lemma_case_append(d.take(n), e.take(n), one, one);
        assert(d.take(n) + one =~= d.take(n).push('\\'));
        assert(e.take(n) + one =~= e.take(n).push('\\'));
        lemma_case_append(
            d.take(n).push('\\'),
            e.take(n).push('\\'),
            tidied(d.skip(start)),
            tidied(e.skip(start)),
        );
    } else {
        let none = Seq::<char>::empty();
        assert(prefix_of(none) is None);
        assert(d + none =~= d && e + none =~= e);
        assert(d.push('\\') + none =~= d + one);
        assert(e.push('\\') + none =~= e + one);
        lemma_bare_drive(d, e);
        lemma_case_append(d, e, one, one);
        if d.len() > 0 {
            assert(same_letter(d[d.len() - 1], e[d.len() - 1]));
            lemma_letter(d[d.len() - 1], e[d.len() - 1], true);
        }
    }
}

/// What a server's name ends, and what follows it, in a verbatim network path.
spec fn past_server(m: Seq<char>) -> Seq<char> {
    m.take(8 + part_len(m.skip(8), true) as int).push('\\') + tidied(after_part(m.skip(8), true))
}

proof fn lemma_network_stem(m: Seq<char>)
    requires
        network_mark(m),
    ensures
        stem(m) == past_server(m),
{
    let r = m.skip(4);
    assert(r[0] == m[4] && r[1] == m[5] && r[2] == m[6] && r[3] == m[7]);
    let u = m.skip(8);
    let k = part_len(u, true) as int;
    let w = after_part(u, true);
    let j = part_len(w, true) as int;
    lemma_part_stop(u, true);
    lemma_part_stop(w, true);
    assert(is_verbatim(m));
    if j > 0 {
        let n = 8 + k + 1 + j;
        assert(prefix_len(m) == n);
        assert(m[8 + k] == u[k]);
        let share = first_part(w, true);
        assert forall|i: int| 0 <= i < w.len() implies #[trigger] w[i] == m[8 + k + 1 + i] by {
            assert(w[i] == u[k + 1 + i]);
        }
        let front = m.take(8 + k).push('\\');
        assert(m.take(n) =~= front + share);
        assert(m.skip(body_start(m)) =~= after_part(w, true));
        assert(m.take(n).push('\\') + tidied(after_part(w, true)) =~= front + (share.push('\\')
            + tidied(after_part(w, true))));
    } else {
        assert(prefix_len(m) == 8 + k);
        if 8 + k < m.len() {
            assert(m[8 + k] == u[k]);
        }
        assert(m.skip(body_start(m)) =~= w);
    }
}

/// Whether a server is named where a verbatim network path names it, or the mark of such a path is
/// written with a slash.
pub open spec fn server_named(m: Seq<char>) -> bool {
    m.len() >= 8 && (m[7] == '/' || (m.len() > 8 && m[8] != '\\'))
}

/// A mark that agrees with the capital one up to case, and is another.
proof fn lemma_small_mark(m: Seq<char>, u: Seq<char>)
    requires
        same_but_case(m, u),
        network_mark(m),
        !network_mark(u),
    ensures
        small_mark(u),
        m[7] == u[7],
        m.len() > 8 ==> (m[8] == '\\') == (u[8] == '\\'),
{
    assert(same_letter(m[0], u[0]) && same_letter(m[1], u[1]) && same_letter(m[2], u[2])
        && same_letter(m[3], u[3]));
    assert(same_letter(m[4], u[4]) && same_letter(m[5], u[5]) && same_letter(m[6], u[6])
        && same_letter(m[7], u[7]));
    if m.len() > 8 {
        assert(same_letter(m[8], u[8]));
    }
}

proof fn lemma_small_stem(u: Seq<char>)
    requires
        small_mark(u),
        server_named(u),
    ensures
        stem(u) == past_server(u),
{
    lemma_small_prefix(u);
    let v = u.skip(8);
    let k = part_len(v, true) as int;
    let w = after_part(v, true);
    lemma_part_stop(v, true);
    if u[7] == '/' {
        if 8 + k < u.len() {
            assert(u[8 + k] == v[k]);
        }
        assert(u.skip(body_start(u)) =~= w);
    } else {
        assert(v[0] == u[8]);
        assert(k > 0);
        assert(body_start(u) == 8);
        let name = first_part(v, true);
        assert(u.take(7).push('\\') =~= u.take(8));
        assert(u.take(8 + k) =~= u.take(8) + name);
        assert(u.take(8) + (name.push('\\') + tidied(w)) =~= u.take(8 + k).push('\\') + tidied(w));
    }
}

/// Where the mark is not in capitals, the prefix ends before the first backslash after it.
proof fn lemma_small_prefix(u: Seq<char>)
    requires
        small_mark(u),
    ensures
        is_verbatim(u),
        prefix_len(u) == if u[7] == '/' {
            8 + part_len(u.skip(8), true) as int
        } else {
            7
        },
        7 <= prefix_len(u) <= u.len(),
        prefix_len(u) < u.len() ==> u[prefix_len(u)] == '\\',
{
    let r = u.skip(4);
    assert(r[0] == u[4] && r[1] == u[5] && r[2] == u[6] && r[3] == u[7]);
    let v = u.skip(8);
    let k = part_len(v, true) as int;
    lemma_part_stop(v, true);
    if u[7] == '/' {
        assert forall|i: int| 0 <= i < 4 + k implies !splits(#[trigger] r[i], true) by {
            if i >= 4 {
                assert(r[i] == v[i - 4]);
            }
        }
        if 4 + k < r.len() {
            assert(r[4 + k] == v[k]);
        }
        lemma_part_len_is(r, true, 4 + k);
        if 8 + k < u.len() {
            assert(u[8 + k] == v[k]);
        }
    } else {
        lemma_part_len_is(r, true, 3);
    }
}

/// A path below the share of a verbatim network path has a backslash after its prefix.
proof fn lemma_network_root(m: Seq<char>)
    requires
        network_mark(m),
        prefix_len(m) < m.len(),
    ensures
        is_verbatim(m),
        8 <= prefix_len(m),
        m[prefix_len(m)] == '\\',
{
    let r = m.skip(4);
    assert(r[0] == m[4] && r[1] == m[5] && r[2] == m[6] && r[3] == m[7]);
    let u = m.skip(8);
    let k = part_len(u, true) as int;
    let w = after_part(u, true);
    let j = part_len(w, true) as int;
    lemma_part_stop(u, true);
    lemma_part_stop(w, true);
    if j > 0 {
        assert(w[j] == u[k + 1 + j]);
        assert(m[8 + k + 1 + j] == u[k + 1 + j]);
    } else {
        assert(m[8 + k] == u[k]);
    }
}

/// In a verbatim path only backslashes are trimmed.
proof fn lemma_trim_verbatim(x: Seq<char>, w: Seq<char>)
    ensures
        no_trailing_sep(x + trimmed(w, true)) == no_trailing_sep(x + w),
    decreases w.len(),
{
    if w.len() > 0 && part_component(last_part(w, true), true).len() == 0 {
        assert(last_part(w, true).len() == 0);
        assert(splits(w.last(), true));
        lemma_trim_verbatim(x, w.drop_last());
        assert((x + w).drop_last() =~= x + w.drop_last());
        assert((x + w).last() == w.last());
    }
}

/// Without its last part, a path is the same wherever, after a backslash, one begins to look.
proof fn lemma_last_from(p: Seq<char>, start: int)
    requires
        1 <= start <= p.len(),
        p[start - 1] == '\\',
    ensures
        no_trailing_sep(p.take(start) + without_last_part(p.skip(start), true)) == no_trailing_sep(
            without_last_part(p, true),
        ),
    decreases p.len(),
{
    let b = p.skip(start);
    if p.len() == start {
        assert(p.take(start) + without_last_part(b, true) =~= p);
        assert(p.last() == '\\');
    } else {
        assert(b.last() == p.last());
        assert(b.drop_last() =~= p.drop_last().skip(start));
        assert(p.take(start) =~= p.drop_last().take(start));
        if splits(p.last(), true) {
            assert(p.take(start) + b.drop_last() =~= p.drop_last());
        } else {
            lemma_last_from(p.drop_last(), start);
        }
    }
}

proof fn lemma_lower_trailing(s: Seq<char>)
    ensures
        no_trailing_sep(ascii_lower(s)) == ascii_lower(no_trailing_sep(s)),
    decreases s.len(),
{
    if s.len() > 0 {
        assert(ascii_lower(s).last() == ascii_lower_char(s.last()));
        assert(ascii_lower(s).drop_last() =~= ascii_lower(s.drop_last()));
        if is_sep(s.last()) {
            lemma_lower_trailing(s.drop_last());
        }
    }
}

/// The key of a path with a name at its end and a backslash after its verbatim prefix.
proof fn lemma_verbatim_key(s: Seq<char>, b: Seq<char>)
    requires
        single_name(b),
        is_verbatim(s + b),
        0 <= prefix_len(s + b) < (s + b).len(),
        (s + b)[prefix_len(s + b)] == '\\',
    ensures
        parent(s + b) is Some,
        ascii_folder_key(s + b) == Some(
            ascii_lower(no_trailing_sep(without_last_part(s + b, true))),
        ),
{
    let p = s + b;
    lemma_starts(s, b);
    let n = prefix_len(p);
    assert(n < s.len());
    let start = body_start(p);
    assert(start == n + 1);
    let t = s.skip(start);
    assert(p.skip(start) == t + b);
    lemma_whole_body(t, b, true);
    let w = without_last_part(p.skip(start), true);
    let x = p.take(start) + trimmed(w, true);
    assert(parent(p) == Some(x));
    lemma_trim_verbatim(p.take(start), w);
    lemma_last_from(p, start);
    lemma_lower_trailing(x);
}

/// The keys of files below the share of a network, where one verbatim path has its mark in capitals
/// and the other not.
proof fn lemma_below_share(s: Seq<char>, t: Seq<char>, b: Seq<char>)
    requires
        same_but_case(s, t),
        single_name(b),
        network_mark(s + b),
        !network_mark(t + b),
        prefix_len(s + b) < (s + b).len(),
        prefix_len(t + b) < (t + b).len(),
    ensures
        ascii_folder_key(s + b) == ascii_folder_key(t + b),
{
    let p = s + b;
    let q = t + b;
    lemma_case_append(s, t, b, b);
    lemma_network_root(p);
    lemma_small_mark(p, q);
    lemma_small_prefix(q);
    lemma_verbatim_key(s, b);
    lemma_verbatim_key(t, b);
    let x = without_last_part(p, true);
    let y = without_last_part(q, true);
    lemma_case_last(p, q, true);
    lemma_case_lower(x, y);
    lemma_lower_trailing(x);
    lemma_lower_trailing(y);
}

proof fn lemma_case_lower(x: Seq<char>, y: Seq<char>)
    requires
        same_but_case(x, y),
    ensures
        ascii_lower(x) == ascii_lower(y),
{
    assert forall|i: int| 0 <= i < x.len() implies ascii_lower_char(#[trigger] x[i])
        == ascii_lower_char(y[i]) by {
        assert(same_letter(x[i], y[i]));
        lemma_letter(x[i], y[i], true);
    }
    assert(ascii_lower(x) =~= ascii_lower(y));
}

/// Whether nothing but separators follows where a verbatim network path has its mark.
pub open spec fn nothing_named(d: Seq<char>) -> bool {
    d.len() >= 8 && forall|i: int| 8 <= i < d.len() ==> is_sep(#[trigger] d[i])
}

proof fn lemma_unnamed_stem(m: Seq<char>)
    requires
        network_mark(m) || small_mark(m),
        !server_named(m),
    ensures
        m[7] == '\\',
        network_mark(m) ==> stem(m) == m.take(8).push('\\') + tidied(
            after_part(m.skip(8), true),
        ),
        small_mark(m) ==> stem(m) == m.take(8) + tidied(after_part(m.skip(8), true)),
{
    let v = m.skip(8);
    if v.len() > 0 {
        assert(v[0] == m[8]);
    }
    assert(part_len(v, true) == 0);
    if network_mark(m) {
        lemma_network_stem(m);
    } else {
        lemma_small_prefix(m);
        assert(body_start(m) == 8);
        assert(m.take(7).push('\\') =~= m.take(8));
        if v.len() > 0 {
            assert(tidied(v) =~= tidied(after_part(v, true)));
        }
    }
}

/// The key of a name in a verbatim folder that ends in a backslash.
proof fn lemma_stem_key(s: Seq<char>, b: Seq<char>)
    requires
        single_name(b),
        s.len() > 0,
        s.last() == '\\',
        network_mark(s + b) || small_mark(s + b),
        names_file(s + b),
    ensures
        ascii_folder_key(s + b) == Some(ascii_lower(no_trailing_sep(s))),
{
    let p = s + b;
    if network_mark(p) {
        lemma_network_root(p);
    } else {
        lemma_small_prefix(p);
    }
    lemma_verbatim_key(s, b);
    lemma_last_append(s, b, true);
}

/// Only separators are left away at the end.
proof fn lemma_strip(s: Seq<char>, k: int)
    requires
        0 < k <= s.len(),
        !is_sep(s[k - 1]),
        forall|i: int| k <= i < s.len() ==> is_sep(#[trigger] s[i]),
    ensures
        no_trailing_sep(s) == s.take(k),
    decreases s.len(),
{
    if s.len() > k {
        assert(is_sep(s[s.len() - 1]));
        lemma_strip(s.drop_last(), k);
        assert(s.drop_last().take(k) =~= s.take(k));
    } else {
        assert(s.take(k) =~= s);
    }
}

/// What comes before a character that is no separator is left as it is.
proof fn lemma_strip_after(x: Seq<char>, y: Seq<char>, k: int)
    requires
        0 <= k < y.len(),
        !is_sep(y[k]),
    ensures
        no_trailing_sep(x + y) == x + no_trailing_sep(y),
    decreases y.len(),
{
    assert((x + y).last() == y.last());
    if is_sep(y.last()) {
        assert((x + y).drop_last() =~= x + y.drop_last());
        lemma_strip_after(x, y.drop_last(), k);
    }
}

proof fn lemma_tidied_seps(b: Seq<char>)
    requires
        forall|i: int| 0 <= i < b.len() ==> is_sep(#[trigger] b[i]),
    ensures
        forall|i: int| 0 <= i < tidied(b).len() ==> is_sep(#[trigger] tidied(b)[i]),
    decreases b.len(),
{
    if b.len() > 0 {
        lemma_part_stop(b, true);
        let name = first_part(b, true);
        let rest = after_part(b, true);
        lemma_tidied_seps(rest);
        let x = if name.len() > 0 {
            name.push('\\')
        } else {
            seq![]
        };
        assert forall|i: int| 0 <= i < tidied(b).len() implies is_sep(#[trigger] tidied(b)[i]) by {
            if i < x.len() {
                assert(tidied(b)[i] == x[i]);
            } else {
                assert(tidied(b)[i] == tidied(rest)[i - x.len()]);
            }
        }
    }
}

/// A character that is no separator is kept.
proof fn lemma_tidied_keeps(b: Seq<char>, k: int) -> (r: int)
    requires
        0 <= k < b.len(),
        !is_sep(b[k]),
    ensures
        0 <= r < tidied(b).len(),
        !is_sep(tidied(b)[r]),
    decreases b.len(),
{
    lemma_part_stop(b, true);
    let n = part_len(b, true) as int;
    let name = first_part(b, true);
    let rest = after_part(b, true);
    if k < n {
        assert(tidied(b)[k] == name[k]);
        k
    } else {
        assert(rest[k - n - 1] == b[k]);
        let x = if name.len() > 0 {
            name.push('\\')
        } else {
            seq![]
        };
        let r = lemma_tidied_keeps(rest, k - n - 1);
        assert(tidied(b)[x.len() + r] == tidied(rest)[r]);
        x.len() + r
    }
}

proof fn lemma_case_strip(s: Seq<char>, t: Seq<char>)
    requires
        same_but_case(s, t),
    ensures
        no_trailing_sep(s).len() == no_trailing_sep(t).len(),
    decreases s.len(),
{
    if s.len() > 0 {
        let k = s.len() - 1;
        assert(same_letter(s[k], t[k]));
        lemma_letter(s[k], t[k], true);
        lemma_case_skip(s, t, k);
        assert(s.take(k) =~= s.drop_last());
        assert(t.take(k) =~= t.drop_last());
        lemma_case_strip(s.drop_last(), t.drop_last());
    }
}

/// What is told of a name in two folders without a server's name, of which one has the mark of a
/// verbatim network path in capitals and the other not.
proof fn lemma_unnamed(m: Seq<char>, u: Seq<char>, b: Seq<char>)
    requires
        same_but_case(m, u),
        network_mark(m),
        !network_mark(u),
        !server_named(m),
        single_name(b),
    ensures
        names_file(stem(u) + b),
        names_file(stem(m) + b) ==> (ascii_folder_key(stem(m) + b) == ascii_folder_key(stem(u) + b)
            <==> nothing_named(m)),
{
    lemma_small_mark(m, u);
    lemma_unnamed_stem(m);
    lemma_unnamed_stem(u);
    lemma_stem(m, b);
    lemma_stem(u, b);
    let s = stem(m);
    let t = stem(u);
    let x = after_part(m.skip(8), true);
    let y = after_part(u.skip(8), true);
    let p = s + b;
    let q = t + b;
    assert(forall|i: int| 0 <= i < 8 ==> #[trigger] p[i] == m[i]);
    assert(forall|i: int| 0 <= i < 8 ==> #[trigger] q[i] == u[i]);
    assert(network_mark(p) && small_mark(q));
    lemma_small_prefix(q);
    lemma_tidied_end(x);
    lemma_tidied_end(y);
    assert(s.last() == '\\') by {
        if tidied(x).len() > 0 {
            assert(s.last() == tidied(x).last());
        }
    }
    assert(t.last() == '\\') by {
        if tidied(y).len() > 0 {
            assert(t.last() == tidied(y).last());
        } else {
            assert(t.last() == u[7]);
        }
    }
    if names_file(p) {
        lemma_stem_key(s, b);
        lemma_stem_key(t, b);
        lemma_case_skip(m, u, 8);
        lemma_case_after(m.skip(8), u.skip(8), true);
        lemma_case_tidied(x, y);
        assert(part_len(m.skip(8), true) == 0) by {
            if m.len() > 8 {
                assert(m.skip(8)[0] == m[8]);
            }
        }
        lemma_case_part_len(m.skip(8), u.skip(8), true);
        assert forall|i: int| 0 <= i < x.len() implies #[trigger] x[i] == m[9 + i] && y[i] == u[9
            + i] by {}
        if nothing_named(m) {
            assert forall|i: int| 0 <= i < x.len() implies is_sep(#[trigger] x[i]) by {
                assert(is_sep(m[9 + i]));
            }
            assert forall|i: int| 0 <= i < y.len() implies is_sep(#[trigger] y[i]) by {
                assert(is_sep(m[9 + i]));
                assert(same_letter(m[9 + i], u[9 + i]));
            }
            lemma_tidied_seps(x);
            lemma_tidied_seps(y);
            assert forall|i: int| 7 <= i < s.len() implies is_sep(#[trigger] s[i]) by {
                if i >= 9 {
                    assert(s[i] == tidied(x)[i - 9]);
                }
            }
            assert forall|i: int| 7 <= i < t.len() implies is_sep(#[trigger] t[i]) by {
                if i >= 8 {
                    assert(t[i] == tidied(y)[i - 8]);
                }
            }
            lemma_strip(s, 7);
            lemma_strip(t, 7);
            lemma_case_skip(m, u, 7);
            assert(s.take(7) =~= m.take(7));
            assert(t.take(7) =~= u.take(7));
            lemma_case_lower(m.take(7), u.take(7));
        } else {
            let i = choose|i: int| 8 <= i < m.len() && !is_sep(#[trigger] m[i]);
            assert(i > 8);
            assert(x[i - 9] == m[i]);
            let k = lemma_tidied_keeps(x, i - 9);
            assert(same_letter(tidied(x)[k], tidied(y)[k]));
            lemma_letter(tidied(x)[k], tidied(y)[k], true);
            lemma_strip_after(m.take(8).push('\\'), tidied(x), k);
            lemma_strip_after(u.take(8), tidied(y), k);
            lemma_case_strip(tidied(x), tidied(y));
            assert(ascii_lower(no_trailing_sep(s)).len() == 9 + no_trailing_sep(tidied(x)).len());
            assert(ascii_lower(no_trailing_sep(t)).len() == 8 + no_trailing_sep(tidied(x)).len());
        }
    }
}

/// Files in one folder have one key, whatever their names and in whatever case the letters of the
/// folder are written, for folders in ASCII characters. The mark of a verbatim network path has to
/// be in capitals, though. Where one of the two folders has it so and the other not, the first keeps
/// the names of a server and a share in its prefix: there the law holds from the share downwards,
/// where a file's name is not taken for the share's, and a server has a name, or nothing has.
pub proof fn law_one_folder_has_one_key(
    d: Seq<char>,
    e: Seq<char>,
    a: Seq<char>,
    b: Seq<char>,
)
    requires
        ascii(d),
        same_but_case(d, e),
        single_name(a),
        single_name(b),
        network_mark(joined(d, seq![])) == network_mark(joined(e, seq![])) || ((server_named(
            d,
        ) || nothing_named(d)) && names_file(joined(d, a)) == names_file(joined(e, b))),
    ensures
        ascii_folder_key(joined(d, a)) == ascii_folder_key(joined(e, b)),
        parent(joined(d, a)) matches Some(x) ==> ascii(x),
        parent(joined(e, b)) matches Some(x) ==> ascii(x),
{
    let s = stem(d);
    let t = stem(e);
    lemma_stem(d, a);
    lemma_stem(e, b);
    lemma_stem_mark(d, b);
    lemma_stem_mark(e, b);
    assert(ascii(e)) by {
        assert forall|i: int| 0 <= i < e.len() implies #[trigger] e[i] <= '\u{7F}' by {
            assert(same_letter(d[i], e[i]));
            assert(d[i] <= '\u{7F}');
            lemma_letter(d[i], e[i], true);
        }
    }
    lemma_ascii_stem(d, a);
    lemma_ascii_stem(e, b);
    lemma_name_parent(s, a, b);
    lemma_name_parent(s, b, a);
    lemma_name_parent(t, b, b);
    let p = s + b;
    let q = t + b;
    if network_mark(d) != network_mark(e) && !server_named(d) {
        if network_mark(d) {
            lemma_unnamed(d, e, b);
        } else {
            lemma_case_back(d, e);
            lemma_small_mark(e, d);
            assert(nothing_named(e)) by {
                assert forall|i: int| 8 <= i < e.len() implies is_sep(#[trigger] e[i]) by {
                    assert(is_sep(d[i]));
                    assert(same_letter(d[i], e[i]));
                }
            }
            lemma_unnamed(e, d, b);
        }
    } else {
        assert(same_but_case(s, t)) by {
            if network_mark(d) == network_mark(e) {
                lemma_case_stem(d, e);
            } else {
                if network_mark(d) {
                    lemma_small_mark(d, e);
                    lemma_network_stem(d);
                    lemma_small_stem(e);
                } else {
                    lemma_case_back(d, e);
                    lemma_small_mark(e, d);
                    lemma_network_stem(e);
                    lemma_small_stem(d);
                }
                lemma_case_past_server(d, e);
            }
        }
        lemma_case_append(s, t, b, b);
        if network_mark(p) == network_mark(q) {
            lemma_case_parent(p, q);
            match parent(p) {
                Some(x) => {
                    lemma_case_lower(x, parent(q)->0);
                },
                None => {},
            }
        } else if names_file(p) {
            if network_mark(p) {
                lemma_below_share(s, t, b);
            } else {
                lemma_case_back(s, t);
                lemma_below_share(t, s, b);
            }
        }
    }
}

/// Where the law of one key does not hold, it fails: the two files have keys that differ.
pub proof fn law_other_networks_differ(d: Seq<char>, e: Seq<char>, a: Seq<char>, b: Seq<char>)
    requires
        same_but_case(d, e),
        single_name(a),
        single_name(b),
        network_mark(joined(d, seq![])) != network_mark(joined(e, seq![])),
        !(server_named(d) || nothing_named(d)) || names_file(joined(d, a)) != names_file(
            joined(e, b),
        ),
    ensures
        ascii_folder_key(joined(d, a)) != ascii_folder_key(joined(e, b)),
{
    let s = stem(d);
    let t = stem(e);
    lemma_stem(d, a);
    lemma_stem(e, b);
    lemma_stem_mark(d, b);
    lemma_stem_mark(e, b);
    lemma_name_parent(s, a, b);
    lemma_name_parent(s, b, a);
    lemma_name_parent(t, b, b);
    if names_file(s + a) == names_file(t + b) {
        if d.len() == 7 {
            lemma_case_stem(d, e);
            lemma_case_append(s, t, b, b);
            if network_mark(s + b) {
                lemma_small_mark(s + b, t + b);
            } else {
                lemma_case_back(s + b, t + b);
                lemma_small_mark(t + b, s + b);
            }
            lemma_short_mark(d, b);
            lemma_short_mark(e, b);
        } else if network_mark(d) {
            lemma_unnamed(d, e, b);
        } else {
            lemma_case_back(d, e);
            lemma_small_mark(e, d);
            assert(!nothing_named(e)) by {
                let i = choose|i: int| 8 <= i < d.len() && !is_sep(#[trigger] d[i]);
                assert(same_letter(d[i], e[i]));
                assert(!is_sep(e[i]));
            }
            lemma_unnamed(e, d, b);
        }
    }
}

/// A folder, with a name put to it, has the mark of a verbatim network path as it has it before.
proof fn lemma_stem_mark(d: Seq<char>, b: Seq<char>)
    requires
        single_name(b),
    ensures
        network_mark(stem(d) + b) == network_mark(joined(d, seq![])),
        d.len() != 7 ==> network_mark(joined(d, seq![])) == network_mark(d),
{
    let none = Seq::<char>::empty();
    assert(prefix_of(none) is None);
    assert(d + none =~= d);
    assert(d.push('\\') + none =~= d.push('\\'));
    let j = joined(d, none);
    let s = stem(d);
    let p = s + b;
    lemma_stem(d, b);
    lemma_starts(s, b);
    lemma_prefix_len(d);
    if is_verbatim(d) {
        let r = d.skip(4);
        let n = prefix_len(d);
        assert forall|i: int| 0 <= i < r.len() implies #[trigger] r[i] == d[i + 4] by {}
        assert forall|i: int| 0 <= i < n implies #[trigger] p[i] == d[i] by {
            assert(s[i] == d[i]);
        }
        assert(s[n] == '\\' && p[n] == '\\');
        lemma_part_stop(r, true);
        if network_mark(d) {
            lemma_part_stop(d.skip(8), true);
        } else if d.len() == 7 && d[4] == 'U' && d[5] == 'N' && d[6] == 'C' {
            lemma_part_len_is(r, true, 3);
        } else if network_mark(p) {
            assert(p[4] == 'U' && p[5] == 'N' && p[6] == 'C');
            assert(n >= 7);
            assert(d[4] == 'U' && d[5] == 'N' && d[6] == 'C');
            assert(d.len() > 7);
            if n == 7 {
                assert(r[3] == d[7]);
            } else {
                assert(p[7] == d[7]);
            }
            assert(false);
        }
    } else {
        assert(s == j);
        if s.len() < 8 && p.len() >= 8 {
            assert(p[7] == b[7 - s.len()]);
        }
        if s.len() >= 8 {
            assert(forall|i: int| 0 <= i < 8 ==> #[trigger] p[i] == s[i]);
        }
    }
}

proof fn lemma_case_back(s: Seq<char>, t: Seq<char>)
    requires
        same_but_case(s, t),
    ensures
        same_but_case(t, s),
{
    assert forall|i: int| 0 <= i < t.len() implies same_letter(#[trigger] t[i], s[i]) by {
        assert(same_letter(s[i], t[i]));
    }
}

proof fn lemma_case_past_server(d: Seq<char>, e: Seq<char>)
    requires
        same_but_case(d, e),
        d.len() >= 8,
    ensures
        same_but_case(past_server(d), past_server(e)),
{
    let one = seq!['\\'];
    let u = d.skip(8);
    let v = e.skip(8);
    lemma_case_skip(d, e, 8);
    lemma_case_part_len(u, v, true);
    lemma_case_after(u, v, true);
    let n = 8 + part_len(u, true) as int;
    lemma_case_skip(d, e, n);
    lemma_case_append(d.take(n), e.take(n), one, one);
    assert(d.take(n) + one =~= d.take(n).push('\\'));
    assert(e.take(n) + one =~= e.take(n).push('\\'));
    lemma_case_tidied(after_part(u, true), after_part(v, true));
    lemma_case_append(
        d.take(n).push('\\'),
        e.take(n).push('\\'),
        tidied(after_part(u, true)),
        tidied(after_part(v, true)),
    );
}

/// A bare drive, and one that agrees with it up to case.
proof fn lemma_bare_drive(d: Seq<char>, e: Seq<char>)
    requires
        same_but_case(d, e),
    ensures
        ({
            let f = |p: Seq<char>| prefix_of(p) matches Some(x) && x.0 is Disk && x.1 == p.len();
            f(d) == f(e)
        }),
        (prefix_of(d) matches Some(x) && x.0 is Disk && x.1 == d.len()) <==> (d.len() == 2
            && drive_letter(d[0]) && d[1] == ':'),
        (prefix_of(e) matches Some(x) && x.0 is Disk && x.1 == e.len()) <==> (e.len() == 2
            && drive_letter(e[0]) && e[1] == ':'),
{
    if d.len() >= 2 {
        assert(same_letter(d[0], e[0]));
        assert(same_letter(d[1], e[1]));
        lemma_letter(d[0], e[0], true);
        lemma_letter(d[1], e[1], true);
    }
}

/// A name right after the mark of a verbatim network path belongs to the prefix.
proof fn lemma_short_mark(d: Seq<char>, b: Seq<char>)
    requires
        d.len() == 7,
        single_name(b),
        network_mark(joined(d, seq![])) || small_mark(stem(d) + b),
    ensures
        names_file(stem(d) + b) != network_mark(joined(d, seq![])),
{
    let none = Seq::<char>::empty();
    assert(prefix_of(none) is None);
    assert(d + none =~= d);
    assert(d.push('\\') + none =~= d.push('\\'));
    lemma_name(b);
    lemma_stem_mark(d, b);
    let s = stem(d);
    let p = s + b;
    if network_mark(joined(d, none)) {
        let r = d.skip(4);
        assert(r[0] == d[4] && r[1] == d[5] && r[2] == d[6]);
        lemma_part_len_is(r, true, 3);
        assert(d.skip(7) =~= none);
        assert(s =~= d.push('\\'));
        assert(p.skip(8) =~= b);
        assert(p.skip(4)[0] == p[4] && p.skip(4)[1] == p[5] && p.skip(4)[2] == p[6] && p.skip(
            4,
        )[3] == p[7]);
        assert forall|i: int| 0 <= i < b.len() implies !splits(#[trigger] b[i], true) by {
            assert(!is_sep(b[i]));
        }
        lemma_part_len_is(b, true, b.len() as int);
        assert(first_part(b, true) =~= b);
        assert(after_part(b, true) =~= none);
    } else {
        lemma_small_prefix(p);
        lemma_starts(s, b);
        lemma_stem(d, b);
        lemma_prefix_len(d);
        if is_verbatim(d) {
            let n = prefix_len(d);
            assert(s[n] == '\\' && p[n] == '\\');
            assert(forall|i: int| 0 <= i < n ==> #[trigger] p[i] == d[i]);
            assert(n >= 4);
            assert(n == 7);
        } else {
            assert(forall|i: int| 0 <= i < 7 ==> #[trigger] p[i] == d[i]);
            assert(false);
        }
    }
}

} // verus!
