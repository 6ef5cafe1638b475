//! The patterns of SQL: `%` stands for any characters, `_` for one, and the case of ASCII letters
//! does not count.

use crate::outside::ascii_lower_char;
use vstd::prelude::*;
use vstd::slice::slice_subrange;

verus! {

/// Whether `s` answers the pattern.
pub open spec fn like(pattern: Seq<char>, s: Seq<char>) -> bool
    decreases pattern.len(),
{
    if pattern.len() == 0 {
        s.len() == 0
    } else if pattern[0] == '%' {
        exists|k: int| 0 <= k <= s.len() && like(pattern.drop_first(), #[trigger] s.skip(k))
    } else {
        &&& s.len() > 0
        &&& pattern[0] == '_' || ascii_lower_char(pattern[0]) == ascii_lower_char(s[0])
        &&& like(pattern.drop_first(), s.drop_first())
    }
}

fn lower_letter(c: char) -> (r: char)
    ensures
        r == ascii_lower_char(c),
{
    if 'A' <= c && c <= 'Z' {
        ((c as u8) + 32) as char
    } else {
        c
    }
}

/// Whether `s` answers the pattern.
pub fn is_like(pattern: &[char], s: &[char]) -> (r: bool)
    ensures
        r == like(pattern@, s@),
    decreases pattern@.len(),
{
    let n: usize = pattern.len();
    let m: usize = s.len();
    if n == 0 {
        return m == 0;
    }
    let rest = slice_subrange(pattern, 1, n);
    assert(rest@ =~= pattern@.drop_first());
    if pattern[0] == '%' {
        let mut k: usize = 0;
        while k <= m
            invariant
                m == s@.len(),
                k <= m + 1,
                pattern@.len() > 0,
                pattern@[0] == '%',
                rest@ == pattern@.drop_first(),
                forall|j: int| 0 <= j < k ==> !like(rest@, #[trigger] s@.skip(j)),
            decreases m + 1 - k,
        {
            let tail = slice_subrange(s, k, m);
            assert(tail@ =~= s@.skip(k as int));
            if is_like(rest, tail) {
                return true;
            }
            if k == m {
                return false;
            }
            k = k + 1;
        }
        return false;
    }
    if m == 0 || !(pattern[0] == '_' || lower_letter(pattern[0]) == lower_letter(s[0])) {
        return false;
    }
    let tail = slice_subrange(s, 1, m);
    assert(tail@ =~= s@.drop_first());
    is_like(rest, tail)
}

/// A text answers the pattern that is what it begins with and `%`.
pub proof fn law_like_own_prefix(prefix: Seq<char>, rest: Seq<char>)
    ensures
        like(prefix.push('%'), prefix + rest),
    decreases prefix.len(),
{
    let p = prefix.push('%');
    let s = prefix + rest;
    if prefix.len() == 0 {
        assert(p.drop_first() =~= Seq::<char>::empty());
        assert(s.skip(s.len() as int) =~= Seq::<char>::empty());
        assert(like(p.drop_first(), s.skip(s.len() as int)));
    } else {
        assert(p.drop_first() =~= prefix.drop_first().push('%'));
        assert(s.drop_first() =~= prefix.drop_first() + rest);
        law_like_own_prefix(prefix.drop_first(), rest);
        if prefix[0] == '%' {
            assert(s.skip(1) =~= s.drop_first());
            assert(like(p.drop_first(), s.skip(1)));
        }
    }
}

} // verus!
