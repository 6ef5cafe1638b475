//! What the paths of Windows are made of: the parts between separators, the drive before them, the
//! folder of a file, and the path of a file in a folder.

use crate::outside::lower;
use crate::winpath::{
    after_part, body_components, body_start, components, drive_upper, first_part, folder_key,
    is_sep, is_verbatim, joined, last_part, leading_dot, lemma_part_len_is, lemma_stem,
    lemma_without_last_part, name_of, no_trailing_sep, parent, part_component, part_len, prefix_len,
    prefix_of, single_name, splits, starts_here, stem, tidied, trimmed, without_last_part,
    written_root, ComponentView, PrefixView,
};
use vstd::prelude::*;

verus! {

/// The components of a part between separators: an empty one is none, nor is `.`; `..` leads up, and
/// any other part is a name.
pub proof fn law_one_part(part: Seq<char>)
    requires
        !part.contains('\\'),
        !part.contains('/'),
    ensures
        part.len() == 0 ==> body_components(part, false).len() == 0,
        part == seq!['.'] ==> body_components(part, false).len() == 0,
        part == seq!['.', '.'] ==> body_components(part, false) == seq![ComponentView::ParentDir],
        part.len() > 0 && part != seq!['.'] && part != seq!['.', '.'] ==> body_components(
            part,
            false,
        ) == seq![ComponentView::Normal(part)],
{
    if part.len() > 0 {
        assert forall|i: int| 0 <= i < part.len() implies !splits(#[trigger] part[i], false) by {
            assert(part.contains(part[i]));
        }
        lemma_part_len_is(part, false, part.len() as int);
        assert(first_part(part, false) =~= part);
        assert(after_part(part, false) =~= seq![]);
        assert(body_components(after_part(part, false), false) =~= seq![]);
        assert(body_components(part, false) =~= part_component(part, false));
        assert(seq!['.'] != seq!['.', '.']) by {
            assert(seq!['.'].len() != seq!['.', '.'].len());
        }
    }
}

proof fn lemma_part_before(a: Seq<char>, c: char, b: Seq<char>, v: bool)
    requires
        splits(c, v),
    ensures
        ({
            let w = a + seq![c] + b;
            &&& part_len(w, v) == part_len(a, v)
            &&& part_len(a, v) <= a.len()
            &&& first_part(w, v) == first_part(a, v)
            &&& part_len(a, v) < a.len() ==> after_part(w, v) == after_part(a, v) + seq![c] + b
            &&& part_len(a, v) == a.len() ==> after_part(w, v) == b
        }),
    decreases a.len(),
{
    let w = a + seq![c] + b;
    if a.len() == 0 {
        assert(w[0] == c);
        assert(w.skip(1) =~= b);
        assert(w.take(0) =~= a.take(0));
    } else if splits(a[0], v) {
        assert(w[0] == a[0]);
        assert(w.skip(1) =~= a.skip(1) + seq![c] + b);
        assert(w.take(0) =~= a.take(0));
    } else {
        let t = a.drop_first();
        lemma_part_before(t, c, b, v);
        assert(w[0] == a[0]);
        assert(w.drop_first() =~= t + seq![c] + b);
        let k = part_len(a, v) as int;
        assert(w.take(k) =~= a.take(k));
        if k < a.len() {
            assert(w.skip(k + 1) =~= a.skip(k + 1) + seq![c] + b);
        } else {
            assert(w.skip(k + 1) =~= b);
        }
    }
}

/// A separator parts components: what stands before it and what stands after it have theirs, each for
/// itself. After a verbatim prefix that is the backslash alone.
pub proof fn law_separators_part_components(a: Seq<char>, c: char, b: Seq<char>, verbatim: bool)
    requires
        c == '\\' || (c == '/' && !verbatim),
    ensures
        body_components(a + seq![c] + b, verbatim) == body_components(a, verbatim)
            + body_components(b, verbatim),
    decreases a.len(),
{
    let v = verbatim;
    let w = a + seq![c] + b;
    lemma_part_before(a, c, b, v);
    if a.len() == 0 {
        assert(w[0] == c);
        assert(part_component(first_part(w, v), v) =~= seq![]);
        assert(body_components(a, v) =~= seq![]);
        assert(body_components(w, v) =~= body_components(a, v) + body_components(b, v));
    } else if part_len(a, v) < a.len() {
        let x = after_part(a, v);
        law_separators_part_components(x, c, b, v);
        assert(body_components(w, v) =~= body_components(a, v) + body_components(b, v));
    } else {
        assert(after_part(a, v) =~= seq![]);
        assert(body_components(after_part(a, v), v) =~= seq![]);
        assert(body_components(w, v) =~= body_components(a, v) + body_components(b, v));
    }
}

/// A path with a drive and a root: the drive, a backslash, and what follows.
pub open spec fn on_drive_path(letter: char, b: Seq<char>) -> Seq<char> {
    seq![letter, ':', '\\'] + b
}

/// A path that begins with a drive and a root has the drive as its prefix, whatever its case, then the
/// root, and then the components of what follows.
pub proof fn law_path_on_a_drive(letter: char, b: Seq<char>)
    requires
        'a' <= letter <= 'z' || 'A' <= letter <= 'Z',
    ensures
        components(on_drive_path(letter, b)) == seq![
            ComponentView::Prefix(
                PrefixView::Disk(
                    if 'a' <= letter <= 'z' {
                        (letter as u32 - 32) as char
                    } else {
                        letter
                    },
                ),
            ),
            ComponentView::RootDir,
        ] + body_components(b, false),
        body_start(on_drive_path(letter, b)) == 3,
        !is_verbatim(on_drive_path(letter, b)),
        !starts_here(on_drive_path(letter, b)),
        prefix_of(on_drive_path(letter, b)) is Some,
{
    let p = on_drive_path(letter, b);
    assert(p[0] == letter && p[1] == ':' && p[2] == '\\');
    assert(p.skip(3) =~= b);
    assert(components(p) =~= seq![
        ComponentView::Prefix(PrefixView::Disk(drive_upper(letter))),
        ComponentView::RootDir,
    ] + body_components(b, false));
}

proof fn lemma_no_split(part: Seq<char>, v: bool)
    requires
        !part.contains('\\'),
        !part.contains('/'),
    ensures
        part_len(part, v) == part.len(),
        first_part(part, v) == part,
{
    assert forall|i: int| 0 <= i < part.len() implies !splits(#[trigger] part[i], v) by {
        assert(part.contains(part[i]));
    }
    lemma_part_len_is(part, v, part.len() as int);
    assert(first_part(part, v) =~= part);
}

/// A path that begins with two backslashes, a server and a share has these as its prefix, then the
/// root, and then the components of what follows.
pub proof fn law_path_on_a_share(server: Seq<char>, share: Seq<char>, b: Seq<char>)
    requires
        server.len() > 0 && !server.contains('\\') && !server.contains('/'),
        share.len() > 0 && !share.contains('\\') && !share.contains('/'),
        server != seq!['?'] && server != seq!['.'],
    ensures
        components(seq!['\\', '\\'] + (server + seq!['\\'] + (share + seq!['\\'] + b))) == seq![
            ComponentView::Prefix(PrefixView::Unc(server, share)),
            ComponentView::RootDir,
        ] + body_components(b, false),
{
    let t = share + seq!['\\'] + b;
    let u = server + seq!['\\'] + t;
    let p = seq!['\\', '\\'] + u;
    lemma_no_split(server, false);
    lemma_no_split(share, false);
    lemma_part_before(server, '\\', t, false);
    lemma_part_before(share, '\\', b, false);
    assert(p.skip(2) =~= u);
    assert(p[2] == server[0]);
    if server.len() == 1 {
        assert(server =~= seq![server[0]]);
    } else {
        assert(p[3] == server[1]);
        assert(server.contains(server[1]));
    }
    let n = 3 + server.len() as int + share.len() as int;
    assert(prefix_of(p) == Some((PrefixView::Unc(server, share), n)));
    assert(p[n] == u[n - 2]);
    assert(u[n - 2] == t[share.len() as int]);
    assert(p.skip(n + 1) =~= b);
    assert(components(p) =~= seq![
        ComponentView::Prefix(PrefixView::Unc(server, share)),
        ComponentView::RootDir,
    ] + body_components(b, false));
}

/// A verbatim path on a drive: the mark of one, the drive, a backslash, and what follows.
pub open spec fn verbatim_drive_path(letter: char, b: Seq<char>) -> Seq<char> {
    seq!['\\', '\\', '?', '\\', letter, ':', '\\'] + b
}

/// A verbatim path on a drive has that as its prefix, then the root, and then the parts between
/// backslashes alone.
pub proof fn law_verbatim_path_on_a_drive(letter: char, b: Seq<char>)
    requires
        'a' <= letter <= 'z' || 'A' <= letter <= 'Z',
    ensures
        components(verbatim_drive_path(letter, b)) == seq![
            ComponentView::Prefix(
                PrefixView::VerbatimDisk(
                    if 'a' <= letter <= 'z' {
                        (letter as u32 - 32) as char
                    } else {
                        letter
                    },
                ),
            ),
            ComponentView::RootDir,
        ] + body_components(b, true),
        is_verbatim(verbatim_drive_path(letter, b)),
        prefix_len(verbatim_drive_path(letter, b)) == 6,
        body_start(verbatim_drive_path(letter, b)) == 7,
{
    let p = verbatim_drive_path(letter, b);
    assert(p[0] == '\\' && p[1] == '\\' && p[2] == '?' && p[3] == '\\' && p[4] == letter && p[5]
        == ':' && p[6] == '\\');
    let r = p.skip(4);
    assert(r[0] == letter && r[1] == ':' && r[2] == '\\');
    assert(p.skip(7) =~= b);
    assert(components(p) =~= seq![
        ComponentView::Prefix(PrefixView::VerbatimDisk(drive_upper(letter))),
        ComponentView::RootDir,
    ] + body_components(b, true));
}

proof fn lemma_tidied_components(b: Seq<char>, name: Seq<char>)
    ensures
        body_components(tidied(b) + name, true) == body_components(b, true) + body_components(
            name,
            true,
        ),
    decreases b.len(),
{
    if b.len() == 0 {
        assert(tidied(b) + name =~= name);
        assert(body_components(b, true) =~= seq![]);
        assert(body_components(b, true) + body_components(name, true) =~= body_components(
            name,
            true,
        ));
    } else {
        let f = first_part(b, true);
        let rest = after_part(b, true);
        lemma_part_stays(b);
        lemma_tidied_components(rest, name);
        if f.len() > 0 {
            assert(tidied(b) + name =~= f + seq!['\\'] + (tidied(rest) + name));
            law_separators_part_components(f, '\\', tidied(rest) + name, true);
            assert(body_components(f, true) =~= part_component(f, true));
            assert(body_components(tidied(b) + name, true) =~= body_components(b, true)
                + body_components(name, true));
        } else {
            assert(tidied(b) =~= tidied(rest));
            assert(body_components(tidied(b) + name, true) =~= body_components(b, true)
                + body_components(name, true));
        }
    }
}

proof fn lemma_part_stays(b: Seq<char>)
    requires
        b.len() > 0,
    ensures
        first_part(b, true).len() <= b.len(),
        after_part(b, true).len() < b.len(),
        first_part(b, true).len() > 0 ==> body_components(first_part(b, true), true)
            == part_component(first_part(b, true), true),
{
    lemma_stop(b);
    let f = first_part(b, true);
    if f.len() > 0 {
        assert forall|i: int| 0 <= i < f.len() implies !splits(#[trigger] f[i], true) by {
            assert(f[i] == b[i]);
        }
        lemma_part_len_is(f, true, f.len() as int);
        assert(first_part(f, true) =~= f);
        assert(after_part(f, true) =~= seq![]);
        assert(body_components(after_part(f, true), true) =~= seq![]);
        assert(body_components(f, true) =~= part_component(f, true));
    }
}

proof fn lemma_stop(p: Seq<char>)
    ensures
        part_len(p, true) <= p.len(),
        forall|i: int| 0 <= i < part_len(p, true) ==> !splits(#[trigger] p[i], true),
    decreases p.len(),
{
    if p.len() > 0 && !splits(p[0], true) {
        let rest = p.drop_first();
        lemma_stop(rest);
        assert forall|i: int| 0 <= i < part_len(p, true) implies !splits(#[trigger] p[i], true) by {
            if i > 0 {
                assert(rest[i - 1] == p[i]);
            }
        }
    }
}

/// The path of a file in a verbatim folder on a drive has the components of the folder and, last, the
/// name, with one backslash between any two.
pub proof fn law_path_in_a_verbatim_folder(letter: char, b: Seq<char>, name: Seq<char>)
    requires
        'a' <= letter <= 'z' || 'A' <= letter <= 'Z',
        single_name(name),
    ensures
        components(joined(verbatim_drive_path(letter, b), name)) == components(
            verbatim_drive_path(letter, b),
        ).push(ComponentView::Normal(name)),
{
    let d = verbatim_drive_path(letter, b);
    law_verbatim_path_on_a_drive(letter, b);
    lemma_stem(d, name);
    let t = tidied(b);
    assert(d.skip(7) =~= b);
    assert(joined(d, name) =~= verbatim_drive_path(letter, t + name));
    law_verbatim_path_on_a_drive(letter, t + name);
    lemma_tidied_components(b, name);
    lemma_name_part(name);
    assert forall|i: int| 0 <= i < name.len() implies !splits(#[trigger] name[i], true) by {
        assert(!is_sep(name[i]));
    }
    lemma_part_len_is(name, true, name.len() as int);
    assert(first_part(name, true) =~= name);
    assert(after_part(name, true) =~= seq![]);
    assert(body_components(after_part(name, true), true) =~= seq![]);
    assert(name != seq!['.']) by {
        if name == seq!['.'] {
            assert(part_component(name, false).len() == 0);
        }
    }
    assert(name != seq!['.', '.']) by {
        if name == seq!['.', '.'] {
            lemma_name_alone(name);
            law_one_part(name);
            assert(seq![ComponentView::Normal(name)][0] == seq![ComponentView::ParentDir][0]);
        }
    }
    assert(body_components(name, true) =~= seq![ComponentView::Normal(name)]);
    assert(components(joined(d, name)) =~= components(d).push(ComponentView::Normal(name)));
}

/// A path that begins with a separator, but with one only, has a root and no prefix.
pub proof fn law_path_from_the_root(c: char, b: Seq<char>)
    requires
        c == '\\' || c == '/',
        b.len() > 0 ==> b[0] != '\\' && b[0] != '/',
    ensures
        components(seq![c] + b) == seq![ComponentView::RootDir] + body_components(b, false),
        prefix_of(seq![c] + b) is None,
{
    let p = seq![c] + b;
    if b.len() > 0 {
        assert(p[1] == b[0]);
    }
    assert(prefix_of(p) is None);
    assert(p.skip(1) =~= b);
    assert(components(p) =~= seq![ComponentView::RootDir] + body_components(b, false));
}

/// A path without a prefix and a root, and not beginning with a lone dot, has the components of its
/// parts.
pub proof fn law_relative_path(p: Seq<char>)
    requires
        p.len() > 0,
        p[0] != '\\' && p[0] != '/' && p[0] != '.',
        p.len() >= 2 ==> p[1] != ':',
    ensures
        components(p) == body_components(p, false),
{
    assert(prefix_of(p) is None);
    assert(p.skip(0) =~= p);
    assert(components(p) =~= body_components(p, false));
}

proof fn lemma_last(b: Seq<char>, name: Seq<char>)
    requires
        forall|i: int| 0 <= i < name.len() ==> !is_sep(#[trigger] name[i]),
    ensures
        without_last_part(b + seq!['\\'] + name, false) == b,
        last_part(b + seq!['\\'] + name, false) == name,
    decreases name.len(),
{
    let w = b + seq!['\\'] + name;
    if name.len() == 0 {
        assert(w.last() == '\\');
        assert(w.drop_last() =~= b);
        assert(name =~= seq![]);
    } else {
        let init = name.drop_last();
        assert(w.last() == name.last());
        assert(!is_sep(name[name.len() - 1]));
        assert(w.drop_last() =~= b + seq!['\\'] + init);
        assert forall|i: int| 0 <= i < init.len() implies !is_sep(#[trigger] init[i]) by {
            assert(init[i] == name[i]);
        }
        lemma_last(b, init);
        assert(init.push(name.last()) =~= name);
    }
}

proof fn lemma_whole(b: Seq<char>)
    ensures
        b == without_last_part(b, false) + (if without_last_part(b, false).len() + last_part(
            b,
            false,
        ).len() < b.len() {
            seq![b[without_last_part(b, false).len() as int]]
        } else {
            seq![]
        }) + last_part(b, false),
        without_last_part(b, false).len() + last_part(b, false).len() < b.len() ==> is_sep(
            b[without_last_part(b, false).len() as int],
        ) && without_last_part(b, false).len() + last_part(b, false).len() + 1 == b.len(),
        without_last_part(b, false).len() + last_part(b, false).len() == b.len()
            ==> without_last_part(b, false).len() == 0,
        !last_part(b, false).contains('\\') && !last_part(b, false).contains('/'),
    decreases b.len(),
{
    if b.len() > 0 {
        let init = b.drop_last();
        let c = b.last();
        if splits(c, false) {
            assert(last_part(b, false) =~= seq![]);
            assert(b =~= init + seq![c] + last_part(b, false));
        } else {
            lemma_whole(init);
            let l = last_part(init, false);
            let w = without_last_part(b, false);
            assert forall|i: int| 0 <= i < l.push(c).len() implies l.push(c)[i] != '\\' && l.push(
                c,
            )[i] != '/' by {
                if i < l.len() {
                    assert(l.contains(l[i]));
                }
            }
            if w.len() + l.len() < init.len() {
                let m = seq![init[w.len() as int]];
                assert(b[w.len() as int] == init[w.len() as int]);
                assert(init == w + m + l);
                assert(b =~= init.push(c));
                assert((w + m + l).push(c) =~= w + m + l.push(c));
            } else {
                let m = Seq::<char>::empty();
                assert(init == w + m + l);
                assert(b =~= init.push(c));
                assert((w + m + l).push(c) =~= w + m + l.push(c));
            }
        }
    } else {
        assert(b =~= without_last_part(b, false) + seq![] + last_part(b, false));
    }
}

proof fn lemma_trimmed_components(b: Seq<char>)
    ensures
        body_components(trimmed(b, false), false) == body_components(b, false),
    decreases b.len(),
{
    let l = last_part(b, false);
    if b.len() > 0 && part_component(l, false).len() == 0 {
        lemma_without_last_part(b, false);
        let w = without_last_part(b, false);
        lemma_trimmed_components(w);
        lemma_whole(b);
        law_one_part(l);
        assert(body_components(l, false) =~= seq![]);
        if w.len() + l.len() < b.len() {
            let c = b[w.len() as int];
            law_separators_part_components(w, c, l, false);
            assert(body_components(b, false) =~= body_components(w, false));
        } else {
            assert(b =~= l);
            assert(w =~= seq![]);
            assert(body_components(w, false) =~= seq![]);
        }
    }
}

/// A file on a drive has its name as the last component, and its folder has all components before:
/// doubled separators and dots between them do not matter.
pub proof fn law_file_in_its_folder(letter: char, b: Seq<char>, name: Seq<char>)
    requires
        'a' <= letter <= 'z' || 'A' <= letter <= 'Z',
        single_name(name),
    ensures
        ({
            let p = on_drive_path(letter, b + seq!['\\'] + name);
            let d = on_drive_path(letter, b);
            &&& name_of(p) == Some(name)
            &&& components(p) == components(d).push(ComponentView::Normal(name))
            &&& parent(p) matches Some(x) && components(x) == components(d)
        }),
{
    let body = b + seq!['\\'] + name;
    let p = on_drive_path(letter, body);
    let d = on_drive_path(letter, b);
    law_path_on_a_drive(letter, body);
    law_path_on_a_drive(letter, b);
    law_separators_part_components(b, '\\', name, false);
    lemma_name_alone(name);
    assert(components(p) =~= components(d).push(ComponentView::Normal(name)));
    lemma_last(b, name);
    assert(p.skip(3) =~= body);
    assert(part_component(name, false).len() > 0) by {
        lemma_name_part(name);
    }
    assert(trimmed(body, false) == body);
    let x = trimmed(b, false);
    assert(p.take(3) =~= seq![letter, ':', '\\']);
    assert(parent(p) == Some(on_drive_path(letter, x)));
    law_path_on_a_drive(letter, x);
    lemma_trimmed_components(b);
}

proof fn lemma_name_part(name: Seq<char>)
    requires
        single_name(name),
    ensures
        part_component(name, false).len() > 0,
        name.len() > 0,
{
    assert(components(name).len() == 1);
    if name.len() == 0 {
        assert(name.skip(0) =~= name);
        assert(components(name) =~= seq![]);
    } else {
        assert(!is_sep(name[0]));
        assert(components(name)[0] == ComponentView::Normal(name));
        if name == seq!['.'] {
            assert(name[0] == '.' && name.len() == 1);
            assert(prefix_of(name) is None);
            assert(starts_here(name));
            assert(components(name)[0] is CurDir);
        }
    }
}

proof fn lemma_name_alone(name: Seq<char>)
    requires
        single_name(name),
    ensures
        body_components(name, false) == seq![ComponentView::Normal(name)],
{
    lemma_name_part(name);
    assert(!is_sep(name[0]));
    assert(components(name)[0] == ComponentView::Normal(name));
    assert(prefix_of(name) is None) by {
        if prefix_of(name) is Some {
            assert(components(name)[0] is Prefix);
        }
    }
    assert(!written_root(name));
    assert(!leading_dot(name)) by {
        if leading_dot(name) {
            assert(components(name)[0] is CurDir);
        }
    }
    assert(name.skip(0) =~= name);
    assert(components(name) =~= body_components(name, false));
}

/// The path of a file in a folder on a drive has the components of the folder and, last, the name.
pub proof fn law_path_in_a_folder(letter: char, b: Seq<char>, name: Seq<char>)
    requires
        'a' <= letter <= 'z' || 'A' <= letter <= 'Z',
        single_name(name),
    ensures
        components(joined(on_drive_path(letter, b), name)) == components(
            on_drive_path(letter, b),
        ).push(ComponentView::Normal(name)),
{
    let d = on_drive_path(letter, b);
    law_path_on_a_drive(letter, b);
    lemma_stem(d, name);
    lemma_name_alone(name);
    let p = joined(d, name);
    if stem(d) == d {
        assert(p =~= on_drive_path(letter, b + name));
        law_path_on_a_drive(letter, b + name);
        if b.len() == 0 {
            assert(b + name =~= name);
            assert(body_components(b, false) =~= seq![]);
            assert(components(p) =~= components(d).push(ComponentView::Normal(name)));
        } else {
            let c = b.last();
            assert(d.last() == c);
            assert(is_sep(c));
            let a = b.drop_last();
            assert(b + name =~= a + seq![c] + name);
            assert(b =~= a + seq![c] + Seq::<char>::empty());
            law_separators_part_components(a, c, name, false);
            law_separators_part_components(a, c, Seq::<char>::empty(), false);
            assert(body_components(Seq::<char>::empty(), false) =~= seq![]);
            assert(components(p) =~= components(d).push(ComponentView::Normal(name)));
        }
    } else {
        assert(p =~= on_drive_path(letter, b + seq!['\\'] + name));
        law_path_on_a_drive(letter, b + seq!['\\'] + name);
        law_separators_part_components(b, '\\', name, false);
        assert(components(p) =~= components(d).push(ComponentView::Normal(name)));
    }
}

/// A folder is compared without the separators at its end, and otherwise as it is.
pub proof fn law_separators_at_the_end(s: Seq<char>)
    ensures
        no_trailing_sep(s).len() <= s.len(),
        no_trailing_sep(s) == s.take(no_trailing_sep(s).len() as int),
        forall|i: int|
            no_trailing_sep(s).len() <= i < s.len() ==> #[trigger] s[i] == '\\' || s[i] == '/',
        no_trailing_sep(s).len() > 0 ==> no_trailing_sep(s).last() != '\\' && no_trailing_sep(
            s,
        ).last() != '/',
    decreases s.len(),
{
    if s.len() > 0 && is_sep(s.last()) {
        let init = s.drop_last();
        law_separators_at_the_end(init);
        let n = no_trailing_sep(s).len() as int;
        assert(init.take(n) =~= s.take(n));
        assert forall|i: int| n <= i < s.len() implies #[trigger] s[i] == '\\' || s[i] == '/' by {
            if i < init.len() {
                assert(s[i] == init[i]);
            }
        }
    } else {
        assert(s.take(s.len() as int) =~= s);
    }
}

/// Two files are taken to be in one folder where their folders, in lower case and without separators
/// at the end, are the same text, or neither is in one.
pub proof fn law_folder_is_compared(p: Seq<char>, q: Seq<char>)
    ensures
        folder_key(p) == folder_key(q) <==> match (parent(p), parent(q)) {
            (Some(a), Some(b)) => no_trailing_sep(lower(a)) == no_trailing_sep(lower(b)),
            (None, None) => true,
            _ => false,
        },
{
}

/// The name of a file is its last component, where that is a name.
pub proof fn law_name_is_the_last_component(p: Seq<char>, n: Seq<char>)
    ensures
        name_of(p) == Some(n) <==> components(p).len() > 0 && components(p)[components(p).len() - 1]
            == ComponentView::Normal(n),
{
}

} // verus!
