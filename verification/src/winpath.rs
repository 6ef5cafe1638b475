//! Windows paths as texts: prefixes, components, and what is built on them.
//!
//! The program runs on Windows, and its records hold Windows paths. The grammar is fixed here, so
//! that a path means the same wherever the code runs.

use crate::outside::{ascii, ascii_lower, lower, to_lower};
use crate::text::{
    chars_of, join, join_strings, lemma_join_push, push_text, same_chars, same_text, string_of,
    texts,
};
use vstd::prelude::*;

verus! {

/// What a path begins with before its root: a drive, a share, a device, or a verbatim form.
#[derive(Debug)]
pub enum Prefix {
    /// `\\?\name`
    Verbatim(Vec<char>),
    /// `\\?\UNC\server\share`
    VerbatimUnc(Vec<char>, Vec<char>),
    /// `\\?\C:`
    VerbatimDisk(char),
    /// `\\.\name`
    Device(Vec<char>),
    /// `\\server\share`
    Unc(Vec<char>, Vec<char>),
    /// `C:`
    Disk(char),
}

/// The view of a [`Prefix`].
pub enum PrefixView {
    Verbatim(Seq<char>),
    VerbatimUnc(Seq<char>, Seq<char>),
    VerbatimDisk(char),
    Device(Seq<char>),
    Unc(Seq<char>, Seq<char>),
    Disk(char),
}

impl View for Prefix {
    type V = PrefixView;

    open spec fn view(&self) -> PrefixView {
        match self {
            Prefix::Verbatim(a) => PrefixView::Verbatim(a@),
            Prefix::VerbatimUnc(a, b) => PrefixView::VerbatimUnc(a@, b@),
            Prefix::VerbatimDisk(c) => PrefixView::VerbatimDisk(*c),
            Prefix::Device(a) => PrefixView::Device(a@),
            Prefix::Unc(a, b) => PrefixView::Unc(a@, b@),
            Prefix::Disk(c) => PrefixView::Disk(*c),
        }
    }
}

/// One component of a path.
#[derive(Debug)]
pub enum Component {
    Prefix(Prefix),
    RootDir,
    CurDir,
    ParentDir,
    Normal(Vec<char>),
}

/// The view of a [`Component`].
pub enum ComponentView {
    Prefix(PrefixView),
    RootDir,
    CurDir,
    ParentDir,
    Normal(Seq<char>),
}

impl View for Component {
    type V = ComponentView;

    open spec fn view(&self) -> ComponentView {
        match self {
            Component::Prefix(p) => ComponentView::Prefix(p@),
            Component::RootDir => ComponentView::RootDir,
            Component::CurDir => ComponentView::CurDir,
            Component::ParentDir => ComponentView::ParentDir,
            Component::Normal(a) => ComponentView::Normal(a@),
        }
    }
}

/// The views of components.
pub open spec fn parts(v: Seq<Component>) -> Seq<ComponentView> {
    v.map_values(|c: Component| c@)
}

/// A separator.
pub open spec fn is_sep(c: char) -> bool {
    c == '\\' || c == '/'
}

/// What separates components: after a verbatim prefix the backslash alone.
pub open spec fn splits(c: char, verbatim: bool) -> bool {
    c == '\\' || (!verbatim && c == '/')
}

/// How many characters of `p` come before its first separator.
pub open spec fn part_len(p: Seq<char>, verbatim: bool) -> nat
    decreases p.len(),
{
    if p.len() == 0 || splits(p[0], verbatim) {
        0
    } else {
        1 + part_len(p.drop_first(), verbatim)
    }
}

/// What comes before the first separator of `p`.
pub open spec fn first_part(p: Seq<char>, verbatim: bool) -> Seq<char> {
    p.take(part_len(p, verbatim) as int)
}

/// What comes after the first separator of `p`.
pub open spec fn after_part(p: Seq<char>, verbatim: bool) -> Seq<char> {
    if part_len(p, verbatim) < p.len() {
        p.skip(part_len(p, verbatim) as int + 1)
    } else {
        seq![]
    }
}

/// A letter that can name a drive.
pub open spec fn drive_letter(c: char) -> bool {
    'a' <= c <= 'z' || 'A' <= c <= 'Z'
}

/// A drive letter as it is compared.
pub open spec fn drive_upper(c: char) -> char {
    if 'a' <= c <= 'z' {
        (c as u32 - 32) as char
    } else {
        c
    }
}

/// The prefix of `p`, if it has one, and how many characters it takes.
pub open spec fn prefix_of(p: Seq<char>) -> Option<(PrefixView, int)> {
    if p.len() >= 2 && is_sep(p[0]) && is_sep(p[1]) {
        if p.len() >= 4 && p[0] == '\\' && p[1] == '\\' && p[2] == '?' && p[3] == '\\' {
            let r = p.skip(4);
            if r.len() >= 4 && r[0] == 'U' && r[1] == 'N' && r[2] == 'C' && is_sep(r[3]) {
                let server = first_part(p.skip(8), true);
                let share = first_part(after_part(p.skip(8), true), true);
                Some(
                    (
                        PrefixView::VerbatimUnc(server, share),
                        8 + server.len() + if share.len() > 0 {
                            1 + share.len() as int
                        } else {
                            0
                        },
                    ),
                )
            } else if r.len() >= 2 && drive_letter(r[0]) && r[1] == ':' && (r.len() == 2 || is_sep(
                r[2],
            )) {
                Some((PrefixView::VerbatimDisk(drive_upper(r[0])), 6))
            } else {
                Some((PrefixView::Verbatim(first_part(r, true)), 4 + first_part(r, true).len() as int))
            }
        } else if p.len() >= 4 && p[2] == '.' && is_sep(p[3]) {
            let name = first_part(p.skip(4), false);
            Some((PrefixView::Device(name), 4 + name.len() as int))
        } else {
            let server = first_part(p.skip(2), false);
            let share = first_part(after_part(p.skip(2), false), false);
            if server.len() > 0 && share.len() > 0 {
                Some((PrefixView::Unc(server, share), 3 + server.len() as int + share.len() as int))
            } else {
                None
            }
        }
    } else if p.len() >= 2 && drive_letter(p[0]) && p[1] == ':' {
        Some((PrefixView::Disk(drive_upper(p[0])), 2))
    } else {
        None
    }
}

/// How many characters the prefix of `p` takes.
pub open spec fn prefix_len(p: Seq<char>) -> int {
    match prefix_of(p) {
        Some(x) => x.1,
        None => 0,
    }
}

/// Whether `p` has a verbatim prefix.
pub open spec fn is_verbatim(p: Seq<char>) -> bool {
    match prefix_of(p) {
        Some(x) => x.0 is Verbatim || x.0 is VerbatimUnc || x.0 is VerbatimDisk,
        None => false,
    }
}

/// Whether a separator follows the prefix of `p`.
pub open spec fn written_root(p: Seq<char>) -> bool {
    prefix_len(p) < p.len() && is_sep(p[prefix_len(p)])
}

/// Whether `p` starts at a root: a written one, or the one that every prefix but a drive implies.
pub open spec fn has_root(p: Seq<char>) -> bool {
    written_root(p) || (prefix_of(p) matches Some(x) && !(x.0 is Disk))
}

/// Whether `p` says which file it means wherever it is read: a prefix and a root.
pub open spec fn absolute(p: Seq<char>) -> bool {
    prefix_of(p) is Some && has_root(p)
}

/// Whether, without a root, a lone dot follows the prefix of `p`.
pub open spec fn leading_dot(p: Seq<char>) -> bool {
    let n = prefix_len(p);
    !has_root(p) && n < p.len() && p[n] == '.' && (n + 1 == p.len() || is_sep(p[n + 1]))
}

/// Whether `p`, without a prefix or a root, begins with the component `.`.
pub open spec fn starts_here(p: Seq<char>) -> bool {
    prefix_of(p) is None && leading_dot(p)
}

/// How many characters come before the components of `p` that follow its root.
pub open spec fn body_start(p: Seq<char>) -> int {
    prefix_len(p) + if written_root(p) || leading_dot(p) {
        1int
    } else {
        0
    }
}

/// The component that a part between separators is, if it is one.
pub open spec fn part_component(part: Seq<char>, verbatim: bool) -> Seq<ComponentView> {
    if part.len() == 0 {
        seq![]
    } else if part == seq!['.'] {
        if verbatim {
            seq![ComponentView::CurDir]
        } else {
            seq![]
        }
    } else if part == seq!['.', '.'] {
        seq![ComponentView::ParentDir]
    } else {
        seq![ComponentView::Normal(part)]
    }
}

/// The components in `b`.
pub open spec fn body_components(b: Seq<char>, verbatim: bool) -> Seq<ComponentView>
    decreases b.len(),
{
    if b.len() == 0 {
        seq![]
    } else {
        part_component(first_part(b, verbatim), verbatim) + body_components(
            after_part(b, verbatim),
            verbatim,
        )
    }
}

/// The components of `p` up to its root, or the `.` that it begins with.
pub open spec fn head_components(p: Seq<char>) -> Seq<ComponentView> {
    (match prefix_of(p) {
        Some(x) => seq![ComponentView::Prefix(x.0)],
        None => seq![],
    }) + (if written_root(p) || (has_root(p) && !is_verbatim(p)) {
        seq![ComponentView::RootDir]
    } else if starts_here(p) {
        seq![ComponentView::CurDir]
    } else {
        seq![]
    })
}

/// The components of the path `p`.
pub open spec fn components(p: Seq<char>) -> Seq<ComponentView> {
    head_components(p) + body_components(p.skip(body_start(p)), is_verbatim(p))
}

proof fn lemma_part_len(p: Seq<char>, verbatim: bool)
    ensures
        part_len(p, verbatim) <= p.len(),
    decreases p.len(),
{
    if p.len() > 0 && !splits(p[0], verbatim) {
        lemma_part_len(p.drop_first(), verbatim);
    }
}

pub proof fn lemma_part_len_is(p: Seq<char>, verbatim: bool, k: int)
    requires
        0 <= k <= p.len(),
        forall|i: int| 0 <= i < k ==> !splits(#[trigger] p[i], verbatim),
        k < p.len() ==> splits(p[k], verbatim),
    ensures
        part_len(p, verbatim) == k,
    decreases p.len(),
{
    if k > 0 {
        assert(!splits(p[0], verbatim));
        assert forall|i: int| 0 <= i < k - 1 implies !splits(
            #[trigger] p.drop_first()[i],
            verbatim,
        ) by {
            assert(p.drop_first()[i] == p[i + 1]);
        }
        lemma_part_len_is(p.drop_first(), verbatim, k - 1);
    }
}

pub proof fn lemma_prefix_len(p: Seq<char>)
    ensures
        0 <= prefix_len(p) <= p.len(),
        0 <= body_start(p) <= p.len(),
{
    if p.len() >= 4 {
        lemma_part_len(p.skip(4), true);
        lemma_part_len(p.skip(4), false);
    }
    if p.len() >= 2 {
        lemma_part_len(p.skip(2), false);
        lemma_part_len(after_part(p.skip(2), false), false);
    }
    if p.len() >= 8 {
        lemma_part_len(p.skip(8), true);
        lemma_part_len(after_part(p.skip(8), true), true);
    }
}

/// Whether `c` is a separator.
pub fn sep_char(c: char) -> (r: bool)
    ensures
        r == is_sep(c),
{
    c == '\\' || c == '/'
}

/// Where the part of `cs` that begins at `at` ends.
fn part_end(cs: &[char], at: usize, verbatim: bool) -> (r: usize)
    requires
        at <= cs@.len(),
    ensures
        at <= r <= cs@.len(),
        r - at == part_len(cs@.skip(at as int), verbatim),
{
    let n: usize = cs.len();
    let mut i: usize = at;
    while i < n && !(cs[i] == '\\' || (!verbatim && cs[i] == '/'))
        invariant
            n == cs@.len(),
            at <= i <= n,
            forall|j: int| at <= j < i ==> !splits(#[trigger] cs@[j], verbatim),
        decreases n - i,
    {
        i = i + 1;
    }
    proof {
        let p = cs@.skip(at as int);
        assert forall|j: int| 0 <= j < i - at implies !splits(#[trigger] p[j], verbatim) by {
            assert(p[j] == cs@[at + j]);
        }
        lemma_part_len_is(p, verbatim, i - at);
    }
    i
}

fn sub_chars(cs: &[char], from: usize, to: usize) -> (r: Vec<char>)
    requires
        from <= to <= cs@.len(),
    ensures
        r@ == cs@.subrange(from as int, to as int),
{
    let mut out: Vec<char> = Vec::new();
    let mut i: usize = from;
    while i < to
        invariant
            from <= i <= to <= cs@.len(),
            out@ == cs@.subrange(from as int, i as int),
        decreases to - i,
    {
        out.push(cs[i]);
        i = i + 1;
    }
    out
}

fn upper_letter(c: char) -> (r: char)
    requires
        drive_letter(c),
    ensures
        r == drive_upper(c),
{
    if 'a' <= c && c <= 'z' {
        ((c as u8) - 32) as char
    } else {
        c
    }
}

fn is_drive_letter(c: char) -> (r: bool)
    ensures
        r == drive_letter(c),
{
    ('a' <= c && c <= 'z') || ('A' <= c && c <= 'Z')
}

/// The part of `cs` that begins at `at`, the part after it, and where each of them ends.
fn two_parts(cs: &[char], at: usize, verbatim: bool) -> (r: (Vec<char>, Vec<char>))
    requires
        at <= cs@.len(),
    ensures
        r.0@ == first_part(cs@.skip(at as int), verbatim),
        r.1@ == first_part(after_part(cs@.skip(at as int), verbatim), verbatim),
{
    let n: usize = cs.len();
    let end: usize = part_end(cs, at, verbatim);
    let a = sub_chars(cs, at, end);
    let ghost p = cs@.skip(at as int);
    assert(a@ =~= first_part(p, verbatim));
    let b = if end < n {
        let end2: usize = part_end(cs, end + 1, verbatim);
        assert(cs@.skip(end + 1) =~= after_part(p, verbatim));
        let b = sub_chars(cs, end + 1, end2);
        assert(b@ =~= first_part(after_part(p, verbatim), verbatim));
        b
    } else {
        let b: Vec<char> = Vec::new();
        assert(b@ =~= first_part(after_part(p, verbatim), verbatim));
        b
    };
    (a, b)
}

/// The prefix of `cs` and how many characters it takes.
pub fn parse_prefix(cs: &[char]) -> (r: Option<(Prefix, usize)>)
    ensures
        match r {
            Some(x) => prefix_of(cs@) == Some((x.0@, x.1 as int)),
            None => prefix_of(cs@) is None,
        },
{
    let n: usize = cs.len();
    proof {
        lemma_prefix_len(cs@);
    }
    if n >= 2 && sep_char(cs[0]) && sep_char(cs[1]) {
        if n >= 4 && cs[0] == '\\' && cs[1] == '\\' && cs[2] == '?' && cs[3] == '\\' {
            if n >= 8 && cs[4] == 'U' && cs[5] == 'N' && cs[6] == 'C' && sep_char(cs[7]) {
                let (server, share) = two_parts(cs, 8, true);
                let len: usize = if share.len() > 0 {
                    8 + server.len() + 1 + share.len()
                } else {
                    8 + server.len()
                };
                Some((Prefix::VerbatimUnc(server, share), len))
            } else if n >= 6 && is_drive_letter(cs[4]) && cs[5] == ':' && (n == 6 || sep_char(
                cs[6],
            )) {
                Some((Prefix::VerbatimDisk(upper_letter(cs[4])), 6))
            } else {
                let end: usize = part_end(cs, 4, true);
                let name = sub_chars(cs, 4, end);
                assert(name@ =~= first_part(cs@.skip(4), true));
                Some((Prefix::Verbatim(name), end))
            }
        } else if n >= 4 && cs[2] == '.' && sep_char(cs[3]) {
            let end: usize = part_end(cs, 4, false);
            let name = sub_chars(cs, 4, end);
            assert(name@ =~= first_part(cs@.skip(4), false));
            Some((Prefix::Device(name), end))
        } else {
            let (server, share) = two_parts(cs, 2, false);
            if server.len() > 0 && share.len() > 0 {
                let len: usize = 3 + server.len() + share.len();
                Some((Prefix::Unc(server, share), len))
            } else {
                None
            }
        }
    } else if n >= 2 && is_drive_letter(cs[0]) && cs[1] == ':' {
        Some((Prefix::Disk(upper_letter(cs[0])), 2))
    } else {
        None
    }
}

/// What a path is made of before its body.
pub struct Head {
    pub prefix: Option<Prefix>,
    pub verbatim: bool,
    pub prefix_len: usize,
    pub written_root: bool,
    pub rooted: bool,
    pub here: bool,
    pub body: usize,
}

impl Head {
    /// It describes `p`.
    pub open spec fn of(&self, p: Seq<char>) -> bool {
        &&& match self.prefix {
            Some(x) => prefix_of(p) matches Some(y) && y.0 == x@,
            None => prefix_of(p) is None,
        }
        &&& self.verbatim == is_verbatim(p)
        &&& self.prefix_len == prefix_len(p)
        &&& self.written_root == written_root(p)
        &&& self.rooted == has_root(p)
        &&& self.here == starts_here(p)
        &&& self.body == body_start(p)
        &&& self.prefix_len <= p.len()
        &&& self.body <= p.len()
    }
}

/// What `cs` is made of before its body.
pub fn parse_head(cs: &[char]) -> (r: Head)
    ensures
        r.of(cs@),
{
    let n: usize = cs.len();
    proof {
        lemma_prefix_len(cs@);
    }
    match parse_prefix(cs) {
        Some((prefix, len)) => {
            let verbatim: bool = match &prefix {
                Prefix::Verbatim(_) | Prefix::VerbatimUnc(_, _) | Prefix::VerbatimDisk(_) => true,
                _ => false,
            };
            let disk: bool = match &prefix {
                Prefix::Disk(_) => true,
                _ => false,
            };
            let written_root: bool = len < n && sep_char(cs[len]);
            let rooted: bool = written_root || !disk;
            let dot: bool = !rooted && len < n && cs[len] == '.' && (len + 1 == n || sep_char(
                cs[len + 1],
            ));
            let body: usize = if written_root || dot {
                len + 1
            } else {
                len
            };
            Head {
                prefix: Some(prefix),
                verbatim,
                prefix_len: len,
                written_root,
                rooted,
                here: false,
                body,
            }
        },
        None => {
            let written_root: bool = n > 0 && sep_char(cs[0]);
            let here: bool = !written_root && n > 0 && cs[0] == '.' && (n == 1 || sep_char(cs[1]));
            let body: usize = if written_root || here {
                1
            } else {
                0
            };
            Head {
                prefix: None,
                verbatim: false,
                prefix_len: 0,
                written_root,
                rooted: written_root,
                here,
                body,
            }
        },
    }
}

/// The components of `p`.
pub fn path_components(p: &str) -> (r: Vec<Component>)
    ensures
        parts(r@) == components(p@),
{
    let cs = chars_of(p);
    let head = parse_head(&cs);
    let n: usize = cs.len();
    let mut out: Vec<Component> = Vec::new();
    let verbatim: bool = head.verbatim;
    if let Some(prefix) = head.prefix {
        out.push(Component::Prefix(prefix));
    }
    if head.written_root || (head.rooted && !verbatim) {
        out.push(Component::RootDir);
    } else if head.here {
        out.push(Component::CurDir);
    }
    assert(parts(out@) =~= head_components(cs@));
    let mut at: usize = head.body;
    while at < n
        invariant
            n == cs@.len(),
            at <= n,
            verbatim == is_verbatim(cs@),
            parts(out@) + body_components(cs@.skip(at as int), verbatim) == components(cs@),
        decreases n - at,
    {
        let ghost b = cs@.skip(at as int);
        let ghost before = out@;
        let end: usize = part_end(&cs, at, verbatim);
        let part = sub_chars(&cs, at, end);
        assert(part@ =~= first_part(b, verbatim));
        let ghost p1 = part@;
        if part.len() == 0 {
        } else if part.len() == 1 && part[0] == '.' {
            assert(part@ =~= seq!['.']);
            if verbatim {
                out.push(Component::CurDir);
            }
        } else if part.len() == 2 && part[0] == '.' && part[1] == '.' {
            assert(part@ =~= seq!['.', '.']);
            out.push(Component::ParentDir);
        } else {
            assert(part@ != seq!['.']);
            assert(part@ != seq!['.', '.']);
            out.push(Component::Normal(part));
        }
        proof {
            assert(parts(out@) =~= parts(before) + part_component(p1, verbatim));
            let next = if end < n { end + 1 } else { n as int };
            assert(cs@.skip(next) =~= after_part(b, verbatim));
            assert(parts(before) + (part_component(p1, verbatim) + body_components(
                cs@.skip(next),
                verbatim,
            )) =~= parts(out@) + body_components(cs@.skip(next), verbatim));
        }
        at = if end < n {
            end + 1
        } else {
            n
        };
    }
    assert(cs@.skip(n as int) =~= seq![]);
    assert(parts(out@) + body_components(seq![], verbatim) =~= parts(out@));
    out
}

fn same_prefix(a: &Prefix, b: &Prefix) -> (r: bool)
    ensures
        r == (a@ == b@),
{
    match (a, b) {
        (Prefix::Verbatim(x), Prefix::Verbatim(y)) => same_chars(x, y),
        (Prefix::VerbatimUnc(x, u), Prefix::VerbatimUnc(y, v)) => same_chars(x, y) && same_chars(
            u,
            v,
        ),
        (Prefix::VerbatimDisk(x), Prefix::VerbatimDisk(y)) => *x == *y,
        (Prefix::Device(x), Prefix::Device(y)) => same_chars(x, y),
        (Prefix::Unc(x, u), Prefix::Unc(y, v)) => same_chars(x, y) && same_chars(u, v),
        (Prefix::Disk(x), Prefix::Disk(y)) => *x == *y,
        _ => false,
    }
}

fn same_component(a: &Component, b: &Component) -> (r: bool)
    ensures
        r == (a@ == b@),
{
    match (a, b) {
        (Component::Prefix(x), Component::Prefix(y)) => same_prefix(x, y),
        (Component::RootDir, Component::RootDir) => true,
        (Component::CurDir, Component::CurDir) => true,
        (Component::ParentDir, Component::ParentDir) => true,
        (Component::Normal(x), Component::Normal(y)) => same_chars(x, y),
        _ => false,
    }
}

/// `a` begins with all components of `b`.
pub open spec fn under(a: Seq<char>, b: Seq<char>) -> bool {
    components(b).is_prefix_of(components(a))
}

fn components_under(a: &[Component], b: &[Component]) -> (r: bool)
    ensures
        r == parts(b@).is_prefix_of(parts(a@)),
{
    if b.len() > a.len() {
        return false;
    }
    for i in 0..b.len()
        invariant
            b@.len() <= a@.len(),
            forall|j: int| 0 <= j < i ==> parts(a@)[j] == parts(b@)[j],
    {
        if !same_component(&a[i], &b[i]) {
            assert(parts(a@).subrange(0, b@.len() as int)[i as int] == parts(a@)[i as int]);
            return false;
        }
    }
    assert(parts(b@) =~= parts(a@).subrange(0, b@.len() as int));
    true
}

/// Whether the path `a` is `b` or lies below it.
pub fn path_starts_with(a: &str, b: &str) -> (r: bool)
    ensures
        r == under(a@, b@),
{
    let x = path_components(a);
    let y = path_components(b);
    components_under(&x, &y)
}

/// Whether two paths have the same components.
pub fn same_path(a: &str, b: &str) -> (r: bool)
    ensures
        r == (components(a@) == components(b@)),
{
    let x = path_components(a);
    let y = path_components(b);
    if x.len() != y.len() {
        assert(components(a@).len() != components(b@).len());
        return false;
    }
    let r = components_under(&x, &y);
    assert(parts(x@).subrange(0, y@.len() as int) =~= parts(x@));
    r
}

/// Whether the path `p` is absolute.
pub fn is_absolute(p: &str) -> (r: bool)
    ensures
        r == absolute(p@),
{
    let cs = chars_of(p);
    let head = parse_head(&cs);
    head.prefix.is_some() && head.rooted
}

/// The components of `path` below `base`; nothing where it is not below.
pub open spec fn relative(path: Seq<char>, base: Seq<char>) -> Option<Seq<ComponentView>> {
    if under(path, base) {
        Some(components(path).skip(components(base).len() as int))
    } else {
        None
    }
}

/// The components of `path` below `base`.
pub fn strip_base(path: &str, base: &str) -> (r: Option<Vec<Component>>)
    ensures
        match r {
            Some(v) => relative(path@, base@) == Some(parts(v@)),
            None => relative(path@, base@) is None,
        },
{
    let mut x = path_components(path);
    let y = path_components(base);
    if components_under(&x, &y) {
        let ghost whole = x@;
        let rest = x.split_off(y.len());
        assert(parts(rest@) =~= parts(whole).skip(y@.len() as int));
        Some(rest)
    } else {
        None
    }
}

/// The last component of `p`, where it is a name.
pub open spec fn name_of(p: Seq<char>) -> Option<Seq<char>> {
    if components(p).len() > 0 && components(p).last() is Normal {
        Some(components(p).last()->Normal_0)
    } else {
        None
    }
}

/// The file name of the path `p`.
pub fn file_name(p: &str) -> (r: Option<String>)
    ensures
        match r {
            Some(s) => name_of(p@) == Some(s@),
            None => name_of(p@) is None,
        },
{
    let v = path_components(p);
    let n: usize = v.len();
    assert(n > 0 ==> components(p@).last() == v@.last()@);
    if n == 0 {
        return None;
    }
    match &v[n - 1] {
        Component::Normal(a) => Some(string_of(a)),
        _ => None,
    }
}

/// `b` without the last part and the separator before it.
pub open spec fn without_last_part(b: Seq<char>, verbatim: bool) -> Seq<char>
    decreases b.len(),
{
    if b.len() == 0 {
        b
    } else if splits(b.last(), verbatim) {
        b.drop_last()
    } else {
        without_last_part(b.drop_last(), verbatim)
    }
}

/// What follows the last separator of `b`.
pub open spec fn last_part(b: Seq<char>, verbatim: bool) -> Seq<char>
    decreases b.len(),
{
    if b.len() == 0 || splits(b.last(), verbatim) {
        seq![]
    } else {
        last_part(b.drop_last(), verbatim).push(b.last())
    }
}

pub proof fn lemma_without_last_part(b: Seq<char>, verbatim: bool)
    ensures
        b.len() > 0 ==> without_last_part(b, verbatim).len() < b.len(),
        without_last_part(b, verbatim).is_prefix_of(b),
        last_part(b, verbatim).len() <= b.len(),
    decreases b.len(),
{
    if b.len() > 0 && !splits(b.last(), verbatim) {
        lemma_without_last_part(b.drop_last(), verbatim);
        let w = without_last_part(b, verbatim);
        assert(w =~= b.subrange(0, w.len() as int));
    } else if b.len() > 0 {
        let w = without_last_part(b, verbatim);
        assert(w =~= b.subrange(0, w.len() as int));
    } else {
        assert(b =~= b.subrange(0, 0));
    }
}

/// `b` up to the end of its last component.
pub open spec fn trimmed(b: Seq<char>, verbatim: bool) -> Seq<char>
    decreases b.len(),
{
    if b.len() == 0 || part_component(last_part(b, verbatim), verbatim).len() > 0 {
        b
    } else {
        proof {
            lemma_without_last_part(b, verbatim);
        }
        trimmed(without_last_part(b, verbatim), verbatim)
    }
}

/// The path `p` without its last component; nothing where `p` ends in a prefix or a root.
pub open spec fn parent(p: Seq<char>) -> Option<Seq<char>> {
    let v = is_verbatim(p);
    let start = body_start(p);
    let body = trimmed(p.skip(start), v);
    if body.len() > 0 {
        Some(p.take(start) + trimmed(without_last_part(body, v), v))
    } else if starts_here(p) {
        Some(p.take(prefix_len(p)))
    } else {
        None
    }
}

/// Where the last part of `cs[start..end]` begins.
fn last_part_start(cs: &[char], start: usize, end: usize, verbatim: bool) -> (r: usize)
    requires
        start <= end <= cs@.len(),
    ensures
        start <= r <= end,
        last_part(cs@.subrange(start as int, end as int), verbatim) == cs@.subrange(
            r as int,
            end as int,
        ),
        r == start ==> without_last_part(cs@.subrange(start as int, end as int), verbatim)
            == Seq::<char>::empty(),
        r > start ==> without_last_part(cs@.subrange(start as int, end as int), verbatim)
            == cs@.subrange(start as int, r - 1),
    decreases end - start,
{
    let ghost b = cs@.subrange(start as int, end as int);
    if end == start {
        assert(b =~= seq![]);
        assert(cs@.subrange(end as int, end as int) =~= seq![]);
        return start;
    }
    assert(b.last() == cs@[end - 1]);
    assert(b.drop_last() =~= cs@.subrange(start as int, end - 1));
    let c: char = cs[end - 1];
    if c == '\\' || (!verbatim && c == '/') {
        assert(cs@.subrange(end as int, end as int) =~= seq![]);
        return end;
    }
    let r: usize = last_part_start(cs, start, end - 1, verbatim);
    assert(cs@.subrange(r as int, end - 1).push(c) =~= cs@.subrange(r as int, end as int));
    r
}

/// Where the last component of `cs[start..end]` ends.
fn trimmed_end(cs: &[char], start: usize, end: usize, verbatim: bool) -> (r: usize)
    requires
        start <= end <= cs@.len(),
    ensures
        start <= r <= end,
        trimmed(cs@.subrange(start as int, end as int), verbatim) == cs@.subrange(
            start as int,
            r as int,
        ),
{
    let ghost whole = cs@.subrange(start as int, end as int);
    let mut e: usize = end;
    while e > start
        invariant
            start <= e <= end <= cs@.len(),
            trimmed(whole, verbatim) == trimmed(cs@.subrange(start as int, e as int), verbatim),
            whole == cs@.subrange(start as int, end as int),
        decreases e,
    {
        let s: usize = last_part_start(cs, start, e, verbatim);
        let ghost b = cs@.subrange(start as int, e as int);
        let ghost part = cs@.subrange(s as int, e as int);
        let len: usize = e - s;
        let empty: bool = len == 0 || (len == 1 && cs[s] == '.' && !verbatim);
        proof {
            if len == 1 {
                assert(part =~= seq![cs@[s as int]]);
            }
            if part == seq!['.'] {
                assert(part.len() == 1);
                assert(part[0] == cs@[s as int]);
            }
            assert(empty <==> part_component(part, verbatim).len() == 0);
        }
        if !empty {
            return e;
        }
        if s == start {
            assert(trimmed(Seq::<char>::empty(), verbatim) =~= seq![]);
            assert(cs@.subrange(start as int, start as int) =~= seq![]);
            return start;
        }
        e = s - 1;
    }
    assert(cs@.subrange(start as int, start as int) =~= seq![]);
    start
}

/// The path `p` without its last component.
pub fn parent_path(p: &str) -> (r: Option<String>)
    ensures
        match r {
            Some(s) => parent(p@) == Some(s@),
            None => parent(p@) is None,
        },
{
    let cs = chars_of(p);
    let n: usize = cs.len();
    let head = parse_head(&cs);
    let start: usize = head.body;
    let v: bool = head.verbatim;
    assert(cs@.subrange(start as int, n as int) =~= cs@.skip(start as int));
    let end: usize = trimmed_end(&cs, start, n, v);
    if end > start {
        let ghost body = cs@.subrange(start as int, end as int);
        let s: usize = last_part_start(&cs, start, end, v);
        let cut: usize = if s > start {
            trimmed_end(&cs, start, s - 1, v)
        } else {
            start
        };
        proof {
            assert(trimmed(Seq::<char>::empty(), v) =~= seq![]);
            assert(cs@.subrange(start as int, start as int) =~= seq![]);
            assert(cs@.subrange(0, cut as int) =~= cs@.take(start as int) + cs@.subrange(
                start as int,
                cut as int,
            ));
        }
        Some(string_of(vstd::slice::slice_subrange(&cs, 0, cut)))
    } else {
        assert(cs@.subrange(start as int, start as int) =~= seq![]);
        if head.here {
            let k: usize = head.prefix_len;
            assert(cs@.subrange(0, k as int) =~= cs@.take(k as int));
            Some(string_of(vstd::slice::slice_subrange(&cs, 0, k)))
        } else {
            None
        }
    }
}

/// `s` without separators at its end.
pub open spec fn no_trailing_sep(s: Seq<char>) -> Seq<char>
    decreases s.len(),
{
    if s.len() > 0 && is_sep(s.last()) {
        no_trailing_sep(s.drop_last())
    } else {
        s
    }
}

/// The folder of the path `p` as it is compared: in lower case, without separators at its end.
pub open spec fn folder_key(p: Seq<char>) -> Option<Seq<char>> {
    match parent(p) {
        Some(d) => Some(no_trailing_sep(lower(d))),
        None => None,
    }
}

/// The folder of the path `p` as it is compared, where it is written in ASCII characters.
pub open spec fn ascii_folder_key(p: Seq<char>) -> Option<Seq<char>> {
    match parent(p) {
        Some(d) => Some(no_trailing_sep(ascii_lower(d))),
        None => None,
    }
}

/// The folder of the path `p` as it is compared.
pub fn norm_dir(p: &str) -> (r: Option<String>)
    ensures
        match r {
            Some(s) => folder_key(p@) == Some(s@),
            None => folder_key(p@) is None,
        },
        (parent(p@) matches Some(d) ==> ascii(d)) ==> folder_key(p@) == ascii_folder_key(p@),
{
    match parent_path(p) {
        Some(d) => {
            let low = to_lower(&d);
            Some(cut_trailing_seps(&low))
        },
        None => None,
    }
}

/// `s` without separators at its end.
pub fn cut_trailing_seps(s: &str) -> (r: String)
    ensures
        r@ == no_trailing_sep(s@),
{
    let cs = chars_of(s);
    let mut end: usize = cs.len();
    assert(cs@.take(end as int) =~= cs@);
    while end > 0 && sep_char(cs[end - 1])
        invariant
            end <= cs@.len(),
            no_trailing_sep(s@) == no_trailing_sep(cs@.take(end as int)),
        decreases end,
    {
        assert(cs@.take(end as int).drop_last() =~= cs@.take(end - 1));
        end = end - 1;
    }
    assert(cs@.subrange(0, end as int) =~= cs@.take(end as int));
    string_of(vstd::slice::slice_subrange(&cs, 0, end))
}

/// The parts of `b` between backslashes, without the empty ones.
pub open spec fn names_in(b: Seq<char>) -> Seq<Seq<char>>
    decreases b.len(),
{
    if b.len() == 0 {
        seq![]
    } else {
        let name = first_part(b, true);
        (if name.len() > 0 {
            seq![name]
        } else {
            seq![]
        }) + names_in(after_part(b, true))
    }
}

/// The names down to where the components `way` lead from `at`: a name leads further down, `..` out
/// of what has a name, `.` nowhere, and a root back to the top.
pub open spec fn gone(at: Seq<Seq<char>>, way: Seq<ComponentView>) -> Seq<Seq<char>>
    decreases way.len(),
{
    if way.len() == 0 {
        at
    } else {
        let next = match way[0] {
            ComponentView::RootDir => seq![],
            ComponentView::Normal(name) => at.push(name),
            ComponentView::ParentDir => if at.len() > 0 && at.last() != seq!['.'] && at.last()
                != seq!['.', '.'] {
                at.drop_last()
            } else {
                at
            },
            _ => at,
        };
        gone(next, way.drop_first())
    }
}

/// The path `name` taken from the verbatim folder `base`, which is written anew: one backslash
/// between any two parts, and nothing left to resolve in `name`.
pub open spec fn verbatim_joined(base: Seq<char>, name: Seq<char>) -> Seq<char> {
    let prefix = base.take(prefix_len(base));
    let at = gone(names_in(base.skip(body_start(base))), components(name));
    if at.len() > 0 {
        prefix.push('\\') + join(at, "\\"@)
    } else if written_root(base) || has_root(name) {
        prefix.push('\\')
    } else {
        prefix
    }
}

/// The path `name` taken from the folder `base`. One with a prefix stands for itself, and one with a
/// root keeps the folder's prefix only. Otherwise a backslash goes between, unless the folder is
/// empty, ends in a separator, or is a drive alone. A verbatim folder is written anew.
pub open spec fn joined(base: Seq<char>, name: Seq<char>) -> Seq<char> {
    if prefix_of(name) is Some {
        name
    } else if is_verbatim(base) && name.len() > 0 {
        verbatim_joined(base, name)
    } else if has_root(name) {
        base.take(prefix_len(base)) + name
    } else if base.len() == 0 || is_sep(base.last()) || (prefix_of(base) matches Some(x)
        && x.0 is Disk && x.1 == base.len()) {
        base + name
    } else {
        base.push('\\') + name
    }
}

/// The parts of `cs`, from `start` on, between backslashes.
fn names_from(cs: &[char], start: usize) -> (r: Vec<String>)
    requires
        start <= cs@.len(),
    ensures
        texts(r@) == names_in(cs@.skip(start as int)),
{
    let n: usize = cs.len();
    let mut out: Vec<String> = Vec::new();
    let mut at: usize = start;
    assert(texts(out@) + names_in(cs@.skip(at as int)) =~= names_in(cs@.skip(start as int)));
    while at < n
        invariant
            n == cs@.len(),
            start <= at <= n,
            texts(out@) + names_in(cs@.skip(at as int)) == names_in(cs@.skip(start as int)),
        decreases n - at,
    {
        let ghost b = cs@.skip(at as int);
        let ghost before = out@;
        let end: usize = part_end(cs, at, true);
        assert(cs@.subrange(at as int, end as int) =~= first_part(b, true));
        if end > at {
            out.push(string_of(vstd::slice::slice_subrange(cs, at, end)));
        }
        let next: usize = if end < n {
            end + 1
        } else {
            n
        };
        proof {
            assert(cs@.skip(next as int) =~= after_part(b, true));
            let rest = names_in(cs@.skip(next as int));
            if end > at {
                assert(texts(out@) =~= texts(before).push(first_part(b, true)));
            }
            assert(texts(out@) + rest =~= texts(before) + names_in(b));
        }
        at = next;
    }
    assert(cs@.skip(n as int) =~= Seq::<char>::empty());
    assert(texts(out@) + names_in(Seq::<char>::empty()) =~= texts(out@));
    out
}

/// Goes along `way` from `at`.
fn go(at: &mut Vec<String>, way: &[Component])
    ensures
        texts(final(at)@) == gone(texts(old(at)@), parts(way@)),
{
    let n: usize = way.len();
    let ghost whole = gone(texts(at@), parts(way@));
    assert(parts(way@).skip(0) =~= parts(way@));
    for i in 0..n
        invariant
            n == way@.len(),
            gone(texts(at@), parts(way@).skip(i as int)) == whole,
    {
        let ghost left = parts(way@).skip(i as int);
        let ghost before = texts(at@);
        assert(left[0] == way@[i as int]@);
        assert(left.drop_first() =~= parts(way@).skip(i + 1));
        match &way[i] {
            Component::RootDir => {
                at.clear();
                assert(texts(at@) =~= Seq::<Seq<char>>::empty());
            },
            Component::Normal(name) => {
                at.push(string_of(name));
                assert(texts(at@) =~= before.push(name@));
            },
            Component::ParentDir => {
                let k: usize = at.len();
                if k > 0 {
                    proof {
                        reveal_strlit(".");
                        reveal_strlit("..");
                        assert("."@ =~= seq!['.']);
                        assert(".."@ =~= seq!['.', '.']);
                        assert(before.last() == at@[k - 1]@);
                    }
                    if !same_text(&at[k - 1], ".") && !same_text(&at[k - 1], "..") {
                        at.pop();
                        assert(texts(at@) =~= before.drop_last());
                    }
                }
            },
            _ => {},
        }
    }
    assert(parts(way@).skip(n as int) =~= Seq::<ComponentView>::empty());
}

/// The path `name` taken from the folder `base`.
pub fn join_path(base: &str, name: &str) -> (r: String)
    ensures
        r@ == joined(base@, name@),
{
    let cs = chars_of(base);
    let n: usize = cs.len();
    let ncs = chars_of(name);
    let head = parse_head(&cs);
    let name_head = parse_head(&ncs);
    let k: usize = head.prefix_len;
    assert(cs@.subrange(0, k as int) =~= cs@.take(k as int));
    if name_head.prefix.is_some() {
        string_of(&ncs)
    } else if head.verbatim && ncs.len() > 0 {
        let mut out = string_of(vstd::slice::slice_subrange(&cs, 0, k));
        let mut at = names_from(&cs, head.body);
        let way = path_components(name);
        go(&mut at, &way);
        if at.len() > 0 {
            out.push('\\');
            push_text(&mut out, &join_strings(&at, "\\"));
        } else if head.written_root || name_head.rooted {
            out.push('\\');
        }
        out
    } else if name_head.rooted {
        let mut out = string_of(vstd::slice::slice_subrange(&cs, 0, k));
        push_text(&mut out, name);
        out
    } else {
        let bare_drive: bool = match &head.prefix {
            Some(Prefix::Disk(_)) => k == n,
            _ => false,
        };
        let mut out = string_of(&cs);
        if n > 0 && !sep_char(cs[n - 1]) && !bare_drive {
            out.push('\\');
        }
        push_text(&mut out, name);
        out
    }
}

/// A single name: no separator, no drive, and neither `.` nor `..`.
pub open spec fn single_name(a: Seq<char>) -> bool {
    &&& components(a) == seq![ComponentView::Normal(a)]
    &&& forall|i: int| 0 <= i < a.len() ==> !is_sep(#[trigger] a[i])
}

/// `b` with one backslash after each of its parts.
pub open spec fn tidied(b: Seq<char>) -> Seq<char>
    decreases b.len(),
{
    if b.len() == 0 {
        seq![]
    } else {
        let name = first_part(b, true);
        (if name.len() > 0 {
            name.push('\\')
        } else {
            seq![]
        }) + tidied(after_part(b, true))
    }
}

/// What stands before a single name in its path in the folder `d`.
pub open spec fn stem(d: Seq<char>) -> Seq<char> {
    if is_verbatim(d) {
        d.take(prefix_len(d)).push('\\') + tidied(d.skip(body_start(d)))
    } else {
        joined(d, seq![])
    }
}

pub proof fn lemma_join_first(name: Seq<char>, list: Seq<Seq<char>>, sep: Seq<char>)
    requires
        list.len() > 0,
    ensures
        join(seq![name] + list, sep) == name + sep + join(list, sep),
    decreases list.len(),
{
    let whole = seq![name] + list;
    let init = list.drop_last();
    assert(whole =~= (seq![name] + init).push(list.last()));
    assert(list =~= init.push(list.last()));
    lemma_join_push(seq![name] + init, list.last(), sep);
    lemma_join_push(init, list.last(), sep);
    if init.len() > 0 {
        lemma_join_first(name, init, sep);
        assert(name + sep + join(init, sep) + sep + list.last() =~= name + sep + (join(init, sep)
            + sep + list.last()));
    } else {
        assert(seq![name] + init =~= Seq::<Seq<char>>::empty().push(name));
        lemma_join_push(Seq::<Seq<char>>::empty(), name, sep);
    }
}

proof fn lemma_tidied(b: Seq<char>, a: Seq<char>)
    ensures
        join(names_in(b).push(a), "\\"@) == tidied(b) + a,
    decreases b.len(),
{
    reveal_strlit("\\");
    let sep = "\\"@;
    assert(sep =~= seq!['\\']);
    if b.len() == 0 {
        lemma_join_push(Seq::<Seq<char>>::empty(), a, sep);
        assert(tidied(b) + a =~= a);
    } else {
        let name = first_part(b, true);
        let rest = after_part(b, true);
        lemma_part_len(b, true);
        lemma_tidied(rest, a);
        if name.len() > 0 {
            assert(names_in(b).push(a) =~= seq![name] + names_in(rest).push(a));
            lemma_join_first(name, names_in(rest).push(a), sep);
            assert(name + sep + (tidied(rest) + a) =~= tidied(b) + a);
        } else {
            assert(names_in(b) =~= names_in(rest));
            assert(tidied(b) =~= tidied(rest));
        }
    }
}

/// A text without separators that is no drive, `.` or `..` is a single name.
pub proof fn lemma_plain_name(a: Seq<char>)
    requires
        a.len() > 0,
        a != seq!['.'],
        a != seq!['.', '.'],
        a.len() >= 2 ==> a[1] != ':',
        forall|i: int| 0 <= i < a.len() ==> !is_sep(#[trigger] a[i]),
    ensures
        single_name(a),
{
    assert(!is_sep(a[0]));
    assert(prefix_of(a) is None);
    if leading_dot(a) {
        if a.len() == 1 {
            assert(a =~= seq!['.']);
        }
        assert(false);
    }
    assert(a.skip(0) =~= a);
    assert forall|i: int| 0 <= i < a.len() implies !splits(#[trigger] a[i], false) by {
        assert(!is_sep(a[i]));
    }
    lemma_part_len_is(a, false, a.len() as int);
    assert(first_part(a, false) =~= a);
    assert(body_components(after_part(a, false), false) =~= seq![]);
    assert(components(a) =~= seq![ComponentView::Normal(a)]);
}

/// A single name comes last in its path, after what its folder gives.
pub proof fn lemma_stem(d: Seq<char>, a: Seq<char>)
    requires
        single_name(a),
    ensures
        joined(d, a) == stem(d) + a,
        is_verbatim(d) || stem(d) == d || stem(d) == d.push('\\'),
        stem(d).len() == 0 || is_sep(stem(d).last()) || (stem(d).len() == 2 && drive_letter(
            stem(d)[0],
        ) && stem(d)[1] == ':'),
{
    let none = Seq::<char>::empty();
    assert(prefix_of(none) is None);
    assert(d + none =~= d);
    assert(d.push('\\') + none =~= d.push('\\'));
    assert(components(a)[0] is Normal);
    assert(a.len() > 0) by {
        if a.len() == 0 {
            assert(a.skip(0) =~= a);
            assert(components(a) =~= seq![]);
        }
    }
    assert(prefix_of(a) is None) by {
        if prefix_of(a) is Some {
            assert(components(a)[0] is Prefix);
        }
    }
    assert(!is_sep(a[0]));
    assert(!has_root(a));
    if is_verbatim(d) {
        let at = names_in(d.skip(body_start(d)));
        let way = components(a);
        assert(way.drop_first() =~= Seq::<ComponentView>::empty());
        assert(gone(at.push(a), way.drop_first()) == at.push(a));
        assert(gone(at, way) == at.push(a));
        let body = d.skip(body_start(d));
        lemma_tidied(body, a);
        lemma_prefix_len(d);
        let front = d.take(prefix_len(d)).push('\\');
        assert(front + (tidied(body) + a) =~= stem(d) + a);
        lemma_tidied_end(body);
        if tidied(body).len() == 0 {
            assert(stem(d) =~= front);
        } else {
            assert(stem(d).last() == tidied(body).last());
        }
    } else {
        if stem(d) == d.push('\\') {
            assert(stem(d).last() == '\\');
        } else if d.len() > 0 && !is_sep(d.last()) {
            assert((prefix_of(d)->0).0 is Disk);
        }
    }
}

pub proof fn lemma_tidied_end(b: Seq<char>)
    ensures
        tidied(b).len() > 0 ==> tidied(b).last() == '\\',
    decreases b.len(),
{
    if b.len() > 0 {
        lemma_part_len(b, true);
        let rest = after_part(b, true);
        lemma_tidied_end(rest);
        if tidied(rest).len() > 0 {
            assert(tidied(b).last() == tidied(rest).last());
        } else {
            let name = first_part(b, true);
            if name.len() > 0 {
                assert(tidied(b) =~= name.push('\\'));
            }
        }
    }
}

} // verus!
