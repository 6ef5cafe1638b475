//! Moving the data directory: where it may go, what goes with it, and what is checked before the
//! old one is given up.

use crate::config::{AppConfig, ConfigView};
use crate::models::opt_texts;
use crate::move_laws::{is_data, law_complete_move_has_every_copy};
use crate::text::{
    join, join_strings, opt_text, push_text, same_text, string_of, texts, trim, trim_text,
};
use crate::winpath::{
    absolute, components, is_absolute, join_path, joined, lemma_plain_name, lemma_stem, parts,
    path_components, path_starts_with, relative, same_path, stem, strip_base, under, Component,
    ComponentView, Prefix,
};
use vstd::prelude::*;

verus! {

/// What came of trying to write to the target: the directory is made first, then a file in it.
pub enum WriteTest {
    Written,
    /// The directory could not be made, for this reason.
    NoDirectory(String),
    /// The file could not be written, for this reason.
    NoFile(String),
}

/// Whether a path begins with a drive.
pub open spec fn on_drive(p: Seq<char>) -> bool {
    &&& components(p).len() > 0
    &&& components(p)[0] matches ComponentView::Prefix(x) && (x is Disk || x is VerbatimDisk)
}

/// What is wrong with a target from its path alone, if anything: it must be an absolute path on a
/// drive, and not the data directory itself.
pub open spec fn path_fault(new_path: Seq<char>, old_dir: Seq<char>) -> Option<Seq<char>> {
    if new_path.len() == 0 {
        Some("请选择数据保存位置"@)
    } else if !absolute(new_path) {
        Some("目标必须为绝对路径"@)
    } else if components(new_path) == components(old_dir) {
        Some("目标位置与当前数据目录相同，无需迁移"@)
    } else if !on_drive(new_path) {
        Some("目标必须为本地磁盘路径"@)
    } else {
        None
    }
}

/// What is wrong with a target from what came of trying to write to it, if anything.
pub open spec fn write_fault(test: WriteTest) -> Option<Seq<char>> {
    match test {
        WriteTest::Written => None,
        WriteTest::NoDirectory(e) => Some("目标目录不可创建: "@ + e@),
        WriteTest::NoFile(e) => Some("目标目录不可写: "@ + e@),
    }
}

/// Whether a path is, or lies below, one of the directories `dirs` that are not empty.
pub open spec fn in_one_of(p: Seq<char>, dirs: Seq<Seq<char>>) -> bool {
    exists|i: int| 0 <= i < dirs.len() && (#[trigger] dirs[i]).len() > 0 && under(p, dirs[i])
}

/// What is wrong with a target from where it lies, if anything: it must be in no directory of the
/// system, nor in that of the program.
pub open spec fn place_fault(
    new_path: Seq<char>,
    system_dirs: Seq<Seq<char>>,
    program_dir: Option<Seq<char>>,
) -> Option<Seq<char>> {
    if in_one_of(new_path, system_dirs) {
        Some("目标不得为系统目录"@)
    } else if program_dir matches Some(d) && under(new_path, d) {
        Some("目标不得为程序安装目录"@)
    } else {
        None
    }
}

/// What is wrong with a target, if anything.
pub open spec fn target_fault(
    new_path: Seq<char>,
    old_dir: Seq<char>,
    test: WriteTest,
    system_dirs: Seq<Seq<char>>,
    program_dir: Option<Seq<char>>,
) -> Option<Seq<char>> {
    match path_fault(new_path, old_dir) {
        Some(e) => Some(e),
        None => match write_fault(test) {
            Some(e) => Some(e),
            None => place_fault(new_path, system_dirs, program_dir),
        },
    }
}

/// The message of a result, where it is one.
pub open spec fn fault_of(r: Result<(), String>) -> Option<Seq<char>> {
    match r {
        Ok(_) => None,
        Err(e) => Some(e@),
    }
}

/// Whether the data may move to `new_path`, as far as the path alone tells. The target is tried by
/// writing only after that.
pub fn check_target_path(new_path: &str, old_data_dir: &str) -> (r: Result<(), String>)
    ensures
        fault_of(r) == path_fault(new_path@, old_data_dir@),
{
    proof {
        reveal_strlit("");
        if new_path@.len() == 0 {
            assert(new_path@ =~= ""@);
        }
    }
    if same_text(new_path, "") {
        return Err("请选择数据保存位置".to_string());
    }
    if !is_absolute(new_path) {
        return Err("目标必须为绝对路径".to_string());
    }
    if same_path(new_path, old_data_dir) {
        return Err("目标位置与当前数据目录相同，无需迁移".to_string());
    }
    let cs = path_components(new_path);
    assert(cs@.len() > 0 ==> components(new_path@)[0] == cs@[0]@);
    let drive: bool = cs.len() > 0 && match &cs[0] {
        Component::Prefix(Prefix::Disk(_)) => true,
        Component::Prefix(Prefix::VerbatimDisk(_)) => true,
        _ => false,
    };
    if !drive {
        return Err("目标必须为本地磁盘路径".to_string());
    }
    Ok(())
}

/// The directories of the system, out of the values of `WINDIR`, `ProgramFiles` and `ProgramData`,
/// which are empty where they are not set.
pub open spec fn system_dirs_of(
    windir: Seq<char>,
    program_files: Seq<char>,
    program_data: Seq<char>,
) -> Seq<Seq<char>> {
    seq![windir, program_files, "C:\\Program Files (x86)"@, program_data]
}

/// The directories of the system.
pub fn system_dirs(windir: &str, program_files: &str, program_data: &str) -> (r: Vec<String>)
    ensures
        texts(r@) == system_dirs_of(windir@, program_files@, program_data@),
{
    let mut v: Vec<String> = Vec::new();
    v.push(windir.to_string());
    v.push(program_files.to_string());
    v.push("C:\\Program Files (x86)".to_string());
    v.push(program_data.to_string());
    assert(texts(v@) =~= system_dirs_of(windir@, program_files@, program_data@));
    v
}

/// Whether the data may move from `old_data_dir` to `new_path`, given what came of writing there.
pub fn validate_storage_path(
    new_path: &str,
    old_data_dir: &str,
    test: &WriteTest,
    system_dirs: &[String],
    program_dir: Option<&str>,
) -> (r: Result<(), String>)
    ensures
        fault_of(r) == target_fault(
            new_path@,
            old_data_dir@,
            *test,
            texts(system_dirs@),
            match program_dir {
                Some(d) => Some(d@),
                None => None,
            },
        ),
{
    let path = check_target_path(new_path, old_data_dir);
    if path.is_err() {
        return path;
    }
    match test {
        WriteTest::Written => {},
        WriteTest::NoDirectory(e) => {
            let mut m = "目标目录不可创建: ".to_string();
            push_text(&mut m, e);
            return Err(m);
        },
        WriteTest::NoFile(e) => {
            let mut m = "目标目录不可写: ".to_string();
            push_text(&mut m, e);
            return Err(m);
        },
    }
    let ghost dirs = texts(system_dirs@);
    for k in 0..system_dirs.len()
        invariant
            dirs == texts(system_dirs@),
            path_fault(new_path@, old_data_dir@) is None,
            write_fault(*test) is None,
            forall|i: int|
                0 <= i < k ==> !((#[trigger] dirs[i]).len() > 0 && under(new_path@, dirs[i])),
    {
        assert(dirs[k as int] == system_dirs@[k as int]@);
        proof {
            reveal_strlit("");
            if dirs[k as int].len() == 0 {
                assert(dirs[k as int] =~= ""@);
            }
        }
        if !same_text(&system_dirs[k], "") && path_starts_with(new_path, &system_dirs[k]) {
            return Err("目标不得为系统目录".to_string());
        }
    }
    match program_dir {
        Some(d) => {
            if path_starts_with(new_path, d) {
                return Err("目标不得为程序安装目录".to_string());
            }
        },
        None => {},
    }
    Ok(())
}

/// A target that is accepted is an absolute path on a drive, other than the data directory, outside
/// of the directories of the system and of the program, and could be written to.
pub proof fn law_accepted_target(
    new_path: Seq<char>,
    old_dir: Seq<char>,
    test: WriteTest,
    system_dirs: Seq<Seq<char>>,
    program_dir: Option<Seq<char>>,
)
    ensures
        target_fault(new_path, old_dir, test, system_dirs, program_dir) is None <==> {
            &&& new_path.len() > 0
            &&& absolute(new_path)
            &&& on_drive(new_path)
            &&& components(new_path) != components(old_dir)
            &&& test is Written
            &&& forall|i: int|
                0 <= i < system_dirs.len() && (#[trigger] system_dirs[i]).len() > 0 ==> !under(
                    new_path,
                    system_dirs[i],
                )
            &&& program_dir matches Some(d) ==> !under(new_path, d)
        },
{
    if target_fault(new_path, old_dir, test, system_dirs, program_dir) is None {
        assert forall|i: int|
            0 <= i < system_dirs.len() && (#[trigger] system_dirs[i]).len() > 0 implies !under(
            new_path,
            system_dirs[i],
        ) by {
            assert(!in_one_of(new_path, system_dirs));
        }
    }
}

/// What makes up the data in a data directory: the database, the pictures, the thumbnails and the
/// logs. The settings are no part of it.
pub open spec fn data_names() -> Seq<Seq<char>> {
    seq!["clipboard.db"@, "images"@, "thumbs"@, "logs"@]
}

/// What makes up the data in a data directory, in the order in which it is copied and cleaned up.
pub fn data_items() -> (r: Vec<String>)
    ensures
        texts(r@) == data_names(),
{
    let mut v: Vec<String> = Vec::new();
    v.push("clipboard.db".to_string());
    v.push("images".to_string());
    v.push("thumbs".to_string());
    v.push("logs".to_string());
    assert(texts(v@) =~= data_names());
    v
}

/// Whether a move fails where this part of the data cannot be copied: the logs may be left behind,
/// for they are being written.
pub fn must_copy(name: &str) -> (r: bool)
    ensures
        r == (name@ != "logs"@),
{
    !same_text(name, "logs")
}

/// The paths that are cleaned up in a data directory that is given up, or that a move has left
/// unfinished.
pub fn cleanup_data_dir(dir: &str) -> (r: Vec<String>)
    ensures
        texts(r@) == data_names().map_values(|n: Seq<char>| joined(dir@, n)),
{
    let names = data_items();
    let ghost f = |n: Seq<char>| joined(dir@, n);
    let mut out: Vec<String> = Vec::new();
    assert(texts(out@) =~= data_names().take(0).map_values(f));
    for k in 0..names.len()
        invariant
            texts(names@) == data_names(),
            f == (|n: Seq<char>| joined(dir@, n)),
            texts(out@) == data_names().take(k as int).map_values(f),
    {
        let ghost before = out@;
        out.push(join_path(dir, &names[k]));
        proof {
            assert(data_names()[k as int] == names@[k as int]@);
            assert(texts(out@) =~= texts(before).push(joined(dir@, names@[k as int]@)));
            assert(data_names().take(k + 1).map_values(f) =~= data_names().take(
                k as int,
            ).map_values(f).push(joined(dir@, names@[k as int]@)));
        }
    }
    assert(data_names().take(data_names().len() as int) =~= data_names());
    out
}

/// The settings are never cleaned up with the data beside them.
pub proof fn law_cleanup_spares_settings(dir: Seq<char>)
    ensures
        !data_names().map_values(|n: Seq<char>| joined(dir, n)).contains(
            joined(dir, "config.json"@),
        ),
{
    reveal_strlit("config.json");
    reveal_strlit("clipboard.db");
    reveal_strlit("images");
    reveal_strlit("thumbs");
    reveal_strlit("logs");
    let f = |n: Seq<char>| joined(dir, n);
    let v = data_names().map_values(f);
    let c = joined(dir, "config.json"@);
    lemma_plain_name("config.json"@);
    lemma_stem(dir, "config.json"@);
    if v.contains(c) {
        let i = choose|i: int| 0 <= i < v.len() && v[i] == c;
        let n = data_names()[i];
        assert(v[i] == joined(dir, n));
        lemma_plain_name(n);
        lemma_stem(dir, n);
        assert(c.len() == stem(dir).len() + 11);
        assert(c.len() == stem(dir).len() + n.len());
    }
}

/// The names of the components of `path` below `base`; nothing where it is not below, or they are
/// not all names.
pub open spec fn names_below(path: Seq<char>, base: Seq<char>) -> Option<Seq<Seq<char>>> {
    match relative(path, base) {
        Some(c) => if forall|i: int| 0 <= i < c.len() ==> #[trigger] c[i] is Normal {
            Some(c.map_values(|x: ComponentView| x->Normal_0))
        } else {
            None
        },
        None => None,
    }
}

/// Whether `path` lies in the logs of the data directory `base`.
pub open spec fn in_logs(path: Seq<char>, base: Seq<char>) -> bool {
    relative(path, base) matches Some(c) && c.len() > 0 && c[0] == ComponentView::Normal("logs"@)
}

/// Whether `path` lies in the logs of the data directory `base`.
pub fn rel_is_logs(path: &str, base: &str) -> (r: bool)
    ensures
        r == in_logs(path@, base@),
{
    match strip_base(path, base) {
        Some(c) => {
            if c.len() == 0 {
                return false;
            }
            assert(parts(c@)[0] == c@[0]@);
            match &c[0] {
                Component::Normal(n) => {
                    let name = string_of(n);
                    same_text(&name, "logs")
                },
                _ => false,
            }
        },
        None => false,
    }
}

fn names_of(path: &str, base: &str) -> (r: Option<Vec<String>>)
    ensures
        opt_texts(r) == names_below(path@, base@),
{
    match strip_base(path, base) {
        Some(c) => {
            let ghost v = parts(c@);
            let ghost f = |x: ComponentView| x->Normal_0;
            let mut out: Vec<String> = Vec::new();
            assert(texts(out@) =~= v.take(0).map_values(f));
            for k in 0..c.len()
                invariant
                    v == parts(c@),
                    relative(path@, base@) == Some(v),
                    f == (|x: ComponentView| x->Normal_0),
                    forall|i: int| 0 <= i < k ==> #[trigger] v[i] is Normal,
                    texts(out@) == v.take(k as int).map_values(f),
            {
                assert(v[k as int] == c@[k as int]@);
                match &c[k] {
                    Component::Normal(n) => {
                        let ghost before = out@;
                        out.push(string_of(n));
                        proof {
                            assert(texts(out@) =~= texts(before).push(n@));
                            assert(v.take(k + 1).map_values(f) =~= v.take(k as int).map_values(
                                f,
                            ).push(n@));
                        }
                    },
                    _ => {
                        return None;
                    },
                }
            }
            assert(v.take(v.len() as int) =~= v);
            Some(out)
        },
        None => None,
    }
}

/// Whether a file below a data directory, by the names on the way to it, is checked after a move:
/// the database is, and the pictures and thumbnails are.
pub open spec fn is_checked(names: Seq<Seq<char>>) -> bool {
    ||| names == seq!["clipboard.db"@]
    ||| names.len() > 1 && (names[0] == "images"@ || names[0] == "thumbs"@)
}

/// The names on the way to a file, as a path.
pub open spec fn rel_path(names: Seq<Seq<char>>) -> Seq<char> {
    join(names, "\\"@)
}

fn checked(names: &[String]) -> (r: bool)
    ensures
        r == is_checked(texts(names@)),
{
    if names.len() == 0 {
        return false;
    }
    assert(texts(names@)[0] == names@[0]@);
    if names.len() == 1 {
        let database = same_text(&names[0], "clipboard.db");
        proof {
            if database {
                assert(texts(names@) =~= seq!["clipboard.db"@]);
            }
        }
        database
    } else {
        same_text(&names[0], "images") || same_text(&names[0], "thumbs")
    }
}

/// Why a move is not complete.
#[derive(Debug)]
pub enum VerifyError {
    /// A file of the list is not below the data directory.
    NotBelow,
    /// The target lacks this file.
    Missing(String),
    /// This file has a size in the data directory and another in the target.
    SizeDiffers(String, u64, u64),
}

/// The view of a [`VerifyError`].
pub enum VerifyView {
    NotBelow,
    Missing(Seq<char>),
    SizeDiffers(Seq<char>, u64, u64),
}

impl View for VerifyError {
    type V = VerifyView;

    open spec fn view(&self) -> VerifyView {
        match self {
            VerifyError::NotBelow => VerifyView::NotBelow,
            VerifyError::Missing(p) => VerifyView::Missing(p@),
            VerifyError::SizeDiffers(p, a, b) => VerifyView::SizeDiffers(p@, *a, *b),
        }
    }
}

/// Where a file of the data directory `src` is looked for in the target `dst`.
pub open spec fn copy_place(path: Seq<char>, src: Seq<char>, dst: Seq<char>) -> Option<Seq<char>> {
    match names_below(path, src) {
        Some(names) => if is_checked(names) {
            Some(joined(dst, rel_path(names)))
        } else {
            None
        },
        None => None,
    }
}

/// Where a file of the data directory `src` is looked for in the target `dst`: nowhere where it is
/// not checked.
pub fn copied_path(path: &str, src: &str, dst: &str) -> (r: Option<String>)
    ensures
        opt_text(r) == match names_below(path@, src@) {
            Some(names) => if is_checked(names) {
                Some(joined(dst@, rel_path(names)))
            } else {
                None
            },
            None => None,
        },
        opt_text(r) == copy_place(path@, src@, dst@),
{
    match names_of(path, src) {
        Some(names) => {
            if checked(&names) {
                Some(join_path(dst, &join_strings(&names, "\\")))
            } else {
                None
            }
        },
        None => None,
    }
}

/// What is wrong with one file after a move: `size` is its size in the data directory `src`, and
/// `found` that of its copy, if there is one.
pub open spec fn file_fault(
    path: Seq<char>,
    src: Seq<char>,
    size: u64,
    found: Option<u64>,
) -> Option<VerifyView> {
    if in_logs(path, src) {
        None
    } else {
        match names_below(path, src) {
            None => Some(VerifyView::NotBelow),
            Some(names) => if !is_checked(names) {
                None
            } else {
                match found {
                    None => Some(VerifyView::Missing(rel_path(names))),
                    Some(n) => if n != size {
                        Some(VerifyView::SizeDiffers(rel_path(names), size, n))
                    } else {
                        None
                    },
                }
            },
        }
    }
}

/// What is wrong after a move: the first fault of a file.
pub open spec fn move_fault(
    src: Seq<char>,
    files: Seq<(Seq<char>, u64)>,
    found: Seq<Option<u64>>,
) -> Option<VerifyView>
    decreases files.len(),
{
    if files.len() == 0 {
        None
    } else {
        match file_fault(files[0].0, src, files[0].1, found[0]) {
            Some(e) => Some(e),
            None => move_fault(src, files.drop_first(), found.drop_first()),
        }
    }
}

/// The views of files with their sizes.
pub open spec fn sized(v: Seq<(String, u64)>) -> Seq<(Seq<char>, u64)> {
    v.map_values(|p: (String, u64)| (p.0@, p.1))
}

/// Whether a move is complete: every file of the data directory that is checked has a copy of the
/// same size. What else there is in the target does not matter. `files` lists the files of `src`,
/// and `found` the sizes of their copies.
pub fn verify_data_dir(src: &str, files: &[(String, u64)], found: &[Option<u64>]) -> (r: Result<
    (),
    VerifyError,
>)
    requires
        files@.len() == found@.len(),
    ensures
        match r {
            Ok(_) => move_fault(src@, sized(files@), found@) is None,
            Err(e) => move_fault(src@, sized(files@), found@) == Some(e@),
        },
        r is Ok ==> forall|i: int|
            0 <= i < files@.len() && is_data((#[trigger] files@[i]).0@, src@) ==> found@[i] == Some(
                files@[i].1,
            ),
{
    let ghost all = sized(files@);
    assert(all.skip(0) =~= all);
    assert(found@.skip(0) =~= found@);
    for k in 0..files.len()
        invariant
            all == sized(files@),
            files@.len() == found@.len(),
            move_fault(src@, all, found@) == move_fault(
                src@,
                all.skip(k as int),
                found@.skip(k as int),
            ),
    {
        proof {
            assert(all.skip(k as int)[0] == (files@[k as int].0@, files@[k as int].1));
            assert(found@.skip(k as int)[0] == found@[k as int]);
            assert(all.skip(k as int).drop_first() =~= all.skip(k + 1));
            assert(found@.skip(k as int).drop_first() =~= found@.skip(k + 1));
        }
        let path = &files[k].0;
        let size: u64 = files[k].1;
        if !rel_is_logs(path, src) {
            match names_of(path, src) {
                None => {
                    return Err(VerifyError::NotBelow);
                },
                Some(names) => {
                    if checked(&names) {
                        match found[k] {
                            None => {
                                return Err(VerifyError::Missing(join_strings(&names, "\\")));
                            },
                            Some(n) => {
                                if n != size {
                                    return Err(
                                        VerifyError::SizeDiffers(
                                            join_strings(&names, "\\"),
                                            size,
                                            n,
                                        ),
                                    );
                                }
                            },
                        }
                    }
                },
            }
        }
    }
    proof {
        assert forall|i: int|
            0 <= i < files@.len() && is_data((#[trigger] files@[i]).0@, src@) implies found@[i] == Some(
            files@[i].1,
        ) by {
            assert(all[i] == (files@[i].0@, files@[i].1));
            law_complete_move_has_every_copy(src@, all, found@, i);
        }
    }
    Ok(())
}

/// A move is complete exactly where no file of the data directory has a fault of its own: other
/// files in the target do not matter.
pub proof fn law_move_is_complete(
    src: Seq<char>,
    files: Seq<(Seq<char>, u64)>,
    found: Seq<Option<u64>>,
)
    requires
        files.len() == found.len(),
    ensures
        move_fault(src, files, found) is None <==> forall|i: int|
            0 <= i < files.len() ==> file_fault(
                (#[trigger] files[i]).0,
                src,
                files[i].1,
                found[i],
            ) is None,
    decreases files.len(),
{
    if files.len() > 0 {
        let rest = files.drop_first();
        let left = found.drop_first();
        law_move_is_complete(src, rest, left);
        if move_fault(src, files, found) is None {
            assert forall|i: int| 0 <= i < files.len() implies file_fault(
                (#[trigger] files[i]).0,
                src,
                files[i].1,
                found[i],
            ) is None by {
                if i > 0 {
                    assert(rest[i - 1] == files[i]);
                    assert(left[i - 1] == found[i]);
                }
            }
        }
        if forall|i: int|
            0 <= i < files.len() ==> file_fault(
                (#[trigger] files[i]).0,
                src,
                files[i].1,
                found[i],
            ) is None {
            assert(file_fault(files[0].0, src, files[0].1, found[0]) is None);
            assert forall|i: int| 0 <= i < rest.len() implies file_fault(
                (#[trigger] rest[i]).0,
                src,
                rest[i].1,
                left[i],
            ) is None by {
                assert(rest[i] == files[i + 1]);
                assert(left[i] == found[i + 1]);
            }
        }
    }
}

/// The settings, which lie beside the database, are not looked for in the target.
pub proof fn law_settings_need_no_copy(
    path: Seq<char>,
    src: Seq<char>,
    size: u64,
    found: Option<u64>,
)
    requires
        names_below(path, src) == Some(seq!["config.json"@]),
    ensures
        file_fault(path, src, size, found) is None,
{
    reveal_strlit("config.json");
    reveal_strlit("clipboard.db");
    let names = seq!["config.json"@];
    assert("config.json"@.len() != "clipboard.db"@.len());
    assert(names.len() == 1 && names[0] != "clipboard.db"@);
}

/// A database without a copy makes a move incomplete.
pub proof fn law_database_needs_a_copy(path: Seq<char>, src: Seq<char>, size: u64)
    requires
        names_below(path, src) == Some(seq!["clipboard.db"@]),
    ensures
        file_fault(path, src, size, None) == Some(VerifyView::Missing("clipboard.db"@)),
{
    reveal_strlit("clipboard.db");
    reveal_strlit("logs");
    let names = seq!["clipboard.db"@];
    assert("clipboard.db"@.len() != "logs"@.len());
    let c = relative(path, src)->0;
    assert(names == c.map_values(|x: ComponentView| x->Normal_0));
    assert(names[0] == c[0]->Normal_0);
    assert(join(names, "\\"@) =~= "clipboard.db"@) by {
        reveal_with_fuel(join, 2);
    }
}

/// After the database, the pictures and the thumbnails were copied as they are, the move is complete,
/// whatever else the data directory holds.
pub proof fn law_copied_data_is_complete(
    src: Seq<char>,
    files: Seq<(Seq<char>, u64)>,
    found: Seq<Option<u64>>,
)
    requires
        files.len() == found.len(),
        forall|i: int|
            0 <= i < files.len() ==> (names_below((#[trigger] files[i]).0, src) matches Some(n) && (
            n.len() > 0 && data_names().contains(n[0]) && n[0] != "logs"@ ==> found[i] == Some(
                files[i].1,
            ))),
    ensures
        move_fault(src, files, found) is None,
{
    law_move_is_complete(src, files, found);
    assert forall|i: int| 0 <= i < files.len() implies file_fault(
        (#[trigger] files[i]).0,
        src,
        files[i].1,
        found[i],
    ) is None by {
        let n = names_below(files[i].0, src)->0;
        if is_checked(n) {
            reveal_strlit("clipboard.db");
            reveal_strlit("images");
            reveal_strlit("thumbs");
            reveal_strlit("logs");
            assert(data_names()[0] == "clipboard.db"@);
            assert(data_names()[1] == "images"@);
            assert(data_names()[2] == "thumbs"@);
            assert("logs"@.len() == 4);
        }
    }
}

/// A step of a move, with the one that comes after it.
#[derive(Clone, Copy, PartialEq, Eq, Structural, Debug)]
pub enum MoveStep {
    /// The data is copied.
    Copy,
    /// The copy is checked.
    Verify,
    /// The paths in the copied database are changed.
    UpdatePaths,
    /// The settings are stored.
    SaveConfig,
}

/// What comes after a step of a move.
pub enum MoveNext {
    /// The next step.
    Go(MoveStep),
    /// The target is cleaned up again, and the move fails with this message; the data stays where
    /// it is.
    RollBack(String),
    /// The move fails with this message.
    Fail(String),
    /// The move is done.
    Done,
}

/// The step that comes after one that went well; none after the last.
pub open spec fn next_step(step: MoveStep) -> Option<MoveStep> {
    match step {
        MoveStep::Copy => Some(MoveStep::Verify),
        MoveStep::Verify => Some(MoveStep::UpdatePaths),
        MoveStep::UpdatePaths => Some(MoveStep::SaveConfig),
        MoveStep::SaveConfig => None,
    }
}

/// What comes after a step of a move that went well, or failed with a message.
pub fn migrate_storage(step: MoveStep, result: Result<(), String>) -> (r: MoveNext)
    ensures
        match (r, result) {
            (MoveNext::Go(next), Ok(_)) => match step {
                MoveStep::Copy => next == MoveStep::Verify,
                MoveStep::Verify => next == MoveStep::UpdatePaths,
                MoveStep::UpdatePaths => next == MoveStep::SaveConfig,
                MoveStep::SaveConfig => false,
            },
            (MoveNext::Done, Ok(_)) => step == MoveStep::SaveConfig,
            (MoveNext::RollBack(m), Err(e)) => step != MoveStep::SaveConfig && m == e,
            (MoveNext::Fail(m), Err(e)) => step == MoveStep::SaveConfig && m == e,
            _ => false,
        },
        result is Ok ==> match next_step(step) {
            Some(n) => r == MoveNext::Go(n),
            None => r is Done,
        },
        result is Err ==> !(r is Go) && !(r is Done),
{
    match result {
        Ok(_) => match step {
            MoveStep::Copy => MoveNext::Go(MoveStep::Verify),
            MoveStep::Verify => MoveNext::Go(MoveStep::UpdatePaths),
            MoveStep::UpdatePaths => MoveNext::Go(MoveStep::SaveConfig),
            MoveStep::SaveConfig => MoveNext::Done,
        },
        Err(e) => match step {
            MoveStep::SaveConfig => MoveNext::Fail(e),
            _ => MoveNext::RollBack(e),
        },
    }
}

/// The target of a move, out of the settings that ask for it.
pub fn move_target(settings: &AppConfig) -> (r: String)
    ensures
        r@ == trim(settings@.storage_path),
{
    trim_text(&settings.storage_path)
}

/// The settings `c` after a move to `target` that has left `old_dir` behind.
pub open spec fn moved_settings(c: ConfigView, target: Seq<char>, old_dir: Seq<char>) -> ConfigView {
    ConfigView { storage_path: target, pending_cleanup_dir: Some(old_dir), ..c }
}

/// The settings after a move: they name the target, and the data directory that was left behind, to
/// be cleaned up at the next start.
pub fn moved_config(settings: &AppConfig, old_data_dir: &str) -> (r: AppConfig)
    ensures
        r@ == (ConfigView {
            storage_path: trim(settings@.storage_path),
            pending_cleanup_dir: Some(old_data_dir@),
            ..settings@
        }),
        r@ == moved_settings(settings@, trim(settings@.storage_path), old_data_dir@),
{
    let mut c = settings.copy();
    c.storage_path = move_target(settings);
    c.pending_cleanup_dir = Some(old_data_dir.to_string());
    c
}

/// The message that a move is done.
pub fn moved_message(target: &str) -> (r: String)
    ensures
        r@ == "数据已迁移到 "@ + target@ + "，程序将重启"@,
{
    let mut m = "数据已迁移到 ".to_string();
    push_text(&mut m, target);
    push_text(&mut m, "，程序将重启");
    m
}

} // verus!
