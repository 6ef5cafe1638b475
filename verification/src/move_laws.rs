//! What a move of the data keeps: where the data may go, what has to be copied, where copies are
//! looked for, and what becomes of stored paths and settings.

use crate::config::{default_config, loaded, ConfigFile, ConfigView};
use crate::migrate::{
    copy_place, data_names, file_fault, in_logs, is_checked, law_move_is_complete, move_fault,
    moved_settings, names_below, next_step, rel_path, system_dirs_of, target_fault, MoveStep,
    VerifyView, WriteTest,
};
use crate::models::RowView;
use crate::text::{join, lemma_join_push, trim};
use crate::upkeep::{migrated, migrated_row};
use crate::winpath::{
    absolute, components, is_verbatim, joined, lemma_join_first, lemma_plain_name, lemma_stem,
    prefix_of, relative, stem, written_root, ComponentView,
};
use vstd::prelude::*;

verus! {

/// Whether the path lies in the data directory `src`, right in it or deeper.
pub open spec fn below(path: Seq<char>, src: Seq<char>) -> bool {
    &&& components(src).len() <= components(path).len()
    &&& forall|i: int| 0 <= i < components(src).len() ==> #[trigger] components(path)[i]
        == components(src)[i]
}

/// Whether a file in the data directory `src` is its database, or lies in the directory of pictures
/// or in that of thumbnails.
pub open spec fn is_data(path: Seq<char>, src: Seq<char>) -> bool {
    let n = components(src).len() as int;
    let p = components(path);
    ||| p.len() == n + 1 && p[n] == ComponentView::Normal("clipboard.db"@)
    ||| p.len() > n + 1 && (p[n] == ComponentView::Normal("images"@) || p[n]
        == ComponentView::Normal("thumbs"@))
}

/// Whether a file in the data directory `src` lies in the directory of logs, or is called so.
pub open spec fn is_log(path: Seq<char>, src: Seq<char>) -> bool {
    let n = components(src).len() as int;
    components(path).len() > n && components(path)[n] == ComponentView::Normal("logs"@)
}

/// Whether the way from the data directory `src` to the path goes by names alone.
pub open spec fn by_names(path: Seq<char>, src: Seq<char>) -> bool {
    forall|i: int|
        components(src).len() <= i < components(path).len() ==> #[trigger] components(path)[i] is Normal
}

proof fn lemma_below(path: Seq<char>, src: Seq<char>)
    ensures
        below(path, src) == relative(path, src) is Some,
        below(path, src) ==> relative(path, src) == Some(
            components(path).skip(components(src).len() as int),
        ),
{
    let p = components(path);
    let b = components(src);
    if below(path, src) {
        assert(b =~= p.subrange(0, b.len() as int));
    }
    if relative(path, src) is Some {
        assert forall|i: int| 0 <= i < b.len() implies #[trigger] p[i] == b[i] by {
            assert(p.subrange(0, b.len() as int)[i] == p[i]);
        }
    }
}

/// A file of the data directory is found right after a move where it lies in the logs, or is no part
/// of the data, or has a copy of its own size. A file of the data without a copy, or with a copy of
/// another size, makes the move incomplete, and so does a file that is not in the data directory.
pub proof fn law_each_file_has_its_copy(
    path: Seq<char>,
    src: Seq<char>,
    size: u64,
    found: Option<u64>,
)
    ensures
        file_fault(path, src, size, found) is None <==> below(path, src) && (is_log(path, src) || (
        by_names(path, src) && (is_data(path, src) ==> found == Some(size)))),
        file_fault(path, src, size, found) matches Some(VerifyView::Missing(_)) ==> found is None
            && is_data(path, src),
        file_fault(path, src, size, found) matches Some(VerifyView::SizeDiffers(_, a, b)) ==> a
            == size && found == Some(b) && a != b && is_data(path, src),
{
    reveal_strlit("clipboard.db");
    reveal_strlit("images");
    reveal_strlit("thumbs");
    reveal_strlit("logs");
    assert("clipboard.db"@.len() == 12 && "images"@.len() == 6 && "thumbs"@.len() == 6
        && "logs"@.len() == 4);
    lemma_below(path, src);
    let p = components(path);
    let n = components(src).len() as int;
    if below(path, src) {
        let c = p.skip(n);
        assert(c.len() > 0 ==> c[0] == p[n]);
        assert(in_logs(path, src) == is_log(path, src));
        assert((forall|i: int| 0 <= i < c.len() ==> #[trigger] c[i] is Normal) == by_names(
            path,
            src,
        )) by {
            if by_names(path, src) {
                assert forall|i: int| 0 <= i < c.len() implies #[trigger] c[i] is Normal by {
                    assert(p[n + i] is Normal);
                }
            }
            if forall|i: int| 0 <= i < c.len() ==> #[trigger] c[i] is Normal {
                assert forall|i: int| n <= i < p.len() implies #[trigger] p[i] is Normal by {
                    assert(c[i - n] == p[i]);
                }
            }
        }
        if by_names(path, src) {
            let names = names_below(path, src)->0;
            assert(names == c.map_values(|x: ComponentView| x->Normal_0));
            assert(names.len() > 0 ==> names[0] == c[0]->Normal_0);
            assert(is_checked(names) == is_data(path, src)) by {
                if is_data(path, src) && p.len() == n + 1 {
                    assert(names =~= seq!["clipboard.db"@]);
                }
                if names == seq!["clipboard.db"@] {
                    assert(names.len() == 1 && names[0] == "clipboard.db"@);
                }
            }
        }
    }
}

/// A move that is found complete has, for every file of the data directory that is the database or
/// lies among the pictures or the thumbnails, a copy of the size of the file.
pub proof fn law_complete_move_has_every_copy(
    src: Seq<char>,
    files: Seq<(Seq<char>, u64)>,
    found: Seq<Option<u64>>,
    i: int,
)
    requires
        files.len() == found.len(),
        0 <= i < files.len(),
        is_data(files[i].0, src),
        move_fault(src, files, found) is None,
    ensures
        found[i] == Some(files[i].1),
{
    reveal_strlit("clipboard.db");
    reveal_strlit("images");
    reveal_strlit("thumbs");
    reveal_strlit("logs");
    assert("clipboard.db"@.len() == 12 && "images"@.len() == 6 && "thumbs"@.len() == 6
        && "logs"@.len() == 4);
    law_move_is_complete(src, files, found);
    assert(file_fault(files[i].0, src, files[i].1, found[i]) is None);
    law_each_file_has_its_copy(files[i].0, src, files[i].1, found[i]);
}

/// A move is found complete exactly where each file is found right, and otherwise the first file that
/// is not is told.
pub proof fn law_first_fault_is_told(
    src: Seq<char>,
    files: Seq<(Seq<char>, u64)>,
    found: Seq<Option<u64>>,
    k: int,
)
    requires
        files.len() == found.len(),
        0 <= k <= files.len(),
        forall|i: int|
            0 <= i < k ==> file_fault((#[trigger] files[i]).0, src, files[i].1, found[i]) is None,
        k < files.len() ==> file_fault(files[k].0, src, files[k].1, found[k]) is Some,
    ensures
        move_fault(src, files, found) == if k < files.len() {
            file_fault(files[k].0, src, files[k].1, found[k])
        } else {
            None
        },
    decreases files.len(),
{
    if k > 0 {
        assert(file_fault(files[0].0, src, files[0].1, found[0]) is None);
        let (f, g) = (files.drop_first(), found.drop_first());
        assert forall|i: int| 0 <= i < k - 1 implies file_fault(
            (#[trigger] f[i]).0,
            src,
            f[i].1,
            g[i],
        ) is None by {
            assert(f[i] == files[i + 1]);
            assert(g[i] == found[i + 1]);
        }
        law_first_fault_is_told(src, f, g, k - 1);
    }
}

/// The way to a file is written with a backslash between names.
pub proof fn law_way_to_a_file(names: Seq<Seq<char>>, name: Seq<char>)
    ensures
        rel_path(seq![name]) == name,
        names.len() > 0 ==> rel_path(names.push(name)) == rel_path(names).push('\\') + name,
{
    reveal_strlit("\\");
    assert("\\"@ =~= seq!['\\']);
    assert(seq![name] =~= Seq::<Seq<char>>::empty().push(name));
    lemma_join_push(Seq::<Seq<char>>::empty(), name, "\\"@);
    lemma_join_push(names, name, "\\"@);
    assert(rel_path(names) + "\\"@ + name =~= rel_path(names).push('\\') + name);
}

/// The copy of a file is looked for in the target, on the same way: right after what stands before
/// every name in the target.
pub proof fn law_copy_is_looked_for_in_the_target(dst: Seq<char>, names: Seq<Seq<char>>)
    requires
        names.len() > 0,
        names[0] == "clipboard.db"@ || names[0] == "images"@ || names[0] == "thumbs"@,
        !is_verbatim(dst),
    ensures
        joined(dst, rel_path(names)) == stem(dst) + rel_path(names),
        stem(dst) == dst || stem(dst) == dst.push('\\'),
{
    reveal_strlit("clipboard.db");
    reveal_strlit("images");
    reveal_strlit("thumbs");
    reveal_strlit("\\");
    let r = rel_path(names);
    let rest = names.skip(1);
    if rest.len() > 0 {
        assert(names =~= seq![names[0]] + rest);
        lemma_join_first(names[0], rest, "\\"@);
        assert(r == names[0] + "\\"@ + join(rest, "\\"@));
    } else {
        assert(names =~= Seq::<Seq<char>>::empty().push(names[0]));
        lemma_join_push(Seq::<Seq<char>>::empty(), names[0], "\\"@);
    }
    assert(r[0] == names[0][0] && r[1] == names[0][1]);
    assert(r[0] != '\\' && r[0] != '/' && r[1] != ':');
    assert(prefix_of(r) is None);
    assert(!written_root(r));
    let none = Seq::<char>::empty();
    assert(prefix_of(none) is None);
    assert(dst + none =~= dst);
    assert(dst.push('\\') + none =~= dst.push('\\'));
    assert(joined(dst, r) =~= stem(dst) + r);
}

/// A file that is part of the data is looked for in the target, and no other is: the database by its
/// name, and a picture or a thumbnail by the whole way to it.
pub proof fn law_data_is_looked_for(path: Seq<char>, src: Seq<char>, dst: Seq<char>)
    requires
        !is_verbatim(dst),
    ensures
        copy_place(path, src, dst) is Some <==> below(path, src) && by_names(path, src) && is_data(
            path,
            src,
        ),
        copy_place(path, src, dst) matches Some(c) ==> (c.len() > dst.len() && c.take(
            dst.len() as int,
        ) == dst && ({
            let n = components(src).len() as int;
            let names = components(path).skip(n).map_values(|x: ComponentView| x->Normal_0);
            let way = rel_path(names);
            c.skip(c.len() - way.len()) == way && c.len() <= dst.len() + 1 + way.len()
        })),
{
    law_each_file_has_its_copy(path, src, 0, None);
    lemma_below(path, src);
    reveal_strlit("clipboard.db");
    reveal_strlit("images");
    reveal_strlit("thumbs");
    reveal_strlit("logs");
    assert("clipboard.db"@.len() == 12 && "images"@.len() == 6 && "thumbs"@.len() == 6
        && "logs"@.len() == 4);
    let n = components(src).len() as int;
    if below(path, src) && copy_place(path, src, dst) is Some {
        let names = names_below(path, src)->0;
        let rest = components(path).skip(n);
        assert(names == rest.map_values(|x: ComponentView| x->Normal_0));
        assert(names.len() > 0);
        assert(names[0] == rest[0]->Normal_0);
        if names == seq!["clipboard.db"@] {
            assert(names[0] == "clipboard.db"@);
        }
        law_copy_is_looked_for_in_the_target(dst, names);
        let c = copy_place(path, src, dst)->0;
        let way = rel_path(names);
        let s = stem(dst);
        assert(way.len() > 0) by {
            let init = names.drop_last();
            assert(names =~= init.push(names.last()));
            lemma_join_push(init, names.last(), "\\"@);
            reveal_strlit("\\");
            if init.len() == 0 {
                assert(names.last() == names[0]);
            }
        }
        assert(c == s + way);
        assert(c.take(dst.len() as int) =~= dst);
        assert(c.skip(c.len() - way.len()) =~= way);
        assert forall|i: int| n <= i < components(path).len() implies #[trigger] components(
            path,
        )[i] is Normal by {
            assert(rest[i - n] is Normal);
        }
    }
    if below(path, src) && by_names(path, src) && is_data(path, src) {
        let rest = components(path).skip(n);
        assert forall|i: int| 0 <= i < rest.len() implies #[trigger] rest[i] is Normal by {
            assert(components(path)[n + i] is Normal);
        }
        assert(rest[0] == components(path)[n]);
        let names = names_below(path, src)->0;
        assert(names[0] == rest[0]->Normal_0);
        if components(path).len() == n + 1 {
            assert(names =~= seq!["clipboard.db"@]);
        }
    }
}

/// The settings are stored last: before that the data is copied, then the copy is checked, then the
/// paths in it are changed.
pub proof fn law_steps_of_a_move()
    ensures
        next_step(MoveStep::Copy) == Some(MoveStep::Verify),
        next_step(MoveStep::Verify) == Some(MoveStep::UpdatePaths),
        next_step(MoveStep::UpdatePaths) == Some(MoveStep::SaveConfig),
        next_step(MoveStep::SaveConfig) is None,
        forall|s: MoveStep| #[trigger] next_step(s) == Some(MoveStep::SaveConfig) ==> s
            == MoveStep::UpdatePaths,
{
}

/// After a move the settings name the target as the data directory, and the old one as to be cleaned
/// up; for how long records are kept, and whether the program starts with the system, stays.
pub proof fn law_settings_after_a_move(c: ConfigView, target: Seq<char>, old_dir: Seq<char>)
    ensures
        moved_settings(c, target, old_dir).storage_path == target,
        moved_settings(c, target, old_dir).pending_cleanup_dir == Some(old_dir),
        moved_settings(c, target, old_dir).retention_days == c.retention_days,
        moved_settings(c, target, old_dir).auto_start == c.auto_start,
{
}

/// The data is the database, the pictures, the thumbnails and the logs.
pub proof fn law_what_the_data_is(n: Seq<char>)
    ensures
        data_names().contains(n) <==> n == "clipboard.db"@ || n == "images"@ || n == "thumbs"@ || n
            == "logs"@,
        data_names().len() == 4,
{
    let v = data_names();
    assert(v[0] == "clipboard.db"@ && v[1] == "images"@ && v[2] == "thumbs"@ && v[3] == "logs"@);
}

/// What is cleaned up in a directory that is given up is the data in it, each part under its name.
pub proof fn law_cleaned_paths(dir: Seq<char>, p: Seq<char>)
    ensures
        data_names().map_values(|n: Seq<char>| joined(dir, n)).contains(p) <==> p == stem(dir)
            + "clipboard.db"@ || p == stem(dir) + "images"@ || p == stem(dir) + "thumbs"@ || p
            == stem(dir) + "logs"@,
{
    reveal_strlit("clipboard.db");
    reveal_strlit("images");
    reveal_strlit("thumbs");
    reveal_strlit("logs");
    lemma_plain_name("clipboard.db"@);
    lemma_plain_name("images"@);
    lemma_plain_name("thumbs"@);
    lemma_plain_name("logs"@);
    lemma_stem(dir, "clipboard.db"@);
    lemma_stem(dir, "images"@);
    lemma_stem(dir, "thumbs"@);
    lemma_stem(dir, "logs"@);
    let v = data_names().map_values(|n: Seq<char>| joined(dir, n));
    assert(v[0] == joined(dir, "clipboard.db"@));
    assert(v[1] == joined(dir, "images"@));
    assert(v[2] == joined(dir, "thumbs"@));
    assert(v[3] == joined(dir, "logs"@));
}

/// The directories of the system are those that the system names, and one more; data never goes into
/// one of them.
pub proof fn law_directories_of_the_system(
    windir: Seq<char>,
    program_files: Seq<char>,
    program_data: Seq<char>,
    p: Seq<char>,
)
    ensures
        system_dirs_of(windir, program_files, program_data).contains(p) <==> p == windir || p
            == program_files || p == program_data || p == "C:\\Program Files (x86)"@,
{
    let v = system_dirs_of(windir, program_files, program_data);
    assert(v[0] == windir && v[1] == program_files && v[2] == "C:\\Program Files (x86)"@ && v[3]
        == program_data);
}

/// A target is accepted exactly where it is an absolute path on a drive, other than the data
/// directory, that could be written to, and lies in no directory of the system that has a name, nor in
/// that of the program.
pub proof fn law_target_is_safe(
    new_path: Seq<char>,
    old_dir: Seq<char>,
    test: WriteTest,
    system_dirs: Seq<Seq<char>>,
    program_dir: Option<Seq<char>>,
)
    ensures
        target_fault(new_path, old_dir, test, system_dirs, program_dir) is None <==> {
            &&& new_path.len() > 0
            &&& prefix_of(new_path) matches Some(x) && (written_root(new_path) || !(x.0 is Disk))
            &&& components(new_path).len() > 0 && (components(
                new_path,
            )[0] matches ComponentView::Prefix(x) && (x is Disk || x is VerbatimDisk))
            &&& components(new_path) != components(old_dir)
            &&& test is Written
            &&& forall|i: int|
                0 <= i < system_dirs.len() && (#[trigger] system_dirs[i]).len() > 0 ==> !below(
                    new_path,
                    system_dirs[i],
                )
            &&& program_dir matches Some(d) ==> !below(new_path, d)
        },
{
    crate::migrate::law_accepted_target(new_path, old_dir, test, system_dirs, program_dir);
    assert forall|d: Seq<char>| #[trigger] crate::winpath::under(new_path, d) == below(
        new_path,
        d,
    ) by {
        lemma_below(new_path, d);
    }
    if target_fault(new_path, old_dir, test, system_dirs, program_dir) is None {
        assert forall|i: int|
            0 <= i < system_dirs.len() && (#[trigger] system_dirs[i]).len() > 0 implies !below(
            new_path,
            system_dirs[i],
        ) by {
            assert(!crate::winpath::under(new_path, system_dirs[i]));
        }
    }
    if forall|i: int|
        0 <= i < system_dirs.len() && (#[trigger] system_dirs[i]).len() > 0 ==> !below(
            new_path,
            system_dirs[i],
        ) {
        assert forall|i: int|
            0 <= i < system_dirs.len()
                && (#[trigger] system_dirs[i]).len() > 0 implies !crate::winpath::under(
            new_path,
            system_dirs[i],
        ) by {
            assert(!below(new_path, system_dirs[i]));
        }
    }
}

/// A stored path changes exactly where it is the old data directory or goes on after it with a
/// separator: then what follows stands after the new data directory. A path that only begins alike
/// stays.
pub proof fn law_stored_path_follows_the_data(
    p: Seq<char>,
    old: Seq<char>,
    new: Seq<char>,
)
    ensures
        migrated(None, old, new) is None,
        ({
            let inside = old.len() > 0 && old.len() <= p.len() && p.take(old.len() as int) == old && (
            p.len() == old.len() || old.last() == '\\' || old.last() == '/' || p[old.len() as int]
                == '\\' || p[old.len() as int] == '/');
            migrated(Some(p), old, new) == if inside {
                Some(new + p.skip(old.len() as int))
            } else {
                Some(p)
            }
        }),
{
}

/// A move changes both stored paths of a record, each by itself, and nothing else of it.
pub proof fn law_moved_record_keeps_the_rest(r: RowView, old: Seq<char>, new: Seq<char>)
    ensures
        migrated_row(r, old, new) == (RowView {
            image_path: migrated(r.image_path, old, new),
            thumbnail_path: migrated(r.thumbnail_path, old, new),
            ..r
        }),
{
}

/// Without settings that name a data directory, the data lies where the settings do, records are kept
/// for a week, and the program does not start with the system.
pub proof fn law_settings_to_go_by(dir: Seq<char>, file: ConfigFile)
    ensures
        match file {
            ConfigFile::Read(c) if trim(c@.storage_path).len() > 0 => loaded(dir, file) == c@,
            _ => {
                let s = loaded(dir, file);
                &&& s.storage_path == dir
                &&& s.retention_days == 7
                &&& !s.auto_start
                &&& s.pending_cleanup_dir is None
            },
        },
        default_config(dir).storage_path == dir,
        default_config(dir).retention_days == 7,
        !default_config(dir).auto_start,
        default_config(dir).pending_cleanup_dir is None,
{
}

} // verus!
