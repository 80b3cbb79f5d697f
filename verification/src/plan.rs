use vstd::prelude::*;

use crate::error::AppError;
use crate::input::strings_view;
use crate::path::{
    cur_part, display_path, distinct_before, dirs_overlap, has_file_name, is_first_repeat,
    is_prefix_of, join, join_of, known_overlap, path_bytes, paths_view, root_part, same_path,
    shown_text, strip_prefix, strip_prefix_of, FsPath,
};

use vstd::utf8::{decode_utf8, decode_utf8_encode_utf8, valid_utf8};

verus! {

/// The path of a file relative to a directory: the components after the
/// directory's, or the whole path when the file does not lie in it.
pub open spec fn relative_to(f: Seq<Seq<u8>>, dir: Seq<Seq<u8>>) -> Seq<Seq<u8>> {
    match strip_prefix_of(f, dir) {
        Some(r) => r,
        None => f,
    }
}

/// The relative paths of a list of files.
pub open spec fn relatives(files: Seq<Seq<Seq<u8>>>, dir: Seq<Seq<u8>>) -> Seq<Seq<Seq<u8>>> {
    Seq::new(files.len(), |i: int| relative_to(files[i], dir))
}

/// The text by which a file is known when files are written into a
/// directory: that of its path relative to the directory, or of the file
/// itself as written when it does not lie in the directory.
pub open spec fn relative_key(f: FsPath, dir: Seq<Seq<u8>>) -> Seq<char> {
    match strip_prefix_of(f@, dir) {
        Some(r) => shown_text(path_bytes(r)),
        None => shown_text(f.shown@),
    }
}

/// The texts by which a list of files is known relative to a directory.
pub open spec fn relative_keys(files: Seq<FsPath>, dir: Seq<Seq<u8>>) -> Seq<Seq<char>> {
    Seq::new(files.len(), |i: int| relative_key(files[i], dir))
}

/// The texts of the file names of a list of paths.
pub open spec fn name_keys(files: Seq<Seq<Seq<u8>>>) -> Seq<Seq<char>> {
    Seq::new(files.len(), |i: int| shown_text(files[i].last()))
}

/// The first index whose text repeats an earlier one in the list, if any.
pub fn first_repeated_text(keys: &Vec<String>) -> (r: Option<usize>)
    ensures
        match r {
            None => distinct_before(strings_view(keys@), keys@.len() as int),
            Some(j) => is_first_repeat(strings_view(keys@), j as int),
        },
{
    let ghost s = strings_view(keys@);
    let mut j: usize = 0;
    while j < keys.len()
        invariant
            j <= keys@.len(),
            s == strings_view(keys@),
            distinct_before(s, j as int),
        decreases keys.len() - j,
    {
        let mut i: usize = 0;
        while i < j
            invariant
                i <= j < keys@.len(),
                s == strings_view(keys@),
                distinct_before(s, j as int),
                forall|k: int| 0 <= k < i ==> s[k] != s[j as int],
            decreases j - i,
        {
            if keys[i] == keys[j] {
                assert(s[i as int] == s[j as int]);
                return Some(j);
            }
            i = i + 1;
        }
        j = j + 1;
    }
    None
}

/// Each path of a list joined onto a directory.
pub open spec fn joined_onto(dir: Seq<Seq<u8>>, rels: Seq<Seq<Seq<u8>>>) -> Seq<Seq<Seq<u8>>> {
    Seq::new(rels.len(), |i: int| join_of(dir, rels[i]))
}

/// The file names of a list of paths, each as a path of one component.
pub open spec fn base_names(files: Seq<Seq<Seq<u8>>>) -> Seq<Seq<Seq<u8>>> {
    Seq::new(files.len(), |i: int| seq![files[i].last()])
}

/// Whether the root and `.` stand nowhere but at the start of a path, as in
/// any path listed component by component.
pub open spec fn well_formed(p: Seq<Seq<u8>>) -> bool {
    forall|k: int| 1 <= k < p.len() ==> p[k] != root_part() && p[k] != cur_part()
}

/// Where the files of a directory go in directory mode: the output directory
/// must exist, be a directory and not overlap the input; two files must not
/// have the same relative path; then each file goes to its relative path
/// joined onto the output directory.
pub fn plan_dir_outputs(
    input_dir: &FsPath,
    output_dir: &FsPath,
    output_exists: bool,
    output_is_dir: bool,
    canonical_in: &Option<FsPath>,
    canonical_out: &Option<FsPath>,
    files: &Vec<FsPath>,
) -> (r: Result<Vec<FsPath>, AppError>)
    ensures
        !output_exists ==> (r matches Err(AppError::OutputDirNotFound(p)) && p@ == output_dir@ && p.shown@ == output_dir.shown@),
        output_exists && !output_is_dir ==> (r matches Err(AppError::OutputNotDir(p)) && p@ == output_dir@ && p.shown@ == output_dir.shown@),
        output_exists && output_is_dir && known_overlap(*canonical_in, *canonical_out) ==> (r matches Err(
            AppError::OutputOverlapsInput(p),
        ) && p@ == output_dir@ && p.shown@ == output_dir.shown@),
        output_exists && output_is_dir && !known_overlap(*canonical_in, *canonical_out) ==> ({
            let rels = relatives(paths_view(files@), input_dir@);
            let keys = relative_keys(files@, input_dir@);
            &&& distinct_before(keys, keys.len() as int) ==> (r matches Ok(v) && paths_view(v@)
                == joined_onto(output_dir@, rels))
            &&& !distinct_before(keys, keys.len() as int) ==> (r matches Err(AppError::BasenameConflict(p))
                && exists|j: int| is_first_repeat(keys, j) && p@ == rels[j] && shown_text(p.shown@) == keys[j])
        }),
{
    if !output_exists {
        return Err(AppError::OutputDirNotFound(output_dir.duplicate()));
    }
    if !output_is_dir {
        return Err(AppError::OutputNotDir(output_dir.duplicate()));
    }
    if dirs_overlap(canonical_in, canonical_out) {
        return Err(AppError::OutputOverlapsInput(output_dir.duplicate()));
    }
    let ghost rels = relatives(paths_view(files@), input_dir@);
    let ghost wanted_keys = relative_keys(files@, input_dir@);
    let mut rel_paths: Vec<FsPath> = Vec::new();
    let mut keys: Vec<String> = Vec::new();
    let mut i: usize = 0;
    while i < files.len()
        invariant
            i <= files@.len(),
            rels == relatives(paths_view(files@), input_dir@),
            wanted_keys == relative_keys(files@, input_dir@),
            paths_view(rel_paths@) == rels.take(i as int),
            rel_paths@.len() == i,
            forall|k: int| 0 <= k < i ==> shown_text(#[trigger] rel_paths@[k].shown@) == wanted_keys[k],
            strings_view(keys@) == wanted_keys.take(i as int),
        decreases files.len() - i,
    {
        let rel = match strip_prefix(&files[i], input_dir) {
            Some(r) => r,
            None => files[i].duplicate(),
        };
        let key = display_path(&rel);
        let ghost prev = paths_view(rel_paths@);
        let ghost prev_keys = strings_view(keys@);
        rel_paths.push(rel);
        keys.push(key);
        assert(paths_view(rel_paths@) =~= prev.push(rels[i as int]));
        assert(strings_view(keys@) =~= prev_keys.push(wanted_keys[i as int]));
        i = i + 1;
        assert(paths_view(rel_paths@) =~= rels.take(i as int));
        assert(strings_view(keys@) =~= wanted_keys.take(i as int));
    }
    assert(rels.take(i as int) =~= rels);
    assert(wanted_keys.take(i as int) =~= wanted_keys);
    match first_repeated_text(&keys) {
        Some(j) => {
            let conflict = rel_paths[j].duplicate();
            return Err(AppError::BasenameConflict(conflict));
        },
        None => {},
    }
    let mut outs: Vec<FsPath> = Vec::new();
    let mut k: usize = 0;
    while k < rel_paths.len()
        invariant
            k <= rel_paths@.len(),
            paths_view(rel_paths@) == rels,
            paths_view(outs@) == joined_onto(output_dir@, rels).take(k as int),
        decreases rel_paths.len() - k,
    {
        let out = join(output_dir, &rel_paths[k]);
        let ghost prev = paths_view(outs@);
        outs.push(out);
        assert(paths_view(outs@) =~= prev.push(join_of(output_dir@, rels[k as int])));
        k = k + 1;
        assert(paths_view(outs@) =~= joined_onto(output_dir@, rels).take(k as int));
    }
    assert(joined_onto(output_dir@, rels).take(k as int) =~= joined_onto(output_dir@, rels));
    Ok(outs)
}

/// Files whose names are valid UTF-8 and differ from one another are never
/// known by the same text when written into a directory: the text of a name
/// given as valid UTF-8 tells the name apart from any other such name.
pub proof fn different_names_have_different_keys(files: Seq<Seq<Seq<u8>>>)
    requires
        forall|i: int| 0 <= i < files.len() ==> valid_utf8(#[trigger] files[i].last()),
        forall|i: int, j: int| 0 <= i < j < files.len() ==> files[i].last() != files[j].last(),
    ensures
        forall|i: int, j: int| 0 <= i < j < files.len() ==> name_keys(files)[i] != name_keys(files)[j],
{
    assert forall|i: int, j: int| 0 <= i < j < files.len() implies name_keys(files)[i] != name_keys(files)[j] by {
        let a = files[i].last();
        let b = files[j].last();
        assert(valid_utf8(a) && valid_utf8(b));
        if name_keys(files)[i] == name_keys(files)[j] {
            assert(shown_text(a) == decode_utf8(a));
            assert(shown_text(b) == decode_utf8(b));
            decode_utf8_encode_utf8(a);
            decode_utf8_encode_utf8(b);
        }
    }
}

/// A file name joined onto a directory is the directory with the name
/// added as its last component.
proof fn lemma_names_joined(dir: Seq<Seq<u8>>, files: Seq<Seq<Seq<u8>>>)
    requires
        forall|i: int| 0 <= i < files.len() ==> has_file_name(#[trigger] files[i]),
    ensures
        forall|i: int| 0 <= i < files.len() ==> #[trigger] joined_onto(dir, base_names(files))[i] == dir.push(files[i].last()),
{
    assert forall|i: int| 0 <= i < files.len() implies #[trigger] joined_onto(dir, base_names(files))[i] == dir.push(
        files[i].last(),
    ) by {
        assert(has_file_name(files[i]));
        let one = seq![files[i].last()];
        assert(base_names(files)[i] == one);
        assert(one[0] != root_part());
        assert(one[0] != cur_part());
        assert(dir + one =~= dir.push(files[i].last()));
    }
}

/// Where several files go when written into an output directory: the
/// directory must exist and be a directory; two files must not have the same
/// file name; then each file goes to its file name joined onto the directory.
pub fn plan_file_outputs(
    files: &Vec<FsPath>,
    output_dir: &FsPath,
    output_exists: bool,
    output_is_dir: bool,
) -> (r: Result<Vec<FsPath>, AppError>)
    requires
        output_exists && output_is_dir ==> forall|i: int|
            0 <= i < files@.len() ==> has_file_name(#[trigger] files@[i]@),
    ensures
        !output_exists ==> (r matches Err(AppError::OutputDirNotFound(p)) && p@ == output_dir@ && p.shown@ == output_dir.shown@),
        output_exists && !output_is_dir ==> (r matches Err(AppError::OutputNotDir(p)) && p@ == output_dir@ && p.shown@ == output_dir.shown@),
        output_exists && output_is_dir ==> ({
            let names = base_names(paths_view(files@));
            let keys = name_keys(paths_view(files@));
            &&& distinct_before(keys, keys.len() as int) ==> (r matches Ok(v) && paths_view(v@)
                == joined_onto(output_dir@, names))
            &&& !distinct_before(keys, keys.len() as int) ==> (r matches Err(AppError::BasenameConflict(p))
                && exists|j: int| is_first_repeat(keys, j) && p@ == names[j] && shown_text(p.shown@) == keys[j])
        }),
        output_exists && output_is_dir && (forall|i: int|
            0 <= i < files@.len() ==> valid_utf8(#[trigger] files@[i]@.last())) && (forall|i: int, j: int|
            0 <= i < j < files@.len() ==> files@[i]@.last() != files@[j]@.last()) ==> (r matches Ok(v) && v@.len()
            == files@.len() && forall|i: int| 0 <= i < v@.len() ==> #[trigger] v@[i]@ == output_dir@.push(files@[i]@.last())),
{
    proof {
        if output_exists && output_is_dir {
            let fv = paths_view(files@);
            assert forall|i: int| 0 <= i < fv.len() implies has_file_name(#[trigger] fv[i]) by {
                assert(has_file_name(files@[i]@));
            }
            lemma_names_joined(output_dir@, fv);
            if (forall|i: int| 0 <= i < files@.len() ==> valid_utf8(#[trigger] files@[i]@.last())) && (forall|
                i: int,
                j: int,
            | 0 <= i < j < files@.len() ==> files@[i]@.last() != files@[j]@.last()) {
                assert forall|i: int| 0 <= i < fv.len() implies valid_utf8(#[trigger] fv[i].last()) by {
                    assert(valid_utf8(files@[i]@.last()));
                }
                assert forall|i: int, j: int| 0 <= i < j < fv.len() implies fv[i].last() != fv[j].last() by {
                    assert(files@[i]@.last() != files@[j]@.last());
                }
                different_names_have_different_keys(fv);
            }
        }
    }
    if !output_exists {
        return Err(AppError::OutputDirNotFound(output_dir.duplicate()));
    }
    if !output_is_dir {
        return Err(AppError::OutputNotDir(output_dir.duplicate()));
    }
    let ghost names = base_names(paths_view(files@));
    let ghost wanted_keys = name_keys(paths_view(files@));
    let mut name_paths: Vec<FsPath> = Vec::new();
    let mut keys: Vec<String> = Vec::new();
    let mut i: usize = 0;
    while i < files.len()
        invariant
            i <= files@.len(),
            names == base_names(paths_view(files@)),
            wanted_keys == name_keys(paths_view(files@)),
            forall|k: int| 0 <= k < files@.len() ==> has_file_name(#[trigger] files@[k]@),
            paths_view(name_paths@) == names.take(i as int),
            name_paths@.len() == i,
            forall|k: int| 0 <= k < i ==> shown_text(#[trigger] name_paths@[k].shown@) == wanted_keys[k],
            strings_view(keys@) == wanted_keys.take(i as int),
        decreases files.len() - i,
    {
        assert(has_file_name(files@[i as int]@));
        let name = match files[i].file_name() {
            Some(n) => n,
            None => Vec::new(),
        };
        let mut parts: Vec<Vec<u8>> = Vec::new();
        parts.push(name);
        let single = FsPath::new(parts);
        assert(single@ =~= seq![files@[i as int]@.last()]);
        proof {
            let one = single@;
            assert(one.drop_last() =~= Seq::<Seq<u8>>::empty());
            assert(path_bytes(one.drop_last()) =~= Seq::<u8>::empty());
            assert(one.last() != root_part());
            assert(path_bytes(one) == one.last());
        }
        let key = display_path(&single);
        let ghost prev = paths_view(name_paths@);
        let ghost prev_keys = strings_view(keys@);
        name_paths.push(single);
        keys.push(key);
        assert(paths_view(name_paths@) =~= prev.push(names[i as int]));
        assert(strings_view(keys@) =~= prev_keys.push(wanted_keys[i as int]));
        i = i + 1;
        assert(paths_view(name_paths@) =~= names.take(i as int));
        assert(strings_view(keys@) =~= wanted_keys.take(i as int));
    }
    assert(names.take(i as int) =~= names);
    assert(wanted_keys.take(i as int) =~= wanted_keys);
    match first_repeated_text(&keys) {
        Some(j) => {
            let conflict = name_paths[j].duplicate();
            return Err(AppError::BasenameConflict(conflict));
        },
        None => {},
    }
    let mut outs: Vec<FsPath> = Vec::new();
    let mut k: usize = 0;
    while k < name_paths.len()
        invariant
            k <= name_paths@.len(),
            paths_view(name_paths@) == names,
            paths_view(outs@) == joined_onto(output_dir@, names).take(k as int),
        decreases name_paths.len() - k,
    {
        let out = join(output_dir, &name_paths[k]);
        let ghost prev = paths_view(outs@);
        outs.push(out);
        assert(paths_view(outs@) =~= prev.push(join_of(output_dir@, names[k as int])));
        k = k + 1;
        assert(paths_view(outs@) =~= joined_onto(output_dir@, names).take(k as int));
    }
    assert(joined_onto(output_dir@, names).take(k as int) =~= joined_onto(output_dir@, names));
    assert forall|i: int| 0 <= i < outs@.len() implies #[trigger] outs@[i]@ == output_dir@.push(files@[i]@.last()) by {
        assert(paths_view(outs@)[i] == outs@[i]@);
        assert(paths_view(files@)[i] == files@[i]@);
        assert(joined_onto(output_dir@, base_names(paths_view(files@)))[i] == output_dir@.push(
            paths_view(files@)[i].last(),
        ));
    }
    Ok(outs)
}

/// The check made before a file is written to an output path: the two must
/// not be the same file, as their canonical forms tell where the input's
/// could be had.
pub fn check_distinct_target(
    input: &FsPath,
    canonical_in: &Option<FsPath>,
    canonical_out: &Option<FsPath>,
) -> (r: Result<(), AppError>)
    ensures
        (match (canonical_in, canonical_out) {
            (Some(a), Some(b)) => a@ == b@,
            _ => false,
        }) ==> (r matches Err(AppError::InputOutputSame(p)) && p@ == input@ && p.shown@ == input.shown@),
        !(match (canonical_in, canonical_out) {
            (Some(a), Some(b)) => a@ == b@,
            _ => false,
        }) ==> r is Ok,
{
    match (canonical_in, canonical_out) {
        (Some(a), Some(b)) => {
            if same_path(a, b) {
                return Err(AppError::InputOutputSame(input.duplicate()));
            }
        },
        _ => {},
    }
    Ok(())
}

/// Directory mode keeps the structure of the input: when the files lie in a
/// (non-empty) input directory and no two are known by the same relative
/// text, each output lies in the output directory at the file's path
/// relative to the input directory, and no two files go to the same output.
pub proof fn dir_outputs_keep_structure(
    input_dir: Seq<Seq<u8>>,
    output_dir: Seq<Seq<u8>>,
    files: Seq<FsPath>,
)
    requires
        input_dir.len() > 0,
        forall|i: int| 0 <= i < files.len() ==> is_prefix_of(input_dir, #[trigger] files[i]@),
        forall|i: int| 0 <= i < files.len() ==> well_formed(#[trigger] files[i]@),
        distinct_before(relative_keys(files, input_dir), files.len() as int),
    ensures
        forall|i: int|
            0 <= i < files.len() ==> strip_prefix_of(
                #[trigger] joined_onto(output_dir, relatives(paths_view(files), input_dir))[i],
                output_dir,
            ) == Some(files[i]@.skip(input_dir.len() as int)),
        distinct_before(joined_onto(output_dir, relatives(paths_view(files), input_dir)), files.len() as int),
{
    let views = paths_view(files);
    let rels = relatives(views, input_dir);
    let keys = relative_keys(files, input_dir);
    let outs = joined_onto(output_dir, rels);
    assert forall|i: int| 0 <= i < files.len() implies outs[i] == output_dir + rels[i] && rels[i] == files[i]@.skip(
        input_dir.len() as int,
    ) && keys[i] == shown_text(path_bytes(rels[i])) by {
        assert(views[i] == files[i]@);
        assert(is_prefix_of(input_dir, files[i]@));
        assert(well_formed(files[i]@));
        let r = files[i]@.skip(input_dir.len() as int);
        if r.len() > 0 {
            assert(r[0] == files[i]@[input_dir.len() as int]);
        }
    }
    assert forall|i: int| 0 <= i < files.len() implies #[trigger] strip_prefix_of(outs[i], output_dir) == Some(
        files[i]@.skip(input_dir.len() as int),
    ) by {
        assert((output_dir + rels[i]).take(output_dir.len() as int) =~= output_dir);
        assert((output_dir + rels[i]).skip(output_dir.len() as int) =~= rels[i]);
    }
    assert forall|i: int, j: int| 0 <= i < j < files.len() implies outs[i] != outs[j] by {
        assert(keys[i] != keys[j]);
        assert(rels[i] != rels[j]);
        if outs[i] == outs[j] {
            assert((output_dir + rels[i]).skip(output_dir.len() as int) =~= rels[i]);
            assert((output_dir + rels[j]).skip(output_dir.len() as int) =~= rels[j]);
        }
    }
}

/// Several files written into one directory never meet: when no two of them
/// are known by the same file name text, each goes to its own file name in
/// the output directory, and no two go to the same output.
pub proof fn file_outputs_are_distinct(output_dir: Seq<Seq<u8>>, files: Seq<Seq<Seq<u8>>>)
    requires
        forall|i: int| 0 <= i < files.len() ==> has_file_name(#[trigger] files[i]),
        distinct_before(name_keys(files), files.len() as int),
    ensures
        forall|i: int|
            0 <= i < files.len() ==> #[trigger] joined_onto(output_dir, base_names(files))[i] == output_dir.push(
                files[i].last(),
            ),
        distinct_before(joined_onto(output_dir, base_names(files)), files.len() as int),
{
    let names = base_names(files);
    let outs = joined_onto(output_dir, names);
    assert forall|i: int| 0 <= i < files.len() implies #[trigger] outs[i] == output_dir.push(files[i].last()) by {
        assert(has_file_name(files[i]));
        assert(names[i] == seq![files[i].last()]);
        assert(names[i][0] != root_part());
        assert(names[i][0] != cur_part());
        assert(output_dir + names[i] =~= output_dir.push(files[i].last()));
    }
    assert forall|i: int, j: int| 0 <= i < j < files.len() implies outs[i] != outs[j] by {
        assert(name_keys(files)[i] != name_keys(files)[j]);
        if outs[i] == outs[j] {
            assert(outs[i].last() == files[i].last());
            assert(outs[j].last() == files[j].last());
            assert(names[i] =~= names[j]);
        }
    }
}

} // verus!
