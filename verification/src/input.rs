use vstd::prelude::*;

use crate::error::AppError;
use crate::path::{parent_part, path_order, DOT, path_order_is_total, paths_view, sort_paths, FsPath};
use vstd::relations::sorted_by;
use vstd::utf8::{decode_utf8, valid_utf8};

verus! {

/// The texts of a list of strings.
pub open spec fn strings_view(v: Seq<String>) -> Seq<Seq<char>> {
    Seq::new(v.len(), |i: int| v[i]@)
}

/// What a directory walk does with one entry of a directory.
#[derive(Clone, Copy, Debug, PartialEq, Eq, Structural)]
pub enum EntryAction {
    /// Leave the entry alone.
    Skip,
    /// Walk into the entry, a directory.
    Descend,
    /// Take the entry, a file whose extension is wanted.
    Collect,
}

/// What `str::to_lowercase` makes of a text.
pub uninterp spec fn lowercased(s: Seq<char>) -> Seq<char>;

/// `str::to_lowercase`: the lowercase equivalent of a text, by Unicode's
/// rules; a function of the text alone, which is all that is claimed.
#[verifier::external_body]
fn to_lowercase(s: &str) -> (r: String)
    ensures
        r@ == lowercased(s@),
{
    s.to_lowercase()
}

/// The index of the last occurrence of `c` in `s`, or -1.
pub open spec fn last_index_of(s: Seq<u8>, c: u8) -> int
    decreases s.len(),
{
    if s.len() == 0 {
        -1
    } else if s.last() == c {
        s.len() - 1
    } else {
        last_index_of(s.drop_last(), c)
    }
}

/// The extension of a file name, as `Path::extension` documents it: none
/// when there is no file name (`..`), none when the name holds no `.`, none
/// when the name begins with `.` and holds no other; otherwise the part of
/// the name after its last `.`.
pub open spec fn file_extension(name: Seq<u8>) -> Option<Seq<u8>> {
    let k = last_index_of(name, DOT);
    if name == parent_part() || k <= 0 {
        None
    } else {
        Some(name.skip(k + 1))
    }
}

proof fn lemma_last_index_of(s: Seq<u8>, c: u8)
    ensures
        -1 <= last_index_of(s, c) < s.len(),
        last_index_of(s, c) == -1 <==> forall|j: int| 0 <= j < s.len() ==> s[j] != c,
        last_index_of(s, c) >= 0 ==> s[last_index_of(s, c)] == c && forall|j: int|
            last_index_of(s, c) < j < s.len() ==> s[j] != c,
    decreases s.len(),
{
    if s.len() > 0 {
        lemma_last_index_of(s.drop_last(), c);
        if s.last() != c {
            assert forall|j: int| 0 <= j < s.len() - 1 implies s[j] == s.drop_last()[j] by {}
        }
    }
}

/// A file name has an extension exactly when it is not `..` and holds a `.`
/// somewhere after its first byte; the extension is then what follows the
/// last `.` of the name.
pub proof fn extension_follows_the_last_dot(name: Seq<u8>)
    ensures
        file_extension(name) is Some <==> name != seq![DOT, DOT] && exists|k: int| 0 < k < name.len() && name[k] == DOT,
        file_extension(name) matches Some(e) ==> exists|k: int|
            0 < k < name.len() && name[k] == DOT && (forall|j: int| k < j < name.len() ==> name[j] != DOT) && e
                == name.skip(k + 1),
{
    lemma_last_index_of(name, DOT);
    assert(parent_part() == seq![DOT, DOT]);
    let k = last_index_of(name, DOT);
    if exists|i: int| 0 < i < name.len() && name[i] == DOT {
        let i = choose|i: int| 0 < i < name.len() && name[i] == DOT;
        assert(k >= i);
    }
    if k > 0 {
        assert(0 < k < name.len() && name[k] == DOT);
    }
}

/// The text of a file name's extension: empty when it has none, or when
/// the extension is not valid UTF-8.
pub open spec fn extension_text(name: Seq<u8>) -> Seq<char> {
    match file_extension(name) {
        Some(e) => if valid_utf8(e) {
            decode_utf8(e)
        } else {
            seq![]
        },
        None => seq![],
    }
}

/// `std::str::from_utf8`, owned: the text that bytes encode when they are
/// valid UTF-8, and the decoding error otherwise, as its documentation
/// states.
#[verifier::external_body]
fn utf8_text(b: &Vec<u8>) -> (r: Result<String, std::str::Utf8Error>)
    ensures
        r is Ok <==> valid_utf8(b@),
        r matches Ok(t) ==> t@ == decode_utf8(b@),
{
    match std::str::from_utf8(b.as_slice()) {
        Ok(t) => Ok(t.to_string()),
        Err(e) => Err(e),
    }
}

/// The text of the bytes read from a file or from standard input: bytes that
/// are not valid UTF-8 are the error `Utf8`.
pub fn decode_text(bytes: &Vec<u8>) -> (r: Result<String, AppError>)
    ensures
        valid_utf8(bytes@) ==> (r matches Ok(t) && t@ == decode_utf8(bytes@)),
        !valid_utf8(bytes@) ==> r matches Err(AppError::Utf8(_)),
{
    match utf8_text(bytes) {
        Ok(t) => Ok(t),
        Err(e) => Err(AppError::from(e)),
    }
}

/// The extension of a file name, as `file_extension` states it.
pub fn extension_of(name: &Vec<u8>) -> (r: Option<Vec<u8>>)
    ensures
        match (r, file_extension(name@)) {
            (Some(e), Some(x)) => e@ == x,
            (None, None) => true,
            _ => false,
        },
        r is Some <==> name@ != seq![DOT, DOT] && exists|k: int| 0 < k < name@.len() && name@[k] == DOT,
{
    proof {
        extension_follows_the_last_dot(name@);
    }
    let n = name.len();
    if n == 2 && name[0] == DOT && name[1] == DOT {
        assert(name@ =~= parent_part());
        return None;
    }
    let mut k: usize = n;
    assert(name@.take(n as int) =~= name@);
    while k > 0 && name[k - 1] != DOT
        invariant
            k <= n,
            n == name@.len(),
            last_index_of(name@, DOT) == last_index_of(name@.take(k as int), DOT),
        decreases k,
    {
        assert(name@.take(k as int).drop_last() =~= name@.take(k - 1));
        k = k - 1;
    }
    assert(name@.take(n as int) =~= name@);
    proof {
        if k > 0 {
            assert(name@.take(k as int).last() == DOT);
        }
    }
    if k <= 1 {
        return None;
    }
    let mut ext: Vec<u8> = Vec::new();
    let mut i: usize = k;
    while i < n
        invariant
            k <= i <= n,
            n == name@.len(),
            ext@ == name@.subrange(k as int, i as int),
        decreases n - i,
    {
        ext.push(name[i]);
        i = i + 1;
        assert(ext@ =~= name@.subrange(k as int, i as int));
    }
    assert(name@.subrange(k as int, n as int) =~= name@.skip(k as int));
    Some(ext)
}

/// The set of wanted extensions: each given extension in lowercase.
pub open spec fn wanted_extensions(exts: Seq<Seq<char>>) -> Seq<Seq<char>> {
    Seq::new(exts.len(), |i: int| lowercased(exts[i]))
}

/// What a walk does with an entry: symbolic links are never followed,
/// directories are walked into, and a file is taken when its extension, in
/// lowercase, is one of the wanted ones.
pub open spec fn entry_action(name: Seq<u8>, is_symlink: bool, is_dir: bool, wanted: Seq<Seq<char>>) -> EntryAction {
    if is_symlink {
        EntryAction::Skip
    } else if is_dir {
        EntryAction::Descend
    } else if wanted.contains(lowercased(extension_text(name))) {
        EntryAction::Collect
    } else {
        EntryAction::Skip
    }
}

/// The extensions given, in lowercase: the set a walk matches against.
pub fn extension_set(exts: &Vec<String>) -> (r: Vec<String>)
    ensures
        strings_view(r@) == wanted_extensions(strings_view(exts@)),
{
    let mut out: Vec<String> = Vec::new();
    let mut i: usize = 0;
    while i < exts.len()
        invariant
            i <= exts@.len(),
            strings_view(out@) == wanted_extensions(strings_view(exts@)).take(i as int),
        decreases exts.len() - i,
    {
        let low = to_lowercase(exts[i].as_str());
        let ghost prev = strings_view(out@);
        out.push(low);
        assert(strings_view(out@) =~= prev.push(low@));
        i = i + 1;
        assert(strings_view(out@) =~= wanted_extensions(strings_view(exts@)).take(i as int));
    }
    assert(wanted_extensions(strings_view(exts@)).take(i as int) =~= wanted_extensions(strings_view(exts@)));
    out
}

fn contains_text(set: &Vec<String>, s: &String) -> (r: bool)
    ensures
        r == strings_view(set@).contains(s@),
{
    let mut i: usize = 0;
    while i < set.len()
        invariant
            i <= set@.len(),
            forall|k: int| 0 <= k < i ==> strings_view(set@)[k] != s@,
        decreases set.len() - i,
    {
        if set[i] == *s {
            assert(strings_view(set@)[i as int] == s@);
            return true;
        }
        i = i + 1;
    }
    false
}

/// What a directory walk does with an entry of the given name and kind,
/// given the set of wanted extensions.
pub fn classify_entry(name: &Vec<u8>, is_symlink: bool, is_dir: bool, wanted: &Vec<String>) -> (r: EntryAction)
    ensures
        r == entry_action(name@, is_symlink, is_dir, strings_view(wanted@)),
{
    if is_symlink {
        return EntryAction::Skip;
    }
    if is_dir {
        return EntryAction::Descend;
    }
    let ext = match extension_of(name) {
        Some(e) => match utf8_text(&e) {
            Ok(t) => t,
            Err(_) => String::new(),
        },
        None => String::new(),
    };
    assert(ext@ == extension_text(name@));
    let low = to_lowercase(ext.as_str());
    if contains_text(wanted, &low) {
        EntryAction::Collect
    } else {
        EntryAction::Skip
    }
}

/// Texts joined, with `sep` between two of them.
pub open spec fn joined(parts: Seq<Seq<char>>, sep: Seq<char>) -> Seq<char>
    decreases parts.len(),
{
    if parts.len() == 0 {
        seq![]
    } else if parts.len() == 1 {
        parts[0]
    } else {
        joined(parts.drop_last(), sep) + sep + parts.last()
    }
}

/// The texts joined with commas.
pub fn join_with_commas(parts: &Vec<String>) -> (r: String)
    ensures
        r@ == joined(strings_view(parts@), seq![',']),
{
    let mut out = String::new();
    let mut i: usize = 0;
    while i < parts.len()
        invariant
            i <= parts@.len(),
            out@ == joined(strings_view(parts@).take(i as int), seq![',']),
        decreases parts.len() - i,
    {
        let ghost before = strings_view(parts@).take(i as int);
        assert(strings_view(parts@).take(i + 1).drop_last() =~= before);
        if i > 0 {
            out.append(",");
            proof {
                reveal_strlit(",");
            }
        } else {
            assert(out@ =~= seq![]);
        }
        out.append(parts[i].as_str());
        i = i + 1;
        proof {
            if i == 1 {
                assert(out@ =~= joined(strings_view(parts@).take(1), seq![',']));
            } else {
                assert(out@ =~= joined(strings_view(parts@).take(i as int), seq![',']));
            }
        }
    }
    assert(strings_view(parts@).take(i as int) =~= strings_view(parts@));
    out
}

/// Finishes collecting the files of a directory from what its walk found:
/// none is an error that names the directory and the extensions asked for;
/// otherwise the files in path order.
pub(crate) fn gathered_files(dir: &FsPath, exts: &Vec<String>, found: Vec<FsPath>) -> (r: Result<Vec<FsPath>, AppError>)
    ensures
        found@.len() == 0 ==> (r matches Err(AppError::EmptyDir { dir: d, exts: e }) && d@ == dir@
            && d.shown@ == dir.shown@ && e@ == joined(strings_view(exts@), seq![','])),
        found@.len() > 0 ==> (r matches Ok(v) && paths_view(v@) == paths_view(found@).sort_by(path_order())),
        r matches Ok(v) ==> forall|i: int| 0 <= i < v@.len() ==> found@.contains(#[trigger] v@[i]),
        r matches Ok(v) ==> sorted_by(paths_view(v@), path_order()),
        paths_view(found@).no_duplicates() ==> (r matches Ok(v) ==> paths_view(v@).no_duplicates()),
{
    if found.len() == 0 {
        return Err(AppError::EmptyDir { dir: dir.duplicate(), exts: join_with_commas(exts) });
    }
    let ghost f = paths_view(found@);
    let v = sort_paths(found);
    proof {
        path_order_is_total();
        f.lemma_sort_by_ensures(path_order());
        if f.no_duplicates() {
            f.lemma_multiset_has_no_duplicates();
            f.sort_by(path_order()).lemma_multiset_has_no_duplicates_conv();
        }
    }
    Ok(v)
}

/// The files of a directory from what its walk found: a path that is not a
/// directory is an error that names it; a directory where nothing was found
/// is an error that names it and the extensions asked for; otherwise the
/// files in path order.
pub fn collect_dir_files(dir: &FsPath, dir_is_dir: bool, exts: &Vec<String>, found: Vec<FsPath>) -> (r: Result<
    Vec<FsPath>,
    AppError,
>)
    ensures
        !dir_is_dir ==> (r matches Err(AppError::DirNotFound(d)) && d@ == dir@ && d.shown@ == dir.shown@),
        dir_is_dir && found@.len() == 0 ==> (r matches Err(AppError::EmptyDir { dir: d, exts: e }) && d@ == dir@
            && d.shown@ == dir.shown@ && e@ == joined(strings_view(exts@), seq![','])),
        dir_is_dir && found@.len() > 0 ==> (r matches Ok(v) && paths_view(v@) == paths_view(found@).sort_by(
            path_order(),
        )),
        r matches Ok(v) ==> forall|i: int| 0 <= i < v@.len() ==> found@.contains(#[trigger] v@[i]),
        r matches Ok(v) ==> sorted_by(paths_view(v@), path_order()),
        paths_view(found@).no_duplicates() ==> (r matches Ok(v) ==> paths_view(v@).no_duplicates()),
{
    if !dir_is_dir {
        return Err(AppError::DirNotFound(dir.duplicate()));
    }
    gathered_files(dir, exts, found)
}

/// The files collected from a directory come out sorted and are exactly the
/// files found, and the order in which the walk met them makes no
/// difference: two walks that find the same files give the same list.
pub proof fn collected_order_is_canonical(found_a: Seq<Seq<Seq<u8>>>, found_b: Seq<Seq<Seq<u8>>>)
    requires
        found_a.to_multiset() == found_b.to_multiset(),
    ensures
        sorted_by(found_a.sort_by(path_order()), path_order()),
        found_a.sort_by(path_order()).to_multiset() == found_a.to_multiset(),
        found_a.sort_by(path_order()) == found_b.sort_by(path_order()),
{
    path_order_is_total();
    found_a.lemma_sort_by_ensures(path_order());
    found_b.lemma_sort_by_ensures(path_order());
    vstd::seq_lib::lemma_sorted_unique(found_a.sort_by(path_order()), found_b.sort_by(path_order()), path_order());
}

} // verus!
