use vstd::prelude::*;
use vstd::string::*;

use crate::error::AppError;
use crate::input::strings_view;

verus! {

/// Where the text to convert comes from.
#[derive(Clone, Copy, Debug, PartialEq, Eq, Structural)]
pub enum Source {
    /// The text given on the command line.
    Text,
    /// One or more files.
    Files,
    /// The files of a directory, walked recursively.
    Dir,
    /// Standard input.
    Stdin,
}

/// Where converted text goes.
#[derive(Clone, Copy, Debug, PartialEq, Eq, Structural)]
pub enum Target {
    /// To the output path given.
    Output,
    /// Back over the input file.
    InPlace,
    /// To standard output.
    Print,
}

/// Whether more than one input source is given: text, files and a
/// directory exclude each other.
pub open spec fn sources_conflict(has_text: bool, file_count: nat, has_dir: bool) -> bool {
    (has_text && (file_count > 0 || has_dir)) || (file_count > 0 && has_dir)
}

/// Sources conflict exactly when two or more of them are given: text, any
/// number of files above zero, a directory.
pub proof fn two_sources_always_conflict(has_text: bool, file_count: nat, has_dir: bool)
    ensures
        sources_conflict(has_text, file_count, has_dir) <==> (if has_text { 1int } else { 0 }) + (if file_count > 0 {
            1int
        } else {
            0
        }) + (if has_dir { 1int } else { 0 }) >= 2,
{
}

/// The rules a request follows: at most one input source; an output path
/// and in-place mode exclude each other; in-place mode needs files or a
/// directory; several files need an output directory or in-place mode.
pub open spec fn follows_rules(has_text: bool, file_count: nat, has_dir: bool, has_output: bool, in_place: bool) -> bool {
    &&& !sources_conflict(has_text, file_count, has_dir)
    &&& !(in_place && has_output)
    &&& in_place ==> (file_count > 0 || has_dir)
    &&& file_count > 1 ==> (has_output || in_place)
}

/// Checks a request against the rules; the first rule broken, in the order
/// the rules are listed, gives the error.
pub fn validate_inputs(
    has_text: bool,
    file_count: usize,
    has_dir: bool,
    has_output: bool,
    in_place: bool,
) -> (r: Result<(), AppError>)
    ensures
        r is Ok <==> follows_rules(has_text, file_count as nat, has_dir, has_output, in_place),
        (if has_text { 1int } else { 0 }) + (if file_count > 0 { 1int } else { 0 }) + (if has_dir { 1int } else { 0 })
            >= 2 ==> r matches Err(AppError::ConflictingInput),
        if sources_conflict(has_text, file_count as nat, has_dir) {
            r matches Err(AppError::ConflictingInput)
        } else if in_place && has_output {
            r matches Err(AppError::InPlaceAndOutput)
        } else if in_place && file_count == 0 && !has_dir {
            r matches Err(AppError::InPlaceRequiresFiles)
        } else if file_count > 1 && !has_output && !in_place {
            r matches Err(AppError::MultiFileNoOutput)
        } else {
            r is Ok
        },
{
    let has_files = file_count > 0;
    if has_text && (has_files || has_dir) {
        return Err(AppError::ConflictingInput);
    }
    if has_files && has_dir {
        return Err(AppError::ConflictingInput);
    }
    if in_place && has_output {
        return Err(AppError::InPlaceAndOutput);
    }
    if in_place && !has_files && !has_dir {
        return Err(AppError::InPlaceRequiresFiles);
    }
    if has_files && file_count > 1 && !has_output && !in_place {
        return Err(AppError::MultiFileNoOutput);
    }
    Ok(())
}

/// Picks the input source: text first, then files, then a directory;
/// without any of them, standard input, unless it is a terminal.
pub fn choose_source(
    has_text: bool,
    file_count: usize,
    has_dir: bool,
    stdin_is_terminal: bool,
) -> (r: Result<Source, AppError>)
    ensures
        if has_text {
            r matches Ok(Source::Text)
        } else if file_count > 0 {
            r matches Ok(Source::Files)
        } else if has_dir {
            r matches Ok(Source::Dir)
        } else if stdin_is_terminal {
            r matches Err(AppError::NoInput)
        } else {
            r matches Ok(Source::Stdin)
        },
{
    if has_text {
        Ok(Source::Text)
    } else if file_count > 0 {
        Ok(Source::Files)
    } else if has_dir {
        Ok(Source::Dir)
    } else if stdin_is_terminal {
        Err(AppError::NoInput)
    } else {
        Ok(Source::Stdin)
    }
}

/// Where converted files go: to the output path, over themselves, or to
/// standard output; an output path and in-place mode never come together.
pub fn choose_target(has_output: bool, in_place: bool) -> (r: Target)
    requires
        !(has_output && in_place),
    ensures
        r == (if has_output {
            Target::Output
        } else if in_place {
            Target::InPlace
        } else {
            Target::Print
        }),
{
    if has_output {
        Target::Output
    } else if in_place {
        Target::InPlace
    } else {
        Target::Print
    }
}

/// Whether a character has Unicode's White_Space property, the whitespace
/// that `str::trim` removes: U+0009 to U+000D, U+0020, U+0085, U+00A0,
/// U+1680, U+2000 to U+200A, U+2028, U+2029, U+202F, U+205F and U+3000.
pub open spec fn is_white_space(c: char) -> bool {
    let n = c as u32;
    ||| 0x09 <= n <= 0x0D
    ||| n == 0x20 || n == 0x85 || n == 0xA0 || n == 0x1680
    ||| 0x2000 <= n <= 0x200A
    ||| n == 0x2028 || n == 0x2029 || n == 0x202F || n == 0x205F || n == 0x3000
}

/// A text without its leading whitespace.
pub open spec fn trim_start(s: Seq<char>) -> Seq<char>
    decreases s.len(),
{
    if s.len() > 0 && is_white_space(s[0]) {
        trim_start(s.drop_first())
    } else {
        s
    }
}

/// A text without its trailing whitespace.
pub open spec fn trim_end(s: Seq<char>) -> Seq<char>
    decreases s.len(),
{
    if s.len() > 0 && is_white_space(s.last()) {
        trim_end(s.drop_last())
    } else {
        s
    }
}

/// A text without its leading and trailing whitespace.
pub open spec fn trimmed(s: Seq<char>) -> Seq<char> {
    trim_end(trim_start(s))
}

fn white_space(c: char) -> (r: bool)
    ensures
        r == is_white_space(c),
{
    let n = c as u32;
    (0x09 <= n && n <= 0x0D) || n == 0x20 || n == 0x85 || n == 0xA0 || n == 0x1680 || (0x2000 <= n && n
        <= 0x200A) || n == 0x2028 || n == 0x2029 || n == 0x202F || n == 0x205F || n == 0x3000
}

/// A text without its leading and trailing whitespace, as `str::trim` gives it.
pub fn trim(s: &str) -> (r: String)
    ensures
        r@ == trimmed(s@),
{
    broadcast use vstd::string::group_string_axioms;

    let n = s.unicode_len();
    let mut i: usize = 0;
    assert(s@.skip(0) =~= s@);
    while i < n && white_space(s.get_char(i))
        invariant
            i <= n,
            n == s@.len(),
            trim_start(s@) == trim_start(s@.skip(i as int)),
        decreases n - i,
    {
        assert(s@.skip(i as int).drop_first() =~= s@.skip(i + 1));
        i = i + 1;
    }
    assert(trim_start(s@) == s@.subrange(i as int, n as int)) by {
        assert(s@.skip(i as int) =~= s@.subrange(i as int, n as int));
    }
    let mut j: usize = n;
    while j > i && white_space(s.get_char(j - 1))
        invariant
            i <= j <= n,
            n == s@.len(),
            trim_end(s@.subrange(i as int, n as int)) == trim_end(s@.subrange(i as int, j as int)),
        decreases j,
    {
        assert(s@.subrange(i as int, j as int).drop_last() =~= s@.subrange(i as int, j - 1));
        j = j - 1;
    }
    let t = s.substring_char(i, j);
    t.to_string()
}

/// The pieces of a text between its commas, in order: one more piece than
/// there are commas.
pub open spec fn comma_pieces(s: Seq<char>) -> Seq<Seq<char>>
    decreases s.len(),
{
    if s.len() == 0 {
        seq![seq![]]
    } else {
        let pre = comma_pieces(s.drop_last());
        if s.last() == ',' {
            pre.push(seq![])
        } else {
            pre.update(pre.len() - 1, pre.last().push(s.last()))
        }
    }
}

proof fn lemma_comma_pieces_len(s: Seq<char>)
    ensures
        comma_pieces(s).len() >= 1,
    decreases s.len(),
{
    if s.len() > 0 {
        lemma_comma_pieces_len(s.drop_last());
    }
}

/// The extensions that an extension list names: its comma-separated pieces,
/// each without surrounding whitespace.
pub open spec fn extension_list(spec: Seq<char>) -> Seq<Seq<char>> {
    Seq::new(comma_pieces(spec).len(), |i: int| trimmed(comma_pieces(spec)[i]))
}

/// Splits an extension list such as `txt,md,csv` into its extensions.
pub fn parse_extensions(spec: &str) -> (r: Vec<String>)
    ensures
        strings_view(r@) == extension_list(spec@),
{
    let n = spec.unicode_len();
    let mut out: Vec<String> = Vec::new();
    let mut start: usize = 0;
    let mut i: usize = 0;
    let ghost mut done: Seq<Seq<char>> = seq![];
    assert(spec@.take(0) =~= seq![]);
    assert(spec@.subrange(0, 0) =~= seq![]);
    while i < n
        invariant
            n == spec@.len(),
            start <= i <= n,
            comma_pieces(spec@.take(i as int)) == done.push(spec@.subrange(start as int, i as int)),
            strings_view(out@) == Seq::new(done.len(), |k: int| trimmed(done[k])),
        decreases n - i,
    {
        let c = spec.get_char(i);
        let ghost before = spec@.take(i as int);
        assert(spec@.take(i + 1).drop_last() =~= before);
        assert(spec@.take(i + 1).last() == c);
        proof {
            lemma_comma_pieces_len(before);
        }
        if c == ',' {
            let piece = spec.substring_char(start, i);
            let t = trim(piece);
            let ghost prev = strings_view(out@);
            out.push(t);
            proof {
                assert(strings_view(out@) =~= prev.push(t@));
                done = done.push(spec@.subrange(start as int, i as int));
                assert(strings_view(out@) =~= Seq::new(done.len(), |k: int| trimmed(done[k])));
                assert(spec@.subrange(i + 1, i + 1) =~= seq![]);
            }
            start = i + 1;
        } else {
            proof {
                assert(spec@.subrange(start as int, i + 1) =~= spec@.subrange(start as int, i as int).push(c));
            }
        }
        i = i + 1;
    }
    assert(spec@.take(n as int) =~= spec@);
    let piece = spec.substring_char(start, n);
    let t = trim(piece);
    let ghost prev = strings_view(out@);
    out.push(t);
    proof {
        assert(strings_view(out@) =~= prev.push(t@));
        let all = done.push(spec@.subrange(start as int, n as int));
        assert(strings_view(out@) =~= Seq::new(all.len(), |k: int| trimmed(all[k])));
    }
    out
}

} // verus!
