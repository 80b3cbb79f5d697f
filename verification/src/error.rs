use vstd::prelude::*;

use crate::path::{display_path, shown_text, FsPath};

verus! {

#[verifier::external_type_specification]
#[verifier::external_body]
pub struct ExIoError(std::io::Error);

#[verifier::external_type_specification]
#[verifier::external_body]
pub struct ExUtf8Error(std::str::Utf8Error);

/// Everything that can go wrong while converting text, files or directories.
#[derive(Debug)]
pub enum AppError {
    /// Unsupported conversion mode string
    UnsupportedMode(String),
    /// File not found
    FileNotFound(FsPath),
    /// Directory not found
    DirNotFound(FsPath),
    /// No input provided
    NoInput,
    /// Conflicting input sources
    ConflictingInput,
    /// Output directory not found
    OutputDirNotFound(FsPath),
    /// Output path is not a directory (expected dir for multi-file/dir mode)
    OutputNotDir(FsPath),
    /// Input and output paths are the same without in-place mode
    InputOutputSame(FsPath),
    /// In-place mode requires file or directory input, not text
    InPlaceRequiresFiles,
    /// In-place mode and an output path are mutually exclusive
    InPlaceAndOutput,
    /// Multiple files require an output directory or in-place mode
    MultiFileNoOutput,
    /// Basename conflict when writing multiple files to the output directory
    BasenameConflict(FsPath),
    /// Output directory overlaps with the input directory
    OutputOverlapsInput(FsPath),
    /// Path has no file name component
    NoFileName(FsPath),
    /// No matching files found in the directory
    EmptyDir { dir: FsPath, exts: String },
    /// I/O error
    Io(std::io::Error),
    /// UTF-8 decoding error
    Utf8(std::str::Utf8Error),
    /// Conversion engine error, by its message
    OpenCC(String),
}

/// The message shown for an error whose text this library determines (every
/// kind but `Io` and `Utf8`, whose detail comes from the standard library).
pub open spec fn message_text(e: AppError) -> Seq<char> {
    match e {
        AppError::UnsupportedMode(mode) => "error: unsupported mode '"@ + mode@
            + "'. Available: s2t, t2s, s2tw, tw2s, s2hk, hk2s, s2twp, tw2sp, t2tw, tw2t, t2hk, hk2t, t2jp, jp2t"@,
        AppError::FileNotFound(p) => "error: file not found: '"@ + shown_text(p.shown@) + "'"@,
        AppError::DirNotFound(p) => "error: directory not found: '"@ + shown_text(p.shown@) + "'"@,
        AppError::NoInput => "error: no input provided. Use -t, -f, -d, or pipe stdin."@,
        AppError::ConflictingInput => "error: -t, -f, and -d are mutually exclusive."@,
        AppError::OutputDirNotFound(p) => "error: output directory not found: '"@ + shown_text(p.shown@) + "'"@,
        AppError::OutputNotDir(p) => "error: output path is not a directory: '"@ + shown_text(p.shown@) + "'"@,
        AppError::InputOutputSame(p) => "error: input and output are the same file: '"@ + shown_text(p.shown@)
            + "'. Use --in-place to overwrite."@,
        AppError::InPlaceRequiresFiles => "error: --in-place requires -f or -d input, not -t."@,
        AppError::InPlaceAndOutput => "error: --in-place and -o are mutually exclusive."@,
        AppError::MultiFileNoOutput => "error: multiple files require -o <directory> or --in-place."@,
        AppError::BasenameConflict(p) => "error: basename conflict in output: '"@ + shown_text(p.shown@) + "'"@,
        AppError::OutputOverlapsInput(p) => "error: output directory overlaps with input: '"@ + shown_text(p.shown@)
            + "'"@,
        AppError::NoFileName(p) => "error: path has no file name: '"@ + shown_text(p.shown@) + "'"@,
        AppError::EmptyDir { dir, exts } => "error: no matching files in '"@ + shown_text(dir.shown@) + "' (--ext: "@
            + exts@ + ")"@,
        AppError::Io(_) => "error: "@,
        AppError::Utf8(_) => "error: invalid UTF-8: "@,
        AppError::OpenCC(m) => "error: opencc: "@ + m@,
    }
}

/// Whether the message of an error is fully determined by this library.
pub open spec fn has_own_text(e: AppError) -> bool {
    !(e is Io) && !(e is Utf8)
}

/// The text of an I/O error, as `std::io::Error`'s `Display` writes it.
/// Nothing is promised of it: it comes from the operating system.
#[verifier::external_body]
fn io_error_text(e: &std::io::Error) -> String {
    format!("{}", e)
}

/// The text of a UTF-8 decoding error, as `std::str::Utf8Error`'s `Display`
/// writes it. Nothing is promised of it here.
#[verifier::external_body]
fn utf8_error_text(e: &std::str::Utf8Error) -> String {
    format!("{}", e)
}

fn text_of(s: &str) -> (r: String)
    ensures
        r@ == s@,
{
    broadcast use vstd::string::group_string_axioms;

    s.to_string()
}

fn concat3(a: &str, b: &str, c: &str) -> (r: String)
    ensures
        r@ == a@ + b@ + c@,
{
    let mut s = text_of(a);
    s.append(b);
    s.append(c);
    s
}

impl AppError {
    /// The message shown for this error.
    pub fn message(&self) -> (r: String)
        ensures
            has_own_text(*self) ==> r@ == message_text(*self),
            !has_own_text(*self) ==> message_text(*self).len() <= r@.len() && r@.take(
                message_text(*self).len() as int,
            ) == message_text(*self),
    {
        match self {
            AppError::UnsupportedMode(mode) => concat3(
                "error: unsupported mode '",
                mode.as_str(),
                "'. Available: s2t, t2s, s2tw, tw2s, s2hk, hk2s, s2twp, tw2sp, t2tw, tw2t, t2hk, hk2t, t2jp, jp2t",
            ),
            AppError::FileNotFound(p) => concat3("error: file not found: '", display_path(p).as_str(), "'"),
            AppError::DirNotFound(p) => concat3(
                "error: directory not found: '",
                display_path(p).as_str(),
                "'",
            ),
            AppError::NoInput => text_of("error: no input provided. Use -t, -f, -d, or pipe stdin."),
            AppError::ConflictingInput => text_of("error: -t, -f, and -d are mutually exclusive."),
            AppError::OutputDirNotFound(p) => concat3(
                "error: output directory not found: '",
                display_path(p).as_str(),
                "'",
            ),
            AppError::OutputNotDir(p) => concat3(
                "error: output path is not a directory: '",
                display_path(p).as_str(),
                "'",
            ),
            AppError::InputOutputSame(p) => concat3(
                "error: input and output are the same file: '",
                display_path(p).as_str(),
                "'. Use --in-place to overwrite.",
            ),
            AppError::InPlaceRequiresFiles => text_of("error: --in-place requires -f or -d input, not -t."),
            AppError::InPlaceAndOutput => text_of("error: --in-place and -o are mutually exclusive."),
            AppError::MultiFileNoOutput => text_of("error: multiple files require -o <directory> or --in-place."),
            AppError::BasenameConflict(p) => concat3(
                "error: basename conflict in output: '",
                display_path(p).as_str(),
                "'",
            ),
            AppError::OutputOverlapsInput(p) => concat3(
                "error: output directory overlaps with input: '",
                display_path(p).as_str(),
                "'",
            ),
            AppError::NoFileName(p) => concat3(
                "error: path has no file name: '",
                display_path(p).as_str(),
                "'",
            ),
            AppError::EmptyDir { dir, exts } => {
                let mut s = concat3("error: no matching files in '", display_path(dir).as_str(), "' (--ext: ");
                s.append(exts.as_str());
                s.append(")");
                s
            },
            AppError::Io(e) => {
                let detail = io_error_text(e);
                let mut s = text_of("error: ");
                s.append(detail.as_str());
                s
            },
            AppError::Utf8(e) => {
                let detail = utf8_error_text(e);
                let mut s = text_of("error: invalid UTF-8: ");
                s.append(detail.as_str());
                s
            },
            AppError::OpenCC(m) => {
                let mut s = text_of("error: opencc: ");
                s.append(m.as_str());
                s
            },
        }
    }
}

impl From<std::io::Error> for AppError {
    fn from(e: std::io::Error) -> (r: Self) {
        AppError::Io(e)
    }
}

impl vstd::std_specs::convert::FromSpecImpl<std::io::Error> for AppError {
    open spec fn obeys_from_spec() -> bool {
        true
    }

    open spec fn from_spec(e: std::io::Error) -> Self {
        AppError::Io(e)
    }
}

impl From<std::str::Utf8Error> for AppError {
    fn from(e: std::str::Utf8Error) -> (r: Self) {
        AppError::Utf8(e)
    }
}

impl vstd::std_specs::convert::FromSpecImpl<std::str::Utf8Error> for AppError {
    open spec fn obeys_from_spec() -> bool {
        true
    }

    open spec fn from_spec(e: std::str::Utf8Error) -> Self {
        AppError::Utf8(e)
    }
}

/// Every message starts with `error: `.
pub proof fn messages_start_with_error(e: AppError)
    ensures
        message_text(e).len() >= "error: "@.len(),
        message_text(e).take("error: "@.len() as int) == "error: "@,
{
    reveal_strlit("error: unsupported mode '");
    reveal_strlit("'. Available: s2t, t2s, s2tw, tw2s, s2hk, hk2s, s2twp, tw2sp, t2tw, tw2t, t2hk, hk2t, t2jp, jp2t");
    reveal_strlit("error: file not found: '");
    reveal_strlit("'");
    reveal_strlit("error: directory not found: '");
    reveal_strlit("error: no input provided. Use -t, -f, -d, or pipe stdin.");
    reveal_strlit("error: -t, -f, and -d are mutually exclusive.");
    reveal_strlit("error: output directory not found: '");
    reveal_strlit("error: output path is not a directory: '");
    reveal_strlit("error: input and output are the same file: '");
    reveal_strlit("'. Use --in-place to overwrite.");
    reveal_strlit("error: --in-place requires -f or -d input, not -t.");
    reveal_strlit("error: --in-place and -o are mutually exclusive.");
    reveal_strlit("error: multiple files require -o <directory> or --in-place.");
    reveal_strlit("error: basename conflict in output: '");
    reveal_strlit("error: output directory overlaps with input: '");
    reveal_strlit("error: path has no file name: '");
    reveal_strlit("error: no matching files in '");
    reveal_strlit("' (--ext: ");
    reveal_strlit(")");
    reveal_strlit("error: ");
    reveal_strlit("error: invalid UTF-8: ");
    reveal_strlit("error: opencc: ");
    let m = message_text(e);
    assert(m.take("error: "@.len() as int) =~= "error: "@);
}

} // verus!
