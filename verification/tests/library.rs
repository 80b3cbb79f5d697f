use opencc_cli::cli::{choose_source, choose_target, parse_extensions, trim, validate_inputs, Source, Target};
use opencc_cli::convert::{config_file, convert_text, create_converter, mode_to_config, Mode};
use opencc_cli::error::AppError;
use opencc_cli::input::{classify_entry, collect_dir_files, decode_text, extension_set, join_with_commas, EntryAction};
use opencc_cli::path::{
    compare_paths, dirs_overlap, display_path, join, same_path, sort_paths, starts_with,
    strip_prefix, FsPath,
};
use opencc_cli::walk::{DirEntry, DirWalk};
use opencc_cli::plan::{check_distinct_target, first_repeated_text, plan_dir_outputs, plan_file_outputs};

fn path(s: &str) -> FsPath {
    FsPath::written(
        std::path::Path::new(s)
            .components()
            .map(|c| c.as_os_str().as_encoded_bytes().to_vec())
            .collect(),
        s.as_bytes().to_vec(),
    )
}

fn name(s: &str) -> Vec<u8> {
    s.as_bytes().to_vec()
}

fn parts(p: &FsPath) -> Vec<Vec<u8>> {
    p.parts.clone()
}

fn strings(v: &[&str]) -> Vec<String> {
    v.iter().map(|s| s.to_string()).collect()
}

fn bytes(v: &[&str]) -> Vec<Vec<u8>> {
    v.iter().map(|s| s.as_bytes().to_vec()).collect()
}

// --- modes ---

#[test]
fn every_mode_name_selects_its_mode() {
    let all = [
        ("s2t", Mode::S2t),
        ("t2s", Mode::T2s),
        ("s2tw", Mode::S2tw),
        ("tw2s", Mode::Tw2s),
        ("s2hk", Mode::S2hk),
        ("hk2s", Mode::Hk2s),
        ("s2twp", Mode::S2twp),
        ("tw2sp", Mode::Tw2sp),
        ("t2tw", Mode::T2tw),
        ("tw2t", Mode::Tw2t),
        ("t2hk", Mode::T2hk),
        ("hk2t", Mode::Hk2t),
        ("t2jp", Mode::T2jp),
        ("jp2t", Mode::Jp2t),
    ];
    for (name, mode) in all {
        assert_eq!(mode_to_config(name).unwrap(), mode);
        assert_eq!(config_file(mode), format!("{}.json", name));
        let c = create_converter(name).unwrap();
        assert_eq!(c.mode(), mode);
    }
}

#[test]
fn unknown_mode_names_are_refused_with_the_name() {
    for name in ["", "S2T", "s2t ", "xyz", "s2t.json"] {
        match mode_to_config(name) {
            Err(AppError::UnsupportedMode(m)) => assert_eq!(m, name),
            other => panic!("unexpected {:?}", other),
        }
    }
}

#[test]
fn unsupported_mode_message_is_exact() {
    let err = create_converter("xyz").err().unwrap();
    assert_eq!(
        err.message(),
        "error: unsupported mode 'xyz'. Available: s2t, t2s, s2tw, tw2s, s2hk, hk2s, s2twp, tw2sp, t2tw, tw2t, t2hk, hk2t, t2jp, jp2t"
    );
}

#[test]
fn conversion_changes_text_and_keeps_empty_text() {
    let c = create_converter("s2t").unwrap();
    assert_eq!(convert_text(&c, "汉字"), "漢字");
    assert_eq!(convert_text(&c, ""), "");
    let j = create_converter("t2jp").unwrap();
    assert_ne!(convert_text(&j, "廣"), "");
}

// --- messages ---

#[test]
fn messages_of_every_error() {
    let p = path("/a/b.txt");
    let cases: Vec<(AppError, &str)> = vec![
        (AppError::FileNotFound(path("/a/b.txt")), "error: file not found: '/a/b.txt'"),
        (AppError::DirNotFound(path("docs")), "error: directory not found: 'docs'"),
        (AppError::NoInput, "error: no input provided. Use -t, -f, -d, or pipe stdin."),
        (AppError::ConflictingInput, "error: -t, -f, and -d are mutually exclusive."),
        (AppError::OutputDirNotFound(path("out")), "error: output directory not found: 'out'"),
        (AppError::OutputNotDir(path("out.txt")), "error: output path is not a directory: 'out.txt'"),
        (
            AppError::InputOutputSame(p),
            "error: input and output are the same file: '/a/b.txt'. Use --in-place to overwrite.",
        ),
        (AppError::InPlaceRequiresFiles, "error: --in-place requires -f or -d input, not -t."),
        (AppError::InPlaceAndOutput, "error: --in-place and -o are mutually exclusive."),
        (AppError::MultiFileNoOutput, "error: multiple files require -o <directory> or --in-place."),
        (AppError::BasenameConflict(path("a.txt")), "error: basename conflict in output: 'a.txt'"),
        (AppError::OutputOverlapsInput(path("./out/x")), "error: output directory overlaps with input: './out/x'"),
        (AppError::NoFileName(path("/")), "error: path has no file name: '/'"),
        (
            AppError::EmptyDir { dir: path("docs"), exts: "txt,md".to_string() },
            "error: no matching files in 'docs' (--ext: txt,md)",
        ),
        (AppError::OpenCC("boom".to_string()), "error: opencc: boom"),
    ];
    for (e, m) in cases {
        assert_eq!(e.message(), m);
    }
    let io = AppError::from(std::io::Error::new(std::io::ErrorKind::Other, "disk full"));
    assert_eq!(io.message(), "error: disk full");
    let bad = vec![0xffu8];
    let utf8 = AppError::from(std::str::from_utf8(&bad).unwrap_err());
    assert!(utf8.message().starts_with("error: invalid UTF-8: "));
}

// --- command-line rules ---

#[test]
fn sources_exclude_each_other() {
    assert!(matches!(validate_inputs(true, 1, false, false, false), Err(AppError::ConflictingInput)));
    assert!(matches!(validate_inputs(true, 0, true, false, false), Err(AppError::ConflictingInput)));
    assert!(matches!(validate_inputs(false, 1, true, false, false), Err(AppError::ConflictingInput)));
    assert!(validate_inputs(false, 0, false, false, false).is_ok());
    assert!(validate_inputs(false, 0, true, false, false).is_ok());
    assert!(validate_inputs(false, 3, false, false, true).is_ok());
}

#[test]
fn rules_are_checked_in_order() {
    // a source conflict is reported before anything else
    assert!(matches!(validate_inputs(true, 2, false, true, true), Err(AppError::ConflictingInput)));
    assert!(matches!(validate_inputs(false, 0, false, true, true), Err(AppError::InPlaceAndOutput)));
    assert!(matches!(validate_inputs(false, 0, false, false, true), Err(AppError::InPlaceRequiresFiles)));
}

#[test]
fn source_and_target_choice() {
    assert_eq!(choose_source(true, 0, false, true).unwrap(), Source::Text);
    assert_eq!(choose_source(false, 2, false, true).unwrap(), Source::Files);
    assert_eq!(choose_source(false, 0, true, true).unwrap(), Source::Dir);
    assert_eq!(choose_source(false, 0, false, false).unwrap(), Source::Stdin);
    assert!(matches!(choose_source(false, 0, false, true), Err(AppError::NoInput)));
    assert_eq!(choose_target(true, false), Target::Output);
    assert_eq!(choose_target(false, true), Target::InPlace);
    assert_eq!(choose_target(false, false), Target::Print);
}

#[test]
fn extension_lists() {
    assert_eq!(parse_extensions("txt,md,csv,json,xml,html,yaml,yml"), strings(&["txt", "md", "csv", "json", "xml", "html", "yaml", "yml"]));
    assert_eq!(parse_extensions(" txt , MD,"), strings(&["txt", "MD", ""]));
    assert_eq!(parse_extensions(""), strings(&[""]));
    assert_eq!(extension_set(&strings(&["TXT", "Md"])), strings(&["txt", "md"]));
    assert_eq!(join_with_commas(&strings(&["txt", "md"])), "txt,md");
    assert_eq!(join_with_commas(&strings(&[])), "");
}

// --- walking a directory ---

#[test]
fn entries_are_classified() {
    let wanted = extension_set(&strings(&["txt", "md", ""]));
    assert_eq!(classify_entry(&name("a.txt"), false, false, &wanted), EntryAction::Collect);
    assert_eq!(classify_entry(&name("A.TXT"), false, false, &wanted), EntryAction::Collect);
    assert_eq!(classify_entry(&name("a.txt"), true, false, &wanted), EntryAction::Skip);
    assert_eq!(classify_entry(&name("sub"), false, true, &wanted), EntryAction::Descend);
    assert_eq!(classify_entry(&name("sub"), true, true, &wanted), EntryAction::Skip);
    assert_eq!(classify_entry(&name("a.rs"), false, false, &wanted), EntryAction::Skip);
    // no extension counts as the empty extension
    assert_eq!(classify_entry(&name("Makefile"), false, false, &wanted), EntryAction::Collect);
    assert_eq!(classify_entry(&name(".md"), false, false, &wanted), EntryAction::Collect);
    assert_eq!(classify_entry(&name("x.tar.md"), false, false, &wanted), EntryAction::Collect);
    let only_txt = extension_set(&strings(&["txt"]));
    assert_eq!(classify_entry(&name(".txt"), false, false, &only_txt), EntryAction::Skip);
    assert_eq!(classify_entry(&name("notes."), false, false, &only_txt), EntryAction::Skip);
}

#[test]
fn collected_files_are_sorted_by_component() {
    let found = vec![path("/d/b.txt"), path("/d/a-b.txt"), path("/d/a/z.txt"), path("/d/A.txt")];
    let sorted = collect_dir_files(&path("/d"), true, &strings(&["txt"]), found).unwrap();
    let texts: Vec<String> = sorted.iter().map(|p| display_path(p)).collect();
    assert_eq!(texts, strings(&["/d/A.txt", "/d/a/z.txt", "/d/a-b.txt", "/d/b.txt"]));
}

#[test]
fn walk_order_does_not_change_the_result() {
    let a = vec![path("x/2.txt"), path("x/1.txt"), path("x/sub/0.txt")];
    let b = vec![path("x/sub/0.txt"), path("x/2.txt"), path("x/1.txt")];
    let ra: Vec<Vec<Vec<u8>>> = collect_dir_files(&path("x"), true, &strings(&["txt"]), a).unwrap().iter().map(parts).collect();
    let rb: Vec<Vec<Vec<u8>>> = collect_dir_files(&path("x"), true, &strings(&["txt"]), b).unwrap().iter().map(parts).collect();
    assert_eq!(ra, rb);
    assert_eq!(ra[0], parts(&path("x/1.txt")));
}

#[test]
fn nothing_found_is_an_error_naming_the_extensions() {
    match collect_dir_files(&path("docs"), true, &strings(&["txt", "md"]), vec![]) {
        Err(e @ AppError::EmptyDir { .. }) => {
            assert_eq!(e.message(), "error: no matching files in 'docs' (--ext: txt,md)")
        },
        other => panic!("unexpected {:?}", other.map(|v| v.len())),
    }
}

#[test]
fn path_order_puts_root_and_dots_first() {
    assert!(compare_paths(&path("/a"), &path("a")) < 0);
    assert!(compare_paths(&path("./a"), &path("a")) < 0);
    assert!(compare_paths(&path("../a"), &path("a")) < 0);
    assert!(compare_paths(&path("a"), &path("a/b")) < 0);
    assert_eq!(compare_paths(&path("a//b/"), &path("a/b")), 0);
    let v = sort_paths(vec![path("b"), path("a"), path("/z")]);
    assert_eq!(display_path(&v[0]), "/z");
    assert_eq!(display_path(&v[2]), "b");
}

// --- paths ---

#[test]
fn names_that_are_not_utf8_are_kept_and_shown_lossily() {
    let p = FsPath::new(vec![b"/".to_vec(), b"d".to_vec(), vec![0x66, 0xff, 0x2e, 0x74, 0x78, 0x74]]);
    assert_eq!(display_path(&p), "/d/f\u{fffd}.txt");
    assert_eq!(p.file_name().unwrap(), vec![0x66, 0xff, 0x2e, 0x74, 0x78, 0x74]);
    // bytes order: 0xff sorts after every ASCII name
    let q = path("/d/f.txt");
    assert!(compare_paths(&q, &p) < 0);
}

#[test]
fn path_operations() {
    assert!(starts_with(&path("/a/b/c"), &path("/a/b")));
    assert!(!starts_with(&path("/a/bc"), &path("/a/b")));
    assert!(same_path(&path("/a/b/"), &path("/a/b")));
    assert_eq!(parts(&strip_prefix(&path("/in/n/a.txt"), &path("/in")).unwrap()), bytes(&["n", "a.txt"]));
    assert!(strip_prefix(&path("/other/a.txt"), &path("/in")).is_none());
    assert_eq!(display_path(&join(&path("out"), &path("n/a.txt"))), "out/n/a.txt");
    assert_eq!(display_path(&join(&path("out"), &path("/abs"))), "/abs");
    assert_eq!(display_path(&join(&path("out"), &path("./x"))), "out/x");
    assert_eq!(display_path(&path("/")), "/");
    assert_eq!(display_path(&path("./a/b")), "./a/b");
    assert_eq!(path("/a/b.txt").file_name().unwrap(), b"b.txt".to_vec());
    assert!(path("/").file_name().is_none());
    assert!(path("a/..").file_name().is_none());
}

#[test]
fn overlap_of_directories() {
    let a = Some(path("/w/in"));
    assert!(dirs_overlap(&a, &Some(path("/w/in"))));
    assert!(dirs_overlap(&a, &Some(path("/w/in/out"))));
    assert!(dirs_overlap(&Some(path("/w/in/out")), &a));
    assert!(dirs_overlap(&a, &Some(path("/w"))));
    assert!(!dirs_overlap(&a, &Some(path("/w/input"))));
    assert!(!dirs_overlap(&a, &None));
    assert!(!dirs_overlap(&None, &None));
}

#[test]
fn repeats_are_found_at_their_first_place() {
    assert_eq!(first_repeated_text(&strings(&["a", "b", "a", "b"])), Some(2));
    assert_eq!(first_repeated_text(&strings(&["a", "b"])), None);
    assert_eq!(first_repeated_text(&vec![]), None);
}

// --- where output goes ---

#[test]
fn output_directory_checks_come_in_order() {
    let files = vec![path("/in/a.txt")];
    let input = path("/in");
    let out = path("/out");
    let cin = Some(path("/in"));
    let cout = Some(path("/out"));
    assert!(matches!(plan_dir_outputs(&input, &out, false, false, &cin, &cout, &files), Err(AppError::OutputDirNotFound(_))));
    assert!(matches!(plan_dir_outputs(&input, &out, true, false, &cin, &cout, &files), Err(AppError::OutputNotDir(_))));
    assert!(matches!(
        plan_dir_outputs(&input, &path("/in/out"), true, true, &cin, &Some(path("/in/out")), &files),
        Err(AppError::OutputOverlapsInput(_))
    ));
    assert!(plan_dir_outputs(&input, &out, true, true, &cin, &cout, &files).is_ok());
}

#[test]
fn repeated_relative_paths_are_a_conflict() {
    let files = vec![path("/in/a.txt"), path("/in/a.txt")];
    match plan_dir_outputs(&path("/in"), &path("/out"), true, true, &None, &None, &files) {
        Err(AppError::BasenameConflict(p)) => assert_eq!(display_path(&p), "a.txt"),
        other => panic!("unexpected {:?}", other.map(|v| v.len())),
    }
}

#[test]
fn several_files_with_one_name_are_a_conflict() {
    let files = vec![path("/x/a.txt"), path("/y/b.txt"), path("/y/a.txt")];
    match plan_file_outputs(&files, &path("out"), true, true) {
        Err(AppError::BasenameConflict(p)) => assert_eq!(display_path(&p), "a.txt"),
        other => panic!("unexpected {:?}", other.map(|v| v.len())),
    }
    assert!(matches!(plan_file_outputs(&files, &path("out"), false, true), Err(AppError::OutputDirNotFound(_))));
    assert!(matches!(plan_file_outputs(&files, &path("out"), true, false), Err(AppError::OutputNotDir(_))));
}

#[test]
fn distinct_files_go_to_distinct_outputs() {
    let files = vec![path("/in/a.txt"), path("/in/n/a.txt"), path("/in/b.md")];
    let outs = plan_dir_outputs(&path("/in"), &path("/out"), true, true, &None, &None, &files).unwrap();
    let texts: Vec<String> = outs.iter().map(|p| display_path(p)).collect();
    assert_eq!(texts, strings(&["/out/a.txt", "/out/n/a.txt", "/out/b.md"]));
}

#[test]
fn writing_over_the_input_needs_in_place() {
    let input = path("in.txt");
    assert!(matches!(
        check_distinct_target(&input, &Some(path("/w/in.txt")), &Some(path("/w/in.txt"))),
        Err(AppError::InputOutputSame(_))
    ));
    assert!(check_distinct_target(&input, &Some(path("/w/in.txt")), &Some(path("/w/out.txt"))).is_ok());
    assert!(check_distinct_target(&input, &None, &None).is_ok());
}

// --- paths as written, names that are not UTF-8 ---

#[test]
fn paths_are_shown_as_written() {
    assert_eq!(display_path(&path("./docs/")), "./docs/");
    assert_eq!(display_path(&path("a//b.txt")), "a//b.txt");
    assert!(same_path(&path("a//b.txt"), &path("a/b.txt")));
    assert_eq!(AppError::DirNotFound(path("dir/")).message(), "error: directory not found: 'dir/'");
    assert_eq!(AppError::OutputDirNotFound(path("out")).message(), "error: output directory not found: 'out'");
    assert_eq!(AppError::OutputNotDir(path("out")).message(), "error: output path is not a directory: 'out'");
    assert_eq!(
        AppError::InputOutputSame(path("same.txt")).message(),
        "error: input and output are the same file: 'same.txt'. Use --in-place to overwrite."
    );
}

#[test]
fn an_extension_that_is_not_utf8_counts_as_empty() {
    let odd = vec![b'f', b'.', 0xff];
    assert_eq!(classify_entry(&odd, false, false, &extension_set(&strings(&["txt", ""]))), EntryAction::Collect);
    assert_eq!(classify_entry(&odd, false, false, &extension_set(&strings(&["txt"]))), EntryAction::Skip);
}

#[test]
fn names_with_the_same_lossy_text_are_a_conflict() {
    let a = FsPath::new(vec![b"/".to_vec(), b"x".to_vec(), vec![0x66, 0xff, 0x2e, 0x74]]);
    let b = FsPath::new(vec![b"/".to_vec(), b"y".to_vec(), vec![0x66, 0xfe, 0x2e, 0x74]]);
    match plan_file_outputs(&vec![a, b], &path("out"), true, true) {
        Err(e @ AppError::BasenameConflict(_)) => {
            assert_eq!(e.message(), "error: basename conflict in output: 'f\u{fffd}.t'")
        },
        other => panic!("unexpected {:?}", other.map(|v| v.len())),
    }
}

#[test]
fn a_missing_directory_is_named() {
    match collect_dir_files(&path("nope/"), false, &strings(&["txt"]), vec![]) {
        Err(e @ AppError::DirNotFound(_)) => assert_eq!(e.message(), "error: directory not found: 'nope/'"),
        other => panic!("unexpected {:?}", other.map(|v| v.len())),
    }
}

// --- the walk of a directory tree ---

fn entry(n: &str, is_symlink: bool, is_dir: bool) -> DirEntry {
    DirEntry { name: name(n), is_symlink, is_dir }
}

fn walk_tree(exts: &[&str]) -> Result<Vec<String>, AppError> {
    let mut w = DirWalk::start(&path("root"), true, &strings(exts))?;
    let d = w.next_dir().unwrap();
    assert_eq!(display_path(&d), "root");
    w.visit(vec![
        entry("a.txt", false, false),
        entry("sub", false, true),
        entry("link", true, true),
        entry("b.rs", false, false),
        entry("C.TXT", false, false),
        entry("notes.md", false, false),
    ]);
    let d = w.next_dir().unwrap();
    assert_eq!(display_path(&d), "root/sub");
    w.visit(vec![entry("deep.txt", false, false), entry("inner", false, true)]);
    let d = w.next_dir().unwrap();
    assert_eq!(display_path(&d), "root/sub/inner");
    w.visit(vec![]);
    assert!(w.next_dir().is_none());
    Ok(w.finish()?.iter().map(display_path).collect())
}

#[test]
fn walking_a_tree_collects_the_wanted_files_in_order() {
    let found = walk_tree(&["txt"]).unwrap();
    assert_eq!(found, strings(&["root/C.TXT", "root/a.txt", "root/sub/deep.txt"]));
}

#[test]
fn fewer_extensions_find_a_subsequence() {
    let more = walk_tree(&["txt", "md"]).unwrap();
    let fewer = walk_tree(&["txt"]).unwrap();
    assert_eq!(more, strings(&["root/C.TXT", "root/a.txt", "root/notes.md", "root/sub/deep.txt"]));
    let filtered: Vec<String> = more.into_iter().filter(|p| !p.ends_with(".md")).collect();
    assert_eq!(filtered, fewer);
}

#[test]
fn a_walk_that_finds_nothing_names_the_directory_and_extensions() {
    match walk_tree(&["csv", "xml"]) {
        Err(e @ AppError::EmptyDir { .. }) => {
            assert_eq!(e.message(), "error: no matching files in 'root' (--ext: csv,xml)")
        },
        other => panic!("unexpected {:?}", other),
    }
}

#[test]
fn a_walk_of_a_missing_directory_is_refused() {
    match DirWalk::start(&path("missing"), false, &strings(&["txt"])) {
        Err(e @ AppError::DirNotFound(_)) => assert_eq!(e.message(), "error: directory not found: 'missing'"),
        Err(other) => panic!("unexpected {:?}", other),
        Ok(_) => panic!("a missing directory was walked"),
    }
}

// --- whitespace and decoding ---

#[test]
fn trimming_removes_unicode_whitespace_at_both_ends_only() {
    assert_eq!(trim("  a b  "), "a b");
    assert_eq!(trim("\u{3000}\t x\u{a0}\n"), "x");
    assert_eq!(trim(" \u{2003} "), "");
    assert_eq!(trim("x\u{200b}"), "x\u{200b}");
    assert_eq!(parse_extensions("\u{3000}txt\u{a0},\tmd\n"), strings(&["txt", "md"]));
    for s in ["", " a ", "\r\nb\u{85}", "\u{1680}c\u{202f}", "\u{205f}d\u{2028}e\u{2029}"] {
        assert_eq!(trim(s), s.trim());
    }
}

#[test]
fn bytes_that_are_not_utf8_are_a_decoding_error() {
    assert_eq!(decode_text(&"汉字 ok".as_bytes().to_vec()).unwrap(), "汉字 ok");
    assert_eq!(decode_text(&vec![]).unwrap(), "");
    match decode_text(&vec![0x61, 0xff]) {
        Err(e @ AppError::Utf8(_)) => {
            assert_eq!(e.message(), "error: invalid UTF-8: invalid utf-8 sequence of 1 bytes from index 1")
        },
        other => panic!("unexpected {:?}", other),
    }
}

#[test]
fn a_walk_shows_paths_as_the_directory_was_written() {
    let mut w = DirWalk::start(&path("./folder/"), true, &strings(&["txt"])).unwrap();
    let d = w.next_dir().unwrap();
    assert_eq!(display_path(&d), "./folder/");
    w.visit(vec![entry("sub", false, true), entry("b.txt", false, false)]);
    let d = w.next_dir().unwrap();
    assert_eq!(display_path(&d), "./folder/sub");
    w.visit(vec![entry("a.TXT", false, false)]);
    assert!(w.next_dir().is_none());
    let found: Vec<String> = w.finish().unwrap().iter().map(display_path).collect();
    assert_eq!(found, strings(&["./folder/b.txt", "./folder/sub/a.TXT"]));

    let mut empty = DirWalk::start(&path("folder/"), true, &strings(&["txt", "md"])).unwrap();
    let _ = empty.next_dir().unwrap();
    empty.visit(vec![entry("x.rs", false, false)]);
    assert!(empty.next_dir().is_none());
    match empty.finish() {
        Err(e @ AppError::EmptyDir { .. }) => {
            assert_eq!(e.message(), "error: no matching files in 'folder/' (--ext: txt,md)")
        },
        other => panic!("unexpected {:?}", other.map(|v| v.len())),
    }
}
