use opencc_cli::cli::{validate_inputs};
use opencc_cli::convert::{convert_text, create_converter, mode_to_config};
use opencc_cli::error::AppError;
use opencc_cli::path::FsPath;
use opencc_cli::plan::{check_distinct_target, plan_dir_outputs, plan_file_outputs};

fn path(s: &str) -> FsPath {
    FsPath::written(
        std::path::Path::new(s)
            .components()
            .map(|c| c.as_os_str().as_encoded_bytes().to_vec())
            .collect(),
        s.as_bytes().to_vec(),
    )
}

fn parts(p: &FsPath) -> Vec<Vec<u8>> {
    p.parts.clone()
}

fn convert(mode: &str, text: &str) -> String {
    let c = create_converter(mode).unwrap();
    convert_text(&c, text)
}

// --- Text mode ---

#[test]
fn text_s2t() {
    let stdout = convert("s2t", "开放中文转换");
    assert!(stdout.contains("開放中文轉換"));
}

#[test]
fn text_t2s() {
    let stdout = convert("t2s", "開放中文轉換");
    assert!(stdout.contains("开放中文转换"));
}

#[test]
fn text_s2twp_taiwan_vocab() {
    let stdout = convert("s2twp", "软件 鼠标 默认");
    assert!(stdout.contains("軟體"));
    assert!(stdout.contains("滑鼠"));
    assert!(stdout.contains("預設"));
}

#[test]
fn text_s2hk() {
    let stdout = convert("s2hk", "开");
    assert!(stdout.contains("開"));
}

// --- File mode (the library's part: what is converted and where it goes) ---

#[test]
fn single_file_stdout() {
    assert!(validate_inputs(false, 1, false, false, false).is_ok());
    let stdout = convert("s2t", "开放中文转换");
    assert!(stdout.contains("開放中文轉換"));
}

#[test]
fn single_file_output() {
    assert!(validate_inputs(false, 1, false, true, false).is_ok());
    let input = path("/tmp/ctx/input.txt");
    assert!(check_distinct_target(&input, &Some(path("/tmp/ctx/input.txt")), &None).is_ok());
    assert_eq!(convert("s2t", "开放中文转换"), "開放中文轉換");
}

#[test]
fn multi_file_output() {
    assert!(validate_inputs(false, 2, false, true, false).is_ok());
    let files = vec![path("/tmp/ctx/a.txt"), path("/tmp/ctx/b.md")];
    let outs = plan_file_outputs(&files, &path("/tmp/ctx/out"), true, true).unwrap();
    assert_eq!(parts(&outs[0]), parts(&path("/tmp/ctx/out/a.txt")));
    assert_eq!(parts(&outs[1]), parts(&path("/tmp/ctx/out/b.md")));
    assert_eq!(convert("s2t", "开放"), "開放");
    assert_eq!(convert("s2t", "转换"), "轉換");
}

// --- Directory mode ---

#[test]
fn directory_mode() {
    let input_dir = path("/tmp/ctx/sub");
    let out_dir = path("/tmp/ctx/output_dir");
    let files = vec![path("/tmp/ctx/sub/deep.txt")];
    let outs = plan_dir_outputs(
        &input_dir,
        &out_dir,
        true,
        true,
        &Some(path("/tmp/ctx/sub")),
        &Some(path("/tmp/ctx/output_dir")),
        &files,
    )
    .unwrap();
    assert_eq!(parts(&outs[0]), parts(&path("/tmp/ctx/output_dir/deep.txt")));
    assert_eq!(convert("s2t", "软件和鼠标"), "軟件和鼠標");
}

#[test]
fn directory_preserves_nested_structure() {
    let input_dir = path("/tmp/ctx/src");
    let out_dir = path("/tmp/ctx/out");
    let files = vec![path("/tmp/ctx/src/nested/a.txt")];
    let outs = plan_dir_outputs(
        &input_dir,
        &out_dir,
        true,
        true,
        &Some(path("/tmp/ctx/src")),
        &Some(path("/tmp/ctx/out")),
        &files,
    )
    .unwrap();
    assert_eq!(parts(&outs[0]), parts(&path("/tmp/ctx/out/nested/a.txt")));
    assert_eq!(convert("s2t", "开放"), "開放");
}

// --- In-place mode ---

#[test]
fn in_place_single_file() {
    assert!(validate_inputs(false, 1, false, false, true).is_ok());
    assert_eq!(convert("s2t", "开放中文转换"), "開放中文轉換");
}

#[test]
fn in_place_directory() {
    assert!(validate_inputs(false, 0, true, false, true).is_ok());
    assert_eq!(convert("s2t", "开放"), "開放");
    assert_eq!(convert("s2t", "转换"), "轉換");
}

// --- Error cases ---

#[test]
fn error_unsupported_mode() {
    assert!(validate_inputs(true, 0, false, false, false).is_ok());
    let err = mode_to_config("xyz").unwrap_err();
    assert!(err.message().contains("unsupported mode"));
    assert!(create_converter("xyz").is_err());
}

#[test]
fn error_file_not_found() {
    let err = AppError::FileNotFound(path("/nonexistent/path.txt"));
    assert!(err.message().contains("file not found"));
    assert_eq!(err.message(), "error: file not found: '/nonexistent/path.txt'");
}

#[test]
fn error_inplace_with_text() {
    let err = validate_inputs(true, 0, false, false, true).unwrap_err();
    assert!(err.message().contains("--in-place requires"));
}

#[test]
fn error_inplace_with_output() {
    let err = validate_inputs(false, 1, false, true, true).unwrap_err();
    assert!(err.message().contains("mutually exclusive"));
}

#[test]
fn error_same_file_without_inplace() {
    let input = path("/tmp/ctx/same.txt");
    let err = check_distinct_target(
        &input,
        &Some(path("/tmp/ctx/same.txt")),
        &Some(path("/tmp/ctx/same.txt")),
    )
    .unwrap_err();
    assert!(err.message().contains("input and output are the same"));
}

#[test]
fn error_multi_file_no_output() {
    let err = validate_inputs(false, 2, false, false, false).unwrap_err();
    assert!(err.message().contains("multiple files require"));
}
