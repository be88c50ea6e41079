use soul_coder::ansi::strip_ansi;
use soul_coder::render::{
    render_command_output, render_dir_listing, render_file_slice, render_find_results,
    write_report,
};

#[test]
fn strips_ansi() {
    assert_eq!(strip_ansi("\x1b[31mred\x1b[0m"), "red");
    assert_eq!(strip_ansi("no ansi"), "no ansi");
    assert_eq!(strip_ansi("line\r\n"), "line\n");
}

#[test]
fn strips_lone_escape() {
    assert_eq!(strip_ansi("a\x1bb"), "ab");
}

#[test]
fn command_output_passthrough() {
    let (out, cut) = render_command_output("hello world\n");
    assert_eq!(out, "hello world\n");
    assert!(!cut);
}

#[test]
fn command_output_tail_truncated() {
    let mut input = String::new();
    for i in 0..60 {
        input.push_str(&format!("line{}\n", i));
    }
    let (out, cut) = render_command_output(&input);
    assert!(cut);
    assert!(out.starts_with("[Truncated: showing 50 of 60 lines]\n"));
    assert!(out.ends_with("line59"));
    assert!(!out.contains("line9\n"));
}

#[test]
fn write_report_counts_bytes() {
    assert_eq!(write_report("new.txt", "hello world"), "Wrote 11 bytes to new.txt");
}

#[test]
fn read_file_numbered() {
    let out = render_file_slice("line1\nline2\nline3", 1, None).unwrap();
    assert!(out.contains("     1\tline1"));
    assert!(out.contains("     2\tline2"));
    assert!(out.contains("     3\tline3"));
}

#[test]
fn read_with_offset_and_limit() {
    let mut content = String::new();
    for i in 1..=10 {
        content.push_str(&format!("line{}\n", i));
    }
    let out = render_file_slice(&content, 3, Some(3)).unwrap();
    assert!(out.contains("     3\tline3"));
    assert!(out.contains("     4\tline4"));
    assert!(out.contains("     5\tline5"));
    assert!(!out.contains("line6"));
}

#[test]
fn read_offset_beyond_file() {
    let err = render_file_slice("one\ntwo", 100, None).unwrap_err();
    assert!(err.contains("exceeds"));
    assert_eq!(err, "offset 100 exceeds file length (2 lines)");
}

#[test]
fn read_zero_offset() {
    let err = render_file_slice("one", 0, None).unwrap_err();
    assert_eq!(err, "offset must be >= 1");
}

#[test]
fn ls_sorted_case_insensitive() {
    let entries = vec![
        ("Banana.txt".to_string(), false),
        ("apple.txt".to_string(), false),
        ("Cherry.txt".to_string(), false),
    ];
    let out = render_dir_listing(entries, 500);
    assert_eq!(out, "apple.txt\nBanana.txt\nCherry.txt");
}

#[test]
fn ls_directories_marked() {
    let entries = vec![("sub".to_string(), true), ("file.txt".to_string(), false)];
    let out = render_dir_listing(entries, 500);
    assert_eq!(out, "file.txt\nsub/");
}

#[test]
fn ls_empty_dir() {
    let out = render_dir_listing(Vec::new(), 500);
    assert_eq!(out, "(empty directory)");
}

#[test]
fn ls_with_limit() {
    let entries: Vec<(String, bool)> =
        (0..10).map(|i| (format!("file{}.txt", i), false)).collect();
    let out = render_dir_listing(entries, 3);
    assert!(out.contains("[Showing 3 of 10 entries]"));
}

#[test]
fn find_no_results() {
    let out = render_find_results(Vec::new(), "/project", "*.py", 1000);
    assert_eq!(out, "No files matching '*.py' found");
}

#[test]
fn find_relative_sorted() {
    let results = vec![
        "/project/src/main.rs".to_string(),
        "/project/Cargo.toml".to_string(),
    ];
    let out = render_find_results(results, "/project", "*", 1000);
    assert_eq!(out, "Cargo.toml\nsrc/main.rs");
}

#[test]
fn find_limit_marker() {
    let results = vec!["/p/a".to_string(), "/p/b".to_string()];
    let out = render_find_results(results, "/p", "*", 2);
    assert!(out.contains("[Reached limit: 2 results]"));
}
