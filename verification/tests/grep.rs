use soul_coder::grep::{
    append_grep_block, finish_grep_output, grep_file, grep_no_matches_message, matches_glob,
    matches_pattern,
};
use soul_coder::paths::display_path;

#[test]
fn glob_matching() {
    assert!(matches_glob("file.rs", "*.rs"));
    assert!(!matches_glob("file.ts", "*.rs"));
    assert!(matches_glob("test.spec.ts", "*.ts"));
}

#[test]
fn display_path_relative() {
    assert_eq!(display_path("/project/src/main.rs", "/project"), "src/main.rs");
    assert_eq!(display_path("/other/file.txt", "/project"), "/other/file.txt");
}

#[test]
fn pattern_literal_match() {
    assert!(matches_pattern("hello world", "hello", false, false));
    assert!(!matches_pattern("nothing here", "missing", false, false));
    assert!(matches_pattern("hello world", "hello", true, false));
}

#[test]
fn pattern_case_insensitive() {
    // Fails unless the text really is lowercased for comparison.
    assert!(matches_pattern("Hello World", "HELLO", false, true));
    assert!(!matches_pattern("Hello World", "HELLO", false, false));
}

#[test]
fn grep_file_formats_matches() {
    let (block, total) = grep_file(
        "file.txt",
        "hello world\nfoo bar\nhello again",
        "hello",
        false,
        false,
        0,
        0,
        100,
    );
    assert_eq!(total, 2);
    assert_eq!(block, "file.txt:1:hello world\nfile.txt:3:hello again\n");
}

#[test]
fn grep_file_with_context() {
    let (block, total) = grep_file("f", "a\nb\nc\nd\ne", "c", false, false, 1, 0, 100);
    assert_eq!(total, 1);
    assert_eq!(block, "f:2-b\nf:3:c\nf:4-d\n");
}

#[test]
fn grep_file_stops_at_cap() {
    let (block, total) = grep_file("f", "x\nx\nx\nx", "x", false, false, 0, 2, 3);
    assert_eq!(total, 3);
    assert_eq!(block, "f:1:x\n");
}

#[test]
fn grep_blocks_joined_with_separator() {
    let acc = append_grep_block(String::new(), "a:1:x\n");
    let acc = append_grep_block(acc, "");
    let acc = append_grep_block(acc, "b:2:y\n");
    assert_eq!(acc, "a:1:x\n\nb:2:y\n");
}

#[test]
fn grep_final_cap_marker() {
    let (out, cut) = finish_grep_output("f:1:x\n", 100, 0, 100);
    assert!(out.contains("[Reached max matches limit: 100]"));
    assert!(!cut);
}

#[test]
fn grep_no_matches_text() {
    let msg = grep_no_matches_message("missing", "/project/sub", "/project");
    assert_eq!(msg, "No matches found for pattern 'missing' in sub");
}
