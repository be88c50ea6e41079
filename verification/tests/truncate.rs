use soul_coder::truncate::{
    add_line_numbers, truncate_head, truncate_line, truncate_tail, TruncatedBy, MAX_BYTES,
    MAX_LINES,
};

#[test]
fn head_no_truncation() {
    let input = "line1\nline2\nline3";
    let result = truncate_head(input, 10, MAX_BYTES);
    assert!(!result.is_truncated());
    assert_eq!(result.content, input);
    assert_eq!(result.original_lines, 3);
    assert_eq!(result.output_lines, 3);
}

#[test]
fn head_truncate_by_lines() {
    let input = "a\nb\nc\nd\ne";
    let result = truncate_head(input, 3, MAX_BYTES);
    assert!(result.is_truncated());
    assert_eq!(result.truncated_by, Some(TruncatedBy::Lines));
    assert_eq!(result.output_lines, 3);
    assert_eq!(result.content, "a\nb\nc");
}

#[test]
fn head_truncate_by_bytes() {
    let input = "hello world this is a longer string\nsecond line here";
    let result = truncate_head(input, MAX_LINES, 20);
    assert!(result.is_truncated());
    assert_eq!(result.truncated_by, Some(TruncatedBy::Bytes));
}

#[test]
fn tail_no_truncation() {
    let input = "line1\nline2\nline3";
    let result = truncate_tail(input, 10, MAX_BYTES);
    assert!(!result.is_truncated());
    assert_eq!(result.content, input);
}

#[test]
fn tail_truncate_by_lines() {
    let input = "a\nb\nc\nd\ne";
    let result = truncate_tail(input, 3, MAX_BYTES);
    assert!(result.is_truncated());
    assert_eq!(result.truncated_by, Some(TruncatedBy::Lines));
    assert_eq!(result.content, "c\nd\ne");
}

#[test]
fn truncate_line_short() {
    assert_eq!(truncate_line("hello", 10), "hello");
}

#[test]
fn truncate_line_long() {
    let long = "a".repeat(600);
    let result = truncate_line(&long, 500);
    assert!(result.len() <= 503); // 500 + "..."
    assert!(result.ends_with("..."));
}

#[test]
fn line_numbers() {
    let input = "first\nsecond\nthird";
    let result = add_line_numbers(input, 1);
    assert!(result.contains("     1\tfirst"));
    assert!(result.contains("     2\tsecond"));
    assert!(result.contains("     3\tthird"));
}

#[test]
fn line_numbers_with_offset() {
    let input = "line10\nline11";
    let result = add_line_numbers(input, 10);
    assert!(result.contains("    10\tline10"));
    assert!(result.contains("    11\tline11"));
}

#[test]
fn truncation_notice() {
    let result = truncate_head("a\nb\nc\nd\ne", 3, MAX_BYTES);
    let notice = result.truncation_notice().unwrap();
    assert!(notice.contains("3 of 5 lines"));
}

#[test]
fn empty_input() {
    let result = truncate_head("", MAX_LINES, MAX_BYTES);
    assert!(!result.is_truncated());
    assert_eq!(result.content, "");
}

#[test]
fn bytes_notice_counts() {
    let result = truncate_tail("aaaa\nbbbb\ncccc", 10, 6);
    assert_eq!(result.truncated_by, Some(TruncatedBy::Bytes));
    assert_eq!(result.content, "b\ncccc");
    let notice = result.truncation_notice().unwrap();
    assert_eq!(notice, "[Truncated: showing 6 of 14 bytes]");
}

#[test]
fn tail_byte_cut_respects_char_boundary() {
    // Dropping one byte of a two-byte character drops the whole
    // character.
    let input = "\u{00e9}abc";
    let result = truncate_tail(input, 10, 4);
    assert_eq!(result.content, "abc");
    assert_eq!(result.truncated_by, Some(TruncatedBy::Bytes));
}

#[test]
fn head_excludes_partial_line() {
    // The third line would fit partially: it is left out entirely.
    let result = truncate_head("aa\nbb\ncc", 10, 7);
    assert_eq!(result.content, "aa\nbb");
    assert_eq!(result.truncated_by, Some(TruncatedBy::Bytes));
    assert_eq!(result.output_lines, 2);
    assert_eq!(result.output_bytes, 5);
}

#[test]
fn truncate_line_counts_characters() {
    // Six two-byte characters are only six characters: nothing is cut
    // under a seven-character budget.
    let line = "\u{00e9}\u{00e9}\u{00e9}\u{00e9}\u{00e9}\u{00e9}";
    assert_eq!(truncate_line(line, 7), line);
    // Ten characters under a budget of five: two kept, then the
    // ellipsis.
    let long = "\u{00e9}".repeat(10);
    assert_eq!(truncate_line(&long, 5), "\u{00e9}\u{00e9}...");
}

#[test]
fn trailing_newline_cut_is_reported() {
    // Dropping only the trailing newline of an over-budget input is
    // still a byte cut.
    let result = truncate_head("aa\n", 10, 2);
    assert_eq!(result.content, "aa");
    assert_eq!(result.truncated_by, Some(TruncatedBy::Bytes));
    assert!(result.is_truncated());
    let t = truncate_tail("aa\n", 10, 2);
    assert_eq!(t.content, "aa");
    assert_eq!(t.truncated_by, Some(TruncatedBy::Bytes));
}

#[test]
fn add_line_numbers_empty() {
    assert_eq!(add_line_numbers("", 1), "");
}

#[test]
fn head_scenario_small_budget() {
    let result = truncate_head("a\nb\nc\nd\ne", 3, 10000);
    assert_eq!(result.content, "a\nb\nc");
    assert_eq!(result.truncated_by, Some(TruncatedBy::Lines));
    assert_eq!(result.output_lines, 3);
}

#[test]
fn tail_scenario_small_budget() {
    let result = truncate_tail("a\nb\nc\nd\ne", 3, 10000);
    assert_eq!(result.content, "c\nd\ne");
}
