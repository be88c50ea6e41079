use soul_coder::diff::apply_diff;
use soul_coder::edit::{apply_edit, normalize_for_fuzzy, EditError, EditMethod};

#[test]
fn normalize_fuzzy_quotes() {
    let input = "\u{201C}hello\u{201D} \u{2018}world\u{2019}";
    let normalized = normalize_for_fuzzy(input);
    assert_eq!(normalized, "\"hello\" 'world'");
}

#[test]
fn normalize_fuzzy_dashes() {
    let input = "a\u{2013}b\u{2014}c";
    let normalized = normalize_for_fuzzy(input);
    assert_eq!(normalized, "a-b-c");
}

#[test]
fn normalize_fuzzy_trailing_whitespace() {
    let input = "hello   \nworld  ";
    let normalized = normalize_for_fuzzy(input);
    assert_eq!(normalized, "hello\nworld");
}

#[test]
fn exact_replacement() {
    let doc = "fn main() {\n    println!(\"hello\");\n}";
    let out = apply_edit(doc, "println!(\"hello\")", "println!(\"world\")", "code.rs").unwrap();
    assert_eq!(out.method, EditMethod::Exact);
    assert!(out.updated.contains("world"));
    assert!(!out.updated.contains("hello"));
    assert_eq!(out.updated, "fn main() {\n    println!(\"world\");\n}");
}

#[test]
fn fuzzy_smart_quotes() {
    let doc = "It\u{2019}s a test";
    let out = apply_edit(doc, "It's a test", "It is a test", "quotes.txt").unwrap();
    assert_eq!(out.method, EditMethod::Fuzzy);
    assert_eq!(out.updated, "It is a test");
}

#[test]
fn multiple_matches_error() {
    let r = apply_edit("hello hello hello", "hello", "world", "dup.txt");
    assert_eq!(r.unwrap_err(), EditError::Ambiguous(3));
}

#[test]
fn text_not_found() {
    let r = apply_edit("something else", "nothere", "replacement", "missing.txt");
    assert_eq!(r.unwrap_err(), EditError::NotFound);
}

#[test]
fn identical_old_new() {
    let r = apply_edit("content", "content", "content", "same.txt");
    assert_eq!(r.unwrap_err(), EditError::InvalidRequest);
}

#[test]
fn empty_old_rejected() {
    let r = apply_edit("content", "", "something", "f.txt");
    assert_eq!(r.unwrap_err(), EditError::InvalidRequest);
}

#[test]
fn fuzzy_ambiguous() {
    // No exact occurrence, two normalized ones.
    let doc = "It\u{2019}s here and It\u{2019}s there";
    let r = apply_edit(doc, "It's", "that is", "f.txt");
    assert_eq!(r.unwrap_err(), EditError::Ambiguous(2));
}

#[test]
fn diff_output() {
    let out = apply_edit("line1\nline2\nline3", "line2", "modified", "diff.txt").unwrap();
    assert!(out.diff.contains("-line2"));
    assert!(out.diff.contains("+modified"));
    assert!(out.diff.contains("--- a/diff.txt"));
    assert!(out.diff.contains("+++ b/diff.txt"));
    assert_eq!(out.first_changed_line, 2);
}

#[test]
fn diff_round_trip() {
    let doc = "alpha\nbeta\ngamma\ndelta";
    let out = apply_edit(doc, "gamma", "GAMMA", "f.txt").unwrap();
    assert_eq!(apply_diff(&out.segments), out.updated);
}

#[test]
fn diff_round_trip_no_trailing_newline() {
    let doc = "one\ntwo";
    let out = apply_edit(doc, "two", "three\nfour", "f.txt").unwrap();
    assert_eq!(out.updated, "one\nthree\nfour");
    assert_eq!(apply_diff(&out.segments), out.updated);
}

#[test]
fn fuzzy_line_mapped_replacement() {
    // The sole normalized occurrence is mapped back onto a line range
    // of the original document, and that whole range is replaced.
    let out = apply_edit("say \u{2018}hi\u{2019} now", "'hi'", "say 'hello' now", "f.txt").unwrap();
    assert_eq!(out.method, EditMethod::Fuzzy);
    assert_eq!(out.updated, "say 'hello' now");
}

#[test]
fn normalize_idempotent_sample() {
    let input = "a\u{2014}b  \n\u{201C}x\u{201D}";
    let once = normalize_for_fuzzy(input);
    let twice = normalize_for_fuzzy(&once);
    assert_eq!(once, twice);
}

#[test]
fn normalize_keeps_trailing_newline() {
    assert_eq!(normalize_for_fuzzy("a  \n"), "a\n");
    assert_eq!(normalize_for_fuzzy("\n\n"), "\n\n");
    let once = normalize_for_fuzzy("x \n\n");
    assert_eq!(once, "x\n\n");
    assert_eq!(normalize_for_fuzzy(&once), once);
}
