use soul_coder::paths::resolve_path;

#[test]
fn absolute_path_unchanged() {
    assert_eq!(resolve_path("/project", "/abs/file.txt"), "/abs/file.txt");
}

#[test]
fn relative_path_joined() {
    assert_eq!(resolve_path("/project", "src/main.rs"), "/project/src/main.rs");
}

#[test]
fn cwd_trailing_slash_stripped() {
    assert_eq!(resolve_path("/project/", "file.txt"), "/project/file.txt");
}
