use soul_coder::glob::{matches_glob, matches_simple_glob, path_matches_glob};

#[test]
fn glob_extensions() {
    assert!(matches_glob("file.rs", "/src/file.rs", "*.rs"));
    assert!(!matches_glob("file.ts", "/src/file.ts", "*.rs"));
}

#[test]
fn glob_prefix() {
    assert!(matches_glob("Cargo.toml", "/Cargo.toml", "Cargo*"));
    assert!(!matches_glob("package.json", "/package.json", "Cargo*"));
}

#[test]
fn glob_exact() {
    assert!(matches_glob("Makefile", "/Makefile", "Makefile"));
    assert!(!matches_glob("makefile", "/makefile", "Makefile"));
}

#[test]
fn simple_glob_star() {
    assert!(matches_simple_glob("anything", "*"));
    assert!(matches_simple_glob("name.spec.ts", "*.ts"));
    assert!(matches_simple_glob("prefix_mid_suffix", "*mid*"));
    assert!(!matches_simple_glob("prefix_other_suffix", "*mid*"));
    assert!(matches_simple_glob("tail_end", "*end"));
    assert!(!matches_simple_glob("tail_ends", "*end"));
}

#[test]
fn path_glob_from_end() {
    assert!(path_matches_glob("/project/src/main.rs", "src/main.rs"));
    assert!(!path_matches_glob("/project/other/main.rs", "src/main.rs"));
    assert!(path_matches_glob("/project/src/main.rs", "**/main.rs"));
}

#[test]
fn recursive_glob() {
    assert!(matches_glob("main.rs", "/a/b/main.rs", "**/*.rs"));
    assert!(!matches_glob("main.ts", "/a/b/main.ts", "**/*.rs"));
}

#[test]
fn glob_pattern_trimmed() {
    assert!(matches_glob("file.rs", "/src/file.rs", "  *.rs  "));
}
