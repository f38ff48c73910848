use cp_docs::contains_substring;
use cp_docs::eq_ignore_case;
use cp_docs::replace_all;

#[test]
fn eq_ignore_case_matches_case_variants() {
    assert!(eq_ignore_case("docs", "DOCS"));
    assert!(eq_ignore_case("Docs", "docs"));
    assert!(eq_ignore_case("dOcS", "DoCs"));
    assert!(eq_ignore_case("", ""));
}

#[test]
fn eq_ignore_case_rejects_different_names() {
    assert!(!eq_ignore_case("docs", "docsx"));
    assert!(!eq_ignore_case("docs", "doc"));
    assert!(!eq_ignore_case("docs", "dots"));
    assert!(!eq_ignore_case("a", ""));
}

#[test]
fn contains_substring_finds_inner_patterns() {
    assert!(contains_substring("my-build-cache", "build"));
    assert!(contains_substring("node_modules", "node_modules"));
    assert!(contains_substring("abc", ""));
    assert!(contains_substring("site-packages-old", "site-packages"));
}

#[test]
fn contains_substring_rejects_absent_patterns() {
    assert!(!contains_substring("docs", "build"));
    assert!(!contains_substring("", "a"));
    assert!(!contains_substring("bui-ld", "build"));
}

#[test]
fn replace_all_collapses_every_occurrence() {
    assert_eq!(replace_all("out/proj/docs/sub", "/docs/", "/"), "out/proj/sub");
    assert_eq!(replace_all("a/docs/b/docs/c", "/docs/", "/"), "a/b/c");
    assert_eq!(replace_all("xyz", "/docs/", "/"), "xyz");
    assert_eq!(replace_all("", "/docs/", "/"), "");
}

#[test]
fn replace_all_does_not_rescan_replacements() {
    // The scan resumes after a replaced occurrence, as str::replace does.
    assert_eq!(replace_all("a/docs/docs/b", "/docs/", "/"), "a/docs/b");
}
