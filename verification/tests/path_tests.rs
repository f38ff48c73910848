use cp_docs::destination_for;
use cp_docs::join_path;
use cp_docs::normalize_path;
use cp_docs::parent_of;

#[test]
fn normalize_path_appends_missing_slash() {
    assert_eq!(normalize_path("path/to/dir"), "path/to/dir/");
    assert_eq!(normalize_path("path/to/dir/"), "path/to/dir/");
    assert_eq!(normalize_path(""), "/");
}

#[test]
fn parent_of_drops_the_final_segment() {
    assert_eq!(parent_of("a/b/docs"), "a/b");
    assert_eq!(parent_of("a/docs"), "a");
    assert_eq!(parent_of("docs"), "");
}

#[test]
fn join_path_inserts_one_slash() {
    assert_eq!(join_path("out", "proj/src"), "out/proj/src");
    assert_eq!(join_path("out/", "x"), "out/x");
}

#[test]
fn destination_drops_the_matched_segment() {
    assert_eq!(destination_for("out", "proj/src/docs", "docs"), "out/proj/src");
    assert_eq!(destination_for("out/", "proj/api/docs", "docs"), "out/proj/api");
    assert_eq!(destination_for("out", "docs", "docs"), "out/");
}

#[test]
fn destination_collapses_embedded_target_segments() {
    assert_eq!(destination_for("out", "a/docs/b/docs", "docs"), "out/a/b");
}

#[test]
fn destination_replacement_is_plain_substring_collapse() {
    // Only `/docs/` with both slashes is collapsed: a trailing `docs` parent
    // segment stays, as does a case variant.
    assert_eq!(destination_for("out", "a/docs/docs", "docs"), "out/a/docs");
    assert_eq!(destination_for("out", "a/Docs/b/docs", "docs"), "out/a/Docs/b");
}
