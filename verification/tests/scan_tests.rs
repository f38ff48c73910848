use cp_docs::collect_matches;
use cp_docs::is_docs_dir;
use cp_docs::plan_copies;
use cp_docs::should_traverse;
use cp_docs::FsNode;
use cp_docs::ScanConfig;

fn dir(name: &str, children: Vec<FsNode>) -> FsNode {
    FsNode { name: name.to_string(), is_dir: true, children }
}

fn file(name: &str) -> FsNode {
    FsNode { name: name.to_string(), is_dir: false, children: Vec::new() }
}

fn root_of(children: Vec<FsNode>) -> FsNode {
    dir("root", children)
}

#[test]
fn should_traverse_filters_hidden_private_and_ignored() {
    let cfg = ScanConfig::docs_default();
    assert!(should_traverse("my_project", true, &cfg.ignore_patterns));
    assert!(should_traverse("docs", true, &cfg.ignore_patterns));
    assert!(!should_traverse("my_project", false, &cfg.ignore_patterns));
    assert!(!should_traverse(".git", true, &cfg.ignore_patterns));
    assert!(!should_traverse(".hidden", true, &cfg.ignore_patterns));
    assert!(!should_traverse("_private", true, &cfg.ignore_patterns));
    assert!(!should_traverse("node_modules", true, &cfg.ignore_patterns));
    assert!(!should_traverse("venv", true, &cfg.ignore_patterns));
    assert!(!should_traverse("site-packages", true, &cfg.ignore_patterns));
    assert!(!should_traverse("__pycache__", true, &cfg.ignore_patterns));
    assert!(!should_traverse("target", true, &cfg.ignore_patterns));
    assert!(!should_traverse("build", true, &cfg.ignore_patterns));
    assert!(!should_traverse("third_party", true, &cfg.ignore_patterns));
    assert!(!should_traverse("tests", true, &cfg.ignore_patterns));
    // Containment is by substring, not exact equality.
    assert!(!should_traverse("my-build-cache", true, &cfg.ignore_patterns));
    assert!(!should_traverse("integration-tests", true, &cfg.ignore_patterns));
}

#[test]
fn is_docs_dir_matches_directories_case_insensitively() {
    assert!(is_docs_dir("docs", true, "docs"));
    assert!(is_docs_dir("DOCS", true, "docs"));
    assert!(is_docs_dir("Docs", true, "docs"));
    assert!(!is_docs_dir("docs", false, "docs"));
    assert!(!is_docs_dir("docsx", true, "docs"));
    assert!(!is_docs_dir("mydocs", true, "docs"));
}

#[test]
fn scenario_two_docs_directories_are_both_planned() {
    let cfg = ScanConfig::docs_default();
    let root = root_of(vec![dir(
        "proj",
        vec![
            dir("src", vec![dir("docs", vec![file("a.md")])]),
            dir("api", vec![dir("docs", vec![file("b.md")])]),
        ],
    )]);
    let matches = collect_matches(&root, &cfg);
    assert_eq!(matches, vec!["proj/src/docs".to_string(), "proj/api/docs".to_string()]);
    let plan = plan_copies(&root, &cfg, "out");
    assert_eq!(plan.len(), 2);
    assert_eq!(plan[0].source_rel, "proj/src/docs");
    assert_eq!(plan[0].destination, "out/proj/src");
    assert_eq!(plan[1].source_rel, "proj/api/docs");
    assert_eq!(plan[1].destination, "out/proj/api");
    assert!(!plan[0].destination.contains("docs"));
    assert!(!plan[1].destination.contains("docs"));
}

#[test]
fn scenario_docs_under_node_modules_is_never_collected() {
    let cfg = ScanConfig::docs_default();
    let root = root_of(vec![dir(
        "proj",
        vec![dir("node_modules", vec![dir("pkg", vec![dir("docs", vec![file("x.md")])])])],
    )]);
    let matches = collect_matches(&root, &cfg);
    assert!(matches.is_empty());
}

#[test]
fn scenario_docs_under_hidden_directory_is_never_collected() {
    let cfg = ScanConfig::docs_default();
    let root = root_of(vec![dir(
        "proj",
        vec![dir(".hidden", vec![dir("docs", vec![file("y.md")])])],
    )]);
    assert!(collect_matches(&root, &cfg).is_empty());

    let root2 = root_of(vec![dir(
        "proj",
        vec![dir("_internal", vec![dir("docs", vec![file("y.md")])])],
    )]);
    assert!(collect_matches(&root2, &cfg).is_empty());
}

#[test]
fn case_variant_directories_match() {
    let cfg = ScanConfig::docs_default();
    let root = root_of(vec![dir("a", vec![dir("DOCS", vec![file("z.md")])])]);
    assert_eq!(collect_matches(&root, &cfg), vec!["a/DOCS".to_string()]);
}

#[test]
fn files_named_like_the_target_are_not_matches() {
    let cfg = ScanConfig::docs_default();
    let root = root_of(vec![dir("a", vec![file("docs")])]);
    assert!(collect_matches(&root, &cfg).is_empty());
}

#[test]
fn a_match_is_not_searched_for_nested_matches() {
    let cfg = ScanConfig::docs_default();
    let root = root_of(vec![dir("a", vec![dir("docs", vec![dir("docs", vec![])])])]);
    assert_eq!(collect_matches(&root, &cfg), vec!["a/docs".to_string()]);
}

#[test]
fn equally_named_matches_under_distinct_parents_are_distinct() {
    let cfg = ScanConfig::docs_default();
    let root = root_of(vec![
        dir("one", vec![dir("docs", vec![])]),
        dir("two", vec![dir("docs", vec![])]),
    ]);
    let matches = collect_matches(&root, &cfg);
    assert_eq!(matches, vec!["one/docs".to_string(), "two/docs".to_string()]);
}

#[test]
fn scanning_twice_plans_the_same_copies() {
    let cfg = ScanConfig::docs_default();
    let root = root_of(vec![dir(
        "source",
        vec![
            dir("docs", vec![file("doc1.txt")]),
            dir("subfolder", vec![dir("docs", vec![file("doc2.txt")])]),
        ],
    )]);
    let first = plan_copies(&root, &cfg, "destination");
    let second = plan_copies(&root, &cfg, "destination");
    assert_eq!(first.len(), second.len());
    for (a, b) in first.iter().zip(second.iter()) {
        assert_eq!(a.source_rel, b.source_rel);
        assert_eq!(a.destination, b.destination);
    }
    assert_eq!(first[0].source_rel, "source/docs");
    assert_eq!(first[0].destination, "destination/source");
    assert_eq!(first[1].source_rel, "source/subfolder/docs");
    assert_eq!(first[1].destination, "destination/source/subfolder");
}

#[test]
fn the_scan_root_is_not_itself_a_candidate() {
    // The root is the traversal origin: only directories below it can match.
    let cfg = ScanConfig::docs_default();
    let root = dir("docs", vec![dir("inner", vec![])]);
    assert!(collect_matches(&root, &cfg).is_empty());
}

#[test]
fn custom_target_and_ignore_lists_are_honoured() {
    let cfg = ScanConfig::new(
        "Manual".to_string(),
        vec!["skipme".to_string()],
    );
    let root = root_of(vec![
        dir("a", vec![dir("manual", vec![])]),
        dir("skipme-too", vec![dir("manual", vec![])]),
        dir("tests", vec![dir("manual", vec![])]),
    ]);
    let matches = collect_matches(&root, &cfg);
    // "tests" is not in this custom ignore list, so it is traversed.
    assert_eq!(matches, vec!["a/manual".to_string(), "tests/manual".to_string()]);
}
