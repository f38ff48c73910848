//! Scanning a directory tree for target-name directories.
//!
//! The tree is handed in as plain data ([`FsNode`]); the collector walks it
//! top-down, prunes directories that the traversal filter rejects, and
//! records the relative path of every directory whose name equals the target
//! name case-insensitively. A matched directory's subtree is not searched
//! further: it is copied wholly, so a target-name directory nested inside
//! another one is not an independent match.

use vstd::prelude::*;

use crate::paths::join_segs;
use crate::paths::destination_seq;
use crate::paths::destination_for;
use crate::text::contains_substring;
use crate::text::eq_ignore_case;
use crate::text::eq_ignore_case_seq;
use crate::text::has_substring;

verus! {

/// A directory entry as plain data: its name (one path segment), whether it
/// is a directory, and its children.
pub struct FsNode {
    pub name: String,
    pub is_dir: bool,
    pub children: Vec<FsNode>,
}

/// Configuration of a scan: the directory name searched for
/// (case-insensitive) and the substrings whose presence in a directory name
/// prunes that directory's subtree.
pub struct ScanConfig {
    pub target_name: String,
    pub ignore_patterns: Vec<String>,
}

impl ScanConfig {
    /// The ignore patterns as character sequences.
    pub open spec fn ignore(&self) -> Seq<Seq<char>> {
        self.ignore_patterns@.map_values(|s: String| s@)
    }

    /// A usable configuration: the target name is nonempty and is a single
    /// path segment (no slash).
    pub open spec fn wf(&self) -> bool {
        self.target_name@.len() > 0 && forall|i: int|
            0 <= i < self.target_name@.len() ==> self.target_name@[i] != '/'
    }

    pub fn new(target_name: String, ignore_patterns: Vec<String>) -> (c: ScanConfig)
        ensures
            c.target_name == target_name,
            c.ignore_patterns == ignore_patterns,
    {
        ScanConfig { target_name, ignore_patterns }
    }

    /// The stock configuration: the target name "docs", and the usual
    /// dependency, cache, build and version-control directories ignored.
    pub fn docs_default() -> (c: ScanConfig)
        ensures
            c.target_name@ == "docs"@,
            c.ignore() == seq![
                "venv"@,
                "site-packages"@,
                "__pycache__"@,
                "node_modules"@,
                ".git"@,
                "target"@,
                "build"@,
                "third_party"@,
                "tests"@,
            ],
            c.wf(),
    {
        let mut ignore_patterns: Vec<String> = Vec::new();
        ignore_patterns.push(String::from_str("venv"));
        ignore_patterns.push(String::from_str("site-packages"));
        ignore_patterns.push(String::from_str("__pycache__"));
        ignore_patterns.push(String::from_str("node_modules"));
        ignore_patterns.push(String::from_str(".git"));
        ignore_patterns.push(String::from_str("target"));
        ignore_patterns.push(String::from_str("build"));
        ignore_patterns.push(String::from_str("third_party"));
        ignore_patterns.push(String::from_str("tests"));
        let c = ScanConfig { target_name: String::from_str("docs"), ignore_patterns };
        proof {
            reveal_strlit("docs");
            assert(c.ignore() =~= seq![
                "venv"@,
                "site-packages"@,
                "__pycache__"@,
                "node_modules"@,
                ".git"@,
                "target"@,
                "build"@,
                "third_party"@,
                "tests"@,
            ]);
            assert(c.wf());
        }
        c
    }
}

/// The name falls under the hidden/private convention: it starts with a dot
/// or an underscore.
pub open spec fn hidden_name(name: Seq<char>) -> bool {
    name.len() > 0 && (name[0] == '.' || name[0] == '_')
}

/// The name contains one of the ignore patterns as a substring.
pub open spec fn ignored_name(name: Seq<char>, ignore: Seq<Seq<char>>) -> bool {
    exists|i: int| 0 <= i < ignore.len() && has_substring(name, #[trigger] ignore[i])
}

/// The traversal filter accepts this name: neither hidden/private nor
/// containing an ignore pattern.
pub open spec fn traversable_name(name: Seq<char>, ignore: Seq<Seq<char>>) -> bool {
    !hidden_name(name) && !ignored_name(name, ignore)
}

/// The traversal descends into an entry exactly when it is a directory whose
/// name the filter accepts.
pub open spec fn spec_should_traverse(name: Seq<char>, is_dir: bool, ignore: Seq<Seq<char>>) -> bool {
    is_dir && traversable_name(name, ignore)
}

/// Decides whether the traversal should descend into an entry: directories
/// only, skipping names that start with `.` or `_` and names containing any
/// of the ignore patterns. Containment is substring containment, not exact
/// equality: a name merely containing a pattern is skipped.
pub fn should_traverse(name: &str, is_dir: bool, ignore_patterns: &Vec<String>) -> (r: bool)
    ensures
        r == spec_should_traverse(name@, is_dir, ignore_patterns@.map_values(|s: String| s@)),
{
    let ghost ig = ignore_patterns@.map_values(|s: String| s@);
    if !is_dir {
        return false;
    }
    let n = name.unicode_len();
    if n > 0 {
        let c = name.get_char(0);
        if c == '.' || c == '_' {
            return false;
        }
    }
    let mut i: usize = 0;
    while i < ignore_patterns.len()
        invariant
            ig == ignore_patterns@.map_values(|s: String| s@),
            0 <= i <= ignore_patterns@.len(),
            forall|k: int| 0 <= k < i ==> !has_substring(name@, #[trigger] ig[k]),
        decreases ignore_patterns@.len() - i,
    {
        if contains_substring(name, ignore_patterns[i].as_str()) {
            proof {
                assert(has_substring(name@, ig[i as int]));
            }
            return false;
        }
        i = i + 1;
    }
    true
}

/// Is this entry a match: a directory whose name equals the target name up to
/// ASCII case?
pub open spec fn spec_is_docs_dir(name: Seq<char>, is_dir: bool, target: Seq<char>) -> bool {
    is_dir && eq_ignore_case_seq(name, target)
}

/// Reports whether an entry is a directory whose name case-insensitively
/// equals the target name.
pub fn is_docs_dir(name: &str, is_dir: bool, target_name: &str) -> (r: bool)
    ensures
        r == spec_is_docs_dir(name@, is_dir, target_name@),
{
    is_dir && eq_ignore_case(name, target_name)
}

/// The match paths found in the subtree rooted at `node`, whose own relative
/// path (as segments) is `rel`. A pruned node contributes nothing; a matched
/// node contributes its own path and is not searched further; any other
/// directory is searched child by child.
pub open spec fn matches_of(
    node: FsNode,
    rel: Seq<Seq<char>>,
    target: Seq<char>,
    ignore: Seq<Seq<char>>,
) -> Seq<Seq<Seq<char>>>
    decreases node,
{
    if !spec_should_traverse(node.name@, node.is_dir, ignore) {
        seq![]
    } else if eq_ignore_case_seq(node.name@, target) {
        seq![rel]
    } else {
        matches_in(node.children@, rel, target, ignore)
    }
}

/// The match paths found under a list of sibling nodes whose parent's
/// relative path is `rel`, in order.
pub open spec fn matches_in(
    nodes: Seq<FsNode>,
    rel: Seq<Seq<char>>,
    target: Seq<char>,
    ignore: Seq<Seq<char>>,
) -> Seq<Seq<Seq<char>>>
    decreases nodes,
{
    if nodes.len() == 0 {
        seq![]
    } else {
        matches_of(nodes[0], rel.push(nodes[0].name@), target, ignore) + matches_in(
            nodes.drop_first(),
            rel,
            target,
            ignore,
        )
    }
}

/// All match paths under the scan root, in discovery order. The root itself
/// is the traversal origin, not a candidate.
pub open spec fn scan_matches(root: FsNode, target: Seq<char>, ignore: Seq<Seq<char>>) -> Seq<
    Seq<Seq<char>>,
> {
    matches_in(root.children@, seq![], target, ignore)
}

/// Appending a node to a sibling list appends its matches to the list's.
pub proof fn lemma_matches_in_push(
    nodes: Seq<FsNode>,
    node: FsNode,
    rel: Seq<Seq<char>>,
    target: Seq<char>,
    ignore: Seq<Seq<char>>,
)
    ensures
        matches_in(nodes.push(node), rel, target, ignore) == matches_in(nodes, rel, target, ignore)
            + matches_of(node, rel.push(node.name@), target, ignore),
    decreases nodes,
{
    let s = nodes.push(node);
    let c = matches_of(node, rel.push(node.name@), target, ignore);
    if nodes.len() == 0 {
        assert(s.drop_first() =~= Seq::<FsNode>::empty());
        assert(s[0] == node);
        assert(matches_in(s.drop_first(), rel, target, ignore) == Seq::<Seq<Seq<char>>>::empty());
        assert(matches_in(s, rel, target, ignore) == c + Seq::<Seq<Seq<char>>>::empty());
        assert(c + Seq::<Seq<Seq<char>>>::empty() =~= Seq::<Seq<Seq<char>>>::empty() + c);
        assert(matches_in(nodes, rel, target, ignore) == Seq::<Seq<Seq<char>>>::empty());
    } else {
        assert(s[0] == nodes[0]);
        assert(s.drop_first() =~= nodes.drop_first().push(node));
        lemma_matches_in_push(nodes.drop_first(), node, rel, target, ignore);
        let a0 = matches_of(nodes[0], rel.push(nodes[0].name@), target, ignore);
        assert(a0 + (matches_in(nodes.drop_first(), rel, target, ignore) + c) =~= (a0 + matches_in(
            nodes.drop_first(),
            rel,
            target,
            ignore,
        )) + c);
    }
}

/// Mapping the join over a concatenation distributes.
proof fn lemma_map_join_distributes(a: Seq<Seq<Seq<char>>>, b: Seq<Seq<Seq<char>>>)
    ensures
        (a + b).map_values(|m: Seq<Seq<char>>| join_segs(m)) == a.map_values(
            |m: Seq<Seq<char>>| join_segs(m),
        ) + b.map_values(|m: Seq<Seq<char>>| join_segs(m)),
{
    assert((a + b).map_values(|m: Seq<Seq<char>>| join_segs(m)) =~= a.map_values(
        |m: Seq<Seq<char>>| join_segs(m),
    ) + b.map_values(|m: Seq<Seq<char>>| join_segs(m)));
}

/// Collects the matches under every node of `children` (the children of a
/// directory whose relative path is `rel`, or of the scan root when
/// `at_root`) into `out`, as slash-joined relative paths.
fn collect_from(
    children: &Vec<FsNode>,
    rel: &String,
    at_root: bool,
    cfg: &ScanConfig,
    Ghost(rel_segs): Ghost<Seq<Seq<char>>>,
    out: &mut Vec<String>,
)
    requires
        join_segs(rel_segs) == rel@,
        at_root <==> rel_segs.len() == 0,
    ensures
        final (out)@.map_values(|s: String| s@) == old(out)@.map_values(|s: String| s@) + matches_in(
            children@,
            rel_segs,
            cfg.target_name@,
            cfg.ignore(),
        ).map_values(|m: Seq<Seq<char>>| join_segs(m)),
    decreases children,
{
    proof {
        reveal_strlit("/");
    }
    let ghost target = cfg.target_name@;
    let ghost ignore = cfg.ignore();
    let ghost joiner = |m: Seq<Seq<char>>| join_segs(m);
    let ghost viewer = |s: String| s@;
    let ghost out0 = out@;
    let mut i: usize = 0;
    while i < children.len()
        invariant
            join_segs(rel_segs) == rel@,
            at_root <==> rel_segs.len() == 0,
            target == cfg.target_name@,
            ignore == cfg.ignore(),
            joiner == (|m: Seq<Seq<char>>| join_segs(m)),
            viewer == (|s: String| s@),
            0 <= i <= children@.len(),
            out@.map_values(viewer) == out0.map_values(viewer) + matches_in(
                children@.take(i as int),
                rel_segs,
                target,
                ignore,
            ).map_values(joiner),
        decreases children@.len() - i,
    {
        let child = &children[i];
        let ghost child_segs = rel_segs.push(child.name@);
        let ghost before = out@;
        if should_traverse(child.name.as_str(), child.is_dir, &cfg.ignore_patterns) {
            let child_rel: String = if at_root {
                child.name.clone()
            } else {
                rel.clone().concat("/").concat(child.name.as_str())
            };
            proof {
                reveal_strlit("/");
                crate::paths::lemma_join_segs_push(rel_segs, child.name@);
                assert("/"@ =~= seq!['/']);
                assert(child_rel@ =~= join_segs(child_segs));
            }
            if is_docs_dir(child.name.as_str(), child.is_dir, cfg.target_name.as_str()) {
                out.push(child_rel);
                proof {
                    assert(matches_of(children@[i as int], child_segs, target, ignore) =~= seq![
                        child_segs,
                    ]);
                    assert(seq![child_segs].map_values(joiner) =~= seq![join_segs(child_segs)]);
                    assert(out@.map_values(viewer) =~= before.map_values(viewer) + seq![
                        join_segs(child_segs),
                    ]);
                }
            } else {
                collect_from(&child.children, &child_rel, false, cfg, Ghost(child_segs), out);
                proof {
                    assert(matches_of(children@[i as int], child_segs, target, ignore)
                        == matches_in(children@[i as int].children@, child_segs, target, ignore));
                }
            }
        } else {
            proof {
                assert(matches_of(children@[i as int], child_segs, target, ignore) =~= Seq::<
                    Seq<Seq<char>>,
                >::empty());
                assert(out@.map_values(viewer) =~= before.map_values(viewer) + matches_of(
                    children@[i as int],
                    child_segs,
                    target,
                    ignore,
                ).map_values(joiner));
            }
        }
        proof {
            assert(children@.take(i + 1) =~= children@.take(i as int).push(children@[i as int]));
            lemma_matches_in_push(children@.take(i as int), children@[i as int], rel_segs, target, ignore);
            lemma_map_join_distributes(
                matches_in(children@.take(i as int), rel_segs, target, ignore),
                matches_of(children@[i as int], child_segs, target, ignore),
            );
            assert((out0.map_values(viewer) + matches_in(
                children@.take(i as int),
                rel_segs,
                target,
                ignore,
            ).map_values(joiner)) + matches_of(children@[i as int], child_segs, target, ignore).map_values(
                joiner,
            ) =~= out0.map_values(viewer) + (matches_in(
                children@.take(i as int),
                rel_segs,
                target,
                ignore,
            ).map_values(joiner) + matches_of(children@[i as int], child_segs, target, ignore).map_values(
                joiner,
            )));
        }
        i = i + 1;
    }
    proof {
        assert(children@.take(children@.len() as int) =~= children@);
    }
}

/// Collects the relative paths of all matched directories under `root`, in
/// discovery order.
pub fn collect_matches(root: &FsNode, cfg: &ScanConfig) -> (matches: Vec<String>)
    ensures
        matches@.map_values(|s: String| s@) == scan_matches(
            *root,
            cfg.target_name@,
            cfg.ignore(),
        ).map_values(|m: Seq<Seq<char>>| join_segs(m)),
{
    let mut out: Vec<String> = Vec::new();
    let rel = String::new();
    collect_from(&root.children, &rel, true, cfg, Ghost(Seq::<Seq<char>>::empty()), &mut out);
    proof {
        assert(out@.map_values(|s: String| s@) =~= scan_matches(
            *root,
            cfg.target_name@,
            cfg.ignore(),
        ).map_values(|m: Seq<Seq<char>>| join_segs(m)));
    }
    out
}

/// One planned copy: the matched directory's path relative to the scan root,
/// and the destination directory it is to be copied to.
pub struct CopyStep {
    pub source_rel: String,
    pub destination: String,
}

/// Plans the whole run: one copy step per match, in discovery order, with the
/// destination computed from the destination root, the match's relative path
/// and the target name.
pub fn plan_copies(root: &FsNode, cfg: &ScanConfig, dest_root: &str) -> (plan: Vec<CopyStep>)
    ensures
        ({
            let ms = scan_matches(*root, cfg.target_name@, cfg.ignore());
            &&& plan@.len() == ms.len()
            &&& forall|i: int|
                0 <= i < ms.len() ==> (#[trigger] plan@[i]).source_rel@ == join_segs(ms[i])
                    && plan@[i].destination@ == destination_seq(
                    dest_root@,
                    join_segs(ms[i]),
                    cfg.target_name@,
                )
        }),
{
    let matches = collect_matches(root, cfg);
    let ghost ms = scan_matches(*root, cfg.target_name@, cfg.ignore());
    proof {
        assert(matches@.map_values(|s: String| s@).len() == matches@.len());
        assert(ms.map_values(|m: Seq<Seq<char>>| join_segs(m)).len() == ms.len());
    }
    let mut plan: Vec<CopyStep> = Vec::new();
    let mut i: usize = 0;
    while i < matches.len()
        invariant
            matches@.map_values(|s: String| s@) == ms.map_values(|m: Seq<Seq<char>>| join_segs(m)),
            matches@.len() == ms.len(),
            0 <= i <= matches@.len(),
            plan@.len() == i,
            forall|k: int|
                0 <= k < i ==> (#[trigger] plan@[k]).source_rel@ == join_segs(ms[k])
                    && plan@[k].destination@ == destination_seq(
                    dest_root@,
                    join_segs(ms[k]),
                    cfg.target_name@,
                ),
        decreases matches@.len() - i,
    {
        proof {
            assert(matches@.map_values(|s: String| s@)[i as int] == matches@[i as int]@);
            assert(ms.map_values(|m: Seq<Seq<char>>| join_segs(m))[i as int] == join_segs(
                ms[i as int],
            ));
            assert(matches@[i as int]@ == join_segs(ms[i as int]));
        }
        let dest = destination_for(dest_root, matches[i].as_str(), cfg.target_name.as_str());
        let step = CopyStep { source_rel: matches[i].clone(), destination: dest };
        plan.push(step);
        i = i + 1;
    }
    plan
}

} // verus!
