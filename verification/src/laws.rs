//! Properties of the scan and of the destination reconstruction, stated over
//! whole trees and proved once and for all.

use vstd::prelude::*;

use crate::paths::all_segment_names;
use crate::paths::destination_seq;
use crate::paths::has_component;
use crate::paths::join_segs;
use crate::paths::lemma_component_in_concat;
use crate::paths::lemma_component_of_join;
use crate::paths::lemma_join_injective;
use crate::paths::lemma_no_component_no_occurrence;
use crate::paths::lemma_parent_of_join;
use crate::paths::normalized;
use crate::paths::segment_name;
use crate::scan::FsNode;
use crate::text::lemma_replace_absent;
use crate::scan::matches_in;
use crate::scan::matches_of;
use crate::scan::scan_matches;
use crate::scan::spec_should_traverse;
use crate::scan::traversable_name;
use crate::text::eq_ignore_case_seq;

verus! {

/// Shape of a path collected under a directory whose own relative path (as
/// segments) is `rel`: it extends `rel` properly, every added segment passed
/// the traversal filter, the last one matches the target and no other added
/// segment does.
pub open spec fn collected_shape(
    m: Seq<Seq<char>>,
    rel: Seq<Seq<char>>,
    target: Seq<char>,
    ignore: Seq<Seq<char>>,
) -> bool {
    &&& m.len() > rel.len()
    &&& m.take(rel.len() as int) == rel
    &&& forall|j: int| rel.len() <= j < m.len() ==> traversable_name(#[trigger] m[j], ignore)
    &&& eq_ignore_case_seq(m[m.len() - 1], target)
    &&& forall|j: int| rel.len() <= j < m.len() - 1 ==> !eq_ignore_case_seq(#[trigger] m[j], target)
}

/// As `collected_shape`, for the matches of a single node whose own relative
/// path is `rel`: the node's own segment is covered by the conclusions too.
pub open spec fn collected_shape_of(
    m: Seq<Seq<char>>,
    rel: Seq<Seq<char>>,
    target: Seq<char>,
    ignore: Seq<Seq<char>>,
) -> bool {
    &&& m.len() >= rel.len()
    &&& m.take(rel.len() as int) == rel
    &&& forall|j: int| rel.len() - 1 <= j < m.len() ==> traversable_name(#[trigger] m[j], ignore)
    &&& eq_ignore_case_seq(m[m.len() - 1], target)
    &&& forall|j: int|
        rel.len() - 1 <= j < m.len() - 1 ==> !eq_ignore_case_seq(#[trigger] m[j], target)
}

proof fn lemma_matches_of_shape(
    node: FsNode,
    rel: Seq<Seq<char>>,
    target: Seq<char>,
    ignore: Seq<Seq<char>>,
)
    requires
        rel.len() > 0,
        rel[rel.len() - 1] == node.name@,
    ensures
        forall|k: int|
            0 <= k < matches_of(node, rel, target, ignore).len() ==> collected_shape_of(
                #[trigger] matches_of(node, rel, target, ignore)[k],
                rel,
                target,
                ignore,
            ),
    decreases node,
{
    let ms = matches_of(node, rel, target, ignore);
    if !spec_should_traverse(node.name@, node.is_dir, ignore) {
    } else if eq_ignore_case_seq(node.name@, target) {
        assert forall|k: int| 0 <= k < ms.len() implies collected_shape_of(
            #[trigger] ms[k],
            rel,
            target,
            ignore,
        ) by {
            assert(ms[k] == rel);
            assert(rel.take(rel.len() as int) =~= rel);
        }
    } else {
        lemma_matches_in_shape(node.children@, rel, target, ignore);
        assert forall|k: int| 0 <= k < ms.len() implies collected_shape_of(
            #[trigger] ms[k],
            rel,
            target,
            ignore,
        ) by {
            let m = ms[k];
            assert(m == matches_in(node.children@, rel, target, ignore)[k]);
            assert(collected_shape(matches_in(node.children@, rel, target, ignore)[k], rel, target, ignore));
            assert(m[rel.len() - 1] == m.take(rel.len() as int)[rel.len() - 1]);
            assert(m[rel.len() - 1] == node.name@);
        }
    }
}

proof fn lemma_matches_in_shape(
    nodes: Seq<FsNode>,
    rel: Seq<Seq<char>>,
    target: Seq<char>,
    ignore: Seq<Seq<char>>,
)
    ensures
        forall|k: int|
            0 <= k < matches_in(nodes, rel, target, ignore).len() ==> collected_shape(
                #[trigger] matches_in(nodes, rel, target, ignore)[k],
                rel,
                target,
                ignore,
            ),
    decreases nodes,
{
    if nodes.len() == 0 {
    } else {
        let rel2 = rel.push(nodes[0].name@);
        let a = matches_of(nodes[0], rel2, target, ignore);
        let b = matches_in(nodes.drop_first(), rel, target, ignore);
        lemma_matches_of_shape(nodes[0], rel2, target, ignore);
        lemma_matches_in_shape(nodes.drop_first(), rel, target, ignore);
        assert forall|k: int| 0 <= k < matches_in(nodes, rel, target, ignore).len() implies
            collected_shape(
            #[trigger] matches_in(nodes, rel, target, ignore)[k],
            rel,
            target,
            ignore,
        ) by {
            let m = matches_in(nodes, rel, target, ignore)[k];
            if k < a.len() {
                assert(m == a[k]);
                assert(collected_shape_of(m, rel2, target, ignore));
                assert(m.take(rel.len() as int) =~= rel);
            } else {
                assert(m == b[k - a.len()]);
                assert(collected_shape(m, rel, target, ignore));
            }
        }
    }
}

/// Every collected match path is made of segments that the traversal filter
/// accepts (so nothing beneath a pruned directory is ever collected); its
/// last segment matches the target name and no earlier segment does.
pub proof fn lemma_collected_segments(
    root: FsNode,
    target: Seq<char>,
    ignore: Seq<Seq<char>>,
    k: int,
)
    requires
        0 <= k < scan_matches(root, target, ignore).len(),
    ensures
        ({
            let m = scan_matches(root, target, ignore)[k];
            &&& m.len() > 0
            &&& forall|j: int| 0 <= j < m.len() ==> traversable_name(#[trigger] m[j], ignore)
            &&& eq_ignore_case_seq(m[m.len() - 1], target)
            &&& forall|j: int| 0 <= j < m.len() - 1 ==> !eq_ignore_case_seq(#[trigger] m[j], target)
        }),
{
    lemma_matches_in_shape(root.children@, Seq::empty(), target, ignore);
    let m = scan_matches(root, target, ignore)[k];
    assert(collected_shape(m, Seq::empty(), target, ignore));
}

/// The child indices `idx` denote a node of the tree: each one is in range.
pub open spec fn valid_index(node: FsNode, idx: Seq<int>) -> bool
    decreases idx.len(),
{
    idx.len() == 0 || (0 <= idx[0] < node.children@.len() && valid_index(
        node.children@[idx[0]],
        idx.drop_first(),
    ))
}

/// The node that the child indices `idx` denote.
pub open spec fn node_at(node: FsNode, idx: Seq<int>) -> FsNode
    decreases idx.len(),
{
    if idx.len() == 0 {
        node
    } else if 0 <= idx[0] < node.children@.len() {
        node_at(node.children@[idx[0]], idx.drop_first())
    } else {
        node
    }
}

/// The names along the path that the child indices `idx` denote: the denoted
/// node's relative path as segments.
pub open spec fn names_along(node: FsNode, idx: Seq<int>) -> Seq<Seq<char>>
    decreases idx.len(),
{
    if idx.len() == 0 {
        Seq::empty()
    } else if 0 <= idx[0] < node.children@.len() {
        seq![node.children@[idx[0]].name@] + names_along(node.children@[idx[0]], idx.drop_first())
    } else {
        Seq::empty()
    }
}

proof fn lemma_add_contains<A>(a: Seq<A>, b: Seq<A>, x: A)
    requires
        a.contains(x) || b.contains(x),
    ensures
        (a + b).contains(x),
{
    if a.contains(x) {
        let i = choose|i: int| 0 <= i < a.len() && a[i] == x;
        assert((a + b)[i] == x);
    } else {
        let i = choose|i: int| 0 <= i < b.len() && b[i] == x;
        assert((a + b)[a.len() + i] == x);
    }
}

/// A match found under the `i`th sibling is in the siblings' joint list.
proof fn lemma_matches_in_covers(
    nodes: Seq<FsNode>,
    rel: Seq<Seq<char>>,
    target: Seq<char>,
    ignore: Seq<Seq<char>>,
    i: int,
    m: Seq<Seq<char>>,
)
    requires
        0 <= i < nodes.len(),
        matches_of(nodes[i], rel.push(nodes[i].name@), target, ignore).contains(m),
    ensures
        matches_in(nodes, rel, target, ignore).contains(m),
    decreases nodes,
{
    let a = matches_of(nodes[0], rel.push(nodes[0].name@), target, ignore);
    let b = matches_in(nodes.drop_first(), rel, target, ignore);
    if i == 0 {
        lemma_add_contains(a, b, m);
    } else {
        assert(nodes.drop_first()[i - 1] == nodes[i]);
        lemma_matches_in_covers(nodes.drop_first(), rel, target, ignore, i - 1, m);
        lemma_add_contains(a, b, m);
    }
}

proof fn lemma_subtree_collects(
    node: FsNode,
    rel: Seq<Seq<char>>,
    target: Seq<char>,
    ignore: Seq<Seq<char>>,
    idx: Seq<int>,
)
    requires
        idx.len() > 0,
        valid_index(node, idx),
        forall|k: int|
            1 <= k <= idx.len() ==> spec_should_traverse(
                node_at(node, #[trigger] idx.take(k)).name@,
                node_at(node, idx.take(k)).is_dir,
                ignore,
            ),
        forall|k: int|
            1 <= k < idx.len() ==> !eq_ignore_case_seq(
                node_at(node, #[trigger] idx.take(k)).name@,
                target,
            ),
        eq_ignore_case_seq(node_at(node, idx).name@, target),
    ensures
        matches_in(node.children@, rel, target, ignore).contains(rel + names_along(node, idx)),
    decreases idx.len(),
{
    reveal_with_fuel(node_at, 3);
    reveal_with_fuel(names_along, 3);
    reveal_with_fuel(valid_index, 3);
    let i0 = idx[0];
    let c = node.children@[i0];
    assert(idx.take(1)[0] == i0);
    assert(idx.take(1).drop_first() =~= Seq::<int>::empty());
    assert(node_at(node, idx.take(1)) == c);
    let rel2 = rel.push(c.name@);
    if idx.len() == 1 {
        assert(idx.take(1) =~= idx);
        assert(names_along(c, idx.drop_first()) =~= Seq::<Seq<char>>::empty());
        assert(rel + names_along(node, idx) =~= rel2);
        assert(matches_of(c, rel2, target, ignore) == seq![rel2]);
        assert(matches_of(c, rel2, target, ignore)[0] == rel2);
        lemma_matches_in_covers(node.children@, rel, target, ignore, i0, rel2);
    } else {
        let idx2 = idx.drop_first();
        assert forall|k: int| 1 <= k <= idx2.len() implies node_at(c, #[trigger] idx2.take(k))
            == node_at(node, idx.take(k + 1)) by {
            assert(idx.take(k + 1)[0] == i0);
            assert(idx.take(k + 1).drop_first() =~= idx2.take(k));
        }
        assert(idx.take(idx.len() as int) =~= idx);
        assert(node_at(node, idx) == node_at(c, idx2));
        lemma_subtree_collects(c, rel2, target, ignore, idx2);
        assert(rel + names_along(node, idx) =~= rel2 + names_along(c, idx2));
        assert(!eq_ignore_case_seq(c.name@, target));
        assert(matches_of(c, rel2, target, ignore) == matches_in(c.children@, rel2, target, ignore));
        lemma_matches_in_covers(node.children@, rel, target, ignore, i0, rel2 + names_along(c, idx2));
    }
}

/// A directory that the traversal filter admits along its whole path, none of
/// whose ancestors below the scan root is itself a match, and whose own name
/// matches the target name, is collected, under its relative path.
pub proof fn lemma_match_is_collected(
    root: FsNode,
    target: Seq<char>,
    ignore: Seq<Seq<char>>,
    idx: Seq<int>,
)
    requires
        idx.len() > 0,
        valid_index(root, idx),
        forall|k: int|
            1 <= k <= idx.len() ==> spec_should_traverse(
                node_at(root, #[trigger] idx.take(k)).name@,
                node_at(root, idx.take(k)).is_dir,
                ignore,
            ),
        forall|k: int|
            1 <= k < idx.len() ==> !eq_ignore_case_seq(
                node_at(root, #[trigger] idx.take(k)).name@,
                target,
            ),
        eq_ignore_case_seq(node_at(root, idx).name@, target),
    ensures
        scan_matches(root, target, ignore).contains(names_along(root, idx)),
{
    lemma_subtree_collects(root, Seq::empty(), target, ignore, idx);
    assert(Seq::<Seq<char>>::empty() + names_along(root, idx) =~= names_along(root, idx));
}

/// Sibling nodes carry pairwise distinct names.
pub open spec fn distinct_names(nodes: Seq<FsNode>) -> bool {
    forall|i: int, j: int| 0 <= i < j < nodes.len() ==> nodes[i].name@ != nodes[j].name@
}

/// A well-formed forest: every node is well-formed.
pub open spec fn wf_forest(nodes: Seq<FsNode>) -> bool
    decreases nodes,
{
    nodes.len() == 0 || (wf_node(nodes[0]) && wf_forest(nodes.drop_first()))
}

/// A well-formed tree, as a real file system provides it: every name is a
/// proper segment, and siblings have pairwise distinct names.
pub open spec fn wf_node(node: FsNode) -> bool
    decreases node,
{
    &&& segment_name(node.name@)
    &&& distinct_names(node.children@)
    &&& wf_forest(node.children@)
}

proof fn lemma_wf_forest_index(nodes: Seq<FsNode>, i: int)
    requires
        wf_forest(nodes),
        0 <= i < nodes.len(),
    ensures
        wf_node(nodes[i]),
    decreases nodes,
{
    if i > 0 {
        assert(nodes.drop_first()[i - 1] == nodes[i]);
        lemma_wf_forest_index(nodes.drop_first(), i - 1);
    }
}

/// Every entry of the siblings' joint match list comes from one sibling.
proof fn lemma_matches_in_split(
    nodes: Seq<FsNode>,
    rel: Seq<Seq<char>>,
    target: Seq<char>,
    ignore: Seq<Seq<char>>,
    k: int,
)
    requires
        0 <= k < matches_in(nodes, rel, target, ignore).len(),
    ensures
        exists|j: int|
            0 <= j < nodes.len() && matches_of(
                #[trigger] nodes[j],
                rel.push(nodes[j].name@),
                target,
                ignore,
            ).contains(matches_in(nodes, rel, target, ignore)[k]),
    decreases nodes,
{
    let ms = matches_in(nodes, rel, target, ignore);
    let a = matches_of(nodes[0], rel.push(nodes[0].name@), target, ignore);
    let b = matches_in(nodes.drop_first(), rel, target, ignore);
    if k < a.len() {
        assert(ms[k] == a[k]);
        assert(a.contains(ms[k]));
        assert(nodes[0] == nodes[0]);
    } else {
        assert(ms[k] == b[k - a.len()]);
        lemma_matches_in_split(nodes.drop_first(), rel, target, ignore, k - a.len());
        let j = choose|j: int|
            0 <= j < nodes.drop_first().len() && matches_of(
                #[trigger] nodes.drop_first()[j],
                rel.push(nodes.drop_first()[j].name@),
                target,
                ignore,
            ).contains(b[k - a.len()]);
        assert(nodes[j + 1] == nodes.drop_first()[j]);
    }
}

proof fn lemma_add_no_dup<A>(a: Seq<A>, b: Seq<A>)
    requires
        a.no_duplicates(),
        b.no_duplicates(),
        forall|i: int, j: int| 0 <= i < a.len() && 0 <= j < b.len() ==> a[i] != b[j],
    ensures
        (a + b).no_duplicates(),
{
    assert forall|i: int, j: int| 0 <= i < j < (a + b).len() implies (a + b)[i] != (a + b)[j] by {
        if j < a.len() {
            assert((a + b)[i] == a[i] && (a + b)[j] == a[j]);
        } else if i >= a.len() {
            assert((a + b)[i] == b[i - a.len()] && (a + b)[j] == b[j - a.len()]);
        } else {
            assert((a + b)[i] == a[i] && (a + b)[j] == b[j - a.len()]);
        }
    }
}

proof fn lemma_matches_of_nodup(
    node: FsNode,
    rel: Seq<Seq<char>>,
    target: Seq<char>,
    ignore: Seq<Seq<char>>,
)
    requires
        wf_node(node),
        rel.len() > 0,
        rel[rel.len() - 1] == node.name@,
    ensures
        matches_of(node, rel, target, ignore).no_duplicates(),
    decreases node,
{
    if !spec_should_traverse(node.name@, node.is_dir, ignore) {
    } else if eq_ignore_case_seq(node.name@, target) {
        let ms = matches_of(node, rel, target, ignore);
        assert(ms.len() == 1);
        assert(ms.no_duplicates());
    } else {
        lemma_matches_in_nodup(node.children@, rel, target, ignore);
    }
}

proof fn lemma_matches_in_nodup(
    nodes: Seq<FsNode>,
    rel: Seq<Seq<char>>,
    target: Seq<char>,
    ignore: Seq<Seq<char>>,
)
    requires
        distinct_names(nodes),
        wf_forest(nodes),
    ensures
        matches_in(nodes, rel, target, ignore).no_duplicates(),
    decreases nodes,
{
    if nodes.len() == 0 {
        assert(matches_in(nodes, rel, target, ignore).no_duplicates());
    } else {
        let rel2 = rel.push(nodes[0].name@);
        let a = matches_of(nodes[0], rel2, target, ignore);
        let b = matches_in(nodes.drop_first(), rel, target, ignore);
        lemma_wf_forest_index(nodes, 0);
        lemma_matches_of_nodup(nodes[0], rel2, target, ignore);
        assert(distinct_names(nodes.drop_first())) by {
            assert forall|i: int, j: int|
                0 <= i < j < nodes.drop_first().len() implies nodes.drop_first()[i].name@
                != nodes.drop_first()[j].name@ by {
                assert(nodes.drop_first()[i] == nodes[i + 1]);
                assert(nodes.drop_first()[j] == nodes[j + 1]);
            }
        }
        lemma_matches_in_nodup(nodes.drop_first(), rel, target, ignore);
        lemma_matches_of_shape(nodes[0], rel2, target, ignore);
        lemma_matches_in_shape(nodes.drop_first(), rel, target, ignore);
        assert forall|i: int, j: int| 0 <= i < a.len() && 0 <= j < b.len() implies a[i] != b[j] by {
            assert(collected_shape_of(a[i], rel2, target, ignore));
            assert(a[i].take(rel2.len() as int) == rel2);
            assert(a[i][rel.len() as int] == rel2[rel.len() as int]);
            assert(a[i][rel.len() as int] == nodes[0].name@);
            lemma_matches_in_split(nodes.drop_first(), rel, target, ignore, j);
            let w = choose|w: int|
                0 <= w < nodes.drop_first().len() && matches_of(
                    #[trigger] nodes.drop_first()[w],
                    rel.push(nodes.drop_first()[w].name@),
                    target,
                    ignore,
                ).contains(b[j]);
            let relw = rel.push(nodes.drop_first()[w].name@);
            let bi = choose|bi: int|
                0 <= bi < matches_of(nodes.drop_first()[w], relw, target, ignore).len()
                    && matches_of(nodes.drop_first()[w], relw, target, ignore)[bi] == b[j];
            lemma_matches_of_shape(nodes.drop_first()[w], relw, target, ignore);
            assert(collected_shape_of(b[j], relw, target, ignore));
            assert(b[j][rel.len() as int] == relw[rel.len() as int]);
            assert(nodes.drop_first()[w] == nodes[w + 1]);
            assert(b[j][rel.len() as int] == nodes[w + 1].name@);
            assert(nodes[0].name@ != nodes[w + 1].name@);
        }
        lemma_add_no_dup(a, b);
    }
}

/// The match list never lists the same relative path twice: a matched
/// directory appears exactly once per traversal.
pub proof fn lemma_matches_no_duplicates(root: FsNode, target: Seq<char>, ignore: Seq<Seq<char>>)
    requires
        distinct_names(root.children@),
        wf_forest(root.children@),
    ensures
        scan_matches(root, target, ignore).no_duplicates(),
{
    lemma_matches_in_nodup(root.children@, Seq::empty(), target, ignore);
}

proof fn lemma_matches_of_names(
    node: FsNode,
    rel: Seq<Seq<char>>,
    target: Seq<char>,
    ignore: Seq<Seq<char>>,
)
    requires
        wf_node(node),
        all_segment_names(rel),
    ensures
        forall|k: int|
            0 <= k < matches_of(node, rel, target, ignore).len() ==> all_segment_names(
                #[trigger] matches_of(node, rel, target, ignore)[k],
            ),
    decreases node,
{
    let ms = matches_of(node, rel, target, ignore);
    if !spec_should_traverse(node.name@, node.is_dir, ignore) {
    } else if eq_ignore_case_seq(node.name@, target) {
        assert forall|k: int| 0 <= k < ms.len() implies all_segment_names(#[trigger] ms[k]) by {
            assert(ms[k] == rel);
        }
    } else {
        lemma_matches_in_names(node.children@, rel, target, ignore);
        assert forall|k: int| 0 <= k < ms.len() implies all_segment_names(#[trigger] ms[k]) by {
            assert(ms[k] == matches_in(node.children@, rel, target, ignore)[k]);
            assert(all_segment_names(matches_in(node.children@, rel, target, ignore)[k]));
        }
    }
}

proof fn lemma_matches_in_names(
    nodes: Seq<FsNode>,
    rel: Seq<Seq<char>>,
    target: Seq<char>,
    ignore: Seq<Seq<char>>,
)
    requires
        wf_forest(nodes),
        all_segment_names(rel),
    ensures
        forall|k: int|
            0 <= k < matches_in(nodes, rel, target, ignore).len() ==> all_segment_names(
                #[trigger] matches_in(nodes, rel, target, ignore)[k],
            ),
    decreases nodes,
{
    if nodes.len() == 0 {
    } else {
        let rel2 = rel.push(nodes[0].name@);
        let a = matches_of(nodes[0], rel2, target, ignore);
        let b = matches_in(nodes.drop_first(), rel, target, ignore);
        lemma_wf_forest_index(nodes, 0);
        assert(all_segment_names(rel2)) by {
            assert(forall|j: int| 0 <= j < rel.len() ==> rel2[j] == #[trigger] rel[j]);
            assert(rel2[rel.len() as int] == nodes[0].name@);
        }
        lemma_matches_of_names(nodes[0], rel2, target, ignore);
        lemma_matches_in_names(nodes.drop_first(), rel, target, ignore);
        assert forall|k: int| 0 <= k < matches_in(nodes, rel, target, ignore).len() implies
            all_segment_names(#[trigger] matches_in(nodes, rel, target, ignore)[k]) by {
            if k < a.len() {
                assert(matches_in(nodes, rel, target, ignore)[k] == a[k]);
            } else {
                assert(matches_in(nodes, rel, target, ignore)[k] == b[k - a.len()]);
            }
        }
    }
}

/// Every segment of every collected match path is a proper segment name.
pub proof fn lemma_collected_are_segment_names(
    root: FsNode,
    target: Seq<char>,
    ignore: Seq<Seq<char>>,
    k: int,
)
    requires
        wf_forest(root.children@),
        0 <= k < scan_matches(root, target, ignore).len(),
    ensures
        all_segment_names(scan_matches(root, target, ignore)[k]),
{
    lemma_matches_in_names(root.children@, Seq::empty(), target, ignore);
}

/// The slash-joined match list has no duplicates either: joining proper
/// segments with slashes keeps distinct paths distinct.
pub proof fn lemma_match_list_no_duplicates(
    root: FsNode,
    target: Seq<char>,
    ignore: Seq<Seq<char>>,
)
    requires
        distinct_names(root.children@),
        wf_forest(root.children@),
    ensures
        scan_matches(root, target, ignore).map_values(
            |m: Seq<Seq<char>>| join_segs(m),
        ).no_duplicates(),
{
    let ms = scan_matches(root, target, ignore);
    let joined = ms.map_values(|m: Seq<Seq<char>>| join_segs(m));
    lemma_matches_no_duplicates(root, target, ignore);
    assert forall|i: int, j: int| 0 <= i < j < joined.len() implies joined[i] != joined[j] by {
        lemma_collected_segments(root, target, ignore, i);
        lemma_collected_segments(root, target, ignore, j);
        lemma_collected_are_segment_names(root, target, ignore, i);
        lemma_collected_are_segment_names(root, target, ignore, j);
        assert(joined[i] == join_segs(ms[i]));
        assert(joined[j] == join_segs(ms[j]));
        assert(ms[i] != ms[j]);
        if join_segs(ms[i]) == join_segs(ms[j]) {
            lemma_join_injective(ms[i], ms[j]);
        }
    }
}

/// The reconstructed destination path never contains the target name as a
/// whole path component, provided the destination root itself carries no such
/// component. A matched directory's ancestors never match the target (they
/// would have been matches themselves), so nothing of the target name is left
/// for the reconstruction to keep.
pub proof fn lemma_destination_avoids_target(
    root: FsNode,
    target: Seq<char>,
    ignore: Seq<Seq<char>>,
    dest_root: Seq<char>,
    k: int,
)
    requires
        wf_forest(root.children@),
        segment_name(target),
        0 <= k < scan_matches(root, target, ignore).len(),
        !has_component(normalized(dest_root), target),
    ensures
        !has_component(
            destination_seq(dest_root, join_segs(scan_matches(root, target, ignore)[k]), target),
            target,
        ),
{
    let m = scan_matches(root, target, ignore)[k];
    lemma_collected_segments(root, target, ignore, k);
    lemma_collected_are_segment_names(root, target, ignore, k);
    lemma_parent_of_join(m);
    let d = normalized(dest_root);
    let par = m.drop_last();
    assert(all_segment_names(par)) by {
        assert(forall|j: int| 0 <= j < par.len() ==> par[j] == #[trigger] m[j]);
    }
    let joined = d + join_segs(par);
    assert(d.len() > 0 && d[d.len() - 1] == '/');
    assert(!has_component(joined, target)) by {
        if has_component(joined, target) {
            lemma_component_in_concat(d, join_segs(par), target);
            if has_component(join_segs(par), target) {
                lemma_component_of_join(par, target);
                let w = choose|w: int| 0 <= w < par.len() && par[w] == target;
                assert(m[w] == target);
                assert(eq_ignore_case_seq(m[w], target));
                assert(false);
            }
        }
    }
    lemma_no_component_no_occurrence(joined, target);
    lemma_replace_absent(joined, seq!['/'] + target + seq!['/'], seq!['/']);
    assert(destination_seq(dest_root, join_segs(m), target) == joined);
}

} // verus!
