//! Path strings: trailing-slash normalization, parent computation, joining
//! relative segments, and the destination-path reconstruction for a match.

use vstd::prelude::*;

use crate::text::has_substring;
use crate::text::replace_all;
use crate::text::replace_seq;

verus! {

/// A path with a trailing slash appended unless one is already there.
pub open spec fn normalized(p: Seq<char>) -> Seq<char> {
    if p.len() > 0 && p.last() == '/' {
        p
    } else {
        p.push('/')
    }
}

/// Ensures the path ends with a trailing slash: a path that already ends with
/// one is returned unchanged, otherwise a slash is appended.
pub fn normalize_path(path: &str) -> (r: String)
    ensures
        r@ == normalized(path@),
{
    proof {
        reveal_strlit("/");
    }
    let n = path.unicode_len();
    if n > 0 && path.get_char(n - 1) == '/' {
        String::from_str(path)
    } else {
        let r = String::from_str(path).concat("/");
        proof {
            assert(r@ =~= normalized(path@));
        }
        r
    }
}

/// Everything before the last slash; a path without a slash has an empty
/// parent.
pub open spec fn parent_seq(p: Seq<char>) -> Seq<char>
    decreases p.len(),
{
    if p.len() == 0 {
        p
    } else if p.last() == '/' {
        p.drop_last()
    } else {
        parent_seq(p.drop_last())
    }
}

/// Drops the final segment of a slash-separated path: everything before the
/// last slash, or the empty string if there is no slash.
pub fn parent_of(path: &str) -> (r: String)
    ensures
        r@ == parent_seq(path@),
{
    let n = path.unicode_len();
    let mut i: usize = n;
    proof {
        assert(path@.take(n as int) =~= path@);
    }
    while i > 0
        invariant
            n == path@.len(),
            0 <= i <= n,
            parent_seq(path@) == parent_seq(path@.take(i as int)),
        decreases i,
    {
        if path.get_char(i - 1) == '/' {
            let r = String::from_str(path.substring_char(0, i - 1));
            proof {
                let pre = path@.take(i as int);
                assert(pre.last() == '/');
                assert(pre.drop_last() =~= path@.subrange(0, i - 1));
            }
            return r;
        }
        proof {
            let pre = path@.take(i as int);
            assert(pre.last() != '/');
            assert(pre.drop_last() =~= path@.take(i - 1));
        }
        i = i - 1;
    }
    proof {
        assert(path@.take(0) =~= Seq::<char>::empty());
    }
    String::new()
}

/// The segments of a relative path joined with slashes.
pub open spec fn join_segs(segs: Seq<Seq<char>>) -> Seq<char>
    decreases segs.len(),
{
    if segs.len() == 0 {
        Seq::empty()
    } else if segs.len() == 1 {
        segs[0]
    } else {
        join_segs(segs.drop_last()) + seq!['/'] + segs.last()
    }
}

/// Extending a segment list extends the joined path by a slash and the new
/// segment (or is just the segment, for a first segment).
pub proof fn lemma_join_segs_push(segs: Seq<Seq<char>>, name: Seq<char>)
    ensures
        join_segs(segs.push(name)) == if segs.len() == 0 {
            name
        } else {
            join_segs(segs) + seq!['/'] + name
        },
{
    let s2 = segs.push(name);
    if segs.len() == 0 {
        assert(s2.len() == 1);
        assert(s2[0] == name);
    } else {
        assert(s2.drop_last() =~= segs);
        assert(s2.last() == name);
    }
}

/// Joins a relative path onto a base directory, inserting a slash unless the
/// base already ends with one.
pub fn join_path(base: &str, rel: &str) -> (r: String)
    ensures
        r@ == normalized(base@) + rel@,
{
    let b = normalize_path(base);
    let r = b.concat(rel);
    r
}

/// A name that can stand as one path segment: nonempty and without a slash.
pub open spec fn segment_name(name: Seq<char>) -> bool {
    name.len() > 0 && forall|i: int| 0 <= i < name.len() ==> name[i] != '/'
}

/// Every entry of the list is a proper path segment.
pub open spec fn all_segment_names(segs: Seq<Seq<char>>) -> bool {
    forall|j: int| 0 <= j < segs.len() ==> segment_name(#[trigger] segs[j])
}

/// The parent of a path that ends in a slash followed by a slash-free tail is
/// everything before that slash.
proof fn lemma_parent_after_slash(p: Seq<char>, x: Seq<char>)
    requires
        forall|i: int| 0 <= i < x.len() ==> x[i] != '/',
    ensures
        parent_seq(p + seq!['/'] + x) == p,
    decreases x.len(),
{
    let s = p + seq!['/'] + x;
    if x.len() == 0 {
        assert(s.last() == '/');
        assert(s.drop_last() =~= p);
    } else {
        assert(s.last() == x.last());
        assert(s.drop_last() =~= p + seq!['/'] + x.drop_last());
        lemma_parent_after_slash(p, x.drop_last());
    }
}

/// A slash-free path has an empty parent.
proof fn lemma_parent_slash_free(x: Seq<char>)
    requires
        forall|i: int| 0 <= i < x.len() ==> x[i] != '/',
    ensures
        parent_seq(x) == Seq::<char>::empty(),
    decreases x.len(),
{
    if x.len() == 0 {
        assert(x =~= Seq::<char>::empty());
    } else {
        assert(x.last() != '/');
        lemma_parent_slash_free(x.drop_last());
    }
}

/// Taking the parent of a joined segment list drops its last segment.
pub proof fn lemma_parent_of_join(segs: Seq<Seq<char>>)
    requires
        segs.len() > 0,
        all_segment_names(segs),
    ensures
        parent_seq(join_segs(segs)) == join_segs(segs.drop_last()),
{
    if segs.len() == 1 {
        assert(segment_name(segs[0]));
        lemma_parent_slash_free(segs[0]);
        assert(join_segs(segs.drop_last()) =~= parent_seq(join_segs(segs)));
    } else {
        assert(segment_name(segs.last()));
        lemma_parent_after_slash(join_segs(segs.drop_last()), segs.last());
    }
}

/// Joining with slashes is injective on segment lists: two distinct nonempty
/// lists of proper segments join to distinct paths.
pub proof fn lemma_join_injective(a: Seq<Seq<char>>, b: Seq<Seq<char>>)
    requires
        a.len() > 0,
        b.len() > 0,
        all_segment_names(a),
        all_segment_names(b),
        join_segs(a) == join_segs(b),
    ensures
        a == b,
    decreases a.len(),
{
    let ja = join_segs(a);
    let jb = join_segs(b);
    if a.len() == 1 && b.len() == 1 {
        assert(a =~= b);
    } else if a.len() == 1 {
        assert(segment_name(a[0]));
        let pb = join_segs(b.drop_last());
        assert(jb[pb.len() as int] == '/');
        assert(ja[pb.len() as int] != '/');
        assert(false);
    } else if b.len() == 1 {
        assert(segment_name(b[0]));
        let pa = join_segs(a.drop_last());
        assert(ja[pa.len() as int] == '/');
        assert(jb[pa.len() as int] != '/');
        assert(false);
    } else {
        lemma_parent_of_join(a);
        lemma_parent_of_join(b);
        let pa = join_segs(a.drop_last());
        let pb = join_segs(b.drop_last());
        assert(pa == pb);
        assert(a.last() =~= ja.skip(pa.len() as int + 1));
        assert(b.last() =~= jb.skip(pb.len() as int + 1));
        assert(all_segment_names(a.drop_last())) by {
            assert(forall|j: int|
                0 <= j < a.drop_last().len() ==> a.drop_last()[j] == #[trigger] a[j]);
        }
        assert(all_segment_names(b.drop_last())) by {
            assert(forall|j: int|
                0 <= j < b.drop_last().len() ==> b.drop_last()[j] == #[trigger] b[j]);
        }
        lemma_join_injective(a.drop_last(), b.drop_last());
        assert(a.len() == b.len());
        assert forall|j: int| 0 <= j < a.len() implies a[j] == b[j] by {
            if j < a.len() - 1 {
                assert(a[j] == a.drop_last()[j]);
                assert(b[j] == b.drop_last()[j]);
            } else {
                assert(a[j] == a.last());
                assert(b[j] == b.last());
            }
        }
        assert(a =~= b);
    }
}

/// `name` occurs in `p` as a whole path component: the occurrence is bounded
/// by slashes or by the ends of the string.
pub open spec fn has_component(p: Seq<char>, name: Seq<char>) -> bool {
    exists|i: int|
        0 <= i && i + name.len() <= p.len() && #[trigger] p.subrange(i, i + name.len()) == name
            && (i == 0 || p[i - 1] == '/') && (i + name.len() == p.len() || p[i + name.len()]
            == '/')
}

/// A component of a concatenation whose first part ends in a slash lies
/// wholly in one of the parts.
pub proof fn lemma_component_in_concat(d: Seq<char>, r: Seq<char>, t: Seq<char>)
    requires
        d.len() > 0,
        d[d.len() - 1] == '/',
        segment_name(t),
        has_component(d + r, t),
    ensures
        has_component(d, t) || has_component(r, t),
{
    let p = d + r;
    let i = choose|i: int|
        0 <= i && i + t.len() <= p.len() && #[trigger] p.subrange(i, i + t.len()) == t && (i == 0
            || p[i - 1] == '/') && (i + t.len() == p.len() || p[i + t.len()] == '/');
    if i + t.len() <= d.len() {
        assert(d.subrange(i, i + t.len()) =~= p.subrange(i, i + t.len()));
        assert(has_component(d, t));
    } else if i >= d.len() {
        let i2 = i - d.len();
        assert(r.subrange(i2, i2 + t.len()) =~= p.subrange(i, i + t.len()));
        assert(i2 == 0 || r[i2 - 1] == '/');
        assert(i2 + t.len() == r.len() || r[i2 + t.len()] == '/');
        assert(has_component(r, t));
    } else {
        let off = d.len() - 1 - i;
        assert(t[off] == p.subrange(i, i + t.len())[off]);
        assert(p[d.len() - 1] == d[d.len() - 1]);
        assert(t[off] == '/');
        assert(false);
    }
}

/// A component of a joined segment list is one of its segments.
pub proof fn lemma_component_of_join(segs: Seq<Seq<char>>, t: Seq<char>)
    requires
        all_segment_names(segs),
        segment_name(t),
        has_component(join_segs(segs), t),
    ensures
        exists|w: int| 0 <= w < segs.len() && segs[w] == t,
    decreases segs.len(),
{
    let p = join_segs(segs);
    let i = choose|i: int|
        0 <= i && i + t.len() <= p.len() && #[trigger] p.subrange(i, i + t.len()) == t && (i == 0
            || p[i - 1] == '/') && (i + t.len() == p.len() || p[i + t.len()] == '/');
    if segs.len() == 0 {
        assert(false);
    } else if segs.len() == 1 {
        assert(segment_name(segs[0]));
        assert(p == segs[0]);
        assert(i == 0) by {
            if i > 0 {
                assert(p[i - 1] != '/');
            }
        }
        assert(i + t.len() == p.len()) by {
            if i + t.len() < p.len() {
                assert(p[i + t.len()] != '/');
            }
        }
        assert(t =~= segs[0]);
    } else {
        let pre = join_segs(segs.drop_last());
        let x = segs.last();
        assert(segment_name(x));
        assert(p == pre + seq!['/'] + x);
        if i + t.len() <= pre.len() {
            assert(pre.subrange(i, i + t.len()) =~= p.subrange(i, i + t.len()));
            assert(i + t.len() == pre.len() || pre[i + t.len()] == '/') by {
                if i + t.len() < pre.len() {
                    assert(p[i + t.len()] == pre[i + t.len()]);
                }
            }
            assert(has_component(pre, t));
            assert(all_segment_names(segs.drop_last())) by {
                assert(forall|j: int|
                    0 <= j < segs.drop_last().len() ==> segs.drop_last()[j] == #[trigger] segs[j]);
            }
            lemma_component_of_join(segs.drop_last(), t);
            let w = choose|w: int| 0 <= w < segs.drop_last().len() && segs.drop_last()[w] == t;
            assert(segs[w] == t);
        } else if i > pre.len() {
            assert(i == pre.len() + 1) by {
                if i > pre.len() + 1 {
                    assert(p[i - 1] == x[i - 1 - (pre.len() + 1)]);
                    assert(p[i - 1] != '/');
                }
            }
            assert(i + t.len() == p.len()) by {
                if i + t.len() < p.len() {
                    assert(p[i + t.len()] == x[i + t.len() - (pre.len() + 1)]);
                    assert(p[i + t.len()] != '/');
                }
            }
            assert(t =~= x);
            assert(segs[segs.len() - 1] == t);
        } else {
            let off = pre.len() - i;
            assert(t[off] == p.subrange(i, i + t.len())[off]);
            assert(p[pre.len() as int] == '/');
            assert(t[off] == '/');
            assert(false);
        }
    }
}

/// A path without `t` as a component has no occurrence of `/t/` either.
pub proof fn lemma_no_component_no_occurrence(p: Seq<char>, t: Seq<char>)
    requires
        !has_component(p, t),
    ensures
        !has_substring(p, seq!['/'] + t + seq!['/']),
{
    let pat = seq!['/'] + t + seq!['/'];
    if has_substring(p, pat) {
        let i = choose|i: int|
            0 <= i && i + pat.len() <= p.len() && #[trigger] p.subrange(i, i + pat.len()) == pat;
        assert(p[i] == p.subrange(i, i + pat.len())[0]);
        assert(p[i] == '/');
        assert(p[i + 1 + t.len()] == p.subrange(i, i + pat.len())[1 + t.len() as int]);
        assert(p[i + 1 + t.len()] == '/');
        assert(p.subrange(i + 1, i + 1 + t.len()) =~= t) by {
            assert(forall|q: int|
                0 <= q < t.len() ==> p.subrange(i, i + pat.len())[q + 1] == #[trigger] t[q]);
        }
        assert(has_component(p, t));
        assert(false);
    }
}

/// The destination directory for a match: the destination root (with a
/// trailing slash), joined with the parent of the match's relative path, with
/// every remaining embedded `/<target>/` collapsed to `/`. The collapse is a
/// plain substring replacement, not a segment-aware rewrite.
pub open spec fn destination_seq(dest_root: Seq<char>, relative: Seq<char>, target: Seq<char>) -> Seq<char> {
    replace_seq(normalized(dest_root) + parent_seq(relative), seq!['/'] + target + seq!['/'], seq!['/'])
}

/// Computes the destination directory for a match from the destination root,
/// the match's path relative to the scan root, and the target name.
pub fn destination_for(dest_root: &str, relative: &str, target_name: &str) -> (r: String)
    ensures
        r@ == destination_seq(dest_root@, relative@, target_name@),
{
    proof {
        reveal_strlit("/");
    }
    let d = normalize_path(dest_root);
    let par = parent_of(relative);
    let joined = d.concat(par.as_str());
    let pat = String::from_str("/").concat(target_name).concat("/");
    proof {
        assert(pat@ =~= seq!['/'] + target_name@ + seq!['/']);
        assert("/"@ =~= seq!['/']);
    }
    replace_all(joined.as_str(), pat.as_str(), "/")
}

} // verus!
