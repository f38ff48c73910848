//! Character-level string operations: ASCII case folding, substring search
//! and non-overlapping substring replacement.

use vstd::prelude::*;

verus! {

/// ASCII case folding of a single character: upper-case ASCII letters map to
/// their lower-case counterpart, every other character is unchanged.
pub open spec fn fold_char(c: char) -> u32 {
    if 65 <= (c as u32) && (c as u32) <= 90 {
        ((c as u32) + 32) as u32
    } else {
        c as u32
    }
}

/// Two character sequences are equal up to ASCII case.
pub open spec fn eq_ignore_case_seq(a: Seq<char>, b: Seq<char>) -> bool {
    a.len() == b.len() && forall|i: int| 0 <= i < a.len() ==> fold_char(a[i]) == fold_char(b[i])
}

/// `pat` occurs contiguously somewhere inside `text`.
pub open spec fn has_substring(text: Seq<char>, pat: Seq<char>) -> bool {
    exists|i: int|
        0 <= i && i + pat.len() <= text.len() && #[trigger] text.subrange(
            i,
            i + pat.len(),
        ) == pat
}

/// Compares `a` and `b` for equality ignoring ASCII case.
pub fn eq_ignore_case(a: &str, b: &str) -> (r: bool)
    ensures
        r == eq_ignore_case_seq(a@, b@),
{
    let alen = a.unicode_len();
    let blen = b.unicode_len();
    if alen != blen {
        return false;
    }
    let mut i: usize = 0;
    while i < alen
        invariant
            alen == a@.len(),
            blen == b@.len(),
            alen == blen,
            0 <= i <= alen,
            forall|k: int| 0 <= k < i ==> fold_char(a@[k]) == fold_char(b@[k]),
        decreases alen - i,
    {
        let ca = a.get_char(i) as u32;
        let cb = b.get_char(i) as u32;
        let fa: u32 = if 65 <= ca && ca <= 90 {
            ca + 32
        } else {
            ca
        };
        let fb: u32 = if 65 <= cb && cb <= 90 {
            cb + 32
        } else {
            cb
        };
        if fa != fb {
            return false;
        }
        i = i + 1;
    }
    true
}

/// Does `pat` occur in `text` starting at position `at`?
fn match_at(text: &str, pat: &str, at: usize) -> (r: bool)
    requires
        at + pat@.len() <= text@.len(),
    ensures
        r == (text@.subrange(at as int, at + pat@.len()) == pat@),
{
    let tlen = text.unicode_len();
    let plen = pat.unicode_len();
    let mut j: usize = 0;
    while j < plen
        invariant
            tlen == text@.len(),
            plen == pat@.len(),
            at + plen <= text@.len(),
            0 <= j <= plen,
            forall|k: int| 0 <= k < j ==> text@[at + k] == pat@[k],
        decreases plen - j,
    {
        if text.get_char(at + j) != pat.get_char(j) {
            proof {
                let sub = text@.subrange(at as int, at + pat@.len());
                assert(sub[j as int] != pat@[j as int]);
            }
            return false;
        }
        j = j + 1;
    }
    proof {
        assert(text@.subrange(at as int, at + pat@.len()) =~= pat@);
    }
    true
}

/// Reports whether `pat` occurs contiguously inside `text`.
/// An empty pattern is contained in every string.
pub fn contains_substring(text: &str, pat: &str) -> (r: bool)
    ensures
        r == has_substring(text@, pat@),
{
    let tlen = text.unicode_len();
    let plen = pat.unicode_len();
    if plen == 0 {
        proof {
            assert(text@.subrange(0, 0 + pat@.len() as int) =~= pat@);
        }
        return true;
    }
    if plen > tlen {
        return false;
    }
    let mut i: usize = 0;
    while i <= tlen - plen
        invariant
            tlen == text@.len(),
            plen == pat@.len(),
            0 < plen <= tlen,
            0 <= i <= tlen - plen + 1,
            forall|k: int| 0 <= k < i ==> #[trigger] text@.subrange(k, k + pat@.len()) != pat@,
        decreases tlen - i,
    {
        if match_at(text, pat, i) {
            return true;
        }
        i = i + 1;
    }
    false
}

/// The result of replacing every occurrence of `pat` in `t` by `repl`,
/// scanning left to right without rescanning replacements: at the leftmost
/// occurrence, `repl` is emitted and the scan resumes after the matched part.
pub open spec fn replace_seq(t: Seq<char>, pat: Seq<char>, repl: Seq<char>) -> Seq<char>
    decreases t.len(),
        when pat.len() > 0
{
    if t.len() < pat.len() {
        t
    } else if t.subrange(0, pat.len() as int) == pat {
        repl + replace_seq(t.skip(pat.len() as int), pat, repl)
    } else {
        seq![t[0]] + replace_seq(t.skip(1), pat, repl)
    }
}

/// Replaces every non-overlapping occurrence of `pat` in `text` by `repl`,
/// scanning left to right.
pub fn replace_all(text: &str, pat: &str, repl: &str) -> (r: String)
    requires
        pat@.len() > 0,
    ensures
        r@ == replace_seq(text@, pat@, repl@),
{
    let tlen = text.unicode_len();
    let plen = pat.unicode_len();
    let mut out = String::new();
    if plen > tlen {
        let rest = text.substring_char(0, tlen);
        out.append(rest);
        proof {
            assert(out@ =~= replace_seq(text@, pat@, repl@));
        }
        return out;
    }
    let mut i: usize = 0;
    proof {
        assert(text@.skip(0) =~= text@);
        assert(out@ + replace_seq(text@, pat@, repl@) =~= replace_seq(text@, pat@, repl@));
    }
    while i <= tlen - plen
        invariant
            tlen == text@.len(),
            plen == pat@.len(),
            0 < plen <= tlen,
            0 <= i <= tlen,
            out@ + replace_seq(text@.skip(i as int), pat@, repl@) == replace_seq(
                text@,
                pat@,
                repl@,
            ),
        decreases tlen - i,
    {
        let ghost rem = text@.skip(i as int);
        let ghost prev = out@;
        if match_at(text, pat, i) {
            proof {
                assert(rem.subrange(0, pat@.len() as int) =~= text@.subrange(
                    i as int,
                    i + pat@.len(),
                ));
                assert(rem.skip(pat@.len() as int) =~= text@.skip(i + plen));
            }
            out.append(repl);
            i = i + plen;
            proof {
                assert(replace_seq(rem, pat@, repl@) == repl@ + replace_seq(
                    text@.skip(i as int),
                    pat@,
                    repl@,
                ));
                assert(prev + (repl@ + replace_seq(text@.skip(i as int), pat@, repl@)) =~= (prev
                    + repl@) + replace_seq(text@.skip(i as int), pat@, repl@));
            }
        } else {
            proof {
                assert(rem.subrange(0, pat@.len() as int) =~= text@.subrange(
                    i as int,
                    i + pat@.len(),
                ));
                assert(rem.skip(1) =~= text@.skip(i + 1));
                assert(seq![rem[0]] =~= text@.subrange(i as int, i + 1));
            }
            let c = text.substring_char(i, i + 1);
            out.append(c);
            i = i + 1;
            proof {
                assert(replace_seq(rem, pat@, repl@) == seq![rem[0]] + replace_seq(
                    text@.skip(i as int),
                    pat@,
                    repl@,
                ));
                assert(prev + (seq![rem[0]] + replace_seq(text@.skip(i as int), pat@, repl@)) =~= (
                prev + seq![rem[0]]) + replace_seq(text@.skip(i as int), pat@, repl@));
            }
        }
    }
    let rest = text.substring_char(i, tlen);
    out.append(rest);
    proof {
        assert(text@.skip(i as int) =~= rest@);
        assert(out@ == replace_seq(text@, pat@, repl@));
    }
    out
}

/// A string without any occurrence of the pattern is unchanged by replacement.
pub proof fn lemma_replace_absent(t: Seq<char>, pat: Seq<char>, repl: Seq<char>)
    requires
        pat.len() > 0,
        !has_substring(t, pat),
    ensures
        replace_seq(t, pat, repl) == t,
    decreases t.len(),
{
    if t.len() < pat.len() {
    } else {
        assert(t.subrange(0, 0 + pat.len() as int) =~= t.subrange(0, pat.len() as int));
        assert(t.subrange(0, pat.len() as int) != pat);
        assert forall|i: int| 0 <= i && i + pat.len() <= t.skip(1).len() implies #[trigger] t.skip(
            1,
        ).subrange(i, i + pat.len()) != pat by {
            assert(t.skip(1).subrange(i, i + pat.len()) =~= t.subrange(i + 1, i + 1 + pat.len()));
        }
        lemma_replace_absent(t.skip(1), pat, repl);
        assert(replace_seq(t, pat, repl) =~= t);
    }
}

} // verus!
