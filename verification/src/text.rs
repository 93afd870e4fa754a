//! Substring search and replacement on character sequences.
//!
//! Replacement comes in two flavours used by the pipeline: `replace_all`
//! rewrites every non-overlapping occurrence left to right, as the pattern
//! replacer and the space normalizer need, and `replace_first` rewrites only
//! the first occurrence, which is how descriptors and tags are stripped
//! before reattachment.

use vstd::prelude::*;
use vstd::string::StrSliceExecFns;
use vstd::string::StringExecFns;

verus! {

/// `pat` occurs in `s` starting at position `p`.
pub open spec fn occurs_at(s: Seq<char>, pat: Seq<char>, p: int) -> bool {
    0 <= p && p + pat.len() <= s.len() && s.subrange(p, p + pat.len()) == pat
}

/// `pat` occurs somewhere in `s`.
pub open spec fn contains_seq(s: Seq<char>, pat: Seq<char>) -> bool {
    exists|p: int| occurs_at(s, pat, p)
}

/// Every non-overlapping occurrence of `pat` in `s`, scanned left to right,
/// replaced by `rep`.  An empty pattern matches at every character boundary,
/// so `rep` is inserted before each character and once at the very end.
pub open spec fn spec_replace_all(s: Seq<char>, pat: Seq<char>, rep: Seq<char>) -> Seq<char>
    decreases s.len(),
{
    if pat.len() == 0 {
        if s.len() == 0 {
            rep
        } else {
            rep + seq![s[0]] + spec_replace_all(s.skip(1), pat, rep)
        }
    } else if s.len() < pat.len() {
        s
    } else if s.subrange(0, pat.len() as int) == pat {
        rep + spec_replace_all(s.skip(pat.len() as int), pat, rep)
    } else {
        seq![s[0]] + spec_replace_all(s.skip(1), pat, rep)
    }
}

/// The first occurrence of `pat` in `s` replaced by `rep`; `s` unchanged when
/// `pat` does not occur.  An empty pattern matches at the front.
pub open spec fn spec_replace_first(s: Seq<char>, pat: Seq<char>, rep: Seq<char>) -> Seq<char>
    decreases s.len(),
{
    if pat.len() == 0 {
        rep + s
    } else if s.len() < pat.len() {
        s
    } else if s.subrange(0, pat.len() as int) == pat {
        rep + s.skip(pat.len() as int)
    } else {
        seq![s[0]] + spec_replace_first(s.skip(1), pat, rep)
    }
}

/// The first occurrence of `pat` removed from `s`.
pub open spec fn spec_remove_first(s: Seq<char>, pat: Seq<char>) -> Seq<char> {
    spec_replace_first(s, pat, Seq::<char>::empty())
}

pub proof fn lemma_skip_skip(s: Seq<char>, a: int, b: int)
    requires
        0 <= a,
        0 <= b,
        a + b <= s.len(),
    ensures
        s.skip(a).skip(b) == s.skip(a + b),
{
    assert(s.skip(a).skip(b) =~= s.skip(a + b));
}

pub proof fn lemma_skip_shifts_occurrence(s: Seq<char>, pat: Seq<char>, q: int)
    requires
        0 <= q,
        occurs_at(s, pat, q + 1),
    ensures
        occurs_at(s.skip(1), pat, q),
{
    assert(s.skip(1).subrange(q, q + pat.len()) =~= s.subrange(q + 1, q + 1 + pat.len()));
}

pub proof fn lemma_unskip_shifts_occurrence(s: Seq<char>, pat: Seq<char>, q: int)
    requires
        s.len() >= 1,
        occurs_at(s.skip(1), pat, q),
    ensures
        occurs_at(s, pat, q + 1),
{
    assert(s.subrange(q + 1, q + 1 + pat.len()) =~= s.skip(1).subrange(q, q + pat.len()));
}

/// A string without an occurrence of the pattern is left unchanged by
/// first-occurrence replacement.
pub proof fn lemma_replace_first_no_occurrence(s: Seq<char>, pat: Seq<char>, rep: Seq<char>)
    requires
        !contains_seq(s, pat),
    ensures
        spec_replace_first(s, pat, rep) == s,
    decreases s.len(),
{
    if pat.len() == 0 {
        assert(s.subrange(0, 0) =~= pat);
        assert(occurs_at(s, pat, 0));
    } else if s.len() < pat.len() {
    } else {
        if s.subrange(0, pat.len() as int) == pat {
            assert(occurs_at(s, pat, 0));
        }
        assert forall|q: int| !occurs_at(s.skip(1), pat, q) by {
            if occurs_at(s.skip(1), pat, q) {
                lemma_unskip_shifts_occurrence(s, pat, q);
            }
        }
        lemma_replace_first_no_occurrence(s.skip(1), pat, rep);
        assert(seq![s[0]] + s.skip(1) =~= s);
    }
}

/// First-occurrence replacement splices `rep` in at the position of the
/// first occurrence and keeps everything around it.
pub proof fn lemma_replace_first_at(s: Seq<char>, pat: Seq<char>, rep: Seq<char>, f: int)
    requires
        occurs_at(s, pat, f),
        forall|q: int| 0 <= q < f ==> !occurs_at(s, pat, q),
    ensures
        spec_replace_first(s, pat, rep) == s.subrange(0, f) + rep + s.subrange(
            f + pat.len(),
            s.len() as int,
        ),
    decreases s.len(),
{
    if pat.len() == 0 {
        assert(s.subrange(0, 0) =~= pat);
        assert(occurs_at(s, pat, 0));
        assert(f == 0);
        assert(s.subrange(0, 0) + rep + s.subrange(0, s.len() as int) =~= rep + s);
    } else if f == 0 {
        assert(s.subrange(0, pat.len() as int) == pat);
        assert(s.subrange(0, 0) + rep + s.subrange(pat.len() as int, s.len() as int) =~= rep
            + s.skip(pat.len() as int));
    } else {
        if s.subrange(0, pat.len() as int) == pat {
            assert(occurs_at(s, pat, 0));
        }
        lemma_skip_shifts_occurrence(s, pat, f - 1);
        assert forall|q: int| 0 <= q < f - 1 implies !occurs_at(s.skip(1), pat, q) by {
            if occurs_at(s.skip(1), pat, q) {
                lemma_unskip_shifts_occurrence(s, pat, q);
            }
        }
        lemma_replace_first_at(s.skip(1), pat, rep, f - 1);
        assert(seq![s[0]] + (s.skip(1).subrange(0, f - 1) + rep + s.skip(1).subrange(
            f - 1 + pat.len(),
            s.skip(1).len() as int,
        )) =~= s.subrange(0, f) + rep + s.subrange(f + pat.len(), s.len() as int));
    }
}

/// A string without an occurrence of the pattern is left unchanged by
/// replace-all as well.
pub proof fn lemma_replace_all_no_occurrence(s: Seq<char>, pat: Seq<char>, rep: Seq<char>)
    requires
        !contains_seq(s, pat),
    ensures
        spec_replace_all(s, pat, rep) == s,
    decreases s.len(),
{
    if pat.len() == 0 {
        assert(s.subrange(0, 0) =~= pat);
        assert(occurs_at(s, pat, 0));
    } else if s.len() < pat.len() {
    } else {
        if s.subrange(0, pat.len() as int) == pat {
            assert(occurs_at(s, pat, 0));
        }
        assert forall|q: int| !occurs_at(s.skip(1), pat, q) by {
            if occurs_at(s.skip(1), pat, q) {
                lemma_unskip_shifts_occurrence(s, pat, q);
            }
        }
        lemma_replace_all_no_occurrence(s.skip(1), pat, rep);
        assert(seq![s[0]] + s.skip(1) =~= s);
    }
}

/// After replacing every occurrence of the single character `c` by another
/// character, no `c` is left.
pub proof fn lemma_replace_char_leaves_none(s: Seq<char>, c: char, d: char)
    requires
        c != d,
    ensures
        !contains_seq(spec_replace_all(s, seq![c], seq![d]), seq![c]),
    decreases s.len(),
{
    let r = spec_replace_all(s, seq![c], seq![d]);
    if s.len() == 0 {
        assert(r =~= s);
    } else {
        lemma_replace_char_leaves_none(s.skip(1), c, d);
        let rest = spec_replace_all(s.skip(1), seq![c], seq![d]);
        assert(s.subrange(0, 1) =~= seq![s[0]]);
        if s[0] == c {
            assert(s.subrange(0, 1) == seq![c]);
            assert(r == seq![d] + rest);
        } else {
            if s.subrange(0, 1) == seq![c] {
                assert(s.subrange(0, 1)[0] == c);
            }
            assert(r == seq![s[0]] + rest);
        }
        assert forall|p: int| !occurs_at(r, seq![c], p) by {
            if occurs_at(r, seq![c], p) {
                assert(r.subrange(p, p + 1)[0] == c);
                assert(r[p] == c);
                if p == 0 {
                    assert(r[0] != c);
                } else {
                    assert(rest[p - 1] == c);
                    assert(rest.subrange(p - 1, p) =~= seq![c]);
                    assert(occurs_at(rest, seq![c], p - 1));
                }
            }
        }
    }
}

/// A pattern that occurs somewhere has a first occurrence.
pub proof fn lemma_exists_first_occurrence(s: Seq<char>, pat: Seq<char>)
    requires
        contains_seq(s, pat),
    ensures
        exists|f: int|
            occurs_at(s, pat, f) && (forall|q: int| 0 <= q < f ==> !occurs_at(s, pat, q)),
    decreases s.len(),
{
    if occurs_at(s, pat, 0) {
        assert(occurs_at(s, pat, 0) && (forall|q: int| 0 <= q < 0 ==> !occurs_at(s, pat, q)));
    } else {
        let p = choose|p: int| occurs_at(s, pat, p);
        assert(p >= 1);
        lemma_skip_shifts_occurrence(s, pat, p - 1);
        lemma_exists_first_occurrence(s.skip(1), pat);
        let f1 = choose|f1: int|
            occurs_at(s.skip(1), pat, f1) && (forall|q: int|
                0 <= q < f1 ==> !occurs_at(s.skip(1), pat, q));
        lemma_unskip_shifts_occurrence(s, pat, f1);
        assert forall|q: int| 0 <= q < f1 + 1 implies !occurs_at(s, pat, q) by {
            if 1 <= q && occurs_at(s, pat, q) {
                lemma_skip_shifts_occurrence(s, pat, q - 1);
            }
        }
    }
}

/// Whether `pat` occurs in `s` starting exactly at position `i`.
pub fn matches_at(s: &str, pat: &str, i: usize) -> (b: bool)
    requires
        i + pat@.len() <= s@.len(),
    ensures
        b == (s@.subrange(i as int, i + pat@.len()) == pat@),
{
    let n = s.unicode_len();
    let pn = pat.unicode_len();
    let mut j: usize = 0;
    while j < pn
        invariant
            n == s@.len(),
            pn == pat@.len(),
            i + pn <= n,
            j <= pn,
            forall|k: int| 0 <= k < j ==> s@[i + k] == pat@[k],
        decreases pn - j,
    {
        let cs = s.get_char(i + j);
        let cp = pat.get_char(j);
        if cs != cp {
            proof {
                assert(s@.subrange(i as int, i + pat@.len())[j as int] != pat@[j as int]);
            }
            return false;
        }
        j = j + 1;
    }
    proof {
        assert(s@.subrange(i as int, i + pat@.len()) =~= pat@);
    }
    true
}

/// The position of the first occurrence of `pat` in `s`, if any.
pub fn find_first(s: &str, pat: &str) -> (r: Option<usize>)
    ensures
        match r {
            Option::Some(f) => occurs_at(s@, pat@, f as int) && forall|q: int|
                0 <= q < f ==> !occurs_at(s@, pat@, q),
            Option::None => !contains_seq(s@, pat@),
        },
{
    let n = s.unicode_len();
    let pn = pat.unicode_len();
    if pn == 0 {
        proof {
            assert(s@.subrange(0, 0) =~= pat@);
        }
        return Some(0);
    }
    let mut i: usize = 0;
    while i < n
        invariant
            n == s@.len(),
            pn == pat@.len(),
            pn > 0,
            i <= n,
            forall|q: int| 0 <= q < i ==> !occurs_at(s@, pat@, q),
        decreases n - i,
    {
        if pn <= n - i {
            if matches_at(s, pat, i) {
                return Some(i);
            }
        }
        i = i + 1;
    }
    proof {
        assert forall|q: int| !occurs_at(s@, pat@, q) by {
            if 0 <= q && q + pat@.len() <= s@.len() {
                assert(q < i);
            }
        }
    }
    None
}

/// Whether `pat` occurs anywhere in `s`.
pub fn contains_pat(s: &str, pat: &str) -> (b: bool)
    ensures
        b == contains_seq(s@, pat@),
{
    match find_first(s, pat) {
        Option::Some(f) => {
            proof {
                assert(occurs_at(s@, pat@, f as int));
            }
            true
        },
        Option::None => false,
    }
}

/// Replace the first occurrence of `pat` in `s` by `rep`.
pub fn replace_first(s: &str, pat: &str, rep: &str) -> (r: String)
    ensures
        r@ == spec_replace_first(s@, pat@, rep@),
{
    let n = s.unicode_len();
    let pn = pat.unicode_len();
    match find_first(s, pat) {
        Option::None => {
            proof {
                lemma_replace_first_no_occurrence(s@, pat@, rep@);
            }
            s.to_owned()
        },
        Option::Some(f) => {
            proof {
                lemma_replace_first_at(s@, pat@, rep@, f as int);
            }
            let mut out = String::new();
            out.append(s.substring_char(0, f));
            out.append(rep);
            out.append(s.substring_char(f + pn, n));
            out
        },
    }
}

/// Replace every non-overlapping occurrence of `pat` in `s` by `rep`,
/// scanning left to right.
pub fn replace_all(s: &str, pat: &str, rep: &str) -> (r: String)
    ensures
        r@ == spec_replace_all(s@, pat@, rep@),
{
    let n = s.unicode_len();
    let pn = pat.unicode_len();
    let mut out = String::new();
    let mut i: usize = 0;
    proof {
        assert(s@.skip(0) =~= s@);
        assert(Seq::<char>::empty() + spec_replace_all(s@, pat@, rep@) =~= spec_replace_all(
            s@,
            pat@,
            rep@,
        ));
    }
    while i < n
        invariant
            n == s@.len(),
            pn == pat@.len(),
            i <= n,
            spec_replace_all(s@, pat@, rep@) == out@ + spec_replace_all(
                s@.skip(i as int),
                pat@,
                rep@,
            ),
        decreases n - i,
    {
        if pn > 0 && pn <= n - i && matches_at(s, pat, i) {
            proof {
                lemma_skip_skip(s@, i as int, pn as int);
                assert(s@.skip(i as int).subrange(0, pn as int) =~= s@.subrange(i as int, i + pn));
                assert(spec_replace_all(s@.skip(i as int), pat@, rep@) == rep@ + spec_replace_all(
                    s@.skip(i + pn),
                    pat@,
                    rep@,
                ));
                assert((out@ + rep@) + spec_replace_all(s@.skip(i + pn), pat@, rep@) =~= out@ + (
                rep@ + spec_replace_all(s@.skip(i + pn), pat@, rep@)));
            }
            out.append(rep);
            i = i + pn;
        } else {
            proof {
                lemma_skip_skip(s@, i as int, 1);
                let tail = s@.skip(i as int);
                assert(tail[0] == s@[i as int]);
                if pn == 0 {
                    assert(spec_replace_all(tail, pat@, rep@) == rep@ + seq![s@[i as int]]
                        + spec_replace_all(s@.skip(i + 1), pat@, rep@));
                    assert((out@ + rep@ + s@.subrange(i as int, i + 1)) + spec_replace_all(
                        s@.skip(i + 1),
                        pat@,
                        rep@,
                    ) =~= out@ + (rep@ + seq![s@[i as int]] + spec_replace_all(
                        s@.skip(i + 1),
                        pat@,
                        rep@,
                    )));
                } else if pn > n - i {
                    assert(tail.len() < pat@.len());
                    assert(spec_replace_all(tail, pat@, rep@) == tail);
                    assert(s@.skip(i + 1).len() < pat@.len() || s@.skip(i + 1).len() == 0);
                    assert(spec_replace_all(s@.skip(i + 1), pat@, rep@) == s@.skip(i + 1));
                    assert((out@ + s@.subrange(i as int, i + 1)) + s@.skip(i + 1) =~= out@ + tail);
                } else {
                    assert(tail.subrange(0, pn as int) =~= s@.subrange(i as int, i + pn));
                    assert(tail.subrange(0, pn as int) != pat@);
                    assert(spec_replace_all(tail, pat@, rep@) == seq![s@[i as int]]
                        + spec_replace_all(s@.skip(i + 1), pat@, rep@));
                    assert((out@ + s@.subrange(i as int, i + 1)) + spec_replace_all(
                        s@.skip(i + 1),
                        pat@,
                        rep@,
                    ) =~= out@ + (seq![s@[i as int]] + spec_replace_all(s@.skip(i + 1), pat@, rep@)));
                }
            }
            if pn == 0 {
                out.append(rep);
            }
            out.append(s.substring_char(i, i + 1));
            i = i + 1;
        }
    }
    proof {
        assert(s@.skip(n as int) =~= Seq::<char>::empty());
    }
    if pn == 0 {
        out.append(rep);
        proof {
            assert(spec_replace_all(Seq::<char>::empty(), pat@, rep@) == rep@);
        }
    } else {
        proof {
            assert(spec_replace_all(Seq::<char>::empty(), pat@, rep@) =~= Seq::<char>::empty());
            assert(out@ + Seq::<char>::empty() =~= out@);
        }
    }
    out
}

} // verus!
