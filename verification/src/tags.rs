//! Bracket-tag scanning and relocation.
//!
//! A tag is a substring delimited by a matched `[` ... `]` pair.  The scan
//! walks the name left to right with a bracket-depth counter seeded at zero:
//! `[` increments the counter and records the current index as the candidate
//! tag start, so only the most recent open bracket is tracked; `]` is valid
//! only while the counter is odd, captures the substring from the recorded
//! start through the `]` inclusive, and decrements the counter.  A `]` seen
//! while the counter is even is a malformed name and aborts the whole run.
//! Each captured tag is then removed at its first textual occurrence and
//! appended to the end of the name, in discovery order.

use crate::text::{
    contains_seq, lemma_exists_first_occurrence, lemma_replace_first_at, occurs_at, replace_first,
    spec_remove_first,
};
use vstd::prelude::*;
use vstd::seq_lib::lemma_multiset_commutative;
use vstd::string::StrSliceExecFns;
use vstd::string::StringExecFns;

verus! {

/// The scan of `s` from position `i` onward, with bracket counter `count`,
/// candidate tag start `start`, and the tags captured so far `acc`.
/// `None` marks a malformed name: a `]` seen while the counter is even.
pub open spec fn spec_scan_from(
    s: Seq<char>,
    i: int,
    count: int,
    start: int,
    acc: Seq<Seq<char>>,
) -> Option<Seq<Seq<char>>>
    decreases s.len() - i,
{
    if i < 0 || i >= s.len() {
        Option::Some(acc)
    } else if s[i] == '[' {
        spec_scan_from(s, i + 1, count + 1, i, acc)
    } else if s[i] == ']' {
        if count % 2 == 1 {
            spec_scan_from(s, i + 1, count - 1, start, acc.push(s.subrange(start, i + 1)))
        } else {
            Option::None
        }
    } else {
        spec_scan_from(s, i + 1, count, start, acc)
    }
}

/// The tags captured by a full scan of `s`, or `None` when `s` is malformed.
pub open spec fn spec_scan_tags(s: Seq<char>) -> Option<Seq<Seq<char>>> {
    spec_scan_from(s, 0, 0, 0, Seq::<Seq<char>>::empty())
}

/// Each tag in turn removed at its first occurrence and appended to the end
/// of the working name.
pub open spec fn spec_relocate(w: Seq<char>, tags: Seq<Seq<char>>) -> Seq<char>
    decreases tags.len(),
{
    if tags.len() == 0 {
        w
    } else {
        spec_relocate(spec_remove_first(w, tags[0]) + tags[0], tags.skip(1))
    }
}

/// A malformed name: the scan hit a `]` while the bracket counter was even.
#[derive(Debug)]
pub enum PipelineError {
    UnmatchedBracket,
}

/// Scan `w` for bracket tags; report the malformed-name error on an
/// out-of-parity `]`.
pub fn scan_tags(w: &str) -> (r: Result<Vec<String>, PipelineError>)
    ensures
        match r {
            Result::Ok(tags) => spec_scan_tags(w@) == Option::Some(tags.deep_view()),
            Result::Err(_) => spec_scan_tags(w@) == Option::<Seq<Seq<char>>>::None,
        },
{
    let n = w.unicode_len();
    let mut tags: Vec<String> = Vec::new();
    let mut count: usize = 0;
    let mut start: usize = 0;
    let mut i: usize = 0;
    proof {
        assert(tags.deep_view() =~= Seq::<Seq<char>>::empty());
    }
    while i < n
        invariant
            n == w@.len(),
            i <= n,
            count <= i,
            start <= i,
            spec_scan_from(w@, i as int, count as int, start as int, tags.deep_view())
                == spec_scan_tags(w@),
        decreases n - i,
    {
        let c = w.get_char(i);
        if c == '[' {
            count = count + 1;
            start = i;
        } else if c == ']' {
            if count % 2 == 1 {
                count = count - 1;
                let ghost old_tags = tags.deep_view();
                tags.push(w.substring_char(start, i + 1).to_owned());
                proof {
                    assert(tags.deep_view() =~= old_tags.push(
                        w@.subrange(start as int, i + 1),
                    ));
                }
            } else {
                return Err(PipelineError::UnmatchedBracket);
            }
        }
        i = i + 1;
    }
    Ok(tags)
}

/// Relocating one tag that occurs in the name permutes its characters:
/// removing the first occurrence and appending the tag at the end neither
/// adds nor loses a character.
pub proof fn lemma_relocate_step_permutes(w: Seq<char>, t: Seq<char>)
    requires
        contains_seq(w, t),
    ensures
        (spec_remove_first(w, t) + t).to_multiset() == w.to_multiset(),
{
    broadcast use vstd::multiset::group_multiset_axioms;

    lemma_exists_first_occurrence(w, t);
    let f = choose|f: int|
        occurs_at(w, t, f) && (forall|q: int| 0 <= q < f ==> !occurs_at(w, t, q));
    lemma_replace_first_at(w, t, Seq::<char>::empty(), f);
    let a = w.subrange(0, f);
    let b = w.subrange(f + t.len(), w.len() as int);
    assert(spec_remove_first(w, t) =~= a + b);
    assert(w =~= (a + t) + b);
    lemma_multiset_commutative(a + b, t);
    lemma_multiset_commutative(a, b);
    lemma_multiset_commutative(a + t, b);
    lemma_multiset_commutative(a, t);
    assert((spec_remove_first(w, t) + t).to_multiset() =~= w.to_multiset());
}

/// Tags standing in `w` at known positions, in order and without overlap.
pub open spec fn tags_positioned(w: Seq<char>, tags: Seq<Seq<char>>, pos: Seq<int>) -> bool {
    &&& pos.len() == tags.len()
    &&& forall|j: int| 0 <= j < tags.len() ==> occurs_at(w, tags[j], pos[j])
    &&& forall|j: int| 0 <= j < tags.len() - 1 ==> pos[j] + tags[j].len() <= pos[j + 1]
}

pub proof fn lemma_positions_monotone(
    w: Seq<char>,
    tags: Seq<Seq<char>>,
    pos: Seq<int>,
    a: int,
    b: int,
)
    requires
        tags_positioned(w, tags, pos),
        0 <= a <= b < tags.len(),
    ensures
        pos[a] <= pos[b],
    decreases b - a,
{
    if a < b {
        lemma_positions_monotone(w, tags, pos, a + 1, b);
        assert(pos[a] + tags[a].len() <= pos[a + 1]);
    }
}

/// Removing the first occurrence of `t` keeps an occurrence of `u` that
/// starts at or after the end of some occurrence of `t`, shifted left by
/// the length of `t`.
pub proof fn lemma_removal_keeps_later_occurrence(
    w: Seq<char>,
    t: Seq<char>,
    u: Seq<char>,
    p: int,
    q: int,
)
    requires
        occurs_at(w, t, p),
        occurs_at(w, u, q),
        p + t.len() <= q,
    ensures
        occurs_at(spec_remove_first(w, t), u, q - t.len()),
{
    assert(contains_seq(w, t));
    lemma_exists_first_occurrence(w, t);
    let f = choose|f: int|
        occurs_at(w, t, f) && (forall|qq: int| 0 <= qq < f ==> !occurs_at(w, t, qq));
    assert(f <= p);
    lemma_replace_first_at(w, t, Seq::<char>::empty(), f);
    let r = spec_remove_first(w, t);
    assert(r =~= w.subrange(0, f) + w.subrange(f + t.len(), w.len() as int));
    assert forall|k: int| 0 <= k < u.len() implies r[q - t.len() + k] == u[k] by {
        assert(r[q - t.len() + k] == w[q + k]);
        assert(w.subrange(q, q + u.len())[k] == u[k]);
    }
    assert(r.subrange(q - t.len(), q - t.len() + u.len()) =~= u);
}

/// An occurrence within `a` is an occurrence within `a + b`.
pub proof fn lemma_occurrence_in_prefix(a: Seq<char>, b: Seq<char>, u: Seq<char>, q: int)
    requires
        occurs_at(a, u, q),
    ensures
        occurs_at(a + b, u, q),
{
    assert((a + b).subrange(q, q + u.len()) =~= a.subrange(q, q + u.len()));
}

/// Relocating tags that stand in the name in order, without overlap,
/// permutes the characters of the name.
pub proof fn lemma_relocate_permutes(w: Seq<char>, tags: Seq<Seq<char>>, pos: Seq<int>)
    requires
        tags_positioned(w, tags, pos),
    ensures
        spec_relocate(w, tags).to_multiset() == w.to_multiset(),
    decreases tags.len(),
{
    if tags.len() > 0 {
        let t = tags[0];
        assert(occurs_at(w, t, pos[0]));
        lemma_relocate_step_permutes(w, t);
        let w2 = spec_remove_first(w, t) + t;
        let rest = tags.skip(1);
        let pos2 = Seq::new((tags.len() - 1) as nat, |j: int| pos[j + 1] - t.len());
        assert forall|j: int| 0 <= j < rest.len() implies occurs_at(w2, rest[j], pos2[j]) by {
            assert(rest[j] == tags[j + 1]);
            assert(occurs_at(w, tags[j + 1], pos[j + 1]));
            lemma_positions_monotone(w, tags, pos, 1, j + 1);
            assert(pos[0] + t.len() <= pos[j + 1]);
            lemma_removal_keeps_later_occurrence(w, t, tags[j + 1], pos[0], pos[j + 1]);
            lemma_occurrence_in_prefix(
                spec_remove_first(w, t),
                t,
                tags[j + 1],
                pos[j + 1] - t.len(),
            );
        }
        assert forall|j: int| 0 <= j < rest.len() - 1 implies pos2[j] + rest[j].len() <= pos2[j
            + 1] by {
            assert(pos[j + 1] + tags[j + 1].len() <= pos[j + 2]);
        }
        assert(tags_positioned(w2, rest, pos2));
        lemma_relocate_permutes(w2, rest, pos2);
    }
}

/// A successful scan finds its tags in the scanned name in order and
/// without overlap: positions exist for them.
pub proof fn lemma_scan_from_positions(
    s: Seq<char>,
    i: int,
    count: int,
    start: int,
    acc: Seq<Seq<char>>,
    pos: Seq<int>,
    tags: Seq<Seq<char>>,
)
    requires
        0 <= i <= s.len(),
        tags_positioned(s, acc, pos),
        acc.len() > 0 ==> pos[acc.len() - 1] + acc[acc.len() - 1].len() <= i,
        count % 2 == 1 ==> 0 <= start <= i && (acc.len() > 0 ==> pos[acc.len() - 1] + acc[acc.len()
            - 1].len() <= start),
        spec_scan_from(s, i, count, start, acc) == Option::Some(tags),
    ensures
        exists|pos2: Seq<int>| tags_positioned(s, tags, pos2),
    decreases s.len() - i,
{
    if i >= s.len() {
        assert(tags_positioned(s, tags, pos));
    } else if s[i] == '[' {
        lemma_scan_from_positions(s, i + 1, count + 1, i, acc, pos, tags);
    } else if s[i] == ']' {
        if count % 2 == 1 {
            let t = s.subrange(start, i + 1);
            let acc2 = acc.push(t);
            let pos2 = pos.push(start);
            assert(occurs_at(s, t, start)) by {
                assert(s.subrange(start, start + t.len()) =~= t);
            }
            assert(tags_positioned(s, acc2, pos2)) by {
                assert(forall|j: int| 0 <= j < acc.len() ==> acc2[j] == acc[j] && pos2[j] == pos[j]);
            }
            assert(pos2[acc2.len() - 1] + acc2[acc2.len() - 1].len() == i + 1);
            lemma_scan_from_positions(s, i + 1, count - 1, start, acc2, pos2, tags);
        }
    } else {
        lemma_scan_from_positions(s, i + 1, count, start, acc, pos, tags);
    }
}

/// Tag relocation is a permutation, not a content mutation: when the scan
/// of a name succeeds, the relocated name holds exactly the characters of
/// the original name, as a multiset.
pub proof fn lemma_tag_relocation_permutes(w: Seq<char>, tags: Seq<Seq<char>>)
    requires
        spec_scan_tags(w) == Option::Some(tags),
    ensures
        spec_relocate(w, tags).to_multiset() == w.to_multiset(),
{
    lemma_scan_from_positions(
        w,
        0,
        0,
        0,
        Seq::<Seq<char>>::empty(),
        Seq::<int>::empty(),
        tags,
    );
    let pos = choose|pos: Seq<int>| tags_positioned(w, tags, pos);
    lemma_relocate_permutes(w, tags, pos);
}

/// A well-formed tag: an opening bracket, an interior free of brackets,
/// and a closing bracket.
pub open spec fn wf_tag(t: Seq<char>) -> bool {
    &&& t.len() >= 2
    &&& t[0] == '['
    &&& t[t.len() - 1] == ']'
    &&& forall|k: int| 0 < k < t.len() - 1 ==> t[k] != '[' && t[k] != ']'
}

/// All the tags joined, in order.
pub open spec fn concat_tags(tags: Seq<Seq<char>>) -> Seq<char>
    decreases tags.len(),
{
    if tags.len() == 0 {
        Seq::<char>::empty()
    } else {
        tags[0] + concat_tags(tags.skip(1))
    }
}

pub proof fn lemma_concat_tags_push(tags: Seq<Seq<char>>, t: Seq<char>)
    ensures
        concat_tags(tags.push(t)) == concat_tags(tags) + t,
    decreases tags.len(),
{
    if tags.len() == 0 {
        assert(tags.push(t).skip(1) =~= Seq::<Seq<char>>::empty());
        assert(tags.push(t)[0] == t);
        assert(concat_tags(Seq::<Seq<char>>::empty()) == Seq::<char>::empty());
        assert(concat_tags(tags.push(t)) == tags.push(t)[0] + concat_tags(tags.push(t).skip(1)));
        assert(t + Seq::<char>::empty() =~= Seq::<char>::empty() + t);
    } else {
        assert(tags.push(t).skip(1) =~= tags.skip(1).push(t));
        lemma_concat_tags_push(tags.skip(1), t);
        assert(tags[0] + (concat_tags(tags.skip(1)) + t) =~= (tags[0] + concat_tags(tags.skip(1)))
            + t);
    }
}

/// The scan state passes unchanged over a stretch without brackets.
pub proof fn lemma_scan_over_plain(
    s: Seq<char>,
    i: int,
    i2: int,
    count: int,
    start: int,
    acc: Seq<Seq<char>>,
)
    requires
        0 <= i <= i2 <= s.len(),
        forall|k: int| i <= k < i2 ==> s[k] != '[' && s[k] != ']',
    ensures
        spec_scan_from(s, i, count, start, acc) == spec_scan_from(s, i2, count, start, acc),
    decreases i2 - i,
{
    if i < i2 {
        lemma_scan_over_plain(s, i + 1, i2, count, start, acc);
    }
}

/// Scanning a well-formed tag from an even counter captures exactly that
/// tag and returns the counter to its old value.
pub proof fn lemma_scan_over_tag(
    s: Seq<char>,
    i: int,
    t: Seq<char>,
    count: int,
    start: int,
    acc: Seq<Seq<char>>,
)
    requires
        0 <= i,
        i + t.len() <= s.len(),
        s.subrange(i, i + t.len()) == t,
        wf_tag(t),
        count % 2 == 0,
    ensures
        spec_scan_from(s, i, count, start, acc) == spec_scan_from(
            s,
            i + t.len(),
            count,
            i,
            acc.push(t),
        ),
{
    assert forall|k: int| 0 <= k < t.len() implies s[i + k] == t[k] by {
        assert(s.subrange(i, i + t.len())[k] == t[k]);
    }
    assert(s[i] == '[');
    assert(spec_scan_from(s, i, count, start, acc) == spec_scan_from(s, i + 1, count + 1, i, acc));
    assert forall|k: int| i + 1 <= k < i + t.len() - 1 implies s[k] != '[' && s[k] != ']' by {
        assert(s[k] == t[k - i]);
    }
    lemma_scan_over_plain(s, i + 1, i + t.len() - 1, count + 1, i, acc);
    assert(s[i + t.len() - 1] == ']');
    assert((count + 1) % 2 == 1);
    assert(spec_scan_from(s, i + t.len() - 1, count + 1, i, acc) == spec_scan_from(
        s,
        i + t.len(),
        count,
        i,
        acc.push(s.subrange(i, i + t.len())),
    ));
}

/// Scanning a run of well-formed tags that reaches to the end of the name
/// captures exactly those tags, in order.
pub proof fn lemma_scan_over_tail(
    s: Seq<char>,
    i: int,
    tags: Seq<Seq<char>>,
    start: int,
    acc: Seq<Seq<char>>,
)
    requires
        0 <= i,
        i + concat_tags(tags).len() == s.len(),
        s.subrange(i, s.len() as int) == concat_tags(tags),
        forall|j: int| 0 <= j < tags.len() ==> wf_tag(tags[j]),
    ensures
        spec_scan_from(s, i, 0, start, acc) == Option::Some(acc + tags),
    decreases tags.len(),
{
    if tags.len() == 0 {
        assert(i == s.len());
        assert(acc + tags =~= acc);
    } else {
        let t = tags[0];
        let rest = tags.skip(1);
        assert(concat_tags(tags) == t + concat_tags(rest));
        assert(s.subrange(i, i + t.len()) =~= t) by {
            assert forall|k: int| 0 <= k < t.len() implies s.subrange(i, i + t.len())[k]
                == t[k] by {
                assert(s[i + k] == s.subrange(i, s.len() as int)[k]);
                assert(concat_tags(tags)[k] == (t + concat_tags(rest))[k]);
            }
        }
        lemma_scan_over_tag(s, i, t, 0, start, acc);
        assert(s.subrange(i + t.len(), s.len() as int) =~= concat_tags(rest)) by {
            assert forall|k: int| 0 <= k < concat_tags(rest).len() implies s.subrange(
                i + t.len(),
                s.len() as int,
            )[k] == concat_tags(rest)[k] by {
                assert(s[i + t.len() + k] == s.subrange(i, s.len() as int)[t.len() + k]);
                assert(concat_tags(tags)[t.len() + k] == (t + concat_tags(rest))[t.len() + k]);
            }
        }
        lemma_scan_over_tail(s, i + t.len(), rest, i, acc.push(t));
        assert(acc.push(t) + rest =~= acc + tags) by {
            assert(forall|j: int| 0 <= j < rest.len() ==> rest[j] == tags[j + 1]);
        }
    }
}

/// The scan of a bracket-free body followed by well-formed tags captures
/// exactly those tags.
pub proof fn lemma_scan_of_relocated_shape(body: Seq<char>, tags: Seq<Seq<char>>)
    requires
        forall|k: int| 0 <= k < body.len() ==> body[k] != '[' && body[k] != ']',
        forall|j: int| 0 <= j < tags.len() ==> wf_tag(tags[j]),
    ensures
        spec_scan_tags(body + concat_tags(tags)) == Option::Some(tags),
{
    let v = body + concat_tags(tags);
    assert forall|k: int| 0 <= k < body.len() implies v[k] != '[' && v[k] != ']' by {
        assert(v[k] == body[k]);
    }
    lemma_scan_over_plain(v, 0, body.len() as int, 0, 0, Seq::<Seq<char>>::empty());
    assert(v.subrange(body.len() as int, v.len() as int) =~= concat_tags(tags));
    lemma_scan_over_tail(v, body.len() as int, tags, 0, Seq::<Seq<char>>::empty());
    assert(Seq::<Seq<char>>::empty() + tags =~= tags);
}

/// In a bracket-free body followed by a tail that starts with the
/// well-formed tag `t`, the first occurrence of `t` is exactly where the
/// tail starts.
pub proof fn lemma_first_occurrence_at_tail(body: Seq<char>, tail: Seq<char>, t: Seq<char>)
    requires
        forall|k: int| 0 <= k < body.len() ==> body[k] != '[',
        wf_tag(t),
        t.len() <= tail.len(),
        tail.subrange(0, t.len() as int) == t,
    ensures
        occurs_at(body + tail, t, body.len() as int),
        forall|p: int| 0 <= p < body.len() ==> !occurs_at(body + tail, t, p),
{
    let v = body + tail;
    assert(v.subrange(body.len() as int, (body.len() + t.len()) as int) =~= tail.subrange(
        0,
        t.len() as int,
    ));
    assert forall|p: int| 0 <= p < body.len() implies !occurs_at(v, t, p) by {
        if occurs_at(v, t, p) {
            assert(v.subrange(p, p + t.len())[0] == t[0]);
            assert(v[p] == '[');
            assert(body[p] == '[');
        }
    }
}

/// Relocating tags that already stand at the end of the name, in order,
/// puts each back where it was: the name is unchanged.
pub proof fn lemma_relocate_rotation(
    body: Seq<char>,
    pending: Seq<Seq<char>>,
    done: Seq<Seq<char>>,
)
    requires
        forall|k: int| 0 <= k < body.len() ==> body[k] != '[',
        forall|j: int| 0 <= j < pending.len() ==> wf_tag(pending[j]),
    ensures
        spec_relocate(body + (concat_tags(pending) + concat_tags(done)), pending) == body + (
        concat_tags(done) + concat_tags(pending)),
    decreases pending.len(),
{
    if pending.len() == 0 {
        assert(body + (concat_tags(pending) + concat_tags(done)) =~= body + (concat_tags(done)
            + concat_tags(pending)));
    } else {
        let t = pending[0];
        let rest = pending.skip(1);
        let tail = concat_tags(pending) + concat_tags(done);
        let v = body + tail;
        assert(concat_tags(pending) == t + concat_tags(rest));
        assert(tail.subrange(0, t.len() as int) =~= t) by {
            assert forall|k: int| 0 <= k < t.len() implies tail[k] == t[k] by {
                assert(concat_tags(pending)[k] == (t + concat_tags(rest))[k]);
            }
        }
        lemma_first_occurrence_at_tail(body, tail, t);
        lemma_replace_first_at(v, t, Seq::<char>::empty(), body.len() as int);
        let after = spec_remove_first(v, t) + t;
        assert(after =~= body + (concat_tags(rest) + concat_tags(done.push(t)))) by {
            lemma_concat_tags_push(done, t);
            assert(spec_remove_first(v, t) =~= v.subrange(0, body.len() as int) + v.subrange(
                (body.len() + t.len()) as int,
                v.len() as int,
            ));
            assert(v.subrange(0, body.len() as int) =~= body);
            assert(v.subrange((body.len() + t.len()) as int, v.len() as int) =~= concat_tags(rest)
                + concat_tags(done)) by {
                assert forall|k: int|
                    0 <= k < v.len() - body.len() - t.len() implies v.subrange(
                    (body.len() + t.len()) as int,
                    v.len() as int,
                )[k] == (concat_tags(rest) + concat_tags(done))[k] by {
                    assert(v[body.len() + t.len() + k] == tail[t.len() + k]);
                    assert(tail[t.len() + k] == (concat_tags(pending) + concat_tags(done))[t.len()
                        + k]);
                    if t.len() + k < concat_tags(pending).len() {
                        assert(concat_tags(pending)[t.len() + k] == (t + concat_tags(rest))[t.len()
                            + k]);
                    }
                }
            }
        }
        lemma_relocate_rotation(body, rest, done.push(t));
        assert(spec_relocate(v, pending) == spec_relocate(after, rest));
        lemma_concat_tags_push(done, t);
        assert(body + (concat_tags(done.push(t)) + concat_tags(rest)) =~= body + (concat_tags(done)
            + concat_tags(pending))) by {
            assert forall|k: int|
                0 <= k < concat_tags(done).len() + concat_tags(pending).len() implies (
            concat_tags(done.push(t)) + concat_tags(rest))[k] == (concat_tags(done) + concat_tags(
                pending,
            ))[k] by {
                if k >= concat_tags(done).len() {
                    assert((concat_tags(done) + concat_tags(pending))[k] == concat_tags(pending)[k
                        - concat_tags(done).len()]);
                    assert(concat_tags(pending)[k - concat_tags(done).len()] == (t + concat_tags(
                        rest,
                    ))[k - concat_tags(done).len()]);
                }
            }
        }
    }
}

/// A name already in relocated shape — a bracket-free body followed by
/// well-formed tags — is left unchanged by scanning and relocating again.
pub proof fn lemma_relocated_shape_is_fixed(body: Seq<char>, tags: Seq<Seq<char>>)
    requires
        forall|k: int| 0 <= k < body.len() ==> body[k] != '[' && body[k] != ']',
        forall|j: int| 0 <= j < tags.len() ==> wf_tag(tags[j]),
    ensures
        spec_scan_tags(body + concat_tags(tags)) == Option::Some(tags),
        spec_relocate(body + concat_tags(tags), tags) == body + concat_tags(tags),
{
    lemma_scan_of_relocated_shape(body, tags);
    lemma_relocate_rotation(body, tags, Seq::<Seq<char>>::empty());
    assert(concat_tags(Seq::<Seq<char>>::empty()) == Seq::<char>::empty());
    assert(body + (concat_tags(tags) + Seq::<char>::empty()) =~= body + concat_tags(tags));
    assert(body + (Seq::<char>::empty() + concat_tags(tags)) =~= body + concat_tags(tags));
}

/// Relocate the given tags: remove each at its first occurrence in the
/// working name and append it at the end, in order.
pub fn relocate_tags(w: &str, tags: &Vec<String>) -> (r: String)
    ensures
        r@ == spec_relocate(w@, tags.deep_view()),
{
    let mut cur: String = w.to_owned();
    let mut j: usize = 0;
    proof {
        assert(tags.deep_view().skip(0) =~= tags.deep_view());
    }
    while j < tags.len()
        invariant
            j <= tags.len(),
            spec_relocate(w@, tags.deep_view()) == spec_relocate(
                cur@,
                tags.deep_view().skip(j as int),
            ),
        decreases tags.len() - j,
    {
        let tag: &String = &tags[j];
        let mut next = replace_first(cur.as_str(), tag.as_str(), "");
        next.append(tag.as_str());
        proof {
            reveal_strlit("");
            assert(""@ =~= Seq::<char>::empty());
            let rest = tags.deep_view().skip(j as int);
            assert(rest[0] == tags.deep_view()[j as int]);
            assert(rest.skip(1) =~= tags.deep_view().skip(j + 1));
            assert(next@ == spec_remove_first(cur@, rest[0]) + rest[0]);
            assert(spec_relocate(cur@, rest) == spec_relocate(next@, rest.skip(1)));
        }
        cur = next;
        j = j + 1;
    }
    proof {
        assert(tags.deep_view().skip(tags.len() as int) =~= Seq::<Seq<char>>::empty());
    }
    cur
}

} // verus!
