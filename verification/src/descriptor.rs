//! Type-descriptor extraction.
//!
//! A descriptor is a trailing substring of a filename (commonly the type
//! extension) that is held aside while the other transforms run and
//! reattached at the very end.  Under auto-detection it is the substring
//! from the last `.` to the end of the name; under a literal policy it is a
//! caller-given substring; or there is no descriptor at all.

use vstd::prelude::*;
use vstd::string::StrSliceExecFns;
use vstd::string::StringExecFns;

verus! {

/// How the descriptor of a filename is determined.
pub enum DescriptorMode {
    /// The descriptor is the substring from the last `.` to the end of the
    /// name; a name without a `.` has no descriptor.
    AutoDetect,
    /// The descriptor is this exact substring; a name that does not contain
    /// it is skipped outright.
    Literal(String),
    /// No descriptor is extracted.
    NoType,
}

/// Resolve the descriptor-type option: the literal `"auto-detect"` asks
/// for auto-detection, `"no-type"` (like an absent option) for no
/// descriptor, and any other string is the descriptor itself.
pub fn descriptor_mode_of(descriptor_type: &Option<String>) -> (m: DescriptorMode)
    ensures
        match descriptor_type {
            Option::Some(d) => {
                if d@ == "auto-detect"@ {
                    m matches DescriptorMode::AutoDetect
                } else if d@ == "no-type"@ {
                    m matches DescriptorMode::NoType
                } else {
                    m matches DescriptorMode::Literal(l) && l@ == d@
                }
            },
            Option::None => m matches DescriptorMode::NoType,
        },
{
    match descriptor_type {
        Option::Some(d) => {
            let auto = String::from_str("auto-detect");
            let no = String::from_str("no-type");
            if *d == auto {
                DescriptorMode::AutoDetect
            } else if *d == no {
                DescriptorMode::NoType
            } else {
                DescriptorMode::Literal(d.clone())
            }
        },
        Option::None => DescriptorMode::NoType,
    }
}

/// `s` holds a `.` somewhere.
pub open spec fn has_dot(s: Seq<char>) -> bool {
    exists|i: int| 0 <= i < s.len() && s[i] == '.'
}

/// `i` is the position of the last `.` in `s`.
pub open spec fn is_last_dot(s: Seq<char>, i: int) -> bool {
    &&& 0 <= i < s.len()
    &&& s[i] == '.'
    &&& forall|j: int| i < j < s.len() ==> s[j] != '.'
}

/// The position of the last `.` in `s`; meaningful only when `has_dot(s)`.
pub open spec fn spec_last_dot(s: Seq<char>) -> int {
    choose|i: int| is_last_dot(s, i)
}

/// The auto-detected descriptor of `s`: the suffix starting at the last `.`,
/// or nothing when `s` has no `.`.
pub open spec fn spec_auto_descriptor(s: Seq<char>) -> Option<Seq<char>> {
    if has_dot(s) {
        Option::Some(s.subrange(spec_last_dot(s), s.len() as int))
    } else {
        Option::None
    }
}

/// A name with a `.` has a last `.`.
pub proof fn lemma_last_dot_exists(s: Seq<char>)
    requires
        has_dot(s),
    ensures
        is_last_dot(s, spec_last_dot(s)),
    decreases s.len(),
{
    if s.len() > 0 && s[s.len() - 1] == '.' {
        assert(is_last_dot(s, s.len() - 1));
    } else {
        let w = choose|i: int| 0 <= i < s.len() && s[i] == '.';
        let front = s.drop_last();
        assert(front[w] == '.');
        lemma_last_dot_exists(front);
        let i = spec_last_dot(front);
        assert forall|j: int| i < j < s.len() - 1 implies s[j] != '.' by {
            assert(front[j] == s[j]);
            assert(front[j] != '.');
        }
        assert(is_last_dot(s, i));
    }
}

/// There is only one last `.`.
pub proof fn lemma_last_dot_unique(s: Seq<char>, a: int, b: int)
    requires
        is_last_dot(s, a),
        is_last_dot(s, b),
    ensures
        a == b,
{
}

/// The auto-detect descriptor of a filename: the substring from the last `.`
/// to the end of the name, or nothing when the name holds no `.`.
pub fn return_descriptor_type(process_string: &String) -> (r: Option<String>)
    ensures
        match r {
            Option::Some(d) => has_dot(process_string@) && d@ == process_string@.subrange(
                spec_last_dot(process_string@),
                process_string@.len() as int,
            ),
            Option::None => !has_dot(process_string@),
        },
{
    let s: &str = process_string.as_str();
    let n = s.unicode_len();
    let mut k: usize = n;
    while k > 0
        invariant
            n == s@.len(),
            s@ == process_string@,
            k <= n,
            forall|j: int| k <= j < n ==> s@[j] != '.',
        decreases k,
    {
        let c = s.get_char(k - 1);
        if c == '.' {
            proof {
                assert(is_last_dot(s@, k - 1));
                lemma_last_dot_exists(s@);
                lemma_last_dot_unique(s@, k - 1, spec_last_dot(s@));
            }
            return Some(s.substring_char(k - 1, n).to_owned());
        }
        k = k - 1;
    }
    proof {
        assert forall|i: int| 0 <= i < s@.len() implies s@[i] != '.' by {}
    }
    None
}

} // verus!
