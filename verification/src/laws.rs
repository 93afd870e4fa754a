//! Properties of the pipeline as a whole.

use crate::descriptor::{has_dot, spec_last_dot, DescriptorMode};
use crate::pipeline::{
    spec_baseline, spec_descriptor, spec_extract_skips, spec_kind, spec_match_stage,
    spec_new_name, spec_space_stage, spec_transformed, Config, OutcomeKind,
};
use crate::tags::{
    concat_tags, lemma_relocated_shape_is_fixed, spec_relocate, spec_scan_tags, wf_tag,
};
use crate::text::{
    contains_seq, lemma_replace_all_no_occurrence, lemma_replace_char_leaves_none,
    spec_replace_all,
};
use vstd::prelude::*;

verus! {

/// A name whose configured transforms change nothing is skipped: the
/// pipeline plans no rename for it, so the rename sink is never invoked
/// for such a file.
pub proof fn lemma_unchanged_name_is_skipped(cfg: Config, name: Seq<char>)
    requires
        !spec_extract_skips(cfg, name),
        cfg.space_replace != Option::<bool>::Some(false),
        spec_transformed(cfg, spec_baseline(cfg, name)) == Option::Some(
            spec_baseline(cfg, name),
        ),
    ensures
        spec_kind(cfg, name) == OutcomeKind::SkipNoChange,
{
}

/// A second run with nothing further to match is a no-op skip: without
/// descriptor extraction, a name that holds no space (when spaces are
/// being replaced), in which the configured match substring no longer
/// occurs, and in which the tag scan (when tags are being relocated)
/// captures nothing, is skipped, not renamed again.
pub proof fn lemma_second_run_skips(cfg: Config, n2: Seq<char>)
    requires
        cfg.descriptor_mode matches DescriptorMode::NoType,
        cfg.space_replace != Option::<bool>::Some(false),
        cfg.space_replace == Option::<bool>::Some(true) ==> !contains_seq(n2, seq![' ']),
        cfg.match_replace matches Option::Some((m, r)) ==> !contains_seq(n2, m@),
        cfg.clean_tags ==> spec_scan_tags(n2) == Option::Some(Seq::<Seq<char>>::empty()),
    ensures
        spec_kind(cfg, n2) == OutcomeKind::SkipNoChange,
{
    let base = spec_baseline(cfg, n2);
    assert(base == n2);
    if cfg.space_replace == Option::<bool>::Some(true) {
        lemma_replace_all_no_occurrence(n2, seq![' '], seq!['_']);
    }
    assert(spec_space_stage(cfg, base) == n2);
    match cfg.match_replace {
        Option::Some((m, r)) => {
            lemma_replace_all_no_occurrence(n2, m@, Seq::<char>::empty());
            lemma_replace_all_no_occurrence(n2, m@, r@);
            assert(spec_match_stage(cfg, n2) == n2);
        },
        Option::None => {},
    }
    if cfg.clean_tags {
        assert(spec_relocate(n2, Seq::<Seq<char>>::empty()) == n2);
    }
    assert(spec_transformed(cfg, base) == Option::Some(n2));
}

/// A second run over relocated tags is a no-op skip: on a name of the
/// shape the tag relocator produces — a bracket-free body followed by
/// well-formed tags — the scan captures the same tags and relocation puts
/// each back where it stands, so the file is skipped, provided the other
/// stages also find nothing further to change.
pub proof fn lemma_second_run_relocated_shape_skips(
    cfg: Config,
    body: Seq<char>,
    tags: Seq<Seq<char>>,
)
    requires
        cfg.descriptor_mode matches DescriptorMode::NoType,
        cfg.clean_tags,
        cfg.space_replace != Option::<bool>::Some(false),
        cfg.space_replace == Option::<bool>::Some(true) ==> !contains_seq(
            body + concat_tags(tags),
            seq![' '],
        ),
        cfg.match_replace matches Option::Some((m, r)) ==> !contains_seq(
            body + concat_tags(tags),
            m@,
        ),
        forall|k: int| 0 <= k < body.len() ==> body[k] != '[' && body[k] != ']',
        forall|j: int| 0 <= j < tags.len() ==> wf_tag(tags[j]),
    ensures
        spec_kind(cfg, body + concat_tags(tags)) == OutcomeKind::SkipNoChange,
{
    let n2 = body + concat_tags(tags);
    let base = spec_baseline(cfg, n2);
    assert(base == n2);
    if cfg.space_replace == Option::<bool>::Some(true) {
        lemma_replace_all_no_occurrence(n2, seq![' '], seq!['_']);
    }
    assert(spec_space_stage(cfg, base) == n2);
    match cfg.match_replace {
        Option::Some((m, r)) => {
            lemma_replace_all_no_occurrence(n2, m@, Seq::<char>::empty());
            lemma_replace_all_no_occurrence(n2, m@, r@);
            assert(spec_match_stage(cfg, n2) == n2);
        },
        Option::None => {},
    }
    lemma_relocated_shape_is_fixed(body, tags);
    assert(spec_transformed(cfg, base) == Option::Some(n2));
}

/// Auto-detection on a name without a `.` finds no descriptor and leaves
/// the working name unchanged.
pub proof fn lemma_auto_detect_without_dot(cfg: Config, name: Seq<char>)
    requires
        cfg.descriptor_mode matches DescriptorMode::AutoDetect,
        !has_dot(name),
    ensures
        spec_descriptor(cfg, name) == Option::<Seq<char>>::None,
        spec_baseline(cfg, name) == name,
{
}

/// Auto-detection on a name with a `.` extracts the substring from the
/// last `.` to the end of the name as the descriptor.
pub proof fn lemma_auto_detect_takes_last_dot_suffix(cfg: Config, name: Seq<char>)
    requires
        cfg.descriptor_mode matches DescriptorMode::AutoDetect,
        has_dot(name),
    ensures
        spec_descriptor(cfg, name) == Option::Some(
            name.subrange(spec_last_dot(name), name.len() as int),
        ),
{
}

/// Idempotence of a space-normalizing run: on the name such a run has just
/// produced, a second run with the same configuration finds no space left
/// and skips the file.
pub proof fn lemma_space_run_idempotent(cfg: Config, name: Seq<char>)
    requires
        cfg.descriptor_mode matches DescriptorMode::NoType,
        cfg.space_replace == Option::<bool>::Some(true),
        cfg.match_replace matches Option::<(String, String)>::None,
        !cfg.clean_tags,
    ensures
        spec_kind(cfg, spec_new_name(cfg, name)) == OutcomeKind::SkipNoChange,
{
    let w = spec_replace_all(name, seq![' '], seq!['_']);
    assert(spec_new_name(cfg, name) == w);
    lemma_replace_char_leaves_none(name, ' ', '_');
    lemma_second_run_skips(cfg, w);
}

} // verus!
