//! The filename-transformation pipeline and its orchestration.
//!
//! Per filename the stages run in a fixed order: the descriptor extractor
//! strips the type descriptor from the working name, the space normalizer
//! replaces spaces with underscores, the pattern replacer substitutes or
//! deletes a match substring, and the tag relocator moves bracket tags to
//! the end of the name.  The descriptor is then reattached last.  A file
//! whose transformed name equals its post-extraction baseline is skipped;
//! a malformed bracket name aborts the whole batch.

use crate::descriptor::{
    has_dot, return_descriptor_type, spec_auto_descriptor, spec_last_dot, DescriptorMode,
};
use crate::tags::{relocate_tags, scan_tags, spec_relocate, spec_scan_tags, PipelineError};
use crate::text::{
    contains_pat, contains_seq, replace_all, replace_first, spec_remove_first, spec_replace_all,
    spec_replace_first,
};
use vstd::prelude::*;
use vstd::string::StrSliceExecFns;
use vstd::string::StringExecFns;

verus! {

/// The options of one run, resolved before any file is processed.
pub struct Config {
    /// How the descriptor is determined.
    pub descriptor_mode: DescriptorMode,
    /// Absent: the space normalizer is a no-op.  `Some(true)`: spaces become
    /// underscores.  `Some(false)`: every file is skipped at this stage.
    pub space_replace: Option<bool>,
    /// A match substring and its replacement; the replacement
    /// `"delete-match"` asks for deletion of the match instead.
    pub match_replace: Option<(String, String)>,
    /// Whether bracket tags are relocated to the end of the name.
    pub clean_tags: bool,
}

/// What the pipeline decided for one filename.
pub enum FileOutcome {
    /// Literal descriptor mode and the name does not contain the descriptor.
    SkippedNotOfType,
    /// Space replacement was explicitly switched off.
    SkippedSpaceOff,
    /// The transformed name equals the post-extraction baseline.
    SkippedNoChange,
    /// The name changed: the file is to be renamed.
    Renamed {
        /// The name with the descriptor stripped, before the transforms.
        baseline: String,
        /// The transformed name, still without the descriptor.
        new_name: String,
        /// The descriptor held aside, to be reattached last.
        descriptor: Option<String>,
    },
}

/// The kind of outcome the pipeline yields for a filename.
#[derive(PartialEq, Eq, Structural, Clone, Copy, Debug)]
pub enum OutcomeKind {
    SkipNotOfType,
    SkipSpaceOff,
    SkipNoChange,
    Malformed,
    Rename,
}

/// The outcome of one filename together with the diagnostics the run emits.
pub struct PlanReport {
    pub outcome: FileOutcome,
    /// Auto-detection found no `.` in the name.
    pub no_descriptor_found: bool,
    /// The tag relocator ran and found no tag.
    pub no_tags_found: bool,
}

/// Literal descriptor mode skips a name that does not contain the literal.
pub open spec fn spec_extract_skips(cfg: Config, name: Seq<char>) -> bool {
    match cfg.descriptor_mode {
        DescriptorMode::Literal(d) => !contains_seq(name, d@),
        _ => false,
    }
}

/// The descriptor held aside for a name, per mode.
pub open spec fn spec_descriptor(cfg: Config, name: Seq<char>) -> Option<Seq<char>> {
    match cfg.descriptor_mode {
        DescriptorMode::AutoDetect => spec_auto_descriptor(name),
        DescriptorMode::Literal(d) => Option::Some(d@),
        DescriptorMode::NoType => Option::None,
    }
}

/// The working name after extraction: the first occurrence of the
/// descriptor removed, or the name itself when there is no descriptor.
pub open spec fn spec_baseline(cfg: Config, name: Seq<char>) -> Seq<char> {
    match cfg.descriptor_mode {
        DescriptorMode::AutoDetect => match spec_auto_descriptor(name) {
            Option::Some(d) => spec_remove_first(name, d),
            Option::None => name,
        },
        DescriptorMode::Literal(d) => spec_remove_first(name, d@),
        DescriptorMode::NoType => name,
    }
}

/// The space normalizer: spaces become underscores when switched on.
pub open spec fn spec_space_stage(cfg: Config, w: Seq<char>) -> Seq<char> {
    if cfg.space_replace == Option::<bool>::Some(true) {
        spec_replace_all(w, seq![' '], seq!['_'])
    } else {
        w
    }
}

/// The pattern replacer: every occurrence of the match replaced, with a
/// deletion pass first when the replacement is the `"delete-match"`
/// directive (the substitution pass still runs after it).
pub open spec fn spec_match_stage(cfg: Config, w: Seq<char>) -> Seq<char> {
    match cfg.match_replace {
        Option::Some((m, r)) => {
            if r@ == "delete-match"@ {
                spec_replace_all(spec_replace_all(w, m@, Seq::<char>::empty()), m@, r@)
            } else {
                spec_replace_all(w, m@, r@)
            }
        },
        Option::None => w,
    }
}

/// The tag relocator; `None` marks a malformed name.
pub open spec fn spec_tag_stage(cfg: Config, w: Seq<char>) -> Option<Seq<char>> {
    if cfg.clean_tags {
        match spec_scan_tags(w) {
            Option::Some(tags) => Option::Some(spec_relocate(w, tags)),
            Option::None => Option::<Seq<char>>::None,
        }
    } else {
        Option::Some(w)
    }
}

/// All three transform stages composed, on the post-extraction baseline.
pub open spec fn spec_transformed(cfg: Config, w: Seq<char>) -> Option<Seq<char>> {
    spec_tag_stage(cfg, spec_match_stage(cfg, spec_space_stage(cfg, w)))
}

/// The transformed name of a file that is renamed.
pub open spec fn spec_new_name(cfg: Config, name: Seq<char>) -> Seq<char> {
    match spec_transformed(cfg, spec_baseline(cfg, name)) {
        Option::Some(w) => w,
        Option::None => Seq::<char>::empty(),
    }
}

/// The outcome kind the pipeline yields for a name under a configuration.
pub open spec fn spec_kind(cfg: Config, name: Seq<char>) -> OutcomeKind {
    if spec_extract_skips(cfg, name) {
        OutcomeKind::SkipNotOfType
    } else if cfg.space_replace == Option::<bool>::Some(false) {
        OutcomeKind::SkipSpaceOff
    } else {
        match spec_transformed(cfg, spec_baseline(cfg, name)) {
            Option::None => OutcomeKind::Malformed,
            Option::Some(w) => {
                if w == spec_baseline(cfg, name) {
                    OutcomeKind::SkipNoChange
                } else {
                    OutcomeKind::Rename
                }
            },
        }
    }
}

/// The auto-detect diagnostic: the mode is auto-detection and the name
/// holds no `.`.
pub open spec fn spec_no_descriptor_found(cfg: Config, name: Seq<char>) -> bool {
    cfg.descriptor_mode matches DescriptorMode::AutoDetect && !has_dot(name)
}

/// The no-tags diagnostic: the tag relocator ran and captured nothing.
pub open spec fn spec_no_tags_found(cfg: Config, name: Seq<char>) -> bool {
    &&& cfg.clean_tags
    &&& !spec_extract_skips(cfg, name)
    &&& cfg.space_replace != Option::<bool>::Some(false)
    &&& spec_scan_tags(spec_match_stage(cfg, spec_space_stage(cfg, spec_baseline(cfg, name))))
        == Option::Some(Seq::<Seq<char>>::empty())
}

/// Run the pipeline on one filename and report what is to happen to it.
/// No rename is planned when the transformed name equals the baseline.
pub fn plan_rename(cfg: &Config, name: &str) -> (r: Result<PlanReport, PipelineError>)
    ensures
        r matches Result::Err(_) <==> spec_kind(*cfg, name@) == OutcomeKind::Malformed,
        match r {
            Result::Ok(report) => {
                &&& match report.outcome {
                    FileOutcome::SkippedNotOfType => spec_kind(*cfg, name@)
                        == OutcomeKind::SkipNotOfType,
                    FileOutcome::SkippedSpaceOff => spec_kind(*cfg, name@)
                        == OutcomeKind::SkipSpaceOff,
                    FileOutcome::SkippedNoChange => spec_kind(*cfg, name@)
                        == OutcomeKind::SkipNoChange,
                    FileOutcome::Renamed { baseline, new_name, descriptor } => {
                        &&& spec_kind(*cfg, name@) == OutcomeKind::Rename
                        &&& baseline@ == spec_baseline(*cfg, name@)
                        &&& new_name@ == spec_new_name(*cfg, name@)
                        &&& new_name@ != baseline@
                        &&& descriptor.deep_view() == spec_descriptor(*cfg, name@)
                    },
                }
                &&& report.no_descriptor_found == spec_no_descriptor_found(*cfg, name@)
                &&& (report.outcome matches FileOutcome::SkippedNotOfType
                    || report.outcome matches FileOutcome::SkippedSpaceOff
                    || report.no_tags_found == spec_no_tags_found(*cfg, name@))
                &&& (report.outcome matches FileOutcome::SkippedNotOfType ==> !report.no_tags_found)
                &&& (report.outcome matches FileOutcome::SkippedSpaceOff ==> !report.no_tags_found)
            },
            Result::Err(_) => true,
        },
{
    let mut no_descriptor_found = false;

    // Descriptor extraction.
    let baseline: String;
    let descriptor: Option<String>;
    match &cfg.descriptor_mode {
        DescriptorMode::AutoDetect => {
            let owned = name.to_owned();
            match return_descriptor_type(&owned) {
                Option::Some(d) => {
                    proof {
                        reveal_strlit("");
                        assert(""@ =~= Seq::<char>::empty());
                    }
                    baseline = replace_first(name, d.as_str(), "");
                    descriptor = Option::Some(d);
                },
                Option::None => {
                    no_descriptor_found = true;
                    baseline = name.to_owned();
                    descriptor = Option::None;
                },
            }
        },
        DescriptorMode::Literal(d) => {
            if !contains_pat(name, d.as_str()) {
                return Ok(
                    PlanReport {
                        outcome: FileOutcome::SkippedNotOfType,
                        no_descriptor_found: false,
                        no_tags_found: false,
                    },
                );
            }
            proof {
                reveal_strlit("");
                assert(""@ =~= Seq::<char>::empty());
            }
            baseline = replace_first(name, d.as_str(), "");
            descriptor = Option::Some(d.clone());
        },
        DescriptorMode::NoType => {
            baseline = name.to_owned();
            descriptor = Option::None;
        },
    }
    proof {
        assert(baseline@ == spec_baseline(*cfg, name@));
        assert(descriptor.deep_view() == spec_descriptor(*cfg, name@));
        assert(!spec_extract_skips(*cfg, name@));
    }

    // Space normalization.
    let mut working: String = baseline.clone();
    match cfg.space_replace {
        Option::Some(flag) => {
            if flag {
                proof {
                    reveal_strlit(" ");
                    reveal_strlit("_");
                    assert(" "@ =~= seq![' ']);
                    assert("_"@ =~= seq!['_']);
                }
                working = replace_all(working.as_str(), " ", "_");
            } else {
                return Ok(
                    PlanReport {
                        outcome: FileOutcome::SkippedSpaceOff,
                        no_descriptor_found,
                        no_tags_found: false,
                    },
                );
            }
        },
        Option::None => {},
    }
    proof {
        assert(working@ == spec_space_stage(*cfg, baseline@));
    }

    // Pattern search and replace.
    match &cfg.match_replace {
        Option::Some(pair) => {
            let dm = String::from_str("delete-match");
            if pair.1 == dm {
                proof {
                    reveal_strlit("");
                    assert(""@ =~= Seq::<char>::empty());
                }
                let deleted = replace_all(working.as_str(), pair.0.as_str(), "");
                working = replace_all(deleted.as_str(), pair.0.as_str(), pair.1.as_str());
            } else {
                working = replace_all(working.as_str(), pair.0.as_str(), pair.1.as_str());
            }
        },
        Option::None => {},
    }
    proof {
        assert(working@ == spec_match_stage(*cfg, spec_space_stage(*cfg, baseline@)));
    }

    // Tag relocation.
    let ghost w2 = working@;
    let mut no_tags_found = false;
    if cfg.clean_tags {
        match scan_tags(working.as_str()) {
            Result::Ok(tags) => {
                if tags.len() == 0 {
                    no_tags_found = true;
                    proof {
                        assert(tags.deep_view() =~= Seq::<Seq<char>>::empty());
                        assert(spec_relocate(w2, tags.deep_view()) == w2);
                    }
                } else {
                    working = relocate_tags(working.as_str(), &tags);
                }
            },
            Result::Err(e) => {
                return Err(e);
            },
        }
    }
    proof {
        assert(Option::Some(working@) == spec_transformed(*cfg, baseline@));
        assert(no_tags_found == spec_no_tags_found(*cfg, name@));
    }

    // A name the transforms did not change is skipped: no rename for it.
    if working == baseline {
        return Ok(
            PlanReport { outcome: FileOutcome::SkippedNoChange, no_descriptor_found, no_tags_found },
        );
    }
    Ok(
        PlanReport {
            outcome: FileOutcome::Renamed { baseline, new_name: working, descriptor },
            no_descriptor_found,
            no_tags_found,
        },
    )
}

/// The full path of the renamed file: the first occurrence of the
/// descriptor is stripped from the old path, the baseline is replaced by
/// the new name, and the descriptor is suffixed at the very end.  Without a
/// descriptor the original name is replaced in the old path directly.
pub open spec fn spec_new_full_path(
    path: Seq<char>,
    original: Seq<char>,
    baseline: Seq<char>,
    new_name: Seq<char>,
    descriptor: Option<Seq<char>>,
) -> Seq<char> {
    match descriptor {
        Option::Some(d) => spec_replace_first(spec_remove_first(path, d), baseline, new_name) + d,
        Option::None => spec_replace_first(path, original, new_name),
    }
}

/// Build the new full path for a planned rename.
pub fn new_full_path(
    path: &str,
    original: &str,
    baseline: &str,
    new_name: &str,
    descriptor: &Option<String>,
) -> (r: String)
    ensures
        r@ == spec_new_full_path(path@, original@, baseline@, new_name@, descriptor.deep_view()),
{
    match descriptor {
        Option::Some(d) => {
            proof {
                reveal_strlit("");
                assert(""@ =~= Seq::<char>::empty());
            }
            let stripped = replace_first(path, d.as_str(), "");
            let mut out = replace_first(stripped.as_str(), baseline, new_name);
            out.append(d.as_str());
            out
        },
        Option::None => replace_first(path, original, new_name),
    }
}

/// The upstream validation contract: a run must either relocate tags or
/// have at least one of space replacement and a match value, and a match
/// value without a replace value (or the reverse) is rejected unless tag
/// relocation is requested.
pub fn validate_options(
    clean_tags_present: bool,
    space_replace_present: bool,
    match_value_present: bool,
    replace_value_present: bool,
) -> (ok: bool)
    ensures
        ok == !((!clean_tags_present && !space_replace_present && !match_value_present) || (
        match_value_present != replace_value_present && !clean_tags_present)),
{
    let no_transform = !clean_tags_present && !space_replace_present && !match_value_present;
    let mismatched = match_value_present != replace_value_present;
    !(no_transform || (mismatched && !clean_tags_present))
}

/// One directory entry as the directory supplier hands it in.
pub struct DirEntry {
    /// The filename alone.
    pub name: String,
    /// The full path of the entry.
    pub full_path: String,
    /// Directory entries are skipped unconditionally.
    pub is_directory: bool,
}

/// One planned rename, to be handed to the rename sink.
pub struct RenameCommand {
    pub old_path: String,
    pub new_path: String,
}

/// The renames planned for a directory listing, in order, and whether the
/// batch was cut short by a malformed name.
pub struct BatchPlan {
    /// The renames for the files before any malformed name.
    pub commands: Vec<RenameCommand>,
    /// A malformed name aborted the batch; files after it are untouched.
    pub malformed: bool,
}

/// A regular file whose name the pipeline would change.
pub open spec fn spec_entry_renames(cfg: Config, e: DirEntry) -> bool {
    !e.is_directory && spec_kind(cfg, e.name@) == OutcomeKind::Rename
}

/// A regular file whose name is malformed: it aborts the batch.
pub open spec fn spec_entry_malformed(cfg: Config, e: DirEntry) -> bool {
    !e.is_directory && spec_kind(cfg, e.name@) == OutcomeKind::Malformed
}

/// The rename planned for an entry, as old and new full path.
pub open spec fn spec_entry_command(cfg: Config, e: DirEntry) -> (Seq<char>, Seq<char>) {
    (
        e.full_path@,
        spec_new_full_path(
            e.full_path@,
            e.name@,
            spec_baseline(cfg, e.name@),
            spec_new_name(cfg, e.name@),
            spec_descriptor(cfg, e.name@),
        ),
    )
}

/// The renames of a listing, in order, stopping at a malformed name.
pub open spec fn spec_batch_commands(cfg: Config, entries: Seq<DirEntry>) -> Seq<
    (Seq<char>, Seq<char>),
>
    decreases entries.len(),
{
    if entries.len() == 0 {
        Seq::<(Seq<char>, Seq<char>)>::empty()
    } else if spec_entry_malformed(cfg, entries[0]) {
        Seq::<(Seq<char>, Seq<char>)>::empty()
    } else if spec_entry_renames(cfg, entries[0]) {
        seq![spec_entry_command(cfg, entries[0])] + spec_batch_commands(cfg, entries.skip(1))
    } else {
        spec_batch_commands(cfg, entries.skip(1))
    }
}

/// Whether some regular file of the listing, before which no name is
/// malformed, has a malformed name itself.
pub open spec fn spec_batch_malformed(cfg: Config, entries: Seq<DirEntry>) -> bool
    decreases entries.len(),
{
    if entries.len() == 0 {
        false
    } else if spec_entry_malformed(cfg, entries[0]) {
        true
    } else {
        spec_batch_malformed(cfg, entries.skip(1))
    }
}

/// The old and new paths of planned commands.
pub open spec fn spec_commands_view(cmds: Seq<RenameCommand>) -> Seq<(Seq<char>, Seq<char>)> {
    cmds.map_values(|c: RenameCommand| (c.old_path@, c.new_path@))
}

/// Plan the whole batch: walk the listing in order, skip directories and
/// files the pipeline skips, collect a rename for every file whose name
/// changes, and stop at the first malformed name.  Files after a malformed
/// name contribute nothing: the run aborts there.
pub fn plan_batch(cfg: &Config, entries: &Vec<DirEntry>) -> (r: BatchPlan)
    ensures
        r.malformed == spec_batch_malformed(*cfg, entries@),
        spec_commands_view(r.commands@) == spec_batch_commands(*cfg, entries@),
{
    let mut commands: Vec<RenameCommand> = Vec::new();
    let mut i: usize = 0;
    proof {
        assert(entries@.skip(0) =~= entries@);
        assert(spec_commands_view(commands@) =~= Seq::<(Seq<char>, Seq<char>)>::empty());
        assert(Seq::<(Seq<char>, Seq<char>)>::empty() + spec_batch_commands(*cfg, entries@)
            =~= spec_batch_commands(*cfg, entries@));
    }
    while i < entries.len()
        invariant
            i <= entries@.len(),
            spec_batch_malformed(*cfg, entries@) == spec_batch_malformed(
                *cfg,
                entries@.skip(i as int),
            ),
            spec_batch_commands(*cfg, entries@) == spec_commands_view(commands@)
                + spec_batch_commands(*cfg, entries@.skip(i as int)),
        decreases entries@.len() - i,
    {
        let ghost rest = entries@.skip(i as int);
        proof {
            assert(rest[0] == entries@[i as int]);
            assert(rest.skip(1) =~= entries@.skip(i + 1));
        }
        let e = &entries[i];
        if !e.is_directory {
            match plan_rename(cfg, e.name.as_str()) {
                Result::Ok(report) => {
                    match report.outcome {
                        FileOutcome::Renamed { baseline, new_name, descriptor } => {
                            let new_path = new_full_path(
                                e.full_path.as_str(),
                                e.name.as_str(),
                                baseline.as_str(),
                                new_name.as_str(),
                                &descriptor,
                            );
                            let ghost before = commands@;
                            commands.push(
                                RenameCommand { old_path: e.full_path.clone(), new_path },
                            );
                            proof {
                                assert(spec_commands_view(commands@) =~= spec_commands_view(before)
                                    + seq![spec_entry_command(*cfg, entries@[i as int])]);
                                assert((spec_commands_view(before) + seq![
                                    spec_entry_command(*cfg, entries@[i as int]),
                                ]) + spec_batch_commands(*cfg, entries@.skip(i + 1))
                                    =~= spec_commands_view(before) + (seq![
                                    spec_entry_command(*cfg, entries@[i as int]),
                                ] + spec_batch_commands(*cfg, entries@.skip(i + 1))));
                            }
                        },
                        _ => {},
                    }
                },
                Result::Err(_) => {
                    proof {
                        assert(spec_batch_commands(*cfg, rest) =~= Seq::<
                            (Seq<char>, Seq<char>),
                        >::empty());
                        assert(spec_commands_view(commands@) + Seq::<
                            (Seq<char>, Seq<char>),
                        >::empty() =~= spec_commands_view(commands@));
                    }
                    return BatchPlan { commands, malformed: true };
                },
            }
        }
        i = i + 1;
    }
    proof {
        assert(entries@.skip(i as int) =~= Seq::<DirEntry>::empty());
        assert(spec_commands_view(commands@) + Seq::<(Seq<char>, Seq<char>)>::empty()
            =~= spec_commands_view(commands@));
    }
    BatchPlan { commands, malformed: false }
}

} // verus!
