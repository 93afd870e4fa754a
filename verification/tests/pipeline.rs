use renamer::descriptor::{descriptor_mode_of, return_descriptor_type, DescriptorMode};
use renamer::pipeline::{
    new_full_path, plan_batch, plan_rename, validate_options, Config, DirEntry, FileOutcome,
};
use renamer::tags::PipelineError;

fn entry(name: &str, path: &str) -> DirEntry {
    DirEntry { name: String::from(name), full_path: String::from(path), is_directory: false }
}

fn renamed_parts(cfg: &Config, name: &str) -> (String, String, Option<String>) {
    match plan_rename(cfg, name) {
        Ok(report) => match report.outcome {
            FileOutcome::Renamed { baseline, new_name, descriptor } => {
                (baseline, new_name, descriptor)
            }
            _ => panic!("expected a rename for {}", name),
        },
        Err(_) => panic!("unexpected malformed name {}", name),
    }
}

#[test]
fn auto_detect_without_dot_yields_none() {
    assert_eq!(return_descriptor_type(&String::from("abc")), None);
    assert_eq!(return_descriptor_type(&String::from("")), None);
    assert_eq!(return_descriptor_type(&String::from("my file")), None);
}

#[test]
fn auto_detect_takes_suffix_from_last_dot() {
    assert_eq!(return_descriptor_type(&String::from("a.b.txt")), Some(String::from(".txt")));
    assert_eq!(return_descriptor_type(&String::from("photo.jpeg")), Some(String::from(".jpeg")));
    assert_eq!(return_descriptor_type(&String::from("abc.")), Some(String::from(".")));
}

#[test]
fn auto_detect_without_dot_leaves_working_name_unchanged() {
    let cfg = Config {
        descriptor_mode: DescriptorMode::AutoDetect,
        space_replace: Some(true),
        match_replace: None,
        clean_tags: false,
    };
    let report = plan_rename(&cfg, "my file").unwrap();
    assert!(report.no_descriptor_found);
    match report.outcome {
        FileOutcome::Renamed { baseline, new_name, descriptor } => {
            assert_eq!(baseline, "my file");
            assert_eq!(new_name, "my_file");
            assert_eq!(descriptor, None);
        }
        _ => panic!("expected a rename"),
    }
}

#[test]
fn space_replace_rewrites_spaces_to_underscores() {
    let cfg = Config {
        descriptor_mode: DescriptorMode::NoType,
        space_replace: Some(true),
        match_replace: None,
        clean_tags: false,
    };
    let (baseline, new_name, descriptor) = renamed_parts(&cfg, "my file.txt");
    assert_eq!(baseline, "my file.txt");
    assert_eq!(new_name, "my_file.txt");
    assert_eq!(descriptor, None);
}

#[test]
fn space_replace_off_skips_the_file() {
    let cfg = Config {
        descriptor_mode: DescriptorMode::NoType,
        space_replace: Some(false),
        match_replace: None,
        clean_tags: false,
    };
    let report = plan_rename(&cfg, "my file.txt").unwrap();
    assert!(matches!(report.outcome, FileOutcome::SkippedSpaceOff));
}

#[test]
fn delete_match_deletes_the_match() {
    let cfg = Config {
        descriptor_mode: DescriptorMode::NoType,
        space_replace: None,
        match_replace: Some((String::from("foo"), String::from("delete-match"))),
        clean_tags: false,
    };
    let (baseline, new_name, _) = renamed_parts(&cfg, "foobar.txt");
    assert_eq!(baseline, "foobar.txt");
    assert_eq!(new_name, "bar.txt");
}

#[test]
fn delete_match_second_pass_replaces_residue() {
    // Deleting "ab" from "aabb" leaves a fresh "ab" at the junction; the
    // substitution pass that follows the deletion pass then rewrites it.
    let cfg = Config {
        descriptor_mode: DescriptorMode::NoType,
        space_replace: None,
        match_replace: Some((String::from("ab"), String::from("delete-match"))),
        clean_tags: false,
    };
    let (_, new_name, _) = renamed_parts(&cfg, "aabb");
    assert_eq!(new_name, "delete-match");
}

#[test]
fn plain_replace_rewrites_every_occurrence() {
    let cfg = Config {
        descriptor_mode: DescriptorMode::NoType,
        space_replace: None,
        match_replace: Some((String::from("o"), String::from("0"))),
        clean_tags: false,
    };
    let (_, new_name, _) = renamed_parts(&cfg, "foo.mov");
    assert_eq!(new_name, "f00.m0v");
}

#[test]
fn literal_descriptor_absent_skips_with_zero_renames() {
    let cfg = Config {
        descriptor_mode: DescriptorMode::Literal(String::from(".png")),
        space_replace: Some(true),
        match_replace: None,
        clean_tags: false,
    };
    let report = plan_rename(&cfg, "a.txt").unwrap();
    assert!(matches!(report.outcome, FileOutcome::SkippedNotOfType));
    let plan = plan_batch(&cfg, &vec![entry("a.txt", "./a.txt")]);
    assert!(!plan.malformed);
    assert_eq!(plan.commands.len(), 0);
}

#[test]
fn literal_descriptor_is_stripped_and_reattached_last() {
    let cfg = Config {
        descriptor_mode: DescriptorMode::Literal(String::from("2023")),
        space_replace: Some(true),
        match_replace: None,
        clean_tags: false,
    };
    let (baseline, new_name, descriptor) = renamed_parts(&cfg, "report 2023 final");
    assert_eq!(baseline, "report  final");
    assert_eq!(new_name, "report__final");
    assert_eq!(descriptor, Some(String::from("2023")));
    let path = new_full_path(
        "/tmp/report 2023 final",
        "report 2023 final",
        &baseline,
        &new_name,
        &descriptor,
    );
    assert_eq!(path, "/tmp/report__final2023");
}

#[test]
fn tag_relocation_example() {
    let cfg = Config {
        descriptor_mode: DescriptorMode::AutoDetect,
        space_replace: None,
        match_replace: None,
        clean_tags: true,
    };
    let (baseline, new_name, descriptor) = renamed_parts(&cfg, "a[b]c[d]e.txt");
    assert_eq!(baseline, "a[b]c[d]e");
    assert_eq!(new_name, "ace[b][d]");
    assert_eq!(descriptor, Some(String::from(".txt")));
    let path = new_full_path("./a[b]c[d]e.txt", "a[b]c[d]e.txt", &baseline, &new_name, &descriptor);
    assert_eq!(path, "./ace[b][d].txt");
}

#[test]
fn unmatched_bracket_aborts_with_zero_renames() {
    let cfg = Config {
        descriptor_mode: DescriptorMode::NoType,
        space_replace: None,
        match_replace: None,
        clean_tags: true,
    };
    assert!(matches!(plan_rename(&cfg, "a]b"), Err(PipelineError::UnmatchedBracket)));
    let plan = plan_batch(&cfg, &vec![entry("a]b", "./a]b")]);
    assert!(plan.malformed);
    assert_eq!(plan.commands.len(), 0);
}

#[test]
fn malformed_name_stops_the_batch_after_earlier_renames() {
    let cfg = Config {
        descriptor_mode: DescriptorMode::NoType,
        space_replace: Some(true),
        match_replace: None,
        clean_tags: true,
    };
    let entries = vec![
        entry("a b", "./a b"),
        entry("x]y", "./x]y"),
        entry("c d", "./c d"),
    ];
    let plan = plan_batch(&cfg, &entries);
    assert!(plan.malformed);
    assert_eq!(plan.commands.len(), 1);
    assert_eq!(plan.commands[0].old_path, "./a b");
    assert_eq!(plan.commands[0].new_path, "./a_b");
}

#[test]
fn unchanged_name_triggers_no_rename() {
    let cfg = Config {
        descriptor_mode: DescriptorMode::NoType,
        space_replace: Some(true),
        match_replace: None,
        clean_tags: false,
    };
    let report = plan_rename(&cfg, "abc.txt").unwrap();
    assert!(matches!(report.outcome, FileOutcome::SkippedNoChange));
    let plan = plan_batch(&cfg, &vec![entry("abc.txt", "./abc.txt")]);
    assert!(!plan.malformed);
    assert_eq!(plan.commands.len(), 0);
}

#[test]
fn relocating_tags_already_at_the_end_changes_nothing() {
    let cfg = Config {
        descriptor_mode: DescriptorMode::NoType,
        space_replace: None,
        match_replace: None,
        clean_tags: true,
    };
    let report = plan_rename(&cfg, "x[a][a]").unwrap();
    assert!(matches!(report.outcome, FileOutcome::SkippedNoChange));
    assert!(!report.no_tags_found);
}

#[test]
fn no_tags_found_is_reported() {
    let cfg = Config {
        descriptor_mode: DescriptorMode::NoType,
        space_replace: None,
        match_replace: None,
        clean_tags: true,
    };
    let report = plan_rename(&cfg, "abc").unwrap();
    assert!(matches!(report.outcome, FileOutcome::SkippedNoChange));
    assert!(report.no_tags_found);
}

#[test]
fn second_run_on_transformed_name_is_a_skip() {
    let cfg = Config {
        descriptor_mode: DescriptorMode::NoType,
        space_replace: Some(true),
        match_replace: None,
        clean_tags: false,
    };
    let (_, first, _) = renamed_parts(&cfg, "my file one");
    assert_eq!(first, "my_file_one");
    let report = plan_rename(&cfg, &first).unwrap();
    assert!(matches!(report.outcome, FileOutcome::SkippedNoChange));
}

#[test]
fn directories_are_skipped_unconditionally() {
    let cfg = Config {
        descriptor_mode: DescriptorMode::NoType,
        space_replace: Some(true),
        match_replace: None,
        clean_tags: false,
    };
    let dir = DirEntry {
        name: String::from("my dir"),
        full_path: String::from("./my dir"),
        is_directory: true,
    };
    let plan = plan_batch(&cfg, &vec![dir]);
    assert!(!plan.malformed);
    assert_eq!(plan.commands.len(), 0);
}

#[test]
fn new_full_path_without_descriptor_replaces_original() {
    let path = new_full_path("./my file", "my file", "my file", "my_file", &None);
    assert_eq!(path, "./my_file");
}

#[test]
fn descriptor_mode_of_recognizes_the_directives() {
    assert!(matches!(
        descriptor_mode_of(&Some(String::from("auto-detect"))),
        DescriptorMode::AutoDetect
    ));
    assert!(matches!(descriptor_mode_of(&Some(String::from("no-type"))), DescriptorMode::NoType));
    assert!(matches!(descriptor_mode_of(&None), DescriptorMode::NoType));
    match descriptor_mode_of(&Some(String::from(".txt"))) {
        DescriptorMode::Literal(l) => assert_eq!(l, ".txt"),
        _ => panic!("expected a literal descriptor"),
    }
}

#[test]
fn validation_requires_an_active_transform() {
    // (clean_tags, space_replace, match_value, replace_value) present?
    assert!(!validate_options(false, false, false, false));
    assert!(!validate_options(false, false, true, false));
    assert!(!validate_options(false, false, false, true));
    assert!(!validate_options(false, true, true, false));
    assert!(validate_options(true, false, true, false));
    assert!(validate_options(false, true, false, false));
    assert!(validate_options(false, false, true, true));
    assert!(validate_options(true, false, false, false));
}

#[test]
fn do_nothing_does_nothing() {
    renamer::do_nothing();
}
