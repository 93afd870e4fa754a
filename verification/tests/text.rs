use renamer::tags::{relocate_tags, scan_tags, PipelineError};
use renamer::text::{contains_pat, find_first, replace_all, replace_first};

#[test]
fn replace_all_is_non_overlapping_left_to_right() {
    assert_eq!(replace_all("aaa", "aa", "b"), "ba");
    assert_eq!(replace_all("foobarfoo", "foo", "x"), "xbarx");
    assert_eq!(replace_all("abc", "zz", "x"), "abc");
}

#[test]
fn replace_all_with_empty_pattern_inserts_at_every_boundary() {
    assert_eq!(replace_all("ab", "", "-"), "-a-b-");
    assert_eq!(replace_all("", "", "-"), "-");
    assert_eq!(replace_all("abc", "", ""), "abc");
}

#[test]
fn deleting_a_match_can_leave_a_fresh_match_at_the_junction() {
    assert_eq!(replace_all("aabb", "ab", ""), "ab");
}

#[test]
fn replace_first_touches_only_the_first_occurrence() {
    assert_eq!(replace_first("a.txt_b.txt", ".txt", ""), "a_b.txt");
    assert_eq!(replace_first("abcabc", "bc", "X"), "aXabc");
    assert_eq!(replace_first("abc", "zz", "X"), "abc");
}

#[test]
fn find_first_returns_the_leftmost_position() {
    assert_eq!(find_first("abcabc", "bc"), Some(1));
    assert_eq!(find_first("abc", "zz"), None);
    assert_eq!(find_first("abc", ""), Some(0));
    assert!(contains_pat("abc", "bc"));
    assert!(!contains_pat("abc", "cb"));
}

#[test]
fn scan_captures_bracket_tags_in_order() {
    let tags = scan_tags("a[b]c[d]e").unwrap();
    assert_eq!(tags, vec![String::from("[b]"), String::from("[d]")]);
    let none = scan_tags("abc").unwrap();
    assert!(none.is_empty());
}

#[test]
fn scan_tracks_only_the_most_recent_open_bracket() {
    // The second `[` overwrites the candidate start and bumps the counter
    // out of parity, so the `]` that follows is out of parity too.
    assert!(matches!(scan_tags("x[[a]b"), Err(PipelineError::UnmatchedBracket)));
    assert!(matches!(scan_tags("[[a]]"), Err(PipelineError::UnmatchedBracket)));
}

#[test]
fn stray_closing_bracket_is_malformed() {
    assert!(matches!(scan_tags("a]b"), Err(PipelineError::UnmatchedBracket)));
    assert!(matches!(scan_tags("[a]x]"), Err(PipelineError::UnmatchedBracket)));
}

#[test]
fn relocation_moves_tags_to_the_end_in_discovery_order() {
    let tags = scan_tags("a[b]c[d]e").unwrap();
    assert_eq!(relocate_tags("a[b]c[d]e", &tags), "ace[b][d]");
}

#[test]
fn relocation_preserves_the_characters() {
    let input = "a[b]c[d]e";
    let tags = scan_tags(input).unwrap();
    let output = relocate_tags(input, &tags);
    let mut want: Vec<char> = input.chars().collect();
    let mut got: Vec<char> = output.chars().collect();
    want.sort();
    got.sort();
    assert_eq!(want, got);
}

#[test]
fn relocation_removes_the_first_textual_occurrence() {
    // The tag text also occurs earlier in the name: the earlier copy is the
    // one removed.
    let tags = scan_tags("x[a]y[a]").unwrap();
    assert_eq!(tags, vec![String::from("[a]"), String::from("[a]")]);
    assert_eq!(relocate_tags("x[a]y[a]", &tags), "xy[a][a]");
}
