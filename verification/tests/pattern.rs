use win_search::pattern::Pattern;

#[test]
fn a_pattern_matches_a_path_that_holds_the_target() {
    let pattern = Pattern::new("a", false);
    assert!(pattern.is_match("root/a.txt"));
    assert!(pattern.is_match("root/sub/a_copy.txt"));
    assert!(!pattern.is_match("root/sub/b.txt"));
    assert!(!pattern.is_match("root/sub"));
}

#[test]
fn a_pattern_tests_the_whole_path() {
    let pattern = Pattern::new("sub", false);
    assert!(pattern.is_match("root/sub"));
    assert!(pattern.is_match("root/sub/b.txt"));
    assert!(!pattern.is_match("root/b.txt"));
}

#[test]
fn a_pattern_keeps_case_unless_told_otherwise() {
    let pattern = Pattern::new("A", false);
    assert!(!pattern.is_match("root/a.txt"));
    assert!(pattern.is_match("root/A.txt"));
}

#[test]
fn a_pattern_that_ignores_case_folds_target_and_path() {
    let pattern = Pattern::new("A.TXT", true);
    assert!(pattern.is_match("root/a.txt"));
    assert!(pattern.is_match("ROOT/A.TXT"));
    assert!(pattern.is_match("root/a.Txt"));
    assert!(!pattern.is_match("root/b.txt"));
}

#[test]
fn folding_follows_unicode() {
    let pattern = Pattern::new("ÄRGER", true);
    assert!(pattern.is_match("notes/ärger.md"));
    let pattern = Pattern::new("ärger", true);
    assert!(pattern.is_match("notes/ÄRGER.md"));
}

#[test]
fn the_empty_target_is_in_every_path() {
    assert!(Pattern::new("", false).is_match("root"));
    assert!(Pattern::new("", false).is_match(""));
    assert!(Pattern::new("", true).is_match("Root"));
}

#[test]
fn found_in_looks_for_the_needle_as_it_stands() {
    let pattern = Pattern::folded_to("a".to_string(), true);
    assert!(pattern.found_in("xa"));
    assert!(pattern.found_in("a"));
    assert!(!pattern.found_in("xA"));
    assert!(!pattern.found_in(""));
}

#[test]
fn a_needle_that_was_not_folded_is_not_found_in_folded_paths() {
    let pattern = Pattern::folded_to("A".to_string(), true);
    assert!(!pattern.is_match("root/A.txt"));
    assert!(!pattern.is_match("root/a.txt"));
}

#[test]
fn a_longer_needle_is_never_found() {
    let pattern = Pattern::new("root/a.txt.bak", false);
    assert!(!pattern.is_match("root/a.txt"));
}
