use win_search::text::{parse_count, same, starts_with};

#[test]
fn parse_count_reads_plain_digits() {
    assert_eq!(parse_count("8"), Some(8));
    assert_eq!(parse_count("0"), Some(0));
    assert_eq!(parse_count("120"), Some(120));
}

#[test]
fn parse_count_accepts_a_plus_sign_and_leading_zeros() {
    assert_eq!(parse_count("+8"), Some(8));
    assert_eq!(parse_count("007"), Some(7));
    assert_eq!(parse_count("+007"), Some(7));
}

#[test]
fn parse_count_rejects_what_is_no_count() {
    assert_eq!(parse_count(""), None);
    assert_eq!(parse_count("+"), None);
    assert_eq!(parse_count("-1"), None);
    assert_eq!(parse_count("++1"), None);
    assert_eq!(parse_count("12a"), None);
    assert_eq!(parse_count(" 12"), None);
    assert_eq!(parse_count("12 "), None);
    assert_eq!(parse_count("1.5"), None);
    assert_eq!(parse_count("\u{0663}"), None);
}

#[test]
fn parse_count_stops_at_the_machine_word() {
    let largest = usize::MAX.to_string();
    assert_eq!(parse_count(&largest), Some(usize::MAX));
    let too_large = format!("{}0", largest);
    assert_eq!(parse_count(&too_large), None);
    let one_more = (usize::MAX as u128 + 1).to_string();
    assert_eq!(parse_count(&one_more), None);
}

#[test]
fn parse_count_agrees_with_the_standard_library() {
    let samples = [
        "", "0", "1", "42", "+42", "-42", "+", "-", "4 2", "0x10", "999", "00", "+0", "1e3", "१२",
        "18446744073709551615", "18446744073709551616", "4294967295", "4294967296",
    ];
    for sample in samples {
        assert_eq!(parse_count(sample), sample.parse::<usize>().ok(), "on {:?}", sample);
    }
}

#[test]
fn starts_with_tests_the_beginning() {
    assert!(starts_with("--dir", "--"));
    assert!(starts_with("--", "--"));
    assert!(starts_with("-ic", "-"));
    assert!(starts_with("anything", ""));
    assert!(!starts_with("-", "--"));
    assert!(!starts_with("a--", "--"));
    assert!(!starts_with("", "-"));
}

#[test]
fn starts_with_counts_characters_not_bytes() {
    assert!(starts_with("übung", "ü"));
    assert!(!starts_with("übung", "u"));
    assert!(starts_with("日本語", "日本"));
}

#[test]
fn same_compares_whole_texts() {
    assert!(same("--dir", "--dir"));
    assert!(same("", ""));
    assert!(!same("--dir", "--dirs"));
    assert!(!same("--dirs", "--dir"));
    assert!(!same("-ic", "-iC"));
}
