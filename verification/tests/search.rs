use win_search::config::Config;
use win_search::tree::DirTree;
use win_search::{run, Report, FINISHED};

fn words(list: &[&str]) -> Vec<String> {
    list.iter().map(|w| w.to_string()).collect()
}

fn dir(path: &str, files: &[&str], dirs: Vec<DirTree>) -> DirTree {
    DirTree { path: path.to_string(), files: words(files), dirs, failure: None }
}

fn locked(path: &str, cause: &str) -> DirTree {
    DirTree {
        path: path.to_string(),
        files: Vec::new(),
        dirs: Vec::new(),
        failure: Some(cause.to_string()),
    }
}

fn sorted(mut lines: Vec<String>) -> Vec<String> {
    lines.sort();
    lines
}

fn search(args: &[&str], tree: &DirTree) -> Report {
    let mut line = vec!["win-search"];
    line.extend_from_slice(args);
    run(Config::build(words(&line)).unwrap(), tree)
}

fn example_tree() -> DirTree {
    dir(
        "root",
        &["root/a.txt"],
        vec![dir("root/sub", &["root/sub/a_copy.txt", "root/sub/b.txt"], Vec::new())],
    )
}

fn wide_tree() -> DirTree {
    dir(
        "top",
        &["top/readme.md", "top/Makefile"],
        vec![
            dir(
                "top/src",
                &["top/src/main.rs", "top/src/lib.rs"],
                vec![
                    dir("top/src/bin", &["top/src/bin/tool.rs"], Vec::new()),
                    dir(
                        "top/src/util",
                        &["top/src/util/text.rs", "top/src/util/README.md"],
                        vec![dir("top/src/util/deep", &["top/src/util/deep/x.rs"], Vec::new())],
                    ),
                ],
            ),
            locked("top/private", "Permission denied (os error 13)"),
            dir("top/docs", &["top/docs/guide.md"], vec![dir("top/docs/img", &[], Vec::new())]),
            dir("top/empty", &[], Vec::new()),
        ],
    )
}

fn lower(tree: &DirTree) -> DirTree {
    DirTree {
        path: tree.path.to_lowercase(),
        files: tree.files.iter().map(|f| f.to_lowercase()).collect(),
        dirs: tree.dirs.iter().map(lower).collect(),
        failure: tree.failure.clone(),
    }
}

#[test]
fn finds_entries_in_the_example_tree() {
    let report = search(&["a", "--dir", "root"], &example_tree());
    assert_eq!(sorted(report.matches), words(&["root/a.txt", "root/sub/a_copy.txt"]));
    assert!(report.complaints.is_empty());
}

#[test]
fn finds_the_same_entries_with_case_ignored() {
    let report = search(&["A", "-ic", "--dir", "root"], &example_tree());
    assert_eq!(sorted(report.matches), words(&["root/a.txt", "root/sub/a_copy.txt"]));
    assert!(report.complaints.is_empty());
}

#[test]
fn finds_nothing_for_a_target_in_the_wrong_case() {
    let report = search(&["A", "--dir", "root"], &example_tree());
    assert!(report.matches.is_empty());
}

#[test]
fn reports_an_unreadable_directory_and_goes_on() {
    let tree = dir(
        "root",
        &["root/a.txt"],
        vec![
            locked("root/locked", "Permission denied"),
            dir("root/sub", &["root/sub/a2"], Vec::new()),
        ],
    );
    let report = search(&["a", "--dir", "root"], &tree);
    assert_eq!(
        report.complaints,
        words(&["Unable to read directory root/locked: Permission denied"])
    );
    assert_eq!(sorted(report.matches), words(&["root/a.txt", "root/sub/a2"]));
}

#[test]
fn reports_an_unreadable_directory_that_matches() {
    let tree = dir("root", &[], vec![locked("root/locked", "Permission denied")]);
    let report = search(&["lock", "--dir", "root"], &tree);
    assert_eq!(report.matches, words(&["root/locked"]));
    assert_eq!(
        report.complaints,
        words(&["Unable to read directory root/locked: Permission denied"])
    );
}

#[test]
fn sees_nothing_below_an_unreadable_directory() {
    let tree = dir(
        "root",
        &[],
        vec![DirTree {
            path: "root/locked".to_string(),
            files: words(&["root/locked/a.txt"]),
            dirs: vec![dir("root/locked/a", &["root/locked/a/a"], Vec::new())],
            failure: Some("Permission denied".to_string()),
        }],
    );
    let report = search(&["a", "--dir", "root"], &tree);
    assert!(report.matches.is_empty());
    assert_eq!(report.complaints.len(), 1);
}

#[test]
fn complains_of_an_unreadable_root_under_the_configured_path() {
    let tree = locked("elsewhere", "No such file or directory");
    let report = search(&["a", "--dir", "gone"], &tree);
    assert!(report.matches.is_empty());
    assert_eq!(
        report.complaints,
        words(&["Unable to read directory gone: No such file or directory"])
    );
}

#[test]
fn does_not_report_the_root_itself() {
    let tree = dir("root", &["root/x"], Vec::new());
    let report = search(&["root", "--dir", "root"], &tree);
    assert_eq!(report.matches, words(&["root/x"]));
    let tree = dir("root", &[], Vec::new());
    let report = search(&["root", "--dir", "root"], &tree);
    assert!(report.matches.is_empty());
}

#[test]
fn a_target_in_a_directory_name_matches_everything_below() {
    let report = search(&["sub", "--dir", "root"], &example_tree());
    assert_eq!(
        sorted(report.matches),
        words(&["root/sub", "root/sub/a_copy.txt", "root/sub/b.txt"])
    );
}

#[test]
fn expands_a_directory_that_does_not_match() {
    let report = search(&["a_copy", "--dir", "root"], &example_tree());
    assert_eq!(report.matches, words(&["root/sub/a_copy.txt"]));
}

#[test]
fn the_empty_target_reports_every_entry() {
    let report = search(&["", "--dir", "top"], &wide_tree());
    assert_eq!(
        sorted(report.matches),
        sorted(words(&[
            "top/readme.md",
            "top/Makefile",
            "top/src",
            "top/private",
            "top/docs",
            "top/empty",
            "top/src/main.rs",
            "top/src/lib.rs",
            "top/src/bin",
            "top/src/util",
            "top/src/bin/tool.rs",
            "top/src/util/text.rs",
            "top/src/util/README.md",
            "top/src/util/deep",
            "top/src/util/deep/x.rs",
            "top/docs/guide.md",
            "top/docs/img",
        ]))
    );
    assert_eq!(
        report.complaints,
        words(&["Unable to read directory top/private: Permission denied (os error 13)"])
    );
}

#[test]
fn an_empty_tree_gives_an_empty_report() {
    let report = search(&["a", "--dir", "root"], &dir("root", &[], Vec::new()));
    assert_eq!(report, Report { matches: Vec::new(), complaints: Vec::new() });
}

#[test]
fn the_number_of_workers_does_not_change_what_is_found() {
    let one = search(&[".rs", "--dir", "top", "--workers", "1"], &wide_tree());
    let expected = sorted(words(&[
        "top/src/main.rs",
        "top/src/lib.rs",
        "top/src/bin/tool.rs",
        "top/src/util/text.rs",
        "top/src/util/deep/x.rs",
    ]));
    assert_eq!(sorted(one.matches), expected);
    for workers in ["2", "3", "4", "8", "100"] {
        let many = search(&[".rs", "--dir", "top", "--workers", workers], &wide_tree());
        assert_eq!(sorted(many.matches), expected, "with {} workers", workers);
        assert_eq!(many.complaints, one.complaints, "with {} workers", workers);
    }
}

#[test]
fn the_default_number_of_workers_finds_the_same() {
    let one = search(&["md", "--dir", "top", "--workers", "1"], &wide_tree());
    let default = search(&["md", "--dir", "top"], &wide_tree());
    let found = sorted(default.matches);
    assert_eq!(sorted(one.matches), found);
    assert_eq!(found, words(&["top/docs/guide.md", "top/readme.md", "top/src/util/README.md"]));
}

#[test]
fn no_path_is_reported_twice() {
    for workers in ["1", "2", "5"] {
        let report = search(&["", "--dir", "top", "--workers", workers], &wide_tree());
        let lines = sorted(report.matches);
        let mut distinct = lines.clone();
        distinct.dedup();
        assert_eq!(lines, distinct);
        assert_eq!(lines.len(), 17);
    }
}

#[test]
fn an_entry_that_stands_twice_in_the_tree_is_reported_twice() {
    let tree = dir("root", &["root/a", "root/a"], Vec::new());
    let report = search(&["a", "--dir", "root"], &tree);
    assert_eq!(report.matches, words(&["root/a", "root/a"]));
}

#[test]
fn ignoring_case_is_searching_the_tree_in_lower_case() {
    let tree = wide_tree();
    let ignoring = search(&["README", "-ic", "--dir", "top"], &tree);
    let lowered = search(&["readme", "--dir", "top"], &lower(&tree));
    let folded: Vec<String> = ignoring.matches.iter().map(|m| m.to_lowercase()).collect();
    assert_eq!(sorted(folded), sorted(lowered.matches));
    assert_eq!(
        sorted(ignoring.matches),
        words(&["top/readme.md", "top/src/util/README.md"])
    );
}

#[test]
fn keeping_case_tells_upper_from_lower() {
    let report = search(&["README", "--dir", "top"], &wide_tree());
    assert_eq!(report.matches, words(&["top/src/util/README.md"]));
}

#[test]
fn the_status_line_is_the_documented_one() {
    assert_eq!(FINISHED, "Finished Searching");
}
