use std::collections::HashMap;

use win_search::config::Config;
use win_search::frontier::{Frontier, Next};
use win_search::pattern::Pattern;
use win_search::run;
use win_search::tree::DirTree;
use win_search::worker::{expand, Entry};

fn texts(list: &[&str]) -> Vec<String> {
    list.iter().map(|w| w.to_string()).collect()
}

fn dir(path: &str, files: &[&str], dirs: Vec<DirTree>) -> DirTree {
    DirTree { path: path.to_string(), files: texts(files), dirs, failure: None }
}

fn locked(path: &str, cause: &str) -> DirTree {
    DirTree {
        path: path.to_string(),
        files: Vec::new(),
        dirs: Vec::new(),
        failure: Some(cause.to_string()),
    }
}

fn sample() -> DirTree {
    dir(
        "r",
        &["r/a1", "r/b1"],
        vec![
            dir(
                "r/x",
                &["r/x/a2"],
                vec![dir("r/x/p", &["r/x/p/a3", "r/x/p/b3"], Vec::new()), locked("r/x/q", "denied")],
            ),
            dir("r/y", &[], vec![dir("r/y/a", &["r/y/a/c"], Vec::new())]),
            locked("r/z", "gone"),
        ],
    )
}

fn index<'a>(tree: &'a DirTree, into: &mut HashMap<String, &'a DirTree>) {
    into.insert(tree.path.clone(), tree);
    for sub in &tree.dirs {
        index(sub, into);
    }
}

fn list(disk: &HashMap<String, &DirTree>, path: &str) -> Result<Vec<Entry>, String> {
    match disk.get(path) {
        Some(tree) => tree.listing(),
        None => Err("No such file or directory".to_string()),
    }
}

fn sorted(mut lines: Vec<String>) -> Vec<String> {
    lines.sort();
    lines
}

/// Plays a pool of `workers` workers that take turns: a worker that holds a
/// directory hands it in, one that holds none asks for one.
fn take_turns(tree: &DirTree, target: &str, workers: usize) -> (Vec<String>, Vec<String>, usize) {
    let mut disk = HashMap::new();
    index(tree, &mut disk);
    let pattern = Pattern::new(target, false);
    let mut frontier = Frontier::new();
    frontier.push(tree.path.clone());
    let mut holding: Vec<Option<String>> = vec![None; workers];
    let mut done = vec![false; workers];
    let mut matches = Vec::new();
    let mut complaints = Vec::new();
    let mut waits = 0;
    let mut turn = 0;
    while done.iter().any(|d| !d) {
        let me = turn % workers;
        turn += 1;
        if done[me] {
            continue;
        }
        match holding[me].take() {
            Some(path) => {
                let found = expand(&path, &list(&disk, &path), &pattern);
                matches.extend(found.matches);
                complaints.extend(found.complaint);
                assert!(frontier.in_flight() > 0);
                frontier.finish(found.subdirs);
            }
            None => match frontier.next() {
                Next::Expand(path) => holding[me] = Some(path),
                Next::Wait => waits += 1,
                Next::Done => done[me] = true,
            },
        }
        assert!(turn < 10_000);
    }
    assert!(frontier.is_finished());
    (matches, complaints, waits)
}

#[test]
fn workers_that_take_turns_find_what_the_rounds_find() {
    let tree = sample();
    let config = Config::build(texts(&["search", "a", "--dir", "r"])).unwrap();
    let report = run(config, &tree);
    let expected = texts(&["r/a1", "r/x/a2", "r/x/p/a3", "r/y/a", "r/y/a/c"]);
    assert_eq!(sorted(report.matches), expected);
    let expected_complaints = texts(&[
        "Unable to read directory r/x/q: denied",
        "Unable to read directory r/z: gone",
    ]);
    assert_eq!(sorted(report.complaints), expected_complaints);
    for workers in [1, 2, 3, 7] {
        let (matches, complaints, _) = take_turns(&tree, "a", workers);
        assert_eq!(sorted(matches), expected, "with {} workers", workers);
        assert_eq!(sorted(complaints), expected_complaints, "with {} workers", workers);
    }
}

#[test]
fn a_worker_that_finds_the_frontier_empty_waits_for_the_others() {
    let tree = dir("r", &[], vec![dir("r/only", &["r/only/a"], Vec::new())]);
    let (matches, complaints, waits) = take_turns(&tree, "a", 2);
    assert_eq!(matches, texts(&["r/only/a"]));
    assert!(complaints.is_empty());
    assert!(waits > 0);
}

#[test]
fn a_directory_that_vanished_is_complained_of_and_passed_over() {
    let disk = HashMap::new();
    let found = expand("r/gone", &list(&disk, "r/gone"), &Pattern::new("a", false));
    assert!(found.matches.is_empty());
    assert!(found.subdirs.is_empty());
    assert_eq!(
        found.complaint,
        Some("Unable to read directory r/gone: No such file or directory".to_string())
    );
}
