use win_search::frontier::{Frontier, Next};

#[test]
fn a_new_frontier_is_finished() {
    let mut frontier = Frontier::new();
    assert!(frontier.is_finished());
    assert_eq!(frontier.len(), 0);
    assert_eq!(frontier.in_flight(), 0);
    assert_eq!(frontier.next(), Next::Done);
    assert_eq!(frontier.pop(), None);
    assert_eq!(frontier.in_flight(), 0);
}

#[test]
fn pop_takes_the_path_pushed_last() {
    let mut frontier = Frontier::new();
    frontier.push("root/a".to_string());
    frontier.push("root/b".to_string());
    assert_eq!(frontier.len(), 2);
    assert_eq!(frontier.pop(), Some("root/b".to_string()));
    assert_eq!(frontier.pop(), Some("root/a".to_string()));
    assert_eq!(frontier.pop(), None);
    assert_eq!(frontier.in_flight(), 2);
    assert_eq!(frontier.len(), 0);
}

#[test]
fn an_empty_frontier_with_work_in_flight_is_not_finished() {
    let mut frontier = Frontier::new();
    frontier.push("root".to_string());
    assert_eq!(frontier.next(), Next::Expand("root".to_string()));
    assert_eq!(frontier.len(), 0);
    assert!(!frontier.is_finished());
    assert_eq!(frontier.next(), Next::Wait);
    assert_eq!(frontier.in_flight(), 1);
    frontier.finish(vec!["root/sub".to_string()]);
    assert_eq!(frontier.in_flight(), 0);
    assert_eq!(frontier.next(), Next::Expand("root/sub".to_string()));
    frontier.finish(Vec::new());
    assert_eq!(frontier.next(), Next::Done);
    assert!(frontier.is_finished());
}

#[test]
fn every_worker_that_asks_gets_a_directory_while_one_waits() {
    let mut frontier = Frontier::new();
    frontier.push("a".to_string());
    frontier.push("b".to_string());
    frontier.push("c".to_string());
    assert_eq!(frontier.next(), Next::Expand("c".to_string()));
    assert_eq!(frontier.next(), Next::Expand("b".to_string()));
    assert_eq!(frontier.next(), Next::Expand("a".to_string()));
    assert_eq!(frontier.next(), Next::Wait);
    assert_eq!(frontier.in_flight(), 3);
    frontier.finish(Vec::new());
    frontier.finish(Vec::new());
    assert_eq!(frontier.next(), Next::Wait);
    frontier.finish(Vec::new());
    assert_eq!(frontier.next(), Next::Done);
}

#[test]
fn finish_lets_the_found_directories_wait_in_their_order() {
    let mut frontier = Frontier::new();
    frontier.push("root".to_string());
    assert_eq!(frontier.pop(), Some("root".to_string()));
    frontier.finish(vec!["root/x".to_string(), "root/y".to_string()]);
    assert_eq!(frontier.len(), 2);
    assert_eq!(frontier.in_flight(), 0);
    assert_eq!(frontier.pop(), Some("root/y".to_string()));
    frontier.finish(Vec::new());
    assert_eq!(frontier.pop(), Some("root/x".to_string()));
    frontier.finish(Vec::new());
    assert!(frontier.is_finished());
}

#[test]
fn a_push_does_not_count_as_work_in_flight() {
    let mut frontier = Frontier::new();
    frontier.push("a".to_string());
    assert_eq!(frontier.in_flight(), 0);
    assert!(!frontier.is_finished());
    assert_eq!(frontier.len(), 1);
}
