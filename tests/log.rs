use gossip_node::log::{committed_after, LocalLog, POLL_LIMIT};

fn k(s: &str) -> String {
    s.to_string()
}

#[test]
fn poll_after_two_sends_returns_both_in_offset_order() {
    let mut log = LocalLog::new();
    assert_eq!(log.send(&k("k"), 11), 0);
    assert_eq!(log.send(&k("k"), 22), 1);
    assert_eq!(log.poll(&k("k"), 0), vec![(0, 11), (1, 22)]);
    let all = log.poll_many(&vec![(k("k"), 0)]);
    assert_eq!(all, vec![(k("k"), vec![(0, 11), (1, 22)])]);
}

#[test]
fn offsets_are_dense_per_key() {
    let mut log = LocalLog::new();
    assert_eq!(log.send(&k("a"), 1), 0);
    assert_eq!(log.send(&k("b"), 2), 0);
    assert_eq!(log.send(&k("a"), 3), 1);
    assert_eq!(log.send(&k("a"), 4), 2);
    assert_eq!(log.send(&k("b"), 5), 1);
    assert_eq!(log.poll(&k("a"), 1), vec![(1, 3), (2, 4)]);
}

#[test]
fn poll_returns_at_most_the_limit() {
    let mut log = LocalLog::new();
    for v in 0..150u64 {
        log.send(&k("k"), v * 10);
    }
    let first = log.poll(&k("k"), 0);
    assert_eq!(first.len() as u64, POLL_LIMIT);
    assert_eq!(first[0], (0, 0));
    assert_eq!(first[99], (99, 990));
    let rest = log.poll(&k("k"), 120);
    assert_eq!(rest.len(), 30);
    assert_eq!(rest[0], (120, 1200));
    assert_eq!(rest[29], (149, 1490));
}

#[test]
fn poll_past_the_end_or_of_an_unknown_key_is_empty() {
    let mut log = LocalLog::new();
    log.send(&k("k"), 1);
    assert!(log.poll(&k("k"), 1).is_empty());
    assert!(log.poll(&k("k"), u64::MAX).is_empty());
    assert!(log.poll(&k("other"), 0).is_empty());
    assert_eq!(log.poll_many(&vec![(k("other"), 0)]), vec![(k("other"), vec![])]);
}

#[test]
fn a_lower_commit_does_not_regress() {
    let mut log = LocalLog::new();
    log.commit(&k("k"), 5);
    log.commit(&k("k"), 3);
    assert_eq!(log.committed(&k("k")), Some(5));
    log.commit(&k("k"), 8);
    assert_eq!(log.committed(&k("k")), Some(8));
}

#[test]
fn committing_twice_equals_committing_once() {
    let mut log = LocalLog::new();
    log.commit(&k("k"), 4);
    log.commit(&k("k"), 4);
    assert_eq!(log.committed(&k("k")), Some(4));
}

#[test]
fn commit_many_takes_the_maximum_per_key() {
    let mut log = LocalLog::new();
    log.send(&k("a"), 1);
    log.commit_many(&vec![(k("a"), 2), (k("b"), 7), (k("a"), 1)]);
    assert_eq!(log.committed(&k("a")), Some(2));
    assert_eq!(log.committed(&k("b")), Some(7));
    assert_eq!(log.poll(&k("a"), 0), vec![(0, 1)]);
}

#[test]
fn listing_leaves_out_keys_without_a_commit() {
    let mut log = LocalLog::new();
    log.send(&k("a"), 1);
    log.commit(&k("b"), 3);
    let listed = log.list_committed(&vec![k("a"), k("b"), k("c")]);
    assert_eq!(listed, vec![(k("b"), 3)]);
    assert!(log.list_committed(&vec![]).is_empty());
}

#[test]
fn committed_after_takes_the_maximum() {
    assert_eq!(committed_after(None, 4), 4);
    assert_eq!(committed_after(Some(9), 4), 9);
    assert_eq!(committed_after(Some(2), 4), 4);
}

#[test]
fn commits_in_any_order_agree() {
    let commits = vec![(k("a"), 3), (k("b"), 1), (k("a"), 9), (k("a"), 4)];
    let mut reversed = commits.clone();
    reversed.reverse();
    let mut x = LocalLog::new();
    let mut y = LocalLog::new();
    x.commit_many(&commits);
    y.commit_many(&reversed);
    for key in ["a", "b", "c"] {
        assert_eq!(x.committed(&k(key)), y.committed(&k(key)));
    }
    assert_eq!(x.committed(&k("a")), Some(9));
    assert_eq!(x.committed(&k("c")), None);
}
