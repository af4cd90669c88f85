use gossip_node::cluster::peers;
use gossip_node::counter::GCounter;

fn ids(v: &[&str]) -> Vec<String> {
    v.iter().map(|s| s.to_string()).collect()
}

#[test]
fn two_nodes_converge_to_the_sum_of_their_adds() {
    let cluster = ids(&["a", "b"]);
    let mut a = GCounter::new("a".to_string(), &cluster);
    let mut b = GCounter::new("b".to_string(), &cluster);
    a.add(3);
    b.add(4);
    assert_eq!(a.read(), Some(3));
    assert!(a.merge(&"b".to_string(), b.contribution()));
    assert!(b.merge(&"a".to_string(), a.contribution()));
    assert_eq!(a.read(), Some(7));
    assert_eq!(b.read(), Some(7));
}

#[test]
fn a_stale_report_never_lowers_a_peer_count() {
    let cluster = ids(&["a", "b"]);
    let mut a = GCounter::new("a".to_string(), &cluster);
    a.merge(&"b".to_string(), 5);
    a.merge(&"b".to_string(), 3);
    assert_eq!(a.read(), Some(5));
}

#[test]
fn merging_a_report_twice_equals_merging_it_once() {
    let cluster = ids(&["a", "b", "c"]);
    let mut a = GCounter::new("a".to_string(), &cluster);
    a.merge(&"c".to_string(), 6);
    a.merge(&"c".to_string(), 6);
    assert_eq!(a.read(), Some(6));
}

#[test]
fn reports_commute() {
    let cluster = ids(&["a", "b", "c"]);
    let mut x = GCounter::new("a".to_string(), &cluster);
    let mut y = GCounter::new("a".to_string(), &cluster);
    x.merge(&"b".to_string(), 2);
    x.merge(&"c".to_string(), 10);
    y.merge(&"c".to_string(), 10);
    y.merge(&"b".to_string(), 2);
    assert_eq!(x.read(), Some(12));
    assert_eq!(y.read(), Some(12));
}

#[test]
fn reports_from_strangers_and_self_are_ignored() {
    let cluster = ids(&["a", "b"]);
    let mut a = GCounter::new("a".to_string(), &cluster);
    assert!(!a.merge(&"zz".to_string(), 100));
    assert!(!a.merge(&"a".to_string(), 100));
    assert_eq!(a.read(), Some(0));
}

#[test]
fn read_reports_overflow() {
    let cluster = ids(&["a", "b"]);
    let mut a = GCounter::new("a".to_string(), &cluster);
    a.add(u64::MAX);
    assert_eq!(a.read(), Some(u64::MAX));
    a.merge(&"b".to_string(), 1);
    assert_eq!(a.read(), None);
}

#[test]
fn three_nodes_converge() {
    let cluster = ids(&["n0", "n1", "n2"]);
    let mut nodes: Vec<GCounter> =
        cluster.iter().map(|id| GCounter::new(id.clone(), &cluster)).collect();
    nodes[0].add(1);
    nodes[1].add(20);
    nodes[2].add(300);
    let reports: Vec<u64> = nodes.iter().map(|n| n.contribution()).collect();
    for node in nodes.iter_mut() {
        for (id, r) in cluster.iter().zip(reports.iter()) {
            node.merge(id, *r);
        }
    }
    for node in &nodes {
        assert_eq!(node.read(), Some(321));
    }
}

#[test]
fn peers_skip_self_and_repeats() {
    let cluster = ids(&["n0", "n1", "n2", "n0"]);
    assert_eq!(peers(&"n1".to_string(), &cluster), ids(&["n0", "n2"]));
    assert!(peers(&"n0".to_string(), &ids(&["n0"])).is_empty());
}
