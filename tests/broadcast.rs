use gossip_node::broadcast::SeenSet;

fn sorted(mut v: Vec<u64>) -> Vec<u64> {
    v.sort();
    v
}

#[test]
fn one_gossip_round_spreads_a_broadcast_to_all_nodes() {
    let mut n1 = SeenSet::new();
    let mut n2 = SeenSet::new();
    let mut n3 = SeenSet::new();
    assert!(n1.insert(5));
    let payload = n1.snapshot();
    n2.merge(&payload);
    n3.merge(&payload);
    assert_eq!(n1.snapshot(), vec![5]);
    assert_eq!(n2.snapshot(), vec![5]);
    assert_eq!(n3.snapshot(), vec![5]);
}

#[test]
fn insert_reports_whether_the_value_was_new() {
    let mut s = SeenSet::new();
    assert!(s.insert(1));
    assert!(!s.insert(1));
    assert!(s.contains(1));
    assert!(!s.contains(2));
    assert_eq!(s.snapshot(), vec![1]);
}

#[test]
fn merging_a_payload_twice_equals_merging_it_once() {
    let mut once = SeenSet::new();
    once.insert(9);
    let mut twice = SeenSet::new();
    twice.insert(9);
    let payload = vec![1, 2, 2, 9];
    once.merge(&payload);
    twice.merge(&payload);
    twice.merge(&payload);
    assert_eq!(sorted(once.snapshot()), vec![1, 2, 9]);
    assert_eq!(sorted(twice.snapshot()), vec![1, 2, 9]);
}

#[test]
fn merge_order_does_not_matter() {
    let p = vec![1, 3];
    let q = vec![3, 4];
    let mut a = SeenSet::new();
    a.merge(&p);
    a.merge(&q);
    let mut b = SeenSet::new();
    b.merge(&q);
    b.merge(&p);
    assert_eq!(sorted(a.snapshot()), sorted(b.snapshot()));
    assert_eq!(sorted(a.snapshot()), vec![1, 3, 4]);
}

#[test]
fn full_exchange_makes_every_node_hold_the_union() {
    let mut nodes = vec![SeenSet::new(), SeenSet::new(), SeenSet::new()];
    nodes[0].insert(1);
    nodes[1].insert(2);
    nodes[2].insert(3);
    nodes[2].insert(1);
    let payloads: Vec<Vec<u64>> = nodes.iter().map(|n| n.snapshot()).collect();
    for node in nodes.iter_mut() {
        for p in &payloads {
            node.merge(p);
        }
    }
    for node in &nodes {
        assert_eq!(sorted(node.snapshot()), vec![1, 2, 3]);
    }
}

#[test]
fn empty_payload_changes_nothing() {
    let mut s = SeenSet::new();
    s.merge(&vec![]);
    assert!(s.snapshot().is_empty());
}
