use gossip_node::outbox::Outbox;

fn view(o: &Outbox) -> Vec<(u64, String, u64)> {
    o.due().into_iter().map(|p| (p.seq, p.dest, p.value)).collect()
}

#[test]
fn pending_updates_stay_until_acknowledged() {
    let mut o = Outbox::new();
    assert_eq!(o.enqueue(&"n1".to_string(), 5), Some(0));
    assert_eq!(o.enqueue(&"n2".to_string(), 5), Some(1));
    assert_eq!(view(&o), vec![(0, "n1".to_string(), 5), (1, "n2".to_string(), 5)]);
    assert_eq!(view(&o), vec![(0, "n1".to_string(), 5), (1, "n2".to_string(), 5)]);
    assert!(o.ack(0));
    assert_eq!(view(&o), vec![(1, "n2".to_string(), 5)]);
    assert!(!o.ack(0));
    assert!(o.ack(1));
    assert!(view(&o).is_empty());
}

#[test]
fn acknowledging_an_unknown_number_changes_nothing() {
    let mut o = Outbox::new();
    o.enqueue(&"n1".to_string(), 5);
    assert!(!o.ack(42));
    assert_eq!(view(&o).len(), 1);
}

#[test]
fn a_newer_cumulative_update_supersedes_the_older() {
    let mut o = Outbox::new();
    o.enqueue_superseding(&"n1".to_string(), 3);
    o.enqueue_superseding(&"n2".to_string(), 3);
    assert_eq!(o.enqueue_superseding(&"n1".to_string(), 7), Some(2));
    assert_eq!(view(&o), vec![(1, "n2".to_string(), 3), (2, "n1".to_string(), 7)]);
}

#[test]
fn fan_out_numbers_each_destination() {
    let mut o = Outbox::new();
    let dests = vec!["a".to_string(), "b".to_string(), "c".to_string()];
    assert!(o.enqueue_all(&dests, 9));
    assert_eq!(
        view(&o),
        vec![(0, "a".to_string(), 9), (1, "b".to_string(), 9), (2, "c".to_string(), 9)]
    );
    assert_eq!(o.enqueue(&"d".to_string(), 1), Some(3));
}
