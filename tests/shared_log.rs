use gossip_node::shared_log::{
    after_cas, cas_expected, collect_commits, collect_present, commit_cas, commit_key, first_candidate,
    marker_key, poll_window, value_key, AllocStep, CasRegister,
};

/// One append in flight: the offset it tries next.
struct Appender {
    candidate: u64,
}

impl Appender {
    fn start(reg: &CasRegister) -> Appender {
        Appender { candidate: first_candidate(reg.get()) }
    }

    /// One compare-and-swap; `Some(offset)` once won.
    fn attempt(&mut self, reg: &mut CasRegister) -> Option<u64> {
        let won = reg.cas(cas_expected(self.candidate), self.candidate, true);
        match after_cas(self.candidate, won) {
            AllocStep::Won(o) => Some(o),
            AllocStep::Retry(next) => {
                self.candidate = next;
                None
            }
            AllocStep::Exhausted => panic!("offsets exhausted"),
        }
    }
}

#[test]
fn two_racing_sends_get_offsets_zero_and_one() {
    let mut reg = CasRegister::new();
    let mut a = Appender::start(&reg);
    let mut b = Appender::start(&reg);
    let oa = a.attempt(&mut reg);
    assert_eq!(oa, Some(0));
    assert_eq!(b.attempt(&mut reg), None);
    assert_eq!(b.attempt(&mut reg), Some(1));
    assert_eq!(reg.get(), Some(1));
}

#[test]
fn many_racing_appenders_never_share_an_offset() {
    let mut reg = CasRegister::new();
    let mut appenders: Vec<Appender> = (0..5).map(|_| Appender::start(&reg)).collect();
    let mut won: Vec<u64> = Vec::new();
    for round in 0..40 {
        for (i, ap) in appenders.iter_mut().enumerate() {
            if (round + i) % 3 == 0 {
                continue;
            }
            if let Some(o) = ap.attempt(&mut reg) {
                won.push(o);
                *ap = Appender::start(&reg);
            }
        }
    }
    assert!(!won.is_empty());
    let expected: Vec<u64> = (0..won.len() as u64).collect();
    assert_eq!(won, expected);
}

#[test]
fn the_first_try_follows_the_marker() {
    assert_eq!(first_candidate(None), 0);
    assert_eq!(first_candidate(Some(6)), 6);
    assert_eq!(cas_expected(0), u64::MAX);
    assert_eq!(cas_expected(6), 5);
    assert_eq!(after_cas(6, true), AllocStep::Won(6));
    assert_eq!(after_cas(6, false), AllocStep::Retry(7));
    assert_eq!(after_cas(u64::MAX, false), AllocStep::Exhausted);
}

#[test]
fn register_swaps_only_from_the_expected_value() {
    let mut reg = CasRegister::new();
    assert!(!reg.cas(3, 4, false));
    assert_eq!(reg.get(), None);
    assert!(reg.cas(3, 4, true));
    assert_eq!(reg.get(), Some(4));
    assert!(!reg.cas(3, 5, true));
    assert!(reg.cas(4, 5, false));
    assert_eq!(reg.get(), Some(5));
}

#[test]
fn store_names() {
    assert_eq!(marker_key(&"k".to_string()), "latest_offset_for_k");
    assert_eq!(value_key(&"k".to_string(), 0), "value_for_k_at_offset_0");
    assert_eq!(value_key(&"k".to_string(), 1207), "value_for_k_at_offset_1207");
    assert_eq!(value_key(&"x".to_string(), u64::MAX), "value_for_x_at_offset_18446744073709551615");
    assert_eq!(commit_key(&"k".to_string()), "committed_offset_for_key_k");
}

#[test]
fn poll_skips_missing_offsets() {
    assert_eq!(collect_present(3, &vec![Some(10), None, Some(12)]), vec![(3, 10), (5, 12)]);
    assert!(collect_present(0, &vec![None, None]).is_empty());
    assert!(collect_present(0, &vec![]).is_empty());
}

#[test]
fn poll_window_stops_at_the_largest_offset() {
    assert_eq!(poll_window(0), 100);
    assert_eq!(poll_window(u64::MAX - 5), 5);
    assert_eq!(poll_window(u64::MAX), 0);
}

#[test]
fn committed_listing_leaves_out_missing_keys() {
    let keys = vec!["a".to_string(), "b".to_string(), "c".to_string()];
    assert_eq!(
        collect_commits(&keys, &vec![Some(4), None, Some(0)]),
        vec![("a".to_string(), 4), ("c".to_string(), 0)]
    );
}

#[test]
fn commit_swaps_only_raise_the_stored_offset() {
    assert_eq!(commit_cas(None, 4), Some((4, 4, true)));
    assert_eq!(commit_cas(Some(2), 4), Some((2, 4, false)));
    assert_eq!(commit_cas(Some(4), 4), None);
    assert_eq!(commit_cas(Some(9), 4), None);
    let mut reg = CasRegister::new();
    for offset in [5u64, 3, 8, 8, 1] {
        loop {
            match commit_cas(reg.get(), offset) {
                None => break,
                Some((from, to, create)) => {
                    if reg.cas(from, to, create) {
                        break;
                    }
                }
            }
        }
    }
    assert_eq!(reg.get(), Some(8));
}
