use contender::sequence::SequenceTracker;

#[test]
fn claims_are_consecutive_from_the_seed() {
    let mut t = SequenceTracker::new(vec![5, 0]);
    let got: Vec<u64> = (0..4).map(|_| t.claim_next(0).unwrap()).collect();
    assert_eq!(got, vec![5, 6, 7, 8]);
    assert_eq!(t.peek(1), 0);
    assert_eq!(t.peek(0), 9);
}

#[test]
fn interleaved_workers_get_every_number_once() {
    let workers = 4;
    let per_worker = 25;
    let mut t = SequenceTracker::new(vec![0]);
    let mut seen: Vec<Vec<u64>> = vec![Vec::new(); workers];
    for _ in 0..per_worker {
        for w in 0..workers {
            seen[w].push(t.claim_next(0).unwrap());
        }
    }
    for w in &seen {
        assert!(w.windows(2).all(|p| p[0] < p[1]));
    }
    let mut all: Vec<u64> = seen.concat();
    all.sort();
    assert_eq!(all, (0..(workers * per_worker) as u64).collect::<Vec<u64>>());
}

#[test]
fn exhausted_counter_hands_out_nothing() {
    let mut t = SequenceTracker::new(vec![u64::MAX - 1]);
    assert_eq!(t.claim_next(0), Some(u64::MAX - 1));
    assert_eq!(t.claim_next(0), None);
    assert_eq!(t.peek(0), u64::MAX);
}

#[test]
fn reconcile_moves_to_observed_plus_in_flight() {
    let mut t = SequenceTracker::new(vec![10, 3]);
    t.reconcile(0, 4, 2);
    assert_eq!(t.peek(0), 6);
    assert_eq!(t.peek(1), 3);
    t.reconcile(1, u64::MAX, 5);
    assert_eq!(t.peek(1), u64::MAX);
    assert_eq!(t.len(), 2);
}
