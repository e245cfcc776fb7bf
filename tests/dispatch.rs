use contender::dispatch::{decide, Decision, Dispatcher, SubmitError, Submission, BACKOFF_MS, MAX_RETRIES};
use contender::report::{conclude, Collector, Failure, OutcomeStatus, Persistence, RunStatus, StoreError};
use contender::schedule::{ConfigError, RateProfile};

fn run_all_accepted(profile: RateProfile, seeds: Vec<u64>) -> Collector {
    let mut d = Dispatcher::new(profile, seeds).unwrap();
    let mut c = Collector::new(1, profile);
    while let Some((_tick, batch)) = d.next_batch() {
        for s in &batch {
            assert!(c.dispatched(*s));
        }
        for s in batch {
            assert!(c.record(s, OutcomeStatus::Accepted([s.sequence as u8; 32])));
        }
    }
    assert!(c.finalize(false));
    c
}

#[test]
fn per_second_single_identity_run() {
    let c = run_all_accepted(RateProfile::PerSecond { rate: 5, seconds: 2 }, vec![0]);
    let report = c.into_report();
    assert!(report.outcomes.len() <= 10);
    assert_eq!(report.outcomes.len(), 10);
    let seqs: Vec<u64> = report.outcomes.iter().map(|o| o.submission.sequence).collect();
    assert_eq!(seqs, (0..10).collect::<Vec<u64>>());
    assert_eq!(report.accepted + report.failed, report.total());
    assert_eq!(report.status, RunStatus::Completed);
}

#[test]
fn per_block_two_identities_round_robin() {
    let c = run_all_accepted(RateProfile::PerBlock { count: 3, blocks: 4 }, vec![0, 0]);
    let report = c.into_report();
    assert_eq!(report.outcomes.len(), 12);
    for slot in 0..2u64 {
        let seqs: Vec<u64> = report
            .outcomes
            .iter()
            .filter(|o| o.submission.slot == slot)
            .map(|o| o.submission.sequence)
            .collect();
        assert_eq!(seqs.len(), 6);
        assert!(seqs.windows(2).all(|p| p[0] < p[1]));
        assert_eq!(seqs, (0..6).collect::<Vec<u64>>());
    }
    assert_eq!(report.accepted, 12);
}

#[test]
fn batches_follow_the_cursor_across_ticks() {
    let mut d = Dispatcher::new(RateProfile::PerBlock { count: 3, blocks: 2 }, vec![10, 20]).unwrap();
    let (t0, b0) = d.next_batch().unwrap();
    assert_eq!(t0.count, 3);
    assert_eq!(
        b0,
        vec![
            Submission { tick: 0, slot: 0, sequence: 10 },
            Submission { tick: 0, slot: 1, sequence: 20 },
            Submission { tick: 0, slot: 0, sequence: 11 },
        ]
    );
    let (_t1, b1) = d.next_batch().unwrap();
    assert_eq!(
        b1,
        vec![
            Submission { tick: 1, slot: 1, sequence: 21 },
            Submission { tick: 1, slot: 0, sequence: 12 },
            Submission { tick: 1, slot: 1, sequence: 22 },
        ]
    );
    assert!(d.next_batch().is_none());
    assert!(d.next_batch().is_none());
}

#[test]
fn dispatcher_configuration_errors() {
    assert!(matches!(
        Dispatcher::new(RateProfile::PerSecond { rate: 0, seconds: 1 }, vec![0]),
        Err(ConfigError::ZeroRate)
    ));
    assert!(matches!(
        Dispatcher::new(RateProfile::PerSecond { rate: 1, seconds: 1 }, vec![]),
        Err(ConfigError::NoIdentities)
    ));
    assert!(matches!(
        Dispatcher::new(RateProfile::PerBlock { count: 2, blocks: 2 }, vec![0, u64::MAX - 3]),
        Err(ConfigError::SequenceOverflow)
    ));
    assert!(Dispatcher::new(RateProfile::PerBlock { count: 2, blocks: 2 }, vec![0, u64::MAX - 4]).is_ok());
}

#[test]
fn zero_duration_run_is_empty() {
    let mut d = Dispatcher::new(RateProfile::PerBlock { count: 2, blocks: 0 }, vec![0]).unwrap();
    assert!(d.next_batch().is_none());
}

#[test]
fn retry_policy() {
    let h = [7u8; 32];
    assert_eq!(decide(0, Ok(h)), Decision::Record(OutcomeStatus::Accepted(h)));
    assert_eq!(
        decide(0, Err(SubmitError::Permanent)),
        Decision::Record(OutcomeStatus::Failed(Failure::Rejected))
    );
    assert_eq!(decide(0, Err(SubmitError::Transient)), Decision::Retry { backoff_ms: BACKOFF_MS });
    assert_eq!(decide(2, Err(SubmitError::Transient)), Decision::Retry { backoff_ms: 600 });
    assert_eq!(
        decide(MAX_RETRIES, Err(SubmitError::Transient)),
        Decision::Record(OutcomeStatus::Failed(Failure::RetriesExhausted))
    );
}

#[test]
fn cancellation_abandons_in_flight_and_finalizes_once() {
    let profile = RateProfile::PerBlock { count: 3, blocks: 4 };
    let mut d = Dispatcher::new(profile, vec![0, 0]).unwrap();
    let mut c = Collector::new(9, profile);
    let (_t, batch) = d.next_batch().unwrap();
    for s in &batch {
        assert!(c.dispatched(*s));
    }
    assert!(c.record(batch[1], OutcomeStatus::Failed(Failure::Rejected)));
    assert!(!c.record(batch[1], OutcomeStatus::Abandoned));
    assert_eq!(c.in_flight().len(), 2);
    assert!(c.finalize(true));
    assert!(!c.finalize(false));
    assert!(!c.dispatched(batch[0]));
    let r = c.report();
    assert_eq!(r.status, RunStatus::Cancelled);
    assert_eq!(r.outcomes.len(), 3);
    assert_eq!((r.accepted, r.failed, r.abandoned), (0, 1, 2));
    let mut subs: Vec<Submission> = r.outcomes.iter().map(|o| o.submission).collect();
    subs.sort_by_key(|s| (s.slot, s.sequence));
    let mut expected = batch.clone();
    expected.sort_by_key(|s| (s.slot, s.sequence));
    assert_eq!(subs, expected);
    assert_eq!(r.outcomes[1].status, OutcomeStatus::Abandoned);
}

#[test]
fn stale_dispatch_is_refused() {
    let mut c = Collector::new(3, RateProfile::PerSecond { rate: 1, seconds: 1 });
    assert!(c.dispatched(Submission { tick: 0, slot: 0, sequence: 5 }));
    assert!(!c.dispatched(Submission { tick: 1, slot: 0, sequence: 5 }));
    assert!(!c.dispatched(Submission { tick: 1, slot: 0, sequence: 4 }));
    assert!(c.dispatched(Submission { tick: 1, slot: 1, sequence: 4 }));
    assert_eq!(c.in_flight().len(), 2);
}

#[test]
fn record_of_unknown_submission_is_refused() {
    let mut c = Collector::new(2, RateProfile::PerSecond { rate: 1, seconds: 1 });
    assert!(!c.record(Submission { tick: 0, slot: 0, sequence: 0 }, OutcomeStatus::Abandoned));
    assert_eq!(c.report().total(), 0);
}

#[test]
fn persistence_failure_still_returns_the_report() {
    let c = run_all_accepted(RateProfile::PerBlock { count: 2, blocks: 2 }, vec![3]);
    let result = conclude(c.into_report(), Some(Err(StoreError)));
    assert_eq!(result.persistence, Persistence::Failed);
    assert_eq!(result.report.outcomes.len(), 4);
    assert_eq!(result.report.accepted, 4);
    let seqs: Vec<u64> = result.report.outcomes.iter().map(|o| o.submission.sequence).collect();
    assert_eq!(seqs, vec![3, 4, 5, 6]);

    let c2 = run_all_accepted(RateProfile::PerBlock { count: 1, blocks: 1 }, vec![0]);
    assert_eq!(conclude(c2.into_report(), Some(Ok(77))).persistence, Persistence::Stored(77));
    let c3 = run_all_accepted(RateProfile::PerBlock { count: 1, blocks: 1 }, vec![0]);
    assert_eq!(conclude(c3.into_report(), None).persistence, Persistence::Disabled);
}
