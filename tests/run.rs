use contender::dispatch::Submission;
use contender::report::{Failure, OutcomeStatus, Persistence, RunStatus, StoreError};
use contender::run::Run;
use contender::schedule::{ConfigError, RateProfile};

#[test]
fn run_refuses_bad_configuration() {
    assert!(matches!(Run::start(1, RateProfile::PerBlock { count: 0, blocks: 1 }, vec![0]), Err(ConfigError::ZeroRate)));
    assert!(matches!(Run::start(1, RateProfile::PerBlock { count: 1, blocks: 1 }, vec![]), Err(ConfigError::NoIdentities)));
}

#[test]
fn full_run_reports_every_submission() {
    let mut run = Run::start(5, RateProfile::PerBlock { count: 3, blocks: 4 }, vec![0, 0]).unwrap();
    let mut ticks = 0;
    while let Some((_t, batch)) = run.next_batch() {
        ticks += 1;
        assert_eq!(run.in_flight().len(), 3);
        for s in batch {
            let status = if s.slot == 0 { OutcomeStatus::Accepted([1; 32]) } else { OutcomeStatus::Failed(Failure::Rejected) };
            assert!(run.record(s, status));
        }
    }
    assert_eq!(ticks, 4);
    let result = run.finish(Some(Ok(5)));
    assert_eq!(result.persistence, Persistence::Stored(5));
    assert_eq!(result.report.status, RunStatus::Completed);
    assert_eq!(result.report.outcomes.len(), 12);
    assert_eq!((result.report.accepted, result.report.failed, result.report.abandoned), (6, 6, 0));
}

#[test]
fn cancel_mid_run_stops_ticks_and_keeps_every_outcome() {
    let mut run = Run::start(6, RateProfile::PerSecond { rate: 5, seconds: 2 }, vec![0]).unwrap();
    let mut dispatched: Vec<Submission> = Vec::new();
    for _ in 0..4 {
        let (_t, batch) = run.next_batch().unwrap();
        dispatched.extend(batch);
    }
    assert!(run.record(dispatched[0], OutcomeStatus::Accepted([0; 32])));
    assert!(run.cancel());
    assert!(!run.cancel());
    assert!(run.next_batch().is_none());
    // In-flight submissions may still finish after the cancellation.
    assert!(run.record(dispatched[1], OutcomeStatus::Accepted([1; 32])));
    assert!(!run.record(dispatched[1], OutcomeStatus::Accepted([1; 32])));
    assert_eq!(run.in_flight().len(), 2);
    let result = run.finish(Some(Err(StoreError)));
    assert_eq!(result.persistence, Persistence::Failed);
    let r = result.report;
    assert_eq!(r.status, RunStatus::Cancelled);
    assert_eq!(r.outcomes.len(), 4);
    assert_eq!((r.accepted, r.abandoned), (2, 2));
    let seqs: Vec<u64> = r.outcomes.iter().map(|o| o.submission.sequence).collect();
    assert_eq!(seqs, vec![0, 1, 2, 3]);
}

#[test]
fn outcomes_of_one_identity_are_taken_in_sequence_order() {
    let mut run = Run::start(8, RateProfile::PerBlock { count: 4, blocks: 1 }, vec![0, 0]).unwrap();
    let (_t, batch) = run.next_batch().unwrap();
    // slots 0, 1, 0, 1 with sequences 0, 0, 1, 1
    assert!(!run.record(batch[2], OutcomeStatus::Accepted([2; 32])));
    assert!(run.record(batch[1], OutcomeStatus::Accepted([1; 32])));
    assert!(run.record(batch[0], OutcomeStatus::Accepted([0; 32])));
    assert!(run.record(batch[2], OutcomeStatus::Accepted([2; 32])));
    let r = run.finish(None).report;
    let order: Vec<(u64, u64)> = r.outcomes.iter().map(|o| (o.submission.slot, o.submission.sequence)).collect();
    assert_eq!(order, vec![(1, 0), (0, 0), (0, 1), (1, 1)]);
    assert_eq!(r.abandoned, 1);
}

#[test]
fn finish_without_reporting_completes_the_run() {
    let mut run = Run::start(7, RateProfile::PerBlock { count: 1, blocks: 2 }, vec![4]).unwrap();
    let (_t, batch) = run.next_batch().unwrap();
    assert_eq!(batch[0].sequence, 4);
    let result = run.finish(None);
    assert_eq!(result.persistence, Persistence::Disabled);
    assert_eq!(result.report.status, RunStatus::Completed);
    assert_eq!(result.report.outcomes[0].status, OutcomeStatus::Abandoned);
}
