//! Collecting outcomes until the first failure.

use hammer::collect::{collect_results, Collector};
use hammer::outcome::{classify_outcome, CallError, JobOutcome};

#[test]
fn collect_all_successes_keeps_every_duration() {
    let rs = vec![
        JobOutcome::Success(5),
        JobOutcome::Success(9),
        JobOutcome::Success(2),
    ];
    assert_eq!(collect_results(&rs), Ok(vec![5, 9, 2]));
}

#[test]
fn collect_stops_at_the_first_failure() {
    let rs = vec![
        JobOutcome::Success(5),
        JobOutcome::Failure(CallError::Status(503)),
        JobOutcome::Success(2),
        JobOutcome::Failure(CallError::Transport),
    ];
    assert_eq!(collect_results(&rs), Err(CallError::Status(503)));
}

#[test]
fn collect_of_nothing_is_empty() {
    let rs: Vec<JobOutcome> = Vec::new();
    assert_eq!(collect_results(&rs), Ok(Vec::new()));
}

#[test]
fn collector_accepts_then_halts() {
    let mut c = Collector::new();
    assert_eq!(c.accept(&JobOutcome::Success(10)), Ok(()));
    assert_eq!(c.accept(&JobOutcome::Success(20)), Ok(()));
    assert_eq!(
        c.accept(&JobOutcome::Failure(CallError::Transport)),
        Err(CallError::Transport)
    );
    assert_eq!(c.times, vec![10, 20]);
}

#[test]
fn classify_outcome_splits_status_ranges() {
    assert_eq!(classify_outcome(Some(200), 40), JobOutcome::Success(40));
    assert_eq!(classify_outcome(Some(204), 1), JobOutcome::Success(1));
    assert_eq!(classify_outcome(Some(399), 7), JobOutcome::Success(7));
    assert_eq!(
        classify_outcome(Some(400), 7),
        JobOutcome::Failure(CallError::Status(400))
    );
    assert_eq!(
        classify_outcome(Some(404), 0),
        JobOutcome::Failure(CallError::Status(404))
    );
    assert_eq!(
        classify_outcome(Some(599), 0),
        JobOutcome::Failure(CallError::Status(599))
    );
    assert_eq!(classify_outcome(Some(600), 3), JobOutcome::Success(3));
    assert_eq!(
        classify_outcome(None, 12),
        JobOutcome::Failure(CallError::Transport)
    );
}
