//! Driving the scheduler model through whole runs: exhaustion, ordering,
//! cancellation, the empty source, and the concurrency bound.

use hammer::collect::Collector;
use hammer::outcome::{CallError, JobOutcome};
use hammer::scheduler::{Scheduler, TermReason, WorkerPhase};
use hammer::Job;

fn job(t: &str) -> Job {
    Job::new(t.to_string())
}

fn phase_tag(s: &Scheduler, w: usize) -> u8 {
    match &s.workers[w] {
        WorkerPhase::Idle => 0,
        WorkerPhase::Running(_) => 1,
        WorkerPhase::Sending(_) => 2,
        WorkerPhase::Terminated(_) => 3,
    }
}

fn all_terminated(s: &Scheduler) -> bool {
    (0..s.workers.len()).all(|w| phase_tag(s, w) == 3)
}

/// Runs the pool to completion with `n` workers, collecting every result.
fn run_to_exhaustion(jobs: Vec<Job>, n: usize, cap: usize) -> (Scheduler, Vec<(String, JobOutcome)>) {
    let mut s = Scheduler::new(jobs, n, cap);
    let mut got = Vec::new();
    let mut guard = 0usize;
    while !(all_terminated(&s) && s.channel.len() == 0) {
        guard += 1;
        assert!(guard < 100_000, "driver did not settle");
        for w in 0..n {
            match phase_tag(&s, w) {
                0 => {
                    s.worker_pop(w);
                }
                1 => {
                    s.worker_finish(w, JobOutcome::Success(w as u64));
                }
                2 => {
                    if s.channel.len() < cap {
                        s.worker_send(w);
                    }
                }
                _ => {}
            }
        }
        while s.channel.len() > 0 {
            let r = s.consumer_next().unwrap();
            got.push((r.job.target.clone(), r.outcome));
        }
    }
    assert!(s.consumer_next().is_none());
    (s, got)
}

#[test]
fn exhausted_stream_yields_one_result_per_job() {
    let targets = ["a", "b", "c", "d", "e"];
    let jobs: Vec<Job> = targets.iter().map(|t| job(t)).collect();
    let (s, got) = run_to_exhaustion(jobs, 2, 32);
    assert_eq!(got.len(), 5);
    assert_eq!(s.calls_started, 5);
    let mut seen: Vec<String> = got.iter().map(|(t, _)| t.clone()).collect();
    seen.sort();
    assert_eq!(seen, vec!["a", "b", "c", "d", "e"]);
}

#[test]
fn exhaustion_with_more_workers_than_jobs() {
    let jobs = vec![job("x")];
    let (s, got) = run_to_exhaustion(jobs, 4, 32);
    assert_eq!(got.len(), 1);
    assert_eq!(s.calls_started, 1);
    for w in 0..4 {
        assert!(matches!(
            s.workers[w],
            WorkerPhase::Terminated(TermReason::Drained)
        ));
    }
}

#[test]
fn empty_source_yields_none_with_zero_calls() {
    let mut s = Scheduler::new(Vec::new(), 3, 32);
    assert!(!s.worker_pop(0));
    assert!(!s.worker_pop(1));
    assert!(!s.worker_pop(2));
    assert!(s.consumer_next().is_none());
    assert_eq!(s.calls_started, 0);
    assert_eq!(s.channel.len(), 0);
}

#[test]
fn delivery_order_follows_completion_not_submission() {
    // Submission order: slow first. The second worker's job completes first
    // (injected latency: the first worker's call is still pending), so the
    // consumer sees "fast" before "slow".
    let jobs = vec![job("slow"), job("fast")];
    let mut s = Scheduler::new(jobs, 2, 32);
    assert!(s.worker_pop(0)); // takes "slow"
    assert!(s.worker_pop(1)); // takes "fast"
    s.worker_finish(1, JobOutcome::Success(1));
    assert!(s.worker_send(1));
    s.worker_finish(0, JobOutcome::Success(99));
    assert!(s.worker_send(0));
    let first = s.consumer_next().unwrap();
    let second = s.consumer_next().unwrap();
    assert_eq!(first.job.target, "fast");
    assert_eq!(second.job.target, "slow");
}

#[test]
fn dropping_the_stream_cancels_every_worker() {
    let jobs: Vec<Job> = (0..10).map(|i| job(&format!("j{i}"))).collect();
    let mut s = Scheduler::new(jobs, 2, 32);
    assert!(s.worker_pop(0));
    assert!(s.worker_pop(1));
    s.worker_finish(0, JobOutcome::Success(3));
    assert!(s.worker_send(0));
    // The consumer takes one result (K = 1 < M = 10) and walks away.
    let got = s.consumer_next().unwrap();
    assert!(matches!(got.outcome, JobOutcome::Success(3)));
    let started_at_drop = s.calls_started;
    s.drop_stream();
    assert!(all_terminated(&s));
    // The worker that was mid-call was cancelled, not drained.
    assert!(matches!(
        s.workers[1],
        WorkerPhase::Terminated(TermReason::Cancelled)
    ));
    assert_eq!(s.running_now(), 0);
    // No call is ever started after the drop settles.
    assert_eq!(s.calls_started, started_at_drop);
    // Cancelling again changes nothing.
    s.drop_stream();
    assert_eq!(s.calls_started, started_at_drop);
    assert!(matches!(
        s.workers[1],
        WorkerPhase::Terminated(TermReason::Cancelled)
    ));
}

#[test]
fn consumer_gone_terminates_senders_quietly() {
    let jobs = vec![job("a"), job("b")];
    let mut s = Scheduler::new(jobs, 1, 32);
    assert!(s.worker_pop(0));
    s.worker_finish(0, JobOutcome::Success(1));
    s.drop_stream();
    // The worker's send now fails: it terminates without delivering.
    // (drop_stream already terminated it; phase stays Terminated.)
    assert!(all_terminated(&s));
    assert!(matches!(
        s.workers[0],
        WorkerPhase::Terminated(TermReason::Cancelled)
    ));
}

#[test]
fn send_fails_once_consumer_left() {
    let jobs = vec![job("a"), job("b")];
    let mut s = Scheduler::new(jobs, 1, 32);
    assert!(s.worker_pop(0));
    s.worker_finish(0, JobOutcome::Success(1));
    // The consumer drops the receiving side only (no cancellation reaches
    // the worker yet): model that moment by flipping consumer_live.
    s.consumer_live = false;
    let sent = s.worker_send(0);
    assert!(!sent);
    assert!(matches!(
        s.workers[0],
        WorkerPhase::Terminated(TermReason::ConsumerGone)
    ));
}

#[test]
fn one_failing_job_is_seen_exactly_once() {
    let jobs = vec![job("good1"), job("bad"), job("good2"), job("good3")];
    let mut s = Scheduler::new(jobs, 2, 32);
    let mut collector = Collector::new();
    let mut failures = 0usize;
    // w0 takes good1, w1 takes bad; bad fails, good1 succeeds.
    assert!(s.worker_pop(0));
    assert!(s.worker_pop(1));
    s.worker_finish(0, JobOutcome::Success(7));
    assert!(s.worker_send(0));
    s.worker_finish(1, JobOutcome::Failure(CallError::Status(500)));
    assert!(s.worker_send(1));
    // The consumer collects until the first failure.
    let mut stopped = false;
    while !stopped {
        match s.consumer_next() {
            Some(r) => match collector.accept(&r.outcome) {
                Ok(()) => {}
                Err(e) => {
                    failures += 1;
                    assert_eq!(e, CallError::Status(500));
                    stopped = true;
                }
            },
            None => break,
        }
    }
    assert!(stopped);
    assert_eq!(failures, 1);
    assert_eq!(collector.times, vec![7]);
    // At the moment of abandonment the failing job's worker is not mid-call,
    // so at most one of the two workers still is.
    assert!(s.running_now() <= 1);
    s.drop_stream();
    assert!(all_terminated(&s));
}

#[test]
fn concurrency_never_exceeds_three_workers() {
    // A pseudo-randomly interleaved run: 100 jobs, 3 workers, checking the
    // observed concurrency at every step.
    let jobs: Vec<Job> = (0..100).map(|i| job(&format!("job{i}"))).collect();
    let n = 3usize;
    let cap = 32usize;
    let mut s = Scheduler::new(jobs, n, cap);
    let mut got = 0usize;
    let mut max_running = 0usize;
    let mut state = 0x2545F4914F6CDD1Du64;
    let mut guard = 0usize;
    while !(all_terminated(&s) && s.channel.len() == 0) {
        guard += 1;
        assert!(guard < 1_000_000, "driver did not settle");
        state = state.wrapping_mul(6364136223846793005).wrapping_add(1442695040888963407);
        let pick = (state >> 33) as usize % (n + 1);
        if pick < n {
            match phase_tag(&s, pick) {
                0 => {
                    s.worker_pop(pick);
                }
                1 => {
                    s.worker_finish(pick, JobOutcome::Success(pick as u64));
                }
                2 => {
                    if s.channel.len() < cap {
                        s.worker_send(pick);
                    }
                }
                _ => {}
            }
        } else if s.channel.len() > 0 {
            s.consumer_next().unwrap();
            got += 1;
        } else if all_terminated(&s) {
            assert!(s.consumer_next().is_none());
        }
        let running = s.running_now();
        if running > max_running {
            max_running = running;
        }
        assert!(running <= 3);
    }
    while s.channel.len() > 0 {
        s.consumer_next().unwrap();
        got += 1;
    }
    assert_eq!(got, 100);
    assert_eq!(s.calls_started, 100);
    assert!(max_running <= 3);
    assert!(max_running >= 1);
}

#[test]
fn backpressure_bounds_the_channel() {
    // Capacity 1: the second sender must wait until the consumer drains.
    let jobs = vec![job("a"), job("b")];
    let mut s = Scheduler::new(jobs, 2, 1);
    assert!(s.worker_pop(0));
    assert!(s.worker_pop(1));
    s.worker_finish(0, JobOutcome::Success(1));
    s.worker_finish(1, JobOutcome::Success(2));
    assert!(s.worker_send(0));
    assert_eq!(s.channel.len(), 1);
    // Worker 1 is suspended: the channel is full. The consumer drains one,
    // and only then can worker 1 send.
    assert!(s.consumer_next().is_some());
    assert!(s.worker_send(1));
    assert!(s.consumer_next().is_some());
}
