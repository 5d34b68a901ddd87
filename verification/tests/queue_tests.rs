//! The job queue's FIFO contract, seen from outside.

use hammer::{Job, JobQueue};

fn job(t: &str) -> Job {
    Job::new(t.to_string())
}

#[test]
fn pop_next_returns_jobs_in_submission_order() {
    let mut q = JobQueue::from_jobs(vec![job("one"), job("two"), job("three")]);
    assert_eq!(q.len(), 3);
    assert_eq!(q.pop_next().unwrap().target, "one");
    assert_eq!(q.pop_next().unwrap().target, "two");
    assert_eq!(q.pop_next().unwrap().target, "three");
    assert!(q.pop_next().is_none());
}

#[test]
fn empty_queue_stays_empty() {
    let mut q = JobQueue::from_jobs(Vec::new());
    assert!(q.is_empty());
    assert!(q.pop_next().is_none());
    assert!(q.pop_next().is_none());
    assert_eq!(q.len(), 0);
}

#[test]
fn job_dup_copies_the_target() {
    let j = job("http://example.com/");
    let d = j.dup();
    assert_eq!(d.target, "http://example.com/");
    assert_eq!(j.target(), "http://example.com/");
}
