//! A real concurrent pool wired like the application: the library's queue
//! behind a mutex, tokio workers, a bounded channel — checking the
//! concurrency bound and completion-order delivery under true latency.

use hammer::outcome::JobOutcome;
use hammer::{Job, JobQueue};
use std::sync::atomic::{AtomicUsize, Ordering};
use std::sync::{Arc, Mutex};
use std::time::Duration;

#[test]
fn live_pool_keeps_the_bound_and_delivers_by_completion() {
    let rt = tokio::runtime::Builder::new_multi_thread()
        .worker_threads(4)
        .enable_time()
        .build()
        .unwrap();
    rt.block_on(async {
        let m = 20u64;
        let n = 3usize;
        let jobs: Vec<Job> = (0..m).map(|i| Job::new(format!("job{i}"))).collect();
        let submission: Vec<String> = jobs.iter().map(|j| j.target.clone()).collect();
        let queue = Arc::new(Mutex::new(JobQueue::from_jobs(jobs)));
        let (tx, mut rx) = tokio::sync::mpsc::channel::<(String, JobOutcome)>(32);
        let running = Arc::new(AtomicUsize::new(0));
        let max_running = Arc::new(AtomicUsize::new(0));
        for _ in 0..n {
            let queue = Arc::clone(&queue);
            let tx = tx.clone();
            let running = Arc::clone(&running);
            let max_running = Arc::clone(&max_running);
            tokio::spawn(async move {
                loop {
                    // The lock is held only for the pop, never across a
                    // suspension point.
                    let popped = { queue.lock().unwrap().pop_next() };
                    let job = match popped {
                        Some(j) => j,
                        None => break,
                    };
                    let now = running.fetch_add(1, Ordering::SeqCst) + 1;
                    max_running.fetch_max(now, Ordering::SeqCst);
                    // Artificial per-job latency: jobs submitted later run
                    // faster, so completion order inverts submission order.
                    let idx: u64 = job.target["job".len()..].parse().unwrap();
                    tokio::time::sleep(Duration::from_millis((m - idx) * 30)).await;
                    running.fetch_sub(1, Ordering::SeqCst);
                    let outcome = JobOutcome::Success(idx);
                    if tx.send((job.target, outcome)).await.is_err() {
                        break;
                    }
                }
            });
        }
        drop(tx);
        let mut delivered: Vec<String> = Vec::new();
        while let Some((target, _)) = rx.recv().await {
            delivered.push(target);
        }
        assert_eq!(delivered.len(), m as usize);
        assert!(max_running.load(Ordering::SeqCst) <= n);
        // Every job arrived exactly once...
        let mut sorted = delivered.clone();
        sorted.sort();
        let mut expected = submission.clone();
        expected.sort();
        assert_eq!(sorted, expected);
        // ...but not in submission order: of the three jobs claimed first,
        // the third sleeps least and overtakes the first two.
        assert_ne!(delivered, submission);
        let fast = delivered.iter().position(|t| t == "job2").unwrap();
        let slow = delivered.iter().position(|t| t == "job0").unwrap();
        assert!(fast < slow);
    });
}
