//! Per-job results: what one worker reports for one job.

use crate::jobs::Job;
use vstd::prelude::*;

verus! {

/// Why a call failed. `Transport` stands for failures below the protocol
/// (cannot connect, connection reset); `Status` for a response that arrived
/// with a non-success code.
#[derive(Clone, Copy, PartialEq, Eq, Structural, Debug)]
pub enum CallError {
    Transport,
    Status(u16),
}

/// The outcome of performing one job: the elapsed wall-clock nanoseconds on
/// success, or the cause of the failure. Never retried; never aborts sibling
/// workers.
#[derive(Clone, Copy, PartialEq, Eq, Structural, Debug)]
pub enum JobOutcome {
    Success(u64),
    Failure(CallError),
}

/// One stream item: the job together with its outcome. Produced by exactly
/// one worker per job, consumed by exactly one stream read.
#[derive(Debug)]
pub struct JobResult {
    pub job: Job,
    pub outcome: JobOutcome,
}

impl View for JobResult {
    type V = (Seq<char>, JobOutcome);

    open spec fn view(&self) -> (Seq<char>, JobOutcome) {
        (self.job@, self.outcome)
    }
}

/// What `classify_outcome` returns, as a spec-level function.
pub open spec fn classified(status: Option<u16>, elapsed_ns: u64) -> JobOutcome {
    match status {
        None => JobOutcome::Failure(CallError::Transport),
        Some(s) => if 400 <= s < 600 {
            JobOutcome::Failure(CallError::Status(s))
        } else {
            JobOutcome::Success(elapsed_ns)
        },
    }
}

/// Classifies one finished call. `status` is `None` when the transport failed
/// before any response arrived; otherwise the response's status code. Client
/// and server error codes (400..=599) are failures; anything else is a
/// success carrying the measured duration.
pub fn classify_outcome(status: Option<u16>, elapsed_ns: u64) -> (r: JobOutcome)
    ensures
        r == classified(status, elapsed_ns),
{
    match status {
        None => JobOutcome::Failure(CallError::Transport),
        Some(s) => {
            if 400 <= s && s < 600 {
                JobOutcome::Failure(CallError::Status(s))
            } else {
                JobOutcome::Success(elapsed_ns)
            }
        },
    }
}

} // verus!
