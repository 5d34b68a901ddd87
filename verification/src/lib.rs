//! A bounded-concurrency request scheduler and the pieces around it.
//!
//! Given a finite sequence of jobs and a worker budget, the scheduler model
//! executes at most that many calls concurrently, hands results back in
//! completion order through a bounded channel, and cancels every worker the
//! moment the consumer stops pulling.

pub mod collect;
pub mod jobs;
pub mod outcome;
pub mod report;
pub mod rng;
pub mod scheduler;
pub mod session;
pub mod sleep;
pub mod subpages;

pub use jobs::{Job, JobQueue};
pub use outcome::{CallError, JobOutcome, JobResult};
pub use report::{Report, StatReport};
pub use scheduler::{Scheduler, TermReason, WorkerPhase};
pub use sleep::{SleepParams, SleepParamsError};
pub use subpages::{PageResponse, SubpageService};
