//! Jobs and the shared FIFO queue the workers drain.

use std::collections::VecDeque;
use vstd::prelude::*;

verus! {

/// One unit of remote work: the target a worker will call (e.g. a URL).
/// Immutable once enqueued.
#[derive(Debug)]
pub struct Job {
    pub target: String,
}

impl View for Job {
    type V = Seq<char>;

    open spec fn view(&self) -> Seq<char> {
        self.target@
    }
}

impl Job {
    pub fn new(target: String) -> (j: Job)
        ensures
            j@ == target@,
    {
        Job { target }
    }

    /// An explicit copy with a known contract (a derived `Clone` would say
    /// nothing about the copy).
    pub fn dup(&self) -> (j: Job)
        ensures
            j@ == self@,
    {
        Job { target: self.target.clone() }
    }

    pub fn target(&self) -> (t: &String)
        ensures
            t@ == self@,
    {
        &self.target
    }
}

/// The views of a sequence of jobs, in the same order.
pub open spec fn views_of_jobs(s: Seq<Job>) -> Seq<Seq<char>> {
    s.map_values(|j: Job| j@)
}

/// An ordered collection of pending jobs, drained front-first.
///
/// The queue is populated once, at construction, and only ever popped after
/// that: once it reports empty it stays empty. Callers that share it between
/// workers wrap it in their own mutual exclusion, held only for the pop.
pub struct JobQueue {
    jobs: VecDeque<Job>,
}

impl View for JobQueue {
    type V = Seq<Job>;

    closed spec fn view(&self) -> Seq<Job> {
        self.jobs@
    }
}

impl JobQueue {
    /// Builds the queue from the job source, keeping submission order.
    pub fn from_jobs(source: Vec<Job>) -> (q: JobQueue)
        ensures
            q@ == source@,
    {
        let ghost all = source@;
        let mut source = source;
        let mut jobs: VecDeque<Job> = VecDeque::new();
        while source.len() > 0
            invariant
                source@ + jobs@ == all,
            decreases source@.len(),
        {
            let j = source.pop().unwrap();
            jobs.push_front(j);
            proof {
                assert(source@ + jobs@ =~= all);
            }
        }
        proof {
            assert(jobs@ =~= all);
        }
        JobQueue { jobs }
    }

    /// Pops the next pending job, in strict submission (FIFO) order.
    /// Returns `None` exactly when the queue is empty, and then changes
    /// nothing, so an empty answer is permanent.
    pub fn pop_next(&mut self) -> (r: Option<Job>)
        ensures
            match r {
                Some(j) => {
                    &&& old(self)@.len() > 0
                    &&& j == old(self)@[0]
                    &&& final(self)@ == old(self)@.drop_first()
                },
                None => {
                    &&& old(self)@.len() == 0
                    &&& final(self)@ == old(self)@
                },
            },
    {
        let r = self.jobs.pop_front();
        proof {
            if old(self)@.len() > 0 {
                assert(old(self)@.subrange(1, old(self)@.len() as int) =~= old(self)@.drop_first());
            }
        }
        r
    }

    pub fn len(&self) -> (n: usize)
        ensures
            n == self@.len(),
    {
        self.jobs.len()
    }

    pub fn is_empty(&self) -> (e: bool)
        ensures
            e <==> self@.len() == 0,
    {
        self.jobs.len() == 0
    }
}

} // verus!
