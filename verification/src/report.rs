//! The measurements a session produces and the accumulated run report.

use vstd::prelude::*;

verus! {

/// One session's measurements: how many workers ran, the per-request
/// durations in delivery order, and the whole session's wall-clock time,
/// all in nanoseconds.
#[derive(Debug)]
pub struct Report {
    pub workers: usize,
    pub request_times: Vec<u64>,
    pub overall_ns: u64,
}

/// Everything one run accumulates: when it started and ended (Unix seconds),
/// the base URL it was aimed at, and one report per traversal.
#[derive(Debug)]
pub struct StatReport {
    pub start_time: Option<i64>,
    pub end_time: Option<i64>,
    pub base_url: String,
    pub traversals: Vec<Report>,
}

impl StatReport {
    /// A fresh report: no timestamps yet, no traversals.
    pub fn new(base_url: String) -> (r: StatReport)
        ensures
            r.start_time is None,
            r.end_time is None,
            r.base_url@ == base_url@,
            r.traversals@ == Seq::<Report>::empty(),
    {
        StatReport { start_time: None, end_time: None, base_url, traversals: Vec::new() }
    }

    /// Stamps the moment the run began.
    pub fn mark_start(&mut self, now: i64)
        ensures
            final(self).start_time == Some(now),
            final(self).end_time == old(self).end_time,
            final(self).base_url == old(self).base_url,
            final(self).traversals == old(self).traversals,
    {
        self.start_time = Some(now);
    }

    /// Stamps the moment the run finished.
    pub fn mark_end(&mut self, now: i64)
        ensures
            final(self).end_time == Some(now),
            final(self).start_time == old(self).start_time,
            final(self).base_url == old(self).base_url,
            final(self).traversals == old(self).traversals,
    {
        self.end_time = Some(now);
    }

    /// Appends one finished session's report, keeping the order sessions ran.
    pub fn record(&mut self, report: Report)
        ensures
            final(self).traversals@ == old(self).traversals@.push(report),
            final(self).start_time == old(self).start_time,
            final(self).end_time == old(self).end_time,
            final(self).base_url == old(self).base_url,
    {
        self.traversals.push(report);
    }
}

} // verus!
