//! The scheduler's state machine: a worker pool over a shared FIFO queue,
//! a bounded result channel, and cancellation of the whole pool at once.
//!
//! The type records every observable piece of the scheduler: the pending
//! queue, each worker's phase, the channel's buffer, and (as ghost history)
//! the submitted jobs, the delivered results and the results thrown away by
//! cancellation or by a departed consumer. Each transition is an executable
//! method whose contract says exactly what moved; the invariant ties them
//! together, and the public lemmas state what the whole machine guarantees.

use crate::jobs::{views_of_jobs, Job, JobQueue};
use crate::outcome::{JobOutcome, JobResult};
use std::collections::VecDeque;
use vstd::multiset::Multiset;
use vstd::prelude::*;

verus! {

broadcast use vstd::multiset::group_multiset_axioms;

/// Why a worker stopped. All three are observationally equivalent to the
/// scheduler — no result, no further queue activity — and differ only in why
/// no further progress occurs.
#[derive(Clone, Copy, PartialEq, Eq, Structural, Debug)]
pub enum TermReason {
    /// The queue came up empty: the normal end of a worker's loop.
    Drained,
    /// A send failed because the consumer dropped the stream.
    ConsumerGone,
    /// The pool was cancelled from outside, mid-call or idle.
    Cancelled,
}

/// One worker's phase. A worker owns at most one job at a time: the job it
/// is calling (`Running`) or the result it is pushing (`Sending`).
#[derive(Debug)]
pub enum WorkerPhase {
    Idle,
    Running(Job),
    Sending(JobResult),
    Terminated(TermReason),
}

/// The job (if any) that a phase holds, as a multiset of job views.
pub open spec fn phase_jobs(p: WorkerPhase) -> Multiset<Seq<char>> {
    match p {
        WorkerPhase::Running(j) => Multiset::singleton(j@),
        WorkerPhase::Sending(r) => Multiset::singleton(r.job@),
        _ => Multiset::empty(),
    }
}

/// All jobs currently owned by some worker: popped but not yet handed to the
/// channel.
pub open spec fn inflight_jobs(ws: Seq<WorkerPhase>) -> Multiset<Seq<char>>
    decreases ws.len(),
{
    if ws.len() == 0 {
        Multiset::empty()
    } else {
        inflight_jobs(ws.drop_last()).add(phase_jobs(ws.last()))
    }
}

/// 1 if the phase is mid-call, else 0.
pub open spec fn run_one(p: WorkerPhase) -> nat {
    if p is Running {
        1
    } else {
        0
    }
}

/// How many workers are mid-call: jobs popped but not yet resolved.
pub open spec fn running_count(ws: Seq<WorkerPhase>) -> nat
    decreases ws.len(),
{
    if ws.len() == 0 {
        0
    } else {
        running_count(ws.drop_last()) + run_one(ws.last())
    }
}

/// The pending jobs of the queue, as a multiset of views.
pub open spec fn queue_jobs(js: Seq<Job>) -> Multiset<Seq<char>>
    decreases js.len(),
{
    if js.len() == 0 {
        Multiset::empty()
    } else {
        queue_jobs(js.drop_last()).insert(js.last()@)
    }
}

/// A sequence of job views as a multiset.
pub open spec fn views_ms(vs: Seq<Seq<char>>) -> Multiset<Seq<char>>
    decreases vs.len(),
{
    if vs.len() == 0 {
        Multiset::empty()
    } else {
        views_ms(vs.drop_last()).insert(vs.last())
    }
}

/// The jobs whose results sit in the channel's buffer.
pub open spec fn channel_jobs(rs: Seq<JobResult>) -> Multiset<Seq<char>>
    decreases rs.len(),
{
    if rs.len() == 0 {
        Multiset::empty()
    } else {
        channel_jobs(rs.drop_last()).insert(rs.last().job@)
    }
}

/// The jobs whose results the consumer has already pulled.
pub open spec fn delivered_jobs(ds: Seq<(Seq<char>, JobOutcome)>) -> Multiset<Seq<char>>
    decreases ds.len(),
{
    if ds.len() == 0 {
        Multiset::empty()
    } else {
        delivered_jobs(ds.drop_last()).insert(ds.last().0)
    }
}

/// The views of buffered results, in buffer order.
pub open spec fn views_of_results(rs: Seq<JobResult>) -> Seq<(Seq<char>, JobOutcome)> {
    rs.map_values(|r: JobResult| r@)
}

proof fn lemma_views_ms_of_jobs(js: Seq<Job>)
    ensures
        queue_jobs(js) == views_ms(views_of_jobs(js)),
    decreases js.len(),
{
    if js.len() > 0 {
        lemma_views_ms_of_jobs(js.drop_last());
        assert(views_of_jobs(js).drop_last() =~= views_of_jobs(js.drop_last()));
        assert(views_of_jobs(js).last() == js.last()@);
    } else {
        assert(views_of_jobs(js).len() == 0);
    }
}

proof fn lemma_queue_jobs_drop_first(js: Seq<Job>)
    requires
        js.len() > 0,
    ensures
        queue_jobs(js) =~= queue_jobs(js.drop_first()).insert(js[0]@),
        forall|v: Seq<char>| #[trigger]
            queue_jobs(js).count(v) == queue_jobs(js.drop_first()).count(v) + Multiset::singleton(
                js[0]@,
            ).count(v),
    decreases js.len(),
{
    let df = js.drop_first();
    lemma_queue_jobs_drop_first_ms(js);
    assert forall|v: Seq<char>| #[trigger]
        queue_jobs(js).count(v) == queue_jobs(df).count(v) + Multiset::singleton(
            js[0]@,
        ).count(v) by {
        assert(queue_jobs(df).insert(js[0]@).count(v) == queue_jobs(df).count(v)
            + Multiset::singleton(js[0]@).count(v));
    }
}

proof fn lemma_queue_jobs_drop_first_ms(js: Seq<Job>)
    requires
        js.len() > 0,
    ensures
        queue_jobs(js) =~= queue_jobs(js.drop_first()).insert(js[0]@),
    decreases js.len(),
{
    let df = js.drop_first();
    if js.len() == 1 {
        assert(df.len() == 0);
        assert(queue_jobs(df) == Multiset::<Seq<char>>::empty());
        assert(js.drop_last().len() == 0);
        assert(queue_jobs(js.drop_last()) == Multiset::<Seq<char>>::empty());
        assert(js.last() == js[0]);
    } else {
        let dl = js.drop_last();
        lemma_queue_jobs_drop_first_ms(dl);
        assert(df.drop_last() =~= dl.drop_first());
        assert(df.last() == js.last());
        assert(dl[0] == js[0]);
        assert(queue_jobs(js) == queue_jobs(dl).insert(js.last()@));
        assert(queue_jobs(df) == queue_jobs(df.drop_last()).insert(df.last()@));
        assert(queue_jobs(df.drop_last()) == queue_jobs(dl.drop_first()));
    }
}

proof fn lemma_channel_jobs_drop_first(rs: Seq<JobResult>)
    requires
        rs.len() > 0,
    ensures
        channel_jobs(rs) =~= channel_jobs(rs.drop_first()).insert(rs[0].job@),
        forall|v: Seq<char>| #[trigger]
            channel_jobs(rs).count(v) == channel_jobs(rs.drop_first()).count(v)
                + Multiset::singleton(rs[0].job@).count(v),
{
    let df = rs.drop_first();
    lemma_channel_jobs_drop_first_ms(rs);
    assert forall|v: Seq<char>| #[trigger]
        channel_jobs(rs).count(v) == channel_jobs(df).count(v) + Multiset::singleton(
            rs[0].job@,
        ).count(v) by {
        assert(channel_jobs(df).insert(rs[0].job@).count(v) == channel_jobs(df).count(v)
            + Multiset::singleton(rs[0].job@).count(v));
    }
}

proof fn lemma_channel_jobs_drop_first_ms(rs: Seq<JobResult>)
    requires
        rs.len() > 0,
    ensures
        channel_jobs(rs) =~= channel_jobs(rs.drop_first()).insert(rs[0].job@),
    decreases rs.len(),
{
    let df = rs.drop_first();
    if rs.len() == 1 {
        assert(df.len() == 0);
        assert(channel_jobs(df) == Multiset::<Seq<char>>::empty());
        assert(rs.drop_last().len() == 0);
        assert(channel_jobs(rs.drop_last()) == Multiset::<Seq<char>>::empty());
        assert(rs.last() == rs[0]);
    } else {
        let dl = rs.drop_last();
        lemma_channel_jobs_drop_first_ms(dl);
        assert(df.drop_last() =~= dl.drop_first());
        assert(df.last() == rs.last());
        assert(dl[0] == rs[0]);
        assert(channel_jobs(rs) == channel_jobs(dl).insert(rs.last().job@));
        assert(channel_jobs(df) == channel_jobs(df.drop_last()).insert(df.last().job@));
        assert(channel_jobs(df.drop_last()) == channel_jobs(dl.drop_first()));
    }
}

proof fn lemma_channel_jobs_push(rs: Seq<JobResult>, r: JobResult)
    ensures
        channel_jobs(rs.push(r)) == channel_jobs(rs).insert(r.job@),
        forall|v: Seq<char>| #[trigger]
            channel_jobs(rs.push(r)).count(v) == channel_jobs(rs).count(v) + Multiset::singleton(
                r.job@,
            ).count(v),
{
    assert(rs.push(r).drop_last() =~= rs);
    assert(rs.push(r).last() == r);
    assert forall|v: Seq<char>| #[trigger]
        channel_jobs(rs.push(r)).count(v) == channel_jobs(rs).count(v) + Multiset::singleton(
            r.job@,
        ).count(v) by {
        assert(channel_jobs(rs).insert(r.job@).count(v) == channel_jobs(rs).count(v)
            + Multiset::singleton(r.job@).count(v));
    }
}

proof fn lemma_delivered_jobs_push(ds: Seq<(Seq<char>, JobOutcome)>, d: (Seq<char>, JobOutcome))
    ensures
        delivered_jobs(ds.push(d)) == delivered_jobs(ds).insert(d.0),
        forall|v: Seq<char>| #[trigger]
            delivered_jobs(ds.push(d)).count(v) == delivered_jobs(ds).count(v)
                + Multiset::singleton(d.0).count(v),
{
    assert(ds.push(d).drop_last() =~= ds);
    assert(ds.push(d).last() == d);
    assert forall|v: Seq<char>| #[trigger]
        delivered_jobs(ds.push(d)).count(v) == delivered_jobs(ds).count(v) + Multiset::singleton(
            d.0,
        ).count(v) by {
        assert(delivered_jobs(ds).insert(d.0).count(v) == delivered_jobs(ds).count(v)
            + Multiset::singleton(d.0).count(v));
    }
}

proof fn lemma_inflight_update(ws: Seq<WorkerPhase>, i: int, p: WorkerPhase)
    requires
        0 <= i < ws.len(),
    ensures
        inflight_jobs(ws.update(i, p)).add(phase_jobs(ws[i])) =~= inflight_jobs(ws).add(
            phase_jobs(p),
        ),
        forall|v: Seq<char>| #[trigger]
            inflight_jobs(ws.update(i, p)).count(v) + phase_jobs(ws[i]).count(v) == inflight_jobs(
                ws,
            ).count(v) + phase_jobs(p).count(v),
{
    lemma_inflight_update_ms(ws, i, p);
    assert forall|v: Seq<char>| #[trigger]
        inflight_jobs(ws.update(i, p)).count(v) + phase_jobs(ws[i]).count(v) == inflight_jobs(
            ws,
        ).count(v) + phase_jobs(p).count(v) by {
        assert(inflight_jobs(ws.update(i, p)).add(phase_jobs(ws[i])).count(v) == inflight_jobs(
            ws,
        ).add(phase_jobs(p)).count(v));
    }
}

proof fn lemma_inflight_update_ms(ws: Seq<WorkerPhase>, i: int, p: WorkerPhase)
    requires
        0 <= i < ws.len(),
    ensures
        inflight_jobs(ws.update(i, p)).add(phase_jobs(ws[i])) =~= inflight_jobs(ws).add(
            phase_jobs(p),
        ),
    decreases ws.len(),
{
    let up = ws.update(i, p);
    if i == ws.len() - 1 {
        assert(up.drop_last() =~= ws.drop_last());
        assert(up.last() == p);
        assert(ws[i] == ws.last());
        assert(up.len() == ws.len());
        assert(inflight_jobs(up) == inflight_jobs(ws.drop_last()).add(phase_jobs(p)));
        assert(inflight_jobs(ws) == inflight_jobs(ws.drop_last()).add(phase_jobs(ws.last())));
        assert forall|v: Seq<char>|
            inflight_jobs(up).add(phase_jobs(ws[i])).count(v) == inflight_jobs(ws).add(
                phase_jobs(p),
            ).count(v) by {}
    } else {
        let dl = ws.drop_last();
        lemma_inflight_update_ms(dl, i, p);
        assert(up.drop_last() =~= dl.update(i, p));
        assert(up.last() == ws.last());
        assert(dl[i] == ws[i]);
        assert(up.len() == ws.len());
        assert(inflight_jobs(up) == inflight_jobs(dl.update(i, p)).add(phase_jobs(ws.last())));
        assert(inflight_jobs(ws) == inflight_jobs(dl).add(phase_jobs(ws.last())));
        assert forall|v: Seq<char>|
            inflight_jobs(up).add(phase_jobs(ws[i])).count(v) == inflight_jobs(ws).add(
                phase_jobs(p),
            ).count(v) by {
            assert(inflight_jobs(dl.update(i, p)).add(phase_jobs(dl[i])).count(v)
                == inflight_jobs(dl).add(phase_jobs(p)).count(v));
        }
    }
}

proof fn lemma_running_le_len(ws: Seq<WorkerPhase>)
    ensures
        running_count(ws) <= ws.len(),
    decreases ws.len(),
{
    if ws.len() > 0 {
        lemma_running_le_len(ws.drop_last());
    }
}

proof fn lemma_running_below_len(ws: Seq<WorkerPhase>, i: int)
    requires
        0 <= i < ws.len(),
        !(ws[i] is Running),
    ensures
        running_count(ws) + 1 <= ws.len(),
    decreases ws.len(),
{
    if i == ws.len() - 1 {
        lemma_running_le_len(ws.drop_last());
    } else {
        lemma_running_below_len(ws.drop_last(), i);
        assert(ws.drop_last()[i] == ws[i]);
    }
}

proof fn lemma_inflight_empty(ws: Seq<WorkerPhase>)
    requires
        forall|i: int|
            0 <= i < ws.len() ==> !((#[trigger] ws[i]) is Running) && !(ws[i] is Sending),
    ensures
        inflight_jobs(ws) =~= Multiset::<Seq<char>>::empty(),
    decreases ws.len(),
{
    if ws.len() > 0 {
        assert(forall|i: int|
            0 <= i < ws.drop_last().len() ==> #[trigger] ws.drop_last()[i] == ws[i]);
        lemma_inflight_empty(ws.drop_last());
        assert(ws.last() == ws[ws.len() - 1]);
    }
}

proof fn lemma_running_zero(ws: Seq<WorkerPhase>)
    requires
        forall|i: int| 0 <= i < ws.len() ==> !((#[trigger] ws[i]) is Running),
    ensures
        running_count(ws) == 0,
    decreases ws.len(),
{
    if ws.len() > 0 {
        assert(forall|i: int|
            0 <= i < ws.drop_last().len() ==> #[trigger] ws.drop_last()[i] == ws[i]);
        lemma_running_zero(ws.drop_last());
        assert(ws.last() == ws[ws.len() - 1]);
    }
}

/// The scheduler: construction populates the queue and spawns the workers
/// idle; the methods are its transitions, one per observable event.
pub struct Scheduler {
    /// Ghost history: the views of the submitted jobs, in submission order.
    pub initial: Ghost<Seq<Seq<char>>>,
    /// The shared FIFO of pending jobs, only ever drained.
    pub queue: JobQueue,
    /// One phase per worker.
    pub workers: Vec<WorkerPhase>,
    /// The bounded result channel's buffer, in send (completion) order.
    pub channel: VecDeque<JobResult>,
    /// The channel's fixed capacity.
    pub capacity: usize,
    /// Ghost history: the results the consumer has pulled, in delivery order.
    pub delivered: Ghost<Seq<(Seq<char>, JobOutcome)>>,
    /// Ghost history: every result the channel accepted, in send order —
    /// which is completion order as the channel observes it.
    pub sent: Ghost<Seq<(Seq<char>, JobOutcome)>>,
    /// Ghost history: jobs whose results were thrown away because the
    /// consumer left or the pool was cancelled.
    pub lost: Ghost<Multiset<Seq<char>>>,
    /// How many calls were ever started (successful pops).
    pub calls_started: usize,
    /// Whether the consumer still holds the receiving side.
    pub consumer_live: bool,
    /// Whether the pool has been cancelled.
    pub cancelled: bool,
}

impl Scheduler {
    /// Everything the transitions preserve. Central is conservation: every
    /// submitted job is in exactly one place — pending, owned by a worker,
    /// buffered in the channel, delivered, or lost to cancellation.
    pub open spec fn inv(&self) -> bool {
        &&& self.workers@.len() >= 1
        &&& self.capacity >= 1
        &&& self.channel@.len() <= self.capacity
        &&& self.initial@.len() <= usize::MAX
        &&& self.calls_started + self.queue@.len() == self.initial@.len()
        &&& views_ms(self.initial@) == queue_jobs(self.queue@).add(
            inflight_jobs(self.workers@),
        ).add(channel_jobs(self.channel@)).add(delivered_jobs(self.delivered@)).add(self.lost@)
        &&& self.sent@ == self.delivered@ + views_of_results(self.channel@)
        &&& (self.consumer_live && !self.cancelled ==> self.lost@ == Multiset::<Seq<char>>::empty())
        &&& (self.cancelled ==> forall|i: int|
            0 <= i < self.workers@.len() ==> (#[trigger] self.workers@[i]) is Terminated)
        &&& (forall|i: int|
            0 <= i < self.workers@.len() && (#[trigger] self.workers@[i]) == WorkerPhase::Terminated(
                TermReason::Drained,
            ) ==> self.queue@.len() == 0)
    }

    /// Builds the scheduler: the queue holds the whole job source in
    /// submission order, all workers start idle, the channel starts empty,
    /// and nothing has been started, delivered or lost.
    pub fn new(source: Vec<Job>, workers: usize, capacity: usize) -> (s: Scheduler)
        requires
            1 <= workers,
            1 <= capacity,
        ensures
            s.inv(),
            s.initial@ == views_of_jobs(source@),
            s.queue@ == source@,
            s.workers@.len() == workers,
            forall|i: int| 0 <= i < workers ==> (#[trigger] s.workers@[i]) == WorkerPhase::Idle,
            s.channel@.len() == 0,
            s.capacity == capacity,
            s.delivered@.len() == 0,
            s.sent@.len() == 0,
            s.lost@ == Multiset::<Seq<char>>::empty(),
            s.calls_started == 0,
            s.consumer_live,
            !s.cancelled,
    {
        let ghost initial = views_of_jobs(source@);
        let n_jobs = source.len();
        proof {
            assert(initial.len() == n_jobs);
        }
        let queue = JobQueue::from_jobs(source);
        let mut ws: Vec<WorkerPhase> = Vec::new();
        let mut i: usize = 0;
        while i < workers
            invariant
                i <= workers,
                ws@.len() == i,
                forall|k: int| 0 <= k < i ==> (#[trigger] ws@[k]) == WorkerPhase::Idle,
            decreases workers - i,
        {
            ws.push(WorkerPhase::Idle);
            i = i + 1;
        }
        let s = Scheduler {
            initial: Ghost(initial),
            queue,
            workers: ws,
            channel: VecDeque::new(),
            capacity,
            delivered: Ghost(Seq::empty()),
            sent: Ghost(Seq::empty()),
            lost: Ghost(Multiset::empty()),
            calls_started: 0,
            consumer_live: true,
            cancelled: false,
        };
        proof {
            lemma_views_ms_of_jobs(s.queue@);
            lemma_inflight_empty(s.workers@);
            assert(s.sent@ =~= s.delivered@ + views_of_results(s.channel@));
            assert(views_ms(s.initial@) =~= queue_jobs(s.queue@).add(
                inflight_jobs(s.workers@),
            ).add(channel_jobs(s.channel@)).add(delivered_jobs(s.delivered@)).add(s.lost@));
        }
        s
    }

    /// An idle worker asks the queue for work. With a job pending it takes
    /// the front one — in submission order — and goes mid-call; with the
    /// queue empty it terminates, drained, and the answer stays empty for
    /// every later pop.
    pub fn worker_pop(&mut self, w: usize) -> (popped: bool)
        requires
            old(self).inv(),
            w < old(self).workers@.len(),
            old(self).workers@[w as int] == WorkerPhase::Idle,
        ensures
            final(self).inv(),
            final(self).initial == old(self).initial,
            final(self).capacity == old(self).capacity,
            final(self).channel@ == old(self).channel@,
            final(self).delivered == old(self).delivered,
            final(self).sent == old(self).sent,
            final(self).lost == old(self).lost,
            final(self).consumer_live == old(self).consumer_live,
            final(self).cancelled == old(self).cancelled,
            final(self).workers@.len() == old(self).workers@.len(),
            forall|k: int|
                0 <= k < old(self).workers@.len() && k != w ==> final(self).workers@[k] == old(
                    self,
                ).workers@[k],
            popped ==> old(self).queue@.len() > 0 && final(self).workers@[w as int]
                == WorkerPhase::Running(old(self).queue@[0]) && final(self).queue@ == old(
                self,
            ).queue@.drop_first() && final(self).calls_started == old(self).calls_started + 1,
            !popped ==> old(self).queue@.len() == 0 && final(self).workers@[w as int]
                == WorkerPhase::Terminated(TermReason::Drained) && final(self).queue@ == old(
                self,
            ).queue@ && final(self).calls_started == old(self).calls_started,
    {
        let r = self.queue.pop_next();
        match r {
            Some(j) => {
                self.workers[w] = WorkerPhase::Running(j);
                self.calls_started = self.calls_started + 1;
                proof {
                    lemma_queue_jobs_drop_first(old(self).queue@);
                    lemma_inflight_update(
                        old(self).workers@,
                        w as int,
                        WorkerPhase::Running(old(self).queue@[0]),
                    );
                    assert(views_ms(self.initial@) =~= queue_jobs(self.queue@).add(
                        inflight_jobs(self.workers@),
                    ).add(channel_jobs(self.channel@)).add(delivered_jobs(self.delivered@)).add(
                        self.lost@,
                    ));
                }
                true
            },
            None => {
                self.workers[w] = WorkerPhase::Terminated(TermReason::Drained);
                proof {
                    lemma_inflight_update(
                        old(self).workers@,
                        w as int,
                        WorkerPhase::Terminated(TermReason::Drained),
                    );
                    assert(views_ms(self.initial@) =~= queue_jobs(self.queue@).add(
                        inflight_jobs(self.workers@),
                    ).add(channel_jobs(self.channel@)).add(delivered_jobs(self.delivered@)).add(
                        self.lost@,
                    ));
                }
                false
            },
        }
    }

    /// A mid-call worker's remote call came back and was classified: the
    /// worker now owns the finished result and turns to pushing it onto the
    /// channel. The caller decides the outcome, which is how tests inject
    /// latency and failure.
    pub fn worker_finish(&mut self, w: usize, outcome: JobOutcome)
        requires
            old(self).inv(),
            w < old(self).workers@.len(),
            old(self).workers@[w as int] is Running,
        ensures
            final(self).inv(),
            final(self).initial == old(self).initial,
            final(self).capacity == old(self).capacity,
            final(self).queue@ == old(self).queue@,
            final(self).channel@ == old(self).channel@,
            final(self).delivered == old(self).delivered,
            final(self).sent == old(self).sent,
            final(self).lost == old(self).lost,
            final(self).calls_started == old(self).calls_started,
            final(self).consumer_live == old(self).consumer_live,
            final(self).cancelled == old(self).cancelled,
            final(self).workers@.len() == old(self).workers@.len(),
            forall|k: int|
                0 <= k < old(self).workers@.len() && k != w ==> final(self).workers@[k] == old(
                    self,
                ).workers@[k],
            (old(self).workers@[w as int] matches WorkerPhase::Running(j) ==> final(self).workers@[w as int] == WorkerPhase::Sending(JobResult { job: j, outcome })),
    {
        let mut taken = WorkerPhase::Idle;
        let slot = &mut self.workers[w];
        core::mem::swap(&mut taken, slot);
        match taken {
            WorkerPhase::Running(job) => {
                self.workers[w] = WorkerPhase::Sending(JobResult { job, outcome });
                proof {
                    let ws0 = old(self).workers@;
                    let sent = WorkerPhase::Sending(
                        JobResult { job: ws0[w as int]->Running_0, outcome },
                    );
                    assert(self.workers@ =~= ws0.update(w as int, sent));
                    lemma_inflight_update(ws0, w as int, sent);
                    assert(views_ms(self.initial@) =~= queue_jobs(self.queue@).add(
                        inflight_jobs(self.workers@),
                    ).add(channel_jobs(self.channel@)).add(delivered_jobs(self.delivered@)).add(
                        self.lost@,
                    ));
                }
            },
            _ => {
                proof {
                    assert(false);
                }
            },
        }
    }

    /// A worker with a finished result hands it to the channel. While the
    /// consumer holds the stream the result is buffered — the caller may
    /// only attempt this when the channel has room, which is the
    /// backpressure that suspends producers. Once the consumer is gone the
    /// send fails, the result is dropped, and the worker terminates quietly.
    pub fn worker_send(&mut self, w: usize) -> (sent: bool)
        requires
            old(self).inv(),
            w < old(self).workers@.len(),
            old(self).workers@[w as int] is Sending,
            old(self).channel@.len() < old(self).capacity || !old(self).consumer_live,
        ensures
            final(self).inv(),
            final(self).initial == old(self).initial,
            final(self).capacity == old(self).capacity,
            final(self).queue@ == old(self).queue@,
            final(self).delivered == old(self).delivered,
            final(self).calls_started == old(self).calls_started,
            final(self).consumer_live == old(self).consumer_live,
            final(self).cancelled == old(self).cancelled,
            final(self).workers@.len() == old(self).workers@.len(),
            forall|k: int|
                0 <= k < old(self).workers@.len() && k != w ==> final(self).workers@[k] == old(
                    self,
                ).workers@[k],
            sent == old(self).consumer_live,
            (old(self).workers@[w as int] matches WorkerPhase::Sending(r) ==> if old(
                self,
            ).consumer_live {
                &&& final(self).channel@ == old(self).channel@.push(r)
                &&& final(self).sent@ == old(self).sent@.push(r@)
                &&& final(self).workers@[w as int] == WorkerPhase::Idle
                &&& final(self).lost == old(self).lost
            } else {
                &&& final(self).channel@ == old(self).channel@
                &&& final(self).sent == old(self).sent
                &&& final(self).workers@[w as int] == WorkerPhase::Terminated(
                    TermReason::ConsumerGone,
                )
                &&& final(self).lost@ == old(self).lost@.insert(r.job@)
            }),
    {
        let mut taken = WorkerPhase::Idle;
        let slot = &mut self.workers[w];
        core::mem::swap(&mut taken, slot);
        match taken {
            WorkerPhase::Sending(res) => {
                let ghost ws0 = old(self).workers@;
                let ghost r0 = ws0[w as int]->Sending_0;
                if self.consumer_live {
                    let ghost rv = res@;
                    self.channel.push_back(res);
                    self.sent = Ghost(self.sent@.push(rv));
                    self.workers[w] = WorkerPhase::Idle;
                    proof {
                        assert(self.workers@ =~= ws0.update(w as int, WorkerPhase::Idle));
                        lemma_inflight_update(ws0, w as int, WorkerPhase::Idle);
                        lemma_channel_jobs_push(old(self).channel@, r0);
                        assert(views_of_results(old(self).channel@.push(r0)) =~= views_of_results(
                            old(self).channel@,
                        ).push(rv));
                        assert(self.sent@ =~= self.delivered@ + views_of_results(self.channel@));
                        assert(views_ms(self.initial@) =~= queue_jobs(self.queue@).add(
                            inflight_jobs(self.workers@),
                        ).add(channel_jobs(self.channel@)).add(delivered_jobs(self.delivered@)).add(
                            self.lost@,
                        ));
                    }
                    true
                } else {
                    self.lost = Ghost(self.lost@.insert(res.job@));
                    self.workers[w] = WorkerPhase::Terminated(TermReason::ConsumerGone);
                    proof {
                        let cg = WorkerPhase::Terminated(TermReason::ConsumerGone);
                        assert(self.workers@ =~= ws0.update(w as int, cg));
                        lemma_inflight_update(ws0, w as int, cg);
                        assert(views_ms(self.initial@) =~= queue_jobs(self.queue@).add(
                            inflight_jobs(self.workers@),
                        ).add(channel_jobs(self.channel@)).add(delivered_jobs(self.delivered@)).add(
                            self.lost@,
                        ));
                    }
                    false
                }
            },
            _ => {
                proof {
                    assert(false);
                }
                false
            },
        }
    }

    /// The consumer pulls the stream once. With results buffered it takes
    /// the oldest — completion order, not submission order. With the buffer
    /// empty it may only give up — `None`, end of stream — once every
    /// producer has terminated; otherwise it would still have to wait.
    pub fn consumer_next(&mut self) -> (r: Option<JobResult>)
        requires
            old(self).inv(),
            old(self).consumer_live,
            old(self).channel@.len() > 0 || (forall|i: int|
                0 <= i < old(self).workers@.len() ==> (#[trigger] old(
                    self,
                ).workers@[i]) is Terminated),
        ensures
            final(self).inv(),
            final(self).initial == old(self).initial,
            final(self).capacity == old(self).capacity,
            final(self).queue@ == old(self).queue@,
            final(self).workers@ == old(self).workers@,
            final(self).sent == old(self).sent,
            final(self).lost == old(self).lost,
            final(self).calls_started == old(self).calls_started,
            final(self).consumer_live == old(self).consumer_live,
            final(self).cancelled == old(self).cancelled,
            match r {
                Some(res) => old(self).channel@.len() > 0 && res == old(self).channel@[0] && final(self).channel@ == old(self).channel@.drop_first() && final(self).delivered@ == old(
                    self,
                ).delivered@.push(res@),
                None => old(self).channel@.len() == 0 && final(self).channel@ == old(self).channel@
                    && final(self).delivered == old(self).delivered,
            },
    {
        let r = self.channel.pop_front();
        match r {
            Some(res) => {
                let ghost rv = res@;
                self.delivered = Ghost(self.delivered@.push(rv));
                proof {
                    assert(old(self).channel@.subrange(1, old(self).channel@.len() as int)
                        =~= old(self).channel@.drop_first());
                    lemma_channel_jobs_drop_first(old(self).channel@);
                    lemma_delivered_jobs_push(old(self).delivered@, rv);
                    assert(views_of_results(old(self).channel@) =~= seq![rv] + views_of_results(
                        old(self).channel@.drop_first(),
                    ));
                    assert(self.sent@ =~= self.delivered@ + views_of_results(self.channel@));
                    assert(views_ms(self.initial@) =~= queue_jobs(self.queue@).add(
                        inflight_jobs(self.workers@),
                    ).add(channel_jobs(self.channel@)).add(delivered_jobs(self.delivered@)).add(
                        self.lost@,
                    ));
                }
                Some(res)
            },
            None => None,
        }
    }

    /// The consumer lets go of the stream: the receiving side closes and
    /// every cancellation handle fires at once. Each worker still going —
    /// idle, mid-call or pushing — is terminated on the spot, its unfinished
    /// work abandoned; cancelling an already-terminated worker changes
    /// nothing. No call is started after this returns.
    pub fn drop_stream(&mut self)
        requires
            old(self).inv(),
        ensures
            final(self).inv(),
            final(self).cancelled,
            !final(self).consumer_live,
            final(self).initial == old(self).initial,
            final(self).capacity == old(self).capacity,
            final(self).queue@ == old(self).queue@,
            final(self).channel@ == old(self).channel@,
            final(self).delivered == old(self).delivered,
            final(self).sent == old(self).sent,
            final(self).calls_started == old(self).calls_started,
            final(self).workers@.len() == old(self).workers@.len(),
            forall|i: int|
                0 <= i < old(self).workers@.len() ==> (#[trigger] final(self).workers@[i]) is Terminated,
            forall|i: int|
                0 <= i < old(self).workers@.len() ==> (if old(self).workers@[i] is Terminated {
                    final(self).workers@[i] == old(self).workers@[i]
                } else {
                    final(self).workers@[i] == WorkerPhase::Terminated(TermReason::Cancelled)
                }),
    {
        self.consumer_live = false;
        let n = self.workers.len();
        let mut i: usize = 0;
        while i < n
            invariant
                i <= n,
                n == self.workers@.len(),
                self.inv(),
                !self.consumer_live,
                self.cancelled == old(self).cancelled,
                self.initial == old(self).initial,
                self.capacity == old(self).capacity,
                self.queue@ == old(self).queue@,
                self.channel@ == old(self).channel@,
                self.delivered == old(self).delivered,
                self.sent == old(self).sent,
                self.calls_started == old(self).calls_started,
                forall|k: int| 0 <= k < i ==> (#[trigger] self.workers@[k]) is Terminated,
                forall|k: int|
                    0 <= k < i ==> (if old(self).workers@[k] is Terminated {
                        self.workers@[k] == old(self).workers@[k]
                    } else {
                        self.workers@[k] == WorkerPhase::Terminated(TermReason::Cancelled)
                    }),
                forall|k: int| i <= k < n ==> self.workers@[k] == old(self).workers@[k],
            decreases n - i,
        {
            let ghost pre = *self;
            let terminated = match &self.workers[i] {
                WorkerPhase::Terminated(_) => true,
                _ => false,
            };
            if !terminated {
                let ghost pj = phase_jobs(self.workers@[i as int]);
                self.lost = Ghost(self.lost@.add(pj));
                self.workers[i] = WorkerPhase::Terminated(TermReason::Cancelled);
                proof {
                    let cc = WorkerPhase::Terminated(TermReason::Cancelled);
                    assert(self.workers@ =~= pre.workers@.update(i as int, cc));
                    lemma_inflight_update(pre.workers@, i as int, cc);
                    assert(views_ms(self.initial@) =~= queue_jobs(self.queue@).add(
                        inflight_jobs(self.workers@),
                    ).add(channel_jobs(self.channel@)).add(delivered_jobs(self.delivered@)).add(
                        self.lost@,
                    ));
                }
            }
            i = i + 1;
        }
        self.cancelled = true;
    }

    /// How many workers are mid-call right now: the observable concurrency.
    pub fn running_now(&self) -> (n: usize)
        ensures
            n == running_count(self.workers@),
    {
        let mut n: usize = 0;
        let mut i: usize = 0;
        while i < self.workers.len()
            invariant
                i <= self.workers@.len(),
                n == running_count(self.workers@.take(i as int)),
                n <= i,
            decreases self.workers@.len() - i,
        {
            let more = match &self.workers[i] {
                WorkerPhase::Running(_) => true,
                _ => false,
            };
            proof {
                assert(self.workers@.take(i as int + 1).drop_last() =~= self.workers@.take(
                    i as int,
                ));
                assert(self.workers@.take(i as int + 1).last() == self.workers@[i as int]);
            }
            if more {
                n = n + 1;
            }
            i = i + 1;
        }
        proof {
            assert(self.workers@.take(self.workers@.len() as int) =~= self.workers@);
        }
        n
    }
}

proof fn lemma_views_ms_len(vs: Seq<Seq<char>>)
    ensures
        views_ms(vs).len() == vs.len(),
    decreases vs.len(),
{
    if vs.len() > 0 {
        lemma_views_ms_len(vs.drop_last());
    }
}

proof fn lemma_channel_jobs_len(rs: Seq<JobResult>)
    ensures
        channel_jobs(rs).len() == rs.len(),
    decreases rs.len(),
{
    if rs.len() > 0 {
        lemma_channel_jobs_len(rs.drop_last());
    }
}

proof fn lemma_delivered_jobs_len(ds: Seq<(Seq<char>, JobOutcome)>)
    ensures
        delivered_jobs(ds).len() == ds.len(),
    decreases ds.len(),
{
    if ds.len() > 0 {
        lemma_delivered_jobs_len(ds.drop_last());
    }
}

proof fn lemma_queue_jobs_len(js: Seq<Job>)
    ensures
        queue_jobs(js).len() == js.len(),
    decreases js.len(),
{
    if js.len() > 0 {
        lemma_queue_jobs_len(js.drop_last());
    }
}

/// With the stream exhausted — every worker drained, the channel empty, the
/// consumer still attached and nothing cancelled — the number of results
/// delivered equals the number of jobs submitted, and the delivered jobs are
/// exactly the submitted jobs: each job is represented in exactly one
/// result, whatever order the results arrived in.
pub proof fn lemma_exhausted_stream_delivers_all(s: Scheduler)
    requires
        s.inv(),
        s.consumer_live,
        !s.cancelled,
        forall|i: int|
            0 <= i < s.workers@.len() ==> (#[trigger] s.workers@[i]) == WorkerPhase::Terminated(
                TermReason::Drained,
            ),
        s.channel@.len() == 0,
    ensures
        s.delivered@.len() == s.initial@.len(),
        delivered_jobs(s.delivered@) == views_ms(s.initial@),
{
    assert(s.workers@[0] == WorkerPhase::Terminated(TermReason::Drained));
    assert(s.queue@.len() == 0);
    lemma_inflight_empty(s.workers@);
    assert(queue_jobs(s.queue@) == Multiset::<Seq<char>>::empty());
    assert(channel_jobs(s.channel@) == Multiset::<Seq<char>>::empty());
    assert(s.lost@ == Multiset::<Seq<char>>::empty());
    assert(views_ms(s.initial@) =~= delivered_jobs(s.delivered@));
    lemma_views_ms_len(s.initial@);
    lemma_delivered_jobs_len(s.delivered@);
}

/// At any instant the number of jobs popped but not yet resolved is at most
/// the worker budget: each worker holds at most one job.
pub proof fn lemma_concurrency_bound(s: Scheduler)
    requires
        s.inv(),
    ensures
        running_count(s.workers@) <= s.workers@.len(),
{
    lemma_running_le_len(s.workers@);
}

/// After cancellation the pool is quiescent: every worker is terminated and
/// none is mid-call, so no transition can start a call or produce a result
/// any more.
pub proof fn lemma_cancelled_pool_is_quiescent(s: Scheduler)
    requires
        s.inv(),
        s.cancelled,
    ensures
        forall|i: int| 0 <= i < s.workers@.len() ==> (#[trigger] s.workers@[i]) is Terminated,
        running_count(s.workers@) == 0,
{
    assert forall|i: int| 0 <= i < s.workers@.len() implies !((#[trigger] s.workers@[i]) is Running) by {
        assert(s.workers@[i] is Terminated);
    }
    lemma_running_zero(s.workers@);
}

/// With an empty job source nothing ever happens: no call is started, no
/// result is buffered, delivered or lost.
pub proof fn lemma_empty_source_stays_idle(s: Scheduler)
    requires
        s.inv(),
        s.initial@.len() == 0,
    ensures
        s.calls_started == 0,
        s.delivered@.len() == 0,
        s.channel@.len() == 0,
        s.queue@.len() == 0,
{
    lemma_views_ms_len(s.initial@);
    lemma_queue_jobs_len(s.queue@);
    lemma_channel_jobs_len(s.channel@);
    lemma_delivered_jobs_len(s.delivered@);
    assert(views_ms(s.initial@).len() == 0);
    assert(views_ms(s.initial@).len() == queue_jobs(s.queue@).len() + inflight_jobs(
        s.workers@,
    ).len() + channel_jobs(s.channel@).len() + delivered_jobs(s.delivered@).len() + s.lost@.len());
}

/// The moment the consumer abandons the stream on a failing result, the
/// worker that produced that result is no longer mid-call, so the jobs
/// started but about to be abandoned number at most the budget minus one.
pub proof fn lemma_abandoned_below_budget(s: Scheduler, w: int)
    requires
        s.inv(),
        0 <= w < s.workers@.len(),
        !(s.workers@[w] is Running),
    ensures
        running_count(s.workers@) + 1 <= s.workers@.len(),
{
    lemma_running_below_len(s.workers@, w);
}

/// Results reach the consumer in exactly the order the channel accepted
/// them — completion order as the channel observed it, not submission
/// order: what was delivered is a prefix of the send history, and the
/// channel buffers the remainder of that history in order.
pub proof fn lemma_delivery_in_completion_order(s: Scheduler)
    requires
        s.inv(),
    ensures
        s.delivered@ == s.sent@.take(s.delivered@.len() as int),
        views_of_results(s.channel@) == s.sent@.skip(s.delivered@.len() as int),
{
    assert(s.delivered@ =~= s.sent@.take(s.delivered@.len() as int));
    assert(views_of_results(s.channel@) =~= s.sent@.skip(s.delivered@.len() as int));
}

} // verus!
