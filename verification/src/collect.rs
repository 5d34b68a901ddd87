//! Eager collection of the result stream, short-circuiting on the first
//! failure.
//!
//! A consumer that wants every duration pulls the stream through a
//! `Collector`: each success is kept, and the first failure stops the
//! collection — which drops the stream and thereby cancels the pool.

use crate::outcome::{CallError, JobOutcome};
use vstd::prelude::*;

verus! {

/// What collecting a whole sequence of outcomes yields: the durations of all
/// successes in order, or the first failure's error.
pub open spec fn collect_spec(rs: Seq<JobOutcome>) -> Result<Seq<u64>, CallError>
    decreases rs.len(),
{
    if rs.len() == 0 {
        Ok(Seq::empty())
    } else {
        match rs.first() {
            JobOutcome::Success(ms) => match collect_spec(rs.drop_first()) {
                Ok(rest) => Ok(seq![ms] + rest),
                Err(e) => Err(e),
            },
            JobOutcome::Failure(e) => Err(e),
        }
    }
}

/// How many of these outcomes are failures.
pub open spec fn failure_count(rs: Seq<JobOutcome>) -> nat
    decreases rs.len(),
{
    if rs.len() == 0 {
        0
    } else {
        failure_count(rs.drop_last()) + (if rs.last() is Failure {
            1nat
        } else {
            0nat
        })
    }
}

/// The durations of a prefix of successes, in order.
pub open spec fn durations_of(rs: Seq<JobOutcome>) -> Seq<u64> {
    rs.map_values(|r: JobOutcome| r->Success_0)
}

/// Pull-by-pull collection state: the durations gathered so far.
pub struct Collector {
    pub times: Vec<u64>,
}

impl Collector {
    pub fn new() -> (c: Collector)
        ensures
            c.times@ == Seq::<u64>::empty(),
    {
        Collector { times: Vec::new() }
    }

    /// Feeds the next pulled outcome. A success is kept and the collection
    /// goes on (`Ok`); a failure is returned at once (`Err`) and the caller
    /// stops pulling, keeping what was gathered.
    pub fn accept(&mut self, r: &JobOutcome) -> (step: Result<(), CallError>)
        ensures
            match *r {
                JobOutcome::Success(ms) => step == Ok::<(), CallError>(()) && final(self).times@
                    == old(self).times@.push(ms),
                JobOutcome::Failure(e) => step == Err::<(), CallError>(e) && final(self).times@
                    == old(self).times@,
            },
    {
        match r {
            JobOutcome::Success(ms) => {
                self.times.push(*ms);
                Ok(())
            },
            JobOutcome::Failure(e) => Err(*e),
        }
    }
}

/// Collects a fully materialized sequence of outcomes at one go: the
/// durations of every job if all succeeded, else the first failure.
pub fn collect_results(rs: &Vec<JobOutcome>) -> (out: Result<Vec<u64>, CallError>)
    ensures
        match out {
            Ok(times) => collect_spec(rs@) == Ok::<Seq<u64>, CallError>(times@),
            Err(e) => collect_spec(rs@) == Err::<Seq<u64>, CallError>(e),
        },
{
    let mut c = Collector::new();
    let mut i: usize = 0;
    while i < rs.len()
        invariant
            i <= rs@.len(),
            forall|k: int| 0 <= k < i ==> (#[trigger] rs@[k]) is Success,
            c.times@ == durations_of(rs@.take(i as int)),
        decreases rs@.len() - i,
    {
        let step = c.accept(&rs[i]);
        match step {
            Ok(()) => {
                proof {
                    assert(durations_of(rs@.take(i as int + 1)) =~= durations_of(
                        rs@.take(i as int),
                    ).push(rs@[i as int]->Success_0));
                }
                i = i + 1;
            },
            Err(e) => {
                proof {
                    lemma_collect_spec_of_prefix(rs@, i as int);
                }
                return Err(e);
            },
        }
    }
    proof {
        assert(rs@.take(rs@.len() as int) =~= rs@);
        lemma_collect_spec_of_prefix(rs@, rs@.len() as int);
    }
    Ok(c.times)
}

/// Collection seen from position `i`, all earlier outcomes being successes:
/// if everything before `i` succeeded, the whole collection succeeds exactly
/// when everything from `i` on succeeds, the collected durations are those
/// of all outcomes in order, and the error, if any, is the first failure.
proof fn lemma_collect_spec_of_prefix(rs: Seq<JobOutcome>, i: int)
    requires
        0 <= i <= rs.len(),
        forall|k: int| 0 <= k < i ==> (#[trigger] rs[k]) is Success,
    ensures
        i < rs.len() && rs[i] is Failure ==> collect_spec(rs) == Err::<Seq<u64>, CallError>(
            rs[i]->Failure_0,
        ),
        i == rs.len() ==> collect_spec(rs) == Ok::<Seq<u64>, CallError>(durations_of(rs)),
    decreases rs.len(),
{
    if rs.len() == 0 {
        assert(durations_of(rs) =~= Seq::<u64>::empty());
    } else {
        if i == 0 {
            if rs[0] is Failure {
            } else {
                assert(i == 0 && rs.len() > 0);
            }
        } else {
            let df = rs.drop_first();
            assert(forall|k: int| 0 <= k < i - 1 ==> (#[trigger] df[k]) == rs[k + 1]);
            lemma_collect_spec_of_prefix(df, i - 1);
            assert(rs.first() is Success);
            if i < rs.len() && rs[i] is Failure {
                assert(df[i - 1] == rs[i]);
                assert(collect_spec(df) == Err::<Seq<u64>, CallError>(rs[i]->Failure_0));
            }
            if i == rs.len() {
                assert(collect_spec(df) == Ok::<Seq<u64>, CallError>(durations_of(df)));
                assert(durations_of(rs) =~= seq![rs.first()->Success_0] + durations_of(df));
            }
        }
    }
}

/// If the stream holds exactly one failing result, a consumer that collects
/// until the first failure observes that failure and nothing after it:
/// exactly one failure is ever seen, whatever came before it.
pub proof fn lemma_collect_sees_one_failure(rs: Seq<JobOutcome>, i: int)
    requires
        0 <= i < rs.len(),
        rs[i] is Failure,
        forall|k: int| 0 <= k < i ==> (#[trigger] rs[k]) is Success,
    ensures
        collect_spec(rs) == Err::<Seq<u64>, CallError>(rs[i]->Failure_0),
        failure_count(rs.take(i + 1)) == 1,
{
    lemma_collect_spec_of_prefix(rs, i);
    lemma_failure_count_prefix(rs, i);
}

proof fn lemma_failure_count_prefix(rs: Seq<JobOutcome>, i: int)
    requires
        0 <= i < rs.len(),
        rs[i] is Failure,
        forall|k: int| 0 <= k < i ==> (#[trigger] rs[k]) is Success,
    ensures
        failure_count(rs.take(i + 1)) == 1,
    decreases i,
{
    let p = rs.take(i + 1);
    assert(p.last() == rs[i]);
    assert(p.drop_last() =~= rs.take(i));
    lemma_failure_count_all_success(rs.take(i));
}

proof fn lemma_failure_count_all_success(rs: Seq<JobOutcome>)
    requires
        forall|k: int| 0 <= k < rs.len() ==> (#[trigger] rs[k]) is Success,
    ensures
        failure_count(rs) == 0,
    decreases rs.len(),
{
    if rs.len() > 0 {
        assert(forall|k: int|
            0 <= k < rs.drop_last().len() ==> (#[trigger] rs.drop_last()[k]) == rs[k]);
        lemma_failure_count_all_success(rs.drop_last());
        assert(rs.last() == rs[rs.len() - 1]);
    }
}

} // verus!
