//! Building job lists for a session: the same target repeated, or one job
//! per line of an index page, each line joined against the root URL.

use crate::jobs::Job;
use vstd::prelude::*;

verus! {

/// The first newline at or after `i`, or the end of the text.
pub open spec fn find_newline(s: Seq<u8>, i: int) -> int
    recommends
        0 <= i <= s.len(),
    decreases s.len() - i,
{
    if i < 0 || i >= s.len() {
        s.len() as int
    } else if s[i] == 10 {
        i
    } else {
        find_newline(s, i + 1)
    }
}

/// A line with its trailing carriage return, if any, stripped.
pub open spec fn strip_cr(line: Seq<u8>) -> Seq<u8> {
    if line.len() > 0 && line.last() == 13 {
        line.drop_last()
    } else {
        line
    }
}

/// The lines of `s` from position `i` on: separated by newlines, a carriage
/// return stripped only where a newline follows it, and no phantom empty
/// line after a final newline. A last line no newline terminated keeps its
/// bytes as they are.
pub open spec fn lines_from(s: Seq<u8>, i: int) -> Seq<Seq<u8>>
    recommends
        0 <= i <= s.len(),
    decreases s.len() - i,
{
    if i < 0 || i >= s.len() {
        Seq::empty()
    } else {
        let j = find_newline(s, i);
        if i <= j && j < s.len() {
            seq![strip_cr(s.subrange(i, j))] + lines_from(s, j + 1)
        } else {
            seq![s.subrange(i, s.len() as int)]
        }
    }
}

/// What splitting a whole text into lines yields.
pub open spec fn split_lines_spec(s: Seq<u8>) -> Seq<Seq<u8>> {
    lines_from(s, 0)
}

/// The views of a list of byte lines.
pub open spec fn views_of_lines(ls: Seq<Vec<u8>>) -> Seq<Seq<u8>> {
    ls.map_values(|l: Vec<u8>| l@)
}

proof fn lemma_find_newline_at(s: Seq<u8>, st: int, i: int)
    requires
        0 <= st <= i <= s.len(),
        forall|k: int| st <= k < i ==> s[k] != 10,
        i < s.len() ==> s[i] == 10,
        i == s.len() || s[i] == 10,
    ensures
        find_newline(s, st) == i,
    decreases i - st,
{
    if st < i {
        lemma_find_newline_at(s, st + 1, i);
    }
}

/// Splits a text into its lines: separated by `\n`, a `\r` stripped only
/// where it stood before the `\n`, and a final newline closes the last line
/// rather than opening an empty one.
pub fn split_lines(body: &[u8]) -> (lines: Vec<Vec<u8>>)
    ensures
        views_of_lines(lines@) == split_lines_spec(body@),
{
    let s = body;
    let mut lines: Vec<Vec<u8>> = Vec::new();
    let mut cur: Vec<u8> = Vec::new();
    let mut i: usize = 0;
    while i < s.len()
        invariant
            i <= s@.len(),
            cur@.len() <= i,
            cur@ == s@.subrange(i - cur@.len(), i as int),
            forall|k: int| i - cur@.len() <= k < i ==> s@[k] != 10,
            lines_from(s@, 0) == views_of_lines(lines@) + lines_from(s@, i - cur@.len()),
        decreases s@.len() - i,
    {
        let ghost st: int = i - cur@.len();
        let b = s[i];
        if b == 10 {
            proof {
                lemma_find_newline_at(s@, st, i as int);
                assert(s@.subrange(st, i as int) == cur@);
                assert(lines_from(s@, st) == seq![strip_cr(cur@)] + lines_from(s@, i + 1));
            }
            let line = finish_line(cur);
            lines.push(line);
            cur = Vec::new();
            proof {
                assert(views_of_lines(lines@) =~= views_of_lines(lines@.drop_last()).push(
                    strip_cr(s@.subrange(st, i as int)),
                ));
                assert(views_of_lines(lines@) + lines_from(s@, i + 1) =~= (views_of_lines(
                    lines@.drop_last(),
                ) + lines_from(s@, st)));
                assert(cur@ =~= s@.subrange(i + 1 - 0, i + 1));
            }
        } else {
            cur.push(b);
            proof {
                assert(cur@ =~= s@.subrange(i + 1 - cur@.len(), i + 1));
            }
        }
        i = i + 1;
    }
    if cur.len() > 0 {
        let ghost st: int = i - cur@.len();
        proof {
            lemma_find_newline_at(s@, st, s@.len() as int);
            assert(s@.subrange(st, s@.len() as int) == cur@);
            assert(lines_from(s@, st) =~= seq![cur@]);
        }
        lines.push(cur);
        proof {
            assert(views_of_lines(lines@) =~= views_of_lines(lines@.drop_last()).push(
                s@.subrange(st, s@.len() as int),
            ));
            assert(views_of_lines(lines@) =~= lines_from(s@, 0));
        }
    } else {
        proof {
            assert(lines_from(s@, i - 0) =~= Seq::<Seq<u8>>::empty());
            assert(views_of_lines(lines@) =~= lines_from(s@, 0));
        }
    }
    lines
}

/// Closes one gathered line: drops the trailing carriage return, if any.
fn finish_line(line: Vec<u8>) -> (r: Vec<u8>)
    ensures
        r@ == strip_cr(line@),
{
    let ghost l0 = line@;
    let mut line = line;
    if line.len() > 0 {
        let last = line[line.len() - 1];
        if last == 13 {
            let _ = line.pop();
            proof {
                assert(line@ =~= strip_cr(l0));
            }
        }
    }
    line
}

/// The job source of a repeat session: the same target, `count` times.
pub fn repeat_jobs(target: &Job, count: usize) -> (jobs: Vec<Job>)
    ensures
        jobs@.len() == count,
        forall|i: int| 0 <= i < count ==> (#[trigger] jobs@[i])@ == target@,
{
    let mut jobs: Vec<Job> = Vec::new();
    let mut i: usize = 0;
    while i < count
        invariant
            i <= count,
            jobs@.len() == i,
            forall|k: int| 0 <= k < i ==> (#[trigger] jobs@[k])@ == target@,
        decreases count - i,
    {
        jobs.push(target.dup());
        i = i + 1;
    }
    jobs
}

/// What `url::Url::join` yields for this base and this reference: `None`
/// where the base does not parse as an absolute URL, the reference is not
/// text, or the join fails; else the joined URL's serialization. A pure
/// function of the two arguments, so it carries one opaque name.
pub uninterp spec fn url_join_of(base: Seq<char>, reference: Seq<u8>) -> Option<Seq<char>>;

/// Relies on url::Url::parse and url::Url::join: both depend on their string
/// arguments alone, and the result is the joined URL's serialization, here
/// named `url_join_of`.
#[verifier::external_body]
fn join_url(base: &str, reference: &[u8]) -> (r: Option<String>)
    ensures
        r is Some <==> url_join_of(base@, reference@) is Some,
        (r matches Some(u) ==> url_join_of(base@, reference@) == Some(u@)),
{
    let reference = match core::str::from_utf8(reference) {
        Ok(t) => t,
        Err(_) => return None,
    };
    let base = match url::Url::parse(base) {
        Ok(u) => u,
        Err(_) => return None,
    };
    match base.join(reference) {
        Ok(u) => Some(String::from(u)),
        Err(_) => None,
    }
}

/// The job source of a subpage session: one job per line of the index body,
/// each line joined against the root URL. `None` as soon as one line cannot
/// be joined — the session treats that as a broken index.
pub fn subpage_jobs(root: &str, body: &[u8]) -> (r: Option<Vec<Job>>)
    ensures
        (r matches Some(jobs) ==> {
            &&& jobs@.len() == split_lines_spec(body@).len()
            &&& forall|i: int|
                0 <= i < jobs@.len() ==> Some((#[trigger] jobs@[i])@) == url_join_of(
                    root@,
                    split_lines_spec(body@)[i],
                )
        }),
        (r is None ==> exists|i: int|
            0 <= i < split_lines_spec(body@).len() && url_join_of(
                root@,
                #[trigger] split_lines_spec(body@)[i],
            ) is None),
{
    let lines = split_lines(body);
    let mut jobs: Vec<Job> = Vec::new();
    let mut i: usize = 0;
    while i < lines.len()
        invariant
            i <= lines@.len(),
            jobs@.len() == i,
            views_of_lines(lines@) == split_lines_spec(body@),
            forall|k: int|
                0 <= k < i ==> Some((#[trigger] jobs@[k])@) == url_join_of(
                    root@,
                    split_lines_spec(body@)[k],
                ),
        decreases lines@.len() - i,
    {
        proof {
            assert(lines@[i as int]@ == split_lines_spec(body@)[i as int]);
        }
        match join_url(root, lines[i].as_slice()) {
            Some(u) => {
                jobs.push(Job::new(u));
            },
            None => {
                return None;
            },
        }
        i = i + 1;
    }
    Some(jobs)
}

/// The full list of worker counts that a subpage session runs: every
/// requested count, repeated once per sample, keeping the requested order.
pub fn expand_workers(workers: &Vec<usize>, samples: usize) -> (r: Vec<usize>)
    requires
        1 <= samples,
        workers@.len() * samples <= usize::MAX,
    ensures
        r@.len() == workers@.len() * samples,
        forall|k: int| 0 <= k < r@.len() ==> (#[trigger] r@[k]) == workers@[k / samples as int],
{
    let mut r: Vec<usize> = Vec::new();
    let mut i: usize = 0;
    while i < workers.len()
        invariant
            i <= workers@.len(),
            1 <= samples,
            workers@.len() * samples <= usize::MAX,
            r@.len() == i * samples,
            forall|k: int| 0 <= k < r@.len() ==> (#[trigger] r@[k]) == workers@[k / samples as int],
        decreases workers@.len() - i,
    {
        proof {
            assert((i + 1) * samples <= workers@.len() * samples) by (nonlinear_arith)
                requires
                    i + 1 <= workers@.len(),
                    samples >= 1,
            ;
            assert(i * samples + samples == (i + 1) * samples) by (nonlinear_arith);
        }
        let w = workers[i];
        let mut j: usize = 0;
        while j < samples
            invariant
                j <= samples,
                i < workers@.len(),
                1 <= samples,
                workers@.len() * samples <= usize::MAX,
                (i + 1) * samples <= workers@.len() * samples,
                i * samples + samples == (i + 1) * samples,
                w == workers@[i as int],
                r@.len() == i * samples + j,
                forall|k: int|
                    0 <= k < r@.len() ==> (#[trigger] r@[k]) == workers@[k / samples as int],
            decreases samples - j,
        {
            r.push(w);
            proof {
                let k = r@.len() - 1;
                assert(i * samples <= k < (i + 1) * samples);
                assert(k / samples as int == i) by (nonlinear_arith)
                    requires
                        samples >= 1,
                        i * samples <= k < (i + 1) * samples,
                ;
            }
            j = j + 1;
        }
        i = i + 1;
    }
    proof {
        assert(i == workers@.len());
    }
    r
}

} // verus!
