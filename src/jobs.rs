//! The table of background jobs, and what one poll of their statuses does to it.
//!
//! Before each new line is run, the caller queries every job's status without
//! waiting and hands the statuses to [`poll`]. Jobs still running stay; a job that
//! exited, was killed by a signal, or whose status could not be read leaves the
//! table with one notice for the user.
use vstd::prelude::*;

use crate::text::{decimal, digits, push_char, signed_decimal, signed_digits};

use vstd::string::StringExecFns;

verus! {

/// A background job: its sequential number and its process id.
#[derive(Clone, Copy, Debug, PartialEq, Eq, Structural)]
pub struct Job {
    pub id: u64,
    pub pid: i32,
}

/// What a status query reported for a job.
pub enum JobStatus {
    /// Still running.
    StillAlive,
    /// Exited with this code.
    Exited(i32),
    /// Killed by the signal of this name.
    Signaled(String),
    /// Stopped, continued, or another change that does not end the job.
    Other,
    /// The query failed, for this reason.
    Failed(String),
}

/// What a [`JobStatus`] holds.
pub enum StatusView {
    StillAlive,
    Exited(i32),
    Signaled(Seq<char>),
    Other,
    Failed(Seq<char>),
}

impl View for JobStatus {
    type V = StatusView;

    open spec fn view(&self) -> StatusView {
        match self {
            JobStatus::StillAlive => StatusView::StillAlive,
            JobStatus::Exited(c) => StatusView::Exited(*c),
            JobStatus::Signaled(s) => StatusView::Signaled(s@),
            JobStatus::Other => StatusView::Other,
            JobStatus::Failed(s) => StatusView::Failed(s@),
        }
    }
}

/// Whether a job with this status stays in the table.
pub open spec fn stays(s: StatusView) -> bool {
    s is StillAlive || s is Other
}

/// The jobs that stay after a poll, in order.
pub open spec fn remaining(jobs: Seq<Job>, statuses: Seq<StatusView>) -> Seq<Job>
    decreases jobs.len(),
{
    if jobs.len() == 0 {
        Seq::empty()
    } else {
        let rest = remaining(jobs.drop_last(), statuses);
        if stays(statuses[jobs.len() - 1]) {
            rest.push(jobs.last())
        } else {
            rest
        }
    }
}

/// The line shown for job `j` with status `s`, if any: `[id]+<TAB>Exit(code)<TAB>pid`,
/// `[id]+<TAB>signal<TAB>pid`, `err: reason`, or `unhandled` for a change that does
/// not end the job.
pub open spec fn notice(j: Job, s: StatusView) -> Option<Seq<char>> {
    let head = seq!['['] + digits(j.id as nat) + seq![']', '+', '\t'];
    match s {
        StatusView::StillAlive => Option::None,
        StatusView::Exited(code) => Option::Some(
            head + seq!['E', 'x', 'i', 't', '('] + signed_digits(code as int) + seq![')', '\t']
                + signed_digits(j.pid as int),
        ),
        StatusView::Signaled(name) => Option::Some(
            head + name + seq!['\t'] + signed_digits(j.pid as int),
        ),
        StatusView::Other => Option::Some(seq!['u', 'n', 'h', 'a', 'n', 'd', 'l', 'e', 'd']),
        StatusView::Failed(reason) => Option::Some(seq!['e', 'r', 'r', ':', ' '] + reason),
    }
}

/// The lines shown by a poll, in job order.
pub open spec fn notices(jobs: Seq<Job>, statuses: Seq<StatusView>) -> Seq<Seq<char>>
    decreases jobs.len(),
{
    if jobs.len() == 0 {
        Seq::empty()
    } else {
        let rest = notices(jobs.drop_last(), statuses);
        match notice(jobs.last(), statuses[jobs.len() - 1]) {
            Option::Some(l) => rest.push(l),
            Option::None => rest,
        }
    }
}

/// The line for job `j` with status `s` (see [`notice`]).
pub fn notice_line(j: Job, s: &JobStatus) -> (r: Option<String>)
    ensures
        match r {
            Option::None => notice(j, s@) == Option::<Seq<char>>::None,
            Option::Some(l) => notice(j, s@) == Option::Some(l@),
        },
{
    let mut head = String::new();
    push_char(&mut head, '[');
    let id = decimal(j.id);
    head.append(id.as_str());
    push_char(&mut head, ']');
    push_char(&mut head, '+');
    push_char(&mut head, '\t');
    match s {
        JobStatus::StillAlive => None,
        JobStatus::Exited(code) => {
            let mut r = head;
            push_char(&mut r, 'E');
            push_char(&mut r, 'x');
            push_char(&mut r, 'i');
            push_char(&mut r, 't');
            push_char(&mut r, '(');
            let c = signed_decimal(*code as i64);
            r.append(c.as_str());
            push_char(&mut r, ')');
            push_char(&mut r, '\t');
            let p = signed_decimal(j.pid as i64);
            r.append(p.as_str());
            assert(r@ =~= notice(j, s@).unwrap());
            Some(r)
        },
        JobStatus::Signaled(name) => {
            let mut r = head;
            r.append(name.as_str());
            push_char(&mut r, '\t');
            let p = signed_decimal(j.pid as i64);
            r.append(p.as_str());
            assert(r@ =~= notice(j, s@).unwrap());
            Some(r)
        },
        JobStatus::Other => {
            let mut r = String::new();
            push_char(&mut r, 'u');
            push_char(&mut r, 'n');
            push_char(&mut r, 'h');
            push_char(&mut r, 'a');
            push_char(&mut r, 'n');
            push_char(&mut r, 'd');
            push_char(&mut r, 'l');
            push_char(&mut r, 'e');
            push_char(&mut r, 'd');
            assert(r@ =~= notice(j, s@).unwrap());
            Some(r)
        },
        JobStatus::Failed(reason) => {
            let mut r = String::new();
            push_char(&mut r, 'e');
            push_char(&mut r, 'r');
            push_char(&mut r, 'r');
            push_char(&mut r, ':');
            push_char(&mut r, ' ');
            r.append(reason.as_str());
            assert(r@ =~= notice(j, s@).unwrap());
            Some(r)
        },
    }
}

/// One poll: `statuses[i]` is what the query for `jobs[i]` reported. Jobs still
/// running (or only stopped or continued) stay, in order; the others leave. Returns
/// the lines to show, one per job that changed, in job order.
pub fn poll(jobs: &mut Vec<Job>, statuses: &Vec<JobStatus>) -> (r: Vec<String>)
    requires
        statuses@.len() == old(jobs)@.len(),
    ensures
        final(jobs)@ == remaining(old(jobs)@, statuses@.map_values(|s: JobStatus| s@)),
        r@.map_values(|l: String| l@) == notices(
            old(jobs)@,
            statuses@.map_values(|s: JobStatus| s@),
        ),
{
    let ghost sv = statuses@.map_values(|s: JobStatus| s@);
    let ghost all = jobs@;
    let mut kept: Vec<Job> = Vec::new();
    let mut lines: Vec<String> = Vec::new();
    let mut i: usize = 0;
    while i < jobs.len()
        invariant
            all == jobs@,
            sv == statuses@.map_values(|s: JobStatus| s@),
            statuses@.len() == jobs@.len(),
            i <= jobs@.len(),
            kept@ == remaining(all.subrange(0, i as int), sv),
            lines@.map_values(|l: String| l@) == notices(all.subrange(0, i as int), sv),
        decreases jobs.len() - i,
    {
        let j = jobs[i];
        let s = &statuses[i];
        let ghost pre = all.subrange(0, i as int);
        let ghost cur = all.subrange(0, i + 1);
        assert(cur.drop_last() =~= pre);
        assert(cur.last() == j);
        assert(sv[cur.len() - 1] == s@);
        match s {
            JobStatus::StillAlive | JobStatus::Other => {
                kept.push(j);
            },
            _ => {},
        }
        match notice_line(j, s) {
            Some(l) => {
                lines.push(l);
                assert(lines@.map_values(|l: String| l@) =~= notices(pre, sv).push(
                    notice(j, s@).unwrap(),
                ));
            },
            None => {},
        }
        i += 1;
    }
    assert(all.subrange(0, i as int) =~= all);
    *jobs = kept;
    lines
}

} // verus!
