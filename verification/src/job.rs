//! Job table for psh.
//!
//! Jobs are process groups.  The table tracks background and suspended
//! jobs by job number (1-based).  Each job records the pids of all its
//! processes and the command text shown by `jobs`.  Slots of completed
//! jobs are freed and reused by later jobs.

use vstd::prelude::*;

use crate::exec::Status;
use crate::text::{dec_int, lemma_dec_nat_digits, push_decimal_i64, to_owned_string};

verus! {

broadcast use vstd::string::group_string_axioms;

// ── Wait status decoding ──────────────────────────────────────
//
// The contracts below state what libc's macros give on every target psh
// supports (Linux, macOS and the BSDs).  Where those targets disagree
// (stop status 0x13 on macOS, a low byte of 0xff on FreeBSD, status 0x13
// for WIFSIGNALED on FreeBSD), the contract leaves the answer open.

/// `libc::WIFSTOPPED`: only when the low seven bits of the wait status are
/// 0x7f, and always when the low byte is 0x7f with a stop signal other
/// than 0x13.
#[verifier::external_body]
fn wifstopped(status: i32) -> (r: bool)
    ensures
        r ==> (status & 0x7f) == 0x7f,
        stop_certain(status) ==> r,
{
    libc::WIFSTOPPED(status)
}

/// `libc::WIFEXITED`: the low seven bits of the wait status are zero.
#[verifier::external_body]
fn wifexited(status: i32) -> (r: bool)
    ensures
        r == ((status & 0x7f) == 0),
{
    libc::WIFEXITED(status)
}

/// `libc::WEXITSTATUS`: bits 8 to 15 of the wait status.
#[verifier::external_body]
fn wexitstatus(status: i32) -> (r: i32)
    ensures
        r == ((status >> 8) & 0xff),
{
    libc::WEXITSTATUS(status)
}

/// `libc::WIFSIGNALED`: only when the low seven bits of the wait status
/// are neither 0 (exited) nor 0x7f (stopped), and always then unless the
/// whole status is 0x13.
#[verifier::external_body]
fn wifsignaled(status: i32) -> (r: bool)
    ensures
        r ==> (status & 0x7f) != 0 && (status & 0x7f) != 0x7f,
        (status & 0x7f) != 0 && (status & 0x7f) != 0x7f && status != 0x13 ==> r,
{
    libc::WIFSIGNALED(status)
}

/// `libc::WTERMSIG`: the low seven bits of the wait status.
#[verifier::external_body]
fn wtermsig(status: i32) -> (r: i32)
    ensures
        r == (status & 0x7f),
{
    libc::WTERMSIG(status)
}

// ── Jobs ───────────────────────────────────────────────────────

/// A job's current state.
#[derive(Debug, Clone, PartialEq)]
pub enum JobStatus {
    /// Running in background.
    Running,
    /// Stopped by signal (SIGTSTP, SIGSTOP).
    Stopped,
    /// Completed with a status.
    Done(Status),
}

/// A single job — a process group running in the background or stopped.
#[derive(Debug, Clone)]
pub struct Job {
    /// Process group id (the first pid in the pipeline).
    pub pgid: libc::pid_t,
    /// All pids in this job (pipeline stages).
    pub pids: Vec<libc::pid_t>,
    /// The command string for display (`jobs` output).
    pub command: String,
    /// Current status.
    pub status: JobStatus,
}

pub enum SpecJobStatus {
    Running,
    Stopped,
    Done(Seq<char>),
}

/// The model of a job.
pub struct SpecJob {
    pub pgid: i32,
    pub pids: Seq<i32>,
    pub command: Seq<char>,
    pub status: SpecJobStatus,
}

pub open spec fn status_model(s: JobStatus) -> SpecJobStatus {
    match s {
        JobStatus::Running => SpecJobStatus::Running,
        JobStatus::Stopped => SpecJobStatus::Stopped,
        JobStatus::Done(st) => SpecJobStatus::Done(st@),
    }
}

impl View for Job {
    type V = SpecJob;

    open spec fn view(&self) -> SpecJob {
        SpecJob {
            pgid: self.pgid,
            pids: self.pids@,
            command: self.command@,
            status: status_model(self.status),
        }
    }
}

pub open spec fn slot_model(s: Option<Job>) -> Option<SpecJob> {
    match s {
        Some(j) => Some(j@),
        None => None,
    }
}

/// The slot of job number `n` (1-based), if it exists and is occupied.
pub open spec fn job_at(slots: Seq<Option<SpecJob>>, n: int) -> Option<SpecJob> {
    if 1 <= n <= slots.len() {
        slots[n - 1]
    } else {
        None
    }
}

/// The index of the first free slot, or the number of slots when all
/// are taken.
pub open spec fn first_free(slots: Seq<Option<SpecJob>>) -> int
    decreases slots.len(),
{
    if slots.len() == 0 {
        0
    } else if first_free(slots.drop_last()) < slots.len() - 1 {
        first_free(slots.drop_last())
    } else if slots.last() is None {
        slots.len() - 1
    } else {
        slots.len() as int
    }
}

/// The slots after `j` is placed in the first free slot, or appended
/// when none is free.
pub open spec fn with_job(slots: Seq<Option<SpecJob>>, j: SpecJob) -> Seq<Option<SpecJob>> {
    if first_free(slots) < slots.len() {
        slots.update(first_free(slots), Some(j))
    } else {
        slots.push(Some(j))
    }
}

/// The first occupied slot whose job satisfies `p`, as a job number.
pub open spec fn first_job_where(slots: Seq<Option<SpecJob>>, p: spec_fn(SpecJob) -> bool) -> Option<int>
    decreases slots.len(),
{
    if slots.len() == 0 {
        None
    } else {
        match first_job_where(slots.drop_last(), p) {
            Some(n) => Some(n),
            None => match slots.last() {
                Some(j) => if p(j) {
                    Some(slots.len() as int)
                } else {
                    None
                },
                None => None,
            },
        }
    }
}

/// The last occupied slot, as a job number.
pub open spec fn last_job(slots: Seq<Option<SpecJob>>) -> Option<int>
    decreases slots.len(),
{
    if slots.len() == 0 {
        None
    } else if slots.last() is Some {
        Some(slots.len() as int)
    } else {
        last_job(slots.drop_last())
    }
}

/// A wait status that reports a stop on every supported target: low byte
/// 0x7f and a stop signal other than 0x13.
pub open spec fn stop_certain(ws: i32) -> bool {
    (ws & 0xff) == 0x7f && ((ws >> 8) & 0xff) != 0x13
}

/// What a wait status says about a child.
#[derive(Debug, Clone, Copy, PartialEq, Eq)]
pub enum WaitReport {
    /// The child stopped.
    Stopped,
    /// The child exited with this code.
    Exited(i32),
    /// The child was killed by this signal.
    Signaled(i32),
    /// Neither an exit nor a signal.
    Unknown,
}

/// Can `w` be what libc's macros report for the wait status `ws`?  Exits
/// and signals are decoded the same on every supported target; whether a
/// status counts as a stop differs for a few statuses, which may then be
/// reported either way.
pub open spec fn report_fits(w: WaitReport, ws: i32) -> bool {
    let low = ws & 0x7f;
    match w {
        WaitReport::Stopped => low == 0x7f,
        WaitReport::Exited(c) => !stop_certain(ws) && low == 0 && c == (ws >> 8) & 0xff,
        WaitReport::Signaled(sig) => !stop_certain(ws) && low != 0 && low != 0x7f && sig == low,
        WaitReport::Unknown => !stop_certain(ws) && low != 0 && !(low != 0x7f && ws != 0x13),
    }
}

/// The status text a finished job records for its last child's report:
/// empty for exit code 0, the code otherwise, "signal N" for a kill.
pub open spec fn report_status(w: WaitReport) -> Seq<char> {
    match w {
        WaitReport::Exited(c) => if c == 0 {
            Seq::empty()
        } else {
            dec_int(c as int)
        },
        WaitReport::Signaled(sig) => "signal "@ + dec_int(sig as int),
        _ => "unknown exit"@,
    }
}

/// The pids other than `pid`, in order.
pub open spec fn pids_without(pids: Seq<i32>, pid: i32) -> Seq<i32> {
    pids.filter(|p: i32| p != pid)
}

/// A job after its process `pid` reported `w`: stopped when it stopped;
/// otherwise `pid` leaves the job, which is done once no process remains.
pub open spec fn reaped_job(j: SpecJob, pid: i32, w: WaitReport) -> SpecJob {
    if w is Stopped {
        SpecJob { status: SpecJobStatus::Stopped, ..j }
    } else {
        let rest = pids_without(j.pids, pid);
        if rest.len() == 0 {
            SpecJob { pids: rest, status: SpecJobStatus::Done(report_status(w)), ..j }
        } else {
            SpecJob { pids: rest, ..j }
        }
    }
}

/// Decodes a raw wait status with libc's macros.
pub fn wait_report(ws: i32) -> (r: WaitReport)
    ensures
        report_fits(r, ws),
{
    if wifstopped(ws) {
        WaitReport::Stopped
    } else if wifexited(ws) {
        WaitReport::Exited(wexitstatus(ws))
    } else if wifsignaled(ws) {
        WaitReport::Signaled(wtermsig(ws))
    } else {
        WaitReport::Unknown
    }
}

/// The job table — indexed by job number (1-based); `None` slots are free.
#[derive(Debug)]
pub struct JobTable {
    jobs: Vec<Option<Job>>,
}

impl View for JobTable {
    type V = Seq<Option<SpecJob>>;

    closed spec fn view(&self) -> Seq<Option<SpecJob>> {
        self.jobs@.map_values(|s: Option<Job>| slot_model(s))
    }
}

impl Default for JobTable {
    /// An empty job table.
    fn default() -> (r: JobTable)
        ensures
            r@ == Seq::<Option<SpecJob>>::empty(),
    {
        JobTable::new()
    }
}

impl JobTable {
    pub fn new() -> (r: JobTable)
        ensures
            r@ == Seq::<Option<SpecJob>>::empty(),
    {
        let r = JobTable { jobs: Vec::new() };
        assert(r@ =~= Seq::<Option<SpecJob>>::empty());
        r
    }
}


pub proof fn lemma_first_free(slots: Seq<Option<SpecJob>>)
    ensures
        0 <= first_free(slots) <= slots.len(),
        first_free(slots) < slots.len() ==> slots[first_free(slots)] is None,
        forall|j: int| 0 <= j < first_free(slots) ==> (#[trigger] slots[j]) is Some,
    decreases slots.len(),
{
    if slots.len() > 0 {
        let t = slots.drop_last();
        lemma_first_free(t);
        assert forall|j: int| 0 <= j < first_free(slots) implies (#[trigger] slots[j]) is Some by {
            if j < t.len() {
                assert(t[j] == slots[j]);
            }
        }
        if first_free(t) < t.len() {
            assert(t[first_free(t)] == slots[first_free(t)]);
        }
    }
}

/// The occupied slots with their job numbers, in order.
pub open spec fn active_jobs(slots: Seq<Option<SpecJob>>) -> Seq<(int, SpecJob)>
    decreases slots.len(),
{
    if slots.len() == 0 {
        Seq::empty()
    } else {
        match slots.last() {
            Some(j) => active_jobs(slots.drop_last()).push((slots.len() as int, j)),
            None => active_jobs(slots.drop_last()),
        }
    }
}

/// Is the job finished?
pub open spec fn is_done(s: Option<SpecJob>) -> bool {
    s matches Some(j) && j.status is Done
}

/// The finished jobs, as (job number, command), in order.
pub open spec fn done_jobs(slots: Seq<Option<SpecJob>>) -> Seq<(int, Seq<char>)>
    decreases slots.len(),
{
    if slots.len() == 0 {
        Seq::empty()
    } else if is_done(slots.last()) {
        done_jobs(slots.drop_last()).push((slots.len() as int, slots.last()->0.command))
    } else {
        done_jobs(slots.drop_last())
    }
}

/// The slots with every finished job removed.
pub open spec fn without_done(slots: Seq<Option<SpecJob>>) -> Seq<Option<SpecJob>> {
    slots.map_values(|s: Option<SpecJob>| if is_done(s) { None } else { s })
}

/// Does the job have process group `pgid`?
pub open spec fn has_pgid(pgid: i32) -> spec_fn(SpecJob) -> bool {
    |j: SpecJob| j.pgid == pgid
}

/// Does the job contain process `pid`?
pub open spec fn has_pid(pid: i32) -> spec_fn(SpecJob) -> bool {
    |j: SpecJob| j.pids.contains(pid)
}

impl JobTable {
    /// Insert a new job, returning its 1-based job number: the first free
    /// slot is reused, or a new slot is appended.
    pub fn insert(&mut self, job: Job) -> (r: usize)
        requires
            old(self)@.len() + 1 < usize::MAX,
        ensures
            r == first_free(old(self)@) + 1,
            final(self)@ == with_job(old(self)@, job@),
    {
        proof { lemma_first_free(self@); }
        let ghost jv = job@;
        let mut i: usize = 0;
        while i < self.jobs.len()
            invariant
                i <= self.jobs.len(),
                jv == job@,
                self.jobs@ == old(self).jobs@,
                forall|j: int| 0 <= j < i ==> (#[trigger] self.jobs@[j]) is Some,
                first_free(old(self)@) >= i,
                0 <= first_free(old(self)@) <= old(self)@.len(),
                first_free(old(self)@) < old(self)@.len() ==> old(self)@[first_free(old(self)@)] is None,
                forall|j: int| 0 <= j < first_free(old(self)@) ==> (#[trigger] old(self)@[j]) is Some,
            decreases self.jobs.len() - i,
        {
            if self.jobs[i].is_none() {
                proof { assert(old(self)@[i as int] == slot_model(old(self).jobs@[i as int])); }
                self.jobs.set(i, Some(job));
                proof {
                    assert forall|k: int| 0 <= k < self@.len() implies #[trigger] self@[k] == old(self)@.update(i as int, Some(jv))[k] by {
                        assert(self@[k] == slot_model(self.jobs@[k]));
                        assert(old(self)@[k] == slot_model(old(self).jobs@[k]));
                    }
                    assert(self@ =~= old(self)@.update(i as int, Some(jv)));
                }
                return i + 1;
            }
            proof { assert(old(self)@[i as int] == slot_model(old(self).jobs@[i as int])); }
            i += 1;
        }
        self.jobs.push(Some(job));
        proof { assert(self@ =~= old(self)@.push(Some(jv))); }
        self.jobs.len()
    }

    /// The job with 1-based number `job_num`, if that slot is occupied.
    pub fn get(&self, job_num: usize) -> (r: Option<&Job>)
        ensures
            match job_at(self@, job_num as int) {
                Some(j) => r is Some && r->0@ == j,
                None => r is None,
            },
    {
        if 1 <= job_num && job_num <= self.jobs.len() {
            match &self.jobs[job_num - 1] {
                Some(j) => Some(j),
                None => None,
            }
        } else {
            None
        }
    }

    /// A mutable reference to job `job_num`, if that slot is occupied.
    pub fn get_mut(&mut self, job_num: usize) -> (r: Option<&mut Job>)
        ensures
            match r {
                Some(j) => job_at(old(self)@, job_num as int) == Some(j@) && final(self)@ == old(
                    self,
                )@.update(job_num - 1, Some(final(j)@)),
                None => job_at(old(self)@, job_num as int) is None && final(self)@ == old(self)@,
            },
    {
        if 1 <= job_num && job_num <= self.jobs.len() {
            let slot = &mut self.jobs[job_num - 1];
            match slot {
                Some(j) => Some(j),
                None => None,
            }
        } else {
            None
        }
    }

    /// Remove a job by number (free the slot).
    pub fn remove(&mut self, job_num: usize)
        ensures
            1 <= job_num <= old(self)@.len() ==> final(self)@ == old(self)@.update(job_num - 1, None),
            !(1 <= job_num <= old(self)@.len()) ==> final(self)@ == old(self)@,
    {
        if 1 <= job_num && job_num <= self.jobs.len() {
            self.jobs.set(job_num - 1, None);
            proof { assert(self@ =~= old(self)@.update(job_num - 1, None)); }
        }
    }

    /// Find the job number for a given process group.
    pub fn find_by_pgid(&self, pgid: libc::pid_t) -> (r: Option<usize>)
        ensures
            match first_job_where(self@, has_pgid(pgid)) {
                Some(n) => r is Some && r->0 == n,
                None => r is None,
            },
    {
        let mut i: usize = 0;
        proof { assert(self@.take(0) =~= Seq::<Option<SpecJob>>::empty()); }
        while i < self.jobs.len()
            invariant
                i <= self.jobs.len(),
                first_job_where(self@.take(i as int), has_pgid(pgid)) is None,
            decreases self.jobs.len() - i,
        {
            proof { assert(self@.take(i + 1).drop_last() == self@.take(i as int)); }
            match &self.jobs[i] {
                Some(job) => {
                    if job.pgid == pgid {
                        proof { lemma_first_job_prefix(self@, i as int + 1, has_pgid(pgid)); }
                        return Some(i + 1);
                    }
                },
                None => {},
            }
            i += 1;
        }
        proof { assert(self@.take(self.jobs.len() as int) == self@); }
        None
    }

    /// Find the job containing a given pid.
    pub fn find_by_pid(&self, pid: libc::pid_t) -> (r: Option<usize>)
        ensures
            match first_job_where(self@, has_pid(pid)) {
                Some(n) => r is Some && r->0 == n,
                None => r is None,
            },
    {
        let mut i: usize = 0;
        proof { assert(self@.take(0) =~= Seq::<Option<SpecJob>>::empty()); }
        while i < self.jobs.len()
            invariant
                i <= self.jobs.len(),
                first_job_where(self@.take(i as int), has_pid(pid)) is None,
            decreases self.jobs.len() - i,
        {
            proof { assert(self@.take(i + 1).drop_last() == self@.take(i as int)); }
            match &self.jobs[i] {
                Some(job) => {
                    if contains_pid(&job.pids, pid) {
                        proof { lemma_first_job_prefix(self@, i as int + 1, has_pid(pid)); }
                        return Some(i + 1);
                    }
                },
                None => {},
            }
            i += 1;
        }
        proof { assert(self@.take(self.jobs.len() as int) == self@); }
        None
    }

    /// All active jobs with their 1-based numbers.
    pub fn iter(&self) -> (r: Vec<(usize, &Job)>)
        ensures
            r@.map_values(|p: (usize, &Job)| (p.0 as int, p.1@)) == active_jobs(self@),
    {
        let mut out: Vec<(usize, &Job)> = Vec::new();
        let mut i: usize = 0;
        proof { assert(self@.take(0) =~= Seq::<Option<SpecJob>>::empty()); }
        while i < self.jobs.len()
            invariant
                i <= self.jobs.len(),
                out@.map_values(|p: (usize, &Job)| (p.0 as int, p.1@)) == active_jobs(self@.take(i as int)),
            decreases self.jobs.len() - i,
        {
            proof { assert(self@.take(i + 1).drop_last() == self@.take(i as int)); }
            match &self.jobs[i] {
                Some(job) => {
                    let ghost prev = out@;
                    out.push((i + 1, job));
                    proof {
                        assert(out@.map_values(|p: (usize, &Job)| (p.0 as int, p.1@)) =~= prev.map_values(
                            |p: (usize, &Job)| (p.0 as int, p.1@),
                        ).push(((i + 1) as int, job@)));
                    }
                },
                None => {},
            }
            i += 1;
        }
        proof { assert(self@.take(self.jobs.len() as int) == self@); }
        out
    }

    /// Reap a child: update its job from the raw wait status.  A stopped
    /// child stops its job; otherwise the child leaves its job, which is
    /// done (with the exit code, or the terminating signal) once no child
    /// remains.  Returns the job number if the pid was in the table.  The
    /// status is decoded by libc, so the update is the one for a report
    /// that fits the status.
    pub fn reap(&mut self, pid: libc::pid_t, wstatus: i32) -> (r: Option<usize>)
        ensures
            match first_job_where(old(self)@, has_pid(pid)) {
                Some(n) => r is Some && r->0 == n && exists|w: WaitReport|
                    report_fits(w, wstatus) && final(self)@ == old(self)@.update(
                        n - 1,
                        Some(#[trigger] reaped_job(old(self)@[n - 1]->0, pid, w)),
                    ),
                None => r is None && final(self)@ == old(self)@,
            },
    {
        let w = wait_report(wstatus);
        self.reap_report(pid, w)
    }

    /// Apply a decoded report for child `pid` to its job, as `reap` does.
    /// Returns the job number if the pid was in the table.
    pub fn reap_report(&mut self, pid: libc::pid_t, w: WaitReport) -> (r: Option<usize>)
        ensures
            match first_job_where(old(self)@, has_pid(pid)) {
                Some(n) => r is Some && r->0 == n && final(self)@ == old(self)@.update(
                    n - 1,
                    Some(reaped_job(old(self)@[n - 1]->0, pid, w)),
                ),
                None => r is None && final(self)@ == old(self)@,
            },
    {
        let job_num = match self.find_by_pid(pid) {
            Some(n) => n,
            None => {
                return None;
            },
        };
        let ghost before = old(self)@[job_num - 1]->0;
        proof {
            lemma_first_job_found(old(self)@, has_pid(pid));
            assert(job_at(self@, job_num as int) == Some(before));
        }
        let job = match self.get_mut(job_num) {
            Some(j) => j,
            None => {
                return None;
            },
        };
        match w {
            WaitReport::Stopped => {
                job.status = JobStatus::Stopped;
            },
            _ => {
                let rest = without_pid(&job.pids, pid);
                job.pids = rest;
                if job.pids.len() == 0 {
                    let status = match w {
                        WaitReport::Exited(code) => Status::from_code(code),
                        WaitReport::Signaled(sig) => {
                            let mut m = to_owned_string("signal ");
                            push_decimal_i64(&mut m, sig as i64);
                            Status(m)
                        },
                        _ => Status::err("unknown exit"),
                    };
                    job.status = JobStatus::Done(status);
                }
            },
        }
        proof {
            assert(job@ == reaped_job(before, pid, w));
        }
        Some(job_num)
    }

    /// Collect completed jobs and free their slots, returning
    /// (job number, command) for each, in order.
    pub fn collect_done(&mut self) -> (r: Vec<(usize, String)>)
        ensures
            r@.map_values(|p: (usize, String)| (p.0 as int, p.1@)) == done_jobs(old(self)@),
            final(self)@ == without_done(old(self)@),
    {
        let mut done: Vec<(usize, String)> = Vec::new();
        let mut i: usize = 0;
        proof { assert(old(self)@.take(0) =~= Seq::<Option<SpecJob>>::empty()); }
        while i < self.jobs.len()
            invariant
                i <= self.jobs.len(),
                self.jobs@.len() == old(self).jobs@.len(),
                forall|j: int| 0 <= j < i ==> #[trigger] self@[j] == without_done(old(self)@)[j],
                forall|j: int| i <= j < self.jobs@.len() ==> #[trigger] self.jobs@[j] == old(self).jobs@[j],
                done@.map_values(|p: (usize, String)| (p.0 as int, p.1@)) == done_jobs(old(self)@.take(i as int)),
            decreases self.jobs.len() - i,
        {
            proof { assert(old(self)@.take(i + 1).drop_last() == old(self)@.take(i as int)); }
            let finished = match &self.jobs[i] {
                Some(j) => match j.status {
                    JobStatus::Done(_) => true,
                    _ => false,
                },
                None => false,
            };
            let ghost jobs_before = self.jobs@;
            let ghost view_before = self@;
            proof {
                assert(old(self)@[i as int] == slot_model(old(self).jobs@[i as int]));
                assert(is_done(old(self)@[i as int]) == finished);
            }
            if finished {
                let slot = self.jobs.remove(i);
                self.jobs.insert(i, None);
                let job = slot.unwrap();
                let ghost prev = done@;
                done.push((i + 1, job.command));
                proof {
                    assert(done@.map_values(|p: (usize, String)| (p.0 as int, p.1@)) =~= prev.map_values(
                        |p: (usize, String)| (p.0 as int, p.1@),
                    ).push(((i + 1) as int, old(self)@[i as int]->0.command)));
                    assert forall|j: int| i < j < self.jobs@.len() implies #[trigger] self.jobs@[j] == old(self).jobs@[j] by {}
                }
            }
            proof {
                assert forall|j: int| 0 <= j < i implies self.jobs@[j] == jobs_before[j] by {}
                assert forall|j: int| 0 <= j <= i implies #[trigger] self@[j] == without_done(old(self)@)[j] by {
                    assert(self@[j] == slot_model(self.jobs@[j]));
                    assert(without_done(old(self)@)[j] == (if is_done(old(self)@[j]) { None } else { old(self)@[j] }));
                    if j < i {
                        assert(self.jobs@[j] == jobs_before[j]);
                        assert(view_before[j] == slot_model(jobs_before[j]));
                    } else if !finished {
                        assert(self.jobs@[j] == old(self).jobs@[j]);
                        assert(old(self)@[j] == slot_model(old(self).jobs@[j]));
                    }
                }
            }
            i += 1;
        }
        proof {
            assert(old(self)@.take(self.jobs.len() as int) == old(self)@);
            assert(self@ =~= without_done(old(self)@));
        }
        done
    }

    /// The most recent job number (highest active slot), or None.
    pub fn current_job(&self) -> (r: Option<usize>)
        ensures
            match last_job(self@) {
                Some(n) => r is Some && r->0 == n,
                None => r is None,
            },
    {
        let mut i: usize = self.jobs.len();
        proof { assert(self@.take(i as int) =~= self@); }
        while i > 0
            invariant
                i <= self.jobs.len(),
                last_job(self@) == last_job(self@.take(i as int)),
            decreases i,
        {
            proof { assert(self@.take(i as int).drop_last() == self@.take(i - 1)); }
            if self.jobs[i - 1].is_some() {
                return Some(i);
            }
            i -= 1;
        }
        None
    }
}

/// Does `pids` contain `pid`?
fn contains_pid(pids: &Vec<libc::pid_t>, pid: libc::pid_t) -> (r: bool)
    ensures
        r == pids@.contains(pid),
{
    let mut i: usize = 0;
    while i < pids.len()
        invariant
            i <= pids.len(),
            forall|j: int| 0 <= j < i ==> pids@[j] != pid,
        decreases pids.len() - i,
    {
        if pids[i] == pid {
            return true;
        }
        i += 1;
    }
    false
}

/// `pids` without `pid`, order kept.
fn without_pid(pids: &Vec<libc::pid_t>, pid: libc::pid_t) -> (r: Vec<libc::pid_t>)
    ensures
        r@ == pids_without(pids@, pid),
{
    let mut out: Vec<libc::pid_t> = Vec::new();
    let mut i: usize = 0;
    proof {
        reveal_with_fuel(Seq::filter, 1);
        assert(pids_without(pids@.take(0), pid) =~= Seq::<i32>::empty());
    }
    while i < pids.len()
        invariant
            i <= pids.len(),
            out@ == pids_without(pids@.take(i as int), pid),
        decreases pids.len() - i,
    {
        proof {
            assert(pids@.take(i + 1).drop_last() == pids@.take(i as int));
            reveal_with_fuel(Seq::filter, 1);
        }
        if pids[i] != pid {
            out.push(pids[i]);
        }
        i += 1;
    }
    proof { assert(pids@.take(pids.len() as int) == pids@); }
    out
}

pub proof fn lemma_first_job_prefix(slots: Seq<Option<SpecJob>>, n: int, p: spec_fn(SpecJob) -> bool)
    requires
        1 <= n <= slots.len(),
        first_job_where(slots.take(n - 1), p) is None,
        (slots[n - 1] matches Some(j) && p(j)),
    ensures
        first_job_where(slots, p) == Some(n),
    decreases slots.len(),
{
    if slots.len() > n {
        assert(slots.drop_last().take(n - 1) == slots.take(n - 1));
        lemma_first_job_prefix(slots.drop_last(), n, p);
    } else {
        assert(slots.drop_last() =~= slots.take(n - 1));
    }
}

pub proof fn lemma_first_job_found(slots: Seq<Option<SpecJob>>, p: spec_fn(SpecJob) -> bool)
    ensures
        first_job_where(slots, p) matches Some(n) ==> (1 <= n <= slots.len() && (slots[n - 1] matches Some(j) && p(j))),
    decreases slots.len(),
{
    if slots.len() > 0 {
        lemma_first_job_found(slots.drop_last(), p);
        if let Some(n) = first_job_where(slots.drop_last(), p) {
            assert(slots.drop_last()[n - 1] == slots[n - 1]);
        }
    }
}

// ── Laws ───────────────────────────────────────────────────────

/// A job placed in the table is found under the number `insert` returns
/// (one past the first free slot), and every other job number keeps its
/// job.
pub proof fn law_insert_then_get(slots: Seq<Option<SpecJob>>, j: SpecJob)
    ensures
        job_at(with_job(slots, j), first_free(slots) + 1) == Some(j),
        forall|n: int|
            n != first_free(slots) + 1 ==> #[trigger] job_at(with_job(slots, j), n) == job_at(
                slots,
                n,
            ),
{
    lemma_first_free(slots);
}

/// A new job takes the lowest free job number: that number is free, and
/// every lower number is taken.
pub proof fn law_insert_takes_lowest_free(slots: Seq<Option<SpecJob>>)
    ensures
        job_at(slots, first_free(slots) + 1) is None,
        forall|n: int| 1 <= n <= first_free(slots) ==> (#[trigger] job_at(slots, n)) is Some,
{
    lemma_first_free(slots);
    assert forall|n: int| 1 <= n <= first_free(slots) implies (#[trigger] job_at(slots, n)) is Some by {
        assert(slots[n - 1] is Some);
    }
}

/// After `remove(n)` job `n` is gone and every other job stays.
pub proof fn law_remove_then_get(slots: Seq<Option<SpecJob>>, n: int)
    requires
        1 <= n <= slots.len(),
    ensures
        job_at(slots.update(n - 1, None), n) is None,
        forall|m: int| m != n ==> #[trigger] job_at(slots.update(n - 1, None), m) == job_at(slots, m),
{
}

/// Collecting finished jobs frees exactly their slots: no finished job
/// remains, and every unfinished job keeps its number.
pub proof fn law_collect_done_keeps_unfinished(slots: Seq<Option<SpecJob>>)
    ensures
        forall|n: int|
            #[trigger] job_at(without_done(slots), n) == if is_done(job_at(slots, n)) {
                None
            } else {
                job_at(slots, n)
            },
        forall|n: int| !is_done(#[trigger] job_at(without_done(slots), n)),
{
    assert forall|n: int|
        #[trigger] job_at(without_done(slots), n) == if is_done(job_at(slots, n)) {
            None
        } else {
            job_at(slots, n)
        } by {
        if 1 <= n <= slots.len() {
            assert(without_done(slots)[n - 1] == (if is_done(slots[n - 1]) { None } else { slots[n - 1] }));
        }
    }
}

proof fn lemma_low_bits(ws: i32)
    ensures
        (ws & 0xff) == 0x7f ==> (ws & 0x7f) == 0x7f,
{
    assert((ws & 0xff) == 0x7f ==> (ws & 0x7f) == 0x7f) by (bit_vector);
}

/// The report of a wait status is determined wherever the supported
/// targets agree: a normal exit reports its code, a certain stop reports
/// a stop, and a kill (any low bits other than 0 and 0x7f, status not
/// 0x13) reports its signal.
pub proof fn law_report_determined(w: WaitReport, ws: i32)
    requires
        report_fits(w, ws),
    ensures
        (ws & 0x7f) == 0 ==> w == WaitReport::Exited((ws >> 8) & 0xff),
        stop_certain(ws) ==> w is Stopped,
        (ws & 0x7f) != 0 && (ws & 0x7f) != 0x7f && ws != 0x13 ==> w == WaitReport::Signaled(ws & 0x7f),
{
    lemma_low_bits(ws);
}

/// A process of a running job that exits (or is killed) leaves the job,
/// and the job is done exactly when its last process is gone.
pub proof fn law_reap_pipeline(j: SpecJob, pid: i32, w: WaitReport)
    requires
        j.status is Running,
        !(w is Stopped),
    ensures
        !reaped_job(j, pid, w).pids.contains(pid),
        reaped_job(j, pid, w).status is Done <==> reaped_job(j, pid, w).pids.len() == 0,
{
    let rest = pids_without(j.pids, pid);
    if rest.contains(pid) {
        let k = choose|k: int| 0 <= k < rest.len() && rest[k] == pid;
        j.pids.lemma_filter_pred(|p: i32| p != pid, k);
    }
}

/// A stop report stops the job and keeps its processes.
pub proof fn law_reap_stop(j: SpecJob, pid: i32)
    ensures
        reaped_job(j, pid, WaitReport::Stopped).status is Stopped,
        reaped_job(j, pid, WaitReport::Stopped).pids == j.pids,
{
}

/// A finished job's status is empty (success) exactly when its last
/// process exited with code 0.
pub proof fn law_finish_success(w: WaitReport)
    ensures
        report_status(w).len() == 0 <==> w == WaitReport::Exited(0),
{
    reveal_strlit("signal ");
    reveal_strlit("unknown exit");
    match w {
        WaitReport::Exited(c) => {
            if c < 0 {
                lemma_dec_nat_digits((-c) as nat);
            } else {
                lemma_dec_nat_digits(c as nat);
            }
        },
        _ => {},
    }
}

/// Lookup by process group: the number found is that of the first
/// occupied slot whose job's process group is `pgid` (whatever processes
/// remain in it), and nothing is found exactly when no job has that
/// process group.
pub proof fn law_find_by_pgid(slots: Seq<Option<SpecJob>>, pgid: i32)
    ensures
        first_job_where(slots, has_pgid(pgid)) matches Some(n) ==> (job_at(slots, n) matches Some(j)
            && j.pgid == pgid && forall|m: int|
            1 <= m < n ==> !(#[trigger] job_at(slots, m) matches Some(j2) && j2.pgid == pgid)),
        first_job_where(slots, has_pgid(pgid)) is None <==> forall|m: int|
            !(#[trigger] job_at(slots, m) matches Some(j2) && j2.pgid == pgid),
    decreases slots.len(),
{
    if slots.len() > 0 {
        let t = slots.drop_last();
        law_find_by_pgid(t, pgid);
        assert forall|m: int| 1 <= m <= t.len() implies #[trigger] job_at(slots, m) == job_at(t, m) by {
            assert(slots[m - 1] == t[m - 1]);
        }
        if first_job_where(slots, has_pgid(pgid)) is None {
            assert forall|m: int| !(#[trigger] job_at(slots, m) matches Some(j2) && j2.pgid == pgid) by {
                if 1 <= m <= t.len() {
                    assert(job_at(slots, m) == job_at(t, m));
                }
            }
        }
        if exists|m: int| (#[trigger] job_at(slots, m) matches Some(j2) && j2.pgid == pgid) {
            let m = choose|m: int| (#[trigger] job_at(slots, m) matches Some(j2) && j2.pgid == pgid);
            if m <= t.len() {
                assert(job_at(slots, m) == job_at(t, m));
            }
        }
    }
}

/// Lookup by process: the number found is that of the first occupied
/// slot whose job still lists `pid`, and nothing is found exactly when no
/// job lists it.
pub proof fn law_find_by_pid(slots: Seq<Option<SpecJob>>, pid: i32)
    ensures
        first_job_where(slots, has_pid(pid)) matches Some(n) ==> (job_at(slots, n) matches Some(j)
            && j.pids.contains(pid) && forall|m: int|
            1 <= m < n ==> !(#[trigger] job_at(slots, m) matches Some(j2) && j2.pids.contains(pid))),
        first_job_where(slots, has_pid(pid)) is None <==> forall|m: int|
            !(#[trigger] job_at(slots, m) matches Some(j2) && j2.pids.contains(pid)),
    decreases slots.len(),
{
    if slots.len() > 0 {
        let t = slots.drop_last();
        law_find_by_pid(t, pid);
        assert forall|m: int| 1 <= m <= t.len() implies #[trigger] job_at(slots, m) == job_at(t, m) by {
            assert(slots[m - 1] == t[m - 1]);
        }
        if first_job_where(slots, has_pid(pid)) is None {
            assert forall|m: int| !(#[trigger] job_at(slots, m) matches Some(j2) && j2.pids.contains(pid)) by {
                if 1 <= m <= t.len() {
                    assert(job_at(slots, m) == job_at(t, m));
                }
            }
        }
        if exists|m: int| (#[trigger] job_at(slots, m) matches Some(j2) && j2.pids.contains(pid)) {
            let m = choose|m: int| (#[trigger] job_at(slots, m) matches Some(j2) && j2.pids.contains(pid));
            if m <= t.len() {
                assert(job_at(slots, m) == job_at(t, m));
            }
        }
    }
}

/// Collecting finished jobs reports and frees exactly the jobs whose
/// status is Done: a running or stopped job keeps its slot and is not
/// reported; a done job's slot is freed and its number and command are
/// reported; the report lists numbers in increasing order.
pub proof fn law_collect_done_exactly_finished(slots: Seq<Option<SpecJob>>)
    ensures
        forall|n: int|
            (#[trigger] job_at(slots, n) matches Some(j) && (j.status is Running || j.status is Stopped))
                ==> job_at(without_done(slots), n) == job_at(slots, n) && forall|k: int|
                0 <= k < done_jobs(slots).len() ==> (#[trigger] done_jobs(slots)[k]).0 != n,
        forall|n: int|
            (#[trigger] job_at(slots, n) matches Some(j) && j.status is Done) ==> job_at(
                without_done(slots),
                n,
            ) is None && done_jobs(slots).contains((n, job_at(slots, n)->0.command)),
        forall|k: int|
            0 <= k < done_jobs(slots).len() ==> (job_at(slots, (#[trigger] done_jobs(slots)[k]).0) matches Some(
                j,
            ) && j.status is Done && j.command == done_jobs(slots)[k].1),
        forall|k1: int, k2: int|
            0 <= k1 < k2 < done_jobs(slots).len() ==> (#[trigger] done_jobs(slots)[k1]).0 < (
            #[trigger] done_jobs(slots)[k2]).0,
    decreases slots.len(),
{
    law_collect_done_keeps_unfinished(slots);
    if slots.len() > 0 {
        let t = slots.drop_last();
        law_collect_done_exactly_finished(t);
        lemma_done_jobs_bounds(t);
        let dt = done_jobs(t);
        let ds = done_jobs(slots);
        assert forall|m: int| 1 <= m <= t.len() implies #[trigger] job_at(slots, m) == job_at(t, m) by {
            assert(slots[m - 1] == t[m - 1]);
        }
        let last_done = is_done(slots.last());
        if last_done {
            assert(ds == dt.push((slots.len() as int, slots.last()->0.command)));
        } else {
            assert(ds == dt);
        }
        assert forall|n: int|
            (#[trigger] job_at(slots, n) matches Some(j) && (j.status is Running || j.status is Stopped))
                implies job_at(without_done(slots), n) == job_at(slots, n) && forall|k: int|
                0 <= k < ds.len() ==> (#[trigger] ds[k]).0 != n by {
            assert forall|k: int| 0 <= k < ds.len() implies (#[trigger] ds[k]).0 != n by {
                if k < dt.len() {
                    assert(ds[k] == dt[k]);
                    if n <= t.len() {
                        assert(job_at(slots, n) == job_at(t, n));
                    }
                } else {
                    assert(slots[slots.len() - 1] == slots.last());
                }
            }
        }
        assert forall|n: int| (#[trigger] job_at(slots, n) matches Some(j) && j.status is Done) implies job_at(
            without_done(slots),
            n,
        ) is None && ds.contains((n, job_at(slots, n)->0.command)) by {
            if n <= t.len() {
                assert(job_at(slots, n) == job_at(t, n));
                let k = choose|k: int| 0 <= k < dt.len() && dt[k] == (n, job_at(t, n)->0.command);
                assert(ds[k] == dt[k]);
            } else {
                assert(slots[slots.len() - 1] == slots.last());
                assert(ds[ds.len() - 1] == (n, job_at(slots, n)->0.command));
            }
        }
        assert forall|k: int| 0 <= k < ds.len() implies (job_at(slots, (#[trigger] ds[k]).0) matches Some(j)
            && j.status is Done && j.command == ds[k].1) by {
            if k < dt.len() {
                assert(ds[k] == dt[k]);
                assert(job_at(slots, dt[k].0) == job_at(t, dt[k].0));
            }
        }
        assert forall|k1: int, k2: int| 0 <= k1 < k2 < ds.len() implies (#[trigger] ds[k1]).0 < (
        #[trigger] ds[k2]).0 by {
            if k2 < dt.len() {
                assert(ds[k1] == dt[k1] && ds[k2] == dt[k2]);
            } else {
                assert(ds[k1] == dt[k1]);
            }
        }
    }
}

proof fn lemma_done_jobs_bounds(slots: Seq<Option<SpecJob>>)
    ensures
        forall|k: int|
            0 <= k < done_jobs(slots).len() ==> 1 <= (#[trigger] done_jobs(slots)[k]).0 <= slots.len(),
    decreases slots.len(),
{
    if slots.len() > 0 {
        let t = slots.drop_last();
        lemma_done_jobs_bounds(t);
        let dt = done_jobs(t);
        assert forall|k: int| 0 <= k < done_jobs(slots).len() implies 1 <= (
        #[trigger] done_jobs(slots)[k]).0 <= slots.len() by {
            if k < dt.len() {
                assert(done_jobs(slots)[k] == dt[k]);
            }
        }
    }
}

} // verus!
