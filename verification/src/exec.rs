//! The shell interpreter state and exit statuses.
//!
//! The evaluator itself is not written yet: running a program reports
//! that it is not implemented.

use vstd::prelude::*;

use crate::ast::Program;
use crate::env::{Env, import_all, SpecScope};
use crate::job::JobTable;
use crate::text::{dec_int, i64_to_string, to_owned_string};

verus! {

/// Exit status — a string in rc tradition; empty means success.
#[derive(Debug, Clone, PartialEq)]
pub struct Status(pub String);

impl View for Status {
    type V = Seq<char>;

    open spec fn view(&self) -> Seq<char> {
        self.0@
    }
}

impl Status {
    /// The successful status (empty).
    pub fn ok() -> (r: Status)
        ensures
            r@ == Seq::<char>::empty(),
    {
        Status(String::new())
    }

    /// The status of a process exit code: success for 0, else the code's
    /// numeral.
    pub fn from_code(code: i32) -> (r: Status)
        ensures
            code == 0 ==> r@ == Seq::<char>::empty(),
            code != 0 ==> r@ == dec_int(code as int),
    {
        if code == 0 {
            Status::ok()
        } else {
            Status(i64_to_string(code as i64))
        }
    }

    /// A failure status carrying `msg`.
    pub fn err(msg: &str) -> (r: Status)
        ensures
            r@ == msg@,
    {
        Status(to_owned_string(msg))
    }

    /// Empty status means success.
    pub fn is_success(&self) -> (r: bool)
        ensures
            r == (self@.len() == 0),
    {
        self.0.as_str().is_empty()
    }
}

/// The shell interpreter state.
pub struct Shell {
    pub env: Env,
    pub jobs: JobTable,
}

impl Shell {
    /// A shell whose environment holds `pid` and the process variables
    /// `vars` (imported as exported globals with rc-style aliases), and
    /// an empty job table.
    pub fn new(pid: u32, vars: Vec<(String, String)>) -> (r: Shell)
        ensures
            r.env.wf(),
            r.env.scopes().len() == 1,
            r.env.scopes()[0] == (SpecScope {
                vars: import_all(Env::new_globals(pid), vars@),
                readonly: false,
            }),
            r.jobs@ == Seq::<Option<crate::job::SpecJob>>::empty(),
    {
        let mut env = Env::new(pid);
        env.import_env_vars(vars);
        Shell { env, jobs: JobTable::new() }
    }

    /// Set up the shell for interactive use (nothing to do yet).
    pub fn setup_interactive(&mut self)
        ensures
            *final(self) == *old(self),
    {
    }

    /// Check for pending signals (nothing to do yet).
    pub fn check_signals(&mut self)
        ensures
            *final(self) == *old(self),
    {
    }

    /// Fire the sigexit artificial signal (nothing to do yet).
    pub fn fire_sigexit(&mut self)
        ensures
            *final(self) == *old(self),
    {
    }

    /// Print done jobs before the prompt (nothing to do yet).
    pub fn notify_done_jobs(&mut self)
        ensures
            *final(self) == *old(self),
    {
    }

    /// Execute a parsed program: the evaluator is not written yet, so
    /// this reports failure.
    pub fn run(&mut self, program: &Program) -> (r: Status)
        ensures
            r@ == "evaluator not yet implemented — awaiting rewrite"@,
            *final(self) == *old(self),
    {
        Status::err("evaluator not yet implemented — awaiting rewrite")
    }
}

} // verus!
