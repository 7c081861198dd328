//! The outcome of running a provider CLI.

use vstd::prelude::*;

use crate::text::{decimal, push_decimal, push_str};

verus! {

/// What a finished (or killed) CLI run left behind.
#[derive(Debug)]
pub struct RunOutcome {
    /// Process exit code; None if killed by a signal or timed out.
    pub status: Option<i32>,
    pub stdout: String,
    pub stderr: String,
    pub timed_out: bool,
}

impl RunOutcome {
    /// The run exited with status 0.
    pub fn ok(&self) -> (r: bool)
        ensures
            r == (self.status == Some(0i32)),
    {
        match self.status {
            Some(code) => code == 0,
            None => false,
        }
    }
}

/// The outcome of a run killed after `secs` seconds.
pub fn timed_out(secs: u64) -> (r: RunOutcome)
    ensures
        r.status is None,
        r.stdout@ == Seq::<char>::empty(),
        r.stderr@ == "timed out after "@ + decimal(secs as nat) + "s (killed)"@,
        r.timed_out,
{
    let mut stderr = String::new();
    push_str(&mut stderr, "timed out after ");
    push_decimal(&mut stderr, secs);
    push_str(&mut stderr, "s (killed)");
    RunOutcome { status: None, stdout: String::new(), stderr, timed_out: true }
}

/// Seconds a provider command may run before it is killed.
pub const DEFAULT_TIMEOUT_SECS: u64 = 45;

} // verus!
