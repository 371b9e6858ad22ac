//! The exit code of a run.

use vstd::prelude::*;

use crate::record::BenchmarkRecord;

verus! {

/// How a child process ended: with an exit code, or killed by a signal.
#[derive(Debug, Clone, Copy, PartialEq, Eq, Structural)]
pub struct ChildStatus {
    /// The exit code, where the child exited by itself.
    pub code: Option<i32>,
    /// The signal, where one killed the child.
    pub signal: Option<i32>,
}

/// What is added to a signal's number to make an exit code of it.
pub const SIGNAL_BASE: i32 = 128;

impl ChildStatus {
    /// The exit code that stands for this status: the child's own where it exited by itself,
    /// 128 and the signal's number where a signal killed it, and 1 otherwise.
    pub open spec fn as_exit_code(self) -> int {
        match (self.code, self.signal) {
            (Some(code), _) => code as int,
            (None, Some(signal)) => SIGNAL_BASE + signal,
            (None, None) => 1,
        }
    }

    /// The exit code fits, as it does for every signal number there is.
    pub open spec fn is_representable(self) -> bool {
        self.code is None && self.signal is Some ==> SIGNAL_BASE + self.signal->0 <= i32::MAX
    }
}

/// Outcome of one benchmark run.
#[derive(Debug, Clone, Copy)]
pub struct RunOutcome {
    /// Aggregated resource record produced by the sampler.
    pub record: BenchmarkRecord,
    /// How the child ended.
    pub status: ChildStatus,
}

impl RunOutcome {
    /// The exit code of the child, or 128 and the signal's number where a signal killed it.
    pub fn exit_code(&self) -> (r: i32)
        requires
            self.status.is_representable(),
        ensures
            r == self.status.as_exit_code(),
    {
        exit_code_for(self.status)
    }
}

/// The exit code that stands for `status`.
pub fn exit_code_for(status: ChildStatus) -> (r: i32)
    requires
        status.is_representable(),
    ensures
        r == status.as_exit_code(),
{
    if let Some(code) = status.code {
        code
    } else if let Some(signal) = status.signal {
        SIGNAL_BASE + signal
    } else {
        1
    }
}

/// The byte that a process exits with for `code`: itself where it is a byte, else 1.
pub open spec fn exit_byte(code: int) -> int {
    if 0 <= code <= u8::MAX {
        code
    } else {
        1
    }
}

/// The byte that a process exits with for `code`: itself where it is a byte, else 1.
pub fn clamp_exit_code(code: i32) -> (r: u8)
    ensures
        r == exit_byte(code as int),
{
    if 0 <= code && code <= 255 {
        code as u8
    } else {
        1
    }
}

/// What a run exits with where it failed before there was an outcome.
pub const RUN_FAILED: u8 = 127;

/// The byte that a run exits with: the one for its child's status, or [`RUN_FAILED`] where there
/// is no outcome.
pub fn run_exit_code(outcome: &Option<RunOutcome>) -> (r: u8)
    requires
        outcome matches Some(o) ==> o.status.is_representable(),
    ensures
        r == match outcome {
            Some(o) => exit_byte(o.status.as_exit_code()),
            None => RUN_FAILED as int,
        },
{
    match outcome {
        Some(o) => clamp_exit_code(o.exit_code()),
        None => RUN_FAILED,
    }
}

/// A run exits as its child did: with the child's exit code, or with 128 and the signal's number
/// where a signal killed it.
pub proof fn lemma_run_exits_as_the_child(status: ChildStatus)
    ensures
        status.code matches Some(code) ==> (0 <= code <= 255 ==> exit_byte(status.as_exit_code())
            == code),
        status.code is None ==> (status.signal matches Some(signal) ==> (0 <= signal <= 127
            ==> status.is_representable() && exit_byte(status.as_exit_code()) == 128 + signal)),
{
}

} // verus!
