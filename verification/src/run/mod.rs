//! A benchmark run from end to end: its options, its steps and its exit code.

pub mod exit;
pub mod laws;
pub mod options;
pub mod phases;

pub use exit::{clamp_exit_code, exit_code_for, run_exit_code, ChildStatus, RunOutcome};
pub use options::{validate_output_paths, ErrorKind, RunError, RunOptions};
pub use phases::{Context, Phase, Report};
