//! `tricord`: the arithmetic, accounting and text of a process-tree benchmark.
//!
//! Snapshots of a process tree are folded into one record of wall time, CPU time, peak memory and
//! disk I/O ([`sampler`]), which is written as a Snakemake-compatible table or as JSON
//! ([`record`], [`format`]). [`platform`] turns what Linux and macOS show of a process into
//! snapshots, and [`run`] says which step of a benchmark run comes next.
//!
//! What the results mean is stated and proved beside the code: how near a computed amount is to the
//! exact one ([`rounding`]), what a numeral says ([`numerals`]), which value stands in which column
//! ([`columns`]), what a snapshot says of its process ([`platform::snapshot_laws`],
//! [`platform::loadavg_laws`]), what each field of a record stands for ([`sampler::field_laws`],
//! [`sampler::record_laws`]) and what holds of every run ([`sampler::laws`], [`run::laws`]).

pub mod columns;
pub mod format;
pub mod natural;
pub mod numerals;
pub mod path;
pub mod platform;
pub mod quantity;
pub mod record;
pub mod rounding;
pub mod run;
pub mod sampler;
pub mod signals;
pub mod table;
pub mod text;

pub use format::OutputFormat;
pub use record::{BenchmarkRecord, TSV_HEADER};
pub use run::{RunOptions, RunOutcome};
