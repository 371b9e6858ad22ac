//! Folding periodic snapshots of a process tree into one record.

pub mod account;
pub mod cycle;
pub mod delta;
pub mod field_laws;
pub mod laws;
pub mod ledger;
pub mod options;
pub mod record_laws;
pub mod snapshot;
pub mod state;
pub mod tally;
pub mod trace_laws;

pub use options::{SamplerOptions, DEFAULT_INTERVAL_NANOS};
pub use snapshot::ProcessSnapshot;
pub use state::SamplerState;
