//! How often to sample, and where the trace goes.

use vstd::prelude::*;

verus! {

/// Default sampling interval in nanoseconds: half a second.
pub const DEFAULT_INTERVAL_NANOS: u64 = 500_000_000;

/// Options controlling sampler behavior.
#[derive(Debug, Clone)]
pub struct SamplerOptions {
    /// Wall-clock interval between samples, in nanoseconds.
    pub interval_nanos: u64,
    /// Where to write one row per non-empty tick; `None` writes no trace.
    pub trace_path: Option<String>,
}

impl Default for SamplerOptions {
    /// The default interval and no trace.
    fn default() -> (o: SamplerOptions)
        ensures
            o.interval_nanos == DEFAULT_INTERVAL_NANOS,
            o.trace_path is None,
    {
        SamplerOptions { interval_nanos: DEFAULT_INTERVAL_NANOS, trace_path: None }
    }
}

/// By default a second holds two samples.
pub proof fn lemma_default_is_half_a_second()
    ensures
        2 * DEFAULT_INTERVAL_NANOS == 1_000_000_000,
{
}

} // verus!
