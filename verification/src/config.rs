use vstd::prelude::*;

verus! {

/// Runtime resources for the search.
#[derive(Debug, Clone, Copy)]
pub struct RuntimeConfig {
    /// Search worker threads. `0` means auto (uses available CPU parallelism).
    pub threads: usize,
    /// Transposition table size in MiB. `0` means auto (depth-based sizing).
    pub hash_mb: usize,
}

impl RuntimeConfig {
    /// Default thread count (auto).
    pub const DEFAULT_THREADS: usize = 0;
    /// Default table size (auto).
    pub const DEFAULT_HASH_MB: usize = 0;
}

impl Default for RuntimeConfig {
    fn default() -> (c: Self)
        ensures
            c.threads == 0,
            c.hash_mb == 0,
    {
        RuntimeConfig { threads: Self::DEFAULT_THREADS, hash_mb: Self::DEFAULT_HASH_MB }
    }
}

/// Counters of the work a search did; durations are in nanoseconds.
#[derive(Debug, Clone, Copy, Default)]
pub struct PerfStats {
    pub negamax_calls: u64,
    pub eval_calls: u64,
    pub eval_duration: u128,
    pub voronoi_calls: u64,
    pub voronoi_duration: u128,
    pub floodfill_calls: u64,
    pub floodfill_duration: u128,
    pub move_gen_calls: u64,
    pub move_gen_duration: u128,
    pub distmap_calls: u64,
    pub distmap_duration: u128,
}

} // verus!
