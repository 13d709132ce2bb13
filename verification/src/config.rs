//! Tunable constants of a generation run, and the error taxonomy.

use vstd::prelude::*;

verus! {

/// Errors of the statistics and synthesis core.
#[derive(Clone, Copy, Debug, PartialEq, Eq, Structural)]
pub enum SynthError {
    /// A statistics key has no observations at any fallback bucket.
    DistributionExhausted,
    /// A supposed DAG holds a dependency cycle.
    CycleDetected,
    /// A persisted store does not satisfy the store invariants.
    MalformedStore,
}

/// The edge-assignment strategy used when growing a graph.
#[derive(Clone, Copy, Debug, PartialEq, Eq, Structural)]
pub enum Strategy {
    /// Forward growth: breadth-first from the chain's earliest node,
    /// attaching sampled numbers of children.
    Incr,
    /// Backward growth: breadth-first from the chain's latest node,
    /// attaching sampled numbers of parents.
    Decr,
    /// Level-parallel: levels are sampled independently, then each level is
    /// wired to the next one.
    Other,
}

/// Tunables of a generation run.
pub struct GenConfig {
    /// Smallest critical-path length that may be sampled (inclusive).
    pub min_cp: u32,
    /// Largest critical-path length that may be sampled (exclusive).
    pub max_cp: u32,
    /// How many graphs one run synthesizes at most.
    pub sample_cnt: usize,
    /// Cap on the instance count of every node.
    pub max_inst_cnt: u64,
    /// Computation-to-communication ratio used by the instance expander.
    pub ccr: u64,
    /// Which edge-assignment strategy is active.
    pub strategy: Strategy,
    /// Whether nodes at intermediate levels that ended up without a
    /// dependency are also given one (the level-parallel strategy always
    /// repairs the last level; repairing intermediate levels is optional).
    pub fix_isolated_intermediate: bool,
}

impl GenConfig {
    /// Bounds under which every arithmetic step of generation stays exact.
    pub open spec fn wf(&self) -> bool {
        &&& 2 <= self.min_cp < self.max_cp
        &&& 1 <= self.max_inst_cnt <= u32::MAX as u64
        &&& 1 <= self.ccr
    }

    /// The default tunables: critical paths of five or six levels, one
    /// hundred graphs per run, a computation/communication ratio of eleven.
    pub fn standard() -> (r: GenConfig)
        ensures
            r.wf(),
            r.min_cp == 5,
            r.max_cp == 7,
            r.sample_cnt == 100,
            r.max_inst_cnt == 100,
            r.ccr == 11,
            r.strategy == Strategy::Other,
            r.fix_isolated_intermediate == false,
    {
        GenConfig {
            min_cp: 5,
            max_cp: 7,
            sample_cnt: 100,
            max_inst_cnt: 100,
            ccr: 11,
            strategy: Strategy::Other,
            fix_isolated_intermediate: false,
        }
    }
}

} // verus!
