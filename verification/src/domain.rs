//! Plain value types the policy planners operate on. The daemon builds
//! these from map snapshots and applies the returned decisions as map
//! writes; the planners themselves never touch the kernel.
use vstd::prelude::*;

verus! {

/// Per-LLC load for one balancer tick.
#[derive(Debug, Clone, Copy)]
pub struct LlcLoad {
    pub llc: u32,
    /// Weight-scaled runtime consumed by cohorts homed here this tick.
    pub load_ns: u64,
    /// `cpus_in_llc * tick_duration`: the most runtime this LLC could
    /// have delivered this tick.
    pub capacity_ns: u64,
}

/// One cohort as seen at a balancer tick.
#[derive(Debug, Clone)]
pub struct CohortSnapshot {
    pub id: u64,
    pub home_llc: u32,
    pub pinned: bool,
    pub nr_tasks: u64,
    /// Weight-scaled runtime this tick (delta of a monotonic sum).
    pub load_ns: u64,
    /// Per-cohort residency override from a matched rule, if any.
    pub residency_ms: Option<u64>,
}

/// One task as seen at a balancer tick.
#[derive(Debug, Clone)]
pub struct TaskSnapshot {
    pub pid: u32,
    pub tgid: u32,
    pub cohort_id: u64,
    /// On-CPU nanoseconds this tick (delta of the monotonic runtime sum).
    pub duty_ns: u64,
    /// False on the task's first sighting: there is no previous sample to
    /// diff, so `duty_ns` reads 0 regardless of how hot the task is.
    /// Spill growth must not treat that 0 as "cold".
    pub duty_known: bool,
    /// The subset of `duty_ns` executed on the task's home LLC.
    pub home_ns: u64,
    /// Kernel comm, for rule matching.
    pub comm: String,
}

/// A planner conclusion for the daemon to apply to the kernel maps.
#[derive(Debug, Clone, PartialEq, Eq, Structural)]
pub enum Decision {
    /// Rewrite the cohort's home; members drift over lazily on their next
    /// wakeup.
    MoveCohort { id: u64, to: u32 },
}

impl Decision {
    /// The cohort the decision is about.
    pub open spec fn cohort(self) -> u64 {
        match self {
            Decision::MoveCohort { id, to } => id,
        }
    }

    /// The LLC the cohort is sent to.
    pub open spec fn target(self) -> u32 {
        match self {
            Decision::MoveCohort { id, to } => to,
        }
    }
}

} // verus!
