//! Shared definitions: the structs and constants that cross the boundary
//! between the fast path and the daemon.
use vstd::prelude::*;

verus! {

/// Compile-time bound on CPUs that per-CPU arrays are sized for.
pub const MAX_CPUS: u32 = 512;

/// Compile-time bound on LLCs (CCDs). The design targets 2; sized with
/// headroom so odd topologies don't fault.
pub const MAX_LLCS: u32 = 8;

/// Maximum number of live cohorts tracked in the cohort map.
pub const MAX_COHORTS: u32 = 1024;

/// Capacity of the LRU wake-edge map.
pub const WAKE_EDGE_SLOTS: u32 = 8192;

/// Cohort id 0 is never allocated; it means "no cohort".
pub const COHORT_INVALID: u64 = 0;

/// `CohortPolicy::flags` bit: cohort is pinned to its home LLC by an explicit
/// rule; the load balancer must not move it.
pub const COHORT_PINNED: u32 = 1;

/// Placement-statistics slots, aggregated per CPU and summed by the daemon
/// each tick.
pub const STAT_SYNC_LOCAL: u32 = 0;

pub const STAT_PREV_IDLE: u32 = 1;

pub const STAT_IDLE_CORE: u32 = 2;

pub const STAT_IDLE_SMT: u32 = 3;

pub const STAT_HOME_MISS_CLAMP: u32 = 4;

pub const STAT_ENQ_HOME: u32 = 5;

pub const STAT_ENQ_SPILL: u32 = 6;

pub const STAT_STEAL: u32 = 7;

pub const STAT_TCTX_ERR: u32 = 8;

pub const STAT_EXEC_SEVER: u32 = 9;

pub const STAT_PREEMPT: u32 = 10;

/// Wakeups that skipped the idle ladder because the home LLC had no idle CPU
/// at all. Diagnostic for the early-out, not a placement outcome: these still
/// land in `STAT_HOME_MISS_CLAMP`.
pub const STAT_IDLE_SKIP: u32 = 11;

pub const NR_STATS: u32 = 12;

/// Per-task scheduling state. Written almost exclusively by the fast path; the
/// daemon only reads it.
#[derive(Debug, Clone, Copy, Default)]
pub struct TaskCtx {
    /// Cohort the task belongs to (key into the cohort map).
    pub cohort_id: u64,
    /// Virtual time charged from weighted runtime; orders the task within its
    /// LLC's queue.
    pub vtime: u64,
    /// Timestamp of the last `running` transition.
    pub last_run_at: u64,
    /// Average per-run runtime, for the interactive signature.
    pub avg_runtime_ns: u64,
    /// Average wakeup frequency (wakes/sec), for the interactive signature.
    pub wake_freq: u64,
    /// Timestamp of the last wakeup, feeding `wake_freq`.
    pub last_wake_at: u64,
    /// Nonzero when the daemon spilled the task off its cohort's home LLC.
    pub is_spilled: u32,
    /// Target LLC while spilled (valid only when `is_spilled != 0`).
    pub spill_llc: u32,
    /// Cached placement LLC from the last wakeup resolution; `stopping`
    /// compares it against the LLC that actually ran the task to account
    /// home-vs-away runtime.
    pub home_llc: u32,
    pub _pad: u32,
}

/// Per-cohort placement policy. Created once when a cohort first appears;
/// thereafter written only by the daemon (moves, pins) and read by the fast
/// path. Kept separate from [`CohortCounters`] so each side has exclusive
/// write ownership of whole map values.
#[derive(Debug, Clone, Copy, Default)]
pub struct CohortPolicy {
    /// The LLC this cohort's tasks are placed on by default.
    pub home_llc: u32,
    /// `COHORT_PINNED` etc.
    pub flags: u32,
}

/// Per-cohort counters, written only by the fast path; the daemon reads them
/// and never writes existing entries back.
#[derive(Debug, Clone, Copy, Default)]
pub struct CohortCounters {
    /// Approximate live member count.
    pub nr_tasks: u64,
    /// Monotonic weight-scaled runtime sum; the daemon diffs per tick to
    /// compute the cohort's demand.
    pub load_sum: u64,
}

/// Key of the LRU wake-edge map. Keyed by tgid pair (not cohort pair) so one
/// dataset supports both cross-cohort merges and intra-cohort splits.
#[derive(Debug, Clone, Copy, PartialEq, Eq, Hash, Structural)]
pub struct WakeEdgeKey {
    pub waker_tgid: u32,
    pub wakee_tgid: u32,
}

/// Per-task bookkeeping the daemon iterates each tick (duty cycles, spill
/// candidate selection, comm-based rule matching). Keyed by pid.
#[derive(Debug, Clone, Copy, Default)]
pub struct TaskStat {
    pub tgid: u32,
    pub _pad: u32,
    /// Duplicated from `TaskCtx` so one map iteration suffices.
    pub cohort_id: u64,
    /// Monotonic on-CPU nanoseconds; the daemon diffs per tick for duty.
    pub runtime_sum: u64,
    /// The subset of `runtime_sum` executed on the task's home LLC; the
    /// per-tick ratio of the two deltas is the task's affinity.
    pub runtime_home_sum: u64,
    /// Kernel comm, NUL-padded.
    pub comm: [u8; 16],
}

/// The slice that [`Tunables::default`] is calibrated against, in nanoseconds:
/// [`Tunables::scale_to_slice`] is a no-op at this slice and only ever fires
/// when the operator picks a shorter one.
pub const DEFAULT_SLICE_NS: u64 = 2_500_000;

/// Live-tunable knobs that the daemon can adjust without reloading the
/// scheduler.
#[derive(Debug, Clone, Copy)]
pub struct Tunables {
    /// `dispatch` may steal from the foreign LLC only when its queue holds
    /// more than this many tasks...
    pub steal_min: u64,
    /// ...AND its head task has waited longer than this. Both must hold:
    /// depth alone is normal operation on a busy CCD, and depth-triggered
    /// stealing un-places what spill placed.
    pub steal_delay_ns: u64,
    /// Upper bound on the interactive vtime credit. Meaningful only against
    /// the clamp window, which is one slice wide: a credit far larger than the
    /// slice collapses every enqueued task onto the same effective vtime and
    /// the ordering stops discriminating. Kept below the slice by
    /// [`Tunables::scale_to_slice`].
    pub credit_max_ns: u64,
    /// Minimum wake frequency (wakes/sec) for the interactive credit.
    pub credit_wake_freq_min: u64,
    /// Maximum average runtime for the interactive credit. "Runs briefly" is
    /// only meaningful relative to how long a task is *allowed* to run, so
    /// [`Tunables::scale_to_slice`] holds this under the slice; left absolute,
    /// a short slice caps every task's runtime beneath it and the whole
    /// machine classifies as interactive.
    pub credit_runtime_max_ns: u64,
    /// An interactive wakee may preempt its previous CPU (when that CPU runs a
    /// firmly-batch, rarely-waking task) at most once per victim CPU per this
    /// interval. Bounds the worst-case preemption IPI rate.
    pub preempt_min_ns: u64,
    /// Wake-edge recording is sampled 1-in-2^sample_shift.
    pub sample_shift: u32,
    pub _pad: u32,
}

/// The smaller of two numbers.
pub open spec fn lesser(a: u64, b: u64) -> u64 {
    if a <= b {
        a
    } else {
        b
    }
}

/// The knobs with the interactive ones held under `slice_ns`: brief is half a
/// slice at most, the credit four fifths of one.
pub open spec fn scaled(t: Tunables, slice_ns: u64) -> Tunables {
    if slice_ns == 0 {
        t
    } else {
        Tunables {
            credit_runtime_max_ns: lesser(t.credit_runtime_max_ns, slice_ns / 2),
            credit_max_ns: lesser(t.credit_max_ns, (slice_ns / 5 * 4) as u64),
            ..t
        }
    }
}

/// The knobs as they are calibrated.
pub open spec fn calibrated() -> Tunables {
    Tunables {
        steal_min: 2,
        steal_delay_ns: 500_000,
        credit_max_ns: 2_000_000,
        credit_wake_freq_min: 50,
        credit_runtime_max_ns: 1_250_000,
        preempt_min_ns: 200_000,
        sample_shift: 3,
        _pad: 0,
    }
}

impl Tunables {
    /// Rescale the interactive knobs to fit `slice_ns`.
    ///
    /// Both credit knobs describe behaviour *relative to a slice* but are
    /// stored absolute, calibrated against [`DEFAULT_SLICE_NS`]. Shorten the
    /// slice without rescaling and they invert: once no task can run as long
    /// as `credit_runtime_max_ns`, every task on the machine passes the "runs
    /// briefly" test and the credit is granted universally. A bonus everyone
    /// receives orders nothing, and a credit wider than the clamp window (one
    /// slice) flattens what ordering remains.
    ///
    /// Scaling is one-directional: these only ever move *down* to fit a
    /// shorter slice, so an explicitly configured ceiling is never raised and
    /// the defaults are unchanged at the default slice.
    pub fn scale_to_slice(&mut self, slice_ns: u64)
        ensures
            *final(self) == scaled(*old(self), slice_ns),
    {
        if slice_ns == 0 {
            return ;
        }
        // Half a slice: a task that blocks before burning half of what it was
        // given is running briefly by any reading.
        if slice_ns / 2 < self.credit_runtime_max_ns {
            self.credit_runtime_max_ns = slice_ns / 2;
        }
        // Division first so a large slice can't overflow.
        if slice_ns / 5 * 4 < self.credit_max_ns {
            self.credit_max_ns = slice_ns / 5 * 4;
        }
    }
}

impl Default for Tunables {
    fn default() -> (t: Self)
        ensures
            t == calibrated(),
    {
        Tunables {
            steal_min: 2,
            steal_delay_ns: 500_000,
            credit_max_ns: 2_000_000,
            credit_wake_freq_min: 50,
            credit_runtime_max_ns: 1_250_000,
            preempt_min_ns: 200_000,
            sample_shift: 3,
            _pad: 0,
        }
    }
}

// ---- Laws ----

/// Scaling never raises a knob, and touches no other one.
pub proof fn law_scaling_never_raises(t: Tunables, slice_ns: u64)
    ensures
        scaled(t, slice_ns).credit_max_ns <= t.credit_max_ns,
        scaled(t, slice_ns).credit_runtime_max_ns <= t.credit_runtime_max_ns,
        scaled(t, slice_ns) == (Tunables {
            credit_max_ns: scaled(t, slice_ns).credit_max_ns,
            credit_runtime_max_ns: scaled(t, slice_ns).credit_runtime_max_ns,
            ..t
        }),
{
}

/// A knob that already fits the slice stays as it is.
pub proof fn law_fitting_knobs_stay(t: Tunables, slice_ns: u64)
    requires
        t.credit_runtime_max_ns <= slice_ns / 2,
        t.credit_max_ns <= slice_ns / 5 * 4,
    ensures
        scaled(t, slice_ns) == t,
{
}

/// No task can run a full slice and still count as brief, and no credit is as
/// wide as the clamp window.
pub proof fn law_scaled_knobs_stay_under_the_slice(t: Tunables, slice_ns: u64)
    requires
        slice_ns > 0,
    ensures
        scaled(t, slice_ns).credit_runtime_max_ns < slice_ns,
        scaled(t, slice_ns).credit_max_ns < slice_ns,
{
}

/// Scaling twice changes nothing more.
pub proof fn law_scaling_is_idempotent(t: Tunables, slice_ns: u64)
    ensures
        scaled(scaled(t, slice_ns), slice_ns) == scaled(t, slice_ns),
{
}

/// The defaults are unchanged at the default slice, and at any longer one.
pub proof fn law_defaults_fit_the_default_slice(slice_ns: u64)
    requires
        slice_ns >= DEFAULT_SLICE_NS,
    ensures
        scaled(calibrated(), slice_ns) == calibrated(),
{
}

} // verus!
