//! Aggregate metrics: what the counters say of where tasks were placed.
//! Percentages are held as fractions; a reader divides.
use std::collections::BTreeMap;

use vstd::prelude::*;

use crate::arith::{lemma_total_monotone, total};
use crate::domain::{CohortSnapshot, LlcLoad};
use crate::tunables::{
    NR_STATS, STAT_ENQ_HOME, STAT_ENQ_SPILL, STAT_EXEC_SEVER, STAT_HOME_MISS_CLAMP, STAT_IDLE_CORE,
    STAT_IDLE_SMT, STAT_PREV_IDLE, STAT_STEAL, STAT_SYNC_LOCAL, STAT_TCTX_ERR,
};

verus! {

/// A percentage as a fraction: `num` of `den`. Of nothing, it is all: where
/// `den` is 0 the percentage is 100.
#[derive(Debug, Clone, Copy, PartialEq, Eq, Structural)]
pub struct Pct {
    pub num: u64,
    pub den: u64,
}

#[derive(Debug, Clone, Copy, PartialEq, Eq, Structural)]
pub struct LlcMetrics {
    /// Load homed on this LLC as a fraction of its capacity.
    pub util: Pct,
    /// Cohorts homed on this LLC.
    pub nr_cohorts: u64,
}

#[derive(Debug, Clone)]
pub struct Metrics {
    /// Live cohorts.
    pub nr_cohorts: u64,
    /// Live tasks under the scheduler.
    pub nr_tasks: u64,
    /// % of placements landing on the home CCD (the headline number).
    pub affinity_hit_pct: Pct,
    /// % of placements landing where planned, home or spill target.
    pub plan_hit_pct: Pct,
    /// WAKE_SYNC handoffs to a same-cohort waker's CPU.
    pub nr_sync_local: u64,
    /// Placements on an idle prev_cpu with a fully idle core.
    pub nr_prev_idle: u64,
    /// Placements on a fully idle core in the home CCD.
    pub nr_idle_core: u64,
    /// Placements on an idle SMT sibling in the home CCD.
    pub nr_idle_smt: u64,
    /// Wakeups clamped into a busy home CCD.
    pub nr_home_miss_clamp: u64,
    /// Enqueues into the home CCD's queue.
    pub nr_enq_home: u64,
    /// Enqueues of spilled tasks onto the foreign CCD.
    pub nr_enq_spill: u64,
    /// Tasks stolen across the fabric by an idle CCD.
    pub nr_steals: u64,
    /// Task context lookup failures (should stay 0).
    pub nr_tctx_errors: u64,
    /// Cohorts started fresh at exec (lineage severed).
    pub nr_exec_severs: u64,
    /// Cohort home moves by the load balancer.
    pub nr_migrations: u64,
    /// Cohort merges from wake-edge discovery.
    pub nr_merges: u64,
    /// Cohort splits from wake-edge discovery.
    pub nr_splits: u64,
    /// Tasks currently spilled off their home CCD (gauge).
    pub nr_spilled: u64,
    /// Per-LLC statistics.
    pub llcs: BTreeMap<u64, LlcMetrics>,
}

/// What the metrics say.
pub struct MetricsModel {
    pub nr_cohorts: u64,
    pub nr_tasks: u64,
    pub affinity_hit_pct: Pct,
    pub plan_hit_pct: Pct,
    pub nr_sync_local: u64,
    pub nr_prev_idle: u64,
    pub nr_idle_core: u64,
    pub nr_idle_smt: u64,
    pub nr_home_miss_clamp: u64,
    pub nr_enq_home: u64,
    pub nr_enq_spill: u64,
    pub nr_steals: u64,
    pub nr_tctx_errors: u64,
    pub nr_exec_severs: u64,
    pub nr_migrations: u64,
    pub nr_merges: u64,
    pub nr_splits: u64,
    pub nr_spilled: u64,
    pub llcs: Map<u64, LlcMetrics>,
}

impl View for Metrics {
    type V = MetricsModel;

    open spec fn view(&self) -> MetricsModel {
        MetricsModel {
            nr_cohorts: self.nr_cohorts,
            nr_tasks: self.nr_tasks,
            affinity_hit_pct: self.affinity_hit_pct,
            plan_hit_pct: self.plan_hit_pct,
            nr_sync_local: self.nr_sync_local,
            nr_prev_idle: self.nr_prev_idle,
            nr_idle_core: self.nr_idle_core,
            nr_idle_smt: self.nr_idle_smt,
            nr_home_miss_clamp: self.nr_home_miss_clamp,
            nr_enq_home: self.nr_enq_home,
            nr_enq_spill: self.nr_enq_spill,
            nr_steals: self.nr_steals,
            nr_tctx_errors: self.nr_tctx_errors,
            nr_exec_severs: self.nr_exec_severs,
            nr_migrations: self.nr_migrations,
            nr_merges: self.nr_merges,
            nr_splits: self.nr_splits,
            nr_spilled: self.nr_spilled,
            llcs: self.llcs@,
        }
    }
}

/// What the daemon counts itself, since it attached.
#[derive(Debug, Clone, Copy)]
pub struct DaemonCounts {
    pub nr_migrations: u64,
    pub nr_merges: u64,
    pub nr_splits: u64,
    /// Tasks currently spilled.
    pub nr_spilled: u64,
}

// ---- Hit rates ----

/// `a - b`, but no less than 0.
pub open spec fn monus(a: int, b: int) -> int {
    if a <= b {
        0
    } else {
        a - b
    }
}

pub open spec fn affinity(direct: int, enq_home: int, enq_spill: int, steals: int) -> Pct {
    Pct {
        num: monus(direct + enq_home, steals) as u64,
        den: (direct + enq_home + enq_spill) as u64,
    }
}

pub open spec fn plan_hits(direct: int, enq_home: int, enq_spill: int, steals: int) -> Pct {
    Pct {
        num: monus(direct + enq_home + enq_spill, steals) as u64,
        den: (direct + enq_home + enq_spill) as u64,
    }
}

/// The affinity hit rate: placements that ended up on the home CCD over all
/// placements. A stolen task was counted at enqueue as landing home but
/// actually ran away, so steals move from the numerator to the denominator's
/// "away" side rather than being double-counted.
pub fn affinity_pct(direct: u64, enq_home: u64, enq_spill: u64, steals: u64) -> (pct: Pct)
    requires
        direct + enq_home + enq_spill <= u64::MAX,
    ensures
        pct == affinity(direct as int, enq_home as int, enq_spill as int, steals as int),
{
    Pct {
        num: (direct + enq_home).saturating_sub(steals),
        den: direct + enq_home + enq_spill,
    }
}

/// Placement-plan adherence: home *and* spill-target placements both count as
/// hits (spilling is deliberate policy, not a miss), so this stays diagnostic
/// for oversized cohorts, where [`affinity_pct`] is structurally capped by the
/// share of members the plan itself runs remotely. Steals are the only misses:
/// work that ran somewhere no plan put it.
pub fn plan_hit_pct(direct: u64, enq_home: u64, enq_spill: u64, steals: u64) -> (pct: Pct)
    requires
        direct + enq_home + enq_spill <= u64::MAX,
    ensures
        pct == plan_hits(direct as int, enq_home as int, enq_spill as int, steals as int),
{
    let total = direct + enq_home + enq_spill;
    Pct { num: total.saturating_sub(steals), den: total }
}

// ---- Metrics of a tick ----

/// How many of the cohorts are homed on the LLC.
pub open spec fn homed(cohorts: Seq<CohortSnapshot>, llc: u32) -> int {
    total(
        cohorts.len() as int,
        |i: int|
            if cohorts[i].home_llc == llc {
                1int
            } else {
                0
            },
    )
}

/// A capacity that can be divided by.
pub open spec fn at_least_one(n: u64) -> u64 {
    if n == 0 {
        1
    } else {
        n
    }
}

/// The per-LLC statistics of the first `n` LLCs.
pub open spec fn llc_metrics(
    cohorts: Seq<CohortSnapshot>,
    llcs: Seq<LlcLoad>,
    n: int,
) -> Map<u64, LlcMetrics>
    decreases n,
{
    if n <= 0 {
        Map::empty()
    } else {
        let l = llcs[n - 1];
        llc_metrics(cohorts, llcs, n - 1).insert(
            l.llc as u64,
            LlcMetrics {
                util: Pct { num: l.load_ns, den: at_least_one(l.capacity_ns) },
                nr_cohorts: homed(cohorts, l.llc) as u64,
            },
        )
    }
}

/// The tasks of all cohorts.
pub open spec fn live_tasks(cohorts: Seq<CohortSnapshot>) -> int {
    total(cohorts.len() as int, |i: int| cohorts[i].nr_tasks as int)
}

/// Placements made directly, without going through a queue.
pub open spec fn direct_placements(c: Seq<u64>) -> int {
    c[STAT_SYNC_LOCAL as int] + c[STAT_PREV_IDLE as int] + c[STAT_IDLE_CORE as int]
        + c[STAT_IDLE_SMT as int]
}

/// What the summed counters, the tick's snapshots and the daemon's own counts
/// come to.
pub open spec fn metrics_of(
    c: Seq<u64>,
    cohorts: Seq<CohortSnapshot>,
    llcs: Seq<LlcLoad>,
    own: DaemonCounts,
) -> MetricsModel {
    let direct = direct_placements(c);
    let home = c[STAT_ENQ_HOME as int] as int;
    let spill = c[STAT_ENQ_SPILL as int] as int;
    let steals = c[STAT_STEAL as int] as int;
    MetricsModel {
        nr_cohorts: cohorts.len() as u64,
        nr_tasks: live_tasks(cohorts) as u64,
        affinity_hit_pct: affinity(direct, home, spill, steals),
        plan_hit_pct: plan_hits(direct, home, spill, steals),
        nr_sync_local: c[STAT_SYNC_LOCAL as int],
        nr_prev_idle: c[STAT_PREV_IDLE as int],
        nr_idle_core: c[STAT_IDLE_CORE as int],
        nr_idle_smt: c[STAT_IDLE_SMT as int],
        nr_home_miss_clamp: c[STAT_HOME_MISS_CLAMP as int],
        nr_enq_home: c[STAT_ENQ_HOME as int],
        nr_enq_spill: c[STAT_ENQ_SPILL as int],
        nr_steals: c[STAT_STEAL as int],
        nr_tctx_errors: c[STAT_TCTX_ERR as int],
        nr_exec_severs: c[STAT_EXEC_SEVER as int],
        nr_migrations: own.nr_migrations,
        nr_merges: own.nr_merges,
        nr_splits: own.nr_splits,
        nr_spilled: own.nr_spilled,
        llcs: llc_metrics(cohorts, llcs, llcs.len() as int),
    }
}

/// The counters' placements and the cohorts' tasks fit in 64 bits.
pub open spec fn metrics_fit(c: Seq<u64>, cohorts: Seq<CohortSnapshot>) -> bool {
    &&& direct_placements(c) + c[STAT_ENQ_HOME as int] + c[STAT_ENQ_SPILL as int] <= u64::MAX
    &&& live_tasks(cohorts) <= u64::MAX
}

fn count_homed(cohorts: &[CohortSnapshot], llc: u32) -> (n: u64)
    ensures
        n == homed(cohorts@, llc),
        n <= cohorts@.len(),
{
    let mut n: u64 = 0;
    let mut i: usize = 0;
    while i < cohorts.len()
        invariant
            i <= cohorts@.len(),
            n <= i,
            n == total(
                i as int,
                |j: int|
                    if cohorts@[j].home_llc == llc {
                        1int
                    } else {
                        0
                    },
            ),
        decreases cohorts@.len() - i,
    {
        if cohorts[i].home_llc == llc {
            n = n + 1;
        }
        i = i + 1;
    }
    n
}

fn count_tasks(cohorts: &[CohortSnapshot]) -> (n: u64)
    requires
        live_tasks(cohorts@) <= u64::MAX,
    ensures
        n == live_tasks(cohorts@),
{
    let ghost f = |i: int| cohorts@[i].nr_tasks as int;
    let mut n: u64 = 0;
    let mut i: usize = 0;
    while i < cohorts.len()
        invariant
            i <= cohorts@.len(),
            f == (|i: int| cohorts@[i].nr_tasks as int),
            n == total(i as int, f),
            total(cohorts@.len() as int, f) <= u64::MAX,
        decreases cohorts@.len() - i,
    {
        proof {
            lemma_total_monotone(i + 1, cohorts@.len() as int, f);
        }
        n = n + cohorts[i].nr_tasks;
        i = i + 1;
    }
    n
}

/// Assembles the metrics from the summed counters, the last tick's snapshots
/// and the daemon's own counts.
pub fn get_metrics(
    counters: &[u64],
    cohorts: &[CohortSnapshot],
    llcs: &[LlcLoad],
    own: DaemonCounts,
) -> (m: Metrics)
    requires
        counters@.len() == NR_STATS,
        metrics_fit(counters@, cohorts@),
    ensures
        m@ == metrics_of(counters@, cohorts@, llcs@, own),
{
    let mut per_llc: BTreeMap<u64, LlcMetrics> = BTreeMap::new();
    let mut i: usize = 0;
    while i < llcs.len()
        invariant
            i <= llcs@.len(),
            per_llc@ == llc_metrics(cohorts@, llcs@, i as int),
        decreases llcs@.len() - i,
    {
        let l = llcs[i];
        let capacity: u64 = if l.capacity_ns == 0 {
            1
        } else {
            l.capacity_ns
        };
        per_llc.insert(
            l.llc as u64,
            LlcMetrics {
                util: Pct { num: l.load_ns, den: capacity },
                nr_cohorts: count_homed(cohorts, l.llc),
            },
        );
        i = i + 1;
    }
    let c = counters;
    let direct = c[STAT_SYNC_LOCAL as usize] + c[STAT_PREV_IDLE as usize]
        + c[STAT_IDLE_CORE as usize] + c[STAT_IDLE_SMT as usize];
    let home = c[STAT_ENQ_HOME as usize];
    let spill = c[STAT_ENQ_SPILL as usize];
    let steals = c[STAT_STEAL as usize];
    Metrics {
        nr_cohorts: cohorts.len() as u64,
        nr_tasks: count_tasks(cohorts),
        affinity_hit_pct: affinity_pct(direct, home, spill, steals),
        plan_hit_pct: plan_hit_pct(direct, home, spill, steals),
        nr_sync_local: c[STAT_SYNC_LOCAL as usize],
        nr_prev_idle: c[STAT_PREV_IDLE as usize],
        nr_idle_core: c[STAT_IDLE_CORE as usize],
        nr_idle_smt: c[STAT_IDLE_SMT as usize],
        nr_home_miss_clamp: c[STAT_HOME_MISS_CLAMP as usize],
        nr_enq_home: home,
        nr_enq_spill: spill,
        nr_steals: steals,
        nr_tctx_errors: c[STAT_TCTX_ERR as usize],
        nr_exec_severs: c[STAT_EXEC_SEVER as usize],
        nr_migrations: own.nr_migrations,
        nr_merges: own.nr_merges,
        nr_splits: own.nr_splits,
        nr_spilled: own.nr_spilled,
        llcs: per_llc,
    }
}

// ---- Differences ----

/// What happened between two readings: counters as differences, rates over
/// the interval, gauges as they are now.
pub open spec fn change(now: MetricsModel, then: MetricsModel) -> MetricsModel {
    let sync_local = monus(now.nr_sync_local as int, then.nr_sync_local as int);
    let prev_idle = monus(now.nr_prev_idle as int, then.nr_prev_idle as int);
    let idle_core = monus(now.nr_idle_core as int, then.nr_idle_core as int);
    let idle_smt = monus(now.nr_idle_smt as int, then.nr_idle_smt as int);
    let enq_home = monus(now.nr_enq_home as int, then.nr_enq_home as int);
    let enq_spill = monus(now.nr_enq_spill as int, then.nr_enq_spill as int);
    let steals = monus(now.nr_steals as int, then.nr_steals as int);
    let direct = sync_local + prev_idle + idle_core + idle_smt;
    MetricsModel {
        nr_sync_local: sync_local as u64,
        nr_prev_idle: prev_idle as u64,
        nr_idle_core: idle_core as u64,
        nr_idle_smt: idle_smt as u64,
        nr_home_miss_clamp: monus(
            now.nr_home_miss_clamp as int,
            then.nr_home_miss_clamp as int,
        ) as u64,
        nr_enq_home: enq_home as u64,
        nr_enq_spill: enq_spill as u64,
        nr_steals: steals as u64,
        nr_tctx_errors: monus(now.nr_tctx_errors as int, then.nr_tctx_errors as int) as u64,
        nr_exec_severs: monus(now.nr_exec_severs as int, then.nr_exec_severs as int) as u64,
        nr_migrations: monus(now.nr_migrations as int, then.nr_migrations as int) as u64,
        nr_merges: monus(now.nr_merges as int, then.nr_merges as int) as u64,
        nr_splits: monus(now.nr_splits as int, then.nr_splits as int) as u64,
        affinity_hit_pct: affinity(direct, enq_home, enq_spill, steals),
        plan_hit_pct: plan_hits(direct, enq_home, enq_spill, steals),
        ..now
    }
}

/// The placements between two readings.
pub open spec fn placements_since(now: MetricsModel, then: MetricsModel) -> int {
    monus(now.nr_sync_local as int, then.nr_sync_local as int) + monus(
        now.nr_prev_idle as int,
        then.nr_prev_idle as int,
    ) + monus(now.nr_idle_core as int, then.nr_idle_core as int) + monus(
        now.nr_idle_smt as int,
        then.nr_idle_smt as int,
    ) + monus(now.nr_enq_home as int, then.nr_enq_home as int) + monus(
        now.nr_enq_spill as int,
        then.nr_enq_spill as int,
    )
}

impl Metrics {
    /// Whether the placements since the reading `rhs` fit in 64 bits.
    pub fn delta_fits(&self, rhs: &Self) -> (yes: bool)
        ensures
            yes == (placements_since(self@, rhs@) <= u64::MAX),
    {
        let sum: u128 = self.nr_sync_local.saturating_sub(rhs.nr_sync_local) as u128
            + self.nr_prev_idle.saturating_sub(rhs.nr_prev_idle) as u128
            + self.nr_idle_core.saturating_sub(rhs.nr_idle_core) as u128
            + self.nr_idle_smt.saturating_sub(rhs.nr_idle_smt) as u128
            + self.nr_enq_home.saturating_sub(rhs.nr_enq_home) as u128
            + self.nr_enq_spill.saturating_sub(rhs.nr_enq_spill) as u128;
        sum <= u64::MAX as u128
    }

    /// What happened since the reading `rhs`. A transient counter-read failure
    /// upstream can make a "cumulative" value regress; clamping beats wrapping.
    /// Affinity is over THIS interval, not since attach: a cumulative
    /// percentage would bury fresh regressions under old history.
    pub fn delta(&self, rhs: &Self) -> (d: Self)
        requires
            placements_since(self@, rhs@) <= u64::MAX,
        ensures
            d@ == change(self@, rhs@),
    {
        let sync_local = self.nr_sync_local.saturating_sub(rhs.nr_sync_local);
        let prev_idle = self.nr_prev_idle.saturating_sub(rhs.nr_prev_idle);
        let idle_core = self.nr_idle_core.saturating_sub(rhs.nr_idle_core);
        let idle_smt = self.nr_idle_smt.saturating_sub(rhs.nr_idle_smt);
        let enq_home = self.nr_enq_home.saturating_sub(rhs.nr_enq_home);
        let enq_spill = self.nr_enq_spill.saturating_sub(rhs.nr_enq_spill);
        let steals = self.nr_steals.saturating_sub(rhs.nr_steals);
        let direct = sync_local + prev_idle + idle_core + idle_smt;
        Metrics {
            nr_cohorts: self.nr_cohorts,
            nr_tasks: self.nr_tasks,
            affinity_hit_pct: affinity_pct(direct, enq_home, enq_spill, steals),
            plan_hit_pct: plan_hit_pct(direct, enq_home, enq_spill, steals),
            nr_sync_local: sync_local,
            nr_prev_idle: prev_idle,
            nr_idle_core: idle_core,
            nr_idle_smt: idle_smt,
            nr_home_miss_clamp: self.nr_home_miss_clamp.saturating_sub(rhs.nr_home_miss_clamp),
            nr_enq_home: enq_home,
            nr_enq_spill: enq_spill,
            nr_steals: steals,
            nr_tctx_errors: self.nr_tctx_errors.saturating_sub(rhs.nr_tctx_errors),
            nr_exec_severs: self.nr_exec_severs.saturating_sub(rhs.nr_exec_severs),
            nr_migrations: self.nr_migrations.saturating_sub(rhs.nr_migrations),
            nr_merges: self.nr_merges.saturating_sub(rhs.nr_merges),
            nr_splits: self.nr_splits.saturating_sub(rhs.nr_splits),
            nr_spilled: self.nr_spilled,
            llcs: self.llcs.clone(),
        }
    }
}

// ---- Laws ----

/// Without spills the two hit rates agree.
pub proof fn law_rates_agree_without_spills(direct: u64, enq_home: u64, steals: u64)
    ensures
        affinity(direct as int, enq_home as int, 0, steals as int) == plan_hits(
            direct as int,
            enq_home as int,
            0,
            steals as int,
        ),
{
}

/// Hit rates are at most 100%, affinity is no better than plan adherence, and
/// both are over the same placements.
pub proof fn law_rates_are_ordered(direct: u64, enq_home: u64, enq_spill: u64, steals: u64)
    requires
        direct + enq_home + enq_spill <= u64::MAX,
    ensures
        ({
            let a = affinity(direct as int, enq_home as int, enq_spill as int, steals as int);
            let p = plan_hits(direct as int, enq_home as int, enq_spill as int, steals as int);
            a.num <= p.num <= p.den && a.den == p.den
        }),
{
}

/// Reading twice without anything happening in between shows no activity, and
/// the full rates of an idle interval.
pub proof fn law_no_activity_no_change(now: MetricsModel)
    ensures
        placements_since(now, now) == 0,
        change(now, now).affinity_hit_pct == (Pct { num: 0, den: 0 }),
        change(now, now).plan_hit_pct == (Pct { num: 0, den: 0 }),
        change(now, now).nr_migrations == 0,
{
}

/// The rates of a change are over the interval: whatever was placed before
/// the earlier reading does not enter.
pub proof fn law_rates_are_over_the_interval(now: MetricsModel, then: MetricsModel)
    requires
        placements_since(now, then) <= u64::MAX,
    ensures
        change(now, then).affinity_hit_pct.den == placements_since(now, then),
        change(now, then).plan_hit_pct.den == placements_since(now, then),
{
}

/// Gauges are as they are now, whatever the earlier reading.
pub proof fn law_gauges_are_current(now: MetricsModel, then: MetricsModel)
    ensures
        change(now, then).nr_cohorts == now.nr_cohorts,
        change(now, then).nr_tasks == now.nr_tasks,
        change(now, then).nr_spilled == now.nr_spilled,
        change(now, then).llcs == now.llcs,
{
}

/// Every counter of `now` is at least that of `then`.
pub open spec fn grew(now: MetricsModel, then: MetricsModel) -> bool {
    &&& now.nr_sync_local >= then.nr_sync_local
    &&& now.nr_prev_idle >= then.nr_prev_idle
    &&& now.nr_idle_core >= then.nr_idle_core
    &&& now.nr_idle_smt >= then.nr_idle_smt
    &&& now.nr_home_miss_clamp >= then.nr_home_miss_clamp
    &&& now.nr_enq_home >= then.nr_enq_home
    &&& now.nr_enq_spill >= then.nr_enq_spill
    &&& now.nr_steals >= then.nr_steals
    &&& now.nr_tctx_errors >= then.nr_tctx_errors
    &&& now.nr_exec_severs >= then.nr_exec_severs
    &&& now.nr_migrations >= then.nr_migrations
    &&& now.nr_merges >= then.nr_merges
    &&& now.nr_splits >= then.nr_splits
}

/// Counters that only grew between two readings are off by exactly the change.
pub proof fn law_changes_add_up(now: MetricsModel, then: MetricsModel)
    requires
        grew(now, then),
    ensures
        ({
            let d = change(now, then);
            &&& then.nr_sync_local + d.nr_sync_local == now.nr_sync_local
            &&& then.nr_prev_idle + d.nr_prev_idle == now.nr_prev_idle
            &&& then.nr_idle_core + d.nr_idle_core == now.nr_idle_core
            &&& then.nr_idle_smt + d.nr_idle_smt == now.nr_idle_smt
            &&& then.nr_home_miss_clamp + d.nr_home_miss_clamp == now.nr_home_miss_clamp
            &&& then.nr_enq_home + d.nr_enq_home == now.nr_enq_home
            &&& then.nr_enq_spill + d.nr_enq_spill == now.nr_enq_spill
            &&& then.nr_steals + d.nr_steals == now.nr_steals
            &&& then.nr_tctx_errors + d.nr_tctx_errors == now.nr_tctx_errors
            &&& then.nr_exec_severs + d.nr_exec_severs == now.nr_exec_severs
            &&& then.nr_migrations + d.nr_migrations == now.nr_migrations
            &&& then.nr_merges + d.nr_merges == now.nr_merges
            &&& then.nr_splits + d.nr_splits == now.nr_splits
        }),
{
}

} // verus!
