//! What the metrics say, told from the counters and the tick's snapshots.
use vstd::prelude::*;

use crate::arith::{lemma_total_ext, lemma_total_nonneg, total};
use crate::domain::{CohortSnapshot, LlcLoad};
use crate::stats::{
    affinity, change, homed, live_tasks, llc_metrics, metrics_fit, metrics_of,
    placements_since, plan_hits, DaemonCounts, MetricsModel,
};

verus! {

// ---- Hit rates ----

/// The affinity hit rate is over all placements; a steal takes one away from
/// those at home, as long as there are any.
pub proof fn law_affinity_is_what_stayed_home(
    direct: u64,
    enq_home: u64,
    enq_spill: u64,
    steals: u64,
)
    requires
        direct + enq_home + enq_spill <= u64::MAX,
    ensures
        ({
            let pct = affinity(direct as int, enq_home as int, enq_spill as int, steals as int);
            &&& pct.den == direct + enq_home + enq_spill
            &&& steals <= direct + enq_home ==> pct.num + steals == direct + enq_home
            &&& steals > direct + enq_home ==> pct.num == 0
        }),
{
}

/// The plan hit rate is over all placements, and steals are the only misses.
pub proof fn law_only_steals_miss_the_plan(
    direct: u64,
    enq_home: u64,
    enq_spill: u64,
    steals: u64,
)
    requires
        direct + enq_home + enq_spill <= u64::MAX,
    ensures
        ({
            let pct = plan_hits(direct as int, enq_home as int, enq_spill as int, steals as int);
            &&& pct.den == direct + enq_home + enq_spill
            &&& steals <= pct.den ==> pct.num + steals == pct.den
            &&& steals > pct.den ==> pct.num == 0
        }),
{
}

// ---- Metrics of a tick ----

/// Each counter is shown as it is, and so are the daemon's own counts; the
/// rates are over the placements among them.
pub proof fn law_counters_are_shown(
    c: Seq<u64>,
    cohorts: Seq<CohortSnapshot>,
    llcs: Seq<LlcLoad>,
    own: DaemonCounts,
)
    requires
        c.len() == 12,
        metrics_fit(c, cohorts),
        cohorts.len() <= u64::MAX,
    ensures
        ({
            let m = metrics_of(c, cohorts, llcs, own);
            let home = c[0] + c[1] + c[2] + c[3] + c[5];
            &&& m.nr_sync_local == c[0]
            &&& m.nr_prev_idle == c[1]
            &&& m.nr_idle_core == c[2]
            &&& m.nr_idle_smt == c[3]
            &&& m.nr_home_miss_clamp == c[4]
            &&& m.nr_enq_home == c[5]
            &&& m.nr_enq_spill == c[6]
            &&& m.nr_steals == c[7]
            &&& m.nr_tctx_errors == c[8]
            &&& m.nr_exec_severs == c[9]
            &&& m.nr_migrations == own.nr_migrations
            &&& m.nr_merges == own.nr_merges
            &&& m.nr_splits == own.nr_splits
            &&& m.nr_spilled == own.nr_spilled
            &&& m.nr_cohorts == cohorts.len()
            &&& m.affinity_hit_pct.den == home + c[6]
            &&& c[7] <= home ==> m.affinity_hit_pct.num + c[7] == home
            &&& c[7] > home ==> m.affinity_hit_pct.num == 0
            &&& m.plan_hit_pct.den == home + c[6]
            &&& c[7] <= home + c[6] ==> m.plan_hit_pct.num + c[7] == home + c[6]
            &&& c[7] > home + c[6] ==> m.plan_hit_pct.num == 0
        }),
{
}

/// One more cohort adds its tasks to the total.
pub proof fn law_a_cohort_adds_its_tasks(
    c: Seq<u64>,
    cohorts: Seq<CohortSnapshot>,
    more: CohortSnapshot,
    llcs: Seq<LlcLoad>,
    own: DaemonCounts,
)
    requires
        live_tasks(cohorts.push(more)) <= u64::MAX,
    ensures
        metrics_of(c, Seq::<CohortSnapshot>::empty(), llcs, own).nr_tasks == 0,
        metrics_of(c, cohorts.push(more), llcs, own).nr_tasks == metrics_of(
            c,
            cohorts,
            llcs,
            own,
        ).nr_tasks + more.nr_tasks,
{
    let all = cohorts.push(more);
    let n = cohorts.len() as int;
    let f = |i: int| cohorts[i].nr_tasks as int;
    let g = |i: int| all[i].nr_tasks as int;
    assert forall|i: int| 0 <= i < n implies #[trigger] f(i) == g(i) by {
        assert(all[i] == cohorts[i]);
    }
    lemma_total_ext(n, f, g);
    lemma_total_nonneg(n, f);
    assert(total(n + 1, g) == total(n, g) + g(n));
}

proof fn lemma_llc_shown(cohorts: Seq<CohortSnapshot>, llcs: Seq<LlcLoad>, n: int, i: int)
    requires
        0 <= i < n <= llcs.len(),
        forall|j: int| i < j < n ==> (#[trigger] llcs[j]).llc != llcs[i].llc,
    ensures
        ({
            let m = llc_metrics(cohorts, llcs, n);
            &&& m.contains_key(llcs[i].llc as u64)
            &&& m[llcs[i].llc as u64].util.num == llcs[i].load_ns
            &&& llcs[i].capacity_ns > 0 ==> m[llcs[i].llc as u64].util.den == llcs[i].capacity_ns
            &&& llcs[i].capacity_ns == 0 ==> m[llcs[i].llc as u64].util.den == 1
            &&& m[llcs[i].llc as u64].nr_cohorts == homed(cohorts, llcs[i].llc) as u64
        }),
    decreases n,
{
    if i < n - 1 {
        lemma_llc_shown(cohorts, llcs, n - 1, i);
        assert(llcs[n - 1].llc != llcs[i].llc);
    }
}

proof fn lemma_llc_not_shown(cohorts: Seq<CohortSnapshot>, llcs: Seq<LlcLoad>, n: int, key: u64)
    requires
        0 <= n <= llcs.len(),
        forall|j: int| 0 <= j < n ==> (#[trigger] llcs[j]).llc != key,
    ensures
        !llc_metrics(cohorts, llcs, n).contains_key(key),
    decreases n,
{
    if n > 0 {
        lemma_llc_not_shown(cohorts, llcs, n - 1, key);
        assert(llcs[n - 1].llc != key);
    }
}

/// Each LLC is shown with its load of its capacity, or of one where it has
/// none, and with how many cohorts are homed on it.
pub proof fn law_llcs_are_shown(
    c: Seq<u64>,
    cohorts: Seq<CohortSnapshot>,
    llcs: Seq<LlcLoad>,
    own: DaemonCounts,
    i: int,
)
    requires
        cohorts.len() <= u64::MAX,
        0 <= i < llcs.len(),
        forall|j: int| i < j < llcs.len() ==> (#[trigger] llcs[j]).llc != llcs[i].llc,
    ensures
        ({
            let m = metrics_of(c, cohorts, llcs, own).llcs;
            let shown = m[llcs[i].llc as u64];
            &&& m.contains_key(llcs[i].llc as u64)
            &&& shown.util.num == llcs[i].load_ns
            &&& llcs[i].capacity_ns > 0 ==> shown.util.den == llcs[i].capacity_ns
            &&& llcs[i].capacity_ns == 0 ==> shown.util.den == 1
            &&& shown.nr_cohorts == total(
                cohorts.len() as int,
                |k: int|
                    if cohorts[k].home_llc == llcs[i].llc {
                        1int
                    } else {
                        0
                    },
            )
        }),
{
    let llc = llcs[i].llc;
    lemma_llc_shown(cohorts, llcs, llcs.len() as int, i);
    let n = cohorts.len() as int;
    let f = |k: int|
        if cohorts[k].home_llc == llc {
            1int
        } else {
            0
        };
    let g = |k: int|
        if cohorts[k].home_llc == llcs[i].llc {
            1int
        } else {
            0
        };
    lemma_total_ext(n, f, g);
    lemma_total_nonneg(n, f);
    lemma_at_most(n, f);
}

proof fn lemma_at_most(n: int, f: spec_fn(int) -> int)
    requires
        n >= 0,
        forall|i: int| 0 <= i < n ==> #[trigger] f(i) <= 1,
    ensures
        total(n, f) <= n,
    decreases n,
{
    if n > 0 {
        lemma_at_most(n - 1, f);
        assert(f(n - 1) <= 1);
    }
}

/// No other LLC is shown.
pub proof fn law_only_known_llcs_are_shown(
    c: Seq<u64>,
    cohorts: Seq<CohortSnapshot>,
    llcs: Seq<LlcLoad>,
    own: DaemonCounts,
    key: u64,
)
    requires
        forall|j: int| 0 <= j < llcs.len() ==> (#[trigger] llcs[j]).llc != key,
    ensures
        !metrics_of(c, cohorts, llcs, own).llcs.contains_key(key),
{
    lemma_llc_not_shown(cohorts, llcs, llcs.len() as int, key);
}

// ---- Differences ----

/// How far a counter came, or nothing where it fell back.
pub open spec fn came(now: u64, then: u64, by: u64) -> bool {
    if now >= then {
        then + by == now
    } else {
        by == 0
    }
}

/// A change says of each counter how far it came since the earlier reading,
/// and nothing of one that fell back.
pub proof fn law_changes_are_clamped_differences(now: MetricsModel, then: MetricsModel)
    ensures
        ({
            let d = change(now, then);
            &&& came(now.nr_sync_local, then.nr_sync_local, d.nr_sync_local)
            &&& came(now.nr_prev_idle, then.nr_prev_idle, d.nr_prev_idle)
            &&& came(now.nr_idle_core, then.nr_idle_core, d.nr_idle_core)
            &&& came(now.nr_idle_smt, then.nr_idle_smt, d.nr_idle_smt)
            &&& came(now.nr_home_miss_clamp, then.nr_home_miss_clamp, d.nr_home_miss_clamp)
            &&& came(now.nr_enq_home, then.nr_enq_home, d.nr_enq_home)
            &&& came(now.nr_enq_spill, then.nr_enq_spill, d.nr_enq_spill)
            &&& came(now.nr_steals, then.nr_steals, d.nr_steals)
            &&& came(now.nr_tctx_errors, then.nr_tctx_errors, d.nr_tctx_errors)
            &&& came(now.nr_exec_severs, then.nr_exec_severs, d.nr_exec_severs)
            &&& came(now.nr_migrations, then.nr_migrations, d.nr_migrations)
            &&& came(now.nr_merges, then.nr_merges, d.nr_merges)
            &&& came(now.nr_splits, then.nr_splits, d.nr_splits)
        }),
{
}

/// The rates of a change are those of the counters that it says itself: they
/// are over the placements of the interval, with the interval's steals for
/// misses.
pub proof fn law_rates_go_with_the_change(now: MetricsModel, then: MetricsModel)
    requires
        placements_since(now, then) <= u64::MAX,
    ensures
        ({
            let d = change(now, then);
            let home = d.nr_sync_local + d.nr_prev_idle + d.nr_idle_core + d.nr_idle_smt
                + d.nr_enq_home;
            &&& placements_since(now, then) == home + d.nr_enq_spill
            &&& d.affinity_hit_pct.den == home + d.nr_enq_spill
            &&& d.nr_steals <= home ==> d.affinity_hit_pct.num + d.nr_steals == home
            &&& d.nr_steals > home ==> d.affinity_hit_pct.num == 0
            &&& d.plan_hit_pct.den == home + d.nr_enq_spill
            &&& d.nr_steals <= home + d.nr_enq_spill ==> d.plan_hit_pct.num + d.nr_steals == home
                + d.nr_enq_spill
            &&& d.nr_steals > home + d.nr_enq_spill ==> d.plan_hit_pct.num == 0
        }),
{
}

/// The metrics of a tick fit where the placements and the cohorts' tasks do.
pub proof fn law_metrics_fit_where_the_sums_do(c: Seq<u64>, cohorts: Seq<CohortSnapshot>)
    requires
        c.len() == 12,
    ensures
        metrics_fit(c, cohorts) <==> {
            &&& c[0] + c[1] + c[2] + c[3] + c[5] + c[6] <= u64::MAX
            &&& total(cohorts.len() as int, |i: int| cohorts[i].nr_tasks as int) <= u64::MAX
        },
{
}

} // verus!
