//! Where the arithmetic of the planners fits in machine integers.
use vstd::prelude::*;

use crate::arith::total;
use crate::balancer::{plainly_fits, plan_fits, BalancerState};
use crate::domain::{CohortSnapshot, LlcLoad};
use crate::plan_laws::{extremes, lemma_extremes};
use crate::scheduler::{
    load_fits, loads_fit, loads_of, tick_cohorts, tick_fits, tick_plainly_fits, CohortEntry,
    SchedulerState,
};
use crate::wake_graph::{counts_fit, tasks_fit, Groups, WakeState};

verus! {

/// No two LLCs have the same id.
pub open spec fn own_ids(llcs: Seq<LlcLoad>) -> bool {
    forall|i: int, j: int|
        0 <= i < j < llcs.len() ==> (#[trigger] llcs[i]).llc != (#[trigger] llcs[j]).llc
}

/// The capacity times the threshold, twice the capacity, and the load of every
/// LLC fit.
pub open spec fn each_fits(b: BalancerState, llcs: Seq<LlcLoad>) -> bool {
    forall|i: int|
        0 <= i < llcs.len() ==> {
            &&& (#[trigger] llcs[i]).capacity_ns * b.cfg.imbalance_pct <= u64::MAX
            &&& 2 * llcs[i].capacity_ns <= i64::MAX
            &&& llcs[i].load_ns <= i64::MAX
        }
}

/// With fewer than two LLCs there is nothing to reckon. With more, a tick
/// plainly fits exactly if no two have the same id, the figures of each fit,
/// and one more tick can be counted.
pub proof fn law_a_tick_plainly_fits(b: BalancerState, llcs: Seq<LlcLoad>)
    ensures
        llcs.len() < 2 ==> plainly_fits(b, llcs),
        llcs.len() >= 2 ==> (plainly_fits(b, llcs) <==> own_ids(llcs) && each_fits(b, llcs)
            && b.streak < u32::MAX),
{
}

/// Of LLCs with ids of their own, a tick fits exactly if the figures of each
/// fit, and one more tick can be counted where it is over the threshold.
pub proof fn law_a_tick_fits(b: BalancerState, llcs: Seq<LlcLoad>, hi: int, lo: int)
    requires
        own_ids(llcs),
        llcs.len() >= 2 ==> extremes(llcs, hi, lo),
    ensures
        llcs.len() < 2 ==> plan_fits(b, llcs),
        llcs.len() >= 2 ==> (plan_fits(b, llcs) <==> each_fits(b, llcs) && (llcs[hi].load_ns
            - llcs[lo].load_ns > llcs[lo].capacity_ns * b.cfg.imbalance_pct / 100 ==> b.streak
            < u32::MAX)),
{
    if llcs.len() >= 2 {
        lemma_extremes(llcs, hi, lo);
    }
}

/// Loads and capacities fit exactly if, for every LLC, the load of the cohorts
/// homed there and the ticks of its CPUs do.
pub proof fn law_loads_fit(s: SchedulerState, cohorts: Seq<CohortSnapshot>)
    ensures
        loads_fit(s, cohorts) <==> forall|llc: u32| #[trigger]
            s.llc_cpus.contains_key(llc) ==> {
                &&& s.llc_cpus[llc] * s.tick_ns <= u64::MAX
                &&& total(
                    cohorts.len() as int,
                    |i: int|
                        if cohorts[i].home_llc == llc {
                            cohorts[i].load_ns as int
                        } else {
                            0
                        },
                ) <= u64::MAX
            },
{
    if loads_fit(s, cohorts) {
        assert forall|llc: u32| #[trigger] s.llc_cpus.contains_key(llc) implies {
            &&& s.llc_cpus[llc] * s.tick_ns <= u64::MAX
            &&& total(
                cohorts.len() as int,
                |i: int|
                    if cohorts[i].home_llc == llc {
                        cohorts[i].load_ns as int
                    } else {
                        0
                    },
            ) <= u64::MAX
        } by {
            assert(s.llc_cpus.dom().contains(llc));
        }
    } else {
        let llc = choose|llc: u32| #[trigger]
            s.llc_cpus.dom().contains(llc) && !load_fits(s, cohorts, llc);
        assert(s.llc_cpus.contains_key(llc));
    }
}

/// A daemon's tick fits exactly if the loads of the cohorts that it sees do,
/// and planning with them does.
pub proof fn law_a_whole_tick_fits(s: SchedulerState, entries: Seq<CohortEntry>)
    ensures
        ({
            let cohorts = tick_cohorts(s, entries);
            let llcs = loads_of(s, cohorts);
            &&& tick_fits(s, entries) <==> loads_fit(s, cohorts) && plan_fits(s.balancer, llcs)
            &&& tick_plainly_fits(s, entries) <==> loads_fit(s, cohorts) && plainly_fits(
                s.balancer,
                llcs,
            )
        }),
{
}

/// Merges can be counted exactly as long as no edge's count is at the most
/// that 32 bits hold.
pub proof fn law_counts_fit(w: WakeState)
    ensures
        counts_fit(w) <==> forall|key: u64| #[trigger]
            w.edges.contains_key(key) ==> w.edges[key].over_ticks < 0xffff_ffff,
{
}

/// Groups fit exactly if the tasks of each cohort's processes do together.
pub proof fn law_groups_fit(groups: Groups)
    ensures
        tasks_fit(groups) <==> forall|cohort: u64| #[trigger]
            groups.contains_key(cohort) ==> total(
                groups[cohort]@.len() as int,
                |i: int| groups[cohort]@[i].1 as int,
            ) <= u64::MAX,
{
    if tasks_fit(groups) {
        assert forall|cohort: u64| #[trigger] groups.contains_key(cohort) implies total(
            groups[cohort]@.len() as int,
            |i: int| groups[cohort]@[i].1 as int,
        ) <= u64::MAX by {
            assert(groups.dom().contains(cohort));
        }
    }
}

/// A wake graph is sound exactly if no cohort has been apart for as long as it
/// takes to split it.
pub proof fn law_streaks_are_short(w: WakeState)
    ensures
        w.wf() <==> forall|cohort: u64| #[trigger]
            w.split_streak.contains_key(cohort) ==> w.split_streak[cohort]
                < w.cfg.split_confirm_ticks,
{
}

} // verus!
