//! What functions hand back, told from what they are given.
use vstd::prelude::*;

use crate::balancer::BalancerCfg;
use crate::bench::clamp_sample;
use crate::options::{AfterExit, Options};
use crate::procs::{CohortRow, ProcRow, ProcsSnapshot};
use crate::scheduler::{pinned_to, rehomed};
use crate::server::{procs_reply, procs_request, MetricsReader, StatsReq, StatsRes};
use crate::spill::SpillCfg;
use crate::stats::{affinity_pct, plan_hit_pct, Metrics, Pct};
use crate::top::{pin_mark, spill_mark};
use crate::tunables::CohortPolicy;
use crate::wake_graph::{
    edge_key, ekey, pack, rank_of, rate_bits, rate_rank, split_views, SplitPlan, WakeGraph, WakeGraphCfg,
};

verus! {

// ---- Marks and policies ----

/// A cohort that a rule pinned to its home bears a star, and no other does.
pub proof fn law_stars_mark_pins(pinned: u64, mark: char)
    requires
        call_ensures(pin_mark, (pinned,), mark),
    ensures
        pinned != 0 ==> mark == '*',
        pinned == 0 ==> mark == ' ',
{
}

/// Spilled threads are told by their number, and not told of where there are
/// none.
pub proof fn law_spilled_threads_are_told(spilled: u64, mark: Option<u64>)
    requires
        call_ensures(spill_mark, (spilled,), mark),
    ensures
        mark is Some <==> spilled > 0,
        mark is Some ==> mark->0 == spilled,
{
}

/// A cohort that a rule pins lives where the rule says, and moving a cohort
/// leaves what a rule said of it.
pub proof fn law_moves_keep_the_flags(
    llc: u32,
    pinned: CohortPolicy,
    policy: CohortPolicy,
    to: u32,
    moved: CohortPolicy,
)
    requires
        call_ensures(pinned_to, (llc,), pinned),
        call_ensures(rehomed, (policy, to), moved),
    ensures
        pinned.home_llc == llc,
        pinned.flags == 1,
        moved.home_llc == to,
        moved.flags == policy.flags,
{
}

// ---- Samples and rates ----

/// A sample is the round trip's time, or the most that a sample holds; longer
/// round trips never make smaller samples.
pub proof fn law_samples_are_clamped(a: u128, b: u128, x: u32, y: u32)
    requires
        call_ensures(clamp_sample, (a,), x),
        call_ensures(clamp_sample, (b,), y),
    ensures
        a <= 0xffff_ffff ==> x == a,
        a > 0xffff_ffff ==> x == 0xffff_ffff,
        a <= b ==> x <= y,
{
}

/// Ranks give back the rates that they stand for, and order as the rates do:
/// those without the sign bit by their bit patterns, above all those with it,
/// which go against theirs.
pub proof fn law_ranks_stand_for_rates(a: u64, b: u64, x: u64, y: u64, back: u64)
    requires
        call_ensures(rate_rank, (a,), x),
        call_ensures(rate_rank, (b,), y),
        call_ensures(rate_bits, (x,), back),
    ensures
        back == a,
        a < 0x8000_0000_0000_0000 && b < 0x8000_0000_0000_0000 ==> (x < y <==> a < b),
        a >= 0x8000_0000_0000_0000 && b >= 0x8000_0000_0000_0000 ==> (x < y <==> a > b),
        a >= 0x8000_0000_0000_0000 && b < 0x8000_0000_0000_0000 ==> x < y,
{
}

/// An edge has one key from either side, and no other pair shares it.
pub proof fn law_keys_tell_pairs_apart(
    a: u32,
    b: u32,
    c: u32,
    d: u32,
    ab: (u32, u32),
    cd: (u32, u32),
    x: u64,
    y: u64,
)
    requires
        call_ensures(ekey, (a, b), ab),
        call_ensures(ekey, (c, d), cd),
        call_ensures(pack, (ab,), x),
        call_ensures(pack, (cd,), y),
    ensures
        ab == (a, b) || ab == (b, a),
        ab.0 <= ab.1,
        x == y <==> (a == c && b == d) || (a == d && b == c),
        x == edge_key(a, b),
{
}

/// The rate of an edge is known exactly if the edge is held, and the same from
/// either side.
pub proof fn law_rates_are_those_of_the_edges(
    graph: WakeGraph,
    a: u32,
    b: u32,
    rate: Option<u64>,
    turned: Option<u64>,
)
    requires
        call_ensures(WakeGraph::edge_rate, (&graph, a, b), rate),
        call_ensures(WakeGraph::edge_rate, (&graph, b, a), turned),
    ensures
        rate == turned,
        rate is Some <==> graph@.edges.contains_key(edge_key(a, b)),
        rate is Some ==> rate->0 == graph@.edges[edge_key(a, b)].rate,
{
}

/// The two hit rates are over all placements. Steals are what plan hits lack;
/// spills are what affinity lacks beyond that, as long as what is left covers
/// them.
pub proof fn law_hit_rates_differ_by_the_spills(
    direct: u64,
    enq_home: u64,
    enq_spill: u64,
    steals: u64,
    home: Pct,
    plan: Pct,
)
    requires
        direct + enq_home + enq_spill <= u64::MAX,
        call_ensures(affinity_pct, (direct, enq_home, enq_spill, steals), home),
        call_ensures(plan_hit_pct, (direct, enq_home, enq_spill, steals), plan),
    ensures
        home.den == direct + enq_home + enq_spill,
        plan.den == home.den,
        steals <= plan.den ==> plan.num + steals == plan.den,
        steals > plan.den ==> plan.num == 0,
        steals <= direct + enq_home ==> home.num + enq_spill == plan.num,
        steals > direct + enq_home ==> home.num == 0,
{
}

// ---- Configurations ----

/// Of the balancer's configuration the options set the threshold and the
/// residency, and of the wake graph's the rate that merges. An edge connects at
/// 10 wakes per second and is noise below 1, told as the ranks of the doubles.
pub proof fn law_options_reach_the_planners(
    o: Options,
    balancer: BalancerCfg,
    graph: WakeGraphCfg,
)
    requires
        call_ensures(Options::balancer_cfg, (&o,), balancer),
        call_ensures(Options::wake_graph_cfg, (&o,), graph),
    ensures
        balancer.imbalance_pct == o.imbalance_pct,
        balancer.residency_ms == o.residency_ms,
        balancer.confirm_ticks == 2,
        balancer.max_moves_per_tick == 8,
        graph.merge_wakes_per_sec == o.merge_wakes_per_sec,
        graph.merge_confirm_ticks == 3,
        graph.split_confirm_ticks == 25,
        graph.split_min_tasks == 2,
        graph.split_min_wakes_per_sec == rank_of(0x4024_0000_0000_0000),
        graph.drop_wakes_per_sec == rank_of(0x3FF0_0000_0000_0000),
{
}

/// Without a configuration a cohort spills above 95% of its home and comes back
/// below 75%, members under a quarter of a tick are cold, and a tick is 200 ms.
pub proof fn law_spills_are_configured(cfg: SpillCfg)
    requires
        call_ensures(<SpillCfg as Default>::default, (), cfg),
    ensures
        cfg.high_pct == 95,
        cfg.low_pct == 75,
        cfg.cold_max_pct == 25,
        cfg.tick_ns == 200_000_000,
{
}

/// The daemon leaves unless the kernel asks for a restart, which it cannot do
/// itself once it has dropped its privileges.
pub proof fn law_restarts_take_privileges(o: Options, restart: bool, next: AfterExit)
    requires
        call_ensures(Options::after_exit, (&o, restart), next),
    ensures
        next == AfterExit::Leave <==> !restart,
        next == AfterExit::Fail <==> restart && o.drop_privs,
        next == AfterExit::Reload <==> restart && !o.drop_privs,
{
}

// ---- Replies ----

/// Each kind of reader asks for its kind of reply, and makes nothing of the
/// other.
pub proof fn law_readers_take_what_they_ask_for(
    metrics: StatsReq,
    procs: StatsReq,
    reply: StatsRes,
    reader: Option<MetricsReader>,
    view: Option<ProcsSnapshot>,
)
    requires
        call_ensures(MetricsReader::request, (), metrics),
        call_ensures(procs_request, (), procs),
        call_ensures(MetricsReader::open, (reply,), reader),
        call_ensures(procs_reply, (reply,), view),
    ensures
        metrics == StatsReq::Metrics,
        procs == StatsReq::Procs,
        reader is Some <==> reply is Metrics,
        view is Some <==> reply is Procs,
        reply matches StatsRes::Metrics(m) ==> reader->0@ == m@,
        reply matches StatsRes::Procs(s) ==> view->0 == s,
{
}

// ---- What rows and plans show ----

/// The metrics say what their fields hold.
pub proof fn law_metrics_say_what_they_hold(m: Metrics)
    ensures
        m@.nr_cohorts == m.nr_cohorts,
        m@.nr_tasks == m.nr_tasks,
        m@.affinity_hit_pct == m.affinity_hit_pct,
        m@.plan_hit_pct == m.plan_hit_pct,
        m@.nr_sync_local == m.nr_sync_local,
        m@.nr_prev_idle == m.nr_prev_idle,
        m@.nr_idle_core == m.nr_idle_core,
        m@.nr_idle_smt == m.nr_idle_smt,
        m@.nr_home_miss_clamp == m.nr_home_miss_clamp,
        m@.nr_enq_home == m.nr_enq_home,
        m@.nr_enq_spill == m.nr_enq_spill,
        m@.nr_steals == m.nr_steals,
        m@.nr_tctx_errors == m.nr_tctx_errors,
        m@.nr_exec_severs == m.nr_exec_severs,
        m@.nr_migrations == m.nr_migrations,
        m@.nr_merges == m.nr_merges,
        m@.nr_splits == m.nr_splits,
        m@.nr_spilled == m.nr_spilled,
        m@.llcs == m.llcs@,
{
}

/// The rows say what their fields hold, and the view shows every row.
pub proof fn law_rows_say_what_they_hold(p: ProcRow, c: CohortRow, s: ProcsSnapshot, key: u64)
    ensures
        p@.tgid == p.tgid,
        p@.comm == p.comm@,
        p@.threads == p.threads,
        p@.spilled == p.spilled,
        p@.util_pct == p.util_pct,
        p@.affinity_pct == p.affinity_pct,
        c@.home_llc == c.home_llc,
        c@.pinned == c.pinned,
        c@.tasks == c.tasks,
        c@.util_pct == c.util_pct,
        c@.affinity_pct == c.affinity_pct,
        c@.procs.contains_key(key) <==> c.procs@.contains_key(key),
        c.procs@.contains_key(key) ==> c@.procs[key] == c.procs@[key]@,
        s@.nr_tasks == s.nr_tasks,
        s@.affinity_pct == s.affinity_pct,
        s@.llc_util_pct == s.llc_util_pct@,
        s@.cohorts.contains_key(key) <==> s.cohorts@.contains_key(key),
        s.cohorts@.contains_key(key) ==> s@.cohorts[key] == s.cohorts@[key]@,
{
}

/// Split plans say what their fields hold, each in its place.
pub proof fn law_split_plans_say_what_they_hold(plans: Seq<SplitPlan>, k: int)
    ensures
        split_views(plans).len() == plans.len(),
        0 <= k < plans.len() ==> split_views(plans)[k].cohort == plans[k].cohort
            && split_views(plans)[k].off_tgids == plans[k].off_tgids@,
{
}

} // verus!
