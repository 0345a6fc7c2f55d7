use std::collections::{BTreeMap, HashMap};

use scx_cohort::domain::{CohortSnapshot, LlcLoad, TaskSnapshot};
use scx_cohort::procs::procs_snapshot;
use scx_cohort::server::{procs_reply, procs_request, MetricsReader, StatsReq, StatsRes};
use scx_cohort::stats::{
    affinity_pct, get_metrics, plan_hit_pct, DaemonCounts, LlcMetrics, Metrics, Pct,
};

fn pct(p: Pct) -> f64 {
    if p.den > 0 {
        p.num as f64 * 100.0 / p.den as f64
    } else {
        100.0
    }
}

#[test]
fn plan_hits_count_spills_where_affinity_does_not() {
    // 40 direct + 40 home enqueues, 40 spill enqueues (an oversized
    // cohort running a third of its placements remotely by plan),
    // 12 steals.
    let (direct, home, spill, steals) = (40, 40, 40, 12);
    // Affinity charges the spilled share against the cohort even
    // though it is deliberate: (40+40-12)/120.
    assert!((pct(affinity_pct(direct, home, spill, steals)) - 56.666).abs() < 0.01);
    // Plan adherence treats only steals as misses: (120-12)/120.
    assert!((pct(plan_hit_pct(direct, home, spill, steals)) - 90.0).abs() < 0.01);
    // With no spills the two metrics agree.
    assert_eq!(
        affinity_pct(direct, home, 0, steals),
        plan_hit_pct(direct, home, 0, steals)
    );
    assert_eq!(pct(plan_hit_pct(0, 0, 0, 0)), 100.0);
}

#[test]
fn procs_snapshot_aggregates_threads_and_affinity() {
    let tick_ns = 200_000_000u64;
    let cohorts = [CohortSnapshot {
        id: 7,
        home_llc: 1,
        pinned: true,
        nr_tasks: 3,
        load_ns: tick_ns,
        residency_ms: None,
    }];
    // Two threads of tgid 100 (one fully home, one half home) and one
    // of tgid 200, fully away.
    let t = |pid, tgid, duty, home, comm: &str| TaskSnapshot {
        pid,
        tgid,
        cohort_id: 7,
        duty_ns: duty,
        duty_known: true,
        home_ns: home,
        comm: comm.into(),
    };
    let tasks = [
        t(101, 100, tick_ns / 2, tick_ns / 2, "game"),
        t(102, 100, tick_ns / 2, tick_ns / 4, "game"),
        t(201, 200, tick_ns / 4, 0, "helper"),
    ];
    let llcs = [
        LlcLoad {
            llc: 0,
            load_ns: 0,
            capacity_ns: tick_ns * 8,
        },
        LlcLoad {
            llc: 1,
            load_ns: tick_ns,
            capacity_ns: tick_ns * 8,
        },
    ];
    let spills: HashMap<u32, u32> = [(201, 0)].into();

    let s = procs_snapshot(&cohorts, &tasks, &llcs, &spills, tick_ns);
    assert_eq!(s.nr_tasks, 3);
    let c = &s.cohorts[&7];
    assert_eq!(c.home_llc, 1);
    assert_eq!(c.pinned, 1);
    assert_eq!(c.tasks, 3);
    // Cohort: 1.25 CPUs of demand, so 125%.
    assert!((pct(c.util_pct) - 125.0).abs() < 0.1);
    // Cohort affinity: (0.5 + 0.25 + 0) / 1.25 = 60%.
    assert!((pct(c.affinity_pct) - 60.0).abs() < 0.1);

    let game = &c.procs[&100];
    assert_eq!(game.threads, 2);
    assert_eq!(game.spilled, 0);
    assert!((pct(game.util_pct) - 100.0).abs() < 0.1);
    assert!((pct(game.affinity_pct) - 75.0).abs() < 0.1);

    let helper = &c.procs[&200];
    assert_eq!(helper.spilled, 1);
    assert!((pct(helper.affinity_pct) - 0.0).abs() < 0.1);
    // LLC 1 runs 1 tick of work on 8 CPUs, so 12.5%.
    assert!((pct(s.llc_util_pct[&1]) - 12.5).abs() < 0.1);
}

#[test]
fn procs_view_keeps_names_and_outsiders_apart() {
    let task = |pid, tgid, cohort_id, duty, home, comm: &str| TaskSnapshot {
        pid,
        tgid,
        cohort_id,
        duty_ns: duty,
        duty_known: true,
        home_ns: home,
        comm: comm.into(),
    };
    let cohort = |id| CohortSnapshot {
        id,
        home_llc: 0,
        pinned: false,
        nr_tasks: 1,
        load_ns: 0,
        residency_ms: None,
    };
    // tgid 5 has threads in two cohorts; its first thread there names it.
    let tasks = [
        task(50, 5, 1, 10, 20, "main"),
        task(51, 5, 1, 0, 0, "worker"),
        task(52, 5, 2, 0, 0, "other"),
        task(99, 9, 3, 70, 7, "unlisted"),
    ];
    let s = procs_snapshot(&[cohort(1), cohort(2)], &tasks, &[], &HashMap::new(), 0);
    assert_eq!(s.nr_tasks, 4);
    assert_eq!(s.affinity_pct, Pct { num: 27, den: 80 });
    assert!(s.llc_util_pct.is_empty());
    assert_eq!(s.cohorts.len(), 2);
    assert_eq!(s.cohorts[&1].procs[&5].comm, "main");
    assert_eq!(s.cohorts[&1].procs[&5].threads, 2);
    // Home time beyond the duty reads as all of it; a tick of 0 ns as 1.
    assert_eq!(s.cohorts[&1].procs[&5].affinity_pct, Pct { num: 10, den: 10 });
    assert_eq!(s.cohorts[&1].procs[&5].util_pct, Pct { num: 10, den: 1 });
    assert_eq!(s.cohorts[&1].affinity_pct, Pct { num: 20, den: 10 });
    assert_eq!(s.cohorts[&2].procs[&5].comm, "other");
    // Idle: nothing ran anywhere, so all of it ran at home.
    assert_eq!(pct(s.cohorts[&2].affinity_pct), 100.0);
}

fn counters() -> Vec<u64> {
    // sync, prev, core, smt, clamp, home, spill, steal, err, sever, preempt, skip
    vec![10, 20, 5, 5, 3, 40, 40, 12, 1, 2, 77, 88]
}

fn own() -> DaemonCounts {
    DaemonCounts {
        nr_migrations: 4,
        nr_merges: 3,
        nr_splits: 2,
        nr_spilled: 6,
    }
}

fn reading(counters: &[u64], own: DaemonCounts) -> Metrics {
    let cohort = |id, home_llc, nr_tasks| CohortSnapshot {
        id,
        home_llc,
        pinned: false,
        nr_tasks,
        load_ns: 0,
        residency_ms: None,
    };
    let llc = |llc, load_ns, capacity_ns| LlcLoad {
        llc,
        load_ns,
        capacity_ns,
    };
    get_metrics(
        counters,
        &[cohort(1, 0, 5), cohort(2, 1, 7), cohort(3, 1, 1)],
        &[llc(0, 9, 10), llc(1, 3, 0)],
        own,
    )
}

#[test]
fn metrics_sum_up_the_counters() {
    let m = reading(&counters(), own());
    assert_eq!(m.nr_cohorts, 3);
    assert_eq!(m.nr_tasks, 13);
    assert_eq!(m.affinity_hit_pct, Pct { num: 68, den: 120 });
    assert_eq!(m.plan_hit_pct, Pct { num: 108, den: 120 });
    assert_eq!(m.nr_sync_local, 10);
    assert_eq!(m.nr_prev_idle, 20);
    assert_eq!(m.nr_idle_core, 5);
    assert_eq!(m.nr_idle_smt, 5);
    assert_eq!(m.nr_home_miss_clamp, 3);
    assert_eq!(m.nr_enq_home, 40);
    assert_eq!(m.nr_enq_spill, 40);
    assert_eq!(m.nr_steals, 12);
    assert_eq!(m.nr_tctx_errors, 1);
    assert_eq!(m.nr_exec_severs, 2);
    assert_eq!(m.nr_migrations, 4);
    assert_eq!(m.nr_merges, 3);
    assert_eq!(m.nr_splits, 2);
    assert_eq!(m.nr_spilled, 6);
    let expected: BTreeMap<u64, LlcMetrics> = [
        (
            0,
            LlcMetrics {
                util: Pct { num: 9, den: 10 },
                nr_cohorts: 1,
            },
        ),
        (
            1,
            LlcMetrics {
                util: Pct { num: 3, den: 1 },
                nr_cohorts: 2,
            },
        ),
    ]
    .into();
    assert_eq!(m.llcs, expected);
}

#[test]
fn deltas_are_over_the_interval() {
    let then = reading(&counters(), own());
    let mut c = counters();
    c[5] += 8; // home enqueues
    c[7] += 2; // steals
    c[0] = 0; // a failed read
    let now = reading(
        &c,
        DaemonCounts {
            nr_migrations: 9,
            nr_spilled: 1,
            ..own()
        },
    );
    let d = now.delta(&then);
    assert_eq!(d.nr_enq_home, 8);
    assert_eq!(d.nr_steals, 2);
    assert_eq!(d.nr_sync_local, 0);
    assert_eq!(d.nr_migrations, 5);
    assert_eq!(d.nr_merges, 0);
    assert_eq!(d.affinity_hit_pct, Pct { num: 6, den: 8 });
    assert_eq!(d.plan_hit_pct, Pct { num: 6, den: 8 });
    // Gauges are current.
    assert_eq!(d.nr_spilled, 1);
    assert_eq!(d.nr_tasks, 13);
    assert_eq!(d.llcs, now.llcs);
}

#[test]
fn a_quiet_interval_reads_as_full_affinity() {
    let m = reading(&counters(), own());
    let d = m.delta(&m);
    assert_eq!(d.affinity_hit_pct, Pct { num: 0, den: 0 });
    assert_eq!(pct(d.plan_hit_pct), 100.0);
    assert_eq!(d.nr_steals, 0);
}

#[test]
fn more_steals_than_home_placements_clamp() {
    assert_eq!(affinity_pct(1, 1, 5, 9), Pct { num: 0, den: 7 });
    assert_eq!(plan_hit_pct(1, 1, 5, 9), Pct { num: 0, den: 7 });
}

#[test]
fn readers_report_what_happened_since_they_last_read() {
    assert_eq!(MetricsReader::request(), StatsReq::Metrics);
    assert_eq!(procs_request(), StatsReq::Procs);
    let procs = || procs_snapshot(&[], &[], &[], &HashMap::new(), 1);
    assert!(MetricsReader::open(StatsRes::Procs(procs())).is_none());
    let mut r = MetricsReader::open(StatsRes::Metrics(reading(&counters(), own()))).unwrap();
    let mut c = counters();
    c[6] += 10;
    let d = r.read(StatsRes::Metrics(reading(&c, own()))).unwrap();
    assert_eq!(d.nr_enq_spill, 10);
    // A reply of another kind leaves the last reading in place.
    assert!(r.read(StatsRes::Procs(procs())).is_none());
    c[6] += 1;
    let d = r.read(StatsRes::Metrics(reading(&c, own()))).unwrap();
    assert_eq!(d.nr_enq_spill, 1);
    assert_eq!(procs_reply(StatsRes::Procs(procs())).unwrap().nr_tasks, 0);
    assert!(procs_reply(StatsRes::Metrics(reading(&c, own()))).is_none());
}

#[test]
fn long_uptimes_do_not_limit_the_interval() {
    let mut then = reading(&counters(), own());
    then.nr_enq_home = u64::MAX - 30;
    then.nr_enq_spill = u64::MAX - 10;
    let mut now = reading(&counters(), own());
    now.nr_enq_home = u64::MAX;
    now.nr_enq_spill = u64::MAX;
    assert!(now.delta_fits(&then));
    let d = now.delta(&then);
    assert_eq!((d.nr_enq_home, d.nr_enq_spill), (30, 10));
    assert_eq!(d.affinity_hit_pct, Pct { num: 30, den: 40 });

    let mut r = MetricsReader::open(StatsRes::Metrics(then)).unwrap();
    let mut wild = reading(&counters(), own());
    wild.nr_enq_home = u64::MAX;
    wild.nr_prev_idle = u64::MAX;
    assert!(!r.has_room(&StatsRes::Metrics(wild)));
    assert!(r.has_room(&StatsRes::Procs(procs_snapshot(&[], &[], &[], &HashMap::new(), 1))));
    let reply = StatsRes::Metrics(now);
    assert!(r.has_room(&reply));
    let d = r.read(reply).unwrap();
    assert_eq!((d.nr_enq_home, d.nr_enq_spill), (30, 10));
}
