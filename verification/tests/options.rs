use scx_cohort::config::OptionsTable;
use scx_cohort::options::{AfterExit, Options};
use scx_cohort::wake_graph::RANK_300;

#[test]
fn built_in_defaults() {
    let o = Options::resolve(&OptionsTable::default(), &OptionsTable::default());
    assert_eq!(o, Options::default());
    assert_eq!(o.slice_us, 5000);
    assert_eq!(o.interval_ms, 200);
    assert_eq!(o.steal_min, 2);
    assert_eq!(o.steal_delay_us, 500);
    assert_eq!(o.preempt_min_us, 20);
    assert_eq!(o.imbalance_pct, 20);
    assert_eq!(o.residency_ms, 2000);
    assert_eq!(o.merge_wakes_per_sec, RANK_300);
    assert_eq!(o.rt_priority, 10);
    assert!(!o.drop_privs);
}

#[test]
fn flags_beat_the_file_and_the_file_beats_defaults() {
    let file = OptionsTable {
        slice_us: Some(3000),
        rt_priority: Some(0),
        drop_privs: Some(true),
        ..OptionsTable::default()
    };
    let flags = OptionsTable {
        slice_us: Some(1000),
        residency_ms: Some(7),
        drop_privs: Some(false),
        ..OptionsTable::default()
    };
    let o = Options::resolve(&file, &flags);
    assert_eq!(o.slice_us, 1000);
    assert_eq!(o.rt_priority, 0);
    assert_eq!(o.residency_ms, 7);
    assert!(!o.drop_privs);
    assert_eq!(o.interval_ms, 200);
}

#[test]
fn tunables_follow_the_options() {
    let o = Options {
        slice_us: 750,
        steal_min: 5,
        steal_delay_us: 40,
        preempt_min_us: 9,
        ..Options::default()
    };
    let t = o.tunables();
    assert_eq!(t.steal_min, 5);
    assert_eq!(t.steal_delay_ns, 40_000);
    assert_eq!(t.preempt_min_ns, 9_000);
    assert_eq!(t.credit_runtime_max_ns, 375_000);
    assert_eq!(t.credit_max_ns, 600_000);
    assert_eq!(t.credit_wake_freq_min, 50);
    assert_eq!(t.sample_shift, 3);
}

#[test]
fn planners_follow_the_options() {
    let o = Options {
        imbalance_pct: 33,
        residency_ms: 44,
        merge_wakes_per_sec: 55,
        ..Options::default()
    };
    let b = o.balancer_cfg();
    assert_eq!(
        (b.imbalance_pct, b.confirm_ticks, b.residency_ms, b.max_moves_per_tick),
        (33, 2, 44, 8)
    );
    let w = o.wake_graph_cfg();
    assert_eq!((w.merge_wakes_per_sec, w.merge_confirm_ticks), (55, 3));
    assert_eq!((w.split_confirm_ticks, w.split_min_tasks), (25, 2));
}

#[test]
fn an_ejection_reloads_unless_privileges_are_gone() {
    let mut o = Options::default();
    assert_eq!(o.after_exit(false), AfterExit::Leave);
    assert_eq!(o.after_exit(true), AfterExit::Reload);
    o.drop_privs = true;
    assert_eq!(o.after_exit(false), AfterExit::Leave);
    assert_eq!(o.after_exit(true), AfterExit::Fail);
}
