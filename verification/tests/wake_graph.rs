use std::collections::HashMap;

use scx_cohort::wake_graph::{
    deltas_fit, ekey, rate_bits, rate_rank, EdgeRate, MergePlan, SplitPlan, WakeGraph,
    WakeGraphCfg, RANK_0, RANK_1, RANK_10, RANK_300,
};

const DT: f64 = 0.2;

fn cfg() -> WakeGraphCfg {
    WakeGraphCfg {
        merge_wakes_per_sec: rank(300.0),
        merge_confirm_ticks: 3,
        split_min_wakes_per_sec: rank(10.0),
        drop_wakes_per_sec: rank(10.0 / 10.0),
        split_confirm_ticks: 5,
        split_min_tasks: 2,
    }
}

/// Time constant of the averages, in seconds.
const RATE_TAU_S: f64 = 0.5;

fn rank(rate: f64) -> u64 {
    rate_rank(rate.to_bits())
}

fn rate(rank: u64) -> f64 {
    f64::from_bits(rate_bits(rank))
}

fn observe(g: &mut WakeGraph, deltas: &[(u32, u32, u64)], dt_s: f64, sample_mult: u64) {
    let alpha = dt_s / (dt_s + RATE_TAU_S);
    g.observe(deltas, rank(dt_s), sample_mult, |known: Option<u64>, count: u64| {
        let inst = count as f64 / dt_s;
        let average = match known {
            Some(r) => rate(r) + alpha * (inst - rate(r)),
            None => alpha * inst,
        };
        EdgeRate {
            rate: rank(average),
            inst: rank(inst),
        }
    });
}

/// 500 wakes/tick at DT=0.2 → 2500/s instantaneous, converging well
/// above the 300/s merge threshold within a few ticks.
const HOT: u64 = 500;

#[test]
fn sustained_rate_merges_into_bigger_cohort() {
    let mut g = WakeGraph::new(cfg());
    let mapping: HashMap<u32, u64> = [(100, 1), (200, 2)].into();
    let sizes: HashMap<u64, u64> = [(1, 24), (2, 2)].into();

    let mut merges = vec![];
    for _ in 0..10 {
        observe(&mut g, &[(100, 200, HOT)], DT, 1);
        merges = g.merges(&mapping, &sizes);
        if !merges.is_empty() {
            break;
        }
    }
    // pipewire (cohort 2, small) joins the game (cohort 1, big).
    assert_eq!(merges, vec![MergePlan { into: 1, from: 2 }]);
}

#[test]
fn burst_does_not_merge() {
    let mut g = WakeGraph::new(cfg());
    let mapping: HashMap<u32, u64> = [(100, 1), (200, 2)].into();
    let sizes: HashMap<u64, u64> = [(1, 4), (2, 4)].into();

    // Two hot ticks (below merge_confirm_ticks), then silence.
    for _ in 0..2 {
        observe(&mut g, &[(100, 200, HOT)], DT, 1);
        assert!(g.merges(&mapping, &sizes).is_empty());
    }
    for _ in 0..20 {
        observe(&mut g, &[], DT, 1);
        assert!(g.merges(&mapping, &sizes).is_empty());
    }
}

#[test]
fn rates_decay_when_traffic_stops() {
    let mut g = WakeGraph::new(cfg());
    for _ in 0..10 {
        observe(&mut g, &[(100, 200, HOT)], DT, 1);
    }
    let hot_rate = rate(g.edge_rate(100, 200).unwrap());
    assert!(hot_rate > 300.0);
    for _ in 0..30 {
        observe(&mut g, &[], DT, 1);
    }
    // Decayed to noise and dropped, or at least far below threshold.
    let cold = g.edge_rate(100, 200).map(rate).unwrap_or(0.0);
    assert!(cold < 10.0, "rate failed to decay: {cold}");
}

#[test]
fn sample_compensation_applies() {
    let mut g = WakeGraph::new(cfg());
    let mapping: HashMap<u32, u64> = [(100, 1), (200, 2)].into();
    let sizes: HashMap<u64, u64> = [(1, 4), (2, 2)].into();

    // 63 sampled wakes/tick at 8x sampling = ~2500/s effective.
    let mut merged = false;
    for _ in 0..10 {
        observe(&mut g, &[(100, 200, HOT / 8)], DT, 8);
        merged |= !g.merges(&mapping, &sizes).is_empty();
    }
    assert!(merged);
}

#[test]
fn disconnected_components_split_after_confirm() {
    let mut g = WakeGraph::new(cfg());
    // Cohort 1: tgids {10, 11} chat; {20, 21} chat; no cross edges.
    let members: HashMap<u64, Vec<(u32, u64)>> =
        [(1u64, vec![(10, 8), (11, 4), (20, 3), (21, 2)])].into();

    let mut splits = vec![];
    for _ in 0..cfg().split_confirm_ticks + 2 {
        observe(&mut g, &[(10, 11, HOT), (20, 21, HOT)], DT, 1);
        splits = g.splits(&members);
        if !splits.is_empty() {
            break;
        }
    }
    assert_eq!(splits.len(), 1);
    let split = &splits[0];
    assert_eq!(split.cohort, 1);
    // The smaller component {20, 21} splits off.
    let mut off = split.off_tgids.clone();
    off.sort();
    assert_eq!(off, vec![20, 21]);
}

#[test]
fn connected_cohort_never_splits() {
    let mut g = WakeGraph::new(cfg());
    // A bridge edge keeps everything one component.
    let members: HashMap<u64, Vec<(u32, u64)>> =
        [(1u64, vec![(10, 8), (11, 4), (20, 3)])].into();
    for _ in 0..30 {
        observe(&mut g, &[(10, 11, HOT), (11, 20, HOT)], DT, 1);
        assert!(g.splits(&members).is_empty());
    }
}

#[test]
fn momentary_disconnect_does_not_split() {
    let mut g = WakeGraph::new(cfg());
    let members: HashMap<u64, Vec<(u32, u64)>> = [(1u64, vec![(10, 8), (20, 4)])].into();

    // Disconnected for a few ticks (below confirm), then the bridge
    // returns: the streak must reset.
    for _ in 0..cfg().split_confirm_ticks - 1 {
        observe(&mut g, &[], DT, 1);
        assert!(g.splits(&members).is_empty());
    }
    for _ in 0..3 {
        observe(&mut g, &[(10, 20, HOT)], DT, 1);
        assert!(g.splits(&members).is_empty());
    }
    for _ in 0..cfg().split_confirm_ticks - 1 {
        observe(&mut g, &[], DT, 1);
        assert!(g.splits(&members).is_empty());
    }
}

#[test]
fn footprint_floor_blocks_tiny_splits() {
    let mut g = WakeGraph::new(cfg());
    // The disconnected component has only 1 task: below the floor.
    let members: HashMap<u64, Vec<(u32, u64)>> =
        [(1u64, vec![(10, 8), (11, 4), (20, 1)])].into();
    for _ in 0..cfg().split_confirm_ticks + 5 {
        observe(&mut g, &[(10, 11, HOT)], DT, 1);
        assert!(g.splits(&members).is_empty());
    }
}

// ---- ranks ----

#[test]
fn ranks_order_as_rates_do() {
    let rates = [-2.5, -1.0, 0.0, 1e-300, 0.5, 1.0, 10.0, 300.0, 1e12];
    for pair in rates.windows(2) {
        assert!(rank(pair[0]) < rank(pair[1]));
    }
    for r in rates {
        assert_eq!(rate(rank(r)), r);
    }
    assert_eq!(RANK_300, rank(300.0));
    assert_eq!(RANK_10, rank(10.0));
    assert_eq!(RANK_1, rank(1.0));
    assert_eq!(rate_bits(0), u64::MAX);
    assert_eq!(rate_rank(u64::MAX), 0);
}

#[test]
fn default_thresholds() {
    let d = WakeGraphCfg::default();
    assert_eq!(rate(d.merge_wakes_per_sec), 300.0);
    assert_eq!(rate(d.split_min_wakes_per_sec), 10.0);
    assert_eq!(rate(d.drop_wakes_per_sec), 1.0);
    assert_eq!(d.merge_confirm_ticks, 3);
    assert_eq!(d.split_confirm_ticks, 25);
    assert_eq!(d.split_min_tasks, 2);
}

// ---- observing ----

#[test]
fn edges_are_undirected() {
    assert_eq!(ekey(1, 2), (1, 2));
    assert_eq!(ekey(2, 1), (1, 2));
    assert_eq!(ekey(u32::MAX, 0), (0, u32::MAX));
    let mut g = WakeGraph::new(cfg());
    // Both directions of one tick add up before the average sees them.
    observe(&mut g, &[(100, 200, 30), (200, 100, 20)], DT, 2);
    let alpha = DT / (DT + RATE_TAU_S);
    let inst = 100.0 / DT;
    assert_eq!(rate(g.edge_rate(200, 100).unwrap()), alpha * inst);
    assert_eq!(g.edge_rate(100, 201), None);
}

#[test]
fn noise_is_dropped_at_once() {
    let mut g = WakeGraph::new(cfg());
    // One wake in a tick of a second: alpha * 1 < 1 wake per second.
    observe(&mut g, &[(1, 2, 1)], 1.0, 1);
    assert_eq!(g.edge_rate(1, 2), None);
    observe(&mut g, &[(1, 2, 2)], 1.0, 1);
    assert!(g.edge_rate(1, 2).is_some());
}

// ---- merging ----

#[test]
fn a_merge_takes_exactly_the_confirmation_ticks() {
    let mut g = WakeGraph::new(cfg());
    let mapping: HashMap<u32, u64> = [(100, 1), (200, 2)].into();
    let sizes: HashMap<u64, u64> = HashMap::new();
    let mut merged_at = Vec::new();
    for tick in 1..=6 {
        observe(&mut g, &[(100, 200, 5000)], DT, 1);
        assert!(g.counts_have_room());
        let merges = g.merges(&mapping, &sizes);
        if !merges.is_empty() {
            // Of equally big cohorts the first end's absorbs the other.
            assert_eq!(merges, vec![MergePlan { into: 1, from: 2 }]);
            merged_at.push(tick);
        }
    }
    assert_eq!(merged_at, vec![3, 6]);
}

#[test]
fn one_merge_per_cohort_per_tick() {
    let mut g = WakeGraph::new(WakeGraphCfg {
        merge_confirm_ticks: 1,
        ..cfg()
    });
    let mapping: HashMap<u32, u64> = [(1, 11), (2, 12), (3, 13), (4, 14)].into();
    let sizes: HashMap<u64, u64> = [(11, 1), (12, 5), (13, 9), (14, 9)].into();
    observe(&mut g, &[(1, 2, 5000), (2, 3, 5000), (3, 4, 5000)], DT, 1);
    // 2-3 is passed over: cohort 12 already takes part in a merge.
    assert_eq!(
        g.merges(&mapping, &sizes),
        vec![
            MergePlan { into: 12, from: 11 },
            MergePlan { into: 13, from: 14 }
        ]
    );
    // It was hot all the same, and has its turn next tick.
    assert_eq!(
        g.merges(&mapping, &sizes).first(),
        Some(&MergePlan { into: 12, from: 11 })
    );
}

#[test]
fn edges_within_a_cohort_or_outside_all_never_merge() {
    let mut g = WakeGraph::new(WakeGraphCfg {
        merge_confirm_ticks: 0,
        ..cfg()
    });
    let mapping: HashMap<u32, u64> = [(1, 7), (2, 7)].into();
    let sizes: HashMap<u64, u64> = [(7, 3)].into();
    observe(&mut g, &[(1, 2, 5000), (1, 9, 5000)], DT, 1);
    assert_eq!(g.merges(&mapping, &sizes), vec![]);
}

// ---- splitting ----

#[test]
fn components_leave_largest_first() {
    let mut g = WakeGraph::new(WakeGraphCfg {
        split_confirm_ticks: 1,
        ..cfg()
    });
    let members: HashMap<u64, Vec<(u32, u64)>> = [
        (5, vec![(1, 2), (2, 3), (3, 4), (4, 9), (5, 1), (6, 2)]),
        (6, vec![(50, 100)]),
    ]
    .into();
    // {1, 3}: 6 tasks; {2}: 3; {4}: 9; {5, 6}: 3. The largest stays.
    observe(&mut g, &[(3, 1, 5000), (5, 6, 5000)], DT, 1);
    assert_eq!(
        g.splits(&members),
        vec![
            SplitPlan {
                cohort: 5,
                off_tgids: vec![1, 3]
            },
            SplitPlan {
                cohort: 5,
                off_tgids: vec![2]
            },
            SplitPlan {
                cohort: 5,
                off_tgids: vec![5, 6]
            },
        ]
    );
}

#[test]
fn chains_connect() {
    let mut g = WakeGraph::new(WakeGraphCfg {
        split_confirm_ticks: 1,
        ..cfg()
    });
    // 1-2-3-4 hang together through each other; 9 is no member, so the pair
    // 4-9-5 does not connect 5.
    let members: HashMap<u64, Vec<(u32, u64)>> =
        [(1, vec![(4, 1), (2, 1), (3, 1), (1, 1), (5, 2)])].into();
    observe(
        &mut g,
        &[(1, 2, 900), (2, 3, 900), (3, 4, 900), (4, 9, 900), (9, 5, 900)],
        DT,
        1,
    );
    assert_eq!(
        g.splits(&members),
        vec![SplitPlan {
            cohort: 1,
            off_tgids: vec![5]
        }]
    );
}

#[test]
fn an_unlisted_cohort_loses_its_streak() {
    let mut g = WakeGraph::new(WakeGraphCfg {
        split_confirm_ticks: 2,
        ..cfg()
    });
    let members: HashMap<u64, Vec<(u32, u64)>> = [(1, vec![(10, 8), (20, 4)])].into();
    assert!(g.splits(&members).is_empty());
    assert!(g.splits(&HashMap::new()).is_empty());
    assert!(g.splits(&members).is_empty());
    assert_eq!(g.splits(&members).len(), 1);
    // A split ends the streak too.
    assert!(g.splits(&members).is_empty());
}

/// The rates of a graph that knows the edges 1-2 and 2-3 after the deltas.
fn rates_after(deltas: &[(u32, u32, u64)], sample_mult: u64) -> [Option<u64>; 4] {
    let mut g = WakeGraph::new(cfg());
    observe(&mut g, &[(1, 2, 700), (2, 3, 90)], DT, 1);
    observe(&mut g, deltas, DT, sample_mult);
    [
        g.edge_rate(1, 2),
        g.edge_rate(2, 3),
        g.edge_rate(3, 4),
        g.edge_rate(1, 4),
    ]
}

#[test]
fn only_the_traffic_of_a_pair_counts() {
    let given = rates_after(&[(1, 2, 30), (3, 4, 80), (2, 3, 7)], 4);
    assert!(given[0].is_some() && given[1].is_some() && given[2].is_some());
    assert_eq!(given[3], None);
    // Either direction.
    assert_eq!(rates_after(&[(2, 1, 30), (4, 3, 80), (3, 2, 7)], 4), given);
    // Any order.
    assert_eq!(rates_after(&[(2, 3, 7), (1, 2, 30), (3, 4, 80)], 4), given);
    // One delta or its parts.
    assert_eq!(rates_after(&[(1, 2, 11), (3, 4, 80), (2, 3, 7), (2, 1, 19)], 4), given);
    // Counts with a multiplier or multiplied counts.
    assert_eq!(rates_after(&[(1, 2, 120), (3, 4, 320), (2, 3, 28)], 1), given);
    // Not other traffic.
    assert_ne!(rates_after(&[(1, 2, 31), (3, 4, 80), (2, 3, 7)], 4), given);
}

#[test]
fn without_elapsed_time_nothing_changes() {
    assert_eq!(RANK_0, rank(0.0));
    let mut g = WakeGraph::new(cfg());
    observe(&mut g, &[(1, 2, 700)], DT, 1);
    let before = g.edge_rate(1, 2);
    assert!(before.is_some());
    for dt in [0.0, -0.0, -1.0] {
        observe(&mut g, &[(1, 2, 9000), (3, 4, 9000)], dt, u64::MAX);
        assert_eq!(g.edge_rate(1, 2), before);
        assert_eq!(g.edge_rate(3, 4), None);
    }
    observe(&mut g, &[(1, 2, 9000)], DT, 1);
    assert_ne!(g.edge_rate(1, 2), before);
}

#[test]
fn wake_counts_fit_edge_by_edge() {
    let half = u64::MAX / 2;
    assert!(deltas_fit(&[], 8));
    assert!(deltas_fit(&[(1, 2, half), (2, 1, half), (3, 4, u64::MAX)], 1));
    assert!(!deltas_fit(&[(1, 2, half), (2, 1, half), (1, 2, 2)], 1));
    assert!(!deltas_fit(&[(1, 2, half + 1)], 2));
}
