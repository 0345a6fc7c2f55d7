use std::collections::HashSet;

use scx_cohort::balancer::{Balancer, BalancerCfg};
use scx_cohort::domain::{CohortSnapshot, Decision, LlcLoad};

fn llc(llc: u32, load_ns: u64, capacity_ns: u64) -> LlcLoad {
    LlcLoad {
        llc,
        load_ns,
        capacity_ns,
    }
}

fn cohort(id: u64, home_llc: u32, load_ns: u64) -> CohortSnapshot {
    CohortSnapshot {
        id,
        home_llc,
        pinned: false,
        nr_tasks: 4,
        load_ns,
        residency_ms: None,
    }
}

// 8 CPUs, 200 ms tick.
const CAP: u64 = 8 * 200_000_000;

#[test]
fn no_move_below_threshold() {
    let mut b = Balancer::new(BalancerCfg::default());
    // Gap of 10% of capacity: under the 20% threshold.
    let llcs = [llc(0, CAP / 2 + CAP / 10, CAP), llc(1, CAP / 2, CAP)];
    let cohorts = [cohort(1, 0, CAP / 10)];
    for _ in 0..5 {
        assert_eq!(b.plan(0, &llcs, &cohorts), vec![]);
    }
}

#[test]
fn two_tick_confirmation() {
    let mut b = Balancer::new(BalancerCfg::default());
    let llcs = [llc(0, CAP, CAP), llc(1, CAP / 10, CAP)];
    let cohorts = [cohort(1, 0, CAP / 4)];
    // First over-threshold tick: observe, don't act.
    assert_eq!(b.plan(0, &llcs, &cohorts), vec![]);
    // Second consecutive tick: act.
    assert_eq!(
        b.plan(200, &llcs, &cohorts),
        vec![Decision::MoveCohort { id: 1, to: 1 }]
    );
}

#[test]
fn transient_spike_resets_streak() {
    let mut b = Balancer::new(BalancerCfg::default());
    let hot = [llc(0, CAP, CAP), llc(1, 0, CAP)];
    let calm = [llc(0, CAP / 2, CAP), llc(1, CAP / 2, CAP)];
    let cohorts = [cohort(1, 0, CAP / 4)];
    assert_eq!(b.plan(0, &hot, &cohorts), vec![]);
    assert_eq!(b.plan(200, &calm, &cohorts), vec![]);
    // Streak was reset; a fresh spike must confirm again.
    assert_eq!(b.plan(400, &hot, &cohorts), vec![]);
    assert!(!b.plan(600, &hot, &cohorts).is_empty());
}

#[test]
fn picks_best_repairing_cohort() {
    let mut b = Balancer::new(BalancerCfg::default());
    // Gap = 60% of capacity; the ideal mover carries half the gap.
    let llcs = [llc(0, CAP * 8 / 10, CAP), llc(1, CAP * 2 / 10, CAP)];
    let gap = CAP * 6 / 10;
    let cohorts = [
        cohort(1, 0, CAP / 100), // too small to matter much
        cohort(2, 0, gap / 2),   // repairs perfectly
        cohort(3, 0, gap),       // overshoots to a mirror imbalance
    ];
    b.plan(0, &llcs, &cohorts);
    assert_eq!(
        b.plan(200, &llcs, &cohorts),
        vec![Decision::MoveCohort { id: 2, to: 1 }]
    );
}

#[test]
fn a_batch_converges_on_the_balance_point() {
    // Seven cohorts sharing one home is what a split leaves behind:
    // every new cohort inherits the parent's LLC. Unwinding that one
    // move per 400 ms took seconds, long enough to stall the desktop.
    let mut b = Balancer::new(BalancerCfg::default());
    let each = CAP / 10;
    let cohorts: Vec<_> = (1..=7).map(|id| cohort(id, 0, each)).collect();
    let llcs = [llc(0, each * 7, CAP), llc(1, 0, CAP)];
    b.plan(0, &llcs, &cohorts);
    let moves = b.plan(200, &llcs, &cohorts);

    assert!(moves.len() > 1, "batch moved only {}", moves.len());
    let ids: HashSet<u64> = moves
        .iter()
        .map(|d| {
            let Decision::MoveCohort { id, .. } = d;
            *id
        })
        .collect();
    assert_eq!(ids.len(), moves.len(), "a cohort moved twice in one batch");
    for d in &moves {
        let Decision::MoveCohort { to, .. } = d;
        assert_eq!(*to, 1);
    }

    // Land inside the threshold without overshooting into a mirrored
    // imbalance: that is what planning against the projection buys.
    let shifted = moves.len() as u64 * each;
    let gap = (each * 7 - shifted).abs_diff(shifted);
    assert!(
        gap <= CAP * 20 / 100,
        "batch left a gap of {gap} above the threshold"
    );
}

#[test]
fn a_batch_respects_the_cap() {
    let mut b = Balancer::new(BalancerCfg {
        max_moves_per_tick: 2,
        ..BalancerCfg::default()
    });
    let each = CAP / 20;
    let cohorts: Vec<_> = (1..=16).map(|id| cohort(id, 0, each)).collect();
    let llcs = [llc(0, each * 16, CAP), llc(1, 0, CAP)];
    b.plan(0, &llcs, &cohorts);
    assert_eq!(b.plan(200, &llcs, &cohorts).len(), 2);
}

#[test]
fn residency_immunity() {
    let mut b = Balancer::new(BalancerCfg::default());
    let llcs = [llc(0, CAP, CAP), llc(1, CAP / 10, CAP)];
    let cohorts = [cohort(1, 0, CAP / 4)];
    b.plan(0, &llcs, &cohorts);
    assert!(!b.plan(200, &llcs, &cohorts).is_empty());
    // The cohort nominally still looks movable (snapshot says home 0),
    // but it moved 200 ms ago: immune until residency_ms elapses.
    b.plan(400, &llcs, &cohorts);
    assert_eq!(b.plan(600, &llcs, &cohorts), vec![]);
    // The imbalance streak is already confirmed, so the first plan
    // after the residency window moves it again.
    assert!(!b.plan(2500, &llcs, &cohorts).is_empty());
}

#[test]
fn pinned_and_oversized_never_move() {
    let mut b = Balancer::new(BalancerCfg::default());
    let llcs = [llc(0, CAP * 2, CAP), llc(1, 0, CAP)];
    let mut pinned = cohort(1, 0, CAP / 4);
    pinned.pinned = true;
    // Demand exceeding one LLC's capacity: relocation can't help.
    let oversized = cohort(2, 0, CAP + CAP / 4);
    let cohorts = [pinned, oversized];
    b.plan(0, &llcs, &cohorts);
    assert_eq!(b.plan(200, &llcs, &cohorts), vec![]);
}

#[test]
fn never_moves_to_make_things_worse() {
    let mut b = Balancer::new(BalancerCfg::default());
    // Gap is 30% of capacity, but the only candidate is so big that
    // moving it would mirror the imbalance worse than it is.
    let llcs = [llc(0, CAP * 65 / 100, CAP), llc(1, CAP * 35 / 100, CAP)];
    let cohorts = [cohort(1, 0, CAP * 60 / 100)];
    b.plan(0, &llcs, &cohorts);
    assert_eq!(b.plan(200, &llcs, &cohorts), vec![]);
}

#[test]
fn rule_residency_override_respected() {
    let mut b = Balancer::new(BalancerCfg::default());
    let llcs = [llc(0, CAP, CAP), llc(1, CAP / 10, CAP)];
    let mut c = cohort(1, 0, CAP / 4);
    c.residency_ms = Some(10_000); // e.g. a game with extra hysteresis
    let cohorts = [c];
    b.plan(0, &llcs, &cohorts);
    assert!(!b.plan(200, &llcs, &cohorts).is_empty());
    // Default residency (2 s) has long passed, but the override holds.
    b.plan(3000, &llcs, &cohorts);
    assert_eq!(b.plan(3200, &llcs, &cohorts), vec![]);
    // The streak is long-confirmed, so the first plan after the
    // override window moves it again.
    assert!(!b.plan(10_300, &llcs, &cohorts).is_empty());
}

// ---- across plans ----

#[test]
fn a_default_balancer_has_the_default_knobs() {
    let mut b = Balancer::default();
    let llcs = [llc(0, CAP, CAP), llc(1, CAP / 10, CAP)];
    let cohorts = [cohort(1, 0, CAP / 4)];
    assert!(b.plan(0, &llcs, &cohorts).is_empty());
    assert_eq!(b.plan(200, &llcs, &cohorts).len(), 1);
}

#[test]
fn another_cohorts_move_does_not_end_immunity() {
    let mut b = Balancer::new(BalancerCfg {
        max_moves_per_tick: 1,
        ..BalancerCfg::default()
    });
    let llcs = [llc(0, CAP, CAP), llc(1, 0, CAP)];
    let cohorts = [cohort(1, 0, CAP / 2 - 1), cohort(2, 0, CAP / 4)];
    b.plan(0, &llcs, &cohorts);
    assert_eq!(
        b.plan(200, &llcs, &cohorts),
        vec![Decision::MoveCohort { id: 1, to: 1 }]
    );
    b.plan(400, &llcs, &cohorts);
    assert_eq!(
        b.plan(600, &llcs, &cohorts),
        vec![Decision::MoveCohort { id: 2, to: 1 }]
    );
    // Both immune now: the first by 200 + 2000 ms, the second by 600 + 2000.
    b.plan(800, &llcs, &cohorts);
    assert_eq!(b.plan(2199, &llcs, &cohorts), vec![]);
    assert_eq!(
        b.plan(2200, &llcs, &cohorts),
        vec![Decision::MoveCohort { id: 1, to: 1 }]
    );
}

#[test]
fn forgotten_cohorts_lose_their_immunity() {
    let mut b = Balancer::new(BalancerCfg::default());
    let llcs = [llc(0, CAP, CAP), llc(1, CAP / 10, CAP)];
    let cohorts = [cohort(1, 0, CAP / 4)];
    b.plan(0, &llcs, &cohorts);
    assert_eq!(b.plan(200, &llcs, &cohorts).len(), 1);
    b.retain_cohorts(|id| id == 1);
    b.plan(400, &llcs, &cohorts);
    assert_eq!(b.plan(600, &llcs, &cohorts), vec![]);
    b.retain_cohorts(|id| id != 1);
    assert_eq!(b.plan(800, &llcs, &cohorts).len(), 1);
}

#[test]
fn ties_go_to_the_smaller_cohort() {
    let mut b = Balancer::new(BalancerCfg {
        max_moves_per_tick: 1,
        ..BalancerCfg::default()
    });
    // A gap of 60%: moving 20% or 40% both leave 20%.
    let llcs = [llc(0, CAP * 8 / 10, CAP), llc(1, CAP * 2 / 10, CAP)];
    let cohorts = [cohort(1, 0, CAP * 4 / 10), cohort(2, 0, CAP * 2 / 10)];
    b.plan(0, &llcs, &cohorts);
    assert_eq!(
        b.plan(200, &llcs, &cohorts),
        vec![Decision::MoveCohort { id: 2, to: 1 }]
    );
}

#[test]
fn a_single_llc_has_nowhere_to_move() {
    let mut b = Balancer::new(BalancerCfg::default());
    let cohorts = [cohort(1, 0, CAP / 4)];
    for now in 0..5 {
        assert_eq!(b.plan(now, &[llc(0, CAP, CAP)], &cohorts), vec![]);
        assert_eq!(b.plan(now, &[], &cohorts), vec![]);
    }
}

#[test]
fn room_for_the_arithmetic() {
    let b = Balancer::new(BalancerCfg::default());
    assert!(b.has_room(&[llc(0, CAP, CAP), llc(1, 0, CAP)]));
    assert!(b.has_room(&[llc(0, u64::MAX, u64::MAX)]));
    assert!(!b.has_room(&[llc(0, 0, CAP), llc(0, 0, CAP)]));
    assert!(!b.has_room(&[llc(0, 0, CAP), llc(1, 0, u64::MAX / 4)]));
    assert!(!b.has_room(&[llc(0, u64::MAX, CAP), llc(1, 0, CAP)]));
}
