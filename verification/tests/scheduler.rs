use std::collections::HashSet;

use scx_cohort::balancer::BalancerCfg;
use scx_cohort::domain::Decision;
use scx_cohort::scheduler::{
    pinned_to, rehomed, stale_tgids, sum_counter, tgids_of, CohortEntry, Scheduler,
};
use scx_cohort::top::{hottest_first, layout, pin_mark, spill_mark, TopLine};
use scx_cohort::topology::{plan_topology, CpuSite, TopologyError};
use scx_cohort::tunables::{CohortPolicy, COHORT_PINNED, MAX_CPUS};

const TICK_NS: u64 = 200_000_000;
// 8 CPUs.
const CAP: u64 = 8 * TICK_NS;

fn entry(id: u64, home_llc: u32, nr_tasks: u64, load_sum: u64) -> CohortEntry {
    CohortEntry {
        id,
        home_llc,
        flags: 0,
        nr_tasks,
        load_sum,
        residency_ms: None,
    }
}

fn scheduler() -> Scheduler {
    Scheduler::new(BalancerCfg::default(), [(0, 8), (1, 8)].into(), TICK_NS)
}

#[test]
fn loads_are_differences_of_runtime_sums() {
    let mut s = scheduler();
    // First sighting: nothing to diff.
    let scan = s.snapshot_cohorts(&[entry(1, 0, 4, 1000), entry(2, 1, 0, 5), entry(3, 1, 2, 70)]);
    assert_eq!(scan.dead, vec![2]);
    assert_eq!(scan.cohorts.len(), 2);
    assert_eq!(scan.cohorts[0].load_ns, 0);
    let scan = s.snapshot_cohorts(&[entry(1, 0, 4, 1500), entry(3, 1, 2, 60), entry(2, 0, 1, 9)]);
    assert!(scan.dead.is_empty());
    let loads: Vec<(u64, u64)> = scan.cohorts.iter().map(|c| (c.id, c.load_ns)).collect();
    // A sum that went backwards counts as no load; cohort 2 is seen anew.
    assert_eq!(loads, vec![(1, 500), (3, 0), (2, 0)]);
    let llcs = s.llc_loads(&scan.cohorts);
    assert_eq!(llcs.len(), 2);
    assert_eq!((llcs[0].llc, llcs[0].load_ns, llcs[0].capacity_ns), (0, 500, CAP));
    assert_eq!((llcs[1].llc, llcs[1].load_ns, llcs[1].capacity_ns), (1, 0, CAP));
}

#[test]
fn flags_and_rules_reach_the_snapshot() {
    let mut s = scheduler();
    let mut pinned = entry(1, 1, 1, 0);
    pinned.flags = COHORT_PINNED | 4;
    pinned.residency_ms = Some(5000);
    let mut other = entry(2, 1, 1, 0);
    other.flags = 4;
    let scan = s.snapshot_cohorts(&[pinned, other]);
    assert!(scan.cohorts[0].pinned);
    assert_eq!(scan.cohorts[0].residency_ms, Some(5000));
    assert_eq!(scan.cohorts[0].home_llc, 1);
    assert!(!scan.cohorts[1].pinned);
    let scan = s.snapshot_cohorts(&[other]);
    assert_eq!(scan.cohorts.len(), 1);
}

#[test]
fn a_lasting_imbalance_moves_a_cohort() {
    let mut s = scheduler();
    let at = |n: u64| [entry(1, 0, 4, n * CAP / 4), entry(2, 0, 4, n * CAP / 2)];
    assert!(s.tick(0, &at(0)).moves.is_empty());
    assert!(s.tick(200, &at(1)).moves.is_empty());
    let plan = s.tick(400, &at(2));
    assert_eq!(plan.llcs[0].load_ns, CAP / 4 + CAP / 2);
    assert_eq!(plan.moves, vec![Decision::MoveCohort { id: 1, to: 1 }]);
    assert!(plan.dead.is_empty());
    assert_eq!(plan.cohorts.len(), 2);
}

#[test]
fn a_dead_cohort_forgets_its_immunity() {
    let mut s = scheduler();
    let mut tick = |n: u64, first: CohortEntry| {
        let mut second = entry(2, 0, 4, n * CAP / 2);
        second.flags = COHORT_PINNED;
        s.tick(n * 200, &[first, second])
    };
    let alive = |n: u64| entry(1, 0, 4, n * CAP / 4);
    tick(0, alive(0));
    tick(1, alive(1));
    assert_eq!(tick(2, alive(2)).moves.len(), 1);
    // Still living: immune.
    assert!(tick(3, alive(3)).moves.is_empty());
    assert!(tick(4, alive(4)).moves.is_empty());
    // It dies and comes back: the timestamp is gone with it.
    assert_eq!(tick(5, entry(1, 0, 0, 0)).dead, vec![1]);
    assert!(tick(6, alive(6)).moves.is_empty());
    assert_eq!(tick(7, alive(7)).moves.len(), 1);
}

#[test]
fn stale_tgids_are_those_of_gone_cohorts() {
    let existing: HashSet<u64> = [1, 3].into();
    assert_eq!(
        stale_tgids(&[(10, 1), (20, 2), (30, 3), (40, 4)], &existing),
        vec![20, 40]
    );
    assert!(stale_tgids(&[], &existing).is_empty());
}

#[test]
fn rehoming_keeps_the_flags() {
    let p = rehomed(
        CohortPolicy {
            home_llc: 0,
            flags: 9,
        },
        1,
    );
    assert_eq!((p.home_llc, p.flags), (1, 9));
}

#[test]
fn counters_add_up_over_cpus() {
    assert_eq!(sum_counter(&[]), 0);
    assert_eq!(sum_counter(&[1, 2, 39]), 42);
}

#[test]
fn supported_topologies_are_laid_out() {
    let cpus = [
        CpuSite { cpu: 3, llc: 1 },
        CpuSite { cpu: 0, llc: 0 },
        CpuSite { cpu: 1, llc: 1 },
    ];
    let p = plan_topology(1, 2, &cpus).unwrap();
    assert_eq!(p.nr_llcs, 2);
    assert_eq!(p.nr_cpus, 4);
    assert_eq!(p.cpu_llc_id.len(), MAX_CPUS as usize);
    assert_eq!(&p.cpu_llc_id[..5], &[0, 1, 0, 1, 0]);
    // No CPUs at all still make a range of one.
    assert_eq!(plan_topology(0, 0, &[]).unwrap().nr_cpus, 1);
}

#[test]
fn oversized_topologies_are_refused() {
    let far = [CpuSite { cpu: 512, llc: 0 }];
    assert_eq!(plan_topology(2, 9, &far).unwrap_err(), TopologyError::MultiNode);
    assert_eq!(
        plan_topology(1, 9, &far).unwrap_err(),
        TopologyError::TooManyLlcs { llcs: 9 }
    );
    assert_eq!(
        plan_topology(1, 8, &far).unwrap_err(),
        TopologyError::CpuRange { cpus: 513 }
    );
    assert!(plan_topology(1, 8, &[CpuSite { cpu: 511, llc: 0 }]).is_ok());
}

#[test]
fn rows_are_ordered_hottest_first() {
    assert_eq!(hottest_first(&[5, 9, 5, 0, 9]), vec![1, 4, 0, 2, 3]);
    assert!(hottest_first(&[]).is_empty());
}

#[test]
fn the_view_is_cut_to_the_terminal() {
    let cohorts = [10, 20];
    let procs = [vec![1, 2], vec![7]];
    let full = vec![
        TopLine::Summary,
        TopLine::Blank,
        TopLine::Heading,
        TopLine::Cohort { cohort: 1 },
        TopLine::Process {
            cohort: 1,
            process: 0,
        },
        TopLine::Cohort { cohort: 0 },
        TopLine::Process {
            cohort: 0,
            process: 1,
        },
        TopLine::Process {
            cohort: 0,
            process: 0,
        },
    ];
    assert_eq!(layout(&cohorts, &procs, 40), full);
    let many = [vec![0; 20], vec![]];
    assert_eq!(layout(&cohorts, &many, 0).len(), 10);
    assert_eq!(layout(&cohorts, &many, 11).len(), 10);
    assert_eq!(layout(&cohorts, &many, 12).len(), 11);
    assert_eq!(layout(&cohorts, &many, 100).len(), 25);
}

#[test]
fn room_for_a_tick() {
    let mut s = scheduler();
    assert!(s.has_room(&[entry(1, 0, 4, u64::MAX)]));
    s.tick(0, &[entry(1, 0, 4, 0), entry(2, 0, 4, 0)]);
    assert!(s.has_room(&[entry(1, 0, 4, 1000), entry(2, 0, 4, 1000)]));
    // Two sums that each grew by more than half of what 64 bits hold.
    assert!(!s.has_room(&[entry(1, 0, 4, u64::MAX), entry(2, 0, 4, u64::MAX)]));
    let huge = Scheduler::new(BalancerCfg::default(), [(0, 2), (1, 8)].into(), u64::MAX);
    assert!(!huge.has_room(&[]));
}

#[test]
fn llc_loads_come_in_order_of_the_ids() {
    let mut s = Scheduler::new(BalancerCfg::default(), [(7, 2), (0, 8), (3, 4)].into(), TICK_NS);
    s.snapshot_cohorts(&[entry(1, 3, 1, 0), entry(2, 7, 1, 0)]);
    let scan = s.snapshot_cohorts(&[entry(1, 3, 1, 50), entry(2, 7, 1, 60)]);
    let llcs = s.llc_loads(&scan.cohorts);
    let seen: Vec<(u32, u64, u64)> = llcs
        .iter()
        .map(|l| (l.llc, l.load_ns, l.capacity_ns))
        .collect();
    assert_eq!(
        seen,
        vec![(0, 0, 8 * TICK_NS), (3, 50, 4 * TICK_NS), (7, 60, 2 * TICK_NS)]
    );
}

#[test]
fn a_merge_hands_over_the_tgids_of_a_cohort() {
    assert_eq!(tgids_of(&[(10, 1), (20, 2), (30, 1)], 1), vec![10, 30]);
    assert!(tgids_of(&[(10, 1)], 9).is_empty());
}

#[test]
fn a_pin_names_its_llc() {
    let p = pinned_to(3);
    assert_eq!((p.home_llc, p.flags), (3, COHORT_PINNED));
}

#[test]
fn pins_and_spills_are_marked() {
    assert_eq!((pin_mark(0), pin_mark(1)), (' ', '*'));
    assert_eq!((spill_mark(0), spill_mark(12)), (None, Some(12)));
}
