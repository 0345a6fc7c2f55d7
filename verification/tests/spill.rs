use std::collections::HashMap;

use scx_cohort::balancer::{plan_spills, SpillCfg};
use scx_cohort::domain::{CohortSnapshot, LlcLoad, TaskSnapshot};
use scx_cohort::spill_map::{spill_changes, spills_have_room};

fn llc(llc: u32, load_ns: u64, capacity_ns: u64) -> LlcLoad {
    LlcLoad {
        llc,
        load_ns,
        capacity_ns,
    }
}

fn cohort(id: u64, home_llc: u32, load_ns: u64) -> CohortSnapshot {
    CohortSnapshot {
        id,
        home_llc,
        pinned: false,
        nr_tasks: 4,
        load_ns,
        residency_ms: None,
    }
}

fn task(pid: u32, cohort_id: u64, duty_ns: u64) -> TaskSnapshot {
    TaskSnapshot {
        pid,
        tgid: pid,
        cohort_id,
        duty_ns,
        duty_known: true,
        home_ns: 0,
        comm: String::new(),
    }
}

// 8 CPUs, 200 ms tick.
const CAP: u64 = 8 * 200_000_000;

#[test]
fn undersized_cohort_never_spills() {
    let llcs = [llc(0, CAP / 2, CAP), llc(1, 0, CAP)];
    let cohorts = [cohort(1, 0, CAP / 2)];
    let tasks: Vec<_> = (0..4).map(|i| task(i, 1, CAP / 8)).collect();
    let out = plan_spills(
        &SpillCfg::default(),
        &llcs,
        &cohorts,
        &tasks,
        &HashMap::new(),
    );
    assert!(out.is_empty());
}

#[test]
fn oversized_cohort_spills_coldest_members() {
    // Demand just over the high mark: the excess (5% of capacity)
    // is coverable by cold members alone, so hot threads stay home.
    let llcs = [llc(0, CAP, CAP), llc(1, 0, CAP)];
    let cohorts = [cohort(1, 0, CAP)];
    let tasks = vec![
        task(1, 1, CAP / 3),
        task(2, 1, CAP / 3),
        task(3, 1, CAP / 3),
        task(10, 1, CAP / 50),
        task(11, 1, CAP / 50),
        task(12, 1, CAP / 100),
    ];
    let out = plan_spills(
        &SpillCfg::default(),
        &llcs,
        &cohorts,
        &tasks,
        &HashMap::new(),
    );
    assert!(!out.is_empty());
    // Only cold members spill, all to LLC 1, and the hot three stay.
    for pid in [1, 2, 3] {
        assert!(!out.contains_key(&pid), "hot thread {pid} was spilled");
    }
    for (&pid, &target) in &out {
        assert!(pid >= 10);
        assert_eq!(target, 1);
    }
}

#[test]
fn hot_members_overflow_when_cold_insufficient() {
    // Demand 125% of home capacity but the cold members cover only a
    // sliver of the excess: hot members must spill too, and the spill
    // must stop once enough demand has been shed — never the whole
    // cohort.
    let llcs = [llc(0, CAP + CAP / 4, CAP), llc(1, 0, CAP)];
    let cohorts = [cohort(1, 0, CAP + CAP / 4)];
    let tasks = vec![
        task(1, 1, CAP / 3),
        task(2, 1, CAP / 3),
        task(3, 1, CAP / 3),
        task(10, 1, CAP / 100),
    ];
    let out = plan_spills(
        &SpillCfg::default(),
        &llcs,
        &cohorts,
        &tasks,
        &HashMap::new(),
    );
    // Cold member spills, plus exactly one hot member: excess is 30%
    // of capacity and each hot member sheds 33%.
    assert!(out.contains_key(&10), "cold member must spill first");
    let hot_spilled: Vec<u32> = [1, 2, 3]
        .into_iter()
        .filter(|pid| out.contains_key(pid))
        .collect();
    assert_eq!(hot_spilled.len(), 1, "exactly one hot member overflows");
    assert!(out.len() < tasks.len(), "the whole cohort must never spill");
    for target in out.values() {
        assert_eq!(*target, 1);
    }
}

#[test]
fn hot_overflow_exiles_hogs_not_the_waking_thread() {
    // One CPU's tick worth of runtime; duty is capped by it in
    // practice. A render-style thread runs at half duty; the rest are
    // full-duty hogs (shader compilers, spinners). Hottest-first
    // overflow must exile hogs and keep the lighter thread home.
    let tick = CAP / 8;
    let mut tasks = vec![task(1, 1, tick / 2)];
    for pid in 2..=16 {
        tasks.push(task(pid, 1, tick));
    }
    // Demand double the home capacity, all of it hot.
    let llcs = [llc(0, CAP * 2, CAP), llc(1, 0, CAP)];
    let cohorts = [cohort(1, 0, CAP * 2)];
    let out = plan_spills(
        &SpillCfg::default(),
        &llcs,
        &cohorts,
        &tasks,
        &HashMap::new(),
    );
    assert!(
        !out.contains_key(&1),
        "the least-hot member must be the last exiled"
    );
    assert!(!out.is_empty());
    assert!(out.len() < tasks.len());
}

#[test]
fn first_sighting_tasks_are_not_spill_candidates() {
    // Members whose duty has never been sampled read duty 0 and would
    // otherwise sort as the coldest possible picks.
    let llcs = [llc(0, CAP + CAP / 4, CAP), llc(1, 0, CAP)];
    let cohorts = [cohort(1, 0, CAP + CAP / 4)];
    let mut fresh = task(1, 1, 0);
    fresh.duty_known = false;
    let tasks = vec![fresh, task(2, 1, CAP / 2), task(3, 1, CAP / 2)];
    let out = plan_spills(
        &SpillCfg::default(),
        &llcs,
        &cohorts,
        &tasks,
        &HashMap::new(),
    );
    assert!(
        !out.contains_key(&1),
        "unsampled task spilled on its first sighting"
    );
    assert!(!out.is_empty(), "known-duty members must still spill");
}

#[test]
fn idle_members_are_never_exiled() {
    // The production failure: a cohort whose members are nearly all
    // idle. Crediting each one 1 ns of progress against an excess
    // measured in hundreds of millions handed the whole cohort to the
    // other CCD, draining one LLC to single-digit utilisation while
    // the other held above 100%.
    let mut tasks = vec![task(1, 1, CAP / 3), task(2, 1, CAP / 3)];
    for pid in 100..400 {
        tasks.push(task(pid, 1, 0));
    }
    let llcs = [llc(0, CAP + CAP / 4, CAP), llc(1, 0, CAP)];
    let cohorts = [cohort(1, 0, CAP + CAP / 4)];
    let out = plan_spills(
        &SpillCfg::default(),
        &llcs,
        &cohorts,
        &tasks,
        &HashMap::new(),
    );

    assert!(!out.is_empty(), "duty-carrying members must still shed");
    for pid in 100..400 {
        assert!(!out.contains_key(&pid), "idle member {pid} was exiled");
    }
    assert!(
        out.len() <= 2,
        "only duty-carrying members spill, got {}",
        out.len()
    );
}

#[test]
fn a_full_destination_blocks_growth_but_keeps_the_existing_set() {
    // Both LLCs past their high mark: there is nowhere better to put
    // anything, so the set holds instead of pushing more across.
    let llcs = [llc(0, CAP, CAP), llc(1, CAP, CAP)];
    let cohorts = [cohort(1, 0, CAP)];
    let tasks = vec![
        task(1, 1, CAP / 3),
        task(2, 1, CAP / 3),
        task(10, 1, CAP / 50),
    ];
    let current: HashMap<u32, u32> = [(10, 1)].into();
    let out = plan_spills(&SpillCfg::default(), &llcs, &cohorts, &tasks, &current);
    assert_eq!(out, current, "grew the spill set into a full LLC");
}

#[test]
fn concurrent_spills_share_one_destination_budget() {
    // Two oversized cohorts spilling in the same tick must not each
    // claim the destination's full headroom.
    let tick = CAP / 8;
    let mut tasks: Vec<_> = (1..=8).map(|pid| task(pid, 1, tick)).collect();
    tasks.extend((11..=18).map(|pid| task(pid, 2, tick)));
    // LLC 1 is at 90% of capacity: room for a little, not for both.
    let llcs = [llc(0, CAP * 2, CAP), llc(1, CAP * 9 / 10, CAP)];
    let cohorts = [cohort(1, 0, CAP), cohort(2, 0, CAP)];
    let out = plan_spills(
        &SpillCfg::default(),
        &llcs,
        &cohorts,
        &tasks,
        &HashMap::new(),
    );

    let first: Vec<u32> = (1..=8).filter(|p| out.contains_key(p)).collect();
    let second: Vec<u32> = (11..=18).filter(|p| out.contains_key(p)).collect();
    assert!(!first.is_empty(), "the first cohort takes the headroom");
    assert!(
        second.is_empty(),
        "second cohort claimed headroom already spent: {second:?}"
    );
}

#[test]
fn hot_overflow_is_sticky() {
    let llcs = [llc(0, CAP + CAP / 4, CAP), llc(1, 0, CAP)];
    let cohorts = [cohort(1, 0, CAP + CAP / 4)];
    // Uniformly hot: any spilled member is an arbitrary pick, which
    // is exactly when re-planning could churn the choice.
    let tasks: Vec<_> = (1..=8).map(|pid| task(pid, 1, CAP / 6)).collect();
    let cfg = SpillCfg::default();
    let first = plan_spills(&cfg, &llcs, &cohorts, &tasks, &HashMap::new());
    assert!(!first.is_empty());
    // The first plan shed enough; replanning under the same load must
    // neither churn the picks nor creep more members across (cohort
    // load still counts the spilled members, so a naive replan would
    // spill the same excess again every tick).
    let second = plan_spills(&cfg, &llcs, &cohorts, &tasks, &first);
    assert_eq!(second, first, "spill set must converge, not grow");
}

#[test]
fn spill_selection_is_sticky() {
    let llcs = [llc(0, CAP + CAP / 4, CAP), llc(1, 0, CAP)];
    let cohorts = [cohort(1, 0, CAP + CAP / 4)];
    let tasks = vec![
        task(1, 1, CAP / 2),
        task(2, 1, CAP / 2),
        // Equal-duty cold members: without stickiness the choice
        // between them could churn tick to tick.
        task(10, 1, CAP / 50),
        task(11, 1, CAP / 50),
    ];
    let first = plan_spills(
        &SpillCfg::default(),
        &llcs,
        &cohorts,
        &tasks,
        &HashMap::new(),
    );
    let second = plan_spills(&SpillCfg::default(), &llcs, &cohorts, &tasks, &first);
    // Whatever was spilled stays spilled while overload persists.
    for pid in first.keys() {
        assert!(second.contains_key(pid), "spill set churned: lost {pid}");
    }
}

#[test]
fn spill_set_holds_between_marks_and_clears_below_low() {
    let cfg = SpillCfg::default();
    let cohorts_mid = [cohort(1, 0, CAP * 85 / 100)]; // between low and high
    let cohorts_low = [cohort(1, 0, CAP / 2)]; // below low
    let llcs = [llc(0, CAP, CAP), llc(1, 0, CAP)];
    let tasks = vec![task(1, 1, CAP / 2), task(10, 1, CAP / 100)];
    let current: HashMap<u32, u32> = [(10, 1)].into();

    // Between the marks: kept exactly as-is, not grown.
    let mid = plan_spills(&cfg, &llcs, &cohorts_mid, &tasks, &current);
    assert_eq!(mid, current);

    // Below the low mark: everything comes home.
    let low = plan_spills(&cfg, &llcs, &cohorts_low, &tasks, &current);
    assert!(low.is_empty());
}

#[test]
fn exiles_leave_coldest_first_and_hogs_before_the_rest() {
    // One CPU's tick is 200 ms, so members under 50 ms are cold.
    let ms = 1_000_000;
    let tasks = vec![
        task(1, 1, 49 * ms),
        task(2, 1, 10 * ms),
        task(3, 1, 60 * ms),
        task(4, 1, 190 * ms),
        task(5, 1, 20 * ms),
    ];
    let spilled = |excess_ms: u64| {
        let load = CAP * 95 / 100 + excess_ms * ms;
        let llcs = [llc(0, load, CAP), llc(1, 0, CAP)];
        let cohorts = [cohort(1, 0, load)];
        let out = plan_spills(
            &SpillCfg::default(),
            &llcs,
            &cohorts,
            &tasks,
            &HashMap::new(),
        );
        let mut pids: Vec<u32> = out.into_keys().collect();
        pids.sort();
        pids
    };
    assert_eq!(spilled(0), Vec::<u32>::new());
    assert_eq!(spilled(1), vec![2]);
    assert_eq!(spilled(10), vec![2]);
    assert_eq!(spilled(11), vec![2, 5]);
    assert_eq!(spilled(31), vec![1, 2, 5]);
    // Cold members are used up: the hottest goes next.
    assert_eq!(spilled(80), vec![1, 2, 4, 5]);
    assert_eq!(spilled(300), vec![1, 2, 3, 4, 5]);
}

#[test]
fn growth_goes_to_the_least_loaded_llc() {
    let llcs = [
        llc(0, CAP * 2, CAP),
        llc(1, CAP / 2, CAP),
        llc(2, CAP / 4, CAP),
    ];
    let cohorts = [cohort(1, 0, CAP * 2)];
    let tasks = vec![task(1, 1, CAP / 4), task(2, 1, CAP / 3)];
    let current: HashMap<u32, u32> = [(1, 1)].into();
    let out = plan_spills(&SpillCfg::default(), &llcs, &cohorts, &tasks, &current);
    // The spilled one stays where it is; the new one goes to the idlest.
    assert_eq!(out, [(1, 1), (2, 2)].into());
}

#[test]
fn a_cohort_without_a_known_home_is_left_alone() {
    let llcs = [llc(0, CAP, CAP), llc(1, 0, CAP)];
    let cohorts = [cohort(1, 7, CAP * 2)];
    let tasks = vec![task(1, 1, CAP / 2)];
    let current: HashMap<u32, u32> = [(1, 1)].into();
    assert!(plan_spills(&SpillCfg::default(), &llcs, &cohorts, &tasks, &current).is_empty());
    // Nor does anything spill where there is no second LLC.
    let one = [llc(7, CAP, CAP)];
    assert!(plan_spills(&SpillCfg::default(), &one, &cohorts, &tasks, &current).is_empty());
}

#[test]
fn a_settled_plan_converges_and_a_cut_one_grows() {
    let tick = CAP / 8;
    let tasks: Vec<_> = (1..=8).map(|pid| task(pid, 1, tick)).collect();
    let cohorts = [cohort(1, 0, CAP + CAP / 4)];
    let cfg = SpillCfg::default();
    // Room for all of the excess: the second plan is the first.
    let roomy = [llc(0, CAP + CAP / 4, CAP), llc(1, 0, CAP)];
    let first = plan_spills(&cfg, &roomy, &cohorts, &tasks, &HashMap::new());
    assert_eq!(first.len(), 3);
    assert_eq!(plan_spills(&cfg, &roomy, &cohorts, &tasks, &first), first);
    // Room for one member's worth: planned against the same loads, the next
    // plan finds that room again.
    let tight = [llc(0, CAP + CAP / 4, CAP), llc(1, CAP * 9 / 10, CAP)];
    let first = plan_spills(&cfg, &tight, &cohorts, &tasks, &HashMap::new());
    assert_eq!(first.len(), 1);
    assert_eq!(plan_spills(&cfg, &tight, &cohorts, &tasks, &first).len(), 2);
}

#[test]
fn changes_turn_the_map_into_the_plan() {
    let current: HashMap<u32, u32> = [(1, 0), (2, 1), (3, 1), (9, 0)].into();
    let desired: HashMap<u32, u32> = [(2, 1), (3, 0), (4, 1), (7, 0)].into();
    let changes = spill_changes(&current, &desired);
    assert_eq!(changes.sent, vec![(3, 0), (4, 1), (7, 0)]);
    assert_eq!(changes.called_back, vec![1, 9]);
    let mut map = current;
    for pid in changes.called_back {
        map.remove(&pid);
    }
    map.extend(changes.sent);
    assert_eq!(map, desired);
    let none = spill_changes(&desired, &desired);
    assert!(none.sent.is_empty() && none.called_back.is_empty());
}

#[test]
fn plans_beyond_machine_integers_are_told_apart() {
    let llc = |load_ns: u64, capacity_ns: u64| LlcLoad {
        llc: 0,
        load_ns,
        capacity_ns,
    };
    let cfg = SpillCfg::default();
    let fits = |llcs: &[LlcLoad]| spills_have_room(&cfg, llcs, &[], &HashMap::new());
    assert!(fits(&[llc(u64::MAX, u64::MAX)]));
    assert!(fits(&[llc(5, 100), llc(u64::MAX - 95, 7)]));
    assert!(!fits(&[llc(5, 100), llc(u64::MAX - 94, 7)]));
    assert!(!fits(&[llc(0, u64::MAX / 95 + 1), llc(0, 0)]));
    let slow = SpillCfg {
        tick_ns: u64::MAX,
        ..SpillCfg::default()
    };
    assert!(!spills_have_room(&slow, &[llc(0, 0), llc(0, 0)], &[], &HashMap::new()));
}
