//! One daemon tick: from decoded map entries to cohort snapshots, LLC loads
//! and moves.
use std::collections::{BTreeMap, HashMap, HashSet};

use vstd::prelude::*;

use crate::arith::{lemma_total_monotone, total};
use crate::balancer::{
    after_plan, plainly_fits, plan_fits, planned, Balancer, BalancerCfg, BalancerState,
};
use crate::domain::{CohortSnapshot, Decision, LlcLoad};
use crate::ordered::{ids_in_order, lemma_ids_in_order, lists_ids, sorted_ids};
use crate::stats::monus;
use crate::tunables::{CohortPolicy, COHORT_PINNED};

verus! {

/// A cohort as the kernel maps hold it.
#[derive(Debug, Clone, Copy)]
pub struct CohortEntry {
    pub id: u64,
    pub home_llc: u32,
    /// `COHORT_PINNED` etc.
    pub flags: u32,
    pub nr_tasks: u64,
    /// Monotonic weight-scaled runtime sum.
    pub load_sum: u64,
    /// Residency override from a matched rule, if any.
    pub residency_ms: Option<u64>,
}

/// What a scan of the cohort map finds.
#[derive(Debug)]
pub struct Scan {
    /// The live cohorts.
    pub cohorts: Vec<CohortSnapshot>,
    /// The cohorts without tasks, to be deleted.
    pub dead: Vec<u64>,
}

/// What a tick comes to.
#[derive(Debug)]
pub struct TickPlan {
    pub cohorts: Vec<CohortSnapshot>,
    pub dead: Vec<u64>,
    pub llcs: Vec<LlcLoad>,
    pub moves: Vec<Decision>,
}

#[derive(Debug)]
pub struct Scheduler {
    balancer: Balancer,
    /// LLC id to CPU count, for capacity computation.
    llc_cpus: BTreeMap<u32, u64>,
    tick_ns: u64,
    /// cohort id -> load_sum at the previous tick, for per-tick deltas.
    prev_load_sum: HashMap<u64, u64>,
}

/// What a [`Scheduler`] remembers between ticks.
pub struct SchedulerState {
    pub balancer: BalancerState,
    pub llc_cpus: Map<u32, u64>,
    pub tick_ns: u64,
    pub prev_load_sum: Map<u64, u64>,
}

impl View for Scheduler {
    type V = SchedulerState;

    closed spec fn view(&self) -> SchedulerState {
        SchedulerState {
            balancer: self.balancer@,
            llc_cpus: self.llc_cpus@,
            tick_ns: self.tick_ns,
            prev_load_sum: self.prev_load_sum@,
        }
    }
}

// ---- Snapshots ----

pub open spec fn is_live(e: CohortEntry) -> bool {
    e.nr_tasks != 0
}

/// The runtime since the previous tick; none on a cohort's first sighting.
pub open spec fn load_since(prev: Map<u64, u64>, e: CohortEntry) -> u64 {
    if prev.dom().contains(e.id) {
        monus(e.load_sum as int, prev[e.id] as int) as u64
    } else {
        0
    }
}

pub open spec fn snapshot_of(prev: Map<u64, u64>, e: CohortEntry) -> CohortSnapshot {
    CohortSnapshot {
        id: e.id,
        home_llc: e.home_llc,
        pinned: e.flags & COHORT_PINNED != 0,
        nr_tasks: e.nr_tasks,
        load_ns: load_since(prev, e),
        residency_ms: e.residency_ms,
    }
}

/// Snapshots of the live cohorts among the first `n` entries.
pub open spec fn snapshots(
    prev: Map<u64, u64>,
    entries: Seq<CohortEntry>,
    n: int,
) -> Seq<CohortSnapshot>
    decreases n,
{
    if n <= 0 {
        seq![]
    } else if is_live(entries[n - 1]) {
        snapshots(prev, entries, n - 1).push(snapshot_of(prev, entries[n - 1]))
    } else {
        snapshots(prev, entries, n - 1)
    }
}

/// The dead cohorts among the first `n` entries.
pub open spec fn dead_ids(entries: Seq<CohortEntry>, n: int) -> Seq<u64>
    decreases n,
{
    if n <= 0 {
        seq![]
    } else if is_live(entries[n - 1]) {
        dead_ids(entries, n - 1)
    } else {
        dead_ids(entries, n - 1).push(entries[n - 1].id)
    }
}

/// The runtime sums of the live cohorts among the first `n` entries.
pub open spec fn load_sums(entries: Seq<CohortEntry>, n: int) -> Map<u64, u64>
    decreases n,
{
    if n <= 0 {
        Map::empty()
    } else if is_live(entries[n - 1]) {
        load_sums(entries, n - 1).insert(entries[n - 1].id, entries[n - 1].load_sum)
    } else {
        load_sums(entries, n - 1)
    }
}

/// A live entry has the id.
pub open spec fn lives(entries: Seq<CohortEntry>, id: u64) -> bool {
    load_sums(entries, entries.len() as int).dom().contains(id)
}

/// The move timestamps of the cohorts that still live.
pub open spec fn kept_stamps(last: Map<u64, u64>, entries: Seq<CohortEntry>) -> Map<u64, u64> {
    Map::new(|id: u64| last.dom().contains(id) && lives(entries, id), |id: u64| last[id])
}

/// The scheduler after a scan.
pub open spec fn after_scan(s: SchedulerState, entries: Seq<CohortEntry>) -> SchedulerState {
    SchedulerState {
        balancer: BalancerState {
            last_move_at: kept_stamps(s.balancer.last_move_at, entries),
            ..s.balancer
        },
        prev_load_sum: load_sums(entries, entries.len() as int),
        ..s
    }
}

// ---- Loads ----

/// The load of the cohorts homed on the LLC.
pub open spec fn homed_load(cohorts: Seq<CohortSnapshot>, llc: u32) -> int {
    total(
        cohorts.len() as int,
        |i: int|
            if cohorts[i].home_llc == llc {
                cohorts[i].load_ns as int
            } else {
                0
            },
    )
}

/// The load and capacity of an LLC.
pub open spec fn load_of(s: SchedulerState, cohorts: Seq<CohortSnapshot>, llc: u32) -> LlcLoad {
    LlcLoad {
        llc,
        load_ns: homed_load(cohorts, llc) as u64,
        capacity_ns: (s.llc_cpus[llc] * s.tick_ns) as u64,
    }
}

/// The load and capacity of each LLC, in order of the ids.
pub open spec fn loads_of(s: SchedulerState, cohorts: Seq<CohortSnapshot>) -> Seq<LlcLoad> {
    let ids = ids_in_order(s.llc_cpus.dom());
    Seq::new(ids.len(), |i: int| load_of(s, cohorts, ids[i]))
}

/// The load and capacity of the LLC fit in 64 bits.
pub open spec fn load_fits(s: SchedulerState, cohorts: Seq<CohortSnapshot>, llc: u32) -> bool {
    &&& homed_load(cohorts, llc) <= u64::MAX
    &&& s.llc_cpus[llc] * s.tick_ns <= u64::MAX
}

/// Loads and capacities fit in 64 bits.
pub open spec fn loads_fit(s: SchedulerState, cohorts: Seq<CohortSnapshot>) -> bool {
    forall|llc: u32| #[trigger] s.llc_cpus.dom().contains(llc) ==> load_fits(s, cohorts, llc)
}

/// The loads are one per LLC, in strictly increasing order of the ids.
pub open spec fn one_per_llc(s: SchedulerState, loads: Seq<LlcLoad>) -> bool {
    &&& forall|i: int, j: int|
        0 <= i < j < loads.len() ==> (#[trigger] loads[i]).llc < (#[trigger] loads[j]).llc
    &&& forall|i: int| 0 <= i < loads.len() ==> s.llc_cpus.dom().contains((#[trigger] loads[i]).llc)
    &&& forall|llc: u32| #[trigger]
        s.llc_cpus.dom().contains(llc) ==> exists|i: int|
            0 <= i < loads.len() && (#[trigger] loads[i]).llc == llc
}

/// What the tick sees of the cohorts.
pub open spec fn tick_cohorts(s: SchedulerState, entries: Seq<CohortEntry>) -> Seq<CohortSnapshot> {
    snapshots(s.prev_load_sum, entries, entries.len() as int)
}

/// What the tick sees of the LLCs.
pub open spec fn tick_loads(s: SchedulerState, entries: Seq<CohortEntry>) -> Seq<LlcLoad> {
    loads_of(s, tick_cohorts(s, entries))
}

/// The tick's arithmetic stays within machine integers.
pub open spec fn tick_fits(s: SchedulerState, entries: Seq<CohortEntry>) -> bool {
    loads_fit(s, tick_cohorts(s, entries)) && plan_fits(s.balancer, tick_loads(s, entries))
}

/// A plain condition under which the tick's arithmetic fits.
pub open spec fn tick_plainly_fits(s: SchedulerState, entries: Seq<CohortEntry>) -> bool {
    loads_fit(s, tick_cohorts(s, entries)) && plainly_fits(s.balancer, tick_loads(s, entries))
}

/// Snapshots of the live cohorts.
fn take_snapshots(prev_load_sum: &HashMap<u64, u64>, entries: &[CohortEntry]) -> (cohorts: Vec<
    CohortSnapshot,
>)
    ensures
        cohorts@ == snapshots(prev_load_sum@, entries@, entries@.len() as int),
{
    let mut cohorts: Vec<CohortSnapshot> = Vec::new();
    let mut i: usize = 0;
    while i < entries.len()
        invariant
            i <= entries@.len(),
            cohorts@ == snapshots(prev_load_sum@, entries@, i as int),
        decreases entries@.len() - i,
    {
        let e = entries[i];
        if e.nr_tasks != 0 {
            let load_ns: u64 = match prev_load_sum.get(&e.id) {
                Some(prev) => e.load_sum.saturating_sub(*prev),
                None => 0,
            };
            cohorts.push(
                CohortSnapshot {
                    id: e.id,
                    home_llc: e.home_llc,
                    pinned: e.flags & COHORT_PINNED != 0,
                    nr_tasks: e.nr_tasks,
                    load_ns,
                    residency_ms: e.residency_ms,
                },
            );
        }
        i = i + 1;
    }
    cohorts
}

/// Sums the load homed on an LLC, if it fits.
fn try_sum_homed(cohorts: &[CohortSnapshot], llc: u32) -> (load: Option<u64>)
    ensures
        match load {
            Some(load) => load == homed_load(cohorts@, llc),
            None => homed_load(cohorts@, llc) > u64::MAX,
        },
{
    let ghost n = cohorts@.len() as int;
    let ghost f = |i: int|
        if cohorts@[i].home_llc == llc {
            cohorts@[i].load_ns as int
        } else {
            0
        };
    let mut load: u64 = 0;
    let mut i: usize = 0;
    while i < cohorts.len()
        invariant
            i <= n,
            n == cohorts@.len(),
            f == (|i: int|
                if cohorts@[i].home_llc == llc {
                    cohorts@[i].load_ns as int
                } else {
                    0
                }),
            load == total(i as int, f),
        decreases n - i,
    {
        proof {
            lemma_total_monotone(i + 1, n, f);
        }
        if cohorts[i].home_llc == llc {
            match load.checked_add(cohorts[i].load_ns) {
                Some(sum) => {
                    load = sum;
                },
                None => {
                    return None;
                },
            }
        }
        i = i + 1;
    }
    Some(load)
}

impl Scheduler {
    pub fn new(cfg: BalancerCfg, llc_cpus: BTreeMap<u32, u64>, tick_ns: u64) -> (s: Self)
        ensures
            s@ == (SchedulerState {
                balancer: BalancerState { cfg, last_move_at: Map::empty(), streak: 0 },
                llc_cpus: llc_cpus@,
                tick_ns,
                prev_load_sum: Map::empty(),
            }),
    {
        Scheduler { balancer: Balancer::new(cfg), llc_cpus, tick_ns, prev_load_sum: HashMap::new() }
    }

    /// Snapshot the cohort map, computing per-tick load deltas, and pick out
    /// empty cohorts along the way.
    pub fn snapshot_cohorts(&mut self, entries: &[CohortEntry]) -> (scan: Scan)
        ensures
            scan.cohorts@ == tick_cohorts(old(self)@, entries@),
            scan.dead@ == dead_ids(entries@, entries@.len() as int),
            final(self)@ == after_scan(old(self)@, entries@),
    {
        let ghost start = self@;
        let cohorts = take_snapshots(&self.prev_load_sum, entries);
        let mut dead: Vec<u64> = Vec::new();
        let mut seen: HashMap<u64, u64> = HashMap::new();
        let mut live: HashSet<u64> = HashSet::new();
        let mut i: usize = 0;
        while i < entries.len()
            invariant
                i <= entries@.len(),
                self@ == start,
                dead@ == dead_ids(entries@, i as int),
                seen@ == load_sums(entries@, i as int),
                live@ == seen@.dom(),
            decreases entries@.len() - i,
        {
            let e = entries[i];
            if e.nr_tasks == 0 {
                dead.push(e.id);
            } else {
                seen.insert(e.id, e.load_sum);
                live.insert(e.id);
                assert(live@ =~= seen@.dom());
            }
            i = i + 1;
        }
        let still = |id: u64| -> (yes: bool)
            ensures
                yes == live@.contains(id),
            { live.contains(&id) };
        self.balancer.retain_cohorts(still);
        self.prev_load_sum = seen;
        proof {
            let kept = kept_stamps(start.balancer.last_move_at, entries@);
            assert forall|id: u64| #[trigger]
                self.balancer@.last_move_at.dom().contains(id) <==> kept.dom().contains(id) by {
                assert(self.balancer@.last_move_at.contains_key(id) ==> call_ensures(
                    still,
                    (id,),
                    true,
                ));
                assert(start.balancer.last_move_at.contains_key(id)
                    && !self.balancer@.last_move_at.contains_key(id) ==> call_ensures(
                    still,
                    (id,),
                    false,
                ));
            }
            assert(self.balancer@.last_move_at =~= kept);
        }
        Scan { cohorts, dead }
    }

    /// The load homed on each LLC, and the most it could have carried; nothing
    /// if they do not fit.
    fn try_llc_loads(&self, cohorts: &[CohortSnapshot]) -> (llcs: Option<Vec<LlcLoad>>)
        ensures
            match llcs {
                Some(llcs) => loads_fit(self@, cohorts@) && llcs@ == loads_of(self@, cohorts@),
                None => !loads_fit(self@, cohorts@),
            },
    {
        let ids = sorted_ids(&self.llc_cpus);
        let mut llcs: Vec<LlcLoad> = Vec::new();
        let mut i: usize = 0;
        while i < ids.len()
            invariant
                i <= ids@.len(),
                lists_ids(ids@, self@.llc_cpus.dom()),
                ids@ == ids_in_order(self@.llc_cpus.dom()),
                forall|k: int| 0 <= k < i ==> load_fits(self@, cohorts@, #[trigger] ids@[k]),
                llcs@ =~= loads_of(self@, cohorts@).take(i as int),
            decreases ids@.len() - i,
        {
            let llc: u32 = ids[i];
            assert(ids@.contains(llc));
            assert(self@.llc_cpus.dom().contains(llc));
            let cpus: u64 = match self.llc_cpus.get(&llc) {
                Some(cpus) => *cpus,
                None => 0,
            };
            match (try_sum_homed(cohorts, llc), cpus.checked_mul(self.tick_ns)) {
                (Some(load_ns), Some(capacity_ns)) => {
                    llcs.push(LlcLoad { llc, load_ns, capacity_ns });
                },
                _ => {
                    assert(!load_fits(self@, cohorts@, llc));
                    return None;
                },
            }
            i = i + 1;
        }
        assert forall|llc: u32| #[trigger] self@.llc_cpus.dom().contains(llc) implies load_fits(
            self@,
            cohorts@,
            llc,
        ) by {
            assert(ids@.contains(llc));
        }
        Some(llcs)
    }

    /// The load homed on each LLC, and the most it could have carried, in
    /// order of the ids.
    pub fn llc_loads(&self, cohorts: &[CohortSnapshot]) -> (llcs: Vec<LlcLoad>)
        requires
            loads_fit(self@, cohorts@),
        ensures
            llcs@ == loads_of(self@, cohorts@),
            one_per_llc(self@, llcs@),
    {
        proof {
            law_loads_come_in_order(self@, cohorts@);
        }
        match self.try_llc_loads(cohorts) {
            Some(llcs) => llcs,
            None => Vec::new(),
        }
    }

    /// Whether the arithmetic of a tick over these entries plainly fits.
    pub fn has_room(&self, entries: &[CohortEntry]) -> (yes: bool)
        ensures
            yes == tick_plainly_fits(self@, entries@),
            yes ==> tick_fits(self@, entries@),
    {
        let cohorts = take_snapshots(&self.prev_load_sum, entries);
        match self.try_llc_loads(&cohorts) {
            Some(llcs) => self.balancer.has_room(&llcs),
            None => false,
        }
    }

    /// One tick: snapshot, loads, moves.
    pub fn tick(&mut self, now_ms: u64, entries: &[CohortEntry]) -> (plan: TickPlan)
        requires
            tick_fits(old(self)@, entries@),
        ensures
            plan.cohorts@ == tick_cohorts(old(self)@, entries@),
            plan.dead@ == dead_ids(entries@, entries@.len() as int),
            plan.llcs@ == tick_loads(old(self)@, entries@),
            one_per_llc(old(self)@, plan.llcs@),
            plan.moves@ == planned(
                after_scan(old(self)@, entries@).balancer,
                now_ms,
                plan.llcs@,
                plan.cohorts@,
            ),
            final(self)@ == (SchedulerState {
                balancer: after_plan(
                    after_scan(old(self)@, entries@).balancer,
                    now_ms,
                    plan.llcs@,
                    plan.cohorts@,
                ),
                ..after_scan(old(self)@, entries@)
            }),
    {
        let scan = self.snapshot_cohorts(entries);
        let llcs = self.llc_loads(&scan.cohorts);
        assert(llcs@ =~= tick_loads(old(self)@, entries@));
        let moves = self.balancer.plan(now_ms, &llcs, &scan.cohorts);
        TickPlan { cohorts: scan.cohorts, dead: scan.dead, llcs, moves }
    }
}

// ---- Map upkeep ----

/// The tgids among the first `n` whose cohort is gone.
pub open spec fn stale_of(tgids: Seq<(u32, u64)>, existing: Set<u64>, n: int) -> Seq<u32>
    decreases n,
{
    if n <= 0 {
        seq![]
    } else if existing.contains(tgids[n - 1].1) {
        stale_of(tgids, existing, n - 1)
    } else {
        stale_of(tgids, existing, n - 1).push(tgids[n - 1].0)
    }
}

/// The tgid entries to drop: those whose cohort no longer exists, so a
/// recycled tgid can't resurrect a dead cohort.
pub fn stale_tgids(tgids: &[(u32, u64)], existing: &HashSet<u64>) -> (stale: Vec<u32>)
    ensures
        stale@ == stale_of(tgids@, existing@, tgids@.len() as int),
{
    let mut stale: Vec<u32> = Vec::new();
    let mut i: usize = 0;
    while i < tgids.len()
        invariant
            i <= tgids@.len(),
            stale@ == stale_of(tgids@, existing@, i as int),
        decreases tgids@.len() - i,
    {
        let (tgid, cohort) = tgids[i];
        if !existing.contains(&cohort) {
            stale.push(tgid);
        }
        i = i + 1;
    }
    stale
}

/// The tgids among the first `n` that belong to the cohort.
pub open spec fn belonging(tgids: Seq<(u32, u64)>, cohort: u64, n: int) -> Seq<u32>
    decreases n,
{
    if n <= 0 {
        seq![]
    } else if tgids[n - 1].1 == cohort {
        belonging(tgids, cohort, n - 1).push(tgids[n - 1].0)
    } else {
        belonging(tgids, cohort, n - 1)
    }
}

/// The tgids that belong to a cohort, which a merge hands over.
pub fn tgids_of(tgids: &[(u32, u64)], cohort: u64) -> (own: Vec<u32>)
    ensures
        own@ == belonging(tgids@, cohort, tgids@.len() as int),
{
    let mut own: Vec<u32> = Vec::new();
    let mut i: usize = 0;
    while i < tgids.len()
        invariant
            i <= tgids@.len(),
            own@ == belonging(tgids@, cohort, i as int),
        decreases tgids@.len() - i,
    {
        if tgids[i].1 == cohort {
            own.push(tgids[i].0);
        }
        i = i + 1;
    }
    own
}

/// The policy of a cohort that a rule nails to an LLC.
pub fn pinned_to(llc: u32) -> (policy: CohortPolicy)
    ensures
        policy == (CohortPolicy { home_llc: llc, flags: COHORT_PINNED }),
{
    CohortPolicy { home_llc: llc, flags: COHORT_PINNED }
}

/// The policy of a cohort that is sent to another home.
pub fn rehomed(policy: CohortPolicy, to: u32) -> (moved: CohortPolicy)
    ensures
        moved == (CohortPolicy { home_llc: to, ..policy }),
{
    CohortPolicy { home_llc: to, flags: policy.flags }
}

/// The sum of a counter's per-CPU values.
pub open spec fn counter_sum(per_cpu: Seq<u64>) -> int {
    total(per_cpu.len() as int, |i: int| per_cpu[i] as int)
}

/// Sums a counter over the CPUs.
pub fn sum_counter(per_cpu: &[u64]) -> (sum: u64)
    requires
        counter_sum(per_cpu@) <= u64::MAX,
    ensures
        sum == counter_sum(per_cpu@),
{
    let ghost f = |i: int| per_cpu@[i] as int;
    let mut sum: u64 = 0;
    let mut i: usize = 0;
    while i < per_cpu.len()
        invariant
            i <= per_cpu@.len(),
            f == (|i: int| per_cpu@[i] as int),
            sum == total(i as int, f),
            total(per_cpu@.len() as int, f) <= u64::MAX,
        decreases per_cpu@.len() - i,
    {
        proof {
            lemma_total_monotone(i + 1, per_cpu@.len() as int, f);
        }
        sum = sum + per_cpu[i];
        i = i + 1;
    }
    sum
}

// ---- Laws ----

/// Every LLC has one load, and they come in strictly increasing order of the
/// ids.
pub proof fn law_loads_come_in_order(s: SchedulerState, cohorts: Seq<CohortSnapshot>)
    ensures
        one_per_llc(s, loads_of(s, cohorts)),
{
    let ids = ids_in_order(s.llc_cpus.dom());
    let loads = loads_of(s, cohorts);
    lemma_ids_in_order(s.llc_cpus.dom());
    assert forall|i: int| 0 <= i < loads.len() implies s.llc_cpus.dom().contains(
        (#[trigger] loads[i]).llc,
    ) by {
        assert(ids.contains(ids[i]));
    }
    assert forall|llc: u32| #[trigger] s.llc_cpus.dom().contains(llc) implies exists|i: int|
        0 <= i < loads.len() && (#[trigger] loads[i]).llc == llc by {
        assert(ids.contains(llc));
        let i = choose|i: int| 0 <= i < ids.len() && ids[i] == llc;
        assert(loads[i].llc == llc);
    }
}

/// A cohort's first sighting carries no load: there is nothing to diff.
pub proof fn law_first_sighting_carries_no_load(prev: Map<u64, u64>, e: CohortEntry)
    requires
        !prev.dom().contains(e.id),
    ensures
        snapshot_of(prev, e).load_ns == 0,
{
}

/// A snapshot comes from a live entry.
proof fn lemma_snapshot_source(
    prev: Map<u64, u64>,
    entries: Seq<CohortEntry>,
    n: int,
    k: int,
) -> (m: int)
    requires
        0 <= k < snapshots(prev, entries, n).len(),
        n <= entries.len(),
    ensures
        0 <= m < n,
        is_live(entries[m]),
        snapshots(prev, entries, n)[k] == snapshot_of(prev, entries[m]),
    decreases n,
{
    if is_live(entries[n - 1]) && k == snapshots(prev, entries, n).len() - 1 {
        n - 1
    } else {
        lemma_snapshot_source(prev, entries, n - 1, k)
    }
}

proof fn lemma_lives(entries: Seq<CohortEntry>, n: int, id: u64)
    requires
        0 <= n <= entries.len(),
    ensures
        load_sums(entries, n).dom().contains(id) <==> exists|i: int|
            0 <= i < n && is_live(#[trigger] entries[i]) && entries[i].id == id,
    decreases n,
{
    if n > 0 {
        lemma_lives(entries, n - 1, id);
    }
}

/// A dead cohort leaves no trace: without a live entry of its id it is not
/// balanced, and neither its runtime nor its move timestamp is remembered.
pub proof fn law_dead_cohorts_are_forgotten(
    s: SchedulerState,
    entries: Seq<CohortEntry>,
    id: u64,
)
    requires
        forall|i: int| 0 <= i < entries.len() && (#[trigger] entries[i]).id == id ==> !is_live(
            entries[i],
        ),
    ensures
        !after_scan(s, entries).prev_load_sum.dom().contains(id),
        !after_scan(s, entries).balancer.last_move_at.dom().contains(id),
        forall|k: int|
            0 <= k < tick_cohorts(s, entries).len() ==> (#[trigger] tick_cohorts(s, entries)[k]).id
                != id,
{
    let n = entries.len() as int;
    lemma_lives(entries, n, id);
    assert forall|k: int| 0 <= k < tick_cohorts(s, entries).len() implies (
    #[trigger] tick_cohorts(s, entries)[k]).id != id by {
        let m = lemma_snapshot_source(s.prev_load_sum, entries, n, k);
    }
}

/// A cohort that lives on keeps its move timestamp, so its immunity holds
/// from tick to tick.
pub proof fn law_living_cohorts_keep_their_stamp(
    s: SchedulerState,
    entries: Seq<CohortEntry>,
    i: int,
)
    requires
        0 <= i < entries.len(),
        is_live(entries[i]),
        s.balancer.last_move_at.dom().contains(entries[i].id),
    ensures
        after_scan(s, entries).balancer.last_move_at.dom().contains(entries[i].id),
        after_scan(s, entries).balancer.last_move_at[entries[i].id]
            == s.balancer.last_move_at[entries[i].id],
{
    lemma_lives(entries, entries.len() as int, entries[i].id);
}

/// Over two ticks, a living cohort's load is what its runtime sum grew by.
pub proof fn law_loads_are_differences(
    s: SchedulerState,
    first: Seq<CohortEntry>,
    e: CohortEntry,
    i: int,
)
    requires
        0 <= i < first.len(),
        is_live(first[i]),
        first[i].id == e.id,
        forall|j: int| 0 <= j < first.len() && (#[trigger] first[j]).id == e.id ==> j == i,
        e.load_sum >= first[i].load_sum,
    ensures
        first[i].load_sum + load_since(after_scan(s, first).prev_load_sum, e) == e.load_sum,
{
    lemma_last_sum(first, first.len() as int, i);
}

proof fn lemma_last_sum(entries: Seq<CohortEntry>, n: int, i: int)
    requires
        0 <= i < n <= entries.len(),
        is_live(entries[i]),
        forall|j: int| 0 <= j < entries.len() && (#[trigger] entries[j]).id == entries[i].id ==> j
            == i,
    ensures
        load_sums(entries, n).dom().contains(entries[i].id),
        load_sums(entries, n)[entries[i].id] == entries[i].load_sum,
    decreases n,
{
    if i < n - 1 {
        lemma_last_sum(entries, n - 1, i);
        assert(entries[n - 1].id != entries[i].id);
    }
}

/// Only tgids whose cohort is gone are dropped.
pub proof fn law_only_stale_tgids_go(tgids: Seq<(u32, u64)>, existing: Set<u64>, n: int, k: int)
    requires
        0 <= n <= tgids.len(),
        0 <= k < stale_of(tgids, existing, n).len(),
    ensures
        exists|i: int|
            0 <= i < n && (#[trigger] tgids[i]).0 == stale_of(tgids, existing, n)[k]
                && !existing.contains(tgids[i].1),
    decreases n,
{
    if n > 0 {
        if !existing.contains(tgids[n - 1].1) && k == stale_of(tgids, existing, n).len() - 1 {
            assert(tgids[n - 1].0 == stale_of(tgids, existing, n)[k]);
        } else {
            law_only_stale_tgids_go(tgids, existing, n - 1, k);
        }
    }
}

/// Every tgid whose cohort is gone is dropped.
pub proof fn law_stale_tgids_go(tgids: Seq<(u32, u64)>, existing: Set<u64>, n: int, i: int)
    requires
        0 <= i < n <= tgids.len(),
        !existing.contains(tgids[i].1),
    ensures
        stale_of(tgids, existing, n).contains(tgids[i].0),
    decreases n,
{
    let whole = stale_of(tgids, existing, n);
    let part = stale_of(tgids, existing, n - 1);
    if i == n - 1 {
        assert(whole[whole.len() - 1] == tgids[i].0);
    } else {
        law_stale_tgids_go(tgids, existing, n - 1, i);
        let k = choose|k: int| 0 <= k < part.len() && part[k] == tgids[i].0;
        assert(whole[k] == tgids[i].0);
    }
}

} // verus!
