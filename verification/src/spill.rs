//! Spill handling for cohorts whose demand exceeds one LLC: cold members run
//! remotely first, and when that isn't enough the hottest CPU-bound members
//! are exiled too, until home demand fits. Selection is sticky:
//! already-spilled tasks stay chosen while the overload lasts, so the *same*
//! threads stay remote instead of the whole cohort churning across the
//! boundary. Growth is bounded by what the destination can absorb, and
//! members that burned nothing are never exiled: together those keep an
//! oversized cohort from emptying its home into an already-saturated
//! neighbour.
use std::collections::{HashMap, HashSet};

use vstd::prelude::*;

use crate::arith::{lemma_total_change_one, lemma_total_ext, lemma_total_le, lemma_total_monotone, lemma_total_nonneg, lemma_total_zero, total};
use crate::domain::{CohortSnapshot, LlcLoad, TaskSnapshot};

verus! {

#[derive(Debug, Clone, Copy)]
pub struct SpillCfg {
    /// A cohort spills when its load exceeds this percentage of its home
    /// LLC's capacity...
    pub high_pct: u64,
    /// ...and unspills entirely when it drops below this percentage
    /// (hysteresis gap).
    pub low_pct: u64,
    /// Members below this percentage of one CPU's tick time are "cold":
    /// they spill first, coldest-first, at near-zero cost. If shedding
    /// every cold member still leaves the home overloaded, hot members
    /// spill too, hottest-first, because a CPU-bound thread rarely sleeps
    /// on cohort mates and so pays the least for remoteness, while
    /// often-waking latency-sensitive threads (which sort colder) keep the
    /// home L3.
    pub cold_max_pct: u64,
    /// One CPU's worth of runtime per tick, for the cold ceiling.
    pub tick_ns: u64,
}

impl Default for SpillCfg {
    fn default() -> (cfg: Self)
        ensures
            cfg.high_pct == 95,
            cfg.low_pct == 75,
            cfg.cold_max_pct == 25,
            cfg.tick_ns == 200_000_000,
    {
        Self { high_pct: 95, low_pct: 75, cold_max_pct: 25, tick_ns: 200_000_000 }
    }
}

// ---- What one tick's spill planning means ----

/// What one tick's spill planning reads, apart from the cohorts.
pub struct SpillTick {
    pub cfg: SpillCfg,
    pub llcs: Seq<LlcLoad>,
    pub tasks: Seq<TaskSnapshot>,
    /// pid -> LLC of every task spilled so far.
    pub current: Map<u32, u32>,
}

/// `pct` percent of a capacity.
pub open spec fn mark(capacity_ns: u64, pct: u64) -> int {
    capacity_ns * pct / 100
}

/// The capacity of an LLC: that of the last entry that names it.
pub open spec fn capacity_of(llcs: Seq<LlcLoad>, llc: u32) -> Option<u64>
    decreases llcs.len(),
{
    if llcs.len() == 0 {
        None
    } else if llcs.last().llc == llc {
        Some(llcs.last().capacity_ns)
    } else {
        capacity_of(llcs.drop_last(), llc)
    }
}

/// `pid` is a member of cohort `c` that is already spilled.
pub open spec fn already(s: SpillTick, c: CohortSnapshot, pid: u32) -> bool {
    &&& s.current.contains_key(pid)
    &&& exists|i: int|
        0 <= i < s.tasks.len() && (#[trigger] s.tasks[i]).pid == pid && s.tasks[i].cohort_id == c.id
}

/// The runtime of the members that are already away.
pub open spec fn spilled_duty(s: SpillTick, c: CohortSnapshot) -> int {
    total(
        s.tasks.len() as int,
        |i: int|
            if already(s, c, s.tasks[i].pid) {
                s.tasks[i].duty_ns as int
            } else {
                0
            },
    )
}

/// The demand that is still at home.
pub open spec fn home_load(s: SpillTick, c: CohortSnapshot) -> int {
    if c.load_ns >= spilled_duty(s, c) {
        c.load_ns - spilled_duty(s, c)
    } else {
        0
    }
}

/// The load promised to an LLC by the cohorts planned so far.
pub open spec fn promised(planned: Map<u32, int>, llc: u32) -> int {
    if planned.contains_key(llc) {
        planned[llc]
    } else {
        0
    }
}

/// An LLC's load with what has been promised to it.
pub open spec fn promised_load(l: LlcLoad, planned: Map<u32, int>) -> int {
    l.load_ns + promised(planned, l.llc)
}

/// Entry `d` is the least loaded LLC other than the cohort's home, promises
/// included, the first of them on a tie.
pub open spec fn is_destination(
    s: SpillTick,
    c: CohortSnapshot,
    planned: Map<u32, int>,
    d: int,
) -> bool {
    &&& 0 <= d < s.llcs.len()
    &&& s.llcs[d].llc != c.home_llc
    &&& forall|j: int|
        0 <= j < s.llcs.len() && (#[trigger] s.llcs[j]).llc != c.home_llc ==> promised_load(
            s.llcs[d],
            planned,
        ) <= promised_load(s.llcs[j], planned)
    &&& forall|j: int|
        0 <= j < d && (#[trigger] s.llcs[j]).llc != c.home_llc ==> promised_load(
            s.llcs[d],
            planned,
        ) < promised_load(s.llcs[j], planned)
}

/// What an LLC can still absorb below its own high mark.
pub open spec fn headroom(s: SpillTick, planned: Map<u32, int>, d: int) -> int {
    let high = mark(s.llcs[d].capacity_ns, s.cfg.high_pct);
    if high >= promised_load(s.llcs[d], planned) {
        high - promised_load(s.llcs[d], planned)
    } else {
        0
    }
}

/// Task `i` may be exiled: a member of the cohort with a known duty that is
/// not away yet.
pub open spec fn may_spill(s: SpillTick, c: CohortSnapshot, i: int) -> bool {
    &&& 0 <= i < s.tasks.len()
    &&& s.tasks[i].cohort_id == c.id
    &&& s.tasks[i].duty_known
    &&& !already(s, c, s.tasks[i].pid)
}

/// The duty below which a member counts as cold.
pub open spec fn cold_ceiling(cfg: SpillCfg) -> int {
    cfg.tick_ns * cfg.cold_max_pct / 100
}

/// Task `i` is exiled before task `j`: cold members before hot ones, the
/// coldest of the cold and the hottest of the hot first, equals in the order
/// given.
pub open spec fn sheds_before(s: SpillTick, i: int, j: int) -> bool {
    let (a, b) = (s.tasks[i].duty_ns, s.tasks[j].duty_ns);
    let ceiling = cold_ceiling(s.cfg);
    if a < ceiling {
        b >= ceiling || a < b || (a == b && i < j)
    } else {
        b >= ceiling && (a > b || (a == b && i < j))
    }
}

/// The runtime that is shed before task `i` gets its turn.
pub open spec fn shed_before(s: SpillTick, c: CohortSnapshot, i: int) -> int {
    total(
        s.tasks.len() as int,
        |j: int|
            if may_spill(s, c, j) && sheds_before(s, j, i) {
                s.tasks[j].duty_ns as int
            } else {
                0
            },
    )
}

/// Task `i` is exiled: it burned something, and what leaves before it does
/// not cover the excess.
pub open spec fn exiled(s: SpillTick, c: CohortSnapshot, excess: int, i: int) -> bool {
    &&& may_spill(s, c, i)
    &&& s.tasks[i].duty_ns > 0
    &&& shed_before(s, c, i) < excess
}

/// The runtime that leaves with the exiled tasks.
pub open spec fn shed(s: SpillTick, c: CohortSnapshot, excess: int) -> int {
    total(
        s.tasks.len() as int,
        |i: int|
            if exiled(s, c, excess, i) {
                s.tasks[i].duty_ns as int
            } else {
                0
            },
    )
}

/// The planning state: where each spilled task goes, and the load promised
/// to each LLC.
#[verifier::ext_equal]
pub struct SpillPlan {
    pub desired: Map<u32, u32>,
    pub planned: Map<u32, int>,
}

/// New exiles of one cohort: `excess` nanoseconds are to leave for `target`.
pub struct Growth {
    pub target: u32,
    pub excess: int,
}

/// The cohort's demand keeps its spill set alive.
pub open spec fn keeps_spills(s: SpillTick, c: CohortSnapshot) -> bool {
    match capacity_of(s.llcs, c.home_llc) {
        None => false,
        Some(cap) => c.load_ns >= mark(cap, s.cfg.low_pct),
    }
}

/// The demand left at home reaches the high mark.
pub open spec fn overloaded(s: SpillTick, c: CohortSnapshot) -> bool {
    match capacity_of(s.llcs, c.home_llc) {
        None => false,
        Some(cap) => home_load(s, c) >= mark(cap, s.cfg.high_pct),
    }
}

/// The home demand above the high mark.
pub open spec fn demand_over_mark(s: SpillTick, c: CohortSnapshot) -> int {
    home_load(s, c) - mark(capacity_of(s.llcs, c.home_llc)->0, s.cfg.high_pct)
}

/// How the cohort's spill set grows, if it does: towards the least loaded
/// other LLC, as long as that has room, by what exceeds the high mark but no
/// more than the room.
pub open spec fn growth(s: SpillTick, c: CohortSnapshot, planned: Map<u32, int>) -> Option<Growth> {
    if keeps_spills(s, c) && overloaded(s, c) && exists|d: int| is_destination(s, c, planned, d) {
        let d = choose|d: int| is_destination(s, c, planned, d);
        let room = headroom(s, planned, d);
        if room == 0 {
            None
        } else if demand_over_mark(s, c) <= room {
            Some(Growth { target: s.llcs[d].llc, excess: demand_over_mark(s, c) })
        } else {
            Some(Growth { target: s.llcs[d].llc, excess: room })
        }
    } else {
        None
    }
}

/// Some exiled task has this pid.
pub open spec fn exiled_pid(s: SpillTick, c: CohortSnapshot, excess: int, pid: u32) -> bool {
    exists|i: int| #[trigger] exiled(s, c, excess, i) && s.tasks[i].pid == pid
}

/// Where one cohort's planning sends a task, if it decides about it.
pub open spec fn placement(
    s: SpillTick,
    c: CohortSnapshot,
    planned: Map<u32, int>,
    pid: u32,
) -> Option<u32> {
    match growth(s, c, planned) {
        Some(g) if exiled_pid(s, c, g.excess, pid) => Some(g.target),
        _ => if keeps_spills(s, c) && already(s, c, pid) {
            Some(s.current[pid])
        } else {
            None
        },
    }
}

/// The plan once one more cohort has been planned.
pub open spec fn spill_step(s: SpillTick, c: CohortSnapshot, p: SpillPlan) -> SpillPlan {
    SpillPlan {
        desired: Map::new(
            |pid: u32| p.desired.contains_key(pid) || placement(s, c, p.planned, pid) is Some,
            |pid: u32|
                match placement(s, c, p.planned, pid) {
                    Some(llc) => llc,
                    None => p.desired[pid],
                },
        ),
        planned: match growth(s, c, p.planned) {
            Some(g) => p.planned.insert(
                g.target,
                promised(p.planned, g.target) + shed(s, c, g.excess),
            ),
            None => p.planned,
        },
    }
}

/// The plan for a list of cohorts, taken in order.
pub open spec fn spill_plan(s: SpillTick, cohorts: Seq<CohortSnapshot>) -> SpillPlan
    decreases cohorts.len(),
{
    if cohorts.len() == 0 {
        SpillPlan { desired: Map::empty(), planned: Map::empty() }
    } else {
        spill_step(s, cohorts.last(), spill_plan(s, cohorts.drop_last()))
    }
}

/// The complete desired pid -> LLC set of one tick.
pub open spec fn desired_spills(s: SpillTick, cohorts: Seq<CohortSnapshot>) -> Map<u32, u32> {
    if s.llcs.len() < 2 {
        Map::empty()
    } else {
        spill_plan(s, cohorts).desired
    }
}

/// The runtime of all tasks.
pub open spec fn total_duty(tasks: Seq<TaskSnapshot>) -> int {
    total(tasks.len() as int, |i: int| tasks[i].duty_ns as int)
}

/// The nanosecond arithmetic of one tick stays within machine integers.
pub open spec fn spill_fits(s: SpillTick) -> bool {
    s.llcs.len() >= 2 ==> {
        &&& s.cfg.tick_ns * s.cfg.cold_max_pct <= u64::MAX
        &&& forall|i: int|
            0 <= i < s.llcs.len() ==> {
                &&& (#[trigger] s.llcs[i]).capacity_ns * s.cfg.high_pct <= u64::MAX
                &&& s.llcs[i].capacity_ns * s.cfg.low_pct <= u64::MAX
            }
        &&& forall|i: int, j: int|
            0 <= i < s.llcs.len() && 0 <= j < s.llcs.len() ==> (#[trigger] s.llcs[i]).load_ns
                + mark((#[trigger] s.llcs[j]).capacity_ns, s.cfg.high_pct) + total_duty(s.tasks)
                <= u64::MAX
    }
}

// ---- Lemmas ----

pub proof fn lemma_destination_unique(s: SpillTick, c: CohortSnapshot, planned: Map<u32, int>, d: int)
    requires
        is_destination(s, c, planned, d),
    ensures
        (choose|d: int| is_destination(s, c, planned, d)) == d,
{
    let e = choose|d: int| is_destination(s, c, planned, d);
    assert(is_destination(s, c, planned, e));
    assert(s.llcs[d].llc != c.home_llc && s.llcs[e].llc != c.home_llc);
}

/// Entries behind the last one that names an LLC do not matter.
proof fn lemma_capacity_of_take(llcs: Seq<LlcLoad>, n: int, llc: u32)
    requires
        0 <= n <= llcs.len(),
        forall|j: int| n <= j < llcs.len() ==> (#[trigger] llcs[j]).llc != llc,
    ensures
        capacity_of(llcs, llc) == capacity_of(llcs.take(n), llc),
    decreases llcs.len() - n,
{
    if n == llcs.len() {
        assert(llcs.take(n) =~= llcs);
    } else {
        lemma_capacity_of_take(llcs, n + 1, llc);
        assert(llcs.take(n + 1).last() == llcs[n]);
        assert(llcs.take(n + 1).drop_last() =~= llcs.take(n));
    }
}

// ---- Executable code ----

fn find_capacity(llcs: &[LlcLoad], llc: u32) -> (cap: Option<u64>)
    ensures
        cap == capacity_of(llcs@, llc),
        cap matches Some(c) ==> exists|i: int| 0 <= i < llcs@.len() && (#[trigger] llcs@[i]).llc == llc && llcs@[i].capacity_ns == c,
{
    let mut k: usize = llcs.len();
    while k > 0
        invariant
            k <= llcs@.len(),
            forall|j: int| k <= j < llcs@.len() ==> (#[trigger] llcs@[j]).llc != llc,
        decreases k,
    {
        proof {
            lemma_capacity_of_take(llcs@, k as int, llc);
            assert(llcs@.take(k as int).last() == llcs@[k - 1]);
        }
        k = k - 1;
        if llcs[k].llc == llc {
            return Some(llcs[k].capacity_ns);
        }
    }
    proof {
        lemma_capacity_of_take(llcs@, 0, llc);
    }
    None
}

/// The members of a cohort that are already spilled.
fn find_already(s: Ghost<SpillTick>, tasks: &[TaskSnapshot], current: &HashMap<u32, u32>, c: &CohortSnapshot) -> (set: HashSet<u32>)
    requires
        s@.tasks == tasks@,
        s@.current == current@,
    ensures
        forall|pid: u32| #[trigger] set@.contains(pid) <==> already(s@, *c, pid),
{
    let mut set: HashSet<u32> = HashSet::new();
    let mut k: usize = 0;
    while k < tasks.len()
        invariant
            s@.tasks == tasks@,
            s@.current == current@,
            k <= tasks@.len(),
            forall|pid: u32| #[trigger] set@.contains(pid) ==> already(s@, *c, pid),
            forall|i: int|
                0 <= i < k && (#[trigger] tasks@[i]).cohort_id == c.id && current@.contains_key(
                    tasks@[i].pid,
                ) ==> set@.contains(tasks@[i].pid),
        decreases tasks@.len() - k,
    {
        let pid: u32 = tasks[k].pid;
        if tasks[k].cohort_id == c.id && current.contains_key(&pid) {
            assert(s@.tasks[k as int].pid == pid);
            set.insert(pid);
        }
        k = k + 1;
    }
    set
}

fn sum_spilled(s: Ghost<SpillTick>, tasks: &[TaskSnapshot], c: &CohortSnapshot, away: &HashSet<u32>) -> (duty: u64)
    requires
        s@.tasks == tasks@,
        total_duty(tasks@) <= u64::MAX,
        forall|pid: u32| #[trigger] away@.contains(pid) <==> already(s@, *c, pid),
    ensures
        duty == spilled_duty(s@, *c),
{
    let ghost f = |i: int|
        if already(s@, *c, s@.tasks[i].pid) {
            s@.tasks[i].duty_ns as int
        } else {
            0
        };
    let ghost all = |i: int| tasks@[i].duty_ns as int;
    let mut sum: u64 = 0;
    let mut k: usize = 0;
    while k < tasks.len()
        invariant
            s@.tasks == tasks@,
            total(tasks@.len() as int, all) <= u64::MAX,
            all == (|i: int| tasks@[i].duty_ns as int),
            f == (|i: int|
                if already(s@, *c, s@.tasks[i].pid) {
                    s@.tasks[i].duty_ns as int
                } else {
                    0
                }),
            forall|pid: u32| #[trigger] away@.contains(pid) <==> already(s@, *c, pid),
            k <= tasks@.len(),
            sum == total(k as int, f),
        decreases tasks@.len() - k,
    {
        proof {
            lemma_total_le(k + 1, f, all);
            lemma_total_monotone(k + 1, tasks@.len() as int, all);
        }
        if away.contains(&tasks[k].pid) {
            sum = sum + tasks[k].duty_ns;
        }
        k = k + 1;
    }
    sum
}

/// The least loaded LLC other than `home`, promises included.
fn find_destination(
    s: Ghost<SpillTick>,
    llcs: &[LlcLoad],
    c: &CohortSnapshot,
    planned: &HashMap<u32, u64>,
    promises: Ghost<Map<u32, int>>,
) -> (dest: Option<(usize, u64)>)
    requires
        s@.llcs == llcs@,
        forall|llc: u32|
            #[trigger] promised(promises@, llc) == (if planned@.contains_key(llc) {
                planned@[llc] as int
            } else {
                0
            }),
        forall|i: int|
            0 <= i < llcs@.len() ==> promised_load(#[trigger] llcs@[i], promises@) <= u64::MAX,
    ensures
        match dest {
            Some((d, load)) => is_destination(s@, *c, promises@, d as int) && load == promised_load(
                llcs@[d as int],
                promises@,
            ),
            None => forall|d: int| !is_destination(s@, *c, promises@, d),
        },
{
    let mut best: Option<(usize, u64)> = None;
    let mut k: usize = 0;
    while k < llcs.len()
        invariant
            s@.llcs == llcs@,
            k <= llcs@.len(),
            forall|llc: u32|
                #[trigger] promised(promises@, llc) == (if planned@.contains_key(llc) {
                    planned@[llc] as int
                } else {
                    0
                }),
            forall|i: int|
                0 <= i < llcs@.len() ==> promised_load(#[trigger] llcs@[i], promises@) <= u64::MAX,
            match best {
                Some((d, load)) => {
                    &&& 0 <= d < k
                    &&& llcs@[d as int].llc != c.home_llc
                    &&& load == promised_load(llcs@[d as int], promises@)
                    &&& forall|j: int|
                        0 <= j < k && (#[trigger] llcs@[j]).llc != c.home_llc ==> load
                            <= promised_load(llcs@[j], promises@)
                    &&& forall|j: int|
                        0 <= j < d && (#[trigger] llcs@[j]).llc != c.home_llc ==> load
                            < promised_load(llcs@[j], promises@)
                },
                None => forall|j: int| 0 <= j < k ==> (#[trigger] llcs@[j]).llc == c.home_llc,
            },
        decreases llcs@.len() - k,
    {
        let l: LlcLoad = llcs[k];
        if l.llc != c.home_llc {
            assert(promised_load(llcs@[k as int], promises@) <= u64::MAX);
            let extra: u64 = match planned.get(&l.llc) {
                Some(ns) => *ns,
                None => 0,
            };
            assert(extra == promised(promises@, l.llc));
            let load: u64 = l.load_ns + extra;
            match best {
                None => {
                    best = Some((k, load));
                },
                Some((d, least)) => {
                    if load < least {
                        best = Some((k, load));
                    }
                },
            }
        }
        k = k + 1;
    }
    best
}

/// Whether task `i` is exiled before task `j`.
fn goes_first(s: Ghost<SpillTick>, tasks: &[TaskSnapshot], ceiling: u64, i: usize, j: usize) -> (yes: bool)
    requires
        s@.tasks == tasks@,
        ceiling == cold_ceiling(s@.cfg),
        i < tasks@.len(),
        j < tasks@.len(),
    ensures
        yes == sheds_before(s@, i as int, j as int),
{
    let (a, b): (u64, u64) = (tasks[i].duty_ns, tasks[j].duty_ns);
    if a < ceiling {
        b >= ceiling || a < b || (a == b && i < j)
    } else {
        b >= ceiling && (a > b || (a == b && i < j))
    }
}

/// `order` lists distinct tasks in the order in which they are exiled.
spec fn in_shed_order(s: SpillTick, order: Seq<usize>) -> bool {
    &&& forall|a: int| 0 <= a < order.len() ==> (#[trigger] order[a]) < s.tasks.len()
    &&& forall|a: int, b: int|
        0 <= a < b < order.len() ==> sheds_before(
            s,
            (#[trigger] order[a]) as int,
            (#[trigger] order[b]) as int,
        )
}

/// Put task `i` into its place of the order.
fn insert_in_order(
    s: Ghost<SpillTick>,
    tasks: &[TaskSnapshot],
    ceiling: u64,
    order: &mut Vec<usize>,
    i: usize,
)
    requires
        s@.tasks == tasks@,
        ceiling == cold_ceiling(s@.cfg),
        i < tasks@.len(),
        in_shed_order(s@, old(order)@),
        !old(order)@.contains(i),
    ensures
        in_shed_order(s@, final(order)@),
        forall|j: usize| #[trigger]
            final(order)@.contains(j) <==> old(order)@.contains(j) || j == i,
{
    let mut lo: usize = 0;
    let mut hi: usize = order.len();
    while lo < hi
        invariant
            s@.tasks == tasks@,
            ceiling == cold_ceiling(s@.cfg),
            i < tasks@.len(),
            in_shed_order(s@, order@),
            !order@.contains(i),
            0 <= lo <= hi <= order@.len(),
            order@ == old(order)@,
            forall|a: int| 0 <= a < lo ==> sheds_before(s@, (#[trigger] order@[a]) as int, i as int),
            forall|a: int|
                hi <= a < order@.len() ==> sheds_before(s@, i as int, (#[trigger] order@[a]) as int),
        decreases hi - lo,
    {
        let mid: usize = lo + (hi - lo) / 2;
        let m: usize = order[mid];
        assert(order@.contains(m));
        if goes_first(s, tasks, ceiling, m, i) {
            lo = mid + 1;
        } else {
            assert(sheds_before(s@, i as int, m as int));
            hi = mid;
        }
    }
    let ghost before = order@;
    order.insert(lo, i);
    proof {
        assert(order@ =~= before.insert(lo as int, i));
        assert forall|j: usize| #[trigger]
            order@.contains(j) <==> before.contains(j) || j == i by {
            if before.contains(j) {
                let a = choose|a: int| 0 <= a < before.len() && before[a] == j;
                if a < lo {
                    assert(order@[a] == j);
                } else {
                    assert(order@[a + 1] == j);
                }
            }
            if j == i {
                assert(order@[lo as int] == i);
            }
            if order@.contains(j) {
                let a = choose|a: int| 0 <= a < order@.len() && order@[a] == j;
                if a < lo {
                    assert(before[a] == j);
                } else if a > lo {
                    assert(before[a - 1] == j);
                }
            }
        }
    }
}

/// The members that may be exiled, in order.
fn shed_order(
    s: Ghost<SpillTick>,
    tasks: &[TaskSnapshot],
    c: &CohortSnapshot,
    away: &HashSet<u32>,
    ceiling: u64,
) -> (order: Vec<usize>)
    requires
        s@.tasks == tasks@,
        ceiling == cold_ceiling(s@.cfg),
        forall|pid: u32| #[trigger] away@.contains(pid) <==> already(s@, *c, pid),
    ensures
        in_shed_order(s@, order@),
        forall|j: usize| #[trigger] order@.contains(j) <==> may_spill(s@, *c, j as int),
{
    let mut order: Vec<usize> = Vec::new();
    let mut k: usize = 0;
    while k < tasks.len()
        invariant
            s@.tasks == tasks@,
            ceiling == cold_ceiling(s@.cfg),
            forall|pid: u32| #[trigger] away@.contains(pid) <==> already(s@, *c, pid),
            k <= tasks@.len(),
            in_shed_order(s@, order@),
            forall|j: usize| #[trigger] order@.contains(j) <==> j < k && may_spill(s@, *c, j as int),
        decreases tasks@.len() - k,
    {
        let t = &tasks[k];
        if t.cohort_id == c.id && t.duty_known && !away.contains(&t.pid) {
            insert_in_order(s, tasks, ceiling, &mut order, k);
        }
        k = k + 1;
    }
    order
}

/// Task `j` is among the first `m` of the order.
spec fn in_prefix(order: Seq<usize>, m: int, j: int) -> bool {
    exists|a: int| 0 <= a < m && (#[trigger] order[a]) == j
}

/// The runtime of the first `m` tasks of the order.
spec fn prefix_duty(s: SpillTick, order: Seq<usize>, m: int) -> int {
    total(
        s.tasks.len() as int,
        |j: int|
            if in_prefix(order, m, j) {
                s.tasks[j].duty_ns as int
            } else {
                0
            },
    )
}

/// What is shed before a task of the order is what stands before it there.
proof fn lemma_shed_before_is_prefix(s: SpillTick, c: CohortSnapshot, order: Seq<usize>, m: int)
    requires
        in_shed_order(s, order),
        forall|j: usize| #[trigger] order.contains(j) <==> may_spill(s, c, j as int),
        s.tasks.len() <= usize::MAX,
        0 <= m < order.len(),
    ensures
        shed_before(s, c, order[m] as int) == prefix_duty(s, order, m),
{
    let i = order[m] as int;
    let f = |j: int|
        if may_spill(s, c, j) && sheds_before(s, j, i) {
            s.tasks[j].duty_ns as int
        } else {
            0
        };
    let g = |j: int|
        if in_prefix(order, m, j) {
            s.tasks[j].duty_ns as int
        } else {
            0
        };
    assert forall|j: int| 0 <= j < s.tasks.len() implies #[trigger] f(j) == g(j) by {
        if in_prefix(order, m, j) {
            let a = choose|a: int| 0 <= a < m && (#[trigger] order[a]) == j;
            assert(order.contains(order[a]));
            assert(sheds_before(s, order[a] as int, order[m] as int));
        } else if may_spill(s, c, j) {
            assert(order.contains(j as usize));
            let a = choose|a: int| 0 <= a < order.len() && order[a] == j as usize;
            assert(a >= m);
            if a > m {
                assert(sheds_before(s, order[m] as int, order[a] as int));
            }
            assert(!sheds_before(s, j, i));
        }
    }
    lemma_total_ext(s.tasks.len() as int, f, g);
}

proof fn lemma_prefix_duty_push(s: SpillTick, order: Seq<usize>, m: int)
    requires
        in_shed_order(s, order),
        0 <= m < order.len(),
    ensures
        prefix_duty(s, order, m + 1) == prefix_duty(s, order, m) + s.tasks[order[m] as int].duty_ns,
        prefix_duty(s, order, m + 1) <= total_duty(s.tasks),
{
    let n = s.tasks.len() as int;
    let k = order[m] as int;
    let f = |j: int|
        if in_prefix(order, m, j) {
            s.tasks[j].duty_ns as int
        } else {
            0
        };
    let g = |j: int|
        if in_prefix(order, m + 1, j) {
            s.tasks[j].duty_ns as int
        } else {
            0
        };
    assert forall|j: int| 0 <= j < n && j != k implies #[trigger] f(j) == g(j) by {
        if in_prefix(order, m + 1, j) {
            let a = choose|a: int| 0 <= a < m + 1 && (#[trigger] order[a]) == j;
            assert(a < m);
            assert(order[a] == j);
        }
        if in_prefix(order, m, j) {
            let a = choose|a: int| 0 <= a < m && (#[trigger] order[a]) == j;
            assert(order[a] == j);
        }
    }
    assert(!in_prefix(order, m, k)) by {
        if in_prefix(order, m, k) {
            let a = choose|a: int| 0 <= a < m && (#[trigger] order[a]) == k;
            assert(sheds_before(s, order[a] as int, order[m] as int));
        }
    }
    assert(in_prefix(order, m + 1, k)) by {
        assert(order[m] == k);
    }
    lemma_total_change_one(n, f, g, k);
    lemma_total_le(n, g, |i: int| s.tasks[i].duty_ns as int);
}

/// Where the first `m` tasks of the order have been sent to `target`.
spec fn prefix_sent(
    s: SpillTick,
    base: Map<u32, u32>,
    order: Seq<usize>,
    m: int,
    target: u32,
) -> Map<u32, u32> {
    Map::new(
        |pid: u32| base.contains_key(pid) || prefix_pid(s, order, m, pid),
        |pid: u32|
            if prefix_pid(s, order, m, pid) {
                target
            } else {
                base[pid]
            },
    )
}

spec fn prefix_pid(s: SpillTick, order: Seq<usize>, m: int, pid: u32) -> bool {
    exists|a: int|
        0 <= a < m && s.tasks[(#[trigger] order[a]) as int].duty_ns > 0
            && s.tasks[order[a] as int].pid == pid
}

/// What `base` becomes once the exiled tasks are sent to `target`.
spec fn with_exiles(
    s: SpillTick,
    c: CohortSnapshot,
    base: Map<u32, u32>,
    excess: int,
    target: u32,
) -> Map<u32, u32> {
    Map::new(
        |pid: u32| base.contains_key(pid) || exiled_pid(s, c, excess, pid),
        |pid: u32|
            if exiled_pid(s, c, excess, pid) {
                target
            } else {
                base[pid]
            },
    )
}

/// What `base` becomes once the tasks already spilled are kept.
spec fn with_kept(s: SpillTick, c: CohortSnapshot, base: Map<u32, u32>) -> Map<u32, u32> {
    Map::new(
        |pid: u32| base.contains_key(pid) || already(s, c, pid),
        |pid: u32|
            if already(s, c, pid) {
                s.current[pid]
            } else {
                base[pid]
            },
    )
}

/// When exactly the first `m` tasks of the order leave, they are the exiled
/// ones.
proof fn lemma_prefix_is_exiled(
    s: SpillTick,
    c: CohortSnapshot,
    base: Map<u32, u32>,
    order: Seq<usize>,
    m: int,
    excess: int,
    target: u32,
)
    requires
        in_shed_order(s, order),
        forall|j: usize| #[trigger] order.contains(j) <==> may_spill(s, c, j as int),
        s.tasks.len() <= usize::MAX,
        0 <= m <= order.len(),
        forall|a: int|
            0 <= a < m ==> shed_before(s, c, (#[trigger] order[a]) as int) < excess,
        m < order.len() ==> shed_before(s, c, order[m] as int) >= excess,
    ensures
        shed(s, c, excess) == prefix_duty(s, order, m),
        with_exiles(s, c, base, excess, target) == prefix_sent(s, base, order, m, target),
{
    let n = s.tasks.len() as int;
    assert forall|a: int| m <= a < order.len() implies shed_before(
        s,
        c,
        (#[trigger] order[a]) as int,
    ) >= excess by {
        let (i, j) = (order[m] as int, order[a] as int);
        let f = |k: int|
            if may_spill(s, c, k) && sheds_before(s, k, i) {
                s.tasks[k].duty_ns as int
            } else {
                0
            };
        let g = |k: int|
            if may_spill(s, c, k) && sheds_before(s, k, j) {
                s.tasks[k].duty_ns as int
            } else {
                0
            };
        if a > m {
            assert(sheds_before(s, i, j));
            lemma_total_le(n, f, g);
        }
    }
    assert forall|i: int| #[trigger] exiled(s, c, excess, i) implies in_prefix(order, m, i) by {
        assert(order.contains(i as usize));
        let a = choose|a: int| 0 <= a < order.len() && order[a] == i as usize;
        assert(order[a] == i);
        assert(a < m);
    }
    assert forall|i: int| #[trigger] in_prefix(order, m, i) && s.tasks[i].duty_ns > 0 implies exiled(
        s,
        c,
        excess,
        i,
    ) by {
        let a = choose|a: int| 0 <= a < m && (#[trigger] order[a]) == i;
        assert(order.contains(order[a]));
    }
    let f = |i: int|
        if exiled(s, c, excess, i) {
            s.tasks[i].duty_ns as int
        } else {
            0
        };
    let g = |j: int|
        if in_prefix(order, m, j) {
            s.tasks[j].duty_ns as int
        } else {
            0
        };
    assert forall|i: int| 0 <= i < n implies #[trigger] f(i) == g(i) by {
        if in_prefix(order, m, i) && s.tasks[i].duty_ns > 0 {
            assert(exiled(s, c, excess, i));
        }
    }
    lemma_total_ext(n, f, g);
    assert forall|pid: u32| #[trigger]
        exiled_pid(s, c, excess, pid) <==> prefix_pid(s, order, m, pid) by {
        if exiled_pid(s, c, excess, pid) {
            let i = choose|i: int| #[trigger] exiled(s, c, excess, i) && s.tasks[i].pid == pid;
            assert(in_prefix(order, m, i));
            let a = choose|a: int| 0 <= a < m && (#[trigger] order[a]) == i;
            assert(s.tasks[order[a] as int].pid == pid);
        }
        if prefix_pid(s, order, m, pid) {
            let a = choose|a: int|
                0 <= a < m && s.tasks[(#[trigger] order[a]) as int].duty_ns > 0
                    && s.tasks[order[a] as int].pid == pid;
            assert(in_prefix(order, m, order[a] as int));
            assert(exiled(s, c, excess, order[a] as int));
        }
    }
    assert(with_exiles(s, c, base, excess, target) =~= prefix_sent(s, base, order, m, target));
}

/// Send members of the cohort to `target` until `excess` has left.
fn exile(
    s: Ghost<SpillTick>,
    tasks: &[TaskSnapshot],
    c: &CohortSnapshot,
    away: &HashSet<u32>,
    ceiling: u64,
    excess: u64,
    target: u32,
    desired: &mut HashMap<u32, u32>,
) -> (left: u64)
    requires
        s@.tasks == tasks@,
        ceiling == cold_ceiling(s@.cfg),
        total_duty(tasks@) <= u64::MAX,
        forall|pid: u32| #[trigger] away@.contains(pid) <==> already(s@, *c, pid),
    ensures
        left == shed(s@, *c, excess as int),
        left <= total_duty(tasks@),
        final(desired)@ == with_exiles(s@, *c, old(desired)@, excess as int, target),
{
    let order: Vec<usize> = shed_order(s, tasks, c, away, ceiling);
    let n: usize = tasks.len();
    let ghost base = desired@;
    let mut gone: u64 = 0;
    let mut m: usize = 0;
    proof {
        assert(desired@ =~= prefix_sent(s@, base, order@, 0, target));
        lemma_total_ext(
            tasks@.len() as int,
            |j: int|
                if in_prefix(order@, 0, j) {
                    s@.tasks[j].duty_ns as int
                } else {
                    0
                },
            |j: int| 0int,
        );
        lemma_total_zero(tasks@.len() as int);
        lemma_total_nonneg(tasks@.len() as int, |i: int| tasks@[i].duty_ns as int);
    }
    while m < order.len() && gone < excess
        invariant
            s@.tasks == tasks@,
            n == tasks@.len(),
            total_duty(tasks@) <= u64::MAX,
            in_shed_order(s@, order@),
            forall|j: usize| #[trigger] order@.contains(j) <==> may_spill(s@, *c, j as int),
            0 <= m <= order@.len(),
            gone == prefix_duty(s@, order@, m as int),
            gone <= total_duty(tasks@),
            forall|a: int|
                0 <= a < m ==> shed_before(s@, *c, (#[trigger] order@[a]) as int) < excess,
            desired@ == prefix_sent(s@, base, order@, m as int, target),
        decreases order@.len() - m,
    {
        let i: usize = order[m];
        proof {
            lemma_shed_before_is_prefix(s@, *c, order@, m as int);
            lemma_prefix_duty_push(s@, order@, m as int);
        }
        let ghost sent = desired@;
        if tasks[i].duty_ns > 0 {
            desired.insert(tasks[i].pid, target);
            gone = gone + tasks[i].duty_ns;
        }
        proof {
            let pid0 = tasks@[i as int].pid;
            assert forall|pid: u32| #[trigger]
                prefix_pid(s@, order@, m + 1, pid) <==> prefix_pid(s@, order@, m as int, pid) || (
                pid == pid0 && tasks@[i as int].duty_ns > 0) by {
                if prefix_pid(s@, order@, m + 1, pid) {
                    let a = choose|a: int|
                        0 <= a < m + 1 && s@.tasks[(#[trigger] order@[a]) as int].duty_ns > 0
                            && s@.tasks[order@[a] as int].pid == pid;
                    if a < m {
                        assert(s@.tasks[order@[a] as int].pid == pid);
                    }
                }
                if prefix_pid(s@, order@, m as int, pid) {
                    let a = choose|a: int|
                        0 <= a < m && s@.tasks[(#[trigger] order@[a]) as int].duty_ns > 0
                            && s@.tasks[order@[a] as int].pid == pid;
                    assert(s@.tasks[order@[a] as int].pid == pid);
                }
                if pid == pid0 && tasks@[i as int].duty_ns > 0 {
                    assert(s@.tasks[order@[m as int] as int].pid == pid);
                }
            }
            assert(desired@ =~= prefix_sent(s@, base, order@, m + 1, target));
        }
        m = m + 1;
    }
    proof {
        if m < order@.len() {
            lemma_shed_before_is_prefix(s@, *c, order@, m as int);
        }
        lemma_prefix_is_exiled(s@, *c, base, order@, m as int, excess as int, target);
    }
    gone
}

/// Keep the tasks of a cohort that are already spilled where they are.
fn keep_spilled(
    s: Ghost<SpillTick>,
    tasks: &[TaskSnapshot],
    current: &HashMap<u32, u32>,
    c: &CohortSnapshot,
    desired: &mut HashMap<u32, u32>,
)
    requires
        s@.tasks == tasks@,
        s@.current == current@,
    ensures
        final(desired)@ == with_kept(s@, *c, old(desired)@),
{
    let ghost base = desired@;
    let mut k: usize = 0;
    while k < tasks.len()
        invariant
            s@.tasks == tasks@,
            s@.current == current@,
            k <= tasks@.len(),
            forall|pid: u32| #[trigger]
                desired@.contains_key(pid) ==> (base.contains_key(pid) && desired@[pid] == base[pid])
                    || (already(s@, *c, pid) && desired@[pid] == current@[pid]),
            forall|pid: u32| #[trigger] base.contains_key(pid) ==> desired@.contains_key(pid),
            forall|i: int|
                0 <= i < k && (#[trigger] tasks@[i]).cohort_id == c.id && current@.contains_key(
                    tasks@[i].pid,
                ) ==> desired@.contains_key(tasks@[i].pid) && desired@[tasks@[i].pid]
                    == current@[tasks@[i].pid],
        decreases tasks@.len() - k,
    {
        let pid: u32 = tasks[k].pid;
        if tasks[k].cohort_id == c.id {
            match current.get(&pid) {
                Some(llc) => {
                    assert(s@.tasks[k as int].pid == pid);
                    assert(already(s@, *c, pid));
                    desired.insert(pid, *llc);
                },
                None => {},
            }
        }
        k = k + 1;
    }
    assert(desired@ =~= with_kept(s@, *c, base));
}

/// `planned` holds the promises.
spec fn holds_promises(planned: Map<u32, u64>, promises: Map<u32, int>) -> bool {
    &&& planned.dom() == promises.dom()
    &&& forall|llc: u32| #[trigger]
        promises.contains_key(llc) ==> planned[llc] as int == promises[llc]
}

/// Promises stay below some LLC's high mark plus all the runtime there is.
spec fn promises_bounded(s: SpillTick, promises: Map<u32, int>) -> bool {
    forall|llc: u32| #[trigger]
        promises.contains_key(llc) ==> 0 <= promises[llc] && exists|j: int|
            0 <= j < s.llcs.len() && promises[llc] <= mark(
                (#[trigger] s.llcs[j]).capacity_ns,
                s.cfg.high_pct,
            ) + total_duty(s.tasks)
}

proof fn lemma_promised_load_fits(s: SpillTick, promises: Map<u32, int>)
    requires
        spill_fits(s),
        s.llcs.len() >= 2,
        promises_bounded(s, promises),
    ensures
        forall|i: int|
            0 <= i < s.llcs.len() ==> promised_load(#[trigger] s.llcs[i], promises) <= u64::MAX,
{
    assert forall|i: int| 0 <= i < s.llcs.len() implies promised_load(
        #[trigger] s.llcs[i],
        promises,
    ) <= u64::MAX by {
        let llc = s.llcs[i].llc;
        if promises.contains_key(llc) {
            let j = choose|j: int|
                0 <= j < s.llcs.len() && promises[llc] <= mark(
                    (#[trigger] s.llcs[j]).capacity_ns,
                    s.cfg.high_pct,
                ) + total_duty(s.tasks);
            assert(s.llcs[i].load_ns + mark(s.llcs[j].capacity_ns, s.cfg.high_pct) + total_duty(
                s.tasks,
            ) <= u64::MAX);
        }
    }
}

/// Plan one cohort on top of the plan so far.
fn plan_cohort(
    s: Ghost<SpillTick>,
    cfg: &SpillCfg,
    llcs: &[LlcLoad],
    tasks: &[TaskSnapshot],
    current: &HashMap<u32, u32>,
    c: &CohortSnapshot,
    desired: &mut HashMap<u32, u32>,
    planned: &mut HashMap<u32, u64>,
    promises: Ghost<Map<u32, int>>,
)
    requires
        s@ == (SpillTick { cfg: *cfg, llcs: llcs@, tasks: tasks@, current: current@ }),
        spill_fits(s@),
        llcs@.len() >= 2,
        total_duty(tasks@) <= u64::MAX,
        holds_promises(old(planned)@, promises@),
        promises_bounded(s@, promises@),
    ensures
        ({
            let next = spill_step(
                s@,
                *c,
                SpillPlan { desired: old(desired)@, planned: promises@ },
            );
            &&& final(desired)@ == next.desired
            &&& holds_promises(final(planned)@, next.planned)
            &&& promises_bounded(s@, next.planned)
        }),
{
    let ghost base = desired@;
    let ghost start = SpillPlan { desired: base, planned: promises@ };
    let ghost next = spill_step(s@, *c, start);
    let cap: u64 = match find_capacity(llcs, c.home_llc) {
        Some(cap) => cap,
        None => {
            proof {
                assert(desired@ =~= next.desired);
            }
            return ;
        },
    };
    let high: u64 = cap * cfg.high_pct / 100;
    let low: u64 = cap * cfg.low_pct / 100;
    // Below the low mark everything comes home; between the marks the
    // existing spill set is kept as it is; above the high mark it grows.
    if c.load_ns < low {
        proof {
            assert(desired@ =~= next.desired);
        }
        return ;
    }
    keep_spilled(s, tasks, current, c, desired);
    let away: HashSet<u32> = find_already(s, tasks, current, c);
    // Cohort load counts spilled members too, so growth is planned against
    // what is still at home.
    let gone: u64 = sum_spilled(s, tasks, c, &away);
    let home: u64 = c.load_ns.saturating_sub(gone);
    assert(home == home_load(s@, *c));
    if home < high {
        proof {
            assert(desired@ =~= next.desired);
        }
        return ;
    }
    proof {
        lemma_promised_load_fits(s@, promises@);
    }
    // Only an LLC with room absorbs the spill. When nowhere has room the
    // existing set still stands; it just doesn't grow.
    let (d, dest_load): (usize, u64) = match find_destination(s, llcs, c, planned, promises) {
        Some(found) => found,
        None => {
            proof {
                assert(desired@ =~= next.desired);
            }
            return ;
        },
    };
    proof {
        lemma_destination_unique(s@, *c, promises@, d as int);
        assert(llcs@[d as int].capacity_ns * cfg.high_pct <= u64::MAX);
    }
    let room: u64 = (llcs[d].capacity_ns * cfg.high_pct / 100).saturating_sub(dest_load);
    assert(room == headroom(s@, promises@, d as int));
    if room == 0 {
        proof {
            assert(desired@ =~= next.desired);
        }
        return ;
    }
    let target: u32 = llcs[d].llc;
    let over: u64 = home - high;
    let excess: u64 = if over <= room {
        over
    } else {
        room
    };
    let ceiling: u64 = cfg.tick_ns * cfg.cold_max_pct / 100;
    assert(growth(s@, *c, promises@) == Some(Growth { target, excess: excess as int }));
    let left: u64 = exile(s, tasks, c, &away, ceiling, excess, target, desired);
    proof {
        assert(desired@ =~= next.desired);
        assert(s@.llcs[d as int].load_ns + mark(
            s@.llcs[d as int].capacity_ns,
            s@.cfg.high_pct,
        ) + total_duty(s@.tasks) <= u64::MAX);
        assert(promised(promises@, target) + left <= mark(
            s@.llcs[d as int].capacity_ns,
            s@.cfg.high_pct,
        ) + total_duty(s@.tasks));
    }
    let before: u64 = match planned.get(&target) {
        Some(ns) => *ns,
        None => 0,
    };
    assert(before == promised(promises@, target));
    planned.insert(target, before + left);
    proof {
        assert(planned@.dom() =~= next.planned.dom());
        assert(holds_promises(planned@, next.planned));
        assert forall|llc: u32| #[trigger] next.planned.contains_key(llc) implies 0
            <= next.planned[llc] && exists|j: int|
            0 <= j < s@.llcs.len() && next.planned[llc] <= mark(
                (#[trigger] s@.llcs[j]).capacity_ns,
                s@.cfg.high_pct,
            ) + total_duty(s@.tasks) by {
            if llc == target {
                assert(next.planned[llc] <= mark(
                    s@.llcs[d as int].capacity_ns,
                    s@.cfg.high_pct,
                ) + total_duty(s@.tasks));
            } else {
                assert(promises@.contains_key(llc));
            }
        }
    }
}

/// New spill state for one tick: the complete desired (pid -> target LLC)
/// set. The caller diffs it against the current map contents.
pub fn plan_spills(
    cfg: &SpillCfg,
    llcs: &[LlcLoad],
    cohorts: &[CohortSnapshot],
    tasks: &[TaskSnapshot],
    current: &HashMap<u32, u32>,
) -> (desired: HashMap<u32, u32>)
    requires
        spill_fits(SpillTick { cfg: *cfg, llcs: llcs@, tasks: tasks@, current: current@ }),
    ensures
        desired@ == desired_spills(
            SpillTick { cfg: *cfg, llcs: llcs@, tasks: tasks@, current: current@ },
            cohorts@,
        ),
{
    let ghost s = SpillTick { cfg: *cfg, llcs: llcs@, tasks: tasks@, current: current@ };
    let mut desired: HashMap<u32, u32> = HashMap::new();
    if llcs.len() < 2 {
        return desired;
    }
    // Load this pass has already promised to each destination, so several
    // oversized cohorts spilling in one tick cannot each claim the same
    // headroom and collectively flood it.
    let mut planned: HashMap<u32, u64> = HashMap::new();
    let ghost mut promises: Map<u32, int> = Map::empty();
    proof {
        assert(s.llcs[0].load_ns + mark(s.llcs[0].capacity_ns, s.cfg.high_pct) + total_duty(
            s.tasks,
        ) <= u64::MAX);
        lemma_total_nonneg(tasks@.len() as int, |i: int| tasks@[i].duty_ns as int);
        assert(cohorts@.take(0) =~= seq![]);
        assert(planned@.dom() =~= promises.dom());
    }
    let mut k: usize = 0;
    while k < cohorts.len()
        invariant
            s == (SpillTick { cfg: *cfg, llcs: llcs@, tasks: tasks@, current: current@ }),
            spill_fits(s),
            llcs@.len() >= 2,
            total_duty(tasks@) <= u64::MAX,
            k <= cohorts@.len(),
            holds_promises(planned@, promises),
            promises_bounded(s, promises),
            spill_plan(s, cohorts@.take(k as int)) == (SpillPlan {
                desired: desired@,
                planned: promises,
            }),
        decreases cohorts@.len() - k,
    {
        let ghost before = desired@;
        plan_cohort(
            Ghost(s),
            cfg,
            llcs,
            tasks,
            current,
            &cohorts[k],
            &mut desired,
            &mut planned,
            Ghost(promises),
        );
        proof {
            let next = spill_step(
                s,
                cohorts@[k as int],
                SpillPlan { desired: before, planned: promises },
            );
            promises = next.planned;
            assert(cohorts@.take(k + 1).drop_last() =~= cohorts@.take(k as int));
            assert(cohorts@.take(k + 1).last() == cohorts@[k as int]);
            assert(spill_plan(s, cohorts@.take(k + 1)) == next);
        }
        k = k + 1;
    }
    assert(cohorts@.take(k as int) =~= cohorts@);
    desired
}

} // verus!
