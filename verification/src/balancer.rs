//! The load balancer: decides which whole cohorts, if any, change home
//! LLC this tick. Pure logic over [`crate::domain`] snapshots.
//!
//! Stability rules: whole cohorts move (never split to fix a number),
//! imbalance must persist for `confirm_ticks` consecutive ticks before
//! anything moves, a cohort that just moved is immune for `residency_ms`,
//! and a cohort too big for one LLC is never relocated (spill handles it
//! instead). A tick may move up to `max_moves_per_tick` cohorts: the
//! confirmation gate still decides whether *any* move happens, but a split
//! hands several cohorts one home at once and unwinding that a cohort at a
//! time is too slow to be useful.
use std::collections::{HashMap, HashSet};

use vstd::prelude::*;
use vstd::std_specs::iter::IteratorSpec;

use crate::domain::{CohortSnapshot, Decision, LlcLoad};
pub use crate::spill::{plan_spills, SpillCfg};

verus! {

#[derive(Debug, Clone, Copy)]
pub struct BalancerCfg {
    /// Act when the inter-LLC load gap exceeds this percentage of one
    /// LLC's capacity.
    pub imbalance_pct: u64,
    /// Consecutive over-threshold ticks required before moving.
    pub confirm_ticks: u32,
    /// A cohort that moved is immune from moving again for this long.
    pub residency_ms: u64,
    /// Most cohorts relocated in one tick. Splits give every new cohort
    /// the parent's home, and moves are lazy (members drift over on their
    /// next wakeup), so a bounded batch costs far less than unwinding a
    /// split one cohort at a time.
    pub max_moves_per_tick: usize,
}

impl Default for BalancerCfg {
    fn default() -> (cfg: Self)
        ensures
            cfg.imbalance_pct == 20,
            cfg.confirm_ticks == 2,
            cfg.residency_ms == 2000,
            cfg.max_moves_per_tick == 8,
    {
        Self { imbalance_pct: 20, confirm_ticks: 2, residency_ms: 2000, max_moves_per_tick: 8 }
    }
}

#[derive(Debug)]
pub struct Balancer {
    cfg: BalancerCfg,
    /// cohort id -> monotonic ms timestamp of its last move.
    last_move_at: HashMap<u64, u64>,
    /// Consecutive over-threshold ticks since anything last moved.
    streak: u32,
}

/// What a [`Balancer`] remembers between ticks.
pub struct BalancerState {
    pub cfg: BalancerCfg,
    pub last_move_at: Map<u64, u64>,
    pub streak: int,
}

impl View for Balancer {
    type V = BalancerState;

    closed spec fn view(&self) -> BalancerState {
        BalancerState {
            cfg: self.cfg,
            last_move_at: self.last_move_at@,
            streak: self.streak as int,
        }
    }
}

// ---- Load and imbalance ----

/// Entry `i` is the most loaded one, the last of them on a tie.
pub open spec fn is_busiest(s: Seq<LlcLoad>, i: int) -> bool {
    &&& 0 <= i < s.len()
    &&& forall|j: int| 0 <= j < s.len() ==> (#[trigger] s[j]).load_ns <= s[i].load_ns
    &&& forall|j: int| i < j < s.len() ==> (#[trigger] s[j]).load_ns < s[i].load_ns
}

/// Entry `i` is the least loaded one, the first of them on a tie.
pub open spec fn is_idlest(s: Seq<LlcLoad>, i: int) -> bool {
    &&& 0 <= i < s.len()
    &&& forall|j: int| 0 <= j < s.len() ==> s[i].load_ns <= (#[trigger] s[j]).load_ns
    &&& forall|j: int| 0 <= j < i ==> s[i].load_ns < (#[trigger] s[j]).load_ns
}

pub open spec fn busiest(s: Seq<LlcLoad>) -> int {
    choose|i: int| is_busiest(s, i)
}

pub open spec fn idlest(s: Seq<LlcLoad>) -> int {
    choose|i: int| is_idlest(s, i)
}

/// How far apart the most and the least loaded LLC are.
pub open spec fn load_gap(s: Seq<LlcLoad>) -> int {
    s[busiest(s)].load_ns - s[idlest(s)].load_ns
}

/// The largest gap that is left alone.
pub open spec fn gap_threshold(s: Seq<LlcLoad>, imbalance_pct: u64) -> int {
    s[idlest(s)].capacity_ns * imbalance_pct / 100
}

pub open spec fn imbalanced(s: Seq<LlcLoad>, imbalance_pct: u64) -> bool {
    load_gap(s) > gap_threshold(s, imbalance_pct)
}

// ---- Choosing a cohort ----

/// What one tick's planning reads, apart from the loads.
pub struct Tick {
    pub cfg: BalancerCfg,
    pub now_ms: u64,
    pub cohorts: Seq<CohortSnapshot>,
    pub last_move_at: Map<u64, u64>,
}

/// Milliseconds from `at` to `now`, 0 when `at` lies ahead.
pub open spec fn elapsed_ms(now: u64, at: u64) -> int {
    if now >= at {
        now - at
    } else {
        0
    }
}

/// How long a cohort stays put after a move.
pub open spec fn residency(cfg: BalancerCfg, c: CohortSnapshot) -> u64 {
    match c.residency_ms {
        Some(ms) => ms,
        None => cfg.residency_ms,
    }
}

/// The cohort never moved, or its residency has run out.
pub open spec fn rested(t: Tick, c: CohortSnapshot) -> bool {
    t.last_move_at.contains_key(c.id) ==> elapsed_ms(t.now_ms, t.last_move_at[c.id]) >= residency(
        t.cfg,
        c,
    )
}

/// The gap between two LLCs once `load` has moved from the busier to the
/// idler one.
pub open spec fn gap_after(gap: int, load: int) -> int {
    if gap >= 2 * load {
        gap - 2 * load
    } else {
        2 * load - gap
    }
}

/// The cohort lives on the loaded side, may move, fits into the idlest LLC,
/// was not picked before in this batch, and moving it narrows the gap.
pub open spec fn candidate(
    t: Tick,
    proj: Seq<LlcLoad>,
    chosen: Set<u64>,
    c: CohortSnapshot,
) -> bool {
    &&& c.home_llc == proj[busiest(proj)].llc
    &&& !c.pinned
    &&& c.nr_tasks > 0
    &&& 0 < c.load_ns <= proj[idlest(proj)].capacity_ns
    &&& !chosen.contains(c.id)
    &&& rested(t, c)
    &&& gap_after(load_gap(proj), c.load_ns as int) < load_gap(proj)
}

/// `a` repairs the gap better than `b`, or as well while being smaller.
pub open spec fn repairs_better(gap: int, a: CohortSnapshot, b: CohortSnapshot) -> bool {
    let (ra, rb) = (gap_after(gap, a.load_ns as int), gap_after(gap, b.load_ns as int));
    ra < rb || (ra == rb && a.load_ns < b.load_ns)
}

/// Cohort `i` is the candidate that repairs the gap best, the first of
/// equals.
pub open spec fn is_best(t: Tick, proj: Seq<LlcLoad>, chosen: Set<u64>, i: int) -> bool {
    &&& 0 <= i < t.cohorts.len()
    &&& candidate(t, proj, chosen, t.cohorts[i])
    &&& forall|j: int|
        0 <= j < t.cohorts.len() && candidate(t, proj, chosen, #[trigger] t.cohorts[j])
            ==> !repairs_better(load_gap(proj), t.cohorts[j], t.cohorts[i])
    &&& forall|j: int|
        0 <= j < i && candidate(t, proj, chosen, #[trigger] t.cohorts[j]) ==> repairs_better(
            load_gap(proj),
            t.cohorts[i],
            t.cohorts[j],
        )
}

/// The index of the cohort to move next, if any may move.
pub open spec fn pick(t: Tick, proj: Seq<LlcLoad>, chosen: Set<u64>) -> Option<int> {
    if exists|i: int| is_best(t, proj, chosen, i) {
        Some(choose|i: int| is_best(t, proj, chosen, i))
    } else {
        None
    }
}

/// The loads once `load` has moved from LLC `from` to LLC `to`.
pub open spec fn shifted(s: Seq<LlcLoad>, from: u32, to: u32, load: u64) -> Seq<LlcLoad> {
    Seq::new(
        s.len(),
        |k: int|
            LlcLoad {
                llc: s[k].llc,
                load_ns: if s[k].llc == from {
                    if s[k].load_ns >= load {
                        (s[k].load_ns - load) as u64
                    } else {
                        0
                    }
                } else if s[k].llc == to {
                    (s[k].load_ns + load) as u64
                } else {
                    s[k].load_ns
                },
                capacity_ns: s[k].capacity_ns,
            },
    )
}

/// The loads after cohort `i` has moved from the busiest to the idlest LLC.
pub open spec fn after_move(t: Tick, s: Seq<LlcLoad>, i: int) -> Seq<LlcLoad> {
    shifted(s, s[busiest(s)].llc, s[idlest(s)].llc, t.cohorts[i].load_ns)
}

/// The moves of one tick, at most `room` of them: each is the best repair of
/// the loads as projected after the ones before it, until the loads are
/// within the threshold or nothing can move.
pub open spec fn batch(t: Tick, proj: Seq<LlcLoad>, chosen: Set<u64>, room: nat) -> Seq<Decision>
    decreases room,
{
    if room == 0 || !imbalanced(proj, t.cfg.imbalance_pct) {
        seq![]
    } else {
        match pick(t, proj, chosen) {
            None => seq![],
            Some(i) => seq![
                Decision::MoveCohort { id: t.cohorts[i].id, to: proj[idlest(proj)].llc },
            ] + batch(
                t,
                after_move(t, proj, i),
                chosen.insert(t.cohorts[i].id),
                (room - 1) as nat,
            ),
        }
    }
}

// ---- A whole tick ----

/// Some decision of `moves` is about cohort `id`.
pub open spec fn moves_cohort(moves: Seq<Decision>, id: u64) -> bool {
    exists|k: int| 0 <= k < moves.len() && (#[trigger] moves[k]).cohort() == id
}

/// The last-move timestamps once `moves` have been made at `now`.
pub open spec fn stamped(last: Map<u64, u64>, moves: Seq<Decision>, now: u64) -> Map<u64, u64> {
    Map::new(
        |id: u64| last.contains_key(id) || moves_cohort(moves, id),
        |id: u64| if moves_cohort(moves, id) { now } else { last[id] },
    )
}

/// This tick is over the threshold and completes the confirmation.
pub open spec fn confirmed(b: BalancerState, llcs: Seq<LlcLoad>) -> bool {
    &&& llcs.len() >= 2
    &&& imbalanced(llcs, b.cfg.imbalance_pct)
    &&& b.streak + 1 >= b.cfg.confirm_ticks
}

/// The decisions of one tick.
pub open spec fn planned(
    b: BalancerState,
    now_ms: u64,
    llcs: Seq<LlcLoad>,
    cohorts: Seq<CohortSnapshot>,
) -> Seq<Decision> {
    if confirmed(b, llcs) {
        batch(
            Tick { cfg: b.cfg, now_ms, cohorts, last_move_at: b.last_move_at },
            llcs,
            Set::empty(),
            b.cfg.max_moves_per_tick as nat,
        )
    } else {
        seq![]
    }
}

/// What the balancer remembers after one tick.
pub open spec fn after_plan(
    b: BalancerState,
    now_ms: u64,
    llcs: Seq<LlcLoad>,
    cohorts: Seq<CohortSnapshot>,
) -> BalancerState {
    let moves = planned(b, now_ms, llcs, cohorts);
    BalancerState {
        cfg: b.cfg,
        last_move_at: stamped(b.last_move_at, moves, now_ms),
        streak: if llcs.len() < 2 {
            b.streak
        } else if !imbalanced(llcs, b.cfg.imbalance_pct) || moves.len() > 0 {
            0
        } else {
            b.streak + 1
        },
    }
}

// ---- Machine limits ----

/// No two entries name the same LLC.
pub open spec fn distinct_llcs(s: Seq<LlcLoad>) -> bool {
    forall|i: int, j: int|
        0 <= i < j < s.len() ==> (#[trigger] s[i]).llc != (#[trigger] s[j]).llc
}

/// The largest capacity of any entry.
pub open spec fn widest(s: Seq<LlcLoad>) -> int
    decreases s.len(),
{
    if s.len() == 0 {
        0
    } else if widest(s.drop_last()) >= s.last().capacity_ns {
        widest(s.drop_last())
    } else {
        s.last().capacity_ns as int
    }
}

/// The most that a batch can raise a projected load above the highest
/// measured one: nothing, as long as every entry is an LLC of its own.
pub open spec fn overshoot(cfg: BalancerCfg, llcs: Seq<LlcLoad>) -> int {
    if distinct_llcs(llcs) {
        0
    } else {
        cfg.max_moves_per_tick * widest(llcs)
    }
}

/// The nanosecond arithmetic of one tick stays within machine integers.
pub open spec fn plan_fits(b: BalancerState, llcs: Seq<LlcLoad>) -> bool {
    llcs.len() >= 2 ==> {
        &&& forall|i: int|
            0 <= i < llcs.len() ==> {
                &&& (#[trigger] llcs[i]).capacity_ns * b.cfg.imbalance_pct <= u64::MAX
                &&& 2 * llcs[i].capacity_ns <= i64::MAX
                &&& llcs[i].load_ns + overshoot(b.cfg, llcs) <= i64::MAX
            }
        &&& imbalanced(llcs, b.cfg.imbalance_pct) ==> b.streak < u32::MAX
    }
}

/// A plain condition under which the arithmetic of one tick fits: every entry
/// is an LLC of its own, and the streak can still be raised.
pub open spec fn plainly_fits(b: BalancerState, llcs: Seq<LlcLoad>) -> bool {
    llcs.len() >= 2 ==> {
        &&& distinct_llcs(llcs)
        &&& b.streak < u32::MAX
        &&& forall|i: int|
            0 <= i < llcs.len() ==> {
                &&& (#[trigger] llcs[i]).capacity_ns * b.cfg.imbalance_pct <= u64::MAX
                &&& 2 * llcs[i].capacity_ns <= i64::MAX
                &&& llcs[i].load_ns <= i64::MAX
            }
    }
}

pub proof fn lemma_plainly_fits(b: BalancerState, llcs: Seq<LlcLoad>)
    requires
        plainly_fits(b, llcs),
    ensures
        plan_fits(b, llcs),
{
}

// ---- Lemmas ----

pub proof fn lemma_busiest_unique(s: Seq<LlcLoad>, i: int)
    requires
        is_busiest(s, i),
    ensures
        busiest(s) == i,
{
    let b = busiest(s);
    assert(is_busiest(s, b));
    if b < i {
        assert(s[i].load_ns < s[b].load_ns);
        assert(s[b].load_ns <= s[i].load_ns);
    } else if i < b {
        assert(s[b].load_ns < s[i].load_ns);
        assert(s[i].load_ns <= s[b].load_ns);
    }
}

pub proof fn lemma_idlest_unique(s: Seq<LlcLoad>, i: int)
    requires
        is_idlest(s, i),
    ensures
        idlest(s) == i,
{
    let b = idlest(s);
    assert(is_idlest(s, b));
    if b < i {
        assert(s[i].load_ns < s[b].load_ns);
        assert(s[b].load_ns <= s[i].load_ns);
    } else if i < b {
        assert(s[b].load_ns < s[i].load_ns);
        assert(s[i].load_ns <= s[b].load_ns);
    }
}

pub proof fn lemma_best_unique(t: Tick, proj: Seq<LlcLoad>, chosen: Set<u64>, i: int)
    requires
        is_best(t, proj, chosen, i),
    ensures
        pick(t, proj, chosen) == Some(i),
{
    let b = choose|i: int| is_best(t, proj, chosen, i);
    assert(is_best(t, proj, chosen, b));
    let (ci, cb) = (t.cohorts[i], t.cohorts[b]);
    assert(candidate(t, proj, chosen, ci));
    assert(candidate(t, proj, chosen, cb));
    assert(!repairs_better(load_gap(proj), ci, cb));
    assert(!repairs_better(load_gap(proj), cb, ci));
}

pub proof fn lemma_widest(s: Seq<LlcLoad>, i: int)
    requires
        0 <= i < s.len(),
    ensures
        s[i].capacity_ns <= widest(s),
    decreases s.len(),
{
    if i < s.len() - 1 {
        lemma_widest(s.drop_last(), i);
        assert(s.drop_last()[i] == s[i]);
    }
}

pub proof fn lemma_moves_push(moves: Seq<Decision>, d: Decision)
    ensures
        forall|id: u64|
            #[trigger] moves_cohort(moves.push(d), id) <==> moves_cohort(moves, id) || id
                == d.cohort(),
{
    let grown = moves.push(d);
    assert forall|id: u64|
        moves_cohort(moves, id) || id == d.cohort() implies #[trigger] moves_cohort(grown, id) by {
        if moves_cohort(moves, id) {
            let k = choose|k: int| 0 <= k < moves.len() && (#[trigger] moves[k]).cohort() == id;
            assert(grown[k].cohort() == id);
        } else {
            assert(grown[moves.len() as int].cohort() == id);
        }
    }
    assert forall|id: u64| #[trigger] moves_cohort(grown, id) implies moves_cohort(moves, id) || id
        == d.cohort() by {
        let k = choose|k: int| 0 <= k < grown.len() && (#[trigger] grown[k]).cohort() == id;
        if k < moves.len() {
            assert(moves[k].cohort() == id);
        }
    }
}

/// Projected loads stay within machine integers after one more move.
proof fn lemma_batch_bounds(
    b: BalancerState,
    llcs: Seq<LlcLoad>,
    proj: Seq<LlcLoad>,
    n: int,
    hi: int,
    lo: int,
    load: u64,
)
    requires
        plan_fits(b, llcs),
        llcs.len() >= 2,
        proj.len() == llcs.len(),
        0 <= n < b.cfg.max_moves_per_tick,
        forall|i: int|
            0 <= i < proj.len() ==> {
                &&& (#[trigger] proj[i]).llc == llcs[i].llc
                &&& proj[i].capacity_ns == llcs[i].capacity_ns
                &&& distinct_llcs(llcs) ==> proj[i].load_ns <= i64::MAX
                &&& !distinct_llcs(llcs) ==> proj[i].load_ns <= llcs[i].load_ns + n * widest(llcs)
            },
        is_busiest(proj, hi),
        is_idlest(proj, lo),
        0 < load <= proj[lo].capacity_ns,
        gap_after(proj[hi].load_ns - proj[lo].load_ns, load as int) < proj[hi].load_ns
            - proj[lo].load_ns,
    ensures
        forall|i: int|
            0 <= i < proj.len() ==> {
                let next = (#[trigger] shifted(proj, proj[hi].llc, proj[lo].llc, load)[i]);
                &&& proj[i].load_ns + load <= u64::MAX
                &&& next.llc == llcs[i].llc
                &&& next.capacity_ns == llcs[i].capacity_ns
                &&& distinct_llcs(llcs) ==> next.load_ns <= i64::MAX
                &&& !distinct_llcs(llcs) ==> next.load_ns <= llcs[i].load_ns + (n + 1) * widest(
                    llcs,
                )
            },
        forall|i: int| 0 <= i < proj.len() ==> (#[trigger] proj[i]).load_ns + load <= u64::MAX,
{
    let w = widest(llcs);
    lemma_widest(llcs, lo);
    assert(llcs[lo].capacity_ns == proj[lo].capacity_ns);
    assert forall|i: int| 0 <= i < proj.len() implies {
        let next = (#[trigger] shifted(proj, proj[hi].llc, proj[lo].llc, load)[i]);
        &&& proj[i].load_ns + load <= u64::MAX
        &&& next.llc == llcs[i].llc
        &&& next.capacity_ns == llcs[i].capacity_ns
        &&& distinct_llcs(llcs) ==> next.load_ns <= i64::MAX
        &&& !distinct_llcs(llcs) ==> next.load_ns <= llcs[i].load_ns + (n + 1) * w
    } by {
        assert(2 * llcs[lo].capacity_ns <= i64::MAX);
        assert(llcs[i].load_ns + overshoot(b.cfg, llcs) <= i64::MAX);
        if distinct_llcs(llcs) {
            if proj[i].llc == proj[lo].llc {
                assert(llcs[i].llc == llcs[lo].llc);
                assert(i == lo);
            }
        } else {
            let max = b.cfg.max_moves_per_tick as int;
            assert((n + 1) * w == n * w + w) by (nonlinear_arith);
            assert((n + 1) * w <= max * w) by (nonlinear_arith)
                requires
                    n + 1 <= max,
                    0 <= w,
            ;
        }
    }
    assert forall|i: int| 0 <= i < proj.len() implies (#[trigger] proj[i]).load_ns + load
        <= u64::MAX by {
        let next = shifted(proj, proj[hi].llc, proj[lo].llc, load)[i];
    }
}

// ---- Executable code ----

/// The index of the most loaded entry, the last on a tie.
fn find_busiest(s: &[LlcLoad]) -> (i: usize)
    requires
        s@.len() > 0,
    ensures
        is_busiest(s@, i as int),
        i == busiest(s@),
        i < s@.len(),
{
    let mut best: usize = 0;
    let mut k: usize = 1;
    while k < s.len()
        invariant
            0 <= best < k <= s@.len(),
            forall|j: int| 0 <= j < k ==> (#[trigger] s@[j]).load_ns <= s@[best as int].load_ns,
            forall|j: int| best < j < k ==> (#[trigger] s@[j]).load_ns < s@[best as int].load_ns,
        decreases s@.len() - k,
    {
        if s[k].load_ns >= s[best].load_ns {
            best = k;
        }
        k = k + 1;
    }
    proof {
        lemma_busiest_unique(s@, best as int);
    }
    best
}

/// The index of the least loaded entry, the first on a tie.
fn find_idlest(s: &[LlcLoad]) -> (i: usize)
    requires
        s@.len() > 0,
    ensures
        is_idlest(s@, i as int),
        i == idlest(s@),
        i < s@.len(),
{
    let mut best: usize = 0;
    let mut k: usize = 1;
    while k < s.len()
        invariant
            0 <= best < k <= s@.len(),
            forall|j: int| 0 <= j < k ==> s@[best as int].load_ns <= (#[trigger] s@[j]).load_ns,
            forall|j: int| 0 <= j < best ==> s@[best as int].load_ns < (#[trigger] s@[j]).load_ns,
        decreases s@.len() - k,
    {
        if s[k].load_ns < s[best].load_ns {
            best = k;
        }
        k = k + 1;
    }
    proof {
        lemma_idlest_unique(s@, best as int);
    }
    best
}

/// `|gap - 2 * load|`.
fn repaired_gap(gap: u64, load: u64) -> (r: u64)
    requires
        2 * load <= u64::MAX,
    ensures
        r == gap_after(gap as int, load as int),
{
    let twice: u64 = 2 * load;
    if gap >= twice {
        gap - twice
    } else {
        twice - gap
    }
}

/// Move `load` from LLC `from` to LLC `to`.
fn shift_load(proj: &mut Vec<LlcLoad>, from: u32, to: u32, load: u64)
    requires
        forall|i: int|
            0 <= i < old(proj)@.len() ==> (#[trigger] old(proj)@[i]).load_ns + load <= u64::MAX,
    ensures
        final(proj)@ == shifted(old(proj)@, from, to, load),
{
    let ghost start = proj@;
    let mut k: usize = 0;
    while k < proj.len()
        invariant
            proj@.len() == start.len(),
            k <= start.len(),
            forall|i: int|
                0 <= i < start.len() ==> (#[trigger] start[i]).load_ns + load <= u64::MAX,
            forall|i: int|
                0 <= i < k ==> #[trigger] proj@[i] == shifted(start, from, to, load)[i],
            forall|i: int| k <= i < start.len() ==> #[trigger] proj@[i] == start[i],
        decreases start.len() - k,
    {
        let e: LlcLoad = proj[k];
        assert(e == start[k as int]);
        let moved: u64 = if e.llc == from {
            e.load_ns.saturating_sub(load)
        } else if e.llc == to {
            e.load_ns + load
        } else {
            e.load_ns
        };
        proj.set(k, LlcLoad { llc: e.llc, load_ns: moved, capacity_ns: e.capacity_ns });
        k = k + 1;
    }
    assert(proj@ =~= shifted(start, from, to, load));
}

impl Default for Balancer {
    fn default() -> (b: Self)
        ensures
            b@.cfg.imbalance_pct == 20,
            b@.cfg.confirm_ticks == 2,
            b@.cfg.residency_ms == 2000,
            b@.cfg.max_moves_per_tick == 8,
            b@.last_move_at == Map::<u64, u64>::empty(),
            b@.streak == 0,
    {
        Balancer::new(BalancerCfg::default())
    }
}

impl Balancer {
    pub fn new(cfg: BalancerCfg) -> (b: Self)
        ensures
            b@ == (BalancerState { cfg, last_move_at: Map::empty(), streak: 0 }),
    {
        Self { cfg, last_move_at: HashMap::new(), streak: 0 }
    }

    /// Whether the arithmetic of a tick over these LLCs plainly fits.
    pub fn has_room(&self, llcs: &[LlcLoad]) -> (yes: bool)
        ensures
            yes == plainly_fits(self@, llcs@),
            yes ==> plan_fits(self@, llcs@),
    {
        if llcs.len() < 2 {
            return true;
        }
        if self.streak == u32::MAX {
            return false;
        }
        let mut i: usize = 0;
        while i < llcs.len()
            invariant
                i <= llcs@.len(),
                2 <= llcs@.len(),
                forall|a: int|
                    0 <= a < i ==> {
                        &&& (#[trigger] llcs@[a]).capacity_ns * self@.cfg.imbalance_pct <= u64::MAX
                        &&& 2 * llcs@[a].capacity_ns <= i64::MAX
                        &&& llcs@[a].load_ns <= i64::MAX
                    },
                forall|a: int, b: int|
                    0 <= a < b < llcs@.len() && a < i ==> (#[trigger] llcs@[a]).llc != (
                    #[trigger] llcs@[b]).llc,
            decreases llcs@.len() - i,
        {
            let l = llcs[i];
            assert(l == llcs@[i as int]);
            if l.capacity_ns.checked_mul(self.cfg.imbalance_pct).is_none() || l.capacity_ns
                > i64::MAX as u64 / 2 || l.load_ns > i64::MAX as u64 {
                return false;
            }
            let mut j: usize = i + 1;
            while j < llcs.len()
                invariant
                    i < j <= llcs@.len(),
                    l == llcs@[i as int],
                    forall|b: int| i < b < j ==> l.llc != (#[trigger] llcs@[b]).llc,
                decreases llcs@.len() - j,
            {
                if llcs[j].llc == l.llc {
                    assert(llcs@[i as int].llc == llcs@[j as int].llc);
                    return false;
                }
                j = j + 1;
            }
            i = i + 1;
        }
        proof {
            lemma_plainly_fits(self@, llcs@);
        }
        true
    }

    /// Forget move timestamps for cohorts that no longer exist.
    pub fn retain_cohorts(&mut self, live: impl Fn(u64) -> bool)
        requires
            forall|id: u64| #[trigger] live.requires((id,)),
        ensures
            final(self)@.cfg == old(self)@.cfg,
            final(self)@.streak == old(self)@.streak,
            forall|id: u64| #[trigger]
                final(self)@.last_move_at.contains_key(id) ==> {
                    &&& old(self)@.last_move_at.contains_key(id)
                    &&& final(self)@.last_move_at[id] == old(self)@.last_move_at[id]
                    &&& live.ensures((id,), true)
                },
            forall|id: u64| #[trigger]
                old(self)@.last_move_at.contains_key(id)
                    && !final(self)@.last_move_at.contains_key(id) ==> live.ensures((id,), false),
    {
        let ghost start = self.last_move_at@;
        let mut ids: Vec<u64> = Vec::new();
        let keys = self.last_move_at.keys();
        let ghost order = keys.remaining().unref();
        for id in it: keys
            invariant
                it.seq().unref() == order,
                ids@ == order.take(it.index()),
        {
            ids.push(*id);
        }
        proof {
            assert(ids@ =~= order);
            assert(ids@.to_set() == start.dom());
        }
        let mut k: usize = 0;
        while k < ids.len()
            invariant
                k <= ids@.len(),
                ids@.to_set() == start.dom(),
                self.cfg == old(self).cfg,
                self.streak == old(self).streak,
                forall|id: u64| #[trigger] live.requires((id,)),
                forall|id: u64| #[trigger]
                    self.last_move_at@.contains_key(id) ==> start.contains_key(id)
                        && self.last_move_at@[id] == start[id],
                forall|id: u64| #[trigger]
                    start.contains_key(id) && !self.last_move_at@.contains_key(id)
                        ==> live.ensures((id,), false),
                forall|j: int|
                    0 <= j < k && self.last_move_at@.contains_key(#[trigger] ids@[j])
                        ==> live.ensures((ids@[j],), true),
            decreases ids@.len() - k,
        {
            let id: u64 = ids[k];
            if !live(id) {
                self.last_move_at.remove(&id);
            }
            k = k + 1;
        }
        proof {
            assert forall|id: u64| #[trigger] self.last_move_at@.contains_key(id) implies
                live.ensures((id,), true) by {
                assert(ids@.to_set().contains(id));
                let j = choose|j: int| 0 <= j < ids@.len() && ids@[j] == id;
                assert(self.last_move_at@.contains_key(ids@[j]));
            }
        }
    }

    /// Whether cohort `c` may move from LLC `from` into `room` nanoseconds
    /// of capacity.
    fn movable(
        &self,
        now_ms: u64,
        c: &CohortSnapshot,
        from: u32,
        room: u64,
        chosen: &HashSet<u64>,
    ) -> (yes: bool)
        ensures
            yes == {
                &&& c.home_llc == from
                &&& !c.pinned
                &&& c.nr_tasks > 0
                &&& 0 < c.load_ns <= room
                &&& !chosen@.contains(c.id)
                &&& (self@.last_move_at.contains_key(c.id) ==> elapsed_ms(
                    now_ms,
                    self@.last_move_at[c.id],
                ) >= residency(self@.cfg, *c))
            },
    {
        if c.home_llc != from || c.pinned || c.nr_tasks == 0 || c.load_ns == 0 || c.load_ns > room
            || chosen.contains(&c.id) {
            return false;
        }
        match self.last_move_at.get(&c.id) {
            None => true,
            Some(at) => {
                let wait: u64 = match c.residency_ms {
                    Some(ms) => ms,
                    None => self.cfg.residency_ms,
                };
                now_ms.saturating_sub(*at) >= wait
            },
        }
    }

    /// The cohort to move next under the projected loads.
    fn find_best(
        &self,
        now_ms: u64,
        proj: &Vec<LlcLoad>,
        cohorts: &[CohortSnapshot],
        chosen: &HashSet<u64>,
        hi: usize,
        lo: usize,
        Ghost(t): Ghost<Tick>,
    ) -> (best: Option<usize>)
        requires
            is_busiest(proj@, hi as int),
            is_idlest(proj@, lo as int),
            2 * proj@[lo as int].capacity_ns <= i64::MAX,
            t.cfg == self@.cfg,
            t.now_ms == now_ms,
            t.cohorts == cohorts@,
            forall|id: u64|
                !chosen@.contains(id) ==> {
                    &&& #[trigger] t.last_move_at.contains_key(id)
                        == self@.last_move_at.contains_key(id)
                    &&& t.last_move_at.contains_key(id) ==> t.last_move_at[id]
                        == self@.last_move_at[id]
                },
        ensures
            match best {
                Some(i) => i < cohorts@.len() && candidate(t, proj@, chosen@, cohorts@[i as int])
                    && pick(t, proj@, chosen@) == Some(i as int),
                None => pick(t, proj@, chosen@) is None,
            },
    {
        proof {
            lemma_busiest_unique(proj@, hi as int);
            lemma_idlest_unique(proj@, lo as int);
        }
        let from: u32 = proj[hi].llc;
        let room: u64 = proj[lo].capacity_ns;
        let gap: u64 = proj[hi].load_ns - proj[lo].load_ns;
        let mut best: Option<usize> = None;
        let mut k: usize = 0;
        while k < cohorts.len()
            invariant
                k <= cohorts@.len(),
                hi == busiest(proj@),
                lo == idlest(proj@),
                0 <= hi < proj@.len(),
                0 <= lo < proj@.len(),
                from == proj@[hi as int].llc,
                room == proj@[lo as int].capacity_ns,
                2 * room <= i64::MAX,
                gap == load_gap(proj@),
                t.cfg == self@.cfg,
                t.now_ms == now_ms,
                t.cohorts == cohorts@,
                forall|id: u64|
                    !chosen@.contains(id) ==> {
                        &&& #[trigger] t.last_move_at.contains_key(id)
                            == self@.last_move_at.contains_key(id)
                        &&& t.last_move_at.contains_key(id) ==> t.last_move_at[id]
                            == self@.last_move_at[id]
                    },
                match best {
                    Some(i) => {
                        &&& 0 <= i < k
                        &&& candidate(t, proj@, chosen@, cohorts@[i as int])
                        &&& forall|j: int|
                            0 <= j < k && candidate(t, proj@, chosen@, #[trigger] cohorts@[j])
                                ==> !repairs_better(
                                load_gap(proj@),
                                cohorts@[j],
                                cohorts@[i as int],
                            )
                        &&& forall|j: int|
                            0 <= j < i && candidate(t, proj@, chosen@, #[trigger] cohorts@[j])
                                ==> repairs_better(
                                load_gap(proj@),
                                cohorts@[i as int],
                                cohorts@[j],
                            )
                    },
                    None => forall|j: int|
                        0 <= j < k ==> !candidate(t, proj@, chosen@, #[trigger] cohorts@[j]),
                },
            decreases cohorts@.len() - k,
        {
            let c = &cohorts[k];
            if self.movable(now_ms, c, from, room, chosen) && repaired_gap(gap, c.load_ns) < gap {
                assert(candidate(t, proj@, chosen@, cohorts@[k as int]));
                match best {
                    None => {
                        best = Some(k);
                    },
                    Some(i) => {
                        let (new, old): (u64, u64) = (
                            repaired_gap(gap, c.load_ns),
                            repaired_gap(gap, cohorts[i].load_ns),
                        );
                        if new < old || (new == old && c.load_ns < cohorts[i].load_ns) {
                            best = Some(k);
                        }
                    },
                }
            } else {
                assert(!candidate(t, proj@, chosen@, cohorts@[k as int]));
            }
            k = k + 1;
        }
        proof {
            match best {
                Some(i) => {
                    assert(is_best(t, proj@, chosen@, i as int));
                    lemma_best_unique(t, proj@, chosen@, i as int);
                },
                None => {
                    assert forall|i: int| !is_best(t, proj@, chosen@, i) by {
                        if 0 <= i < cohorts@.len() {
                            assert(!candidate(t, proj@, chosen@, cohorts@[i]));
                        }
                    }
                },
            }
        }
        best
    }

    /// Plan one tick: the cohorts to move and where to.
    pub fn plan(
        &mut self,
        now_ms: u64,
        llcs: &[LlcLoad],
        cohorts: &[CohortSnapshot],
    ) -> (moves: Vec<Decision>)
        requires
            plan_fits(old(self)@, llcs@),
        ensures
            moves@ == planned(old(self)@, now_ms, llcs@, cohorts@),
            final(self)@ == after_plan(old(self)@, now_ms, llcs@, cohorts@),
    {
        let ghost b = self@;
        let mut out: Vec<Decision> = Vec::new();
        if llcs.len() < 2 {
            proof {
                assert(stamped(b.last_move_at, out@, now_ms) =~= b.last_move_at);
            }
            return out;
        }
        let hi: usize = find_busiest(llcs);
        let lo: usize = find_idlest(llcs);
        let threshold: u64 = llcs[lo].capacity_ns * self.cfg.imbalance_pct / 100;
        if llcs[hi].load_ns - llcs[lo].load_ns <= threshold {
            self.streak = 0;
            proof {
                assert(stamped(b.last_move_at, out@, now_ms) =~= b.last_move_at);
            }
            return out;
        }
        self.streak = self.streak + 1;
        if self.streak < self.cfg.confirm_ticks {
            proof {
                assert(stamped(b.last_move_at, out@, now_ms) =~= b.last_move_at);
            }
            return out;
        }
        let ghost t = Tick { cfg: b.cfg, now_ms, cohorts: cohorts@, last_move_at: b.last_move_at };
        let ghost room = b.cfg.max_moves_per_tick as nat;
        // Each pick is applied to the projection before the next, so a batch
        // converges on the balance point instead of every member of it
        // chasing the same stale gap and overshooting into a mirror imbalance.
        let mut proj: Vec<LlcLoad> = Vec::new();
        let mut k: usize = 0;
        while k < llcs.len()
            invariant
                k <= llcs@.len(),
                proj@ == llcs@.take(k as int),
            decreases llcs@.len() - k,
        {
            proj.push(llcs[k]);
            k = k + 1;
        }
        assert(proj@ =~= llcs@);
        let mut chosen: HashSet<u64> = HashSet::new();
        proof {
            assert(stamped(b.last_move_at, out@, now_ms) =~= b.last_move_at);
            assert(out@ + batch(t, llcs@, Set::empty(), room) =~= batch(
                t,
                llcs@,
                Set::empty(),
                room,
            ));
        }
        while out.len() < self.cfg.max_moves_per_tick
            invariant_except_break
                proj@.len() == llcs@.len(),
                llcs@.len() >= 2,
                plan_fits(b, llcs@),
                forall|i: int|
                    0 <= i < proj@.len() ==> {
                        &&& (#[trigger] proj@[i]).llc == llcs@[i].llc
                        &&& proj@[i].capacity_ns == llcs@[i].capacity_ns
                        &&& distinct_llcs(llcs@) ==> proj@[i].load_ns <= i64::MAX
                        &&& !distinct_llcs(llcs@) ==> proj@[i].load_ns <= llcs@[i].load_ns
                            + out@.len() * widest(llcs@)
                    },
                forall|id: u64| #[trigger] chosen@.contains(id) <==> moves_cohort(out@, id),
                out@ + batch(t, proj@, chosen@, (room - out@.len()) as nat) == batch(
                    t,
                    llcs@,
                    Set::empty(),
                    room,
                ),
            invariant
                out@.len() <= room,
                b.cfg == self@.cfg,
                room == self.cfg.max_moves_per_tick,
                self.streak == b.streak + 1,
                t == (Tick {
                    cfg: b.cfg,
                    now_ms,
                    cohorts: cohorts@,
                    last_move_at: b.last_move_at,
                }),
                self.last_move_at@ == stamped(b.last_move_at, out@, now_ms),
            ensures
                out@ == batch(t, llcs@, Set::empty(), room),
            decreases room - out@.len(),
        {
            let hi: usize = find_busiest(proj.as_slice());
            let lo: usize = find_idlest(proj.as_slice());
            let gap: u64 = proj[hi].load_ns - proj[lo].load_ns;
            let lo_cap: u64 = proj[lo].capacity_ns;
            proof {
                assert(llcs@[lo as int].capacity_ns == lo_cap);
            }
            if gap <= lo_cap * self.cfg.imbalance_pct / 100 {
                proof {
                    assert(!imbalanced(proj@, b.cfg.imbalance_pct));
                    assert(out@ + seq![] =~= out@);
                }
                break;
            }
            let best: Option<usize> = self.find_best(
                now_ms,
                &proj,
                cohorts,
                &chosen,
                hi,
                lo,
                Ghost(t),
            );
            match best {
                None => {
                    proof {
                        assert(out@ + seq![] =~= out@);
                    }
                    break;
                },
                Some(i) => {
                    let id: u64 = cohorts[i].id;
                    let load: u64 = cohorts[i].load_ns;
                    let from: u32 = proj[hi].llc;
                    let to: u32 = proj[lo].llc;
                    let ghost old_out = out@;
                    let ghost old_proj = proj@;
                    let ghost old_chosen = chosen@;
                    chosen.insert(id);
                    self.last_move_at.insert(id, now_ms);
                    out.push(Decision::MoveCohort { id, to });
                    proof {
                        lemma_batch_bounds(b, llcs@, old_proj, old_out.len() as int, hi as int, lo as int, load);
                        lemma_moves_push(old_out, out@.last());
                        assert(self.last_move_at@ =~= stamped(b.last_move_at, out@, now_ms));
                    }
                    shift_load(&mut proj, from, to, load);
                    proof {
                        assert(proj@ == after_move(t, old_proj, i as int));
                        assert(out@ + batch(
                            t,
                            proj@,
                            chosen@,
                            (room - out@.len()) as nat,
                        ) =~= old_out + batch(
                            t,
                            old_proj,
                            old_chosen,
                            (room - old_out.len()) as nat,
                        ));
                    }
                },
            }
        }
        if out.len() > 0 {
            self.streak = 0;
        }
        out
    }
}

} // verus!
