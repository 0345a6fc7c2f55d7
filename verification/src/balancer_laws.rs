//! What the load balancer promises of every plan and of every run of plans.
use vstd::prelude::*;

use crate::balancer::{
    after_move, after_plan, batch, busiest, confirmed, distinct_llcs, elapsed_ms, idlest,
    imbalanced, is_best, is_busiest, is_idlest, load_gap, moves_cohort, pick, planned, residency,
    rested, shifted, stamped, BalancerState, Tick,
};
use crate::domain::{CohortSnapshot, Decision, LlcLoad};

verus! {

// ---- Existence of extremes ----

pub proof fn lemma_busiest_exists(s: Seq<LlcLoad>)
    requires
        s.len() > 0,
    ensures
        is_busiest(s, busiest(s)),
    decreases s.len(),
{
    let last = s.len() - 1;
    if s.len() == 1 {
        assert(is_busiest(s, 0));
    } else {
        let front = s.drop_last();
        lemma_busiest_exists(front);
        let b = busiest(front);
        assert(forall|j: int| 0 <= j < last ==> front[j] == s[j]);
        if s[last].load_ns >= s[b].load_ns {
            assert forall|j: int| 0 <= j < s.len() implies (#[trigger] s[j]).load_ns
                <= s[last].load_ns by {
                if j < last {
                    assert(front[j].load_ns <= front[b].load_ns);
                }
            }
            assert(is_busiest(s, last));
        } else {
            assert forall|j: int| 0 <= j < s.len() implies (#[trigger] s[j]).load_ns
                <= s[b].load_ns by {
                if j < last {
                    assert(front[j].load_ns <= front[b].load_ns);
                }
            }
            assert forall|j: int| b < j < s.len() implies (#[trigger] s[j]).load_ns
                < s[b].load_ns by {
                if j < last {
                    assert(front[j].load_ns < front[b].load_ns);
                }
            }
            assert(is_busiest(s, b));
        }
    }
}

pub proof fn lemma_idlest_exists(s: Seq<LlcLoad>)
    requires
        s.len() > 0,
    ensures
        is_idlest(s, idlest(s)),
    decreases s.len(),
{
    let last = s.len() - 1;
    if s.len() == 1 {
        assert(is_idlest(s, 0));
    } else {
        let front = s.drop_last();
        lemma_idlest_exists(front);
        let b = idlest(front);
        assert(forall|j: int| 0 <= j < last ==> front[j] == s[j]);
        if s[last].load_ns < s[b].load_ns {
            assert forall|j: int| 0 <= j < s.len() implies s[last].load_ns <= (
            #[trigger] s[j]).load_ns by {
                if j < last {
                    assert(front[b].load_ns <= front[j].load_ns);
                }
            }
            assert forall|j: int| 0 <= j < last implies s[last].load_ns < (
            #[trigger] s[j]).load_ns by {
                assert(front[b].load_ns <= front[j].load_ns);
            }
            assert(is_idlest(s, last));
        } else {
            assert forall|j: int| 0 <= j < s.len() implies s[b].load_ns <= (
            #[trigger] s[j]).load_ns by {
                if j < last {
                    assert(front[b].load_ns <= front[j].load_ns);
                }
            }
            assert forall|j: int| 0 <= j < b implies s[b].load_ns < (#[trigger] s[j]).load_ns by {
                assert(front[b].load_ns < front[j].load_ns);
            }
            assert(is_idlest(s, b));
        }
    }
}

// ---- One batch ----

/// The loads as projected once every move of the batch has been made.
pub open spec fn projected(
    t: Tick,
    proj: Seq<LlcLoad>,
    chosen: Set<u64>,
    room: nat,
) -> Seq<LlcLoad>
    decreases room,
{
    if room == 0 || !imbalanced(proj, t.cfg.imbalance_pct) {
        proj
    } else {
        match pick(t, proj, chosen) {
            None => proj,
            Some(i) => projected(
                t,
                after_move(t, proj, i),
                chosen.insert(t.cohorts[i].id),
                (room - 1) as nat,
            ),
        }
    }
}

/// The cohorts picked once the batch is complete.
pub open spec fn picked(t: Tick, proj: Seq<LlcLoad>, chosen: Set<u64>, room: nat) -> Set<u64>
    decreases room,
{
    if room == 0 || !imbalanced(proj, t.cfg.imbalance_pct) {
        chosen
    } else {
        match pick(t, proj, chosen) {
            None => chosen,
            Some(i) => picked(
                t,
                after_move(t, proj, i),
                chosen.insert(t.cohorts[i].id),
                (room - 1) as nat,
            ),
        }
    }
}

/// Cohort `c` may be moved to LLC `to` under this tick.
pub open spec fn may_move_to(t: Tick, llcs: Seq<LlcLoad>, c: CohortSnapshot, to: u32) -> bool {
    &&& !c.pinned
    &&& c.nr_tasks > 0
    &&& c.load_ns > 0
    &&& rested(t, c)
    &&& exists|k: int|
        0 <= k < llcs.len() && (#[trigger] llcs[k]).llc == to && c.load_ns <= llcs[k].capacity_ns
    &&& exists|k: int| 0 <= k < llcs.len() && (#[trigger] llcs[k]).llc == c.home_llc
}

/// Decision `d` moves one of the tick's cohorts that may make that move.
pub open spec fn allowed_move(t: Tick, llcs: Seq<LlcLoad>, d: Decision) -> bool {
    exists|i: int|
        0 <= i < t.cohorts.len() && (#[trigger] t.cohorts[i]).id == d.cohort() && may_move_to(
            t,
            llcs,
            t.cohorts[i],
            d.target(),
        )
}

pub open spec fn same_llcs(a: Seq<LlcLoad>, b: Seq<LlcLoad>) -> bool {
    &&& a.len() == b.len()
    &&& forall|k: int|
        0 <= k < a.len() ==> (#[trigger] a[k]).llc == b[k].llc && a[k].capacity_ns
            == b[k].capacity_ns
}

proof fn lemma_batch_allowed(
    t: Tick,
    llcs: Seq<LlcLoad>,
    proj: Seq<LlcLoad>,
    chosen: Set<u64>,
    room: nat,
)
    requires
        llcs.len() > 0,
        same_llcs(proj, llcs),
    ensures
        batch(t, proj, chosen, room).len() <= room,
        forall|k: int|
            0 <= k < batch(t, proj, chosen, room).len() ==> allowed_move(
                t,
                llcs,
                #[trigger] batch(t, proj, chosen, room)[k],
            ) && !chosen.contains(batch(t, proj, chosen, room)[k].cohort()),
        forall|j: int, k: int|
            0 <= j < k < batch(t, proj, chosen, room).len() ==> (#[trigger] batch(
                t,
                proj,
                chosen,
                room,
            )[j]).cohort() != (#[trigger] batch(t, proj, chosen, room)[k]).cohort(),
    decreases room,
{
    let moves = batch(t, proj, chosen, room);
    if room == 0 || !imbalanced(proj, t.cfg.imbalance_pct) {
    } else {
        match pick(t, proj, chosen) {
            None => {},
            Some(i) => {
                let c = t.cohorts[i];
                assert(is_best(t, proj, chosen, i));
                let next = after_move(t, proj, i);
                let rest = batch(t, next, chosen.insert(c.id), (room - 1) as nat);
                lemma_batch_allowed(t, llcs, next, chosen.insert(c.id), (room - 1) as nat);
                lemma_busiest_exists(proj);
                lemma_idlest_exists(proj);
                let (hi, lo) = (busiest(proj), idlest(proj));
                let first = moves[0];
                assert(first == Decision::MoveCohort { id: c.id, to: proj[lo].llc });
                assert(llcs[lo].llc == first.target());
                assert(llcs[hi].llc == c.home_llc);
                assert(may_move_to(t, llcs, c, first.target()));
                assert(t.cohorts[i].id == first.cohort());
                assert(allowed_move(t, llcs, first));
                assert(forall|k: int| 1 <= k < moves.len() ==> #[trigger] moves[k] == rest[k - 1]);
                assert forall|k: int| 0 <= k < moves.len() implies allowed_move(
                    t,
                    llcs,
                    #[trigger] moves[k],
                ) && !chosen.contains(moves[k].cohort()) by {
                    if k > 0 {
                        assert(moves[k] == rest[k - 1]);
                        assert(!chosen.insert(c.id).contains(rest[k - 1].cohort()));
                    }
                }
                assert forall|j: int, k: int| 0 <= j < k < moves.len() implies (
                #[trigger] moves[j]).cohort() != (#[trigger] moves[k]).cohort() by {
                    assert(moves[k] == rest[k - 1]);
                    assert(!chosen.insert(c.id).contains(rest[k - 1].cohort()));
                    if j > 0 {
                        assert(moves[j] == rest[j - 1]);
                    }
                }
            },
        }
    }
}

/// The planning inputs of one tick.
pub open spec fn tick_of(b: BalancerState, now_ms: u64, cohorts: Seq<CohortSnapshot>) -> Tick {
    Tick { cfg: b.cfg, now_ms, cohorts, last_move_at: b.last_move_at }
}

/// Every plan moves whole cohorts of the tick, each at most once and no more
/// than `max_moves_per_tick` of them. A cohort that moves is not pinned, has
/// tasks and load, is past its residency, and fits into the LLC it is sent
/// to.
pub proof fn law_only_eligible_cohorts_move(
    b: BalancerState,
    now_ms: u64,
    llcs: Seq<LlcLoad>,
    cohorts: Seq<CohortSnapshot>,
)
    ensures
        planned(b, now_ms, llcs, cohorts).len() <= b.cfg.max_moves_per_tick,
        forall|k: int|
            0 <= k < planned(b, now_ms, llcs, cohorts).len() ==> allowed_move(
                tick_of(b, now_ms, cohorts),
                llcs,
                #[trigger] planned(b, now_ms, llcs, cohorts)[k],
            ),
        forall|j: int, k: int|
            0 <= j < k < planned(b, now_ms, llcs, cohorts).len() ==> (#[trigger] planned(
                b,
                now_ms,
                llcs,
                cohorts,
            )[j]).cohort() != (#[trigger] planned(b, now_ms, llcs, cohorts)[k]).cohort(),
{
    if confirmed(b, llcs) {
        lemma_batch_allowed(
            tick_of(b, now_ms, cohorts),
            llcs,
            llcs,
            Set::empty(),
            b.cfg.max_moves_per_tick as nat,
        );
    }
}

/// A cohort that every snapshot shows pinned, or demanding more than any LLC
/// can hold, is never moved.
pub proof fn law_pinned_and_oversized_never_move(
    b: BalancerState,
    now_ms: u64,
    llcs: Seq<LlcLoad>,
    cohorts: Seq<CohortSnapshot>,
    id: u64,
)
    requires
        forall|i: int|
            0 <= i < cohorts.len() && (#[trigger] cohorts[i]).id == id ==> cohorts[i].pinned || (
            forall|k: int| 0 <= k < llcs.len() ==> cohorts[i].load_ns > (
            #[trigger] llcs[k]).capacity_ns),
    ensures
        !moves_cohort(planned(b, now_ms, llcs, cohorts), id),
{
    law_only_eligible_cohorts_move(b, now_ms, llcs, cohorts);
    let moves = planned(b, now_ms, llcs, cohorts);
    if moves_cohort(moves, id) {
        let k = choose|k: int| 0 <= k < moves.len() && (#[trigger] moves[k]).cohort() == id;
        let t = tick_of(b, now_ms, cohorts);
        assert(allowed_move(t, llcs, moves[k]));
        let i = choose|i: int|
            0 <= i < t.cohorts.len() && (#[trigger] t.cohorts[i]).id == moves[k].cohort()
                && may_move_to(t, llcs, t.cohorts[i], moves[k].target());
        assert(cohorts[i].id == id);
    }
}

// ---- Residency ----

/// A cohort that one plan moved is not moved by a later plan before its
/// residency has run out, as long as its timestamp is kept.
pub proof fn law_moved_cohorts_are_immune(
    b: BalancerState,
    now_ms: u64,
    llcs: Seq<LlcLoad>,
    cohorts: Seq<CohortSnapshot>,
    later: BalancerState,
    later_ms: u64,
    later_llcs: Seq<LlcLoad>,
    later_cohorts: Seq<CohortSnapshot>,
    id: u64,
)
    requires
        moves_cohort(planned(b, now_ms, llcs, cohorts), id),
        later.last_move_at.contains_key(id),
        later.last_move_at[id] == after_plan(b, now_ms, llcs, cohorts).last_move_at[id],
        forall|i: int|
            0 <= i < later_cohorts.len() && (#[trigger] later_cohorts[i]).id == id ==> elapsed_ms(
                later_ms,
                now_ms,
            ) < residency(later.cfg, later_cohorts[i]),
    ensures
        after_plan(b, now_ms, llcs, cohorts).last_move_at.contains_key(id),
        after_plan(b, now_ms, llcs, cohorts).last_move_at[id] == now_ms,
        !moves_cohort(planned(later, later_ms, later_llcs, later_cohorts), id),
{
    law_only_eligible_cohorts_move(later, later_ms, later_llcs, later_cohorts);
    let moves = planned(later, later_ms, later_llcs, later_cohorts);
    if moves_cohort(moves, id) {
        let k = choose|k: int| 0 <= k < moves.len() && (#[trigger] moves[k]).cohort() == id;
        let t = tick_of(later, later_ms, later_cohorts);
        assert(allowed_move(t, later_llcs, moves[k]));
        let i = choose|i: int|
            0 <= i < t.cohorts.len() && (#[trigger] t.cohorts[i]).id == moves[k].cohort()
                && may_move_to(t, later_llcs, t.cohorts[i], moves[k].target());
        assert(later_cohorts[i].id == id);
        assert(rested(t, t.cohorts[i]));
    }
}

/// A plan leaves the timestamps of the cohorts it does not move alone.
pub proof fn law_unmoved_cohorts_keep_their_timestamp(
    b: BalancerState,
    now_ms: u64,
    llcs: Seq<LlcLoad>,
    cohorts: Seq<CohortSnapshot>,
    id: u64,
)
    requires
        !moves_cohort(planned(b, now_ms, llcs, cohorts), id),
    ensures
        after_plan(b, now_ms, llcs, cohorts).last_move_at.contains_key(id)
            == b.last_move_at.contains_key(id),
        b.last_move_at.contains_key(id) ==> after_plan(b, now_ms, llcs, cohorts).last_move_at[id]
            == b.last_move_at[id],
{
}

// ---- The gap ----

/// No load of `a` lies outside the range of the loads of `b`.
pub open spec fn within_range(a: Seq<LlcLoad>, b: Seq<LlcLoad>) -> bool {
    &&& forall|k: int| 0 <= k < a.len() ==> (#[trigger] a[k]).load_ns <= b[busiest(b)].load_ns
    &&& forall|k: int| 0 <= k < a.len() ==> b[idlest(b)].load_ns <= (#[trigger] a[k]).load_ns
}

proof fn lemma_one_move(t: Tick, proj: Seq<LlcLoad>, chosen: Set<u64>, i: int)
    requires
        proj.len() >= 2,
        distinct_llcs(proj),
        is_best(t, proj, chosen, i),
    ensures
        ({
            let next = after_move(t, proj, i);
            &&& same_llcs(next, proj)
            &&& within_range(next, proj)
            &&& load_gap(next) <= load_gap(proj)
            &&& proj.len() == 2 ==> load_gap(next) < load_gap(proj)
        }),
{
    let next = after_move(t, proj, i);
    lemma_busiest_exists(proj);
    lemma_idlest_exists(proj);
    let (hi, lo) = (busiest(proj), idlest(proj));
    let load = t.cohorts[i].load_ns;
    let gap = load_gap(proj);
    assert(0 < load < gap);
    assert(hi != lo);
    assert(proj[hi].llc != proj[lo].llc) by {
        if hi < lo {
            assert(proj[hi].llc != proj[lo].llc);
        } else {
            assert(proj[lo].llc != proj[hi].llc);
        }
    }
    assert(next[hi].load_ns == proj[hi].load_ns - load);
    assert(next[lo].load_ns == proj[lo].load_ns + load);
    assert forall|k: int| 0 <= k < next.len() && k != hi && k != lo implies (
    #[trigger] next[k]).load_ns == proj[k].load_ns by {
        assert(proj[k].llc != proj[hi].llc) by {
            if k < hi {
                assert(proj[k].llc != proj[hi].llc);
            } else {
                assert(proj[hi].llc != proj[k].llc);
            }
        }
        assert(proj[k].llc != proj[lo].llc) by {
            if k < lo {
                assert(proj[k].llc != proj[lo].llc);
            } else {
                assert(proj[lo].llc != proj[k].llc);
            }
        }
    }
    assert(within_range(next, proj)) by {
        assert forall|k: int| 0 <= k < next.len() implies (#[trigger] next[k]).load_ns
            <= proj[hi].load_ns && proj[lo].load_ns <= next[k].load_ns by {
            if k != hi && k != lo {
                assert(proj[k].load_ns <= proj[hi].load_ns);
            }
        }
    }
    lemma_busiest_exists(next);
    lemma_idlest_exists(next);
    let (nhi, nlo) = (busiest(next), idlest(next));
    assert(next[nhi].load_ns <= proj[hi].load_ns);
    assert(proj[lo].load_ns <= next[nlo].load_ns);
}

proof fn lemma_distinct_shift(proj: Seq<LlcLoad>, from: u32, to: u32, load: u64)
    requires
        distinct_llcs(proj),
    ensures
        distinct_llcs(shifted(proj, from, to, load)),
{
    let next = shifted(proj, from, to, load);
    assert forall|i: int, j: int| 0 <= i < j < next.len() implies (#[trigger] next[i]).llc != (
    #[trigger] next[j]).llc by {
        assert(proj[i].llc != proj[j].llc);
    }
}

proof fn lemma_batch_gap(t: Tick, proj: Seq<LlcLoad>, chosen: Set<u64>, room: nat)
    requires
        proj.len() >= 2,
        distinct_llcs(proj),
    ensures
        same_llcs(projected(t, proj, chosen, room), proj),
        load_gap(projected(t, proj, chosen, room)) <= load_gap(proj),
        within_range(projected(t, proj, chosen, room), proj),
        proj.len() == 2 && batch(t, proj, chosen, room).len() > 0 ==> load_gap(
            projected(t, proj, chosen, room),
        ) < load_gap(proj),
    decreases room,
{
    lemma_busiest_exists(proj);
    lemma_idlest_exists(proj);
    if room == 0 || !imbalanced(proj, t.cfg.imbalance_pct) {
    } else {
        match pick(t, proj, chosen) {
            None => {},
            Some(i) => {
                assert(is_best(t, proj, chosen, i));
                let next = after_move(t, proj, i);
                let more = chosen.insert(t.cohorts[i].id);
                lemma_one_move(t, proj, chosen, i);
                lemma_distinct_shift(
                    proj,
                    proj[busiest(proj)].llc,
                    proj[idlest(proj)].llc,
                    t.cohorts[i].load_ns,
                );
                lemma_batch_gap(t, next, more, (room - 1) as nat);
                lemma_busiest_exists(next);
                lemma_idlest_exists(next);
                let end = projected(t, proj, chosen, room);
                assert(next[busiest(next)].load_ns <= proj[busiest(proj)].load_ns);
                assert(proj[idlest(proj)].load_ns <= next[idlest(next)].load_ns);
                assert(within_range(end, proj));
            },
        }
    }
}

/// Planning against the projection never makes things worse: once a whole
/// batch has been made no LLC is busier than the busiest was, none is idler
/// than the idlest was, so the gap has not grown; with two LLCs any batch
/// narrows it.
pub proof fn law_a_batch_never_widens_the_gap(
    b: BalancerState,
    now_ms: u64,
    llcs: Seq<LlcLoad>,
    cohorts: Seq<CohortSnapshot>,
)
    requires
        confirmed(b, llcs),
        distinct_llcs(llcs),
    ensures
        ({
            let end = projected(
                tick_of(b, now_ms, cohorts),
                llcs,
                Set::empty(),
                b.cfg.max_moves_per_tick as nat,
            );
            &&& same_llcs(end, llcs)
            &&& within_range(end, llcs)
            &&& load_gap(end) <= load_gap(llcs)
            &&& llcs.len() == 2 && planned(b, now_ms, llcs, cohorts).len() > 0 ==> load_gap(end)
                < load_gap(llcs)
        }),
{
    lemma_batch_gap(
        tick_of(b, now_ms, cohorts),
        llcs,
        Set::empty(),
        b.cfg.max_moves_per_tick as nat,
    );
}

proof fn lemma_batch_stops(t: Tick, proj: Seq<LlcLoad>, chosen: Set<u64>, room: nat)
    ensures
        ({
            let end = projected(t, proj, chosen, room);
            ||| batch(t, proj, chosen, room).len() == room
            ||| !imbalanced(end, t.cfg.imbalance_pct)
            ||| pick(t, end, picked(t, proj, chosen, room)) is None
        }),
        forall|id: u64| #[trigger]
            picked(t, proj, chosen, room).contains(id) <==> chosen.contains(id) || moves_cohort(
                batch(t, proj, chosen, room),
                id,
            ),
    decreases room,
{
    let moves = batch(t, proj, chosen, room);
    if room == 0 || !imbalanced(proj, t.cfg.imbalance_pct) {
    } else {
        match pick(t, proj, chosen) {
            None => {},
            Some(i) => {
                let next = after_move(t, proj, i);
                let id0 = t.cohorts[i].id;
                let more = chosen.insert(id0);
                let rest = batch(t, next, more, (room - 1) as nat);
                lemma_batch_stops(t, next, more, (room - 1) as nat);
                assert(forall|k: int| 1 <= k < moves.len() ==> #[trigger] moves[k] == rest[k - 1]);
                assert forall|id: u64| #[trigger]
                    picked(t, proj, chosen, room).contains(id) <==> chosen.contains(id)
                        || moves_cohort(moves, id) by {
                    if moves_cohort(rest, id) {
                        let k = choose|k: int|
                            0 <= k < rest.len() && (#[trigger] rest[k]).cohort() == id;
                        assert(moves[k + 1].cohort() == id);
                    }
                    if moves_cohort(moves, id) {
                        let k = choose|k: int|
                            0 <= k < moves.len() && (#[trigger] moves[k]).cohort() == id;
                        if k > 0 {
                            assert(rest[k - 1].cohort() == id);
                        }
                    }
                    assert(moves[0].cohort() == id0);
                }
            },
        }
    }
}

/// A batch stops only at its cap, inside the threshold, or when no cohort
/// that has not moved yet would repair what is left of the gap.
pub proof fn law_a_batch_goes_as_far_as_it_can(
    b: BalancerState,
    now_ms: u64,
    llcs: Seq<LlcLoad>,
    cohorts: Seq<CohortSnapshot>,
    moved: Set<u64>,
)
    requires
        confirmed(b, llcs),
        forall|id: u64| #[trigger]
            moved.contains(id) <==> moves_cohort(planned(b, now_ms, llcs, cohorts), id),
    ensures
        ({
            let t = tick_of(b, now_ms, cohorts);
            let end = projected(t, llcs, Set::empty(), b.cfg.max_moves_per_tick as nat);
            ||| planned(b, now_ms, llcs, cohorts).len() == b.cfg.max_moves_per_tick
            ||| !imbalanced(end, b.cfg.imbalance_pct)
            ||| pick(t, end, moved) is None
        }),
{
    let t = tick_of(b, now_ms, cohorts);
    let room = b.cfg.max_moves_per_tick as nat;
    lemma_batch_stops(t, llcs, Set::empty(), room);
    assert(picked(t, llcs, Set::empty(), room) =~= moved);
}

// ---- Confirmation ----

/// One balancer tick of a run.
pub struct TickInput {
    pub now_ms: u64,
    pub llcs: Seq<LlcLoad>,
    pub cohorts: Seq<CohortSnapshot>,
}

/// What the balancer remembers after a run of ticks.
pub open spec fn after_run(b: BalancerState, ticks: Seq<TickInput>) -> BalancerState
    decreases ticks.len(),
{
    if ticks.len() == 0 {
        b
    } else {
        let before = after_run(b, ticks.drop_last());
        after_plan(before, ticks.last().now_ms, ticks.last().llcs, ticks.last().cohorts)
    }
}

/// The decisions of tick `k` of a run.
pub open spec fn moves_at(b: BalancerState, ticks: Seq<TickInput>, k: int) -> Seq<Decision> {
    planned(after_run(b, ticks.take(k)), ticks[k].now_ms, ticks[k].llcs, ticks[k].cohorts)
}

/// Tick `k` of a run was over the threshold and moved nothing.
pub open spec fn observed_only(b: BalancerState, ticks: Seq<TickInput>, k: int) -> bool {
    imbalanced(ticks[k].llcs, b.cfg.imbalance_pct) && moves_at(b, ticks, k).len() == 0
}

proof fn lemma_streak_bound(b: BalancerState, ticks: Seq<TickInput>)
    requires
        b.streak == 0,
    ensures
        after_run(b, ticks).cfg == b.cfg,
        0 <= after_run(b, ticks).streak <= ticks.len(),
    decreases ticks.len(),
{
    if ticks.len() > 0 {
        lemma_streak_bound(b, ticks.drop_last());
    }
}

/// A tick over two LLCs or more that was calm or moved something starts the
/// streak over.
proof fn lemma_streak_since(b: BalancerState, ticks: Seq<TickInput>, j: int)
    requires
        b.streak == 0,
        0 <= j < ticks.len(),
        ticks[j].llcs.len() >= 2,
        !observed_only(b, ticks, j),
    ensures
        after_run(b, ticks).streak <= ticks.len() - j - 1,
    decreases ticks.len(),
{
    let front = ticks.drop_last();
    let last = ticks.len() - 1;
    lemma_streak_bound(b, front);
    if j < last {
        assert(front.take(j) =~= ticks.take(j));
        lemma_streak_since(b, front, j);
    } else {
        assert(ticks.take(last) =~= front);
    }
}

/// Nothing moves before the imbalance has persisted: when a balancer that
/// has been run over `ticks` moves a cohort, that tick and the
/// `confirm_ticks - 1` ticks before it were all over the threshold, and
/// those before it moved nothing, as long as there were two LLCs to compare.
pub proof fn law_moves_are_confirmed(
    b: BalancerState,
    ticks: Seq<TickInput>,
    now_ms: u64,
    llcs: Seq<LlcLoad>,
    cohorts: Seq<CohortSnapshot>,
)
    requires
        b.streak == 0,
        forall|k: int|
            0 <= k < ticks.len() && ticks.len() + 1 - b.cfg.confirm_ticks <= k ==> (
            #[trigger] ticks[k]).llcs.len() >= 2,
        planned(after_run(b, ticks), now_ms, llcs, cohorts).len() > 0,
    ensures
        imbalanced(llcs, b.cfg.imbalance_pct),
        ticks.len() + 1 >= b.cfg.confirm_ticks,
        forall|k: int|
            ticks.len() + 1 - b.cfg.confirm_ticks <= k < ticks.len()
                ==> #[trigger] observed_only(b, ticks, k),
{
    lemma_streak_bound(b, ticks);
    assert forall|k: int|
        ticks.len() + 1 - b.cfg.confirm_ticks <= k < ticks.len() implies #[trigger] observed_only(
        b,
        ticks,
        k,
    ) by {
        assert(ticks[k].llcs.len() >= 2);
        if !observed_only(b, ticks, k) {
            lemma_streak_since(b, ticks, k);
        }
    }
}

/// A tick within the threshold moves nothing and starts the confirmation
/// over.
pub proof fn law_a_calm_tick_resets_the_confirmation(
    b: BalancerState,
    now_ms: u64,
    llcs: Seq<LlcLoad>,
    cohorts: Seq<CohortSnapshot>,
)
    requires
        llcs.len() >= 2,
        !imbalanced(llcs, b.cfg.imbalance_pct),
    ensures
        planned(b, now_ms, llcs, cohorts).len() == 0,
        after_plan(b, now_ms, llcs, cohorts).streak == 0,
        after_plan(b, now_ms, llcs, cohorts).last_move_at == b.last_move_at,
{
    assert(stamped(b.last_move_at, seq![], now_ms) =~= b.last_move_at);
}

} // verus!
