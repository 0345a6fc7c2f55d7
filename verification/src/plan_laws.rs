//! What a balancer tick comes to, told from the snapshots alone: when a cohort
//! moves, which one and where to, and what is planned after it.
use vstd::prelude::*;

use crate::balancer::{
    after_move, after_plan, batch, busiest, candidate, confirmed, idlest, imbalanced,
    is_best, is_busiest, is_idlest, lemma_best_unique, lemma_busiest_unique, lemma_idlest_unique,
    load_gap, moves_cohort, pick, planned, repairs_better, BalancerState, Tick,
};
use crate::balancer_laws::tick_of;
use crate::domain::{CohortSnapshot, Decision, LlcLoad};

verus! {

// ---- Words for what the laws say ----

/// `hi` is the most loaded LLC, the last of equals, and `lo` the least loaded
/// one, the first of equals.
pub open spec fn extremes(llcs: Seq<LlcLoad>, hi: int, lo: int) -> bool {
    &&& 0 <= hi < llcs.len()
    &&& 0 <= lo < llcs.len()
    &&& forall|j: int|
        0 <= j < llcs.len() ==> llcs[lo].load_ns <= (#[trigger] llcs[j]).load_ns
            <= llcs[hi].load_ns
    &&& forall|j: int| hi < j < llcs.len() ==> (#[trigger] llcs[j]).load_ns < llcs[hi].load_ns
    &&& forall|j: int| 0 <= j < lo ==> llcs[lo].load_ns < (#[trigger] llcs[j]).load_ns
}

/// How far `gap` and twice the load are apart: the gap once the load has moved.
pub open spec fn left_over(gap: int, load: u64) -> int {
    if gap > 2 * load {
        gap - 2 * load
    } else {
        2 * load - gap
    }
}

/// Moving cohort `k` from `hi` to `lo` is allowed and narrows the gap: it lives
/// on `hi`, is not pinned, has tasks and load, would fit into `lo`, and has not
/// moved for as long as it or the configuration asks.
pub open spec fn repairs(
    b: BalancerState,
    now_ms: u64,
    llcs: Seq<LlcLoad>,
    cohorts: Seq<CohortSnapshot>,
    hi: int,
    lo: int,
    k: int,
) -> bool {
    let c = cohorts[k];
    let gap = llcs[hi].load_ns - llcs[lo].load_ns;
    let stay = match c.residency_ms {
        Some(ms) => ms,
        None => b.cfg.residency_ms,
    };
    &&& 0 <= k < cohorts.len()
    &&& c.home_llc == llcs[hi].llc
    &&& !c.pinned
    &&& c.nr_tasks > 0
    &&& c.load_ns > 0
    &&& c.load_ns <= llcs[lo].capacity_ns
    &&& b.last_move_at.contains_key(c.id) ==> b.last_move_at[c.id] + stay <= now_ms || stay == 0
    &&& left_over(gap, c.load_ns) < gap
}

// ---- From the plan to the snapshots ----

pub proof fn lemma_extremes(llcs: Seq<LlcLoad>, hi: int, lo: int)
    requires
        extremes(llcs, hi, lo),
    ensures
        busiest(llcs) == hi,
        idlest(llcs) == lo,
        load_gap(llcs) == llcs[hi].load_ns - llcs[lo].load_ns,
{
    assert(is_busiest(llcs, hi));
    assert(is_idlest(llcs, lo));
    lemma_busiest_unique(llcs, hi);
    lemma_idlest_unique(llcs, lo);
}

proof fn lemma_repairs(
    b: BalancerState,
    now_ms: u64,
    llcs: Seq<LlcLoad>,
    cohorts: Seq<CohortSnapshot>,
    hi: int,
    lo: int,
    k: int,
)
    requires
        extremes(llcs, hi, lo),
        0 <= k < cohorts.len(),
    ensures
        repairs(b, now_ms, llcs, cohorts, hi, lo, k) <==> candidate(
            tick_of(b, now_ms, cohorts),
            llcs,
            Set::empty(),
            cohorts[k],
        ),
{
    lemma_extremes(llcs, hi, lo);
}

/// Among the first `n` cohorts, the candidate that repairs best.
proof fn lemma_best_among(t: Tick, proj: Seq<LlcLoad>, chosen: Set<u64>, n: int) -> (i: int)
    requires
        0 <= n <= t.cohorts.len(),
        exists|k: int| 0 <= k < n && candidate(t, proj, chosen, #[trigger] t.cohorts[k]),
    ensures
        0 <= i < n,
        candidate(t, proj, chosen, t.cohorts[i]),
        forall|j: int|
            0 <= j < n && candidate(t, proj, chosen, #[trigger] t.cohorts[j]) ==> !repairs_better(
                load_gap(proj),
                t.cohorts[j],
                t.cohorts[i],
            ),
        forall|j: int|
            0 <= j < i && candidate(t, proj, chosen, #[trigger] t.cohorts[j]) ==> repairs_better(
                load_gap(proj),
                t.cohorts[i],
                t.cohorts[j],
            ),
    decreases n,
{
    let last = n - 1;
    if exists|k: int| 0 <= k < last && candidate(t, proj, chosen, #[trigger] t.cohorts[k]) {
        let i = lemma_best_among(t, proj, chosen, last);
        if candidate(t, proj, chosen, t.cohorts[last]) && repairs_better(
            load_gap(proj),
            t.cohorts[last],
            t.cohorts[i],
        ) {
            last
        } else {
            i
        }
    } else {
        last
    }
}

proof fn lemma_best_exists(t: Tick, proj: Seq<LlcLoad>, chosen: Set<u64>, k: int) -> (i: int)
    requires
        0 <= k < t.cohorts.len(),
        candidate(t, proj, chosen, t.cohorts[k]),
    ensures
        is_best(t, proj, chosen, i),
        pick(t, proj, chosen) == Some(i),
{
    let i = lemma_best_among(t, proj, chosen, t.cohorts.len() as int);
    assert(is_best(t, proj, chosen, i));
    lemma_best_unique(t, proj, chosen, i);
    i
}

// ---- The first move ----

/// A confirmed imbalance is repaired if it can be: where some cohort on the
/// most loaded LLC is not pinned, has tasks, has rested, has a load that the
/// least loaded LLC can hold, and leaves less of a gap by moving there, the
/// plan starts by sending such a cohort there, one that leaves the least gap;
/// of those the smallest, of equals the first.
pub proof fn law_a_repairable_gap_is_repaired(
    b: BalancerState,
    now_ms: u64,
    llcs: Seq<LlcLoad>,
    cohorts: Seq<CohortSnapshot>,
    hi: int,
    lo: int,
    k: int,
)
    requires
        llcs.len() >= 2,
        extremes(llcs, hi, lo),
        llcs[hi].load_ns - llcs[lo].load_ns > llcs[lo].capacity_ns * b.cfg.imbalance_pct / 100,
        b.streak + 1 >= b.cfg.confirm_ticks,
        b.cfg.max_moves_per_tick >= 1,
        0 <= k < cohorts.len(),
        cohorts[k].home_llc == llcs[hi].llc,
        !cohorts[k].pinned,
        cohorts[k].nr_tasks > 0,
        0 < cohorts[k].load_ns <= llcs[lo].capacity_ns,
        b.last_move_at.contains_key(cohorts[k].id) ==> b.last_move_at[cohorts[k].id] + (
        match cohorts[k].residency_ms {
            Some(ms) => ms,
            None => b.cfg.residency_ms,
        }) <= now_ms,
        cohorts[k].load_ns < llcs[hi].load_ns - llcs[lo].load_ns,
    ensures
        planned(b, now_ms, llcs, cohorts).len() > 0,
        exists|i: int|
            {
                let gap = llcs[hi].load_ns - llcs[lo].load_ns;
                let c = cohorts[i];
                &&& #[trigger] repairs(b, now_ms, llcs, cohorts, hi, lo, i)
                &&& planned(b, now_ms, llcs, cohorts)[0] == (Decision::MoveCohort {
                    id: c.id,
                    to: llcs[lo].llc,
                })
                &&& forall|j: int| #[trigger]
                    repairs(b, now_ms, llcs, cohorts, hi, lo, j) ==> {
                        let e = cohorts[j];
                        &&& left_over(gap, c.load_ns) <= left_over(gap, e.load_ns)
                        &&& left_over(gap, c.load_ns) == left_over(gap, e.load_ns) ==> c.load_ns
                            <= e.load_ns
                        &&& left_over(gap, c.load_ns) == left_over(gap, e.load_ns) && c.load_ns
                            == e.load_ns ==> i <= j
                    }
            },
{
    let t = tick_of(b, now_ms, cohorts);
    lemma_extremes(llcs, hi, lo);
    lemma_repairs(b, now_ms, llcs, cohorts, hi, lo, k);
    let i = lemma_best_exists(t, llcs, Set::empty(), k);
    lemma_repairs(b, now_ms, llcs, cohorts, hi, lo, i);
    assert(repairs(b, now_ms, llcs, cohorts, hi, lo, i));
    assert forall|j: int| #[trigger] repairs(b, now_ms, llcs, cohorts, hi, lo, j) implies ({
        let gap = llcs[hi].load_ns - llcs[lo].load_ns;
        let (c, e) = (cohorts[i], cohorts[j]);
        &&& left_over(gap, c.load_ns) <= left_over(gap, e.load_ns)
        &&& left_over(gap, c.load_ns) == left_over(gap, e.load_ns) ==> c.load_ns <= e.load_ns
        &&& left_over(gap, c.load_ns) == left_over(gap, e.load_ns) && c.load_ns == e.load_ns ==> i
            <= j
    }) by {
        lemma_repairs(b, now_ms, llcs, cohorts, hi, lo, j);
        assert(candidate(t, llcs, Set::empty(), t.cohorts[j]));
    }
}

/// Nothing moves without need or leave: not within the threshold, not before
/// the imbalance is confirmed, not with no moves allowed, not without two LLCs,
/// and not where no cohort repairs the gap.
pub proof fn law_nothing_moves_without_cause(
    b: BalancerState,
    now_ms: u64,
    llcs: Seq<LlcLoad>,
    cohorts: Seq<CohortSnapshot>,
    hi: int,
    lo: int,
)
    requires
        llcs.len() >= 2 ==> extremes(llcs, hi, lo),
        ({
            ||| llcs.len() < 2
            ||| llcs[hi].load_ns - llcs[lo].load_ns <= llcs[lo].capacity_ns * b.cfg.imbalance_pct
                / 100
            ||| b.streak + 1 < b.cfg.confirm_ticks
            ||| b.cfg.max_moves_per_tick == 0
            ||| forall|k: int| !#[trigger] repairs(b, now_ms, llcs, cohorts, hi, lo, k)
        }),
    ensures
        planned(b, now_ms, llcs, cohorts).len() == 0,
{
    if llcs.len() >= 2 {
        lemma_extremes(llcs, hi, lo);
        let t = tick_of(b, now_ms, cohorts);
        if confirmed(b, llcs) && b.cfg.max_moves_per_tick > 0 {
            if exists|i: int| is_best(t, llcs, Set::empty(), i) {
                let i = choose|i: int| is_best(t, llcs, Set::empty(), i);
                lemma_repairs(b, now_ms, llcs, cohorts, hi, lo, i);
                assert(repairs(b, now_ms, llcs, cohorts, hi, lo, i));
            }
        }
    }
}

// ---- The moves after it ----

/// The two ticks differ in that one has the cohort among those picked already
/// and the other sees it pinned.
spec fn set_aside(t: Tick, u: Tick, id: u64) -> bool {
    &&& t.cfg.imbalance_pct == u.cfg.imbalance_pct
    &&& t.cfg.residency_ms == u.cfg.residency_ms
    &&& t.now_ms == u.now_ms
    &&& t.last_move_at == u.last_move_at
    &&& t.cohorts.len() == u.cohorts.len()
    &&& forall|i: int|
        0 <= i < t.cohorts.len() ==> #[trigger] u.cohorts[i] == (if t.cohorts[i].id == id {
            CohortSnapshot { pinned: true, ..t.cohorts[i] }
        } else {
            t.cohorts[i]
        })
}

proof fn lemma_set_aside(t: Tick, u: Tick, id: u64, proj: Seq<LlcLoad>, chosen: Set<u64>, room: nat)
    requires
        set_aside(t, u, id),
    ensures
        batch(t, proj, chosen.insert(id), room) == batch(u, proj, chosen, room),
    decreases room,
{
    let more = chosen.insert(id);
    if room > 0 && imbalanced(proj, t.cfg.imbalance_pct) {
        assert forall|i: int| 0 <= i < t.cohorts.len() implies candidate(
            t,
            proj,
            more,
            #[trigger] t.cohorts[i],
        ) == candidate(u, proj, chosen, u.cohorts[i]) && t.cohorts[i].id == u.cohorts[i].id
            && t.cohorts[i].load_ns == u.cohorts[i].load_ns by {
            let _ = u.cohorts[i];
        }
        assert forall|i: int| is_best(t, proj, more, i) <==> is_best(u, proj, chosen, i) by {
            if is_best(t, proj, more, i) {
                assert(candidate(t, proj, more, t.cohorts[i]));
                assert forall|j: int|
                    0 <= j < u.cohorts.len() && candidate(
                        u,
                        proj,
                        chosen,
                        #[trigger] u.cohorts[j],
                    ) implies !repairs_better(load_gap(proj), u.cohorts[j], u.cohorts[i]) && (j < i
                    ==> repairs_better(load_gap(proj), u.cohorts[i], u.cohorts[j])) by {
                    assert(candidate(t, proj, more, t.cohorts[j]));
                }
                assert(is_best(u, proj, chosen, i));
            }
            if is_best(u, proj, chosen, i) {
                assert(candidate(t, proj, more, t.cohorts[i]));
                assert forall|j: int|
                    0 <= j < t.cohorts.len() && candidate(
                        t,
                        proj,
                        more,
                        #[trigger] t.cohorts[j],
                    ) implies !repairs_better(load_gap(proj), t.cohorts[j], t.cohorts[i]) && (j < i
                    ==> repairs_better(load_gap(proj), t.cohorts[i], t.cohorts[j])) by {
                    assert(candidate(u, proj, chosen, u.cohorts[j]));
                }
                assert(is_best(t, proj, more, i));
            }
        }
        if exists|i: int| is_best(t, proj, more, i) {
            let i = choose|i: int| is_best(t, proj, more, i);
            assert(is_best(u, proj, chosen, i));
            lemma_best_unique(t, proj, more, i);
            lemma_best_unique(u, proj, chosen, i);
            assert(t.cohorts[i].id == u.cohorts[i].id);
            let own = t.cohorts[i].id;
            assert(more.insert(own) =~= chosen.insert(own).insert(id));
            lemma_set_aside(t, u, id, after_move(t, proj, i), chosen.insert(own), (room - 1) as nat);
        } else {
            assert forall|i: int| !is_best(u, proj, chosen, i) by {
                assert(!is_best(t, proj, more, i));
            }
        }
    }
}

/// What is planned after the first move is what another tick would plan, with
/// one move less to make, of the loads as they are once the cohort has moved,
/// and with that cohort nailed down.
pub proof fn law_the_rest_is_planned_from_what_is_left(
    b: BalancerState,
    now_ms: u64,
    llcs: Seq<LlcLoad>,
    cohorts: Seq<CohortSnapshot>,
    hi: int,
    lo: int,
    i: int,
    b2: BalancerState,
    llcs2: Seq<LlcLoad>,
    cohorts2: Seq<CohortSnapshot>,
)
    requires
        llcs.len() >= 2,
        extremes(llcs, hi, lo),
        forall|j: int, k: int|
            0 <= j < k < llcs.len() ==> (#[trigger] llcs[j]).llc != (#[trigger] llcs[k]).llc,
        planned(b, now_ms, llcs, cohorts).len() > 0,
        0 <= i < cohorts.len(),
        planned(b, now_ms, llcs, cohorts)[0] == (Decision::MoveCohort {
            id: cohorts[i].id,
            to: llcs[lo].llc,
        }),
        forall|j: int| 0 <= j < cohorts.len() && (#[trigger] cohorts[j]).id == cohorts[i].id ==> j
            == i,
        b2.cfg.imbalance_pct == b.cfg.imbalance_pct,
        b2.cfg.residency_ms == b.cfg.residency_ms,
        b2.cfg.confirm_ticks <= b2.streak + 1,
        b2.cfg.max_moves_per_tick == b.cfg.max_moves_per_tick - 1,
        b2.last_move_at == b.last_move_at,
        llcs2.len() == llcs.len(),
        forall|j: int|
            0 <= j < llcs.len() ==> {
                &&& (#[trigger] llcs2[j]).llc == llcs[j].llc
                &&& llcs2[j].capacity_ns == llcs[j].capacity_ns
                &&& llcs2[j].load_ns == (if j == hi {
                    llcs[j].load_ns - cohorts[i].load_ns
                } else if j == lo {
                    llcs[j].load_ns + cohorts[i].load_ns
                } else {
                    llcs[j].load_ns as int
                })
            },
        cohorts2.len() == cohorts.len(),
        forall|j: int|
            0 <= j < cohorts.len() ==> #[trigger] cohorts2[j] == (if j == i {
                CohortSnapshot { pinned: true, ..cohorts[j] }
            } else {
                cohorts[j]
            }),
    ensures
        planned(b, now_ms, llcs, cohorts).drop_first() == planned(b2, now_ms, llcs2, cohorts2),
{
    let t = tick_of(b, now_ms, cohorts);
    let u = tick_of(b2, now_ms, cohorts2);
    let id = cohorts[i].id;
    let room = b.cfg.max_moves_per_tick as nat;
    lemma_extremes(llcs, hi, lo);
    let p = pick(t, llcs, Set::empty())->0;
    assert(is_best(t, llcs, Set::empty(), p));
    let rest = batch(
        t,
        after_move(t, llcs, p),
        Set::empty().insert(t.cohorts[p].id),
        (room - 1) as nat,
    );
    let moves = planned(b, now_ms, llcs, cohorts);
    assert(moves =~= seq![Decision::MoveCohort { id: t.cohorts[p].id, to: llcs[lo].llc }] + rest);
    assert(moves[0].cohort() == t.cohorts[p].id);
    assert(cohorts[p].id == id);
    assert(p == i);
    assert(moves.drop_first() =~= rest);
    assert(llcs[hi].llc != llcs[lo].llc) by {
        assert(candidate(t, llcs, Set::empty(), cohorts[i]));
        assert(hi != lo);
        if hi < lo {
            assert(llcs[hi].llc != llcs[lo].llc);
        } else {
            assert(llcs[lo].llc != llcs[hi].llc);
        }
    }
    assert(after_move(t, llcs, i) =~= llcs2) by {
        let next = after_move(t, llcs, i);
        assert(candidate(t, llcs, Set::empty(), cohorts[i]));
        assert forall|j: int| 0 <= j < llcs.len() implies #[trigger] next[j] == llcs2[j] by {
            if j != hi {
                if j < hi {
                    assert(llcs[j].llc != llcs[hi].llc);
                } else {
                    assert(llcs[hi].llc != llcs[j].llc);
                }
            }
            if j != lo {
                if j < lo {
                    assert(llcs[j].llc != llcs[lo].llc);
                } else {
                    assert(llcs[lo].llc != llcs[j].llc);
                }
            }
            let _ = llcs2[j];
        }
    }
    assert(set_aside(t, u, id)) by {
        assert forall|j: int| 0 <= j < t.cohorts.len() implies #[trigger] u.cohorts[j] == (
        if t.cohorts[j].id == id {
            CohortSnapshot { pinned: true, ..t.cohorts[j] }
        } else {
            t.cohorts[j]
        }) by {
            assert(cohorts2[j] == u.cohorts[j]);
            assert(cohorts[j].id == id ==> j == i);
        }
    }
    lemma_set_aside(t, u, id, llcs2, Set::empty(), (room - 1) as nat);
}

// ---- What is remembered ----

/// A tick counts as one more in a row only if it was over the threshold and
/// moved nothing; one that was calm or moved something starts the count over,
/// and without two LLCs there is nothing to count.
pub proof fn law_imbalanced_ticks_are_counted(
    b: BalancerState,
    now_ms: u64,
    llcs: Seq<LlcLoad>,
    cohorts: Seq<CohortSnapshot>,
    hi: int,
    lo: int,
)
    requires
        llcs.len() >= 2 ==> extremes(llcs, hi, lo),
    ensures
        ({
            let after = after_plan(b, now_ms, llcs, cohorts).streak;
            let moves = planned(b, now_ms, llcs, cohorts);
            let over = llcs[hi].load_ns - llcs[lo].load_ns > llcs[lo].capacity_ns
                * b.cfg.imbalance_pct / 100;
            &&& llcs.len() < 2 ==> after == b.streak
            &&& llcs.len() >= 2 && over && moves.len() == 0 ==> after == b.streak + 1
            &&& llcs.len() >= 2 && !over ==> after == 0
            &&& llcs.len() >= 2 && moves.len() > 0 ==> after == 0
        }),
        after_plan(b, now_ms, llcs, cohorts).cfg == b.cfg,
{
    if llcs.len() >= 2 {
        lemma_extremes(llcs, hi, lo);
    }
}

/// A cohort's timestamp is that of the tick if the tick moves it, and as it
/// was if not.
pub proof fn law_moves_are_stamped(
    b: BalancerState,
    now_ms: u64,
    llcs: Seq<LlcLoad>,
    cohorts: Seq<CohortSnapshot>,
    id: u64,
)
    ensures
        ({
            let stamps = after_plan(b, now_ms, llcs, cohorts).last_move_at;
            let moves = planned(b, now_ms, llcs, cohorts);
            let moved = exists|k: int| 0 <= k < moves.len() && (#[trigger] moves[k])->id == id;
            &&& moved ==> stamps.contains_key(id) && stamps[id] == now_ms
            &&& !moved ==> (stamps.contains_key(id) <==> b.last_move_at.contains_key(id))
            &&& !moved && b.last_move_at.contains_key(id) ==> stamps[id] == b.last_move_at[id]
        }),
{
    let moves = planned(b, now_ms, llcs, cohorts);
    if exists|k: int| 0 <= k < moves.len() && (#[trigger] moves[k])->id == id {
        let k = choose|k: int| 0 <= k < moves.len() && (#[trigger] moves[k])->id == id;
        assert(moves[k].cohort() == id);
        assert(moves_cohort(moves, id));
    }
    if moves_cohort(moves, id) {
        let k = choose|k: int| 0 <= k < moves.len() && (#[trigger] moves[k]).cohort() == id;
        assert(moves[k]->id == id);
    }
}

} // verus!
