//! What spill planning promises of every plan.
use vstd::prelude::*;

use crate::arith::{
    lemma_total_change_one, lemma_total_ext, lemma_total_le, lemma_total_sum, lemma_total_zero,
};
use crate::domain::{CohortSnapshot, TaskSnapshot};
use crate::spill::{
    already, cold_ceiling, demand_over_mark, desired_spills, exiled, exiled_pid, growth,
    is_destination, keeps_spills, lemma_destination_unique, mark, may_spill, overloaded, placement,
    promised, promised_load, shed, shed_before, sheds_before, spill_plan, spilled_duty, Growth,
    SpillTick,
};

verus! {

/// No two tasks share a pid.
pub open spec fn distinct_pids(tasks: Seq<TaskSnapshot>) -> bool {
    forall|i: int, j: int|
        0 <= i < j < tasks.len() ==> (#[trigger] tasks[i]).pid != (#[trigger] tasks[j]).pid
}

/// No two cohorts share an id.
pub open spec fn distinct_cohorts(cohorts: Seq<CohortSnapshot>) -> bool {
    forall|i: int, j: int|
        0 <= i < j < cohorts.len() ==> (#[trigger] cohorts[i]).id != (#[trigger] cohorts[j]).id
}

/// The promises made when cohort `i` gets its turn.
pub open spec fn promises_at(s: SpillTick, cohorts: Seq<CohortSnapshot>, i: int) -> Map<u32, int> {
    spill_plan(s, cohorts.take(i)).planned
}

/// Task `t` is a member of the cohort.
pub open spec fn member(s: SpillTick, c: CohortSnapshot, t: int) -> bool {
    0 <= t < s.tasks.len() && s.tasks[t].cohort_id == c.id
}

// ---- Who decides about a task ----

proof fn lemma_stranger(s: SpillTick, c: CohortSnapshot, planned: Map<u32, int>, pid: u32)
    requires
        forall|t: int| #[trigger] member(s, c, t) ==> s.tasks[t].pid != pid,
    ensures
        placement(s, c, planned, pid) is None,
{
    if already(s, c, pid) {
        let t = choose|i: int|
            0 <= i < s.tasks.len() && (#[trigger] s.tasks[i]).pid == pid && s.tasks[i].cohort_id
                == c.id;
        assert(member(s, c, t));
    }
    match growth(s, c, planned) {
        Some(g) => {
            if exiled_pid(s, c, g.excess, pid) {
                let t = choose|i: int|
                    #[trigger] exiled(s, c, g.excess, i) && s.tasks[i].pid == pid;
                assert(member(s, c, t));
            }
        },
        None => {},
    }
}

pub proof fn lemma_unlisted(s: SpillTick, cohorts: Seq<CohortSnapshot>, pid: u32)
    requires
        forall|i: int, t: int|
            0 <= i < cohorts.len() && #[trigger] member(s, cohorts[i], t) ==> s.tasks[t].pid != pid,
    ensures
        !spill_plan(s, cohorts).desired.contains_key(pid),
    decreases cohorts.len(),
{
    if cohorts.len() > 0 {
        let front = cohorts.drop_last();
        assert forall|i: int, t: int|
            0 <= i < front.len() && #[trigger] member(s, front[i], t) implies s.tasks[t].pid
            != pid by {
            assert(member(s, cohorts[i], t));
        }
        lemma_unlisted(s, front, pid);
        let last = cohorts.len() - 1;
        assert forall|t: int| #[trigger] member(s, cohorts.last(), t) implies s.tasks[t].pid
            != pid by {
            assert(member(s, cohorts[last], t));
        }
        lemma_stranger(s, cohorts.last(), spill_plan(s, front).planned, pid);
    }
}

/// A task's cohort alone decides where the task goes.
pub proof fn lemma_member_fate(s: SpillTick, cohorts: Seq<CohortSnapshot>, i: int, t: int)
    requires
        distinct_pids(s.tasks),
        distinct_cohorts(cohorts),
        0 <= i < cohorts.len(),
        member(s, cohorts[i], t),
    ensures
        ({
            let pid = s.tasks[t].pid;
            let place = placement(s, cohorts[i], promises_at(s, cohorts, i), pid);
            let desired = spill_plan(s, cohorts).desired;
            &&& desired.contains_key(pid) <==> place is Some
            &&& place is Some ==> desired[pid] == place->0
        }),
    decreases cohorts.len(),
{
    let pid = s.tasks[t].pid;
    let front = cohorts.drop_last();
    let last = cohorts.len() - 1;
    assert forall|j: int, u: int|
        0 <= j < cohorts.len() && j != i && #[trigger] member(s, cohorts[j], u) implies s.tasks[u].pid
        != pid by {
        if u < t {
            assert(s.tasks[u].pid != s.tasks[t].pid);
        } else if u > t {
            assert(s.tasks[t].pid != s.tasks[u].pid);
        } else if j < i {
            assert(cohorts[j].id != cohorts[i].id);
        } else {
            assert(cohorts[i].id != cohorts[j].id);
        }
    }
    if i == last {
        assert(cohorts.take(i) =~= front);
        assert forall|j: int, u: int|
            0 <= j < front.len() && #[trigger] member(s, front[j], u) implies s.tasks[u].pid
            != pid by {
            assert(member(s, cohorts[j], u));
        }
        lemma_unlisted(s, front, pid);
    } else {
        assert(front.take(i) =~= cohorts.take(i));
        lemma_member_fate(s, front, i, t);
        assert forall|u: int| #[trigger] member(s, cohorts.last(), u) implies s.tasks[u].pid
            != pid by {
            assert(member(s, cohorts[last], u));
        }
        lemma_stranger(s, cohorts.last(), spill_plan(s, front).planned, pid);
    }
}

// ---- Stickiness ----

/// Spill choice is sticky: while its cohort's demand stays at or above the
/// low mark, a spilled task stays on the LLC it was spilled to.
pub proof fn law_spilled_tasks_stay_put(
    s: SpillTick,
    cohorts: Seq<CohortSnapshot>,
    i: int,
    t: int,
)
    requires
        s.llcs.len() >= 2,
        distinct_pids(s.tasks),
        distinct_cohorts(cohorts),
        0 <= i < cohorts.len(),
        member(s, cohorts[i], t),
        s.current.contains_key(s.tasks[t].pid),
        keeps_spills(s, cohorts[i]),
    ensures
        desired_spills(s, cohorts).contains_key(s.tasks[t].pid),
        desired_spills(s, cohorts)[s.tasks[t].pid] == s.current[s.tasks[t].pid],
{
    lemma_member_fate(s, cohorts, i, t);
    let c = cohorts[i];
    let pid = s.tasks[t].pid;
    assert(already(s, c, pid));
    match growth(s, c, promises_at(s, cohorts, i)) {
        Some(g) => {
            if exiled_pid(s, c, g.excess, pid) {
                let u = choose|i: int|
                    #[trigger] exiled(s, c, g.excess, i) && s.tasks[i].pid == pid;
                assert(!already(s, c, s.tasks[u].pid));
            }
        },
        None => {},
    }
}

/// Below the low mark, or when its home is no known LLC, a cohort's members
/// all come home.
pub proof fn law_a_calm_cohort_comes_home(
    s: SpillTick,
    cohorts: Seq<CohortSnapshot>,
    i: int,
    t: int,
)
    requires
        s.llcs.len() >= 2,
        distinct_pids(s.tasks),
        distinct_cohorts(cohorts),
        0 <= i < cohorts.len(),
        member(s, cohorts[i], t),
        !keeps_spills(s, cohorts[i]),
    ensures
        !desired_spills(s, cohorts).contains_key(s.tasks[t].pid),
{
    lemma_member_fate(s, cohorts, i, t);
}

/// Between the marks the spill set is kept exactly as it is.
pub proof fn law_between_the_marks_nothing_changes(
    s: SpillTick,
    cohorts: Seq<CohortSnapshot>,
    i: int,
    t: int,
)
    requires
        s.llcs.len() >= 2,
        distinct_pids(s.tasks),
        distinct_cohorts(cohorts),
        0 <= i < cohorts.len(),
        member(s, cohorts[i], t),
        keeps_spills(s, cohorts[i]),
        !overloaded(s, cohorts[i]),
    ensures
        desired_spills(s, cohorts).contains_key(s.tasks[t].pid) <==> s.current.contains_key(
            s.tasks[t].pid,
        ),
        s.current.contains_key(s.tasks[t].pid) ==> desired_spills(s, cohorts)[s.tasks[t].pid]
            == s.current[s.tasks[t].pid],
{
    lemma_member_fate(s, cohorts, i, t);
    if s.current.contains_key(s.tasks[t].pid) {
        assert(already(s, cohorts[i], s.tasks[t].pid));
    }
}

/// Only members of the planned cohorts are ever spilled.
pub proof fn law_only_members_spill(s: SpillTick, cohorts: Seq<CohortSnapshot>, pid: u32)
    requires
        desired_spills(s, cohorts).contains_key(pid),
    ensures
        exists|i: int, t: int|
            0 <= i < cohorts.len() && #[trigger] member(s, cohorts[i], t) && s.tasks[t].pid == pid,
{
    if forall|i: int, t: int|
        0 <= i < cohorts.len() && #[trigger] member(s, cohorts[i], t) ==> s.tasks[t].pid != pid {
        lemma_unlisted(s, cohorts, pid);
    }
}

/// A newly spilled task has a known, nonzero duty and leaves an overloaded
/// home for another LLC: members that burned nothing, or were never
/// sampled, are never exiled.
pub proof fn law_only_burning_members_are_exiled(
    s: SpillTick,
    cohorts: Seq<CohortSnapshot>,
    i: int,
    t: int,
)
    requires
        distinct_pids(s.tasks),
        distinct_cohorts(cohorts),
        0 <= i < cohorts.len(),
        member(s, cohorts[i], t),
        !s.current.contains_key(s.tasks[t].pid),
        desired_spills(s, cohorts).contains_key(s.tasks[t].pid),
    ensures
        s.tasks[t].duty_known,
        s.tasks[t].duty_ns > 0,
        overloaded(s, cohorts[i]),
        desired_spills(s, cohorts)[s.tasks[t].pid] != cohorts[i].home_llc,
{
    lemma_member_fate(s, cohorts, i, t);
    let c = cohorts[i];
    let pid = s.tasks[t].pid;
    let planned = promises_at(s, cohorts, i);
    let g = growth(s, c, planned)->0;
    let u = choose|i: int| #[trigger] exiled(s, c, g.excess, i) && s.tasks[i].pid == pid;
    assert(u == t) by {
        if u < t {
            assert(s.tasks[u].pid != s.tasks[t].pid);
        } else if t < u {
            assert(s.tasks[t].pid != s.tasks[u].pid);
        }
    }
    let d = choose|d: int| is_destination(s, c, planned, d);
    assert(is_destination(s, c, planned, d));
}

// ---- Order ----

pub proof fn lemma_shed_before_monotone(s: SpillTick, c: CohortSnapshot, i: int, j: int)
    requires
        sheds_before(s, i, j),
    ensures
        shed_before(s, c, i) <= shed_before(s, c, j),
        may_spill(s, c, i) ==> shed_before(s, c, i) + s.tasks[i].duty_ns <= shed_before(s, c, j),
{
    let n = s.tasks.len() as int;
    let f = |k: int|
        if may_spill(s, c, k) && sheds_before(s, k, i) {
            s.tasks[k].duty_ns as int
        } else {
            0
        };
    let g = |k: int|
        if may_spill(s, c, k) && sheds_before(s, k, j) {
            s.tasks[k].duty_ns as int
        } else {
            0
        };
    lemma_total_le(n, f, g);
    if may_spill(s, c, i) {
        let h = |k: int|
            if k == i {
                s.tasks[i].duty_ns as int
            } else {
                f(k)
            };
        lemma_total_change_one(n, f, h, i);
        lemma_total_le(n, h, g);
    }
}

/// Members leave in a fixed order: no member leaves while one that goes
/// before it and burned something stays. So the cold go before the hot, the
/// coldest of the cold first and the hottest of the hot first.
pub proof fn law_exiles_leave_in_order(
    s: SpillTick,
    c: CohortSnapshot,
    excess: int,
    i: int,
    j: int,
)
    requires
        exiled(s, c, excess, j),
        may_spill(s, c, i),
        s.tasks[i].duty_ns > 0,
        ({
            let (a, b) = (s.tasks[i].duty_ns, s.tasks[j].duty_ns);
            let ceiling = cold_ceiling(s.cfg);
            ||| a < ceiling && b >= ceiling
            ||| a < b < ceiling
            ||| a > b >= ceiling
        }),
    ensures
        exiled(s, c, excess, i),
{
    assert(sheds_before(s, i, j));
    lemma_shed_before_monotone(s, c, i, j);
}

// ---- Amounts ----

/// The last task to leave.
proof fn lemma_last_exiled(s: SpillTick, c: CohortSnapshot, excess: int, n: int) -> (last: int)
    requires
        0 <= n <= s.tasks.len(),
        exists|i: int| 0 <= i < n && #[trigger] exiled(s, c, excess, i),
    ensures
        0 <= last < n,
        exiled(s, c, excess, last),
        forall|i: int|
            0 <= i < n && i != last && #[trigger] exiled(s, c, excess, i) ==> sheds_before(
                s,
                i,
                last,
            ),
    decreases n,
{
    let k = n - 1;
    if exists|i: int| 0 <= i < k && #[trigger] exiled(s, c, excess, i) {
        let before = lemma_last_exiled(s, c, excess, k);
        if exiled(s, c, excess, k) && sheds_before(s, before, k) {
            assert forall|i: int|
                0 <= i < n && i != k && #[trigger] exiled(s, c, excess, i) implies sheds_before(
                s,
                i,
                k,
            ) by {
                if i != before {
                    assert(sheds_before(s, i, before));
                }
            }
            k
        } else {
            before
        }
    } else {
        k
    }
}

/// What leaves covers the excess unless nobody who burned something is left
/// to go, and without the last member to leave it would not be covered.
pub proof fn law_exile_stops_once_the_excess_is_covered(
    s: SpillTick,
    c: CohortSnapshot,
    excess: int,
)
    ensures
        shed(s, c, excess) >= excess || (forall|i: int| #[trigger]
            may_spill(s, c, i) && s.tasks[i].duty_ns > 0 ==> exiled(s, c, excess, i)),
        shed(s, c, excess) == 0 || (exists|i: int| #[trigger]
            exiled(s, c, excess, i) && shed(s, c, excess) - s.tasks[i].duty_ns < excess),
{
    let n = s.tasks.len() as int;
    let all = |i: int|
        if exiled(s, c, excess, i) {
            s.tasks[i].duty_ns as int
        } else {
            0
        };
    if exists|i: int| 0 <= i < n && #[trigger] exiled(s, c, excess, i) {
        let last = lemma_last_exiled(s, c, excess, n);
        let f = |k: int|
            if may_spill(s, c, k) && sheds_before(s, k, last) {
                s.tasks[k].duty_ns as int
            } else {
                0
            };
        assert forall|k: int| 0 <= k < n && k != last implies #[trigger] f(k) == all(k) by {
            if may_spill(s, c, k) && sheds_before(s, k, last) && s.tasks[k].duty_ns > 0 {
                lemma_shed_before_monotone(s, c, k, last);
                assert(exiled(s, c, excess, k));
            }
            if exiled(s, c, excess, k) {
                assert(sheds_before(s, k, last));
            }
        }
        lemma_total_change_one(n, f, all, last);
        assert(shed(s, c, excess) == shed_before(s, c, last) + s.tasks[last].duty_ns);
    } else {
        assert forall|i: int| 0 <= i < n implies #[trigger] all(i) == (|i: int| 0int)(i) by {}
        lemma_total_ext(n, all, |i: int| 0int);
        lemma_total_zero(n);
    }
    if shed(s, c, excess) < excess {
        assert forall|i: int| #[trigger]
            may_spill(s, c, i) && s.tasks[i].duty_ns > 0 implies exiled(s, c, excess, i) by {
            if !exiled(s, c, excess, i) {
                lemma_unexiled_total(s, c, excess, i, n);
            }
        }
    }
}

/// Someone who stays burns after at least the excess has left.
proof fn lemma_unexiled_total(s: SpillTick, c: CohortSnapshot, excess: int, i: int, n: int)
    requires
        n == s.tasks.len(),
        may_spill(s, c, i),
        shed_before(s, c, i) >= excess,
    ensures
        shed(s, c, excess) >= excess,
    decreases shed_before(s, c, i),
{
    let all = |k: int|
        if exiled(s, c, excess, k) {
            s.tasks[k].duty_ns as int
        } else {
            0
        };
    let f = |k: int|
        if may_spill(s, c, k) && sheds_before(s, k, i) {
            s.tasks[k].duty_ns as int
        } else {
            0
        };
    if exists|k: int| #[trigger]
        may_spill(s, c, k) && sheds_before(s, k, i) && s.tasks[k].duty_ns > 0 && shed_before(
            s,
            c,
            k,
        ) >= excess {
        let k = choose|k: int| #[trigger]
            may_spill(s, c, k) && sheds_before(s, k, i) && s.tasks[k].duty_ns > 0 && shed_before(
                s,
                c,
                k,
            ) >= excess;
        lemma_shed_before_monotone(s, c, k, i);
        lemma_shed_before_nonneg(s, c, k);
        lemma_unexiled_total(s, c, excess, k, n);
    } else {
        assert forall|k: int| 0 <= k < n implies #[trigger] f(k) <= all(k) by {
            if may_spill(s, c, k) && sheds_before(s, k, i) && s.tasks[k].duty_ns > 0 {
                assert(exiled(s, c, excess, k));
            }
        }
        lemma_total_le(n, f, all);
    }
}

proof fn lemma_shed_before_nonneg(s: SpillTick, c: CohortSnapshot, i: int)
    ensures
        shed_before(s, c, i) >= 0,
{
    let n = s.tasks.len() as int;
    lemma_total_zero(n);
    lemma_total_le(
        n,
        |i: int| 0int,
        |j: int|
            if may_spill(s, c, j) && sheds_before(s, j, i) {
                s.tasks[j].duty_ns as int
            } else {
                0
            },
    );
}

// ---- The destination's budget ----

/// A spill set grows only into another LLC that has room, and no more is
/// asked to leave than that LLC can absorb below its own high mark, nor more
/// than exceeds the home's.
pub proof fn law_growth_respects_the_destination(
    s: SpillTick,
    c: CohortSnapshot,
    planned: Map<u32, int>,
)
    requires
        growth(s, c, planned) is Some,
    ensures
        exists|d: int|
            #![trigger s.llcs[d]]
            {
                let g = growth(s, c, planned)->0;
                &&& is_destination(s, c, planned, d)
                &&& g.target == s.llcs[d].llc
                &&& g.target != c.home_llc
                &&& 0 <= g.excess <= demand_over_mark(s, c)
                &&& promised_load(s.llcs[d], planned) + g.excess <= mark(
                    s.llcs[d].capacity_ns,
                    s.cfg.high_pct,
                )
            },
{
    let d = choose|d: int| is_destination(s, c, planned, d);
    assert(is_destination(s, c, planned, d));
    let llc = s.llcs[d];
}

/// When every other LLC is at its high mark, promises included, the set does
/// not grow.
pub proof fn law_full_destinations_block_growth(
    s: SpillTick,
    c: CohortSnapshot,
    planned: Map<u32, int>,
)
    requires
        forall|d: int|
            0 <= d < s.llcs.len() && (#[trigger] s.llcs[d]).llc != c.home_llc ==> promised_load(
                s.llcs[d],
                planned,
            ) >= mark(s.llcs[d].capacity_ns, s.cfg.high_pct),
    ensures
        growth(s, c, planned) is None,
        forall|pid: u32| #[trigger]
            placement(s, c, planned, pid) is Some ==> s.current.contains_key(pid),
{
    if exists|d: int| is_destination(s, c, planned, d) {
        let d = choose|d: int| is_destination(s, c, planned, d);
        assert(is_destination(s, c, planned, d));
        assert(s.llcs[d].llc != c.home_llc);
    }
}

/// Oversized cohorts that spill in one tick share each destination's budget:
/// what they promise it together overshoots its high mark by less than one
/// member's runtime.
pub proof fn law_cohorts_share_one_budget(
    s: SpillTick,
    cohorts: Seq<CohortSnapshot>,
    d: int,
    largest: int,
)
    requires
        forall|i: int, j: int|
            0 <= i < j < s.llcs.len() ==> (#[trigger] s.llcs[i]).llc != (#[trigger] s.llcs[j]).llc,
        0 <= d < s.llcs.len(),
        forall|t: int| 0 <= t < s.tasks.len() ==> (#[trigger] s.tasks[t]).duty_ns <= largest,
        promised(spill_plan(s, cohorts).planned, s.llcs[d].llc) > 0,
    ensures
        promised_load(s.llcs[d], spill_plan(s, cohorts).planned) < mark(
            s.llcs[d].capacity_ns,
            s.cfg.high_pct,
        ) + largest,
    decreases cohorts.len(),
{
    if cohorts.len() > 0 {
        let front = cohorts.drop_last();
        let c = cohorts.last();
        let before = spill_plan(s, front).planned;
        let llc = s.llcs[d].llc;
        if promised(before, llc) > 0 {
            law_cohorts_share_one_budget(s, front, d, largest);
        }
        match growth(s, c, before) {
            Some(g) => {
                if g.target == llc {
                    law_growth_respects_the_destination(s, c, before);
                    let e = choose|e: int|
                        #![trigger s.llcs[e]]
                        {
                            &&& is_destination(s, c, before, e)
                            &&& g.target == s.llcs[e].llc
                            &&& promised_load(s.llcs[e], before) + g.excess <= mark(
                                s.llcs[e].capacity_ns,
                                s.cfg.high_pct,
                            )
                        };
                    assert(e == d) by {
                        if e < d {
                            assert(s.llcs[e].llc != s.llcs[d].llc);
                        } else if d < e {
                            assert(s.llcs[d].llc != s.llcs[e].llc);
                        }
                    }
                    law_exile_stops_once_the_excess_is_covered(s, c, g.excess);
                    if shed(s, c, g.excess) != 0 {
                        let t = choose|i: int| #[trigger]
                            exiled(s, c, g.excess, i) && shed(s, c, g.excess) - s.tasks[i].duty_ns
                                < g.excess;
                        assert(s.tasks[t].duty_ns <= largest);
                    }
                }
            },
            None => {},
        }
    }
}

// ---- Convergence ----

/// The runtime that leaves by a growth, if there is one.
pub open spec fn shed_by(s: SpillTick, c: CohortSnapshot, g: Option<Growth>) -> int {
    match g {
        Some(g) => shed(s, c, g.excess),
        None => 0,
    }
}

/// Planning the cohort again would send nobody else across: it is not
/// overloaded, or there is no room for it even before anything is promised, or
/// what leaves covers its excess, or nobody who burned something is left to go.
pub open spec fn settled(s: SpillTick, c: CohortSnapshot, planned: Map<u32, int>) -> bool {
    let g = growth(s, c, planned);
    keeps_spills(s, c) && overloaded(s, c) ==> {
        ||| growth(s, c, Map::empty()) is None
        ||| shed_by(s, c, g) >= demand_over_mark(s, c)
        ||| forall|t: int| #[trigger]
            may_spill(s, c, t) && s.tasks[t].duty_ns > 0 ==> g is Some && exiled(
                s,
                c,
                g->0.excess,
                t,
            )
    }
}

/// Every cohort is settled when its turn comes.
pub open spec fn all_settled(s: SpillTick, cohorts: Seq<CohortSnapshot>) -> bool {
    forall|i: int|
        0 <= i < cohorts.len() ==> settled(s, #[trigger] cohorts[i], promises_at(s, cohorts, i))
}

/// Nothing has been promised to any LLC.
pub open spec fn nothing_promised(planned: Map<u32, int>) -> bool {
    forall|llc: u32| #[trigger] promised(planned, llc) == 0
}

/// The same tick, planned from another spill set.
pub open spec fn replanned(s: SpillTick, current: Map<u32, u32>) -> SpillTick {
    SpillTick { cfg: s.cfg, llcs: s.llcs, tasks: s.tasks, current }
}

/// Whether a cohort grows does not depend on who is already away, as long as
/// it is overloaded and nothing has been promised.
proof fn lemma_growth_without_promises(
    s: SpillTick,
    s2: SpillTick,
    c: CohortSnapshot,
    planned: Map<u32, int>,
)
    requires
        s2 == replanned(s, s2.current),
        nothing_promised(planned),
        keeps_spills(s, c) && overloaded(s, c),
        overloaded(s2, c),
    ensures
        growth(s2, c, planned) is None <==> growth(s, c, Map::empty()) is None,
{
    let none = Map::<u32, int>::empty();
    assert forall|d: int| is_destination(s2, c, planned, d) <==> is_destination(s, c, none, d) by {
        assert forall|j: int| 0 <= j < s.llcs.len() implies promised_load(
            #[trigger] s.llcs[j],
            planned,
        ) == promised_load(s.llcs[j], none) by {
            assert(promised(planned, s.llcs[j].llc) == 0);
        }
        if is_destination(s2, c, planned, d) {
            assert(is_destination(s, c, none, d));
        }
        if is_destination(s, c, none, d) {
            assert(is_destination(s2, c, planned, d));
        }
    }
    if exists|d: int| is_destination(s, c, none, d) {
        let d = choose|d: int| is_destination(s, c, none, d);
        assert(is_destination(s2, c, planned, d));
        lemma_destination_unique(s2, c, planned, d);
        assert(promised(planned, s.llcs[d].llc) == 0);
    }
}

/// Once a plan's spills are in place, away are those who were and the exiles.
proof fn lemma_away_after(s: SpillTick, cohorts: Seq<CohortSnapshot>, i: int)
    requires
        distinct_pids(s.tasks),
        distinct_cohorts(cohorts),
        0 <= i < cohorts.len(),
        keeps_spills(s, cohorts[i]),
    ensures
        ({
            let c = cohorts[i];
            let s2 = replanned(s, spill_plan(s, cohorts).desired);
            let g = growth(s, c, promises_at(s, cohorts, i));
            &&& forall|t: int|
                0 <= t < s.tasks.len() ==> (#[trigger] already(s2, c, s.tasks[t].pid) <==> already(
                    s,
                    c,
                    s.tasks[t].pid,
                ) || (g is Some && exiled(s, c, g->0.excess, t)))
            &&& spilled_duty(s2, c) == spilled_duty(s, c) + shed_by(s, c, g)
            &&& shed_by(s, c, g) >= 0
        }),
{
    let c = cohorts[i];
    let desired = spill_plan(s, cohorts).desired;
    let s2 = replanned(s, desired);
    let n = s.tasks.len() as int;
    let g = growth(s, c, promises_at(s, cohorts, i));
    let excess = if g is Some {
        g->0.excess
    } else {
        0
    };
    assert forall|t: int| 0 <= t < n implies (#[trigger] already(s2, c, s.tasks[t].pid) <==> already(
        s,
        c,
        s.tasks[t].pid,
    ) || (g is Some && exiled(s, c, excess, t))) by {
        let pid = s.tasks[t].pid;
        lemma_same_pid(s, t);
        if s.tasks[t].cohort_id == c.id {
            assert(member(s, c, t));
            lemma_member_fate(s, cohorts, i, t);
            if already(s2, c, pid) {
                assert(desired.contains_key(pid));
                if !already(s, c, pid) {
                    let u = choose|u: int|
                        #[trigger] exiled(s, c, excess, u) && s.tasks[u].pid == pid;
                    assert(u == t);
                }
            }
            if already(s, c, pid) || (g is Some && exiled(s, c, excess, t)) {
                if g is Some && exiled(s, c, excess, t) {
                    assert(exiled_pid(s, c, excess, pid));
                }
                assert(desired.contains_key(pid));
                assert(s2.tasks[t].pid == pid);
            }
        }
    }
    let f = |t: int|
        if already(s, c, s.tasks[t].pid) {
            s.tasks[t].duty_ns as int
        } else {
            0
        };
    let x = |t: int|
        if g is Some && exiled(s, c, excess, t) {
            s.tasks[t].duty_ns as int
        } else {
            0
        };
    let h = |t: int|
        if already(s2, c, s2.tasks[t].pid) {
            s2.tasks[t].duty_ns as int
        } else {
            0
        };
    assert forall|t: int| 0 <= t < n implies #[trigger] h(t) == f(t) + x(t) by {
        assert(already(s2, c, s.tasks[t].pid) <==> already(s, c, s.tasks[t].pid) || (g is Some
            && exiled(s, c, excess, t)));
    }
    lemma_total_sum(n, f, x, h);
    lemma_total_zero(n);
    lemma_total_le(n, |t: int| 0int, x);
    if g is Some {
        lemma_total_ext(
            n,
            x,
            |t: int|
                if exiled(s, c, excess, t) {
                    s.tasks[t].duty_ns as int
                } else {
                    0
                },
        );
    } else {
        lemma_total_ext(n, x, |t: int| 0int);
    }
}

/// Once a plan's spills are in place, nobody else of a settled cohort leaves.
proof fn lemma_nobody_else_leaves(
    s: SpillTick,
    cohorts: Seq<CohortSnapshot>,
    i: int,
    planned: Map<u32, int>,
)
    requires
        distinct_pids(s.tasks),
        distinct_cohorts(cohorts),
        0 <= i < cohorts.len(),
        keeps_spills(s, cohorts[i]),
        settled(s, cohorts[i], promises_at(s, cohorts, i)),
        nothing_promised(planned),
    ensures
        ({
            let s2 = replanned(s, spill_plan(s, cohorts).desired);
            let g = growth(s2, cohorts[i], planned);
            g is Some ==> forall|t: int| !exiled(s2, cohorts[i], g->0.excess, t)
        }),
{
    let c = cohorts[i];
    let s2 = replanned(s, spill_plan(s, cohorts).desired);
    let g1 = growth(s, c, promises_at(s, cohorts, i));
    let g2 = growth(s2, c, planned);
    lemma_away_after(s, cohorts, i);
    if g2 is Some {
        assert(overloaded(s, c));
        lemma_growth_without_promises(s, s2, c, planned);
        assert forall|t: int| !exiled(s2, c, g2->0.excess, t) by {
            if exiled(s2, c, g2->0.excess, t) {
                lemma_shed_before_nonneg(s2, c, t);
                if shed_by(s, c, g1) >= demand_over_mark(s, c) {
                    assert(demand_over_mark(s2, c) <= 0);
                } else {
                    assert(!already(s2, c, s.tasks[t].pid));
                    assert(may_spill(s, c, t));
                    assert(exiled(s, c, g1->0.excess, t));
                }
            }
        }
    }
}

/// If nobody leaves, nothing is promised.
proof fn lemma_nobody_sheds_nothing(s: SpillTick, c: CohortSnapshot, excess: int)
    requires
        forall|t: int| !exiled(s, c, excess, t),
    ensures
        shed(s, c, excess) == 0,
{
    let n = s.tasks.len() as int;
    lemma_total_ext(
        n,
        |t: int|
            if exiled(s, c, excess, t) {
                s.tasks[t].duty_ns as int
            } else {
                0
            },
        |t: int| 0int,
    );
    lemma_total_zero(n);
}

/// Replanning from the plan promises nothing to anyone.
proof fn lemma_replanning_promises_nothing(s: SpillTick, cohorts: Seq<CohortSnapshot>, i: int)
    requires
        distinct_pids(s.tasks),
        distinct_cohorts(cohorts),
        0 <= i <= cohorts.len(),
        forall|j: int|
            0 <= j < i ==> settled(s, #[trigger] cohorts[j], promises_at(s, cohorts, j)),
    ensures
        nothing_promised(
            promises_at(replanned(s, spill_plan(s, cohorts).desired), cohorts, i),
        ),
    decreases i,
{
    let s2 = replanned(s, spill_plan(s, cohorts).desired);
    if i > 0 {
        let c = cohorts[i - 1];
        let before = promises_at(s2, cohorts, i - 1);
        lemma_replanning_promises_nothing(s, cohorts, i - 1);
        assert(settled(s, c, promises_at(s, cohorts, i - 1)));
        if keeps_spills(s, c) {
            lemma_nobody_else_leaves(s, cohorts, i - 1, before);
        }
        assert(cohorts.take(i).drop_last() =~= cohorts.take(i - 1));
        assert(cohorts.take(i).last() == c);
        let after = promises_at(s2, cohorts, i);
        match growth(s2, c, before) {
            Some(g) => {
                lemma_nobody_sheds_nothing(s2, c, g.excess);
                assert forall|llc: u32| #[trigger] promised(after, llc) == 0 by {
                    assert(promised(before, llc) == 0);
                    assert(promised(before, g.target) == 0);
                }
            },
            None => {},
        }
    } else {
        assert(cohorts.take(0) =~= Seq::<CohortSnapshot>::empty());
    }
}

proof fn lemma_same_pid(s: SpillTick, t: int)
    requires
        distinct_pids(s.tasks),
        0 <= t < s.tasks.len(),
    ensures
        forall|u: int|
            0 <= u < s.tasks.len() && (#[trigger] s.tasks[u]).pid == s.tasks[t].pid ==> u == t,
{
    assert forall|u: int|
        0 <= u < s.tasks.len() && (#[trigger] s.tasks[u]).pid == s.tasks[t].pid implies u == t by {
        if u < t {
            assert(s.tasks[u].pid != s.tasks[t].pid);
        } else if t < u {
            assert(s.tasks[t].pid != s.tasks[u].pid);
        }
    }
}

/// Replanning from the plan sends a member where the plan sent it.
proof fn lemma_replanned_member(s: SpillTick, cohorts: Seq<CohortSnapshot>, i: int, t: int)
    requires
        distinct_pids(s.tasks),
        distinct_cohorts(cohorts),
        0 <= i < cohorts.len(),
        member(s, cohorts[i], t),
        all_settled(s, cohorts),
    ensures
        ({
            let pid = s.tasks[t].pid;
            let desired = spill_plan(s, cohorts).desired;
            let again = spill_plan(replanned(s, desired), cohorts).desired;
            &&& again.contains_key(pid) == desired.contains_key(pid)
            &&& desired.contains_key(pid) ==> again[pid] == desired[pid]
        }),
{
    let pid = s.tasks[t].pid;
    let desired = spill_plan(s, cohorts).desired;
    let s2 = replanned(s, desired);
    let c = cohorts[i];
    let planned = promises_at(s2, cohorts, i);
    assert(member(s2, c, t));
    lemma_member_fate(s, cohorts, i, t);
    lemma_member_fate(s2, cohorts, i, t);
    if keeps_spills(s, c) {
        lemma_replanning_promises_nothing(s, cohorts, i);
        assert(settled(s, c, promises_at(s, cohorts, i)));
        lemma_nobody_else_leaves(s, cohorts, i, planned);
        if desired.contains_key(pid) {
            assert(s2.tasks[t].pid == pid);
            assert(already(s2, c, pid));
        }
        assert(already(s2, c, pid) <==> desired.contains_key(pid));
        match growth(s2, c, planned) {
            Some(g) => {
                assert(!exiled_pid(s2, c, g.excess, pid));
            },
            None => {},
        }
    }
}

proof fn lemma_replanned_pid(s: SpillTick, cohorts: Seq<CohortSnapshot>, pid: u32)
    requires
        distinct_pids(s.tasks),
        distinct_cohorts(cohorts),
        all_settled(s, cohorts),
    ensures
        ({
            let desired = spill_plan(s, cohorts).desired;
            let again = spill_plan(replanned(s, desired), cohorts).desired;
            &&& again.contains_key(pid) == desired.contains_key(pid)
            &&& desired.contains_key(pid) ==> again[pid] == desired[pid]
        }),
{
    let s2 = replanned(s, spill_plan(s, cohorts).desired);
    if exists|i: int, t: int|
        0 <= i < cohorts.len() && #[trigger] member(s, cohorts[i], t) && s.tasks[t].pid == pid {
        let (i, t) = choose|i: int, t: int|
            0 <= i < cohorts.len() && #[trigger] member(s, cohorts[i], t) && s.tasks[t].pid == pid;
        lemma_replanned_member(s, cohorts, i, t);
    } else {
        lemma_unlisted(s, cohorts, pid);
        assert forall|i: int, t: int|
            0 <= i < cohorts.len() && #[trigger] member(s2, cohorts[i], t) implies s2.tasks[t].pid
            != pid by {
            assert(member(s, cohorts[i], t));
        }
        lemma_unlisted(s2, cohorts, pid);
    }
}

/// The spill set converges: replanning the same tick from its own plan
/// neither churns the picks nor sends anyone else across, as long as no
/// cohort's growth was cut short for want of room that the replanning has.
pub proof fn law_replanning_changes_nothing(s: SpillTick, cohorts: Seq<CohortSnapshot>)
    requires
        distinct_pids(s.tasks),
        distinct_cohorts(cohorts),
        all_settled(s, cohorts),
    ensures
        desired_spills(replanned(s, desired_spills(s, cohorts)), cohorts) == desired_spills(
            s,
            cohorts,
        ),
{
    if s.llcs.len() >= 2 {
        let desired = spill_plan(s, cohorts).desired;
        let again = spill_plan(replanned(s, desired), cohorts).desired;
        assert forall|pid: u32|
            #![trigger desired.dom().contains(pid)]
            #![trigger again.dom().contains(pid)]
            #![trigger again[pid]]
            again.dom().contains(pid) == desired.dom().contains(pid) && (desired.dom().contains(
                pid,
            ) ==> again[pid] == desired[pid]) by {
            lemma_replanned_pid(s, cohorts, pid);
        }
        assert(again =~= desired);
    }
}

/// Only settled cohorts converge: replanning sends more of the first cohort
/// that is not settled across.
pub proof fn law_an_unsettled_cohort_grows(s: SpillTick, cohorts: Seq<CohortSnapshot>, i: int)
    requires
        s.llcs.len() >= 2,
        distinct_pids(s.tasks),
        distinct_cohorts(cohorts),
        0 <= i < cohorts.len(),
        forall|j: int|
            0 <= j < i ==> settled(s, #[trigger] cohorts[j], promises_at(s, cohorts, j)),
        !settled(s, cohorts[i], promises_at(s, cohorts, i)),
    ensures
        desired_spills(replanned(s, desired_spills(s, cohorts)), cohorts) != desired_spills(
            s,
            cohorts,
        ),
{
    let c = cohorts[i];
    let desired = spill_plan(s, cohorts).desired;
    let s2 = replanned(s, desired);
    let planned = promises_at(s2, cohorts, i);
    let g1 = growth(s, c, promises_at(s, cohorts, i));
    lemma_replanning_promises_nothing(s, cohorts, i);
    lemma_away_after(s, cohorts, i);
    assert(demand_over_mark(s2, c) > 0);
    lemma_growth_without_promises(s, s2, c, planned);
    let g2 = growth(s2, c, planned);
    assert(g2 is Some);
    let excess = g2->0.excess;
    let d = choose|d: int| is_destination(s2, c, planned, d);
    assert(excess > 0);
    let t = choose|t: int| #[trigger]
        may_spill(s, c, t) && s.tasks[t].duty_ns > 0 && !(g1 is Some && exiled(
            s,
            c,
            g1->0.excess,
            t,
        ));
    assert(!already(s2, c, s.tasks[t].pid));
    assert(may_spill(s2, c, t));
    law_exile_stops_once_the_excess_is_covered(s2, c, excess);
    let u = if exiled(s2, c, excess, t) {
        t
    } else {
        choose|u: int| #[trigger] exiled(s2, c, excess, u)
    };
    assert(exiled(s2, c, excess, u));
    let pid = s.tasks[u].pid;
    assert(member(s2, c, u));
    assert(exiled_pid(s2, c, excess, pid));
    lemma_member_fate(s2, cohorts, i, u);
    assert(spill_plan(s2, cohorts).desired.contains_key(pid));
    assert(!desired.contains_key(pid)) by {
        assert(s2.tasks[u].pid == pid && s2.tasks[u].cohort_id == c.id);
    }
}

} // verus!
