//! What a spill plan comes to, told from the snapshots alone: who leaves, who
//! stays, where those who leave go, and what makes no difference.
use vstd::prelude::*;

use crate::arith::{lemma_total_ext, lemma_total_le, lemma_total_sum, lemma_total_zero, total};
use crate::domain::{CohortSnapshot, LlcLoad};
use crate::spill::{
    already, capacity_of, desired_spills, exiled, exiled_pid, growth, is_destination,
    lemma_destination_unique, may_spill, placement, promised, promised_load, shed, shed_before,
    sheds_before, spill_plan, spilled_duty, SpillTick,
};
use crate::spill_laws::{
    distinct_cohorts, distinct_pids, law_exile_stops_once_the_excess_is_covered,
    lemma_member_fate, lemma_shed_before_monotone, lemma_unlisted, member, promises_at,
};

verus! {

// ---- Words for what the laws say ----

/// Task `t` belongs to the cohort and leaves: it was not away, and the plan
/// sends it away.
pub open spec fn leaves(s: SpillTick, desired: Map<u32, u32>, id: u64, t: int) -> bool {
    &&& 0 <= t < s.tasks.len()
    &&& s.tasks[t].cohort_id == id
    &&& !s.current.contains_key(s.tasks[t].pid)
    &&& desired.contains_key(s.tasks[t].pid)
}

/// The runtime of the cohort's tasks that were away already.
pub open spec fn held_away(s: SpillTick, id: u64) -> int {
    total(
        s.tasks.len() as int,
        |t: int|
            if s.tasks[t].cohort_id == id && s.current.contains_key(s.tasks[t].pid) {
                s.tasks[t].duty_ns as int
            } else {
                0
            },
    )
}

/// The cohort's demand without those who were away already.
pub open spec fn demand_at_home(s: SpillTick, c: CohortSnapshot) -> int {
    if c.load_ns >= held_away(s, c.id) {
        c.load_ns - held_away(s, c.id)
    } else {
        0
    }
}

/// The runtime of the cohort's tasks that leave.
pub open spec fn newly_away(s: SpillTick, desired: Map<u32, u32>, id: u64) -> int {
    total(
        s.tasks.len() as int,
        |t: int|
            if leaves(s, desired, id, t) {
                s.tasks[t].duty_ns as int
            } else {
                0
            },
    )
}

/// The cohort is planned before cohort `i`.
pub open spec fn comes_before(cohorts: Seq<CohortSnapshot>, i: int, id: u64) -> bool {
    exists|j: int| 0 <= j < i && (#[trigger] cohorts[j]).id == id
}

/// The runtime of task `t` if it leaves a cohort before cohort `i` for the
/// LLC.
pub open spec fn sent_with(
    s: SpillTick,
    cohorts: Seq<CohortSnapshot>,
    i: int,
    llc: u32,
    t: int,
) -> int {
    let desired = desired_spills(s, cohorts);
    let pid = s.tasks[t].pid;
    if comes_before(cohorts, i, s.tasks[t].cohort_id) && !s.current.contains_key(pid)
        && desired.contains_key(pid) && desired[pid] == llc {
        s.tasks[t].duty_ns as int
    } else {
        0
    }
}

/// The runtime that leaves the cohorts before cohort `i` for the LLC.
pub open spec fn sent_ahead(
    s: SpillTick,
    cohorts: Seq<CohortSnapshot>,
    i: int,
    llc: u32,
) -> int {
    total(s.tasks.len() as int, |t: int| sent_with(s, cohorts, i, llc, t))
}

/// Task `u` goes before task `t`: the cold, below `cold_max_pct` of a tick,
/// before the hot; the colder of two cold ones, the hotter of two hot ones;
/// equals in the order given.
pub open spec fn goes_first(s: SpillTick, u: int, t: int) -> bool {
    let ceiling = s.cfg.tick_ns * s.cfg.cold_max_pct / 100;
    let (a, b) = (s.tasks[u].duty_ns, s.tasks[t].duty_ns);
    ||| a < ceiling && b >= ceiling
    ||| a < ceiling && b < ceiling && (a < b || (a == b && u < t))
    ||| a >= ceiling && b >= ceiling && (a > b || (a == b && u < t))
}

// ---- From the plan to the snapshots ----

proof fn lemma_already(s: SpillTick, c: CohortSnapshot, t: int)
    requires
        distinct_pids(s.tasks),
        0 <= t < s.tasks.len(),
    ensures
        already(s, c, s.tasks[t].pid) <==> s.current.contains_key(s.tasks[t].pid)
            && s.tasks[t].cohort_id == c.id,
{
    if already(s, c, s.tasks[t].pid) {
        let u = choose|u: int|
            0 <= u < s.tasks.len() && (#[trigger] s.tasks[u]).pid == s.tasks[t].pid
                && s.tasks[u].cohort_id == c.id;
        if u < t {
            assert(s.tasks[u].pid != s.tasks[t].pid);
        } else if t < u {
            assert(s.tasks[t].pid != s.tasks[u].pid);
        }
    }
}

proof fn lemma_held(s: SpillTick, c: CohortSnapshot)
    requires
        distinct_pids(s.tasks),
    ensures
        spilled_duty(s, c) == held_away(s, c.id),
{
    let f = |i: int|
        if already(s, c, s.tasks[i].pid) {
            s.tasks[i].duty_ns as int
        } else {
            0
        };
    let g = |t: int|
        if s.tasks[t].cohort_id == c.id && s.current.contains_key(s.tasks[t].pid) {
            s.tasks[t].duty_ns as int
        } else {
            0
        };
    assert forall|t: int| 0 <= t < s.tasks.len() implies #[trigger] f(t) == g(t) by {
        lemma_already(s, c, t);
    }
    lemma_total_ext(s.tasks.len() as int, f, g);
}

proof fn lemma_capacity(llcs: Seq<LlcLoad>, llc: u32, h: int)
    requires
        0 <= h < llcs.len(),
        llcs[h].llc == llc,
        forall|j: int| h < j < llcs.len() ==> (#[trigger] llcs[j]).llc != llc,
    ensures
        capacity_of(llcs, llc) == Some(llcs[h].capacity_ns),
    decreases llcs.len(),
{
    let last = llcs.len() - 1;
    if h < last {
        assert(llcs[last].llc != llc);
        let front = llcs.drop_last();
        assert(forall|j: int| 0 <= j < last ==> front[j] == llcs[j]);
        lemma_capacity(front, llc, h);
    }
}

proof fn lemma_no_capacity(llcs: Seq<LlcLoad>, llc: u32)
    requires
        forall|j: int| 0 <= j < llcs.len() ==> (#[trigger] llcs[j]).llc != llc,
    ensures
        capacity_of(llcs, llc) is None,
    decreases llcs.len(),
{
    if llcs.len() > 0 {
        let front = llcs.drop_last();
        assert(llcs[llcs.len() - 1].llc != llc);
        assert forall|j: int| 0 <= j < front.len() implies (#[trigger] front[j]).llc != llc by {
            assert(front[j] == llcs[j]);
        }
        lemma_no_capacity(front, llc);
    }
}

/// A member that was not away leaves exactly if it is exiled.
proof fn lemma_leaving(s: SpillTick, cohorts: Seq<CohortSnapshot>, i: int, t: int)
    requires
        s.llcs.len() >= 2,
        distinct_pids(s.tasks),
        distinct_cohorts(cohorts),
        0 <= i < cohorts.len(),
        0 <= t < s.tasks.len(),
    ensures
        ({
            let desired = desired_spills(s, cohorts);
            let g = growth(s, cohorts[i], promises_at(s, cohorts, i));
            &&& leaves(s, desired, cohorts[i].id, t) <==> g is Some && exiled(
                s,
                cohorts[i],
                g->0.excess,
                t,
            )
            &&& leaves(s, desired, cohorts[i].id, t) ==> desired[s.tasks[t].pid] == g->0.target
        }),
{
    let c = cohorts[i];
    let pid = s.tasks[t].pid;
    let planned = promises_at(s, cohorts, i);
    let g = growth(s, c, planned);
    lemma_already(s, c, t);
    if s.tasks[t].cohort_id == c.id {
        lemma_member_fate(s, cohorts, i, t);
        if g is Some {
            if exiled_pid(s, c, g->0.excess, pid) {
                let u = choose|u: int|
                    #[trigger] exiled(s, c, g->0.excess, u) && s.tasks[u].pid == pid;
                if u < t {
                    assert(s.tasks[u].pid != s.tasks[t].pid);
                } else if t < u {
                    assert(s.tasks[t].pid != s.tasks[u].pid);
                }
            }
            if exiled(s, c, g->0.excess, t) {
                assert(exiled_pid(s, c, g->0.excess, pid));
            }
        }
    }
}

proof fn lemma_promises(s: SpillTick, cohorts: Seq<CohortSnapshot>, i: int, llc: u32)
    requires
        s.llcs.len() >= 2,
        distinct_pids(s.tasks),
        distinct_cohorts(cohorts),
        0 <= i <= cohorts.len(),
    ensures
        promised(promises_at(s, cohorts, i), llc) == sent_ahead(s, cohorts, i, llc),
    decreases i,
{
    let n = s.tasks.len() as int;
    let desired = desired_spills(s, cohorts);
    let sum = |t: int| sent_with(s, cohorts, i, llc, t);
    if i == 0 {
        lemma_total_ext(n, sum, |t: int| 0int);
        lemma_total_zero(n);
        assert(cohorts.take(0).len() == 0);
    } else {
        lemma_promises(s, cohorts, i - 1, llc);
        let c = cohorts[i - 1];
        let planned = promises_at(s, cohorts, i - 1);
        let g = growth(s, c, planned);
        assert(cohorts.take(i).drop_last() =~= cohorts.take(i - 1));
        assert(cohorts.take(i).last() == c);
        let own = |t: int|
            if leaves(s, desired, c.id, t) && desired[s.tasks[t].pid] == llc {
                s.tasks[t].duty_ns as int
            } else {
                0
            };
        let front = |t: int| sent_with(s, cohorts, i - 1, llc, t);
        assert forall|t: int| 0 <= t < n implies #[trigger] sum(t) == front(t) + own(t) by {
            let id = s.tasks[t].cohort_id;
            if comes_before(cohorts, i - 1, id) {
                let j = choose|j: int| 0 <= j < i - 1 && (#[trigger] cohorts[j]).id == id;
                assert(cohorts[j].id != cohorts[i - 1].id);
            }
            if comes_before(cohorts, i, id) {
                let j = choose|j: int| 0 <= j < i && (#[trigger] cohorts[j]).id == id;
                if j < i - 1 {
                    assert(comes_before(cohorts, i - 1, id));
                }
            }
            if id == c.id {
                assert(cohorts[i - 1].id == id);
            }
        }
        lemma_total_sum(n, front, own, sum);
        let shedding = |t: int|
            if g is Some && exiled(s, c, g->0.excess, t) {
                s.tasks[t].duty_ns as int
            } else {
                0
            };
        if g is Some && g->0.target == llc {
            assert forall|t: int| 0 <= t < n implies #[trigger] own(t) == shedding(t) by {
                lemma_leaving(s, cohorts, i - 1, t);
            }
            lemma_total_ext(n, own, shedding);
            lemma_total_ext(
                n,
                shedding,
                |i: int|
                    if exiled(s, c, g->0.excess, i) {
                        s.tasks[i].duty_ns as int
                    } else {
                        0
                    },
            );
            assert(total(n, own) == shed(s, c, g->0.excess));
        } else {
            assert forall|t: int| 0 <= t < n implies #[trigger] own(t) == 0 by {
                lemma_leaving(s, cohorts, i - 1, t);
            }
            lemma_total_ext(n, own, |t: int| 0int);
            lemma_total_zero(n);
        }
    }
}

// ---- Who leaves ----

/// What the laws on growth suppose of cohort `i`: entry `h` is its home's.
pub open spec fn home_entry(s: SpillTick, c: CohortSnapshot, h: int) -> bool {
    &&& 0 <= h < s.llcs.len()
    &&& s.llcs[h].llc == c.home_llc
    &&& forall|j: int| h < j < s.llcs.len() ==> (#[trigger] s.llcs[j]).llc != c.home_llc
}

/// Entry `d` is the least loaded LLC other than the home of cohort `i`, with
/// what the cohorts before it send there; the first of equals.
pub open spec fn least_loaded(s: SpillTick, cohorts: Seq<CohortSnapshot>, i: int, d: int) -> bool {
    &&& 0 <= d < s.llcs.len()
    &&& s.llcs[d].llc != cohorts[i].home_llc
    &&& forall|j: int|
        0 <= j < s.llcs.len() && (#[trigger] s.llcs[j]).llc != cohorts[i].home_llc ==> {
            let there = s.llcs[d].load_ns + sent_ahead(s, cohorts, i, s.llcs[d].llc);
            let other = s.llcs[j].load_ns + sent_ahead(s, cohorts, i, s.llcs[j].llc);
            there <= other && (j < d ==> there < other)
        }
}

proof fn lemma_destination(s: SpillTick, cohorts: Seq<CohortSnapshot>, i: int, d: int)
    requires
        s.llcs.len() >= 2,
        distinct_pids(s.tasks),
        distinct_cohorts(cohorts),
        0 <= i < cohorts.len(),
    ensures
        least_loaded(s, cohorts, i, d) <==> is_destination(
            s,
            cohorts[i],
            promises_at(s, cohorts, i),
            d,
        ),
{
    let planned = promises_at(s, cohorts, i);
    assert forall|j: int| 0 <= j < s.llcs.len() implies promised_load(
        #[trigger] s.llcs[j],
        planned,
    ) == s.llcs[j].load_ns + sent_ahead(s, cohorts, i, s.llcs[j].llc) by {
        lemma_promises(s, cohorts, i, s.llcs[j].llc);
    }
    if is_destination(s, cohorts[i], planned, d) {
        assert(s.llcs[d].llc != cohorts[i].home_llc);
        assert(least_loaded(s, cohorts, i, d));
    }
    if least_loaded(s, cohorts, i, d) {
        assert(s.llcs[d].llc != cohorts[i].home_llc);
        assert(is_destination(s, cohorts[i], planned, d));
    }
}

/// What one cohort's planning decides, told from the snapshots.
proof fn lemma_growth_told(s: SpillTick, cohorts: Seq<CohortSnapshot>, i: int, h: int, d: int)
    requires
        s.llcs.len() >= 2,
        distinct_pids(s.tasks),
        distinct_cohorts(cohorts),
        0 <= i < cohorts.len(),
        home_entry(s, cohorts[i], h),
        least_loaded(s, cohorts, i, d),
    ensures
        ({
            let c = cohorts[i];
            let g = growth(s, c, promises_at(s, cohorts, i));
            let high = s.llcs[h].capacity_ns * s.cfg.high_pct / 100;
            let low = s.llcs[h].capacity_ns * s.cfg.low_pct / 100;
            let there = s.llcs[d].load_ns + sent_ahead(s, cohorts, i, s.llcs[d].llc);
            let room = s.llcs[d].capacity_ns * s.cfg.high_pct / 100 - there;
            let over = demand_at_home(s, c) - high;
            &&& g is Some <==> c.load_ns >= low && over >= 0 && room > 0
            &&& g is Some ==> g->0.target == s.llcs[d].llc
            &&& g is Some ==> g->0.excess == (if over <= room {
                over
            } else {
                room
            })
        }),
{
    let c = cohorts[i];
    let planned = promises_at(s, cohorts, i);
    lemma_held(s, c);
    lemma_capacity(s.llcs, c.home_llc, h);
    lemma_destination(s, cohorts, i, d);
    lemma_destination_unique(s, c, planned, d);
    lemma_promises(s, cohorts, i, s.llcs[d].llc);
}

/// A cohort whose demand at home exceeds the high mark of its home sheds
/// members as long as the least loaded other LLC has room below its own: what
/// leaves covers the excess, or the room if that is less, unless everyone of
/// the cohort who was at home with a known duty and burned something leaves.
pub proof fn law_overloaded_cohorts_shed(
    s: SpillTick,
    cohorts: Seq<CohortSnapshot>,
    i: int,
    h: int,
    d: int,
)
    requires
        s.llcs.len() >= 2,
        distinct_pids(s.tasks),
        distinct_cohorts(cohorts),
        0 <= i < cohorts.len(),
        home_entry(s, cohorts[i], h),
        least_loaded(s, cohorts, i, d),
        cohorts[i].load_ns >= s.llcs[h].capacity_ns * s.cfg.low_pct / 100,
    ensures
        ({
            let desired = desired_spills(s, cohorts);
            let newly = newly_away(s, desired, cohorts[i].id);
            let excess = demand_at_home(s, cohorts[i]) - s.llcs[h].capacity_ns * s.cfg.high_pct
                / 100;
            let room = s.llcs[d].capacity_ns * s.cfg.high_pct / 100 - s.llcs[d].load_ns
                - sent_ahead(s, cohorts, i, s.llcs[d].llc);
            ||| newly >= excess
            ||| newly >= room
            ||| forall|t: int|
                0 <= t < s.tasks.len() && (#[trigger] s.tasks[t]).cohort_id == cohorts[i].id
                    && s.tasks[t].duty_known && s.tasks[t].duty_ns > 0 && !s.current.contains_key(
                    s.tasks[t].pid,
                ) ==> desired.contains_key(s.tasks[t].pid)
        }),
{
    let c = cohorts[i];
    let n = s.tasks.len() as int;
    let desired = desired_spills(s, cohorts);
    let g = growth(s, c, promises_at(s, cohorts, i));
    lemma_growth_told(s, cohorts, i, h, d);
    lemma_newly(s, cohorts, i);
    if g is Some {
        law_exile_stops_once_the_excess_is_covered(s, c, g->0.excess);
        if shed(s, c, g->0.excess) < g->0.excess {
            assert forall|t: int|
                0 <= t < n && (#[trigger] s.tasks[t]).cohort_id == c.id && s.tasks[t].duty_known
                    && s.tasks[t].duty_ns > 0 && !s.current.contains_key(
                    s.tasks[t].pid,
                ) implies desired.contains_key(s.tasks[t].pid) by {
                lemma_already(s, c, t);
                assert(may_spill(s, c, t));
                assert(exiled(s, c, g->0.excess, t));
                lemma_leaving(s, cohorts, i, t);
            }
        }
    }
}

proof fn lemma_newly(s: SpillTick, cohorts: Seq<CohortSnapshot>, i: int)
    requires
        s.llcs.len() >= 2,
        distinct_pids(s.tasks),
        distinct_cohorts(cohorts),
        0 <= i < cohorts.len(),
    ensures
        ({
            let g = growth(s, cohorts[i], promises_at(s, cohorts, i));
            newly_away(s, desired_spills(s, cohorts), cohorts[i].id) == (if g is Some {
                shed(s, cohorts[i], g->0.excess)
            } else {
                0
            })
        }),
{
    let c = cohorts[i];
    let n = s.tasks.len() as int;
    let desired = desired_spills(s, cohorts);
    let g = growth(s, c, promises_at(s, cohorts, i));
    let mine = |t: int|
        if leaves(s, desired, c.id, t) {
            s.tasks[t].duty_ns as int
        } else {
            0
        };
    if g is Some {
        let gone = |i: int|
            if exiled(s, c, g->0.excess, i) {
                s.tasks[i].duty_ns as int
            } else {
                0
            };
        assert forall|t: int| 0 <= t < n implies #[trigger] mine(t) == gone(t) by {
            lemma_leaving(s, cohorts, i, t);
        }
        lemma_total_ext(n, mine, gone);
    } else {
        assert forall|t: int| 0 <= t < n implies #[trigger] mine(t) == 0 by {
            lemma_leaving(s, cohorts, i, t);
        }
        lemma_total_ext(n, mine, |t: int| 0int);
        lemma_total_zero(n);
    }
}

/// No more leave than needed: whoever leaves had a known duty, burned
/// something, goes to the least loaded other LLC, and leaves because those who
/// go before it do not cover the excess, nor fill the room.
pub proof fn law_nobody_leaves_without_need(
    s: SpillTick,
    cohorts: Seq<CohortSnapshot>,
    i: int,
    h: int,
    d: int,
    t: int,
)
    requires
        s.llcs.len() >= 2,
        distinct_pids(s.tasks),
        distinct_cohorts(cohorts),
        0 <= i < cohorts.len(),
        home_entry(s, cohorts[i], h),
        least_loaded(s, cohorts, i, d),
        leaves(s, desired_spills(s, cohorts), cohorts[i].id, t),
    ensures
        ({
            let desired = desired_spills(s, cohorts);
            let ahead = total(
                s.tasks.len() as int,
                |u: int|
                    if leaves(s, desired, cohorts[i].id, u) && goes_first(s, u, t) {
                        s.tasks[u].duty_ns as int
                    } else {
                        0
                    },
            );
            &&& s.tasks[t].duty_known
            &&& s.tasks[t].duty_ns > 0
            &&& desired[s.tasks[t].pid] == s.llcs[d].llc
            &&& cohorts[i].load_ns >= s.llcs[h].capacity_ns * s.cfg.low_pct / 100
            &&& ahead < demand_at_home(s, cohorts[i]) - s.llcs[h].capacity_ns * s.cfg.high_pct
                / 100
            &&& ahead < s.llcs[d].capacity_ns * s.cfg.high_pct / 100 - s.llcs[d].load_ns
                - sent_ahead(s, cohorts, i, s.llcs[d].llc)
        }),
{
    let c = cohorts[i];
    let n = s.tasks.len() as int;
    let desired = desired_spills(s, cohorts);
    lemma_growth_told(s, cohorts, i, h, d);
    lemma_leaving(s, cohorts, i, t);
    let f = |u: int|
        if leaves(s, desired, c.id, u) && goes_first(s, u, t) {
            s.tasks[u].duty_ns as int
        } else {
            0
        };
    let g = |j: int|
        if may_spill(s, c, j) && sheds_before(s, j, t) {
            s.tasks[j].duty_ns as int
        } else {
            0
        };
    assert forall|u: int| 0 <= u < n implies #[trigger] f(u) <= g(u) by {
        lemma_leaving(s, cohorts, i, u);
    }
    lemma_total_le(n, f, g);
    assert(shed_before(s, c, t) == total(n, g));
}

/// Nobody who goes first is passed over: while a member leaves, everyone of
/// the cohort who goes before it, was at home with a known duty and burned
/// something leaves too.
pub proof fn law_members_leave_in_turn(
    s: SpillTick,
    cohorts: Seq<CohortSnapshot>,
    i: int,
    u: int,
    t: int,
)
    requires
        s.llcs.len() >= 2,
        distinct_pids(s.tasks),
        distinct_cohorts(cohorts),
        0 <= i < cohorts.len(),
        leaves(s, desired_spills(s, cohorts), cohorts[i].id, t),
        0 <= u < s.tasks.len(),
        s.tasks[u].cohort_id == cohorts[i].id,
        s.tasks[u].duty_known,
        s.tasks[u].duty_ns > 0,
        !s.current.contains_key(s.tasks[u].pid),
        goes_first(s, u, t),
    ensures
        desired_spills(s, cohorts).contains_key(s.tasks[u].pid),
        desired_spills(s, cohorts)[s.tasks[u].pid] == desired_spills(s, cohorts)[s.tasks[t].pid],
{
    let c = cohorts[i];
    lemma_leaving(s, cohorts, i, t);
    lemma_already(s, c, u);
    assert(sheds_before(s, u, t));
    lemma_shed_before_monotone(s, c, u, t);
    let g = growth(s, c, promises_at(s, cohorts, i))->0;
    assert(exiled(s, c, g.excess, u));
    lemma_leaving(s, cohorts, i, u);
}

/// Nobody leaves a cohort whose demand at home is below the high mark of its
/// home, or whose demand is below the low mark, or whose home is not among the
/// LLCs.
pub proof fn law_calm_cohorts_shed_nobody(
    s: SpillTick,
    cohorts: Seq<CohortSnapshot>,
    i: int,
    t: int,
)
    requires
        s.llcs.len() >= 2,
        distinct_pids(s.tasks),
        distinct_cohorts(cohorts),
        0 <= i < cohorts.len(),
        forall|h: int| #[trigger]
            home_entry(s, cohorts[i], h) ==> cohorts[i].load_ns < s.llcs[h].capacity_ns
                * s.cfg.low_pct / 100 || demand_at_home(s, cohorts[i]) <= s.llcs[h].capacity_ns
                * s.cfg.high_pct / 100,
    ensures
        !leaves(s, desired_spills(s, cohorts), cohorts[i].id, t),
{
    let c = cohorts[i];
    if leaves(s, desired_spills(s, cohorts), c.id, t) {
        lemma_leaving(s, cohorts, i, t);
        let planned = promises_at(s, cohorts, i);
        let d = choose|d: int| is_destination(s, c, planned, d);
        assert(is_destination(s, c, planned, d));
        lemma_destination(s, cohorts, i, d);
        if exists|j: int| 0 <= j < s.llcs.len() && (#[trigger] s.llcs[j]).llc == c.home_llc {
            let h = lemma_last_entry(s.llcs, c.home_llc, s.llcs.len() as int);
            assert(home_entry(s, c, h));
            law_nobody_leaves_without_need(s, cohorts, i, h, d, t);
            lemma_ahead_nonneg(s, desired_spills(s, cohorts), c.id, t);
        } else {
            lemma_no_capacity(s.llcs, c.home_llc);
        }
    }
}

proof fn lemma_ahead_nonneg(s: SpillTick, desired: Map<u32, u32>, id: u64, t: int)
    ensures
        total(
            s.tasks.len() as int,
            |u: int|
                if leaves(s, desired, id, u) && goes_first(s, u, t) {
                    s.tasks[u].duty_ns as int
                } else {
                    0
                },
        ) >= 0,
{
    let n = s.tasks.len() as int;
    lemma_total_zero(n);
    lemma_total_le(
        n,
        |u: int| 0int,
        |u: int|
            if leaves(s, desired, id, u) && goes_first(s, u, t) {
                s.tasks[u].duty_ns as int
            } else {
                0
            },
    );
}

proof fn lemma_last_entry(llcs: Seq<LlcLoad>, llc: u32, n: int) -> (h: int)
    requires
        0 <= n <= llcs.len(),
        exists|j: int| 0 <= j < n && (#[trigger] llcs[j]).llc == llc,
    ensures
        0 <= h < n,
        llcs[h].llc == llc,
        forall|j: int| h < j < n ==> (#[trigger] llcs[j]).llc != llc,
    decreases n,
{
    if llcs[n - 1].llc == llc {
        n - 1
    } else {
        lemma_last_entry(llcs, llc, n - 1)
    }
}

/// Nobody leaves for want of room: where every other LLC, with what is sent
/// there ahead, is at its own high mark or above.
pub proof fn law_without_room_nobody_leaves(
    s: SpillTick,
    cohorts: Seq<CohortSnapshot>,
    i: int,
    t: int,
)
    requires
        s.llcs.len() >= 2,
        distinct_pids(s.tasks),
        distinct_cohorts(cohorts),
        0 <= i < cohorts.len(),
        forall|j: int|
            0 <= j < s.llcs.len() && (#[trigger] s.llcs[j]).llc != cohorts[i].home_llc
                ==> s.llcs[j].load_ns + sent_ahead(s, cohorts, i, s.llcs[j].llc)
                >= s.llcs[j].capacity_ns * s.cfg.high_pct / 100,
    ensures
        !leaves(s, desired_spills(s, cohorts), cohorts[i].id, t),
{
    let c = cohorts[i];
    if leaves(s, desired_spills(s, cohorts), c.id, t) {
        lemma_leaving(s, cohorts, i, t);
        let planned = promises_at(s, cohorts, i);
        let d = choose|d: int| is_destination(s, c, planned, d);
        assert(is_destination(s, c, planned, d));
        lemma_promises(s, cohorts, i, s.llcs[d].llc);
        assert(s.llcs[d].llc != c.home_llc);
    }
}

// ---- Who is away stays or comes home ----

/// A task that is away stays where it is while its cohort's demand is at or
/// above the low mark of its home, and comes home otherwise.
pub proof fn law_the_low_mark_calls_back(
    s: SpillTick,
    cohorts: Seq<CohortSnapshot>,
    i: int,
    h: int,
    t: int,
)
    requires
        s.llcs.len() >= 2,
        distinct_pids(s.tasks),
        distinct_cohorts(cohorts),
        0 <= i < cohorts.len(),
        home_entry(s, cohorts[i], h),
        0 <= t < s.tasks.len(),
        s.tasks[t].cohort_id == cohorts[i].id,
    ensures
        ({
            let desired = desired_spills(s, cohorts);
            let pid = s.tasks[t].pid;
            let low = s.llcs[h].capacity_ns * s.cfg.low_pct / 100;
            &&& cohorts[i].load_ns < low ==> !desired.contains_key(pid)
            &&& cohorts[i].load_ns >= low && s.current.contains_key(pid) ==> desired.contains_key(
                pid,
            ) && desired[pid] == s.current[pid]
        }),
{
    let c = cohorts[i];
    lemma_capacity(s.llcs, c.home_llc, h);
    lemma_member_fate(s, cohorts, i, t);
    lemma_already(s, c, t);
    let g = growth(s, c, promises_at(s, cohorts, i));
    if g is Some && exiled_pid(s, c, g->0.excess, s.tasks[t].pid) {
        let u = choose|u: int|
            #[trigger] exiled(s, c, g->0.excess, u) && s.tasks[u].pid == s.tasks[t].pid;
        lemma_already(s, c, u);
    }
}

/// The members of a cohort whose home is not among the LLCs come home, and so
/// does everyone where there are no two LLCs.
pub proof fn law_without_a_home_nobody_is_away(
    s: SpillTick,
    cohorts: Seq<CohortSnapshot>,
    i: int,
    t: int,
)
    requires
        distinct_pids(s.tasks),
        distinct_cohorts(cohorts),
        0 <= i < cohorts.len(),
        0 <= t < s.tasks.len(),
        s.tasks[t].cohort_id == cohorts[i].id,
        s.llcs.len() < 2 || forall|j: int|
            0 <= j < s.llcs.len() ==> (#[trigger] s.llcs[j]).llc != cohorts[i].home_llc,
    ensures
        !desired_spills(s, cohorts).contains_key(s.tasks[t].pid),
{
    if s.llcs.len() >= 2 {
        lemma_no_capacity(s.llcs, cohorts[i].home_llc);
        lemma_member_fate(s, cohorts, i, t);
    }
}

/// Only tasks of the planned cohorts are ever away.
pub proof fn law_strangers_are_never_away(
    s: SpillTick,
    cohorts: Seq<CohortSnapshot>,
    pid: u32,
)
    requires
        forall|i: int, t: int|
            0 <= i < cohorts.len() && 0 <= t < s.tasks.len() && (#[trigger] s.tasks[t]).cohort_id
                == (#[trigger] cohorts[i]).id ==> s.tasks[t].pid != pid,
    ensures
        !desired_spills(s, cohorts).contains_key(pid),
{
    if s.llcs.len() >= 2 {
        assert forall|i: int, t: int|
            0 <= i < cohorts.len() && #[trigger] member(s, cohorts[i], t) implies s.tasks[t].pid
            != pid by {
            assert(s.tasks[t].cohort_id == cohorts[i].id);
        }
        lemma_unlisted(s, cohorts, pid);
    }
}

// ---- What makes no difference ----

/// The two ticks agree in what spill planning reads of the tasks.
pub open spec fn tasks_agree(s: SpillTick, r: SpillTick) -> bool {
    &&& s.cfg == r.cfg
    &&& s.llcs == r.llcs
    &&& s.current == r.current
    &&& s.tasks.len() == r.tasks.len()
    &&& forall|t: int|
        0 <= t < s.tasks.len() ==> {
            &&& (#[trigger] s.tasks[t]).pid == r.tasks[t].pid
            &&& s.tasks[t].cohort_id == r.tasks[t].cohort_id
            &&& s.tasks[t].duty_ns == r.tasks[t].duty_ns
            &&& s.tasks[t].duty_known == r.tasks[t].duty_known
        }
}

/// The two lists agree in what spill planning reads of the cohorts.
pub open spec fn cohorts_agree(a: Seq<CohortSnapshot>, b: Seq<CohortSnapshot>) -> bool {
    &&& a.len() == b.len()
    &&& forall|i: int|
        0 <= i < a.len() ==> {
            &&& (#[trigger] a[i]).id == b[i].id
            &&& a[i].home_llc == b[i].home_llc
            &&& a[i].load_ns == b[i].load_ns
        }
}

proof fn lemma_agree_already(
    s: SpillTick,
    r: SpillTick,
    c: CohortSnapshot,
    e: CohortSnapshot,
    pid: u32,
)
    requires
        tasks_agree(s, r),
        c.id == e.id,
    ensures
        already(s, c, pid) <==> already(r, e, pid),
{
    if already(s, c, pid) {
        let t = choose|t: int|
            0 <= t < s.tasks.len() && (#[trigger] s.tasks[t]).pid == pid && s.tasks[t].cohort_id
                == c.id;
        assert(r.tasks[t].pid == pid && r.tasks[t].cohort_id == e.id);
    }
    if already(r, e, pid) {
        let t = choose|t: int|
            0 <= t < r.tasks.len() && (#[trigger] r.tasks[t]).pid == pid && r.tasks[t].cohort_id
                == e.id;
        assert(s.tasks[t].pid == pid && s.tasks[t].cohort_id == c.id);
    }
}

proof fn lemma_agree_cohort(
    s: SpillTick,
    r: SpillTick,
    c: CohortSnapshot,
    e: CohortSnapshot,
    planned: Map<u32, int>,
)
    requires
        tasks_agree(s, r),
        c.id == e.id,
        c.home_llc == e.home_llc,
        c.load_ns == e.load_ns,
    ensures
        growth(s, c, planned) == growth(r, e, planned),
        forall|pid: u32| #[trigger] placement(s, c, planned, pid) == placement(r, e, planned, pid),
        forall|excess: int| #[trigger] shed(s, c, excess) == shed(r, e, excess),
{
    let n = s.tasks.len() as int;
    assert forall|pid: u32| #[trigger] already(s, c, pid) <==> already(r, e, pid) by {
        lemma_agree_already(s, r, c, e, pid);
    }
    lemma_total_ext(
        n,
        |i: int|
            if already(s, c, s.tasks[i].pid) {
                s.tasks[i].duty_ns as int
            } else {
                0
            },
        |i: int|
            if already(r, e, r.tasks[i].pid) {
                r.tasks[i].duty_ns as int
            } else {
                0
            },
    );
    assert(spilled_duty(s, c) == spilled_duty(r, e));
    assert forall|d: int| is_destination(s, c, planned, d) <==> is_destination(
        r,
        e,
        planned,
        d,
    ) by {
        if is_destination(s, c, planned, d) {
            assert(is_destination(r, e, planned, d));
        }
        if is_destination(r, e, planned, d) {
            assert(is_destination(s, c, planned, d));
        }
    }
    if exists|d: int| is_destination(s, c, planned, d) {
        let d = choose|d: int| is_destination(s, c, planned, d);
        assert(is_destination(r, e, planned, d));
        lemma_destination_unique(s, c, planned, d);
        lemma_destination_unique(r, e, planned, d);
    } else {
        assert forall|d: int| !is_destination(r, e, planned, d) by {
            assert(!is_destination(s, c, planned, d));
        }
    }
    assert(growth(s, c, planned) == growth(r, e, planned));
    assert forall|t: int| #[trigger] may_spill(s, c, t) <==> may_spill(r, e, t) by {
        if 0 <= t < n {
            assert(s.tasks[t].pid == r.tasks[t].pid);
            assert(already(s, c, s.tasks[t].pid) <==> already(r, e, s.tasks[t].pid));
        }
    }
    assert forall|u: int, t: int|
        0 <= u < n && 0 <= t < n implies #[trigger] sheds_before(s, u, t) == sheds_before(
        r,
        u,
        t,
    ) by {
        assert(s.tasks[u].duty_ns == r.tasks[u].duty_ns);
        assert(s.tasks[t].duty_ns == r.tasks[t].duty_ns);
    }
    assert forall|t: int| 0 <= t < n implies #[trigger] shed_before(s, c, t) == shed_before(
        r,
        e,
        t,
    ) by {
        let f = |j: int|
            if may_spill(s, c, j) && sheds_before(s, j, t) {
                s.tasks[j].duty_ns as int
            } else {
                0
            };
        let g = |j: int|
            if may_spill(r, e, j) && sheds_before(r, j, t) {
                r.tasks[j].duty_ns as int
            } else {
                0
            };
        assert forall|j: int| 0 <= j < n implies #[trigger] f(j) == g(j) by {
            assert(may_spill(s, c, j) <==> may_spill(r, e, j));
            assert(sheds_before(s, j, t) == sheds_before(r, j, t));
        }
        lemma_total_ext(n, f, g);
    }
    assert forall|excess: int, t: int| #[trigger]
        exiled(s, c, excess, t) <==> exiled(r, e, excess, t) by {
        assert(may_spill(s, c, t) <==> may_spill(r, e, t));
        if 0 <= t < n {
            assert(shed_before(s, c, t) == shed_before(r, e, t));
        }
    }
    assert forall|excess: int| #[trigger] shed(s, c, excess) == shed(r, e, excess) by {
        let f = |i: int|
            if exiled(s, c, excess, i) {
                s.tasks[i].duty_ns as int
            } else {
                0
            };
        let g = |i: int|
            if exiled(r, e, excess, i) {
                r.tasks[i].duty_ns as int
            } else {
                0
            };
        assert forall|i: int| 0 <= i < n implies #[trigger] f(i) == g(i) by {
            assert(exiled(s, c, excess, i) <==> exiled(r, e, excess, i));
        }
        lemma_total_ext(n, f, g);
    }
    assert forall|pid: u32| #[trigger]
        placement(s, c, planned, pid) == placement(r, e, planned, pid) by {
        assert(already(s, c, pid) <==> already(r, e, pid));
        match growth(s, c, planned) {
            Some(g) => {
                if exiled_pid(s, c, g.excess, pid) {
                    let t = choose|t: int| #[trigger]
                        exiled(s, c, g.excess, t) && s.tasks[t].pid == pid;
                    assert(exiled(r, e, g.excess, t) && r.tasks[t].pid == pid);
                }
                if exiled_pid(r, e, g.excess, pid) {
                    let t = choose|t: int| #[trigger]
                        exiled(r, e, g.excess, t) && r.tasks[t].pid == pid;
                    assert(exiled(s, c, g.excess, t) <==> exiled(r, e, g.excess, t));
                    assert(exiled(s, c, g.excess, t) && s.tasks[t].pid == pid);
                }
            },
            None => {},
        }
    }
}

proof fn lemma_agree_plan(
    s: SpillTick,
    r: SpillTick,
    a: Seq<CohortSnapshot>,
    b: Seq<CohortSnapshot>,
)
    requires
        tasks_agree(s, r),
        cohorts_agree(a, b),
    ensures
        spill_plan(s, a) == spill_plan(r, b),
    decreases a.len(),
{
    if a.len() > 0 {
        let (fa, fb) = (a.drop_last(), b.drop_last());
        assert forall|i: int| 0 <= i < fa.len() implies {
            &&& (#[trigger] fa[i]).id == fb[i].id
            &&& fa[i].home_llc == fb[i].home_llc
            &&& fa[i].load_ns == fb[i].load_ns
        } by {
            assert(a[i].id == b[i].id);
        }
        lemma_agree_plan(s, r, fa, fb);
        let last = a.len() - 1;
        assert(a[last].id == b[last].id);
        lemma_agree_cohort(s, r, a.last(), b.last(), spill_plan(s, fa).planned);
        assert(spill_plan(s, a) =~= spill_plan(r, b));
    }
}

/// A spill plan depends on the pids, cohorts and duties of the tasks, on
/// whether their duties are known, and on the ids, homes and demands of the
/// cohorts. Names, processes, runtime at home, pins, task counts and residency
/// make no difference.
pub proof fn law_only_duties_and_demands_count(
    s: SpillTick,
    r: SpillTick,
    a: Seq<CohortSnapshot>,
    b: Seq<CohortSnapshot>,
)
    requires
        tasks_agree(s, r),
        cohorts_agree(a, b),
    ensures
        desired_spills(s, a) == desired_spills(r, b),
{
    lemma_agree_plan(s, r, a, b);
}

} // verus!
