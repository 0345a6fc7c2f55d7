//! What holds of merging and splitting over whole ticks and runs of ticks.
use vstd::prelude::*;

use crate::components::{
    lemma_connected_sym, lemma_connected_trans, lemma_partings_list, Community,
};
use crate::ordered::{in_order, lemma_in_order_lists};
use crate::wake_graph::{
    all_splits, bits_of, blended, circle, cohort_splits, lookup, observed, rank_of,
    splits_now, splits_of, streak, streaks_after, traffic, with_rates, EdgeRate, EdgeState, Groups,
    MergeTick, Split, WakeGraphCfg, WakeState,
};

verus! {

// ---- Ranks ----

/// A rank and its bit pattern determine each other.
pub proof fn law_ranks_round_trip(x: u64)
    ensures
        bits_of(rank_of(x)) == x,
        rank_of(bits_of(x)) == x,
{
}

/// Ranks order as doubles do: below the sign bit by bit pattern, above it
/// against the bit pattern, and every negative one under every positive one.
pub proof fn law_ranks_order_rates(a: u64, b: u64)
    ensures
        a < 0x8000_0000_0000_0000 && b < 0x8000_0000_0000_0000 ==> (rank_of(a) < rank_of(b) <==> a
            < b),
        a >= 0x8000_0000_0000_0000 && b >= 0x8000_0000_0000_0000 ==> (rank_of(a) < rank_of(b)
            <==> b < a),
        a >= 0x8000_0000_0000_0000 && b < 0x8000_0000_0000_0000 ==> rank_of(a) < rank_of(b),
{
}

// ---- Merges within a tick ----

/// The merges among the first `n` edges come from edges that merge.
pub proof fn lemma_plan_source(t: MergeTick, n: int, k: int) -> (m: int)
    requires
        0 <= k < t.plans(n).len(),
    ensures
        0 <= m < n,
        t.merges_at(m),
        t.plans(n)[k] == t.merge_along(t.order()[m]),
        k == t.plans(m).len(),
    decreases n,
{
    if t.merges_at(n - 1) && k == t.plans(n).len() - 1 {
        n - 1
    } else {
        lemma_plan_source(t, n - 1, k)
    }
}

/// A plan's cohorts are busy from then on.
pub proof fn lemma_planned_is_busy(t: MergeTick, m: int, n: int)
    requires
        0 <= m < n,
        t.merges_at(m),
    ensures
        t.busy(n).contains(t.first(t.order()[m])),
        t.busy(n).contains(t.second(t.order()[m])),
    decreases n,
{
    if m < n - 1 {
        lemma_planned_is_busy(t, m, n - 1);
    }
}

proof fn lemma_plans_grow(t: MergeTick, m: int, n: int)
    requires
        0 <= m <= n,
    ensures
        t.plans(m).len() <= t.plans(n).len(),
    decreases n,
{
    if m < n {
        lemma_plans_grow(t, m, n - 1);
    }
}

/// Within a tick no cohort takes part in two merges.
pub proof fn law_one_merge_per_cohort(t: MergeTick, i: int, j: int)
    requires
        0 <= i < j < t.all().len(),
    ensures
        t.all()[i].into != t.all()[j].into,
        t.all()[i].into != t.all()[j].from,
        t.all()[i].from != t.all()[j].into,
        t.all()[i].from != t.all()[j].from,
{
    let n = t.order().len() as int;
    let a = lemma_plan_source(t, n, i);
    let b = lemma_plan_source(t, n, j);
    if b <= a {
        lemma_plans_grow(t, b, a);
    }
    lemma_planned_is_busy(t, a, b);
}

/// A merge joins two different cohorts along an edge that is due and that the
/// tick merges along, and the bigger one absorbs the other.
pub proof fn law_merges_join_along_due_edges(t: MergeTick, k: int)
    requires
        0 <= k < t.all().len(),
    ensures
        t.all()[k].into != t.all()[k].from,
        t.size(t.all()[k].into) >= t.size(t.all()[k].from),
        exists|n: int|
            {
                &&& 0 <= n < t.order().len()
                &&& t.due(#[trigger] t.order()[n])
                &&& t.merges_at(n)
                &&& t.merges_along(t.order()[n])
                &&& t.all()[k] == t.merge_along(t.order()[n])
            },
{
    let n = lemma_plan_source(t, t.order().len() as int, k);
    assert(t.due(t.order()[n]));
    assert(t.merges_along(t.order()[n]));
}

/// An edge that is due is passed over only for a merge that already involves
/// one of its cohorts.
pub proof fn law_due_edges_merge_unless_busy(t: MergeTick, n: int)
    requires
        0 <= n < t.order().len(),
        t.due(t.order()[n]),
        !t.merges_at(n),
    ensures
        exists|k: int|
            0 <= k < t.all().len() && {
                let p = #[trigger] t.all()[k];
                let a = t.first(t.order()[n]);
                let b = t.second(t.order()[n]);
                p.into == a || p.into == b || p.from == a || p.from == b
            },
{
    let key = t.order()[n];
    let c = if t.busy(n).contains(t.first(key)) {
        t.first(key)
    } else {
        t.second(key)
    };
    let k = lemma_busy_source(t, n, c);
    lemma_plans_prefix(t, n, t.order().len() as int);
    assert(t.all()[k] == t.plans(n)[k]);
}

/// A busy cohort takes part in some merge.
proof fn lemma_busy_source(t: MergeTick, n: int, c: u64) -> (k: int)
    requires
        t.busy(n).contains(c),
    ensures
        0 <= k < t.plans(n).len(),
        t.plans(n)[k].into == c || t.plans(n)[k].from == c,
    decreases n,
{
    if n <= 0 {
        0
    } else if t.merges_at(n - 1) && (c == t.first(t.order()[n - 1]) || c == t.second(
        t.order()[n - 1],
    )) {
        t.plans(n).len() - 1
    } else {
        lemma_busy_source(t, n - 1, c)
    }
}

pub proof fn lemma_plans_prefix(t: MergeTick, m: int, n: int)
    requires
        0 <= m <= n,
    ensures
        t.plans(m).len() <= t.plans(n).len(),
        forall|k: int| 0 <= k < t.plans(m).len() ==> t.plans(n)[k] == #[trigger] t.plans(m)[k],
    decreases n,
{
    if m < n {
        lemma_plans_prefix(t, m, n - 1);
    }
}

// ---- Merges over a run of ticks ----

/// Between two ticks, the confirmation counts that one leaves are those that
/// the next one finds; edges that came in between start at zero.
pub open spec fn counts_carry_over(after: Map<u64, EdgeState>, next: Map<u64, EdgeState>) -> bool {
    forall|key: u64| #[trigger]
        next.dom().contains(key) ==> next[key].over_ticks == (if after.dom().contains(key) {
            after[key].over_ticks
        } else {
            0
        })
}

/// Observing traffic leaves the confirmation counts alone.
pub proof fn law_observing_keeps_counts<F: Fn(Option<u64>, u64) -> EdgeRate>(
    blend: F,
    cfg: WakeGraphCfg,
    deltas: Seq<(u32, u32, u64)>,
    sample_mult: u64,
    before: Map<u64, EdgeState>,
    after: Map<u64, EdgeState>,
)
    requires
        observed(blend, cfg, deltas, sample_mult, before, after),
    ensures
        counts_carry_over(before, after),
{
    assert forall|key: u64| #[trigger] after.dom().contains(key) implies after[key].over_ticks == (
    if before.dom().contains(key) {
        before[key].over_ticks
    } else {
        0
    }) by {
        let count = traffic(deltas, sample_mult, key);
        assert(blended(blend, cfg, lookup(before, key), count, lookup(after, key)));
        let r = choose|r: EdgeRate|
            lookup(after, key) == #[trigger] with_rates(cfg, lookup(before, key), r);
    }
}

/// Consecutive ticks of one wake graph that was empty before the first.
pub open spec fn merge_run(cfg: WakeGraphCfg, ticks: Seq<MergeTick>) -> bool {
    &&& forall|k: int| 0 <= k < ticks.len() ==> (#[trigger] ticks[k]).cfg == cfg
    &&& ticks.len() > 0 ==> counts_carry_over(Map::empty(), ticks[0].edges)
    &&& forall|k: int| 0 < k < ticks.len() ==> #[trigger] tick_follows(ticks, k)
}

/// The counts that tick `k` finds are those that the one before left.
pub open spec fn tick_follows(ticks: Seq<MergeTick>, k: int) -> bool {
    counts_carry_over(ticks[k - 1].edges_after(), ticks[k].edges)
}

/// An edge's confirmation count is no more than the number of ticks before.
proof fn lemma_count_bound(cfg: WakeGraphCfg, ticks: Seq<MergeTick>, k: int, key: u64)
    requires
        merge_run(cfg, ticks),
        0 <= k < ticks.len(),
        ticks[k].edges.dom().contains(key),
    ensures
        ticks[k].edges[key].over_ticks <= k,
    decreases k,
{
    if k > 0 {
        let prev = ticks[k - 1];
        assert(tick_follows(ticks, k));
        if prev.edges.dom().contains(key) {
            lemma_count_bound(cfg, ticks, k - 1, key);
            assert(prev.edges_after()[key] == prev.edge_after(key));
        } else {
            assert(!prev.edges_after().dom().contains(key));
        }
    }
}

/// A tick on which an edge between cohorts was not hot starts its count over.
proof fn lemma_count_since(cfg: WakeGraphCfg, ticks: Seq<MergeTick>, j: int, k: int, key: u64)
    requires
        merge_run(cfg, ticks),
        0 <= j < k < ticks.len(),
        ticks[j].mapped(key),
        !ticks[j].hot(key),
        ticks[k].edges.dom().contains(key),
    ensures
        ticks[k].edges[key].over_ticks <= k - j - 1,
    decreases k,
{
    let prev = ticks[k - 1];
    assert(tick_follows(ticks, k));
    if prev.edges.dom().contains(key) {
        assert(prev.edges_after()[key] == prev.edge_after(key));
        if j < k - 1 {
            lemma_count_since(cfg, ticks, j, k - 1, key);
        }
    } else {
        assert(!prev.edges_after().dom().contains(key));
    }
}

/// A merge needs the cross-cohort wake rate to stay above threshold for
/// `merge_confirm_ticks` consecutive ticks, as long as the edge's ends belong
/// to cohorts on those ticks.
pub proof fn law_merges_are_confirmed(cfg: WakeGraphCfg, ticks: Seq<MergeTick>, k: int, key: u64)
    requires
        merge_run(cfg, ticks),
        0 <= k < ticks.len(),
        ticks[k].merges_along(key),
        forall|j: int|
            0 <= j < k && k + 1 - cfg.merge_confirm_ticks <= j ==> (#[trigger] ticks[j]).mapped(
                key,
            ),
    ensures
        cfg.merge_confirm_ticks <= k + 1,
        forall|j: int|
            k + 1 - cfg.merge_confirm_ticks <= j <= k ==> (#[trigger] ticks[j]).hot(key),
{
    let t = ticks[k];
    assert(t.due(key));
    lemma_count_bound(cfg, ticks, k, key);
    assert forall|j: int| k + 1 - cfg.merge_confirm_ticks <= j <= k implies (
    #[trigger] ticks[j]).hot(key) by {
        if j < k && !ticks[j].hot(key) {
            lemma_count_since(cfg, ticks, j, k, key);
        }
    }
}

/// Every merge that a tick of a run returns is along an edge that was hot for
/// `merge_confirm_ticks` consecutive ticks, as long as its ends belong to
/// cohorts on those ticks.
pub proof fn law_every_returned_merge_is_confirmed(
    cfg: WakeGraphCfg,
    ticks: Seq<MergeTick>,
    k: int,
    m: int,
)
    requires
        merge_run(cfg, ticks),
        0 <= k < ticks.len(),
        0 <= m < ticks[k].all().len(),
        forall|j: int, key: u64|
            0 <= j < k && k + 1 - cfg.merge_confirm_ticks <= j && ticks[k].merges_along(key)
                ==> #[trigger] ticks[j].mapped(key),
    ensures
        cfg.merge_confirm_ticks <= k + 1,
        exists|key: u64|
            {
                &&& #[trigger] ticks[k].merges_along(key)
                &&& ticks[k].all()[m] == ticks[k].merge_along(key)
                &&& forall|j: int|
                    k + 1 - cfg.merge_confirm_ticks <= j <= k ==> (#[trigger] ticks[j]).hot(key)
            },
{
    let t = ticks[k];
    law_merges_join_along_due_edges(t, m);
    let n = choose|n: int|
        {
            &&& 0 <= n < t.order().len()
            &&& t.due(#[trigger] t.order()[n])
            &&& t.merges_at(n)
            &&& t.merges_along(t.order()[n])
            &&& t.all()[m] == t.merge_along(t.order()[n])
        };
    let key = t.order()[n];
    assert forall|j: int| 0 <= j < k && k + 1 - cfg.merge_confirm_ticks <= j implies (
    #[trigger] ticks[j]).mapped(key) by {
        assert(ticks[k].merges_along(key));
    }
    law_merges_are_confirmed(cfg, ticks, k, key);
}

// ---- Splits ----

/// A cohort whose members hang together is left alone, and its streak ends.
pub proof fn law_connected_cohorts_stay_whole(w: WakeState, groups: Groups, cohort: u64)
    requires
        !circle(w, groups[cohort]@).falls_apart(),
    ensures
        cohort_splits(w, groups, cohort) == Seq::<Split>::empty(),
        !streaks_after(w, groups).dom().contains(cohort),
{
}

/// Consecutive ticks of one wake graph that was empty before the first.
pub open spec fn split_run(
    cfg: WakeGraphCfg,
    states: Seq<WakeState>,
    groups: Seq<Groups>,
) -> bool {
    &&& states.len() == groups.len()
    &&& forall|k: int| 0 <= k < states.len() ==> (#[trigger] states[k]).cfg == cfg
    &&& states.len() > 0 ==> states[0].split_streak == Map::<u64, u32>::empty()
    &&& forall|k: int| 0 < k < states.len() ==> #[trigger] streaks_carry_over(states, groups, k)
}

/// The streaks that tick `k` finds are those that the one before left.
pub open spec fn streaks_carry_over(
    states: Seq<WakeState>,
    groups: Seq<Groups>,
    k: int,
) -> bool {
    states[k].split_streak == streaks_after(states[k - 1], groups[k - 1])
}

/// On the tick the cohort was listed and disconnected, and was not split.
pub open spec fn waited(w: WakeState, groups: Groups, cohort: u64) -> bool {
    &&& groups.dom().contains(cohort)
    &&& circle(w, groups[cohort]@).falls_apart()
    &&& !splits_now(w, groups, cohort)
}

/// A streak counts ticks on which the cohort waited.
proof fn lemma_streak_counts(
    cfg: WakeGraphCfg,
    states: Seq<WakeState>,
    groups: Seq<Groups>,
    k: int,
    cohort: u64,
)
    requires
        split_run(cfg, states, groups),
        0 <= k < states.len(),
    ensures
        streak(states[k], cohort) <= k + 1,
        forall|j: int|
            k + 1 - streak(states[k], cohort) <= j < k ==> waited(
                #[trigger] states[j],
                groups[j],
                cohort,
            ),
    decreases k,
{
    if k > 0 {
        lemma_streak_counts(cfg, states, groups, k - 1, cohort);
        let prev = states[k - 1];
        assert(streaks_carry_over(states, groups, k));
        if states[k].split_streak.dom().contains(cohort) {
            assert(states[k].split_streak[cohort] == streak(prev, cohort) as u32);
            assert(streak(prev, cohort) < cfg.split_confirm_ticks);
            assert(streak(states[k], cohort) == streak(prev, cohort) + 1);
            assert(waited(prev, groups[k - 1], cohort));
        }
    }
}

/// A split needs the cohort's wake graph to stay disconnected for
/// `split_confirm_ticks` consecutive ticks; on those before the last the
/// cohort was listed, and was not split.
pub proof fn law_splits_are_confirmed(
    cfg: WakeGraphCfg,
    states: Seq<WakeState>,
    groups: Seq<Groups>,
    k: int,
    cohort: u64,
)
    requires
        split_run(cfg, states, groups),
        0 <= k < states.len(),
        groups[k].dom().contains(cohort),
        splits_now(states[k], groups[k], cohort),
    ensures
        cfg.split_confirm_ticks <= k + 1,
        circle(states[k], groups[k][cohort]@).falls_apart(),
        forall|j: int|
            k + 1 - cfg.split_confirm_ticks <= j < k ==> waited(
                #[trigger] states[j],
                groups[j],
                cohort,
            ),
{
    lemma_streak_counts(cfg, states, groups, k, cohort);
    assert(states[k].cfg == cfg);
}

/// Where a split of the first `n` cohorts comes from.
proof fn lemma_split_source(
    w: WakeState,
    groups: Groups,
    order: Seq<u64>,
    n: int,
    k: int,
) -> (m: int)
    requires
        n <= order.len(),
        0 <= k < splits_of(w, groups, order, n).len(),
    ensures
        0 <= m < n,
        cohort_splits(w, groups, order[m]).contains(splits_of(w, groups, order, n)[k]),
    decreases n,
{
    let head = splits_of(w, groups, order, n - 1);
    let tail = cohort_splits(w, groups, order[n - 1]);
    if n <= 0 {
        0
    } else if k < head.len() {
        lemma_split_source(w, groups, order, n - 1, k)
    } else {
        assert(tail[k - head.len()] == splits_of(w, groups, order, n)[k]);
        n - 1
    }
}

/// Every split is of a listed cohort that is due for it, and takes one of the
/// components that the cohort parts with.
pub proof fn law_only_due_cohorts_split(w: WakeState, groups: Groups, k: int)
    requires
        0 <= k < all_splits(w, groups).len(),
    ensures
        ({
            let split = all_splits(w, groups)[k];
            let c = circle(w, groups[split.cohort]@);
            &&& groups.dom().contains(split.cohort)
            &&& splits_now(w, groups, split.cohort)
            &&& c.split_off(w.cfg.split_min_tasks).contains(split.off_tgids)
        }),
{
    let order = in_order(groups.dom());
    lemma_in_order_lists(groups.dom());
    let m = lemma_split_source(w, groups, order, order.len() as int, k);
    assert(order.contains(order[m]));
    let split = all_splits(w, groups)[k];
    let own = cohort_splits(w, groups, order[m]);
    let i = choose|i: int| 0 <= i < own.len() && own[i] == split;
    let parts = circle(w, groups[split.cohort]@).split_off(w.cfg.split_min_tasks);
    assert(parts[i] == split.off_tgids);
}

/// The tgids of a component: those of the members linked to its leader.
pub proof fn lemma_tgids(c: Community, i: int, n: int, tgid: u32)
    requires
        0 <= n <= c.members.len(),
    ensures
        c.tgids_up_to(i, n).contains(tgid) <==> exists|j: int|
            0 <= j < n && (#[trigger] c.members[j]).0 == tgid && c.linked(i, j),
    decreases n,
{
    if n > 0 {
        lemma_tgids(c, i, n - 1, tgid);
        let t = c.tgids_up_to(i, n - 1);
        let u = c.tgids_up_to(i, n);
        if t.contains(tgid) {
            let k = choose|k: int| 0 <= k < t.len() && t[k] == tgid;
            assert(u[k] == tgid);
        }
        if c.linked(i, n - 1) {
            assert(u[t.len() as int] == c.members[n - 1].0);
        }
        if u.contains(tgid) && !t.contains(tgid) {
            let k = choose|k: int| 0 <= k < u.len() && u[k] == tgid;
            if k < t.len() {
                assert(t[k] == tgid);
            }
        }
    }
}

/// What is split off is one whole component: its tgids are members that hang
/// together, and no other member hangs together with them.
pub proof fn law_a_split_is_a_component(c: Community, min_tasks: u64, k: int, a: u32, b: u32)
    requires
        0 <= k < c.split_off(min_tasks).len(),
        c.split_off(min_tasks)[k].contains(a),
        c.has(b),
    ensures
        c.has(a),
        c.split_off(min_tasks)[k].contains(b) <==> c.connected(a, b),
{
    lemma_partings_list(c, min_tasks);
    let i = c.partings(min_tasks)[k];
    assert(c.partings(min_tasks).contains(i));
    assert(c.parts_with(min_tasks, i));
    let n = c.members.len() as int;
    let leader = c.members[i].0;
    lemma_tgids(c, i, n, a);
    lemma_tgids(c, i, n, b);
    let ja = choose|j: int| 0 <= j < n && (#[trigger] c.members[j]).0 == a && c.linked(i, j);
    assert(c.members[ja].0 == a);
    assert(c.connected(leader, a));
    lemma_connected_sym(c, leader, a);
    if c.connected(a, b) {
        lemma_connected_trans(c, leader, a, b);
        let jb = choose|j: int| 0 <= j < n && (#[trigger] c.members[j]).0 == b;
        assert(c.linked(i, jb));
    }
    if c.split_off(min_tasks)[k].contains(b) {
        lemma_connected_trans(c, a, leader, b);
    }
}

/// What is split off has at least `min_tasks` tasks, and is the component of
/// a member that another component outweighs.
pub proof fn law_a_split_is_big_enough(c: Community, min_tasks: u64, k: int)
    requires
        0 <= k < c.split_off(min_tasks).len(),
    ensures
        exists|i: int, j: int|
            c.split_off(min_tasks)[k] == c.tgids(i) && #[trigger] c.leads(i) && c.weight(i)
                >= min_tasks && #[trigger] c.leads(j) && c.weight(j) >= c.weight(i) && i != j,
{
    lemma_partings_list(c, min_tasks);
    let i = c.partings(min_tasks)[k];
    assert(c.partings(min_tasks).contains(i));
    assert(c.parts_with(min_tasks, i));
    let j = choose|j: int| #[trigger] c.leads(j) && c.outweighs(j, i);
    assert(c.leads(i) && c.leads(j));
}

/// The heaviest leader among the first `n` members.
proof fn lemma_heaviest(c: Community, n: int) -> (best: int)
    requires
        0 < n <= c.members.len(),
    ensures
        0 <= best < n,
        c.leads(best),
        forall|i: int| 0 <= i < n && i != best && #[trigger] c.leads(i) ==> c.outweighs(best, i),
    decreases n,
{
    if n == 1 {
        0
    } else {
        let best = lemma_heaviest(c, n - 1);
        if c.leads(n - 1) && c.outweighs(n - 1, best) {
            n - 1
        } else {
            best
        }
    }
}

/// A largest component stays: some leader outweighs every component that is
/// split off, and is not split off itself.
pub proof fn law_the_largest_component_stays(c: Community, min_tasks: u64)
    requires
        c.members.len() > 0,
    ensures
        exists|j: int| #[trigger]
            c.leads(j) && !c.parts_with(min_tasks, j) && forall|i: int| #[trigger]
                c.leads(i) ==> c.weight(j) >= c.weight(i),
{
    let j = lemma_heaviest(c, c.members.len() as int);
    assert(c.leads(j));
    assert(!c.parts_with(min_tasks, j)) by {
        if c.parts_with(min_tasks, j) {
            let i = choose|i: int| #[trigger] c.leads(i) && c.outweighs(i, j);
            assert(c.outweighs(j, i) || i == j);
        }
    }
    assert forall|i: int| #[trigger] c.leads(i) implies c.weight(j) >= c.weight(i) by {
        assert(i == j || c.outweighs(j, i));
    }
}

} // verus!
