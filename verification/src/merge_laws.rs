//! What a tick's merges come to, told from the edges' rates, the processes'
//! cohorts and the cohorts' sizes alone.
use vstd::prelude::*;

use crate::ordered::lemma_in_order_lists;
use crate::wake_graph::{
    counts_fit, edge_key, ends, lemma_merges_along, lemma_packed, merge_tick, unpacked, EdgeState,
    MergePlan, MergeTick, WakeState,
};
use crate::wake_laws::{
    law_due_edges_merge_unless_busy, lemma_plan_source, lemma_planned_is_busy, lemma_plans_prefix,
};

verus! {

// ---- Edges ----

/// The edge between two processes is the same from either side, and no other
/// two processes share it.
pub proof fn law_an_edge_is_a_pair(a: u32, b: u32, c: u32, d: u32)
    ensures
        edge_key(a, b) == edge_key(b, a),
        edge_key(a, b) == edge_key(c, d) <==> (a == c && b == d) || (a == d && b == c),
        ends(a, b).0 <= ends(a, b).1,
        ends(a, b) == (a, b) || ends(a, b) == (b, a),
{
    lemma_packed(ends(a, b));
    lemma_packed(ends(c, d));
}

/// Where the edge between `a` and `b` leads, the lower tgid first.
proof fn lemma_ends(a: u32, b: u32)
    requires
        a <= b,
    ensures
        unpacked(edge_key(a, b)) == (a, b),
{
    lemma_packed(ends(a, b));
}

/// Every edge that is held joins two processes.
pub open spec fn joins_pairs(edges: Map<u64, EdgeState>) -> bool {
    forall|key: u64| #[trigger]
        edges.dom().contains(key) ==> exists|a: u32, b: u32| a <= b && key == #[trigger] edge_key(
            a,
            b,
        )
}

// ---- Confirmation ----

/// The size of a cohort; a cohort of unknown size has none.
pub open spec fn size_in(sizes: Map<u64, u64>, cohort: u64) -> u64 {
    if sizes.contains_key(cohort) {
        sizes[cohort]
    } else {
        0
    }
}

/// One of the plans joins the two cohorts.
pub open spec fn joined(plans: Seq<MergePlan>, x: u64, y: u64) -> bool {
    exists|m: int|
        0 <= m < plans.len() && ((#[trigger] plans[m]).into == x && plans[m].from == y
            || plans[m].into == y && plans[m].from == x)
}

/// One of the plans involves the cohort.
pub open spec fn involved(plans: Seq<MergePlan>, x: u64) -> bool {
    exists|m: int|
        0 <= m < plans.len() && ((#[trigger] plans[m]).into == x || plans[m].from == x)
}

/// An edge between processes of two different cohorts, whichever of their ids
/// is larger, whose average and whose traffic of this tick reach the merge
/// threshold counts one more tick, or the tick joins its cohorts and the count
/// starts over. Before the count is complete nothing is joined along it; once
/// it is, the tick merges at least one of its two cohorts.
pub proof fn law_busy_edges_are_counted_until_they_merge(
    w: WakeState,
    tgid_cohort: Map<u32, u64>,
    cohort_sizes: Map<u64, u64>,
    a: u32,
    b: u32,
)
    requires
        w.edges.contains_key(edge_key(a, b)),
        w.edges[edge_key(a, b)].over_ticks < u32::MAX,
        tgid_cohort.contains_key(a),
        tgid_cohort.contains_key(b),
        tgid_cohort[a] != tgid_cohort[b],
        w.edges[edge_key(a, b)].rate >= w.cfg.merge_wakes_per_sec,
        w.edges[edge_key(a, b)].inst >= w.cfg.merge_wakes_per_sec,
    ensures
        ({
            let t = merge_tick(w, tgid_cohort, cohort_sizes);
            let before = w.edges[edge_key(a, b)].over_ticks;
            let after = t.edges_after()[edge_key(a, b)].over_ticks;
            let (x, y) = (tgid_cohort[a], tgid_cohort[b]);
            &&& t.edges_after().contains_key(edge_key(a, b))
            &&& after == before + 1 || (after == 0 && joined(t.all(), x, y))
            &&& before + 1 < w.cfg.merge_confirm_ticks ==> after == before + 1
            &&& before + 1 >= w.cfg.merge_confirm_ticks ==> involved(t.all(), x) || involved(
                t.all(),
                y,
            )
        }),
{
    let t = merge_tick(w, tgid_cohort, cohort_sizes);
    let key = edge_key(a, b);
    let (x, y) = (tgid_cohort[a], tgid_cohort[b]);
    lemma_packed(ends(a, b));
    assert(unpacked(key) == ends(a, b));
    lemma_in_order_lists(w.edges.dom());
    assert(t.order().contains(key));
    let n = choose|n: int| 0 <= n < t.order().len() && t.order()[n] == key;
    lemma_merges_along(t, n);
    if t.merges_at(n) {
        let plan = t.merge_along(key);
        lemma_plans_prefix(t, n + 1, t.order().len() as int);
        let m = t.plans(n).len() as int;
        assert(t.plans(n + 1)[m] == plan);
        assert(t.all()[m] == plan);
        assert(joined(t.all(), x, y));
        assert(involved(t.all(), plan.into));
        assert(involved(t.all(), plan.from));
    } else if t.due(key) {
        law_due_edges_merge_unless_busy(t, n);
        let k = choose|k: int|
            0 <= k < t.all().len() && {
                let p = #[trigger] t.all()[k];
                p.into == x || p.into == y || p.from == x || p.from == y
            };
        let p = t.all()[k];
        if p.into == x || p.from == x {
            assert(involved(t.all(), x));
        } else {
            assert(involved(t.all(), y));
        }
    }
}

/// An edge within a cohort, or whose average or whose traffic of this tick is
/// below the merge threshold, starts its count over; one that leads to a
/// process of no cohort keeps it.
pub proof fn law_quiet_edges_start_over(
    w: WakeState,
    tgid_cohort: Map<u32, u64>,
    cohort_sizes: Map<u64, u64>,
    a: u32,
    b: u32,
)
    requires
        w.edges.contains_key(edge_key(a, b)),
    ensures
        ({
            let edge = w.edges[edge_key(a, b)];
            let after = merge_tick(w, tgid_cohort, cohort_sizes).edges_after()[edge_key(a, b)];
            let known = tgid_cohort.contains_key(a) && tgid_cohort.contains_key(b);
            &&& known && tgid_cohort[a] == tgid_cohort[b] ==> after.over_ticks == 0
            &&& known && edge.rate < w.cfg.merge_wakes_per_sec ==> after.over_ticks == 0
            &&& known && edge.inst < w.cfg.merge_wakes_per_sec ==> after.over_ticks == 0
            &&& !known ==> after.over_ticks == edge.over_ticks
        }),
{
    lemma_packed(ends(a, b));
    assert(unpacked(edge_key(a, b)) == ends(a, b));
}

/// Merging neither adds nor drops edges, and leaves their rates alone.
pub proof fn law_merging_leaves_the_rates_alone(
    w: WakeState,
    tgid_cohort: Map<u32, u64>,
    cohort_sizes: Map<u64, u64>,
    key: u64,
)
    ensures
        ({
            let after = merge_tick(w, tgid_cohort, cohort_sizes).edges_after();
            &&& after.contains_key(key) <==> w.edges.contains_key(key)
            &&& w.edges.contains_key(key) ==> after[key].rate == w.edges[key].rate
                && after[key].inst == w.edges[key].inst
        }),
{
}

/// Every merge joins the two cohorts of an edge that reached the merge
/// threshold, on average and this tick, for as many ticks as the configuration
/// asks; the cohort with fewer tasks goes, and with equal ones that of the
/// higher tgid.
pub proof fn law_merges_follow_confirmed_edges(
    w: WakeState,
    tgid_cohort: Map<u32, u64>,
    cohort_sizes: Map<u64, u64>,
    m: int,
)
    requires
        joins_pairs(w.edges),
        0 <= m < merge_tick(w, tgid_cohort, cohort_sizes).all().len(),
    ensures
        exists|a: u32, b: u32|
            {
                let plan = merge_tick(w, tgid_cohort, cohort_sizes).all()[m];
                let edge = w.edges[edge_key(a, b)];
                let (x, y) = (tgid_cohort[a], tgid_cohort[b]);
                &&& a <= b
                &&& w.edges.contains_key(#[trigger] edge_key(a, b))
                &&& tgid_cohort.contains_key(a)
                &&& tgid_cohort.contains_key(b)
                &&& x != y
                &&& edge.rate >= w.cfg.merge_wakes_per_sec
                &&& edge.inst >= w.cfg.merge_wakes_per_sec
                &&& edge.over_ticks + 1 >= w.cfg.merge_confirm_ticks
                &&& size_in(cohort_sizes, x) >= size_in(cohort_sizes, y) ==> plan.into == x
                    && plan.from == y
                &&& size_in(cohort_sizes, x) < size_in(cohort_sizes, y) ==> plan.into == y
                    && plan.from == x
            },
{
    let t = merge_tick(w, tgid_cohort, cohort_sizes);
    let n = lemma_plan_source(t, t.order().len() as int, m);
    let key = t.order()[n];
    lemma_in_order_lists(w.edges.dom());
    assert(t.order().contains(key));
    let (a, b) = choose|a: u32, b: u32| a <= b && key == #[trigger] edge_key(a, b);
    lemma_ends(a, b);
    assert(w.edges.contains_key(edge_key(a, b)));
}

// ---- Which edge merges ----

/// The edge between the two processes leads from one cohort to another, and its
/// average and this tick's traffic have reached the merge threshold for as many
/// ticks as the configuration asks, this one counted.
pub open spec fn asks_to_merge(w: WakeState, tgid_cohort: Map<u32, u64>, a: u32, b: u32) -> bool {
    let edge = w.edges[edge_key(a, b)];
    &&& a <= b
    &&& w.edges.contains_key(edge_key(a, b))
    &&& tgid_cohort.contains_key(a)
    &&& tgid_cohort.contains_key(b)
    &&& tgid_cohort[a] != tgid_cohort[b]
    &&& edge.rate >= w.cfg.merge_wakes_per_sec
    &&& edge.inst >= w.cfg.merge_wakes_per_sec
    &&& edge.over_ticks + 1 >= w.cfg.merge_confirm_ticks
}

/// The two edges share a cohort.
pub open spec fn share_a_cohort(
    tgid_cohort: Map<u32, u64>,
    a: u32,
    b: u32,
    c: u32,
    d: u32,
) -> bool {
    ||| tgid_cohort[a] == tgid_cohort[c]
    ||| tgid_cohort[a] == tgid_cohort[d]
    ||| tgid_cohort[b] == tgid_cohort[c]
    ||| tgid_cohort[b] == tgid_cohort[d]
}

/// The tick merges along an edge that asks for it: its count starts over.
pub open spec fn merged(
    w: WakeState,
    tgid_cohort: Map<u32, u64>,
    cohort_sizes: Map<u64, u64>,
    a: u32,
    b: u32,
) -> bool {
    asks_to_merge(w, tgid_cohort, a, b) && merge_tick(
        w,
        tgid_cohort,
        cohort_sizes,
    ).edges_after()[edge_key(a, b)].over_ticks == 0
}

/// The place of an edge that asks to merge in the order of the edges.
proof fn lemma_asking_edge(
    w: WakeState,
    tgid_cohort: Map<u32, u64>,
    cohort_sizes: Map<u64, u64>,
    a: u32,
    b: u32,
) -> (n: int)
    requires
        counts_fit(w),
        asks_to_merge(w, tgid_cohort, a, b),
    ensures
        ({
            let t = merge_tick(w, tgid_cohort, cohort_sizes);
            &&& 0 <= n < t.order().len()
            &&& t.order()[n] == edge_key(a, b)
            &&& t.due(edge_key(a, b))
            &&& t.first(edge_key(a, b)) == tgid_cohort[a]
            &&& t.second(edge_key(a, b)) == tgid_cohort[b]
            &&& merged(w, tgid_cohort, cohort_sizes, a, b) <==> t.merges_at(n)
        }),
{
    let t = merge_tick(w, tgid_cohort, cohort_sizes);
    let key = edge_key(a, b);
    lemma_ends(a, b);
    lemma_in_order_lists(w.edges.dom());
    assert(t.order().contains(key));
    let n = choose|n: int| 0 <= n < t.order().len() && t.order()[n] == key;
    lemma_merges_along(t, n);
    assert(w.edges.dom().contains(key));
    assert(w.edges[key].over_ticks < u32::MAX);
    n
}

/// The processes of an edge along which the tick merges.
proof fn lemma_merging_edge(
    w: WakeState,
    tgid_cohort: Map<u32, u64>,
    cohort_sizes: Map<u64, u64>,
    n: int,
) -> (pair: (u32, u32))
    requires
        counts_fit(w),
        joins_pairs(w.edges),
        0 <= n < merge_tick(w, tgid_cohort, cohort_sizes).order().len(),
        merge_tick(w, tgid_cohort, cohort_sizes).merges_at(n),
    ensures
        ({
            let t = merge_tick(w, tgid_cohort, cohort_sizes);
            &&& edge_key(pair.0, pair.1) == t.order()[n]
            &&& merged(w, tgid_cohort, cohort_sizes, pair.0, pair.1)
            &&& t.first(t.order()[n]) == tgid_cohort[pair.0]
            &&& t.second(t.order()[n]) == tgid_cohort[pair.1]
        }),
{
    let t = merge_tick(w, tgid_cohort, cohort_sizes);
    let key = t.order()[n];
    lemma_in_order_lists(w.edges.dom());
    assert(t.order().contains(key));
    let (a, b) = choose|a: u32, b: u32| a <= b && key == #[trigger] edge_key(a, b);
    lemma_ends(a, b);
    let m = lemma_asking_edge(w, tgid_cohort, cohort_sizes, a, b);
    if m < n {
        assert(t.order()[m] < t.order()[n]);
    } else if n < m {
        assert(t.order()[n] < t.order()[m]);
    }
    (a, b)
}

proof fn lemma_who_is_busy(t: MergeTick, n: int, c: u64) -> (m: int)
    requires
        t.busy(n).contains(c),
    ensures
        0 <= m < n,
        t.merges_at(m),
        c == t.first(t.order()[m]) || c == t.second(t.order()[m]),
    decreases n,
{
    if n <= 0 {
        0
    } else if t.merges_at(n - 1) && (c == t.first(t.order()[n - 1]) || c == t.second(
        t.order()[n - 1],
    )) {
        n - 1
    } else {
        lemma_who_is_busy(t, n - 1, c)
    }
}

/// Edges that ask to merge are taken in order: one of them merges exactly if
/// none before it that shares a cohort with it does.
pub proof fn law_the_first_of_the_asking_edges_merges(
    w: WakeState,
    tgid_cohort: Map<u32, u64>,
    cohort_sizes: Map<u64, u64>,
    a: u32,
    b: u32,
)
    requires
        counts_fit(w),
        joins_pairs(w.edges),
        asks_to_merge(w, tgid_cohort, a, b),
    ensures
        merged(w, tgid_cohort, cohort_sizes, a, b) <==> forall|c: u32, d: u32| #[trigger]
            merged(w, tgid_cohort, cohort_sizes, c, d) && edge_key(c, d) < edge_key(a, b)
                ==> !share_a_cohort(tgid_cohort, a, b, c, d),
{
    let t = merge_tick(w, tgid_cohort, cohort_sizes);
    let n = lemma_asking_edge(w, tgid_cohort, cohort_sizes, a, b);
    lemma_in_order_lists(w.edges.dom());
    if t.merges_at(n) {
        assert forall|c: u32, d: u32| #[trigger]
            merged(w, tgid_cohort, cohort_sizes, c, d) && edge_key(c, d) < edge_key(
                a,
                b,
            ) implies !share_a_cohort(tgid_cohort, a, b, c, d) by {
            let m = lemma_asking_edge(w, tgid_cohort, cohort_sizes, c, d);
            if n < m {
                assert(t.order()[n] < t.order()[m]);
            }
            lemma_planned_is_busy(t, m, n);
        }
    } else {
        let x = if t.busy(n).contains(tgid_cohort[a]) {
            tgid_cohort[a]
        } else {
            tgid_cohort[b]
        };
        let m = lemma_who_is_busy(t, n, x);
        let (c, d) = lemma_merging_edge(w, tgid_cohort, cohort_sizes, m);
        assert(t.order()[m] < t.order()[n]);
        assert(merged(w, tgid_cohort, cohort_sizes, c, d));
        assert(share_a_cohort(tgid_cohort, a, b, c, d));
    }
}

/// The plan that an edge's cohorts come to: the one with fewer tasks goes, and
/// with equal ones that of the higher tgid.
pub open spec fn plan_along(
    tgid_cohort: Map<u32, u64>,
    cohort_sizes: Map<u64, u64>,
    a: u32,
    b: u32,
) -> MergePlan {
    let (x, y) = (tgid_cohort[a], tgid_cohort[b]);
    if size_in(cohort_sizes, x) >= size_in(cohort_sizes, y) {
        MergePlan { into: x, from: y }
    } else {
        MergePlan { into: y, from: x }
    }
}

/// Every edge that merges has its plan.
pub proof fn law_every_merging_edge_has_its_plan(
    w: WakeState,
    tgid_cohort: Map<u32, u64>,
    cohort_sizes: Map<u64, u64>,
    a: u32,
    b: u32,
)
    requires
        counts_fit(w),
        merged(w, tgid_cohort, cohort_sizes, a, b),
    ensures
        merge_tick(w, tgid_cohort, cohort_sizes).all().contains(
            plan_along(tgid_cohort, cohort_sizes, a, b),
        ),
{
    let t = merge_tick(w, tgid_cohort, cohort_sizes);
    let n = lemma_asking_edge(w, tgid_cohort, cohort_sizes, a, b);
    let m = t.plans(n).len() as int;
    lemma_plans_prefix(t, n + 1, t.order().len() as int);
    assert(t.plans(n + 1)[m] == t.merge_along(edge_key(a, b)));
    assert(t.all()[m] == plan_along(tgid_cohort, cohort_sizes, a, b));
}

/// The plans come in the order of their edges.
pub proof fn law_plans_come_in_the_order_of_the_edges(
    w: WakeState,
    tgid_cohort: Map<u32, u64>,
    cohort_sizes: Map<u64, u64>,
    i: int,
    j: int,
)
    requires
        counts_fit(w),
        joins_pairs(w.edges),
        0 <= i < j < merge_tick(w, tgid_cohort, cohort_sizes).all().len(),
    ensures
        exists|a: u32, b: u32, c: u32, d: u32|
            {
                let plans = merge_tick(w, tgid_cohort, cohort_sizes).all();
                &&& #[trigger] merged(w, tgid_cohort, cohort_sizes, a, b)
                &&& #[trigger] merged(w, tgid_cohort, cohort_sizes, c, d)
                &&& edge_key(a, b) < edge_key(c, d)
                &&& plans[i] == plan_along(tgid_cohort, cohort_sizes, a, b)
                &&& plans[j] == plan_along(tgid_cohort, cohort_sizes, c, d)
            },
{
    let t = merge_tick(w, tgid_cohort, cohort_sizes);
    let len = t.order().len() as int;
    let m = lemma_plan_source(t, len, i);
    let n = lemma_plan_source(t, len, j);
    lemma_in_order_lists(w.edges.dom());
    if n <= m {
        lemma_plans_prefix(t, n, m);
    }
    assert(t.order()[m] < t.order()[n]);
    let (a, b) = lemma_merging_edge(w, tgid_cohort, cohort_sizes, m);
    let (c, d) = lemma_merging_edge(w, tgid_cohort, cohort_sizes, n);
    assert(merged(w, tgid_cohort, cohort_sizes, a, b));
    assert(merged(w, tgid_cohort, cohort_sizes, c, d));
}

// ---- Names ----

/// `other` is the tick with every cohort id renamed.
pub open spec fn renamed(t: MergeTick, other: MergeTick, name: spec_fn(u64) -> u64) -> bool {
    &&& other.cfg == t.cfg
    &&& other.edges == t.edges
    &&& forall|tgid: u32| #[trigger]
        other.tgid_cohort.contains_key(tgid) <==> t.tgid_cohort.contains_key(tgid)
    &&& forall|tgid: u32| #[trigger]
        t.tgid_cohort.contains_key(tgid) ==> other.tgid_cohort[tgid] == name(t.tgid_cohort[tgid])
    &&& forall|c: u64|
        other.cohort_sizes.contains_key(#[trigger] name(c)) <==> t.cohort_sizes.contains_key(c)
    &&& forall|c: u64| #[trigger]
        t.cohort_sizes.contains_key(c) ==> other.cohort_sizes[name(c)] == t.cohort_sizes[c]
}

proof fn lemma_renamed_edge(t: MergeTick, other: MergeTick, name: spec_fn(u64) -> u64, key: u64)
    requires
        renamed(t, other, name),
        forall|x: u64, y: u64| #[trigger] name(x) == #[trigger] name(y) ==> x == y,
    ensures
        t.mapped(key) <==> other.mapped(key),
        t.hot(key) <==> other.hot(key),
        t.due(key) <==> other.due(key),
        t.mapped(key) ==> other.first(key) == name(t.first(key)) && other.second(key) == name(
            t.second(key),
        ),
        t.mapped(key) ==> other.merge_along(key) == (MergePlan {
            into: name(t.merge_along(key).into),
            from: name(t.merge_along(key).from),
        }),
{
    let (a, b) = unpacked(key);
    assert(other.tgid_cohort.contains_key(a) <==> t.tgid_cohort.contains_key(a));
    assert(other.tgid_cohort.contains_key(b) <==> t.tgid_cohort.contains_key(b));
    if t.mapped(key) {
        let (x, y) = (t.first(key), t.second(key));
        assert(other.first(key) == name(x));
        assert(other.second(key) == name(y));
        assert(name(x) == name(y) ==> x == y);
        assert(t.size(x) == other.size(name(x)));
        assert(t.size(y) == other.size(name(y)));
    }
}

proof fn lemma_renamed_busy(t: MergeTick, other: MergeTick, name: spec_fn(u64) -> u64, n: int)
    requires
        renamed(t, other, name),
        forall|x: u64, y: u64| #[trigger] name(x) == #[trigger] name(y) ==> x == y,
        0 <= n <= t.order().len(),
    ensures
        forall|x: u64| other.busy(n).contains(#[trigger] name(x)) <==> t.busy(n).contains(x),
        other.plans(n).len() == t.plans(n).len(),
        forall|k: int|
            0 <= k < t.plans(n).len() ==> #[trigger] other.plans(n)[k] == (MergePlan {
                into: name(t.plans(n)[k].into),
                from: name(t.plans(n)[k].from),
            }),
        forall|k: int| 0 <= k < n ==> #[trigger] t.merges_at(k) == other.merges_at(k),
    decreases n,
{
    if n > 0 {
        let key = t.order()[n - 1];
        lemma_renamed_busy(t, other, name, n - 1);
        lemma_renamed_edge(t, other, name, key);
        assert(other.order() == t.order());
        assert(t.merges_at(n - 1) == other.merges_at(n - 1)) by {
            if t.mapped(key) {
                let (x, y) = (t.first(key), t.second(key));
                assert(other.busy(n - 1).contains(name(x)) <==> t.busy(n - 1).contains(x));
                assert(other.busy(n - 1).contains(name(y)) <==> t.busy(n - 1).contains(y));
            }
        }
        assert forall|x: u64| other.busy(n).contains(#[trigger] name(x)) <==> t.busy(n).contains(
            x,
        ) by {
            assert(other.busy(n - 1).contains(name(x)) <==> t.busy(n - 1).contains(x));
            if t.merges_at(n - 1) {
                let (p, q) = (t.first(key), t.second(key));
                assert(name(x) == name(p) ==> x == p);
                assert(name(x) == name(q) ==> x == q);
            }
        }
        assert forall|k: int| 0 <= k < t.plans(n).len() implies #[trigger] other.plans(n)[k] == (
        MergePlan { into: name(t.plans(n)[k].into), from: name(t.plans(n)[k].from) }) by {
            if k < t.plans(n - 1).len() {
                assert(other.plans(n - 1)[k] == other.plans(n)[k]);
                assert(t.plans(n - 1)[k] == t.plans(n)[k]);
            }
        }
    }
}

/// Cohort ids are names and no more: if all are renamed, different ones
/// differently, the tick makes the same merges under the new names and leaves
/// the same counts.
pub proof fn law_cohort_ids_are_only_names(
    t: MergeTick,
    other: MergeTick,
    name: spec_fn(u64) -> u64,
)
    requires
        renamed(t, other, name),
        forall|x: u64, y: u64| #[trigger] name(x) == #[trigger] name(y) ==> x == y,
    ensures
        other.all().len() == t.all().len(),
        forall|k: int|
            0 <= k < t.all().len() ==> (#[trigger] other.all()[k]).into == name(t.all()[k].into)
                && other.all()[k].from == name(t.all()[k].from),
        other.edges_after() == t.edges_after(),
{
    let n = t.order().len() as int;
    assert(other.order() == t.order());
    lemma_renamed_busy(t, other, name, n);
    assert forall|k: int| 0 <= k < t.all().len() implies (#[trigger] other.all()[k]).into == name(
        t.all()[k].into,
    ) && other.all()[k].from == name(t.all()[k].from) by {
        assert(other.plans(n)[k] == other.all()[k]);
    }
    assert forall|key: u64| #[trigger] t.edge_after(key) == other.edge_after(key) by {
        lemma_renamed_edge(t, other, name, key);
        if t.merges_along(key) {
            let m = choose|m: int| 0 <= m < n && t.order()[m] == key && t.merges_at(m);
            assert(other.merges_at(m));
        }
        if other.merges_along(key) {
            let m = choose|m: int| 0 <= m < n && other.order()[m] == key && other.merges_at(m);
            assert(t.merges_at(m));
        }
    }
    assert(other.edges_after() =~= t.edges_after());
}

} // verus!
