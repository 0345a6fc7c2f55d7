//! What a tick's splits come to, told from the edges' rates and the cohorts'
//! members alone.
use vstd::prelude::*;

use crate::arith::{lemma_total_ext, total};
use crate::components::{
    lemma_connected_refl, lemma_connected_step, lemma_connected_sym, lemma_connected_trans,
    lemma_partings_list, Community,
};
use crate::merge_laws::joins_pairs;
use crate::ordered::{in_order, lemma_in_order_lists};
use crate::wake_graph::{
    all_splits, circle, cohort_splits, edge_key, ends, lemma_packed, packed,
    splits_now, splits_of, streaks_after, Groups, Split, WakeState,
};
use crate::wake_laws::{
    law_a_split_is_a_component, law_only_due_cohorts_split, lemma_tgids,
};

verus! {

// ---- Words for what the laws say ----

/// The edge between the two processes is held, with an average of at least
/// the rate that connects.
pub open spec fn talk(w: WakeState, a: u32, b: u32) -> bool {
    w.edges.contains_key(edge_key(a, b)) && w.edges[edge_key(a, b)].rate
        >= w.cfg.split_min_wakes_per_sec
}

/// The process is one of the members.
pub open spec fn listed(members: Seq<(u32, u64)>, tgid: u32) -> bool {
    exists|i: int| 0 <= i < members.len() && (#[trigger] members[i]).0 == tgid
}

/// Each process of the chain talks to the next, and both are members.
pub open spec fn is_chain(w: WakeState, members: Seq<(u32, u64)>, chain: Seq<u32>) -> bool {
    forall|k: int|
        0 <= k && k + 1 < chain.len() ==> {
            &&& listed(members, #[trigger] chain[k])
            &&& listed(members, chain[k + 1])
            &&& talk(w, chain[k], chain[k + 1])
        }
}

/// A chain of members who talk leads from `a` to `b`.
pub open spec fn in_touch(w: WakeState, members: Seq<(u32, u64)>, a: u32, b: u32) -> bool {
    exists|chain: Seq<u32>| #[trigger]
        is_chain(w, members, chain) && chain.len() > 0 && chain[0] == a && chain.last() == b
}

/// The tasks of the members that are in touch with the process.
pub open spec fn tasks_in_touch(w: WakeState, members: Seq<(u32, u64)>, a: u32) -> int {
    total(
        members.len() as int,
        |j: int|
            if in_touch(w, members, a, members[j].0) {
                members[j].1 as int
            } else {
                0
            },
    )
}

/// Some split of the tick takes the process out of the cohort.
pub open spec fn split_off(splits: Seq<Split>, cohort: u64, tgid: u32) -> bool {
    exists|k: int|
        0 <= k < splits.len() && (#[trigger] splits[k]).cohort == cohort
            && splits[k].off_tgids.contains(tgid)
}

/// For how many ticks in a row the cohort was found disconnected.
pub open spec fn ticks_apart(streaks: Map<u64, u32>, cohort: u64) -> int {
    if streaks.contains_key(cohort) {
        streaks[cohort] as int
    } else {
        0
    }
}

// ---- From components to chains ----

proof fn lemma_listed(w: WakeState, members: Seq<(u32, u64)>, a: u32)
    ensures
        circle(w, members).has(a) <==> listed(members, a),
{
    let c = circle(w, members);
    assert(c.members == members);
    if c.has(a) {
        let i = choose|i: int| 0 <= i < c.members.len() && (#[trigger] c.members[i]).0 == a;
        assert(members[i].0 == a);
    }
    if listed(members, a) {
        let i = choose|i: int| 0 <= i < members.len() && (#[trigger] members[i]).0 == a;
        assert(c.members[i].0 == a);
    }
}

proof fn lemma_adjacent(w: WakeState, members: Seq<(u32, u64)>, a: u32, b: u32)
    requires
        joins_pairs(w.edges),
    ensures
        circle(w, members).adjacent(a, b) <==> listed(members, a) && listed(members, b) && talk(
            w,
            a,
            b,
        ),
        circle(w, members).has(a) <==> listed(members, a),
{
    let c = circle(w, members);
    lemma_listed(w, members, a);
    lemma_listed(w, members, b);
    lemma_packed((a, b));
    lemma_packed((b, a));
    lemma_packed(ends(a, b));
    if c.live.contains((a, b)) {
        let key = packed((a, b));
        let (x, y) = choose|x: u32, y: u32| x <= y && key == #[trigger] edge_key(x, y);
        lemma_packed(ends(x, y));
        assert((x, y) == (a, b));
    }
    if c.live.contains((b, a)) {
        let key = packed((b, a));
        let (x, y) = choose|x: u32, y: u32| x <= y && key == #[trigger] edge_key(x, y);
        lemma_packed(ends(x, y));
        assert((x, y) == (b, a));
    }
    if talk(w, a, b) {
        assert(c.live.contains(ends(a, b)));
    }
}

proof fn lemma_chain_of(w: WakeState, members: Seq<(u32, u64)>, a: u32, b: u32, n: nat)
    requires
        joins_pairs(w.edges),
        circle(w, members).chained(a, b, n),
    ensures
        in_touch(w, members, a, b),
    decreases n,
{
    let c = circle(w, members);
    if n == 0 {
        let chain = seq![a];
        assert(is_chain(w, members, chain));
        assert(chain.last() == b);
    } else {
        let x = choose|x: u32| c.chained(a, x, (n - 1) as nat) && #[trigger] c.adjacent(x, b);
        lemma_chain_of(w, members, a, x, (n - 1) as nat);
        lemma_adjacent(w, members, x, b);
        let chain = choose|chain: Seq<u32>| #[trigger]
            is_chain(w, members, chain) && chain.len() > 0 && chain[0] == a && chain.last() == x;
        let longer = chain.push(b);
        assert forall|k: int| 0 <= k && k + 1 < longer.len() implies {
            &&& listed(members, #[trigger] longer[k])
            &&& listed(members, longer[k + 1])
            &&& talk(w, longer[k], longer[k + 1])
        } by {
            if k + 1 < chain.len() {
                assert(listed(members, chain[k]));
            }
        }
        assert(is_chain(w, members, longer));
        assert(longer[0] == a);
        assert(longer.last() == b);
    }
}

proof fn lemma_chain_connects(w: WakeState, members: Seq<(u32, u64)>, chain: Seq<u32>)
    requires
        joins_pairs(w.edges),
        is_chain(w, members, chain),
        chain.len() > 0,
    ensures
        circle(w, members).connected(chain[0], chain.last()),
    decreases chain.len(),
{
    let c = circle(w, members);
    if chain.len() == 1 {
        lemma_connected_refl(c, chain[0]);
    } else {
        let front = chain.drop_last();
        assert forall|k: int| 0 <= k && k + 1 < front.len() implies {
            &&& listed(members, #[trigger] front[k])
            &&& listed(members, front[k + 1])
            &&& talk(w, front[k], front[k + 1])
        } by {
            assert(listed(members, chain[k]));
        }
        lemma_chain_connects(w, members, front);
        let k = chain.len() - 2;
        assert(listed(members, chain[k]));
        lemma_adjacent(w, members, chain[k], chain[k + 1]);
        assert(front.last() == chain[k]);
        lemma_connected_step(c, chain[0], chain[k], chain[k + 1]);
    }
}

proof fn lemma_in_touch(w: WakeState, members: Seq<(u32, u64)>, a: u32, b: u32)
    requires
        joins_pairs(w.edges),
    ensures
        circle(w, members).connected(a, b) <==> in_touch(w, members, a, b),
{
    let c = circle(w, members);
    if c.connected(a, b) {
        let n = choose|n: nat| #[trigger] c.chained(a, b, n);
        lemma_chain_of(w, members, a, b, n);
    }
    if in_touch(w, members, a, b) {
        let chain = choose|chain: Seq<u32>| #[trigger]
            is_chain(w, members, chain) && chain.len() > 0 && chain[0] == a && chain.last() == b;
        lemma_chain_connects(w, members, chain);
    }
}

proof fn lemma_apart(w: WakeState, members: Seq<(u32, u64)>)
    requires
        joins_pairs(w.edges),
    ensures
        circle(w, members).falls_apart() <==> exists|i: int, j: int|
            0 <= i < members.len() && 0 <= j < members.len() && !in_touch(
                w,
                members,
                (#[trigger] members[i]).0,
                (#[trigger] members[j]).0,
            ),
{
    let c = circle(w, members);
    if c.falls_apart() {
        let (i, j) = choose|i: int, j: int|
            0 <= i < c.members.len() && 0 <= j < c.members.len() && !#[trigger] c.linked(i, j);
        lemma_in_touch(w, members, members[i].0, members[j].0);
    }
    if exists|i: int, j: int|
        0 <= i < members.len() && 0 <= j < members.len() && !in_touch(
            w,
            members,
            (#[trigger] members[i]).0,
            (#[trigger] members[j]).0,
        ) {
        let (i, j) = choose|i: int, j: int|
            0 <= i < members.len() && 0 <= j < members.len() && !in_touch(
                w,
                members,
                (#[trigger] members[i]).0,
                (#[trigger] members[j]).0,
            );
        lemma_in_touch(w, members, members[i].0, members[j].0);
        assert(!c.linked(i, j));
    }
}

proof fn lemma_weight(w: WakeState, members: Seq<(u32, u64)>, i: int)
    requires
        joins_pairs(w.edges),
        0 <= i < members.len(),
    ensures
        circle(w, members).weight(i) == tasks_in_touch(w, members, members[i].0),
{
    let c = circle(w, members);
    let f = |j: int|
        if c.linked(i, j) {
            c.members[j].1 as int
        } else {
            0
        };
    let g = |j: int|
        if in_touch(w, members, members[i].0, members[j].0) {
            members[j].1 as int
        } else {
            0
        };
    assert forall|j: int| 0 <= j < members.len() implies #[trigger] f(j) == g(j) by {
        lemma_in_touch(w, members, members[i].0, members[j].0);
    }
    lemma_total_ext(members.len() as int, f, g);
}

/// Linked members weigh the same.
proof fn lemma_same_weight(c: Community, i: int, j: int)
    requires
        c.linked(i, j),
    ensures
        c.weight(i) == c.weight(j),
{
    let (a, b) = (c.members[i].0, c.members[j].0);
    let f = |k: int|
        if c.linked(i, k) {
            c.members[k].1 as int
        } else {
            0
        };
    let g = |k: int|
        if c.linked(j, k) {
            c.members[k].1 as int
        } else {
            0
        };
    assert forall|k: int| 0 <= k < c.members.len() implies #[trigger] f(k) == g(k) by {
        let x = c.members[k].0;
        lemma_connected_sym(c, a, b);
        if c.linked(i, k) {
            lemma_connected_trans(c, b, a, x);
        }
        if c.linked(j, k) {
            lemma_connected_trans(c, a, b, x);
        }
    }
    lemma_total_ext(c.members.len() as int, f, g);
}

/// The first member of a member's component.
proof fn lemma_leader(c: Community, i: int, n: int) -> (l: int)
    requires
        0 <= n <= i < c.members.len(),
        forall|j: int| n <= j < i ==> !#[trigger] c.linked(i, j),
    ensures
        0 <= l <= i,
        c.leads(l),
        c.linked(i, l),
        forall|j: int| 0 <= j < l ==> !#[trigger] c.linked(i, j),
    decreases i, n,
{
    if n == 0 {
        lemma_connected_refl(c, c.members[i].0);
        assert(c.linked(i, i));
        assert(c.leads(i));
        i
    } else if c.linked(i, n - 1) {
        let m = n - 1;
        let l = lemma_leader(c, m, m);
        let (a, b, x) = (c.members[i].0, c.members[m].0, c.members[l].0);
        lemma_connected_trans(c, a, b, x);
        assert(c.linked(i, l));
        assert forall|j: int| 0 <= j < l implies !#[trigger] c.linked(i, j) by {
            if c.linked(i, j) {
                lemma_connected_sym(c, a, b);
                lemma_connected_trans(c, b, a, c.members[j].0);
                assert(c.linked(m, j));
            }
        }
        l
    } else {
        lemma_leader(c, i, n - 1)
    }
}

/// What a cohort parts with is among the splits of the tick.
proof fn lemma_splits_held(w: WakeState, groups: Groups, order: Seq<u64>, n: int, m: int, k: int)
    requires
        0 <= m < n <= order.len(),
        0 <= k < cohort_splits(w, groups, order[m]).len(),
    ensures
        splits_of(w, groups, order, n).contains(cohort_splits(w, groups, order[m])[k]),
    decreases n,
{
    let head = splits_of(w, groups, order, n - 1);
    let tail = cohort_splits(w, groups, order[n - 1]);
    let all = splits_of(w, groups, order, n);
    let split = cohort_splits(w, groups, order[m])[k];
    if m == n - 1 {
        assert(all[head.len() + k] == split);
    } else {
        lemma_splits_held(w, groups, order, n - 1, m, k);
        let i = choose|i: int| 0 <= i < head.len() && head[i] == split;
        assert(all[i] == split);
    }
}

// ---- Who stays together ----

/// Two members of a cohort whose edge has an average of at least the rate that
/// connects are never parted: a split takes both or neither.
pub proof fn law_talking_members_stay_together(
    w: WakeState,
    groups: Groups,
    cohort: u64,
    a: u32,
    b: u32,
    k: int,
)
    requires
        joins_pairs(w.edges),
        listed(groups[cohort]@, a),
        listed(groups[cohort]@, b),
        w.edges.contains_key(edge_key(a, b)),
        w.edges[edge_key(a, b)].rate >= w.cfg.split_min_wakes_per_sec,
        0 <= k < all_splits(w, groups).len(),
        all_splits(w, groups)[k].cohort == cohort,
    ensures
        all_splits(w, groups)[k].off_tgids.contains(a) <==> all_splits(
            w,
            groups,
        )[k].off_tgids.contains(b),
{
    let members = groups[cohort]@;
    let chain = seq![a, b];
    assert(is_chain(w, members, chain));
    assert(chain.last() == b);
    assert(in_touch(w, members, a, b));
    law_a_split_takes_all_in_touch(w, groups, k, a, b);
    let back = seq![b, a];
    assert(edge_key(a, b) == edge_key(b, a));
    assert(is_chain(w, members, back));
    assert(back.last() == a);
    assert(in_touch(w, members, b, a));
    law_a_split_takes_all_in_touch(w, groups, k, b, a);
}

/// A split takes members of a listed cohort: with a member, those who are in
/// touch with it and no others.
pub proof fn law_a_split_takes_all_in_touch(
    w: WakeState,
    groups: Groups,
    k: int,
    a: u32,
    b: u32,
)
    requires
        joins_pairs(w.edges),
        0 <= k < all_splits(w, groups).len(),
    ensures
        ({
            let split = all_splits(w, groups)[k];
            let members = groups[split.cohort]@;
            &&& groups.contains_key(split.cohort)
            &&& split.off_tgids.contains(a) ==> listed(members, a)
            &&& split.off_tgids.contains(a) && listed(members, b) ==> (split.off_tgids.contains(b)
                <==> in_touch(w, members, a, b))
        }),
{
    law_only_due_cohorts_split(w, groups, k);
    let split = all_splits(w, groups)[k];
    let members = groups[split.cohort]@;
    let c = circle(w, members);
    let parts = c.split_off(w.cfg.split_min_tasks);
    let m = choose|m: int| 0 <= m < parts.len() && parts[m] == split.off_tgids;
    lemma_adjacent(w, members, a, a);
    lemma_adjacent(w, members, b, b);
    lemma_in_touch(w, members, a, b);
    if split.off_tgids.contains(a) {
        lemma_split_members(c, w.cfg.split_min_tasks, m, a);
        if listed(members, b) {
            law_a_split_is_a_component(c, w.cfg.split_min_tasks, m, a, b);
        }
    }
}

proof fn lemma_split_members(c: Community, min_tasks: u64, k: int, a: u32)
    requires
        0 <= k < c.split_off(min_tasks).len(),
        c.split_off(min_tasks)[k].contains(a),
    ensures
        c.has(a),
{
    lemma_partings_list(c, min_tasks);
    let i = c.partings(min_tasks)[k];
    lemma_tgids(c, i, c.members.len() as int, a);
    let j = choose|j: int|
        0 <= j < c.members.len() && (#[trigger] c.members[j]).0 == a && c.linked(i, j);
    assert(c.members[j].0 == a);
}

/// A cohort whose members are all in touch is not split, and has no streak
/// after the tick.
pub proof fn law_cohorts_in_touch_stay_whole(w: WakeState, groups: Groups, cohort: u64)
    requires
        joins_pairs(w.edges),
        forall|i: int, j: int|
            0 <= i < groups[cohort]@.len() && 0 <= j < groups[cohort]@.len() ==> in_touch(
                w,
                groups[cohort]@,
                (#[trigger] groups[cohort]@[i]).0,
                (#[trigger] groups[cohort]@[j]).0,
            ),
    ensures
        forall|k: int|
            0 <= k < all_splits(w, groups).len() ==> (#[trigger] all_splits(w, groups)[k]).cohort
                != cohort,
        !streaks_after(w, groups).contains_key(cohort),
{
    lemma_apart(w, groups[cohort]@);
    assert forall|k: int| 0 <= k < all_splits(w, groups).len() implies (#[trigger] all_splits(
        w,
        groups,
    )[k]).cohort != cohort by {
        law_only_due_cohorts_split(w, groups, k);
    }
}

// ---- Who is apart ----

/// A listed cohort with two members that no chain of members who talk joins
/// counts one more tick apart, as long as that is less than the configuration
/// asks, and is left whole; when it is enough, the count starts over. A cohort
/// that is not listed loses its count.
pub proof fn law_ticks_apart_are_counted(
    w: WakeState,
    groups: Groups,
    cohort: u64,
    i: int,
    j: int,
)
    requires
        joins_pairs(w.edges),
        groups.contains_key(cohort) ==> {
            &&& 0 <= i < groups[cohort]@.len()
            &&& 0 <= j < groups[cohort]@.len()
            &&& !in_touch(w, groups[cohort]@, groups[cohort]@[i].0, groups[cohort]@[j].0)
        },
    ensures
        ({
            let before = ticks_apart(w.split_streak, cohort);
            let after = streaks_after(w, groups);
            let waits = before + 1 < w.cfg.split_confirm_ticks;
            &&& groups.contains_key(cohort) && waits ==> after.contains_key(cohort) && after[cohort]
                == before + 1
            &&& !waits ==> !after.contains_key(cohort)
            &&& !groups.contains_key(cohort) ==> !after.contains_key(cohort)
            &&& waits || !groups.contains_key(cohort) ==> forall|k: int|
                0 <= k < all_splits(w, groups).len() ==> (#[trigger] all_splits(
                    w,
                    groups,
                )[k]).cohort != cohort
        }),
{
    if groups.contains_key(cohort) {
        let members = groups[cohort]@;
        lemma_apart(w, members);
        assert(!in_touch(w, members, members[i].0, members[j].0));
    }
    assert forall|k: int|
        0 <= k < all_splits(w, groups).len() && (ticks_apart(w.split_streak, cohort) + 1
            < w.cfg.split_confirm_ticks || !groups.contains_key(cohort)) implies (
    #[trigger] all_splits(w, groups)[k]).cohort != cohort by {
        law_only_due_cohorts_split(w, groups, k);
    }
}

/// Once a cohort has been apart for long enough, it parts with every member
/// whose circle has enough tasks and is not the largest: some other circle of
/// the cohort has more tasks, or as many and starts earlier in the list.
/// Everyone else stays.
pub proof fn law_smaller_circles_are_split_off(
    w: WakeState,
    groups: Groups,
    cohort: u64,
    i: int,
    j: int,
    x: int,
)
    requires
        joins_pairs(w.edges),
        groups.contains_key(cohort),
        0 <= i < groups[cohort]@.len(),
        0 <= j < groups[cohort]@.len(),
        !in_touch(w, groups[cohort]@, groups[cohort]@[i].0, groups[cohort]@[j].0),
        ticks_apart(w.split_streak, cohort) + 1 >= w.cfg.split_confirm_ticks,
        0 <= x < groups[cohort]@.len(),
    ensures
        ({
            let members = groups[cohort]@;
            let tgid = members[x].0;
            let own = tasks_in_touch(w, members, tgid);
            split_off(all_splits(w, groups), cohort, tgid) <==> own >= w.cfg.split_min_tasks
                && exists|y: int|
                {
                    let other = tasks_in_touch(w, members, members[y].0);
                    &&& 0 <= y < members.len()
                    &&& !in_touch(w, members, tgid, (#[trigger] members[y]).0)
                    &&& other > own || (other == own && forall|z: int|
                        0 <= z < members.len() && in_touch(
                            w,
                            members,
                            tgid,
                            (#[trigger] members[z]).0,
                        ) ==> y < z)
                }
        }),
{
    let members = groups[cohort]@;
    let c = circle(w, members);
    let n = members.len() as int;
    let tgid = members[x].0;
    let own = tasks_in_touch(w, members, tgid);
    let min = w.cfg.split_min_tasks;
    let parts = c.split_off(min);
    lemma_apart(w, members);
    assert(!in_touch(w, members, members[i].0, members[j].0));
    assert(splits_now(w, groups, cohort));
    lemma_partings_list(c, min);
    lemma_weight(w, members, x);
    let l = lemma_leader(c, x, x);
    lemma_same_weight(c, x, l);
    lemma_weight(w, members, l);
    // Its own circle is parted with, or it is in no split.
    if c.parts_with(min, l) {
        let m = choose|m: int| #[trigger] c.leads(m) && c.outweighs(m, l);
        lemma_weight(w, members, m);
        assert(!in_touch(w, members, tgid, members[m].0)) by {
            lemma_in_touch(w, members, tgid, members[m].0);
            if c.connected(tgid, members[m].0) {
                lemma_connected_sym(c, members[x].0, members[l].0);
                lemma_connected_trans(c, members[l].0, members[x].0, members[m].0);
                assert(c.linked(l, m));
                lemma_connected_sym(c, members[l].0, members[m].0);
                assert(c.linked(m, l));
                if m < l {
                    assert(!c.linked(l, m));
                } else if l < m {
                    assert(!c.linked(m, l));
                } else {
                    assert(false);
                }
            }
        }
        assert forall|z: int|
            0 <= z < n && in_touch(w, members, tgid, (#[trigger] members[z]).0) implies l <= z by {
            lemma_in_touch(w, members, tgid, members[z].0);
            assert(c.linked(x, z));
        }
        // The split that takes it.
        assert(c.partings(min).contains(l));
        let k = choose|k: int| 0 <= k < c.partings(min).len() && c.partings(min)[k] == l;
        assert(parts[k] == c.tgids(l));
        lemma_connected_sym(c, members[x].0, members[l].0);
        assert(c.linked(l, x));
        lemma_tgids(c, l, n, tgid);
        assert(c.members[x].0 == tgid);
        assert(parts[k].contains(tgid));
        let order = in_order(groups.dom());
        lemma_in_order_lists(groups.dom());
        assert(order.contains(cohort));
        let at = choose|at: int| 0 <= at < order.len() && order[at] == cohort;
        let mine = cohort_splits(w, groups, cohort);
        assert(mine[k] == (Split { cohort, off_tgids: parts[k] }));
        lemma_splits_held(w, groups, order, order.len() as int, at, k);
        let all = all_splits(w, groups);
        let s = choose|s: int| 0 <= s < all.len() && all[s] == mine[k];
        assert(all[s].cohort == cohort && all[s].off_tgids.contains(tgid));
        assert(split_off(all, cohort, tgid));
        assert(own >= min);
        assert(0 <= m < n && !in_touch(w, members, tgid, members[m].0));
    }
    if split_off(all_splits(w, groups), cohort, tgid) {
        let all = all_splits(w, groups);
        let s = choose|s: int|
            0 <= s < all.len() && (#[trigger] all[s]).cohort == cohort && all[s].off_tgids.contains(
                tgid,
            );
        law_only_due_cohorts_split(w, groups, s);
        let k = choose|k: int| 0 <= k < parts.len() && parts[k] == all[s].off_tgids;
        let lead = c.partings(min)[k];
        assert(c.partings(min).contains(lead));
        lemma_tgids(c, lead, n, tgid);
        let at = choose|at: int|
            0 <= at < n && (#[trigger] c.members[at]).0 == tgid && c.linked(lead, at);
        assert(c.linked(lead, x));
        lemma_connected_trans(c, members[lead].0, members[x].0, members[l].0);
        lemma_connected_sym(c, members[lead].0, members[l].0);
        assert(c.linked(lead, l) && c.linked(l, lead));
        if lead < l {
            assert(!c.linked(l, lead));
        } else if l < lead {
            assert(!c.linked(lead, l));
        }
        assert(c.parts_with(min, l));
    }
    if own >= min && exists|y: int|
        {
            let other = tasks_in_touch(w, members, members[y].0);
            &&& 0 <= y < members.len()
            &&& !in_touch(w, members, tgid, (#[trigger] members[y]).0)
            &&& other > own || (other == own && forall|z: int|
                0 <= z < members.len() && in_touch(w, members, tgid, (#[trigger] members[z]).0)
                    ==> y < z)
        } {
        let y = choose|y: int|
            {
                let other = tasks_in_touch(w, members, members[y].0);
                &&& 0 <= y < members.len()
                &&& !in_touch(w, members, tgid, (#[trigger] members[y]).0)
                &&& other > own || (other == own && forall|z: int|
                    0 <= z < members.len() && in_touch(
                        w,
                        members,
                        tgid,
                        (#[trigger] members[z]).0,
                    ) ==> y < z)
            };
        lemma_weight(w, members, y);
        let lead = lemma_leader(c, y, y);
        lemma_same_weight(c, y, lead);
        lemma_in_touch(w, members, tgid, members[l].0);
        assert(in_touch(w, members, tgid, members[l].0));
        assert(c.outweighs(lead, l));
        assert(c.parts_with(min, l));
    }
}

/// Where no two members share a tgid, a split names each process once.
pub proof fn law_splits_name_each_process_once(w: WakeState, groups: Groups, k: int)
    requires
        0 <= k < all_splits(w, groups).len(),
        ({
            let members = groups[all_splits(w, groups)[k].cohort]@;
            forall|i: int, j: int|
                0 <= i < j < members.len() ==> (#[trigger] members[i]).0 != (#[trigger] members[j]).0
        }),
    ensures
        forall|i: int, j: int|
            0 <= i < j < all_splits(w, groups)[k].off_tgids.len() ==> all_splits(
                w,
                groups,
            )[k].off_tgids[i] != all_splits(w, groups)[k].off_tgids[j],
{
    law_only_due_cohorts_split(w, groups, k);
    let split = all_splits(w, groups)[k];
    let c = circle(w, groups[split.cohort]@);
    let parts = c.split_off(w.cfg.split_min_tasks);
    let m = choose|m: int| 0 <= m < parts.len() && parts[m] == split.off_tgids;
    let i = c.partings(w.cfg.split_min_tasks)[m];
    lemma_tgids_once(c, i, c.members.len() as int);
}

proof fn lemma_tgids_once(c: Community, i: int, n: int)
    requires
        0 <= n <= c.members.len(),
        forall|a: int, b: int|
            0 <= a < b < c.members.len() ==> (#[trigger] c.members[a]).0 != (
            #[trigger] c.members[b]).0,
    ensures
        forall|a: int, b: int|
            0 <= a < b < c.tgids_up_to(i, n).len() ==> c.tgids_up_to(i, n)[a] != c.tgids_up_to(
                i,
                n,
            )[b],
    decreases n,
{
    if n > 0 {
        lemma_tgids_once(c, i, n - 1);
        let t = c.tgids_up_to(i, n - 1);
        let tgid = c.members[n - 1].0;
        lemma_tgids(c, i, n - 1, tgid);
        assert(!t.contains(tgid)) by {
            if t.contains(tgid) {
                let j = choose|j: int|
                    0 <= j < n - 1 && (#[trigger] c.members[j]).0 == tgid && c.linked(i, j);
                assert(c.members[j].0 != c.members[n - 1].0);
            }
        }
        let u = c.tgids_up_to(i, n);
        assert forall|a: int, b: int| 0 <= a < b < u.len() implies u[a] != u[b] by {
            if b == t.len() {
                assert(t.contains(t[a]));
            }
        }
    }
}

// ---- In which order ----

/// Where a split comes from: the place of its cohort, and its place among the
/// cohort's.
proof fn lemma_split_place(w: WakeState, groups: Groups, order: Seq<u64>, n: int, k: int) -> (place:
    (int, int))
    requires
        0 <= n <= order.len(),
        0 <= k < splits_of(w, groups, order, n).len(),
    ensures
        0 <= place.0 < n,
        0 <= place.1 < cohort_splits(w, groups, order[place.0]).len(),
        splits_of(w, groups, order, n)[k] == cohort_splits(w, groups, order[place.0])[place.1],
        k == splits_of(w, groups, order, place.0).len() + place.1,
    decreases n,
{
    let head = splits_of(w, groups, order, n - 1);
    if k < head.len() {
        lemma_split_place(w, groups, order, n - 1, k)
    } else {
        (n - 1, k - head.len())
    }
}

proof fn lemma_splits_grow(w: WakeState, groups: Groups, order: Seq<u64>, m: int, n: int)
    requires
        0 <= m < n <= order.len(),
    ensures
        splits_of(w, groups, order, m).len() + cohort_splits(w, groups, order[m]).len()
            <= splits_of(w, groups, order, n).len(),
    decreases n,
{
    if m < n - 1 {
        lemma_splits_grow(w, groups, order, m, n - 1);
    }
}

/// Splits come in order of the cohorts, and those of one cohort with the
/// circle of more tasks first, or of equal ones that which starts earlier in
/// the list. No two take the same circle.
pub proof fn law_larger_circles_are_split_off_first(
    w: WakeState,
    groups: Groups,
    i: int,
    j: int,
    a: u32,
    b: u32,
)
    requires
        joins_pairs(w.edges),
        0 <= i < j < all_splits(w, groups).len(),
        all_splits(w, groups)[i].off_tgids.contains(a),
        all_splits(w, groups)[j].off_tgids.contains(b),
    ensures
        ({
            let (first, second) = (all_splits(w, groups)[i], all_splits(w, groups)[j]);
            let members = groups[first.cohort]@;
            &&& first.cohort <= second.cohort
            &&& first.cohort == second.cohort ==> {
                &&& !in_touch(w, members, a, b)
                &&& tasks_in_touch(w, members, a) >= tasks_in_touch(w, members, b)
                &&& tasks_in_touch(w, members, a) == tasks_in_touch(w, members, b) ==> exists|
                    x: int,
                |
                    {
                        &&& 0 <= x < members.len()
                        &&& in_touch(w, members, a, (#[trigger] members[x]).0)
                        &&& forall|y: int|
                            0 <= y < members.len() && in_touch(
                                w,
                                members,
                                b,
                                (#[trigger] members[y]).0,
                            ) ==> x < y
                    }
            }
        }),
{
    let order = in_order(groups.dom());
    let n = order.len() as int;
    lemma_in_order_lists(groups.dom());
    let (m1, p1) = lemma_split_place(w, groups, order, n, i);
    let (m2, p2) = lemma_split_place(w, groups, order, n, j);
    if m2 < m1 {
        lemma_splits_grow(w, groups, order, m2, m1);
    }
    assert(m1 <= m2);
    if m1 < m2 {
        assert(order[m1] < order[m2]);
    }
    if m1 == m2 {
        let cohort = order[m1];
        let members = groups[cohort]@;
        let c = circle(w, members);
        let min = w.cfg.split_min_tasks;
        let size = members.len() as int;
        lemma_partings_list(c, min);
        let leaders = c.partings(min);
        let (l1, l2) = (leaders[p1], leaders[p2]);
        assert(leaders.contains(l1) && leaders.contains(l2));
        assert(c.outweighs(l1, l2));
        lemma_tgids(c, l1, size, a);
        lemma_tgids(c, l2, size, b);
        let x = choose|x: int|
            0 <= x < size && (#[trigger] c.members[x]).0 == a && c.linked(l1, x);
        let y = choose|y: int|
            0 <= y < size && (#[trigger] c.members[y]).0 == b && c.linked(l2, y);
        assert(c.linked(l1, x) && c.linked(l2, y));
        lemma_same_weight(c, l1, x);
        lemma_same_weight(c, l2, y);
        lemma_weight(w, members, x);
        lemma_weight(w, members, y);
        lemma_connected_sym(c, members[l1].0, a);
        lemma_connected_sym(c, members[l2].0, b);
        assert(!in_touch(w, members, a, b)) by {
            lemma_in_touch(w, members, a, b);
            if c.connected(a, b) {
                lemma_connected_trans(c, members[l1].0, a, b);
                lemma_connected_trans(c, members[l1].0, b, members[l2].0);
                lemma_connected_sym(c, members[l1].0, members[l2].0);
                assert(c.linked(l1, l2) && c.linked(l2, l1));
                assert(l1 != l2);
                if l1 < l2 {
                    assert(!c.linked(l2, l1));
                } else {
                    assert(!c.linked(l1, l2));
                }
            }
        }
        if c.weight(l1) == c.weight(l2) {
            assert(l1 < l2);
            lemma_in_touch(w, members, a, members[l1].0);
            assert forall|z: int|
                0 <= z < size && in_touch(w, members, b, (#[trigger] members[z]).0) implies l1
                < z by {
                lemma_in_touch(w, members, b, members[z].0);
                lemma_connected_trans(c, members[l2].0, b, members[z].0);
                assert(c.linked(l2, z));
                if z < l2 {
                    assert(!c.linked(l2, z));
                }
            }
            assert(in_touch(w, members, a, members[l1].0));
        }
    }
}

} // verus!
