//! Connected components of a group of processes under "wakes each other".
use vstd::prelude::*;

use crate::arith::{lemma_total_le, lemma_total_monotone, total};
use crate::ordered::lemma_sorted_unique;

verus! {

/// A group of processes: its members (tgid, task count), and the pairs of
/// tgids that wake each other often enough to count as connected.
pub struct Community {
    pub members: Seq<(u32, u64)>,
    pub live: Set<(u32, u32)>,
}

impl Community {
    pub open spec fn has(self, tgid: u32) -> bool {
        exists|i: int| 0 <= i < self.members.len() && (#[trigger] self.members[i]).0 == tgid
    }

    /// Both are members, and one wakes the other.
    pub open spec fn adjacent(self, a: u32, b: u32) -> bool {
        self.has(a) && self.has(b) && (self.live.contains((a, b)) || self.live.contains((b, a)))
    }

    /// A chain of `n` adjacent pairs leads from `a` to `b`.
    pub open spec fn chained(self, a: u32, b: u32, n: nat) -> bool
        decreases n,
    {
        if n == 0 {
            a == b
        } else {
            exists|c: u32| self.chained(a, c, (n - 1) as nat) && #[trigger] self.adjacent(c, b)
        }
    }

    /// Some chain leads from `a` to `b`.
    pub open spec fn connected(self, a: u32, b: u32) -> bool {
        exists|n: nat| #[trigger] self.chained(a, b, n)
    }

    /// Members `i` and `j` belong to one component.
    pub open spec fn linked(self, i: int, j: int) -> bool {
        self.connected(self.members[i].0, self.members[j].0)
    }

    /// There is more than one component.
    pub open spec fn falls_apart(self) -> bool {
        exists|i: int, j: int|
            0 <= i < self.members.len() && 0 <= j < self.members.len() && !#[trigger] self.linked(
                i,
                j,
            )
    }

    /// Member `i` is the first of its component.
    pub open spec fn leads(self, i: int) -> bool {
        &&& 0 <= i < self.members.len()
        &&& forall|j: int| 0 <= j < i ==> !#[trigger] self.linked(i, j)
    }

    /// The tasks of the component of member `i`.
    pub open spec fn weight(self, i: int) -> int {
        total(
            self.members.len() as int,
            |j: int|
                if self.linked(i, j) {
                    self.members[j].1 as int
                } else {
                    0
                },
        )
    }

    /// The component of `i` has more tasks than that of `j`, or as many while
    /// it starts earlier.
    pub open spec fn outweighs(self, i: int, j: int) -> bool {
        self.weight(i) > self.weight(j) || (self.weight(i) == self.weight(j) && i < j)
    }

    /// The component that member `i` leads is not the largest, and has at
    /// least `min_tasks` tasks.
    pub open spec fn parts_with(self, min_tasks: u64, i: int) -> bool {
        &&& self.leads(i)
        &&& self.weight(i) >= min_tasks
        &&& exists|j: int| #[trigger] self.leads(j) && self.outweighs(j, i)
    }

    /// `leaders` lists the leaders of the components to part with, largest
    /// component first.
    pub open spec fn lists_partings(self, min_tasks: u64, leaders: Seq<int>) -> bool {
        &&& forall|i: int| #[trigger] leaders.contains(i) <==> self.parts_with(min_tasks, i)
        &&& forall|a: int, b: int|
            0 <= a < b < leaders.len() ==> self.outweighs(
                #[trigger] leaders[a],
                #[trigger] leaders[b],
            )
    }

    pub open spec fn partings(self, min_tasks: u64) -> Seq<int> {
        choose|leaders: Seq<int>| self.lists_partings(min_tasks, leaders)
    }

    /// The tgids of the component of member `i` among the first `n` members.
    pub open spec fn tgids_up_to(self, i: int, n: int) -> Seq<u32>
        decreases n,
    {
        if n <= 0 {
            seq![]
        } else if self.linked(i, n - 1) {
            self.tgids_up_to(i, n - 1).push(self.members[n - 1].0)
        } else {
            self.tgids_up_to(i, n - 1)
        }
    }

    /// The tgids of the component of member `i`.
    pub open spec fn tgids(self, i: int) -> Seq<u32> {
        self.tgids_up_to(i, self.members.len() as int)
    }

    /// The components to part with.
    pub open spec fn split_off(self, min_tasks: u64) -> Seq<Seq<u32>> {
        let leaders = self.partings(min_tasks);
        Seq::new(leaders.len(), |k: int| self.tgids(leaders[k]))
    }

    /// The tasks of all members.
    pub open spec fn tasks(self) -> int {
        total(self.members.len() as int, |j: int| self.members[j].1 as int)
    }
}

// ---- Connectedness is an equivalence ----

pub proof fn lemma_connected_refl(c: Community, a: u32)
    ensures
        c.connected(a, a),
{
    assert(c.chained(a, a, 0));
}

pub proof fn lemma_connected_step(c: Community, a: u32, b: u32, x: u32)
    requires
        c.connected(a, b),
        c.adjacent(b, x),
    ensures
        c.connected(a, x),
{
    let n = choose|n: nat| #[trigger] c.chained(a, b, n);
    assert(c.chained(a, x, n + 1));
}

proof fn lemma_chain_trans(c: Community, a: u32, b: u32, x: u32, n: nat)
    requires
        c.connected(a, b),
        c.chained(b, x, n),
    ensures
        c.connected(a, x),
    decreases n,
{
    if n > 0 {
        let y = choose|y: u32|
            c.chained(b, y, (n - 1) as nat) && #[trigger] c.adjacent(y, x);
        lemma_chain_trans(c, a, b, y, (n - 1) as nat);
        lemma_connected_step(c, a, y, x);
    }
}

pub proof fn lemma_connected_trans(c: Community, a: u32, b: u32, x: u32)
    requires
        c.connected(a, b),
        c.connected(b, x),
    ensures
        c.connected(a, x),
{
    let n = choose|n: nat| #[trigger] c.chained(b, x, n);
    lemma_chain_trans(c, a, b, x, n);
}

proof fn lemma_chain_sym(c: Community, a: u32, b: u32, n: nat)
    requires
        c.chained(a, b, n),
    ensures
        c.connected(b, a),
    decreases n,
{
    if n == 0 {
        lemma_connected_refl(c, a);
    } else {
        let y = choose|y: u32|
            c.chained(a, y, (n - 1) as nat) && #[trigger] c.adjacent(y, b);
        lemma_chain_sym(c, a, y, (n - 1) as nat);
        lemma_connected_refl(c, b);
        assert(c.adjacent(b, y));
        lemma_connected_step(c, b, b, y);
        lemma_connected_trans(c, b, y, a);
    }
}

pub proof fn lemma_connected_sym(c: Community, a: u32, b: u32)
    requires
        c.connected(a, b),
    ensures
        c.connected(b, a),
{
    let n = choose|n: nat| #[trigger] c.chained(a, b, n);
    lemma_chain_sym(c, a, b, n);
}

// ---- One more pair ----

/// The community with one more live pair.
pub open spec fn with_pair(c: Community, x: u32, y: u32) -> Community {
    Community { members: c.members, live: c.live.insert((x, y)) }
}

/// `a` and `b` are connected, or the pair `x`, `y` connects them.
pub open spec fn bridged(c: Community, x: u32, y: u32, a: u32, b: u32) -> bool {
    ||| c.connected(a, b)
    ||| c.connected(a, x) && c.connected(y, b)
    ||| c.connected(a, y) && c.connected(x, b)
}

proof fn lemma_chain_bridged(c: Community, x: u32, y: u32, a: u32, b: u32, n: nat)
    requires
        with_pair(c, x, y).chained(a, b, n),
    ensures
        bridged(c, x, y, a, b),
    decreases n,
{
    let d = with_pair(c, x, y);
    if n == 0 {
        lemma_connected_refl(c, a);
    } else {
        let z = choose|z: u32|
            d.chained(a, z, (n - 1) as nat) && #[trigger] d.adjacent(z, b);
        lemma_chain_bridged(c, x, y, a, z, (n - 1) as nat);
        lemma_connected_refl(c, x);
        lemma_connected_refl(c, y);
        assert(c.has(z) && c.has(b)) by {
            assert(d.has(z) && d.has(b));
            let i = choose|i: int| 0 <= i < d.members.len() && (#[trigger] d.members[i]).0 == z;
            assert(c.members[i].0 == z);
            let j = choose|j: int| 0 <= j < d.members.len() && (#[trigger] d.members[j]).0 == b;
            assert(c.members[j].0 == b);
        }
        if c.adjacent(z, b) {
            if c.connected(a, z) {
                lemma_connected_step(c, a, z, b);
            } else if c.connected(a, x) && c.connected(y, z) {
                lemma_connected_step(c, y, z, b);
            } else {
                lemma_connected_step(c, x, z, b);
            }
        }
    }
}

proof fn lemma_chain_grows(c: Community, x: u32, y: u32, a: u32, b: u32, n: nat)
    requires
        c.chained(a, b, n),
    ensures
        with_pair(c, x, y).connected(a, b),
    decreases n,
{
    let d = with_pair(c, x, y);
    if n == 0 {
        lemma_connected_refl(d, a);
    } else {
        let z = choose|z: u32|
            c.chained(a, z, (n - 1) as nat) && #[trigger] c.adjacent(z, b);
        lemma_chain_grows(c, x, y, a, z, (n - 1) as nat);
        assert(d.has(z) && d.has(b)) by {
            let i = choose|i: int| 0 <= i < c.members.len() && (#[trigger] c.members[i]).0 == z;
            assert(d.members[i].0 == z);
            let j = choose|j: int| 0 <= j < c.members.len() && (#[trigger] c.members[j]).0 == b;
            assert(d.members[j].0 == b);
        }
        assert(d.adjacent(z, b));
        lemma_connected_step(d, a, z, b);
    }
}

pub proof fn lemma_with_pair(c: Community, x: u32, y: u32, a: u32, b: u32)
    ensures
        c.connected(a, b) ==> with_pair(c, x, y).connected(a, b),
        with_pair(c, x, y).connected(a, b) ==> bridged(c, x, y, a, b),
        c.has(x) && c.has(y) && bridged(c, x, y, a, b) ==> with_pair(c, x, y).connected(a, b),
        !(c.has(x) && c.has(y)) ==> (with_pair(c, x, y).connected(a, b) <==> c.connected(a, b)),
{
    let d = with_pair(c, x, y);
    if d.connected(a, b) {
        let n = choose|n: nat| #[trigger] d.chained(a, b, n);
        lemma_chain_bridged(c, x, y, a, b, n);
    }
    if c.connected(a, b) {
        let n = choose|n: nat| #[trigger] c.chained(a, b, n);
        lemma_chain_grows(c, x, y, a, b, n);
    }
    if c.has(x) && c.has(y) && bridged(c, x, y, a, b) && !c.connected(a, b) {
        let (p, q) = if c.connected(a, x) && c.connected(y, b) {
            (x, y)
        } else {
            (y, x)
        };
        let n = choose|n: nat| #[trigger] c.chained(a, p, n);
        lemma_chain_grows(c, x, y, a, p, n);
        let m = choose|m: nat| #[trigger] c.chained(q, b, m);
        lemma_chain_grows(c, x, y, q, b, m);
        assert(d.has(x) && d.has(y)) by {
            let i = choose|i: int| 0 <= i < c.members.len() && (#[trigger] c.members[i]).0 == x;
            assert(d.members[i].0 == x);
            let j = choose|j: int| 0 <= j < c.members.len() && (#[trigger] c.members[j]).0 == y;
            assert(d.members[j].0 == y);
        }
        assert(d.live.contains((x, y)));
        assert(d.adjacent(p, q));
        lemma_connected_step(d, a, p, q);
        lemma_connected_trans(d, a, q, b);
    }
    if !(c.has(x) && c.has(y)) && d.connected(a, b) {
        let n = choose|n: nat| #[trigger] d.chained(a, b, n);
        lemma_outside_pair(c, x, y, a, b, n);
    }
}

/// A pair that is not within the community connects nothing in it.
proof fn lemma_outside_pair(c: Community, x: u32, y: u32, a: u32, b: u32, n: nat)
    requires
        !(c.has(x) && c.has(y)),
        with_pair(c, x, y).chained(a, b, n),
    ensures
        c.connected(a, b),
    decreases n,
{
    let d = with_pair(c, x, y);
    if n == 0 {
        lemma_connected_refl(c, a);
    } else {
        let z = choose|z: u32|
            d.chained(a, z, (n - 1) as nat) && #[trigger] d.adjacent(z, b);
        lemma_outside_pair(c, x, y, a, z, (n - 1) as nat);
        assert(c.has(z) && c.has(b)) by {
            let i = choose|i: int| 0 <= i < d.members.len() && (#[trigger] d.members[i]).0 == z;
            assert(c.members[i].0 == z);
            let j = choose|j: int| 0 <= j < d.members.len() && (#[trigger] d.members[j]).0 == b;
            assert(c.members[j].0 == b);
        }
        assert(c.adjacent(z, b));
        lemma_connected_step(c, a, z, b);
    }
}

/// Without live pairs only equal tgids are connected.
pub proof fn lemma_no_pairs(c: Community, a: u32, b: u32)
    requires
        c.live == Set::<(u32, u32)>::empty(),
    ensures
        c.connected(a, b) <==> a == b,
{
    lemma_connected_refl(c, a);
    if c.connected(a, b) {
        let n = choose|n: nat| #[trigger] c.chained(a, b, n);
        if n > 0 {
            let z = choose|z: u32|
                #[trigger] c.chained(a, z, (n - 1) as nat) && c.adjacent(z, b);
            assert(c.adjacent(z, b));
        }
    }
}


// ---- Finding the components ----

/// The community of `members` connected by `pairs`.
pub open spec fn community(members: Seq<(u32, u64)>, pairs: Seq<(u32, u32)>) -> Community {
    Community { members, live: pairs.to_set() }
}

/// Two members carry one label exactly if they belong to one component.
pub open spec fn labels_components(labels: Seq<usize>, c: Community) -> bool {
    &&& labels.len() == c.members.len()
    &&& forall|i: int, j: int|
        0 <= i < labels.len() && 0 <= j < labels.len() ==> (#[trigger] labels[i]
            == #[trigger] labels[j] <==> c.linked(i, j))
}

fn find_member(members: &[(u32, u64)], tgid: u32) -> (found: Option<usize>)
    ensures
        match found {
            Some(i) => i < members@.len() && members@[i as int].0 == tgid && forall|j: int|
                0 <= j < i ==> (#[trigger] members@[j]).0 != tgid,
            None => forall|j: int| 0 <= j < members@.len() ==> (#[trigger] members@[j]).0 != tgid,
        },
{
    let mut i: usize = 0;
    while i < members.len()
        invariant
            i <= members@.len(),
            forall|j: int| 0 <= j < i ==> (#[trigger] members@[j]).0 != tgid,
        decreases members@.len() - i,
    {
        if members[i].0 == tgid {
            return Some(i);
        }
        i = i + 1;
    }
    None
}

/// Gives every member that carries `from` the label `to`.
fn relabel(labels: &mut Vec<usize>, from: usize, to: usize)
    ensures
        final(labels)@.len() == old(labels)@.len(),
        forall|i: int|
            0 <= i < old(labels)@.len() ==> #[trigger] final(labels)@[i] == (if old(labels)@[i]
                == from {
                to
            } else {
                old(labels)@[i]
            }),
{
    let mut k: usize = 0;
    while k < labels.len()
        invariant
            k <= labels@.len(),
            labels@.len() == old(labels)@.len(),
            forall|i: int| k <= i < labels@.len() ==> #[trigger] labels@[i] == old(labels)@[i],
            forall|i: int|
                0 <= i < k ==> #[trigger] labels@[i] == (if old(labels)@[i] == from {
                    to
                } else {
                    old(labels)@[i]
                }),
        decreases labels@.len() - k,
    {
        if labels[k] == from {
            labels.set(k, to);
        }
        k = k + 1;
    }
}

/// Joining the labels of the two ends of a pair follows the components.
proof fn lemma_relabelled(c: Community, x: int, y: int, before: Seq<usize>, after: Seq<usize>)
    requires
        labels_components(before, c),
        0 <= x < before.len(),
        0 <= y < before.len(),
        after.len() == before.len(),
        forall|i: int|
            0 <= i < before.len() ==> #[trigger] after[i] == (if before[i] == before[y] {
                before[x]
            } else {
                before[i]
            }),
    ensures
        labels_components(after, with_pair(c, c.members[x].0, c.members[y].0)),
{
    let m = c.members;
    let d = with_pair(c, m[x].0, m[y].0);
    assert(c.has(m[x].0) && c.has(m[y].0));
    assert forall|i: int, j: int| 0 <= i < after.len() && 0 <= j < after.len() implies (
    #[trigger] after[i] == #[trigger] after[j] <==> d.linked(i, j)) by {
        lemma_with_pair(c, m[x].0, m[y].0, m[i].0, m[j].0);
        assert(before[i] == before[j] <==> c.linked(i, j));
        assert(before[i] == before[x] <==> c.linked(i, x));
        assert(before[y] == before[j] <==> c.linked(y, j));
        assert(before[i] == before[y] <==> c.linked(i, y));
        assert(before[x] == before[j] <==> c.linked(x, j));
    }
}

/// Labels the members by component.
pub(crate) fn label_components(members: &[(u32, u64)], pairs: &[(u32, u32)]) -> (labels: Vec<usize>)
    ensures
        labels_components(labels@, community(members@, pairs@)),
{
    let mut labels: Vec<usize> = Vec::new();
    let mut i: usize = 0;
    while i < members.len()
        invariant
            i <= members@.len(),
            labels@.len() == i,
            forall|j: int|
                0 <= j < i ==> #[trigger] labels@[j] <= j && members@[labels@[j] as int].0
                    == members@[j].0 && forall|k: int|
                    0 <= k < labels@[j] ==> (#[trigger] members@[k]).0 != members@[j].0,
        decreases members@.len() - i,
    {
        match find_member(members, members[i].0) {
            Some(first) => labels.push(first),
            None => {
                assert(members@[i as int].0 != members@[i as int].0);
                labels.push(i)
            },
        }
        i = i + 1;
    }
    proof {
        let c = community(members@, pairs@.take(0));
        assert(c.live =~= Set::empty());
        assert forall|a: int, b: int| 0 <= a < labels@.len() && 0 <= b < labels@.len() implies (
        #[trigger] labels@[a] == #[trigger] labels@[b] <==> c.linked(a, b)) by {
            lemma_no_pairs(c, members@[a].0, members@[b].0);
        }
    }
    let mut k: usize = 0;
    while k < pairs.len()
        invariant
            k <= pairs@.len(),
            labels_components(labels@, community(members@, pairs@.take(k as int))),
        decreases pairs@.len() - k,
    {
        let (a, b) = pairs[k];
        let ghost c = community(members@, pairs@.take(k as int));
        let ghost before = labels@;
        proof {
            let next = community(members@, pairs@.take(k + 1));
            assert(next.live =~= with_pair(c, a, b).live) by {
                assert(pairs@.take(k + 1) =~= pairs@.take(k as int).push((a, b)));
                assert forall|p: (u32, u32)|
                    next.live.contains(p) <==> #[trigger] with_pair(c, a, b).live.contains(p) by {
                    let t = pairs@.take(k as int);
                    if t.contains(p) {
                        let w = choose|w: int| 0 <= w < t.len() && t[w] == p;
                        assert(pairs@.take(k + 1)[w] == p);
                    }
                    assert(pairs@.take(k + 1)[k as int] == (a, b));
                }
            }
            assert(next == with_pair(c, a, b));
        }
        match (find_member(members, a), find_member(members, b)) {
            (Some(x), Some(y)) => {
                let to: usize = labels[x];
                let from: usize = labels[y];
                relabel(&mut labels, from, to);
                proof {
                    lemma_relabelled(c, x as int, y as int, before, labels@);
                }
            },
            _ => {
                proof {
                    assert(!(c.has(a) && c.has(b)));
                    let d = with_pair(c, a, b);
                    assert forall|i: int, j: int|
                        0 <= i < labels@.len() && 0 <= j < labels@.len() implies (
                    #[trigger] labels@[i] == #[trigger] labels@[j] <==> d.linked(i, j)) by {
                        lemma_with_pair(c, a, b, members@[i].0, members@[j].0);
                    }
                }
            },
        }
        k = k + 1;
    }
    assert(pairs@.take(pairs@.len() as int) =~= pairs@);
    labels
}


// ---- Choosing what to part with ----

/// Where a component of weight `w` goes in a list sorted by weight.
proof fn lemma_place(c: Community, list: Seq<int>, w: int, n: int) -> (p: int)
    requires
        0 <= n <= list.len(),
        forall|a: int, b: int|
            0 <= a < b < list.len() ==> c.outweighs(#[trigger] list[a], #[trigger] list[b]),
    ensures
        0 <= p <= n,
        forall|a: int| 0 <= a < p ==> c.weight(#[trigger] list[a]) >= w,
        forall|a: int| p <= a < n ==> c.weight(#[trigger] list[a]) < w,
    decreases n,
{
    if n == 0 {
        0
    } else {
        let p = lemma_place(c, list, w, n - 1);
        if p == n - 1 && c.weight(list[n - 1]) >= w {
            n
        } else {
            if p < n - 1 {
                assert(c.outweighs(list[p], list[n - 1]));
            }
            p
        }
    }
}

/// The leaders to part with among the first `n` members can be listed.
proof fn lemma_partings_up_to(c: Community, min_tasks: u64, n: int) -> (list: Seq<int>)
    requires
        0 <= n,
    ensures
        forall|i: int| #[trigger] list.contains(i) <==> i < n && c.parts_with(min_tasks, i),
        forall|a: int, b: int|
            0 <= a < b < list.len() ==> c.outweighs(#[trigger] list[a], #[trigger] list[b]),
    decreases n,
{
    if n == 0 {
        Seq::empty()
    } else {
        let list = lemma_partings_up_to(c, min_tasks, n - 1);
        if c.parts_with(min_tasks, n - 1) {
            let p = lemma_place(c, list, c.weight(n - 1), list.len() as int);
            let longer = list.insert(p, n - 1);
            assert forall|i: int| #[trigger] longer.contains(i) <==> i < n && c.parts_with(
                min_tasks,
                i,
            ) by {
                if list.contains(i) {
                    let a = choose|a: int| 0 <= a < list.len() && list[a] == i;
                    if a < p {
                        assert(longer[a] == i);
                    } else {
                        assert(longer[a + 1] == i);
                    }
                }
                assert(longer[p] == n - 1);
                if longer.contains(i) && i != n - 1 {
                    let a = choose|a: int| 0 <= a < longer.len() && longer[a] == i;
                    if a < p {
                        assert(list[a] == i);
                    } else {
                        assert(list[a - 1] == i);
                    }
                }
            }
            assert forall|a: int, b: int| 0 <= a < b < longer.len() implies c.outweighs(
                #[trigger] longer[a],
                #[trigger] longer[b],
            ) by {
                if a < p && b == p {
                    assert(list.contains(list[a]));
                } else if a == p {
                    assert(longer[b] == list[b - 1]);
                } else if b > p {
                    assert(longer[b] == list[b - 1]);
                    assert(a < p ==> longer[a] == list[a]);
                    assert(a > p ==> longer[a] == list[a - 1]);
                }
            }
            longer
        } else {
            list
        }
    }
}

/// The leaders of the components to part with can be listed.
pub proof fn lemma_partings_list(c: Community, min_tasks: u64)
    ensures
        c.lists_partings(min_tasks, c.partings(min_tasks)),
{
    let list = lemma_partings_up_to(c, min_tasks, c.members.len() as int);
    assert(c.lists_partings(min_tasks, list));
}

pub proof fn lemma_partings_unique(c: Community, min_tasks: u64, leaders: Seq<int>)
    requires
        c.lists_partings(min_tasks, leaders),
    ensures
        c.partings(min_tasks) == leaders,
{
    let other = c.partings(min_tasks);
    assert(c.lists_partings(min_tasks, other));
    lemma_sorted_unique(leaders, other, |i: int, j: int| c.outweighs(i, j));
}

fn is_leader(labels: &Vec<usize>, i: usize, Ghost(c): Ghost<Community>) -> (yes: bool)
    requires
        labels_components(labels@, c),
        i < labels@.len(),
    ensures
        yes == c.leads(i as int),
{
    let mut j: usize = 0;
    while j < i
        invariant
            j <= i < labels@.len(),
            labels_components(labels@, c),
            forall|k: int| 0 <= k < j ==> !#[trigger] c.linked(i as int, k),
        decreases i - j,
    {
        assert(labels@[i as int] == labels@[j as int] <==> c.linked(i as int, j as int));
        if labels[j] == labels[i] {
            return false;
        }
        j = j + 1;
    }
    true
}

/// Counts the tasks of the component of member `i`.
fn weigh(
    members: &[(u32, u64)],
    labels: &Vec<usize>,
    i: usize,
    Ghost(c): Ghost<Community>,
) -> (tasks: u64)
    requires
        labels_components(labels@, c),
        c.members == members@,
        i < labels@.len(),
        c.tasks() <= u64::MAX,
    ensures
        tasks == c.weight(i as int),
{
    let ghost n = members@.len() as int;
    let ghost f = |j: int|
        if c.linked(i as int, j) {
            c.members[j].1 as int
        } else {
            0
        };
    proof {
        lemma_total_le(n, f, |j: int| c.members[j].1 as int);
    }
    let mut tasks: u64 = 0;
    let mut k: usize = 0;
    while k < members.len()
        invariant
            k <= n,
            n == members@.len() == labels@.len(),
            i < labels@.len(),
            c.members == members@,
            labels_components(labels@, c),
            f == (|j: int|
                if c.linked(i as int, j) {
                    c.members[j].1 as int
                } else {
                    0
                }),
            tasks == total(k as int, f),
            total(n, f) <= u64::MAX,
        decreases n - k,
    {
        proof {
            lemma_total_monotone(k + 1, n, f);
            assert(labels@[i as int] == labels@[k as int] <==> c.linked(i as int, k as int));
        }
        if labels[k] == labels[i] {
            tasks = tasks + members[k].1;
        }
        k = k + 1;
    }
    tasks
}

/// `ranked` holds the leaders among the first `n` members with their weights,
/// heaviest first.
spec fn ranks(c: Community, ranked: Seq<(usize, u64)>, n: int) -> bool {
    &&& forall|a: int|
        0 <= a < ranked.len() ==> {
            &&& (#[trigger] ranked[a]).0 < n
            &&& c.leads(ranked[a].0 as int)
            &&& ranked[a].1 == c.weight(ranked[a].0 as int)
        }
    &&& forall|i: int|
        0 <= i < n && #[trigger] c.leads(i) ==> exists|a: int|
            0 <= a < ranked.len() && (#[trigger] ranked[a]).0 == i
    &&& forall|a: int, b: int|
        0 <= a < b < ranked.len() ==> c.outweighs(
            (#[trigger] ranked[a]).0 as int,
            (#[trigger] ranked[b]).0 as int,
        )
}

fn rank_leaders(
    members: &[(u32, u64)],
    labels: &Vec<usize>,
    Ghost(c): Ghost<Community>,
) -> (ranked: Vec<(usize, u64)>)
    requires
        labels_components(labels@, c),
        c.members == members@,
        c.tasks() <= u64::MAX,
    ensures
        ranks(c, ranked@, members@.len() as int),
{
    let mut ranked: Vec<(usize, u64)> = Vec::new();
    let mut i: usize = 0;
    while i < members.len()
        invariant
            i <= members@.len(),
            labels_components(labels@, c),
            c.members == members@,
            c.tasks() <= u64::MAX,
            ranks(c, ranked@, i as int),
        decreases members@.len() - i,
    {
        if is_leader(labels, i, Ghost(c)) {
            let tasks: u64 = weigh(members, labels, i, Ghost(c));
            let ghost before = ranked@;
            let mut p: usize = 0;
            while p < ranked.len() && ranked[p].1 >= tasks
                invariant
                    p <= ranked@.len(),
                    ranked@ == before,
                    forall|a: int| 0 <= a < p ==> (#[trigger] ranked@[a]).1 >= tasks,
                decreases ranked@.len() - p,
            {
                p = p + 1;
            }
            proof {
                assert forall|b: int| p <= b < before.len() implies (#[trigger] before[b]).1
                    < tasks by {
                    if b > p {
                        assert(c.outweighs(before[p as int].0 as int, before[b].0 as int));
                    }
                }
            }
            ranked.insert(p, (i, tasks));
            proof {
                let after = ranked@;
                assert forall|j: int| 0 <= j < i + 1 && #[trigger] c.leads(j) implies exists|
                    a: int,
                |
                    0 <= a < after.len() && (#[trigger] after[a]).0 == j by {
                    if j == i {
                        assert(after[p as int].0 == j);
                    } else {
                        let a = choose|a: int|
                            0 <= a < before.len() && (#[trigger] before[a]).0 == j;
                        if a < p {
                            assert(after[a].0 == j);
                        } else {
                            assert(after[a + 1].0 == j);
                        }
                    }
                }
                assert(ranks(c, after, i + 1));
            }
        }
        i = i + 1;
    }
    ranked
}

/// The tgids of the component of member `i`.
fn component_tgids(
    members: &[(u32, u64)],
    labels: &Vec<usize>,
    i: usize,
    Ghost(c): Ghost<Community>,
) -> (tgids: Vec<u32>)
    requires
        labels_components(labels@, c),
        c.members == members@,
        i < labels@.len(),
    ensures
        tgids@ == c.tgids(i as int),
{
    let mut tgids: Vec<u32> = Vec::new();
    let mut k: usize = 0;
    while k < members.len()
        invariant
            k <= members@.len(),
            i < labels@.len(),
            labels_components(labels@, c),
            c.members == members@,
            tgids@ == c.tgids_up_to(i as int, k as int),
        decreases members@.len() - k,
    {
        assert(labels@[i as int] == labels@[k as int] <==> c.linked(i as int, k as int));
        if labels[k] == labels[i] {
            tgids.push(members[k].0);
        }
        k = k + 1;
    }
    tgids
}

/// What the lists of tgids hold.
pub open spec fn contents(lists: Seq<Vec<u32>>) -> Seq<Seq<u32>> {
    Seq::new(lists.len(), |k: int| lists[k]@)
}

/// Whether the members fall into more than one component, by their labels.
pub(crate) fn is_apart(labels: &Vec<usize>, Ghost(c): Ghost<Community>) -> (yes: bool)
    requires
        labels_components(labels@, c),
    ensures
        yes == c.falls_apart(),
{
    let mut k: usize = 0;
    while k < labels.len()
        invariant
            k <= labels@.len(),
            labels_components(labels@, c),
            forall|i: int| 0 <= i < k ==> #[trigger] labels@[i] == labels@[0],
        decreases labels@.len() - k,
    {
        assert(labels@[0] == labels@[k as int] <==> c.linked(0, k as int));
        if labels[k] != labels[0] {
            return true;
        }
        k = k + 1;
    }
    proof {
        assert forall|i: int, j: int|
            0 <= i < c.members.len() && 0 <= j < c.members.len() implies #[trigger] c.linked(
            i,
            j,
        ) by {
            assert(labels@[i] == labels@[j]);
        }
    }
    false
}

/// Member `i` stands in `ranked`, between the first place and place `n`, with
/// at least `min_tasks` tasks.
spec fn taken(ranked: Seq<(usize, u64)>, n: int, min_tasks: u64, i: int) -> bool {
    exists|b: int|
        1 <= b < n && b < ranked.len() && (#[trigger] ranked[b]).0 == i && ranked[b].1 >= min_tasks
}

/// The components to part with: all but the largest, those of at least
/// `min_tasks` tasks, largest first.
pub(crate) fn split_off(
    members: &[(u32, u64)],
    labels: &Vec<usize>,
    min_tasks: u64,
    Ghost(c): Ghost<Community>,
) -> (parts: Vec<Vec<u32>>)
    requires
        labels_components(labels@, c),
        c.members == members@,
        c.tasks() <= u64::MAX,
    ensures
        contents(parts@) == c.split_off(min_tasks),
{
    let ranked = rank_leaders(members, labels, Ghost(c));
    let mut parts: Vec<Vec<u32>> = Vec::new();
    let ghost mut leaders: Seq<int> = seq![];
    let mut a: usize = 1;
    while a < ranked.len()
        invariant
            1 <= a,
            a <= ranked@.len() || ranked@.len() == 0,
            labels_components(labels@, c),
            c.members == members@,
            ranks(c, ranked@, members@.len() as int),
            leaders.len() == parts@.len(),
            forall|k: int| 0 <= k < leaders.len() ==> (#[trigger] parts@[k])@ == c.tgids(leaders[k]),
            forall|k: int|
                0 <= k < leaders.len() ==> taken(ranked@, a as int, min_tasks, #[trigger] leaders[k]),
            forall|b: int|
                1 <= b < a && b < ranked@.len() && (#[trigger] ranked@[b]).1 >= min_tasks
                    ==> leaders.contains(ranked@[b].0 as int),
            forall|j: int, k: int|
                0 <= j < k < leaders.len() ==> c.outweighs(
                    #[trigger] leaders[j],
                    #[trigger] leaders[k],
                ),
        decreases ranked@.len() - a,
    {
        if ranked[a].1 >= min_tasks {
            let ghost old_leaders = leaders;
            let (leader, _tasks) = ranked[a];
            let tgids = component_tgids(members, labels, leader, Ghost(c));
            parts.push(tgids);
            proof {
                leaders = leaders.push(leader as int);
                assert forall|k: int| 0 <= k < leaders.len() implies taken(
                    ranked@,
                    a + 1,
                    min_tasks,
                    #[trigger] leaders[k],
                ) by {
                    if k < old_leaders.len() {
                        assert(leaders[k] == old_leaders[k]);
                        assert(taken(ranked@, a as int, min_tasks, old_leaders[k]));
                    } else {
                        assert(ranked@[a as int].0 == leaders[k]);
                    }
                }
                assert forall|b: int|
                    1 <= b < a + 1 && b < ranked@.len() && (#[trigger] ranked@[b]).1
                        >= min_tasks implies leaders.contains(ranked@[b].0 as int) by {
                    if b < a {
                        let k = choose|k: int|
                            0 <= k < old_leaders.len() && old_leaders[k] == ranked@[b].0;
                        assert(leaders[k] == ranked@[b].0);
                    } else {
                        assert(leaders[leaders.len() - 1] == ranked@[b].0);
                    }
                }
                assert forall|j: int, k: int| 0 <= j < k < leaders.len() implies c.outweighs(
                    #[trigger] leaders[j],
                    #[trigger] leaders[k],
                ) by {
                    assert(leaders[j] == old_leaders[j]);
                    if k < old_leaders.len() {
                        assert(leaders[k] == old_leaders[k]);
                    } else {
                        let b = choose|b: int|
                            1 <= b < a && b < ranked@.len() && (#[trigger] ranked@[b]).0
                                == old_leaders[j] && ranked@[b].1 >= min_tasks;
                        assert(c.outweighs(ranked@[b].0 as int, ranked@[a as int].0 as int));
                    }
                }
            }
        }
        proof {
            assert forall|k: int| 0 <= k < leaders.len() implies taken(
                ranked@,
                a + 1,
                min_tasks,
                #[trigger] leaders[k],
            ) by {
                assert(taken(ranked@, a as int, min_tasks, leaders[k]) || taken(
                    ranked@,
                    a + 1,
                    min_tasks,
                    leaders[k],
                ));
            }
        }
        a = a + 1;
    }
    proof {
        assert forall|i: int| #[trigger] leaders.contains(i) <==> c.parts_with(min_tasks, i) by {
            if leaders.contains(i) {
                let k = choose|k: int| 0 <= k < leaders.len() && leaders[k] == i;
                assert(leaders[k] == i);
                let b = choose|b: int|
                    1 <= b < a && b < ranked@.len() && (#[trigger] ranked@[b]).0 == leaders[k]
                        && ranked@[b].1 >= min_tasks;
                assert(c.outweighs(ranked@[0].0 as int, ranked@[b].0 as int));
                assert(c.leads(ranked@[0].0 as int));
            }
            if c.parts_with(min_tasks, i) {
                let b = choose|b: int| 0 <= b < ranked@.len() && (#[trigger] ranked@[b]).0 == i;
                let j = choose|j: int| #[trigger] c.leads(j) && c.outweighs(j, i);
                let d = choose|d: int| 0 <= d < ranked@.len() && (#[trigger] ranked@[d]).0 == j;
                if b == 0 && d > 0 {
                    assert(c.outweighs(ranked@[b].0 as int, ranked@[d].0 as int));
                }
                assert(leaders.contains(ranked@[b].0 as int));
            }
        }
        lemma_partings_unique(c, min_tasks, leaders);
        assert(contents(parts@) =~= c.split_off(min_tasks));
    }
    parts
}

} // verus!
