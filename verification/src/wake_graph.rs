//! Wake-edge analysis: turns sampled (waker tgid, wakee tgid) counters into
//! cohort merges and splits. The caller feeds per-tick counter deltas and the
//! current tgid to cohort mapping, and applies the returned plans.
//!
//! Hysteresis in both directions: a merge needs the cross-cohort wake rate to
//! stay above threshold for `merge_confirm_ticks` consecutive ticks (a burst
//! can't join strangers), and a split needs a cohort's internal wake graph to
//! stay disconnected for `split_confirm_ticks` ticks after edge rates have
//! decayed (a momentary lull can't shatter a real cohort).
//!
//! A wake rate is held as its rank: an integer that orders as the rate does
//! (see [`rate_rank`]). Decisions only compare rates; how a tick's traffic
//! moves a rate is the caller's averaging function.
use std::collections::{BTreeMap, HashMap, HashSet};

use vstd::prelude::*;

use crate::arith::{
    lemma_total_ext, lemma_total_monotone, lemma_total_nonneg, lemma_total_zero, total,
};
use crate::components::{
    community, contents, is_apart, label_components, split_off, Community,
};
use crate::ordered::{
    in_order, lemma_in_order_unique, lists_in_order, sorted_hash_keys, sorted_keys,
};

verus! {

// ---- Rates ----

/// The rank of the rate whose IEEE 754 double has the bit pattern `bits`:
/// ranks order as the doubles do.
pub open spec fn rank_of(bits: u64) -> u64 {
    if bits < 0x8000_0000_0000_0000 {
        (bits + 0x8000_0000_0000_0000) as u64
    } else {
        (u64::MAX - bits) as u64
    }
}

/// The bit pattern whose rank is `rank`.
pub open spec fn bits_of(rank: u64) -> u64 {
    if rank >= 0x8000_0000_0000_0000 {
        (rank - 0x8000_0000_0000_0000) as u64
    } else {
        (u64::MAX - rank) as u64
    }
}

/// The rank of a rate, from the bit pattern of its double.
pub fn rate_rank(bits: u64) -> (rank: u64)
    ensures
        rank == rank_of(bits),
{
    if bits < 0x8000_0000_0000_0000 {
        bits + 0x8000_0000_0000_0000
    } else {
        u64::MAX - bits
    }
}

/// The bit pattern of a rate's double, from its rank.
pub fn rate_bits(rank: u64) -> (bits: u64)
    ensures
        bits == bits_of(rank),
{
    if rank >= 0x8000_0000_0000_0000 {
        rank - 0x8000_0000_0000_0000
    } else {
        u64::MAX - rank
    }
}

// ---- Types ----

#[derive(Debug, Clone, Copy)]
pub struct WakeGraphCfg {
    /// Cross-cohort wake rate (rank; wakes/sec, sample-compensated) that
    /// triggers a merge.
    pub merge_wakes_per_sec: u64,
    /// Consecutive over-threshold ticks required to merge.
    pub merge_confirm_ticks: u32,
    /// An intra-cohort edge below this rate (rank) no longer counts as
    /// connecting its endpoints.
    pub split_min_wakes_per_sec: u64,
    /// An edge below this rate (rank) is noise and is dropped: a tenth of the
    /// rate that connects.
    pub drop_wakes_per_sec: u64,
    /// Consecutive disconnected ticks required to split.
    pub split_confirm_ticks: u32,
    /// Don't split off a component with fewer tasks than this.
    pub split_min_tasks: u64,
}

/// The rank of 300 wakes per second.
pub const RANK_300: u64 = 0xC072_C000_0000_0000;

/// The rank of 10 wakes per second.
pub const RANK_10: u64 = 0xC024_0000_0000_0000;

/// The rank of 1 wake per second.
pub const RANK_1: u64 = 0xBFF0_0000_0000_0000;

/// The rank of zero.
pub const RANK_0: u64 = 0x8000_0000_0000_0000;

impl Default for WakeGraphCfg {
    fn default() -> (cfg: Self)
        ensures
            cfg.merge_wakes_per_sec == RANK_300,
            cfg.merge_confirm_ticks == 3,
            cfg.split_min_wakes_per_sec == RANK_10,
            cfg.drop_wakes_per_sec == RANK_1,
            cfg.split_confirm_ticks == 25,
            cfg.split_min_tasks == 2,
    {
        WakeGraphCfg {
            merge_wakes_per_sec: RANK_300,
            merge_confirm_ticks: 3,
            split_min_wakes_per_sec: RANK_10,
            drop_wakes_per_sec: RANK_1,
            split_confirm_ticks: 25,
            split_min_tasks: 2,
        }
    }
}

#[derive(Debug, Clone, Copy, PartialEq, Eq, Structural)]
pub struct MergePlan {
    /// Cohort that absorbs the other (the one with more tasks).
    pub into: u64,
    pub from: u64,
}

#[derive(Debug, Clone, PartialEq, Eq)]
pub struct SplitPlan {
    pub cohort: u64,
    /// tgids of the component to split off into a fresh cohort.
    pub off_tgids: Vec<u32>,
}

/// What a split plan says.
pub struct Split {
    pub cohort: u64,
    pub off_tgids: Seq<u32>,
}

impl View for SplitPlan {
    type V = Split;

    open spec fn view(&self) -> Split {
        Split { cohort: self.cohort, off_tgids: self.off_tgids@ }
    }
}

/// What averaging makes of an edge in one tick, as ranks.
#[derive(Debug, Clone, Copy, PartialEq, Eq, Structural)]
pub struct EdgeRate {
    /// Moving average of the wake rate.
    pub rate: u64,
    /// This tick's instantaneous rate.
    pub inst: u64,
}

#[derive(Debug, Clone, Copy, PartialEq, Eq, Structural)]
pub struct EdgeState {
    /// Moving average of the wake rate (rank).
    pub rate: u64,
    /// This tick's instantaneous rate (rank). The merge confirmation counter
    /// advances only on ticks with real over-threshold traffic, so the
    /// average's memory of a burst can't accumulate confirmation on its own.
    pub inst: u64,
    pub over_ticks: u32,
}

#[derive(Debug)]
pub struct WakeGraph {
    cfg: WakeGraphCfg,
    edges: BTreeMap<u64, EdgeState>,
    /// cohort to consecutive ticks its wake graph has been disconnected.
    split_streak: BTreeMap<u64, u32>,
}

/// What a wake graph holds: edges by packed key, and the disconnected
/// cohorts' streaks.
pub struct WakeState {
    pub cfg: WakeGraphCfg,
    pub edges: Map<u64, EdgeState>,
    pub split_streak: Map<u64, u32>,
}

impl WakeState {
    /// No streak has reached the length at which the cohort splits.
    pub open spec fn wf(self) -> bool {
        forall|cohort: u64| #[trigger]
            self.split_streak.dom().contains(cohort) ==> self.split_streak[cohort]
                < self.cfg.split_confirm_ticks
    }
}

impl View for WakeGraph {
    type V = WakeState;

    closed spec fn view(&self) -> WakeState {
        WakeState { cfg: self.cfg, edges: self.edges@, split_streak: self.split_streak@ }
    }
}

// ---- Edge keys ----

/// The two tgids in sorted order.
pub open spec fn ends(a: u32, b: u32) -> (u32, u32) {
    if a < b {
        (a, b)
    } else {
        (b, a)
    }
}

/// A pair of tgids packed into one integer, the first in the upper half.
pub open spec fn packed(p: (u32, u32)) -> u64 {
    (p.0 * 0x1_0000_0000 + p.1) as u64
}

/// The pair that `key` packs.
pub open spec fn unpacked(key: u64) -> (u32, u32) {
    ((key / 0x1_0000_0000) as u32, (key % 0x1_0000_0000) as u32)
}

/// The key of the undirected edge between `a` and `b`.
pub open spec fn edge_key(a: u32, b: u32) -> u64 {
    packed(ends(a, b))
}

pub proof fn lemma_packed(p: (u32, u32))
    ensures
        packed(p) == p.0 * 0x1_0000_0000 + p.1,
        unpacked(packed(p)) == p,
{
}

pub proof fn lemma_unpacked(key: u64)
    ensures
        packed(unpacked(key)) == key,
{
}

/// An undirected edge key: tgids in sorted order.
pub fn ekey(a: u32, b: u32) -> (pair: (u32, u32))
    ensures
        pair == ends(a, b),
{
    if a < b {
        (a, b)
    } else {
        (b, a)
    }
}

pub fn pack(pair: (u32, u32)) -> (key: u64)
    ensures
        key == packed(pair),
{
    let (a, b) = pair;
    (a as u64) * 0x1_0000_0000 + (b as u64)
}

fn unpack(key: u64) -> (pair: (u32, u32))
    ensures
        pair == unpacked(key),
{
    ((key / 0x1_0000_0000) as u32, (key % 0x1_0000_0000) as u32)
}


// ---- Observing a tick's traffic ----

/// The value of `key`, if there is one.
pub open spec fn lookup<V>(m: Map<u64, V>, key: u64) -> Option<V> {
    if m.dom().contains(key) {
        Some(m[key])
    } else {
        None
    }
}

/// The edge between the two tgids of a counter delta.
pub open spec fn delta_key(d: (u32, u32, u64)) -> u64 {
    edge_key(d.0, d.1)
}

/// Some delta counts wakes on the edge.
pub open spec fn seen(deltas: Seq<(u32, u32, u64)>, key: u64) -> bool {
    exists|i: int| 0 <= i < deltas.len() && delta_key(#[trigger] deltas[i]) == key
}

/// The wakes on the edge, compensated for sampling.
pub open spec fn traffic(deltas: Seq<(u32, u32, u64)>, sample_mult: u64, key: u64) -> int {
    total(
        deltas.len() as int,
        |i: int|
            if delta_key(deltas[i]) == key {
                deltas[i].2 * sample_mult
            } else {
                0
            },
    )
}

/// The compensated wake counts fit in 64 bits.
pub open spec fn traffic_fits(deltas: Seq<(u32, u32, u64)>, sample_mult: u64) -> bool {
    forall|key: u64| #[trigger] traffic(deltas, sample_mult, key) <= u64::MAX
}

/// The rate that an edge had, if it was known.
pub open spec fn known_rate(before: Option<EdgeState>) -> Option<u64> {
    match before {
        Some(st) => Some(st.rate),
        None => None,
    }
}

/// The edge with its new rates, its confirmation count kept; dropped if its
/// rate is noise.
pub open spec fn with_rates(
    cfg: WakeGraphCfg,
    before: Option<EdgeState>,
    r: EdgeRate,
) -> Option<EdgeState> {
    if r.rate < cfg.drop_wakes_per_sec {
        None
    } else {
        let over_ticks = match before {
            Some(st) => st.over_ticks,
            None => 0,
        };
        Some(EdgeState { rate: r.rate, inst: r.inst, over_ticks })
    }
}

/// `after` is what becomes of an edge on which `count` wakes were seen, with
/// rates that `blend` gave.
pub open spec fn blended<F: Fn(Option<u64>, u64) -> EdgeRate>(
    blend: F,
    cfg: WakeGraphCfg,
    before: Option<EdgeState>,
    count: int,
    after: Option<EdgeState>,
) -> bool {
    exists|r: EdgeRate|
        call_ensures(blend, (known_rate(before), count as u64), r) && after
            == #[trigger] with_rates(cfg, before, r)
}

/// How one tick's deltas change the edges: each known edge and each edge with
/// traffic is averaged anew.
pub open spec fn observed<F: Fn(Option<u64>, u64) -> EdgeRate>(
    blend: F,
    cfg: WakeGraphCfg,
    deltas: Seq<(u32, u32, u64)>,
    sample_mult: u64,
    before: Map<u64, EdgeState>,
    after: Map<u64, EdgeState>,
) -> bool {
    forall|key: u64|
        #![trigger after.dom().contains(key)]
        if before.dom().contains(key) || seen(deltas, key) {
            blended(
                blend,
                cfg,
                lookup(before, key),
                traffic(deltas, sample_mult, key),
                lookup(after, key),
            )
        } else {
            !after.dom().contains(key)
        }
}

/// Time has passed since the tick before: `dt_s`, the rank of the seconds, is
/// above that of zero.
pub open spec fn time_passed(dt_s: u64) -> bool {
    dt_s > RANK_0
}

/// Sums the deltas by edge, unless an edge's sum is too big for 64 bits.
fn count_traffic(deltas: &[(u32, u32, u64)], sample_mult: u64) -> (sums: Option<
    BTreeMap<u64, u64>,
>)
    ensures
        sums is Some <==> traffic_fits(deltas@, sample_mult),
        sums matches Some(fresh) ==> {
            &&& forall|key: u64| #[trigger] fresh@.dom().contains(key) <==> seen(deltas@, key)
            &&& forall|key: u64| #[trigger]
                fresh@.dom().contains(key) ==> fresh@[key] == traffic(deltas@, sample_mult, key)
        },
{
    let mut fresh: BTreeMap<u64, u64> = BTreeMap::new();
    let ghost n = deltas@.len() as int;
    let mut i: usize = 0;
    while i < deltas.len()
        invariant
            n == deltas@.len(),
            i <= n,
            forall|key: u64| #[trigger]
                fresh@.dom().contains(key) <==> seen(deltas@.take(i as int), key),
            forall|key: u64| #[trigger]
                fresh@.dom().contains(key) ==> fresh@[key] == traffic(
                    deltas@.take(i as int),
                    sample_mult,
                    key,
                ),
        decreases n - i,
    {
        let d: (u32, u32, u64) = deltas[i];
        let key: u64 = pack(ekey(d.0, d.1));
        proof {
            lemma_traffic_step(deltas@, sample_mult, i as int, key);
            lemma_traffic_prefix(deltas@, sample_mult, i + 1, key);
            lemma_traffic_nonneg(deltas@.take(i as int), sample_mult, key);
        }
        let sofar: u64 = match fresh.get(&key) {
            Some(c) => *c,
            None => 0,
        };
        assert(sofar == traffic(deltas@.take(i as int), sample_mult, key)) by {
            if !fresh@.dom().contains(key) {
                lemma_unseen(deltas@.take(i as int), sample_mult, key);
            }
        }
        let wakes: u64 = match d.2.checked_mul(sample_mult) {
            Some(w) => w,
            None => {
                assert(traffic(deltas@, sample_mult, key) > u64::MAX);
                return None;
            },
        };
        let sum: u64 = match sofar.checked_add(wakes) {
            Some(w) => w,
            None => {
                assert(traffic(deltas@, sample_mult, key) > u64::MAX);
                return None;
            },
        };
        let ghost before = fresh@;
        fresh.insert(key, sum);
        proof {
            assert forall|k: u64| #[trigger] fresh@.dom().contains(k) <==> seen(
                deltas@.take(i + 1),
                k,
            ) by {
                lemma_traffic_step(deltas@, sample_mult, i as int, k);
                assert(before.dom().contains(k) <==> seen(deltas@.take(i as int), k));
            }
            assert forall|k: u64| #[trigger] fresh@.dom().contains(k) implies fresh@[k] == traffic(
                deltas@.take(i + 1),
                sample_mult,
                k,
            ) by {
                lemma_traffic_step(deltas@, sample_mult, i as int, k);
            }
        }
        i = i + 1;
    }
    proof {
        assert(deltas@.take(n) =~= deltas@);
        assert forall|key: u64| #[trigger] traffic(deltas@, sample_mult, key) <= u64::MAX by {
            if fresh@.dom().contains(key) {
                assert(fresh@[key] == traffic(deltas@, sample_mult, key));
            } else {
                lemma_unseen(deltas@, sample_mult, key);
            }
        }
    }
    Some(fresh)
}

/// Do the compensated wake counts of every edge fit in 64 bits?
pub fn deltas_fit(deltas: &[(u32, u32, u64)], sample_mult: u64) -> (yes: bool)
    ensures
        yes <==> traffic_fits(deltas@, sample_mult),
{
    count_traffic(deltas, sample_mult).is_some()
}

proof fn lemma_traffic_nonneg(deltas: Seq<(u32, u32, u64)>, sample_mult: u64, key: u64)
    ensures
        traffic(deltas, sample_mult, key) >= 0,
{
    let f = |i: int|
        if delta_key(deltas[i]) == key {
            deltas[i].2 * sample_mult
        } else {
            0
        };
    assert forall|i: int| 0 <= i < deltas.len() implies #[trigger] f(i) >= 0 by {
        assert(0 <= deltas[i].2 * sample_mult) by (nonlinear_arith);
    }
    lemma_total_nonneg(deltas.len() as int, f);
}

/// One more delta adds to its own edge.
pub proof fn lemma_traffic_step(deltas: Seq<(u32, u32, u64)>, sample_mult: u64, i: int, key: u64)
    requires
        0 <= i < deltas.len(),
    ensures
        traffic(deltas.take(i + 1), sample_mult, key) == traffic(deltas.take(i), sample_mult, key)
            + (if delta_key(deltas[i]) == key {
            deltas[i].2 * sample_mult
        } else {
            0
        }),
        seen(deltas.take(i + 1), key) <==> (seen(deltas.take(i), key) || delta_key(deltas[i])
            == key),
{
    let t = deltas.take(i);
    let u = deltas.take(i + 1);
    let f = |j: int|
        if delta_key(t[j]) == key {
            t[j].2 * sample_mult
        } else {
            0
        };
    let g = |j: int|
        if delta_key(u[j]) == key {
            u[j].2 * sample_mult
        } else {
            0
        };
    assert forall|j: int| 0 <= j < i implies #[trigger] f(j) == g(j) by {
        assert(t[j] == u[j]);
    }
    lemma_total_ext(i, f, g);
    assert(u[i] == deltas[i]);
    if seen(t, key) {
        let j = choose|j: int| 0 <= j < t.len() && delta_key(#[trigger] t[j]) == key;
        assert(u[j] == t[j]);
    }
    if seen(u, key) {
        let j = choose|j: int| 0 <= j < u.len() && delta_key(#[trigger] u[j]) == key;
        if j < i {
            assert(t[j] == u[j]);
        }
    }
}

/// A prefix of the deltas carries no more traffic than all of them.
proof fn lemma_traffic_prefix(deltas: Seq<(u32, u32, u64)>, sample_mult: u64, n: int, key: u64)
    requires
        0 <= n <= deltas.len(),
    ensures
        traffic(deltas.take(n), sample_mult, key) <= traffic(deltas, sample_mult, key),
{
    let t = deltas.take(n);
    let f = |j: int|
        if delta_key(t[j]) == key {
            t[j].2 * sample_mult
        } else {
            0
        };
    let g = |j: int|
        if delta_key(deltas[j]) == key {
            deltas[j].2 * sample_mult
        } else {
            0
        };
    assert forall|j: int| 0 <= j < n implies #[trigger] f(j) == g(j) by {
        assert(t[j] == deltas[j]);
    }
    lemma_total_ext(n, f, g);
    assert forall|j: int| 0 <= j < deltas.len() implies #[trigger] g(j) >= 0 by {
        assert(0 <= deltas[j].2 * sample_mult) by (nonlinear_arith);
    }
    lemma_total_monotone(n, deltas.len() as int, g);
}

/// An edge that no delta counts has no traffic.
proof fn lemma_unseen(deltas: Seq<(u32, u32, u64)>, sample_mult: u64, key: u64)
    requires
        !seen(deltas, key),
    ensures
        traffic(deltas, sample_mult, key) == 0,
{
    let f = |i: int|
        if delta_key(deltas[i]) == key {
            deltas[i].2 * sample_mult
        } else {
            0
        };
    lemma_total_ext(deltas.len() as int, f, |i: int| 0int);
    lemma_total_zero(deltas.len() as int);
}

impl WakeGraph {
    pub fn new(cfg: WakeGraphCfg) -> (g: Self)
        ensures
            g@.cfg == cfg,
            g@.edges == Map::<u64, EdgeState>::empty(),
            g@.split_streak == Map::<u64, u32>::empty(),
            g@.wf(),
    {
        WakeGraph { cfg, edges: BTreeMap::new(), split_streak: BTreeMap::new() }
    }

    /// The averaged wake rate (rank) between two tgids, while the edge lives.
    pub fn edge_rate(&self, a: u32, b: u32) -> (rate: Option<u64>)
        ensures
            rate == known_rate(lookup(self@.edges, edge_key(a, b))),
    {
        let key = pack(ekey(a, b));
        match self.edges.get(&key) {
            Some(st) => Some(st.rate),
            None => None,
        }
    }

    /// Fold one tick's sampled counter deltas into the edge rates: `blend`
    /// averages a known edge's rate (`None` for a new edge) with this tick's
    /// wake count. `sample_mult` compensates for sampling. Edges decayed to
    /// noise are dropped entirely. `dt_s` is the rank of the seconds since the
    /// tick before: where no time has passed there are no rates, and nothing
    /// changes.
    pub fn observe<F: Fn(Option<u64>, u64) -> EdgeRate>(
        &mut self,
        deltas: &[(u32, u32, u64)],
        dt_s: u64,
        sample_mult: u64,
        blend: F,
    )
        requires
            time_passed(dt_s) ==> traffic_fits(deltas@, sample_mult),
            forall|known: Option<u64>, count: u64| call_requires(blend, (known, count)),
        ensures
            final(self)@.cfg == old(self)@.cfg,
            final(self)@.split_streak == old(self)@.split_streak,
            old(self)@.wf() ==> final(self)@.wf(),
            !time_passed(dt_s) ==> final(self)@ == old(self)@,
            time_passed(dt_s) ==> observed(
                blend,
                old(self)@.cfg,
                deltas@,
                sample_mult,
                old(self)@.edges,
                final(self)@.edges,
            ),
    {
        if dt_s <= RANK_0 {
            return;
        }
        let fresh = match count_traffic(deltas, sample_mult) {
            Some(fresh) => fresh,
            None => BTreeMap::new(),
        };
        let mut next: BTreeMap<u64, EdgeState> = BTreeMap::new();
        let known = sorted_keys(&self.edges);
        let mut i: usize = 0;
        while i < known.len()
            invariant
                i <= known@.len(),
                lists_in_order(known@, self.edges@.dom()),
                forall|key: u64| #[trigger] fresh@.dom().contains(key) <==> seen(deltas@, key),
                forall|key: u64| #[trigger]
                    fresh@.dom().contains(key) ==> fresh@[key] == traffic(
                        deltas@,
                        sample_mult,
                        key,
                    ),
                forall|known: Option<u64>, count: u64| call_requires(blend, (known, count)),
                forall|j: int|
                    0 <= j < i ==> blended(
                        blend,
                        self.cfg,
                        lookup(self.edges@, #[trigger] known@[j]),
                        traffic(deltas@, sample_mult, known@[j]),
                        lookup(next@, known@[j]),
                    ),
                forall|key: u64| #[trigger]
                    next@.dom().contains(key) ==> known@.take(i as int).contains(key),
            decreases known@.len() - i,
        {
            let key: u64 = known[i];
            assert(known@.contains(key));
            let st: EdgeState = match self.edges.get(&key) {
                Some(st) => *st,
                None => EdgeState { rate: 0, inst: 0, over_ticks: 0 },
            };
            let count: u64 = match fresh.get(&key) {
                Some(c) => *c,
                None => 0,
            };
            proof {
                if !fresh@.dom().contains(key) {
                    lemma_unseen(deltas@, sample_mult, key);
                }
            }
            let r = blend(Some(st.rate), count);
            let ghost before = next@;
            if r.rate >= self.cfg.drop_wakes_per_sec {
                next.insert(
                    key,
                    EdgeState { rate: r.rate, inst: r.inst, over_ticks: st.over_ticks },
                );
            }
            proof {
                assert(!before.dom().contains(key)) by {
                    if before.dom().contains(key) {
                        let t = known@.take(i as int);
                        let j = choose|j: int| 0 <= j < t.len() && t[j] == key;
                        assert(known@[j] < known@[i as int]);
                    }
                }
                assert(lookup(next@, key) == with_rates(self.cfg, Some(st), r));
                assert forall|k: u64| #[trigger] next@.dom().contains(k) implies known@.take(
                    i + 1,
                ).contains(k) by {
                    if k == key {
                        assert(known@.take(i + 1)[i as int] == k);
                    } else {
                        let t = known@.take(i as int);
                        assert(before.dom().contains(k));
                        let j = choose|j: int| 0 <= j < t.len() && t[j] == k;
                        assert(known@.take(i + 1)[j] == k);
                    }
                }
            }
            i = i + 1;
        }
        assert(known@.take(known@.len() as int) =~= known@);
        let added = sorted_keys(&fresh);
        let ghost kept = next@;
        let mut i: usize = 0;
        while i < added.len()
            invariant
                i <= added@.len(),
                lists_in_order(added@, fresh@.dom()),
                forall|key: u64| #[trigger] fresh@.dom().contains(key) <==> seen(deltas@, key),
                forall|key: u64| #[trigger]
                    fresh@.dom().contains(key) ==> fresh@[key] == traffic(
                        deltas@,
                        sample_mult,
                        key,
                    ),
                forall|known: Option<u64>, count: u64| call_requires(blend, (known, count)),
                forall|key: u64| #[trigger]
                    self.edges@.dom().contains(key) ==> lookup(next@, key) == lookup(kept, key),
                forall|j: int|
                    0 <= j < i && !self.edges@.dom().contains(#[trigger] added@[j]) ==> blended(
                        blend,
                        self.cfg,
                        None,
                        traffic(deltas@, sample_mult, added@[j]),
                        lookup(next@, added@[j]),
                    ),
                forall|key: u64| #[trigger]
                    next@.dom().contains(key) ==> self.edges@.dom().contains(key) || added@.take(
                        i as int,
                    ).contains(key),
            decreases added@.len() - i,
        {
            let key: u64 = added[i];
            assert(added@.contains(key));
            let ghost before = next@;
            proof {
                assert(before.dom().contains(key) ==> self.edges@.dom().contains(key)) by {
                    if before.dom().contains(key) && !self.edges@.dom().contains(key) {
                        let t = added@.take(i as int);
                        let j = choose|j: int| 0 <= j < t.len() && t[j] == key;
                        assert(added@[j] < added@[i as int]);
                    }
                }
            }
            if !self.edges.contains_key(&key) {
                let count: u64 = match fresh.get(&key) {
                    Some(c) => *c,
                    None => 0,
                };
                let r = blend(None, count);
                if r.rate >= self.cfg.drop_wakes_per_sec {
                    next.insert(key, EdgeState { rate: r.rate, inst: r.inst, over_ticks: 0 });
                }
                assert(lookup(next@, key) == with_rates(self.cfg, None, r));
                assert(blended(
                    blend,
                    self.cfg,
                    None,
                    traffic(deltas@, sample_mult, key),
                    lookup(next@, key),
                ));
            }
            proof {
                assert forall|k: u64| #[trigger]
                    next@.dom().contains(k) implies self.edges@.dom().contains(k) || added@.take(
                    i + 1,
                ).contains(k) by {
                    if k == key {
                        assert(added@.take(i + 1)[i as int] == k);
                    } else if !self.edges@.dom().contains(k) {
                        let t = added@.take(i as int);
                        assert(before.dom().contains(k));
                        let j = choose|j: int| 0 <= j < t.len() && t[j] == k;
                        assert(added@.take(i + 1)[j] == k);
                    }
                }
            }
            i = i + 1;
        }
        proof {
            assert(added@.take(added@.len() as int) =~= added@);
            assert forall|key: u64|
                #![trigger next@.dom().contains(key)]
                if self.edges@.dom().contains(key) || seen(deltas@, key) {
                    blended(
                        blend,
                        self.cfg,
                        lookup(self.edges@, key),
                        traffic(deltas@, sample_mult, key),
                        lookup(next@, key),
                    )
                } else {
                    !next@.dom().contains(key)
                } by {
                if self.edges@.dom().contains(key) {
                    assert(known@.contains(key));
                    let j = choose|j: int| 0 <= j < known@.len() && known@[j] == key;
                    assert(lookup(next@, key) == lookup(kept, key));
                } else if seen(deltas@, key) {
                    assert(fresh@.dom().contains(key));
                    assert(added@.contains(key));
                    let j = choose|j: int| 0 <= j < added@.len() && added@[j] == key;
                } else if next@.dom().contains(key) {
                    assert(added@.contains(key));
                }
            }
        }
        self.edges = next;
    }
}


// ---- Merging ----

/// What the choice of merges reads in one tick.
pub struct MergeTick {
    pub cfg: WakeGraphCfg,
    pub edges: Map<u64, EdgeState>,
    pub tgid_cohort: Map<u32, u64>,
    pub cohort_sizes: Map<u64, u64>,
}

impl MergeTick {
    /// Both ends of the edge belong to a cohort.
    pub open spec fn mapped(self, key: u64) -> bool {
        let (a, b) = unpacked(key);
        self.tgid_cohort.dom().contains(a) && self.tgid_cohort.dom().contains(b)
    }

    /// The cohort of the edge's first end.
    pub open spec fn first(self, key: u64) -> u64 {
        self.tgid_cohort[unpacked(key).0]
    }

    /// The cohort of the edge's second end.
    pub open spec fn second(self, key: u64) -> u64 {
        self.tgid_cohort[unpacked(key).1]
    }

    /// The edge joins two cohorts, and both its average and this tick's rate
    /// reach the merge threshold.
    pub open spec fn hot(self, key: u64) -> bool {
        &&& self.edges.dom().contains(key)
        &&& self.mapped(key)
        &&& self.first(key) != self.second(key)
        &&& self.edges[key].rate >= self.cfg.merge_wakes_per_sec
        &&& self.edges[key].inst >= self.cfg.merge_wakes_per_sec
    }

    /// The edge has been hot for enough ticks, this one counted.
    pub open spec fn due(self, key: u64) -> bool {
        self.hot(key) && self.edges[key].over_ticks + 1 >= self.cfg.merge_confirm_ticks
    }

    pub open spec fn size(self, cohort: u64) -> u64 {
        if self.cohort_sizes.dom().contains(cohort) {
            self.cohort_sizes[cohort]
        } else {
            0
        }
    }

    /// The smaller of the edge's cohorts joins the bigger one.
    pub open spec fn merge_along(self, key: u64) -> MergePlan {
        let a = self.first(key);
        let b = self.second(key);
        if self.size(a) >= self.size(b) {
            MergePlan { into: a, from: b }
        } else {
            MergePlan { into: b, from: a }
        }
    }

    /// The edges in the order in which they are considered.
    pub open spec fn order(self) -> Seq<u64> {
        in_order(self.edges.dom())
    }

    /// The cohorts that a merge along one of the first `n` edges involves.
    pub open spec fn busy(self, n: int) -> Set<u64>
        decreases n, 0int,
    {
        if n <= 0 {
            Set::empty()
        } else if self.merges_at(n - 1) {
            let key = self.order()[n - 1];
            self.busy(n - 1).insert(self.first(key)).insert(self.second(key))
        } else {
            self.busy(n - 1)
        }
    }

    /// The `n`th edge is due, and no earlier merge involves its cohorts.
    pub open spec fn merges_at(self, n: int) -> bool
        decreases n, 1int,
    {
        if n < 0 {
            false
        } else {
            let key = self.order()[n];
            &&& self.due(key)
            &&& !self.busy(n).contains(self.first(key))
            &&& !self.busy(n).contains(self.second(key))
        }
    }

    /// The merges along the first `n` edges.
    pub open spec fn plans(self, n: int) -> Seq<MergePlan>
        decreases n,
    {
        if n <= 0 {
            seq![]
        } else if self.merges_at(n - 1) {
            self.plans(n - 1).push(self.merge_along(self.order()[n - 1]))
        } else {
            self.plans(n - 1)
        }
    }

    /// The tick merges along the edge.
    pub open spec fn merges_along(self, key: u64) -> bool {
        exists|n: int| 0 <= n < self.order().len() && self.order()[n] == key && self.merges_at(n)
    }

    /// How long the edge has been hot after the tick. An edge with an end in
    /// no cohort keeps its count.
    pub open spec fn count_after(self, key: u64) -> u32 {
        if !self.mapped(key) {
            self.edges[key].over_ticks
        } else if !self.hot(key) || self.merges_along(key) {
            0
        } else {
            (self.edges[key].over_ticks + 1) as u32
        }
    }

    pub open spec fn edge_after(self, key: u64) -> EdgeState {
        EdgeState { over_ticks: self.count_after(key), ..self.edges[key] }
    }

    /// The edges after the tick.
    pub open spec fn edges_after(self) -> Map<u64, EdgeState> {
        Map::new(|key: u64| self.edges.dom().contains(key), |key: u64| self.edge_after(key))
    }

    /// All merges of the tick.
    pub open spec fn all(self) -> Seq<MergePlan> {
        self.plans(self.order().len() as int)
    }
}

/// No edge's confirmation count is at its limit.
pub open spec fn counts_fit(w: WakeState) -> bool {
    forall|key: u64| #[trigger] w.edges.dom().contains(key) ==> w.edges[key].over_ticks < u32::MAX
}

/// What one call of [`WakeGraph::merges`] decides on.
pub open spec fn merge_tick(
    w: WakeState,
    tgid_cohort: Map<u32, u64>,
    cohort_sizes: Map<u64, u64>,
) -> MergeTick {
    MergeTick { cfg: w.cfg, edges: w.edges, tgid_cohort, cohort_sizes }
}

impl WakeGraph {
    /// Whether every edge's confirmation count can still be raised.
    pub fn counts_have_room(&self) -> (yes: bool)
        ensures
            yes == counts_fit(self@),
    {
        let keys = sorted_keys(&self.edges);
        let mut i: usize = 0;
        while i < keys.len()
            invariant
                i <= keys@.len(),
                lists_in_order(keys@, self.edges@.dom()),
                forall|j: int| 0 <= j < i ==> self.edges@[#[trigger] keys@[j]].over_ticks < u32::MAX,
            decreases keys@.len() - i,
        {
            let key: u64 = keys[i];
            assert(keys@.contains(key));
            assert(self@.edges.dom().contains(key));
            match self.edges.get(&key) {
                Some(st) => {
                    if st.over_ticks == u32::MAX {
                        return false;
                    }
                },
                None => {},
            }
            i = i + 1;
        }
        proof {
            assert forall|key: u64| #[trigger]
                self@.edges.dom().contains(key) implies self@.edges[key].over_ticks < u32::MAX by {
                assert(keys@.contains(key));
                let j = choose|j: int| 0 <= j < keys@.len() && keys@[j] == key;
                assert(self.edges@[keys@[j]].over_ticks < u32::MAX);
            }
        }
        true
    }

    /// Cross-cohort edges sustaining the merge rate: returns at most one merge
    /// per cohort per call; the caller applies them and the next tick sees the
    /// updated mapping.
    pub fn merges(
        &mut self,
        tgid_cohort: &HashMap<u32, u64>,
        cohort_sizes: &HashMap<u64, u64>,
    ) -> (plans: Vec<MergePlan>)
        requires
            counts_fit(old(self)@),
        ensures
            plans@ == merge_tick(old(self)@, tgid_cohort@, cohort_sizes@).all(),
            final(self)@.edges == merge_tick(
                old(self)@,
                tgid_cohort@,
                cohort_sizes@,
            ).edges_after(),
            final(self)@.cfg == old(self)@.cfg,
            final(self)@.split_streak == old(self)@.split_streak,
            old(self)@.wf() ==> final(self)@.wf(),
    {
        let ghost t = merge_tick(self@, tgid_cohort@, cohort_sizes@);
        let ghost start = self@;
        let keys = sorted_keys(&self.edges);
        let mut out: Vec<MergePlan> = Vec::new();
        let mut merged: HashSet<u64> = HashSet::new();
        assert(keys@ == t.order());
        let mut i: usize = 0;
        while i < keys.len()
            invariant
                i <= keys@.len(),
                t == merge_tick(start, tgid_cohort@, cohort_sizes@),
                counts_fit(start),
                keys@ == t.order(),
                lists_in_order(keys@, t.edges.dom()),
                self.cfg == t.cfg,
                self.split_streak@ == start.split_streak,
                self.edges@.dom() == t.edges.dom(),
                merged@ == t.busy(i as int),
                out@ == t.plans(i as int),
                forall|j: int|
                    0 <= j < i ==> self.edges@[#[trigger] keys@[j]] == t.edge_after(keys@[j]),
                forall|j: int|
                    i <= j < keys@.len() ==> self.edges@[#[trigger] keys@[j]] == t.edges[keys@[j]],
            decreases keys@.len() - i,
        {
            let key: u64 = keys[i];
            let ghost before = self.edges@;
            proof {
                assert(keys@.contains(key));
                assert(t.edges.dom().contains(key));
                assert(start.edges.dom().contains(key));
                lemma_merges_along(t, i as int);
            }
            let mut st: EdgeState = match self.edges.get(&key) {
                Some(st) => *st,
                None => EdgeState { rate: 0, inst: 0, over_ticks: 0 },
            };
            let (a, b) = unpack(key);
            match (tgid_cohort.get(&a), tgid_cohort.get(&b)) {
                (Some(ca), Some(cb)) => {
                    let ca: u64 = *ca;
                    let cb: u64 = *cb;
                    if ca == cb || st.rate < self.cfg.merge_wakes_per_sec || st.inst
                        < self.cfg.merge_wakes_per_sec {
                        st.over_ticks = 0;
                    } else {
                        st.over_ticks = st.over_ticks + 1;
                        if st.over_ticks >= self.cfg.merge_confirm_ticks && !merged.contains(&ca)
                            && !merged.contains(&cb) {
                            // One merge per cohort per tick keeps application simple.
                            let sa: u64 = match cohort_sizes.get(&ca) {
                                Some(n) => *n,
                                None => 0,
                            };
                            let sb: u64 = match cohort_sizes.get(&cb) {
                                Some(n) => *n,
                                None => 0,
                            };
                            let (into, from) = if sa >= sb {
                                (ca, cb)
                            } else {
                                (cb, ca)
                            };
                            merged.insert(ca);
                            merged.insert(cb);
                            st.over_ticks = 0;
                            out.push(MergePlan { into, from });
                        }
                    }
                },
                _ => {},
            }
            self.edges.insert(key, st);
            proof {
                assert(st == t.edge_after(key));
                assert(self.edges@.dom() =~= t.edges.dom());
                assert forall|j: int| 0 <= j < i + 1 implies self.edges@[#[trigger] keys@[j]]
                    == t.edge_after(keys@[j]) by {
                    if j < i {
                        assert(keys@[j] < keys@[i as int]);
                    }
                }
                assert forall|j: int| i + 1 <= j < keys@.len() implies self.edges@[#[trigger] keys@[j]]
                    == t.edges[keys@[j]] by {
                    assert(keys@[i as int] < keys@[j]);
                }
            }
            i = i + 1;
        }
        proof {
            assert forall|key: u64| self.edges@.dom().contains(key) implies #[trigger] self.edges@[key]
                == t.edge_after(key) by {
                assert(keys@.contains(key));
                let j = choose|j: int| 0 <= j < keys@.len() && keys@[j] == key;
                assert(self.edges@[keys@[j]] == t.edge_after(keys@[j]));
            }
            assert(self.edges@ =~= t.edges_after());
        }
        out
    }
}

/// Each edge is considered once.
pub proof fn lemma_merges_along(t: MergeTick, n: int)
    requires
        lists_in_order(t.order(), t.edges.dom()),
        0 <= n < t.order().len(),
    ensures
        t.merges_along(t.order()[n]) == t.merges_at(n),
{
    let order = t.order();
    if t.merges_along(order[n]) {
        let m = choose|m: int| 0 <= m < order.len() && order[m] == order[n] && t.merges_at(m);
        if m < n {
            assert(order[m] < order[n]);
        } else if n < m {
            assert(order[n] < order[m]);
        }
    }
}


// ---- Splitting ----

/// The member lists of the cohorts.
pub type Groups = Map<u64, Vec<(u32, u64)>>;

/// The pairs of tgids whose edge still counts as connecting them.
pub open spec fn live_pairs(w: WakeState) -> Set<(u32, u32)> {
    Set::new(
        |p: (u32, u32)|
            w.edges.dom().contains(packed(p)) && w.edges[packed(p)].rate
                >= w.cfg.split_min_wakes_per_sec,
    )
}

/// A cohort's members, connected by the live edges.
pub open spec fn circle(w: WakeState, members: Seq<(u32, u64)>) -> Community {
    Community { members, live: live_pairs(w) }
}

/// For how many ticks in a row, this one counted, the cohort would now have
/// been disconnected.
pub open spec fn streak(w: WakeState, cohort: u64) -> int {
    if w.split_streak.dom().contains(cohort) {
        w.split_streak[cohort] + 1
    } else {
        1
    }
}

/// The cohort is disconnected, and has been for long enough.
pub open spec fn splits_now(w: WakeState, groups: Groups, cohort: u64) -> bool {
    circle(w, groups[cohort]@).falls_apart() && streak(w, cohort) >= w.cfg.split_confirm_ticks
}

/// The streaks after the tick: of the listed cohorts that are disconnected
/// and do not split yet.
pub open spec fn streaks_after(w: WakeState, groups: Groups) -> Map<u64, u32> {
    Map::new(
        |cohort: u64|
            groups.dom().contains(cohort) && circle(w, groups[cohort]@).falls_apart() && streak(
                w,
                cohort,
            ) < w.cfg.split_confirm_ticks,
        |cohort: u64| streak(w, cohort) as u32,
    )
}

/// The components that a cohort parts with.
pub open spec fn cohort_splits(w: WakeState, groups: Groups, cohort: u64) -> Seq<Split> {
    if splits_now(w, groups, cohort) {
        let parts = circle(w, groups[cohort]@).split_off(w.cfg.split_min_tasks);
        Seq::new(parts.len(), |k: int| Split { cohort, off_tgids: parts[k] })
    } else {
        seq![]
    }
}

/// What the first `n` cohorts in `order` part with.
pub open spec fn splits_of(w: WakeState, groups: Groups, order: Seq<u64>, n: int) -> Seq<Split>
    decreases n,
{
    if n <= 0 {
        seq![]
    } else {
        splits_of(w, groups, order, n - 1) + cohort_splits(w, groups, order[n - 1])
    }
}

/// All splits of the tick, cohorts in increasing order.
pub open spec fn all_splits(w: WakeState, groups: Groups) -> Seq<Split> {
    let order = in_order(groups.dom());
    splits_of(w, groups, order, order.len() as int)
}

/// Every cohort's task count fits in 64 bits.
pub open spec fn tasks_fit(groups: Groups) -> bool {
    forall|cohort: u64| #[trigger]
        groups.dom().contains(cohort) ==> total(
            groups[cohort]@.len() as int,
            |i: int| groups[cohort]@[i].1 as int,
        ) <= u64::MAX
}

/// What a list of split plans says.
pub open spec fn split_views(plans: Seq<SplitPlan>) -> Seq<Split> {
    Seq::new(plans.len(), |k: int| plans[k]@)
}

/// Turns the components that a cohort parts with into plans.
fn plan_parts(cohort: u64, parts: Vec<Vec<u32>>, out: &mut Vec<SplitPlan>)
    ensures
        split_views(final(out)@) == split_views(old(out)@) + Seq::new(
            parts@.len(),
            |k: int| Split { cohort, off_tgids: contents(parts@)[k] },
        ),
{
    let ghost start = out@;
    let ghost all = contents(parts@);
    for tgids in it: parts
        invariant
            it.seq() == parts@,
            all == contents(parts@),
            split_views(out@) == split_views(start) + Seq::new(
                it.index() as nat,
                |k: int| Split { cohort, off_tgids: all[k] },
            ),
    {
        let ghost before = out@;
        out.push(SplitPlan { cohort, off_tgids: tgids });
        proof {
            let i = it.index() as int;
            assert(split_views(out@) =~= split_views(before).push(
                Split { cohort, off_tgids: all[i] },
            ));
            assert(split_views(out@) =~= split_views(start) + Seq::new(
                (i + 1) as nat,
                |k: int| Split { cohort, off_tgids: all[k] },
            ));
        }
    }
}

impl WakeGraph {
    /// The pairs of tgids that live edges connect.
    fn find_live_pairs(&self) -> (pairs: Vec<(u32, u32)>)
        ensures
            pairs@.to_set() == live_pairs(self@),
    {
        let keys = sorted_keys(&self.edges);
        let mut pairs: Vec<(u32, u32)> = Vec::new();
        let mut i: usize = 0;
        while i < keys.len()
            invariant
                i <= keys@.len(),
                lists_in_order(keys@, self.edges@.dom()),
                forall|j: int|
                    0 <= j < i && self.edges@[#[trigger] keys@[j]].rate
                        >= self.cfg.split_min_wakes_per_sec ==> pairs@.contains(unpacked(keys@[j])),
                forall|k: int|
                    0 <= k < pairs@.len() ==> live_pairs(self@).contains(#[trigger] pairs@[k]),
            decreases keys@.len() - i,
        {
            let key: u64 = keys[i];
            assert(keys@.contains(key));
            let ghost before = pairs@;
            match self.edges.get(&key) {
                Some(st) => {
                    if st.rate >= self.cfg.split_min_wakes_per_sec {
                        let pair = unpack(key);
                        pairs.push(pair);
                        proof {
                            lemma_unpacked(key);
                            assert(live_pairs(self@).contains(pair));
                        }
                    }
                },
                None => {},
            }
            proof {
                assert forall|j: int|
                    0 <= j < i + 1 && self.edges@[#[trigger] keys@[j]].rate
                        >= self.cfg.split_min_wakes_per_sec implies pairs@.contains(
                    unpacked(keys@[j]),
                ) by {
                    if j < i {
                        let p = unpacked(keys@[j]);
                        let k = choose|k: int| 0 <= k < before.len() && before[k] == p;
                        assert(pairs@[k] == p);
                    } else {
                        assert(pairs@[pairs@.len() - 1] == unpacked(key));
                    }
                }
            }
            i = i + 1;
        }
        proof {
            assert forall|p: (u32, u32)| #[trigger]
                pairs@.to_set().contains(p) <==> live_pairs(self@).contains(p) by {
                if live_pairs(self@).contains(p) {
                    lemma_packed(p);
                    assert(keys@.contains(packed(p)));
                    let j = choose|j: int| 0 <= j < keys@.len() && keys@[j] == packed(p);
                    assert(pairs@.contains(unpacked(keys@[j])));
                }
            }
            assert(pairs@.to_set() =~= live_pairs(self@));
        }
        pairs
    }

    /// Cohorts whose internal wake graph has stayed disconnected: returns the
    /// components to split off. `cohort_tgids` maps each cohort to its member
    /// tgids with their task counts. Cohorts that no longer exist do not leak
    /// their streaks.
    pub fn splits(&mut self, cohort_tgids: &HashMap<u64, Vec<(u32, u64)>>) -> (plans: Vec<
        SplitPlan,
    >)
        requires
            old(self)@.wf(),
            tasks_fit(cohort_tgids@),
        ensures
            split_views(plans@) == all_splits(old(self)@, cohort_tgids@),
            final(self)@.split_streak == streaks_after(old(self)@, cohort_tgids@),
            final(self)@.edges == old(self)@.edges,
            final(self)@.cfg == old(self)@.cfg,
            final(self)@.wf(),
    {
        let ghost w = self@;
        let ghost groups = cohort_tgids@;
        let pairs = self.find_live_pairs();
        let order = sorted_hash_keys(cohort_tgids);
        let mut out: Vec<SplitPlan> = Vec::new();
        let mut next: BTreeMap<u64, u32> = BTreeMap::new();
        assert(split_views(out@) =~= seq![]);
        let mut i: usize = 0;
        while i < order.len()
            invariant
                i <= order@.len(),
                self@ == w,
                w.wf(),
                groups == cohort_tgids@,
                tasks_fit(groups),
                pairs@.to_set() == live_pairs(w),
                lists_in_order(order@, groups.dom()),
                split_views(out@) == splits_of(w, groups, order@, i as int),
                forall|cohort: u64| #[trigger]
                    next@.dom().contains(cohort) <==> streaks_after(w, groups).dom().contains(
                        cohort,
                    ) && order@.take(i as int).contains(cohort),
                forall|cohort: u64| #[trigger]
                    next@.dom().contains(cohort) ==> next@[cohort] == streaks_after(
                        w,
                        groups,
                    )[cohort],
            decreases order@.len() - i,
        {
            let cohort: u64 = order[i];
            assert(order@.contains(cohort));
            let ghost before = next@;
            match cohort_tgids.get(&cohort) {
                Some(members) => {
                    let ghost c = circle(w, members@);
                    assert(c == community(members@, pairs@));
                    let labels = label_components(members, &pairs);
                    if is_apart(&labels, Ghost(c)) {
                        let so_far: u32 = match self.split_streak.get(&cohort) {
                            Some(n) => *n,
                            None => 0,
                        };
                        proof {
                            assert(w.split_streak == self.split_streak@);
                            if w.split_streak.dom().contains(cohort) {
                                assert(w.split_streak[cohort] < w.cfg.split_confirm_ticks);
                                assert(so_far == w.split_streak[cohort]);
                            } else {
                                assert(so_far == 0);
                            }
                            assert(so_far < u32::MAX);
                        }
                        if so_far + 1 >= self.cfg.split_confirm_ticks {
                            // Split off every component except the largest (by tasks),
                            // skipping ones under the footprint floor.
                            proof {
                                assert(c.tasks() <= u64::MAX);
                            }
                            let parts = split_off(
                                members,
                                &labels,
                                self.cfg.split_min_tasks,
                                Ghost(c),
                            );
                            proof {
                                assert(splits_now(w, groups, cohort));
                                assert(cohort_splits(w, groups, cohort) =~= Seq::new(
                                    parts@.len(),
                                    |k: int| Split { cohort, off_tgids: contents(parts@)[k] },
                                ));
                            }
                            plan_parts(cohort, parts, &mut out);
                        } else {
                            next.insert(cohort, so_far + 1);
                        }
                    }
                },
                None => {},
            }
            proof {
                let here = streaks_after(w, groups).dom().contains(cohort);
                assert(next@ == (if here {
                    before.insert(cohort, streak(w, cohort) as u32)
                } else {
                    before
                }));
                assert forall|k: u64| #[trigger]
                    next@.dom().contains(k) <==> streaks_after(w, groups).dom().contains(k)
                        && order@.take(i + 1).contains(k) by {
                    let t = order@.take(i as int);
                    let u = order@.take(i + 1);
                    assert(u[i as int] == cohort);
                    if t.contains(k) {
                        let j = choose|j: int| 0 <= j < t.len() && t[j] == k;
                        assert(u[j] == k);
                    }
                    if u.contains(k) && k != cohort {
                        let j = choose|j: int| 0 <= j < u.len() && u[j] == k;
                        assert(t[j] == k);
                    }
                    assert(before.dom().contains(k) <==> streaks_after(w, groups).dom().contains(k)
                        && t.contains(k));
                }
                assert forall|k: u64| #[trigger] next@.dom().contains(k) implies next@[k]
                    == streaks_after(w, groups)[k] by {
                    assert(before.dom().contains(k) || k == cohort);
                }
                if !splits_now(w, groups, cohort) {
                    assert(split_views(out@) + seq![] =~= split_views(out@));
                }
            }
            i = i + 1;
        }
        self.split_streak = next;
        proof {
            assert(order@.take(order@.len() as int) =~= order@);
            lemma_in_order_unique(order@, groups.dom());
            assert forall|cohort: u64| #[trigger] next@.dom().contains(cohort) <==> streaks_after(
                w,
                groups,
            ).dom().contains(cohort) by {
                if streaks_after(w, groups).dom().contains(cohort) {
                    assert(order@.contains(cohort));
                }
            }
            assert(next@ =~= streaks_after(w, groups));
        }
        out
    }
}

} // verus!
