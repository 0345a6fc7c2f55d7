//! What a tick's deltas may look like without making a difference: only the
//! compensated wakes between two processes count.
use vstd::prelude::*;

use crate::arith::{lemma_total_ext, lemma_total_zero, total};
use crate::merge_laws::{joins_pairs, law_an_edge_is_a_pair};
use crate::wake_graph::{
    blended, delta_key, edge_key, known_rate, lemma_traffic_step, lookup, observed, rank_of, seen,
    time_passed, traffic, traffic_fits, with_rates, EdgeRate, EdgeState, WakeGraphCfg,
};

verus! {

/// Both lists of deltas count the same wakes on the same edges.
pub open spec fn same_traffic(
    d1: Seq<(u32, u32, u64)>,
    s1: u64,
    d2: Seq<(u32, u32, u64)>,
    s2: u64,
) -> bool {
    &&& forall|key: u64| #[trigger] seen(d1, key) <==> seen(d2, key)
    &&& forall|key: u64| #[trigger] traffic(d1, s1, key) == traffic(d2, s2, key)
}

/// The averaging gives one result for the same rate and count.
pub open spec fn one_result<F: Fn(Option<u64>, u64) -> EdgeRate>(blend: F) -> bool {
    forall|known: Option<u64>, count: u64, r1: EdgeRate, r2: EdgeRate|
        call_ensures(blend, (known, count), r1) && call_ensures(blend, (known, count), r2) ==> r1
            == r2
}

/// From the same edges, observing either list ends in the same edges, and
/// either list can be observed if the other can.
pub open spec fn observed_alike<F: Fn(Option<u64>, u64) -> EdgeRate>(
    blend: F,
    cfg: WakeGraphCfg,
    d1: Seq<(u32, u32, u64)>,
    s1: u64,
    d2: Seq<(u32, u32, u64)>,
    s2: u64,
) -> bool {
    &&& traffic_fits(d1, s1) <==> traffic_fits(d2, s2)
    &&& one_result(blend) ==> forall|
        before: Map<u64, EdgeState>,
        after1: Map<u64, EdgeState>,
        after2: Map<u64, EdgeState>,
    |
        #[trigger] observed(blend, cfg, d1, s1, before, after1) && #[trigger] observed(
            blend,
            cfg,
            d2,
            s2,
            before,
            after2,
        ) ==> after1 == after2
}

/// What becomes of an edge is settled by its state and its count.
proof fn lemma_blended_once<F: Fn(Option<u64>, u64) -> EdgeRate>(
    blend: F,
    cfg: WakeGraphCfg,
    before: Option<EdgeState>,
    count: int,
    after1: Option<EdgeState>,
    after2: Option<EdgeState>,
)
    requires
        one_result(blend),
        blended(blend, cfg, before, count, after1),
        blended(blend, cfg, before, count, after2),
    ensures
        after1 == after2,
{
    let r1 = choose|r: EdgeRate|
        call_ensures(blend, (known_rate(before), count as u64), r) && after1
            == #[trigger] with_rates(cfg, before, r);
    let r2 = choose|r: EdgeRate|
        call_ensures(blend, (known_rate(before), count as u64), r) && after2
            == #[trigger] with_rates(cfg, before, r);
    assert(r1 == r2);
}

/// Observing depends on the traffic alone.
pub proof fn law_only_traffic_counts<F: Fn(Option<u64>, u64) -> EdgeRate>(
    blend: F,
    cfg: WakeGraphCfg,
    d1: Seq<(u32, u32, u64)>,
    s1: u64,
    d2: Seq<(u32, u32, u64)>,
    s2: u64,
)
    requires
        same_traffic(d1, s1, d2, s2),
    ensures
        observed_alike(blend, cfg, d1, s1, d2, s2),
{
    if traffic_fits(d2, s2) {
        assert forall|key: u64| #[trigger] traffic(d1, s1, key) <= u64::MAX by {
            assert(traffic(d2, s2, key) <= u64::MAX);
        }
    }
    if traffic_fits(d1, s1) {
        assert forall|key: u64| #[trigger] traffic(d2, s2, key) <= u64::MAX by {
            assert(traffic(d1, s1, key) <= u64::MAX);
        }
    }
    if one_result(blend) {
        assert forall|
            before: Map<u64, EdgeState>,
            after1: Map<u64, EdgeState>,
            after2: Map<u64, EdgeState>,
        |
            #[trigger] observed(blend, cfg, d1, s1, before, after1) && #[trigger] observed(
                blend,
                cfg,
                d2,
                s2,
                before,
                after2,
            ) implies after1 == after2 by {
            assert forall|key: u64| lookup(after1, key) == #[trigger] lookup(after2, key) by {
                let _ = after1.dom().contains(key);
                let _ = after2.dom().contains(key);
                if before.dom().contains(key) || seen(d1, key) {
                    assert(traffic(d1, s1, key) == traffic(d2, s2, key));
                    assert(seen(d1, key) <==> seen(d2, key));
                    lemma_blended_once(
                        blend,
                        cfg,
                        lookup(before, key),
                        traffic(d1, s1, key),
                        lookup(after1, key),
                        lookup(after2, key),
                    );
                } else {
                    assert(!seen(d2, key));
                    assert(!after1.dom().contains(key));
                    assert(!after2.dom().contains(key));
                }
            }
            assert forall|key: u64| after1.dom().contains(key) <==> after2.dom().contains(key) by {
                assert(lookup(after1, key) == lookup(after2, key));
            }
            assert forall|key: u64| #[trigger] after1.dom().contains(key) implies after1[key]
                == after2[key] by {
                assert(lookup(after1, key) == lookup(after2, key));
            }
            assert(after1 =~= after2);
        }
    }
}

/// The two directions of a pair are one edge: turning any of the deltas round
/// makes no difference.
pub proof fn law_direction_makes_no_difference<F: Fn(Option<u64>, u64) -> EdgeRate>(
    blend: F,
    cfg: WakeGraphCfg,
    d1: Seq<(u32, u32, u64)>,
    d2: Seq<(u32, u32, u64)>,
    sample_mult: u64,
)
    requires
        d1.len() == d2.len(),
        forall|i: int|
            0 <= i < d1.len() ==> #[trigger] d2[i] == d1[i] || d2[i] == (
                d1[i].1,
                d1[i].0,
                d1[i].2,
            ),
    ensures
        same_traffic(d1, sample_mult, d2, sample_mult),
        observed_alike(blend, cfg, d1, sample_mult, d2, sample_mult),
{
    lemma_termwise(d1, sample_mult, d2, sample_mult);
    law_only_traffic_counts(blend, cfg, d1, sample_mult, d2, sample_mult);
}

/// Deltas that agree one by one in edge and in compensated wakes.
proof fn lemma_termwise(d1: Seq<(u32, u32, u64)>, s1: u64, d2: Seq<(u32, u32, u64)>, s2: u64)
    requires
        d1.len() == d2.len(),
        forall|i: int|
            0 <= i < d1.len() ==> delta_key(#[trigger] d1[i]) == delta_key(d2[i]) && d1[i].2 * s1
                == d2[i].2 * s2,
    ensures
        same_traffic(d1, s1, d2, s2),
{
    assert forall|key: u64| #[trigger] seen(d1, key) <==> seen(d2, key) by {
        if seen(d1, key) {
            let i = choose|i: int| 0 <= i < d1.len() && delta_key(#[trigger] d1[i]) == key;
            assert(delta_key(d2[i]) == key);
        }
        if seen(d2, key) {
            let i = choose|i: int| 0 <= i < d2.len() && delta_key(#[trigger] d2[i]) == key;
            assert(delta_key(d1[i]) == key);
        }
    }
    assert forall|key: u64| #[trigger] traffic(d1, s1, key) == traffic(d2, s2, key) by {
        let f = |i: int|
            if delta_key(d1[i]) == key {
                d1[i].2 * s1
            } else {
                0
            };
        let g = |i: int|
            if delta_key(d2[i]) == key {
                d2[i].2 * s2
            } else {
                0
            };
        assert forall|i: int| 0 <= i < d1.len() implies #[trigger] f(i) == g(i) by {
            assert(delta_key(d1[i]) == delta_key(d2[i]));
        }
        lemma_total_ext(d1.len() as int, f, g);
    }
}

/// What one delta adds to an edge.
spec fn share(d: (u32, u32, u64), sample_mult: u64, key: u64) -> int {
    if delta_key(d) == key {
        d.2 * sample_mult
    } else {
        0
    }
}

/// The last delta's share of the traffic.
proof fn lemma_traffic_last(deltas: Seq<(u32, u32, u64)>, sample_mult: u64, key: u64)
    requires
        deltas.len() > 0,
    ensures
        traffic(deltas, sample_mult, key) == traffic(deltas.drop_last(), sample_mult, key) + share(
            deltas.last(),
            sample_mult,
            key,
        ),
        seen(deltas, key) <==> seen(deltas.drop_last(), key) || delta_key(deltas.last()) == key,
{
    let n = deltas.len() as int;
    assert(deltas.take(n) =~= deltas);
    assert(deltas.take(n - 1) =~= deltas.drop_last());
    lemma_traffic_step(deltas, sample_mult, n - 1, key);
}

/// Any delta's share of the traffic.
proof fn lemma_traffic_remove(deltas: Seq<(u32, u32, u64)>, sample_mult: u64, j: int, key: u64)
    requires
        0 <= j < deltas.len(),
    ensures
        traffic(deltas, sample_mult, key) == traffic(deltas.remove(j), sample_mult, key) + share(
            deltas[j],
            sample_mult,
            key,
        ),
        seen(deltas, key) <==> seen(deltas.remove(j), key) || delta_key(deltas[j]) == key,
    decreases deltas.len(),
{
    let rest = deltas.remove(j);
    lemma_traffic_last(deltas, sample_mult, key);
    if j == deltas.len() - 1 {
        assert(rest =~= deltas.drop_last());
    } else {
        let front = deltas.drop_last();
        assert(front[j] == deltas[j]);
        lemma_traffic_remove(front, sample_mult, j, key);
        lemma_traffic_last(rest, sample_mult, key);
        assert(rest.drop_last() =~= front.remove(j));
        assert(rest.last() == deltas.last());
    }
}

proof fn lemma_reordered(
    d1: Seq<(u32, u32, u64)>,
    d2: Seq<(u32, u32, u64)>,
    sample_mult: u64,
    key: u64,
)
    requires
        d1.to_multiset() == d2.to_multiset(),
    ensures
        seen(d1, key) <==> seen(d2, key),
        traffic(d1, sample_mult, key) == traffic(d2, sample_mult, key),
    decreases d1.len(),
{
    broadcast use vstd::seq_lib::group_to_multiset_ensures;

    assert(d1.to_multiset().len() == d1.len());
    assert(d2.to_multiset().len() == d2.len());
    if d1.len() == 0 {
        assert(d1 =~= d2);
    } else {
        let last = d1.last();
        assert(d1.contains(last));
        assert(d2.to_multiset().count(last) > 0);
        assert(d2.contains(last));
        let j = choose|j: int| 0 <= j < d2.len() && d2[j] == last;
        assert(d1.drop_last() =~= d1.remove(d1.len() - 1));
        assert(d1.drop_last().to_multiset() =~= d1.to_multiset().remove(last));
        assert(d2.remove(j).to_multiset() =~= d2.to_multiset().remove(last));
        lemma_reordered(d1.drop_last(), d2.remove(j), sample_mult, key);
        lemma_traffic_last(d1, sample_mult, key);
        lemma_traffic_remove(d2, sample_mult, j, key);
    }
}

/// The order of the deltas makes no difference.
pub proof fn law_order_makes_no_difference<F: Fn(Option<u64>, u64) -> EdgeRate>(
    blend: F,
    cfg: WakeGraphCfg,
    d1: Seq<(u32, u32, u64)>,
    d2: Seq<(u32, u32, u64)>,
    sample_mult: u64,
)
    requires
        d1.to_multiset() == d2.to_multiset(),
    ensures
        same_traffic(d1, sample_mult, d2, sample_mult),
        observed_alike(blend, cfg, d1, sample_mult, d2, sample_mult),
{
    assert forall|key: u64| #[trigger] seen(d1, key) <==> seen(d2, key) by {
        lemma_reordered(d1, d2, sample_mult, key);
    }
    assert forall|key: u64| #[trigger]
        traffic(d1, sample_mult, key) == traffic(d2, sample_mult, key) by {
        lemma_reordered(d1, d2, sample_mult, key);
    }
    law_only_traffic_counts(blend, cfg, d1, sample_mult, d2, sample_mult);
}

/// A delta counts as its parts do: `n` of its wakes in its place and the rest
/// in a delta of their own, in either direction, make no difference.
pub proof fn law_parts_make_no_difference<F: Fn(Option<u64>, u64) -> EdgeRate>(
    blend: F,
    cfg: WakeGraphCfg,
    whole: Seq<(u32, u32, u64)>,
    parts: Seq<(u32, u32, u64)>,
    i: int,
    n: u64,
    m: u64,
    sample_mult: u64,
)
    requires
        0 <= i < whole.len(),
        n + m == whole[i].2,
        ({
            let (a, b, _) = whole[i];
            let first = whole.update(i, (a, b, n));
            parts == first.push((a, b, m)) || parts == first.push((b, a, m))
        }),
    ensures
        same_traffic(whole, sample_mult, parts, sample_mult),
        observed_alike(blend, cfg, whole, sample_mult, parts, sample_mult),
{
    let d = whole[i];
    let first = parts.drop_last();
    assert(first =~= whole.update(i, (d.0, d.1, n)));
    assert(first.remove(i) =~= whole.remove(i));
    assert(d.2 * sample_mult == n * sample_mult + m * sample_mult) by (nonlinear_arith)
        requires
            n + m == d.2,
    ;
    assert forall|key: u64| #[trigger] seen(whole, key) <==> seen(parts, key) by {
        lemma_traffic_last(parts, sample_mult, key);
        lemma_traffic_remove(first, sample_mult, i, key);
        lemma_traffic_remove(whole, sample_mult, i, key);
    }
    assert forall|key: u64| #[trigger]
        traffic(whole, sample_mult, key) == traffic(parts, sample_mult, key) by {
        lemma_traffic_last(parts, sample_mult, key);
        lemma_traffic_remove(first, sample_mult, i, key);
        lemma_traffic_remove(whole, sample_mult, i, key);
    }
    law_only_traffic_counts(blend, cfg, whole, sample_mult, parts, sample_mult);
}

/// Counts of sampled wakes with their multiplier are as good as the
/// multiplied counts without one.
pub proof fn law_sampling_makes_no_difference<F: Fn(Option<u64>, u64) -> EdgeRate>(
    blend: F,
    cfg: WakeGraphCfg,
    sampled: Seq<(u32, u32, u64)>,
    full: Seq<(u32, u32, u64)>,
    sample_mult: u64,
)
    requires
        sampled.len() == full.len(),
        forall|i: int|
            0 <= i < sampled.len() ==> {
                &&& (#[trigger] full[i]).0 == sampled[i].0
                &&& full[i].1 == sampled[i].1
                &&& full[i].2 == sampled[i].2 * sample_mult
            },
    ensures
        same_traffic(sampled, sample_mult, full, 1),
        observed_alike(blend, cfg, sampled, sample_mult, full, 1),
{
    assert forall|i: int| 0 <= i < sampled.len() implies delta_key(#[trigger] sampled[i])
        == delta_key(full[i]) && sampled[i].2 * sample_mult == full[i].2 * 1u64 by {
        assert(full[i].2 == sampled[i].2 * sample_mult);
    }
    lemma_termwise(sampled, sample_mult, full, 1);
    law_only_traffic_counts(blend, cfg, sampled, sample_mult, full, 1);
}

// ---- What becomes of an edge ----

/// The delta counts wakes between the two processes, in either direction.
pub open spec fn between(d: (u32, u32, u64), a: u32, b: u32) -> bool {
    (d.0 == a && d.1 == b) || (d.0 == b && d.1 == a)
}

/// The wakes between the two processes, compensated for sampling.
pub open spec fn wakes_between(
    deltas: Seq<(u32, u32, u64)>,
    sample_mult: u64,
    a: u32,
    b: u32,
) -> int {
    total(
        deltas.len() as int,
        |i: int|
            if between(deltas[i], a, b) {
                deltas[i].2 * sample_mult
            } else {
                0
            },
    )
}

proof fn lemma_between(deltas: Seq<(u32, u32, u64)>, sample_mult: u64, a: u32, b: u32)
    ensures
        traffic(deltas, sample_mult, edge_key(a, b)) == wakes_between(deltas, sample_mult, a, b),
        seen(deltas, edge_key(a, b)) <==> exists|i: int|
            0 <= i < deltas.len() && between(#[trigger] deltas[i], a, b),
{
    let key = edge_key(a, b);
    let f = |i: int|
        if delta_key(deltas[i]) == key {
            deltas[i].2 * sample_mult
        } else {
            0
        };
    let g = |i: int|
        if between(deltas[i], a, b) {
            deltas[i].2 * sample_mult
        } else {
            0
        };
    assert forall|i: int| 0 <= i < deltas.len() implies (delta_key(#[trigger] deltas[i]) == key
        <==> between(deltas[i], a, b)) by {
        law_an_edge_is_a_pair(deltas[i].0, deltas[i].1, a, b);
    }
    assert forall|i: int| 0 <= i < deltas.len() implies #[trigger] f(i) == g(i) by {
        let _ = deltas[i];
    }
    lemma_total_ext(deltas.len() as int, f, g);
    if seen(deltas, key) {
        let i = choose|i: int| 0 <= i < deltas.len() && delta_key(#[trigger] deltas[i]) == key;
        assert(between(deltas[i], a, b));
    }
    if exists|i: int| 0 <= i < deltas.len() && between(#[trigger] deltas[i], a, b) {
        let i = choose|i: int| 0 <= i < deltas.len() && between(#[trigger] deltas[i], a, b);
        assert(delta_key(deltas[i]) == key);
    }
}

/// The edge takes on the rates and keeps its confirmation, which a new edge has
/// none of; or it is dropped, where the rate is below that of noise.
pub open spec fn takes_rates(
    cfg: WakeGraphCfg,
    before: Map<u64, EdgeState>,
    after: Map<u64, EdgeState>,
    key: u64,
    r: EdgeRate,
) -> bool {
    &&& after.contains_key(key) <==> r.rate >= cfg.drop_wakes_per_sec
    &&& after.contains_key(key) ==> {
        &&& after[key].rate == r.rate
        &&& after[key].inst == r.inst
        &&& before.contains_key(key) ==> after[key].over_ticks == before[key].over_ticks
        &&& !before.contains_key(key) ==> after[key].over_ticks == 0
    }
}

/// The averaging is given an edge's rate, if the edge is known, and the wakes
/// between its processes. What it gives back is the edge's new rates, with the
/// confirmation kept; unless the new rate is below that of noise, for an edge
/// of noise is dropped. Edges that are neither known nor seen do not come
/// about.
pub proof fn law_edges_get_the_rates_of_their_wakes<F: Fn(Option<u64>, u64) -> EdgeRate>(
    blend: F,
    cfg: WakeGraphCfg,
    deltas: Seq<(u32, u32, u64)>,
    sample_mult: u64,
    before: Map<u64, EdgeState>,
    after: Map<u64, EdgeState>,
    a: u32,
    b: u32,
)
    requires
        observed(blend, cfg, deltas, sample_mult, before, after),
    ensures
        ({
            let key = edge_key(a, b);
            let known = before.contains_key(key);
            let touched = exists|i: int|
                0 <= i < deltas.len() && between(#[trigger] deltas[i], a, b);
            let rate = if known {
                Some(before[key].rate)
            } else {
                None
            };
            let count = wakes_between(deltas, sample_mult, a, b) as u64;
            &&& !known && !touched ==> !after.contains_key(key)
            &&& known || touched ==> exists|r: EdgeRate|
                call_ensures(blend, (rate, count), r) && #[trigger] takes_rates(
                    cfg,
                    before,
                    after,
                    key,
                    r,
                )
        }),
{
    let key = edge_key(a, b);
    lemma_between(deltas, sample_mult, a, b);
    let there = after.dom().contains(key);
    if before.dom().contains(key) || seen(deltas, key) {
        let old = lookup(before, key);
        let count = traffic(deltas, sample_mult, key);
        assert(blended(blend, cfg, old, count, lookup(after, key)));
        let r = choose|r: EdgeRate|
            call_ensures(blend, (known_rate(old), count as u64), r) && lookup(after, key)
                == #[trigger] with_rates(cfg, old, r);
        assert(call_ensures(blend, (known_rate(old), count as u64), r));
        assert(takes_rates(cfg, before, after, key, r));
    }
}

/// Observing leaves no edge that joins anything but two processes.
pub proof fn law_edges_stay_pairs<F: Fn(Option<u64>, u64) -> EdgeRate>(
    blend: F,
    cfg: WakeGraphCfg,
    deltas: Seq<(u32, u32, u64)>,
    sample_mult: u64,
    before: Map<u64, EdgeState>,
    after: Map<u64, EdgeState>,
)
    requires
        observed(blend, cfg, deltas, sample_mult, before, after),
        joins_pairs(before),
    ensures
        joins_pairs(after),
{
    assert forall|key: u64| #[trigger] after.dom().contains(key) implies exists|a: u32, b: u32|
        a <= b && key == #[trigger] edge_key(a, b) by {
        if before.dom().contains(key) {
        } else {
            assert(seen(deltas, key));
            let i = choose|i: int| 0 <= i < deltas.len() && delta_key(#[trigger] deltas[i]) == key;
            let (a, b) = (deltas[i].0, deltas[i].1);
            if a <= b {
                assert(key == edge_key(a, b));
            } else {
                assert(key == edge_key(b, a));
            }
        }
    }
}

/// The traffic of a tick fits where that of every pair of processes does.
pub proof fn law_traffic_fits_where_every_pair_fits(
    deltas: Seq<(u32, u32, u64)>,
    sample_mult: u64,
)
    ensures
        traffic_fits(deltas, sample_mult) <==> forall|a: u32, b: u32| #[trigger]
            wakes_between(deltas, sample_mult, a, b) <= u64::MAX,
{
    if traffic_fits(deltas, sample_mult) {
        assert forall|a: u32, b: u32| #[trigger]
            wakes_between(deltas, sample_mult, a, b) <= u64::MAX by {
            lemma_between(deltas, sample_mult, a, b);
            assert(traffic(deltas, sample_mult, edge_key(a, b)) <= u64::MAX);
        }
    }
    if forall|a: u32, b: u32| #[trigger] wakes_between(deltas, sample_mult, a, b) <= u64::MAX {
        assert forall|key: u64| #[trigger] traffic(deltas, sample_mult, key) <= u64::MAX by {
            if seen(deltas, key) {
                let i = choose|i: int|
                    0 <= i < deltas.len() && delta_key(#[trigger] deltas[i]) == key;
                let (a, b) = (deltas[i].0, deltas[i].1);
                lemma_between(deltas, sample_mult, a, b);
                assert(wakes_between(deltas, sample_mult, a, b) <= u64::MAX);
            } else {
                let f = |i: int|
                    if delta_key(deltas[i]) == key {
                        deltas[i].2 * sample_mult
                    } else {
                        0
                    };
                assert forall|i: int| 0 <= i < deltas.len() implies #[trigger] f(i) == 0 by {
                    assert(delta_key(deltas[i]) != key);
                }
                lemma_total_ext(deltas.len() as int, f, |i: int| 0int);
                lemma_total_zero(deltas.len() as int);
            }
        }
    }
}

/// Time has passed exactly if the double of the seconds is above zero: it
/// bears no sign, and is not all zeros.
pub proof fn law_time_passes_where_it_is_positive(bits: u64)
    ensures
        time_passed(rank_of(bits)) <==> 0 < bits < 0x8000_0000_0000_0000,
{
}

} // verus!
