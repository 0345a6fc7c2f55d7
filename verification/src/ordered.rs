//! Sorted lists, and walking integer-keyed maps in key order.
use std::collections::{BTreeMap, HashMap};

use vstd::laws_cmp::obeys_cmp;
use vstd::prelude::*;
use vstd::std_specs::btree::increasing_seq;
use vstd::std_specs::cmp::OrdSpec;
use vstd::std_specs::iter::IteratorSpec;

verus! {

/// Each item of the list comes before those that follow it.
pub open spec fn sorted_by<T>(list: Seq<T>, before: spec_fn(T, T) -> bool) -> bool {
    forall|i: int, j: int| 0 <= i < j < list.len() ==> before(#[trigger] list[i], #[trigger] list[j])
}

/// Two sorted lists of the same items agree position by position.
proof fn lemma_sorted_agree<T>(a: Seq<T>, b: Seq<T>, before: spec_fn(T, T) -> bool, n: int)
    requires
        forall|x: T| #[trigger] a.contains(x) <==> b.contains(x),
        sorted_by(a, before),
        sorted_by(b, before),
        forall|x: T, y: T| #[trigger] before(x, y) ==> !before(y, x),
        0 <= n <= a.len(),
    ensures
        n <= b.len(),
        forall|i: int| 0 <= i < n ==> a[i] == b[i],
    decreases n,
{
    if n > 0 {
        let k = n - 1;
        lemma_sorted_agree(a, b, before, k);
        assert(a.contains(a[k]));
        let j = choose|j: int| 0 <= j < b.len() && b[j] == a[k];
        assert(j >= k) by {
            if j < k {
                assert(a[j] == b[j]);
                assert(before(a[j], a[k]));
            }
        }
        assert(b.contains(b[k]));
        assert(a.contains(b[k]));
        let i = choose|i: int| 0 <= i < a.len() && a[i] == b[k];
        assert(i >= k) by {
            if i < k {
                assert(a[i] == b[i]);
                assert(before(b[i], b[k]));
            }
        }
        if j > k && i > k {
            assert(before(b[k], b[j]));
            assert(before(a[k], a[i]));
        }
    }
}

/// There is one way to sort a collection of items.
pub proof fn lemma_sorted_unique<T>(a: Seq<T>, b: Seq<T>, before: spec_fn(T, T) -> bool)
    requires
        forall|x: T| #[trigger] a.contains(x) <==> b.contains(x),
        sorted_by(a, before),
        sorted_by(b, before),
        forall|x: T, y: T| #[trigger] before(x, y) ==> !before(y, x),
    ensures
        a == b,
{
    lemma_sorted_agree(a, b, before, a.len() as int);
    assert forall|x: T| #[trigger] b.contains(x) <==> a.contains(x) by {
        assert(a.contains(x) <==> b.contains(x));
    }
    lemma_sorted_agree(b, a, before, b.len() as int);
    assert(a =~= b);
}

/// `keys` lists the set `s` in increasing order.
pub open spec fn lists_in_order(keys: Seq<u64>, s: Set<u64>) -> bool {
    &&& forall|k: u64| #[trigger] keys.contains(k) <==> s.contains(k)
    &&& forall|i: int, j: int| 0 <= i < j < keys.len() ==> keys[i] < keys[j]
}

/// A set's members in increasing order.
pub open spec fn in_order(s: Set<u64>) -> Seq<u64> {
    choose|keys: Seq<u64>| lists_in_order(keys, s)
}

pub proof fn lemma_in_order_unique(keys: Seq<u64>, s: Set<u64>)
    requires
        lists_in_order(keys, s),
    ensures
        in_order(s) == keys,
{
    let other = in_order(s);
    assert(lists_in_order(other, s));
    lemma_sorted_unique(keys, other, |a: u64, b: u64| a < b);
}

/// The members of a set below `n`, in increasing order.
spec fn below(s: Set<u64>, n: nat) -> Seq<u64>
    decreases n,
{
    if n == 0 {
        seq![]
    } else if s.contains((n - 1) as u64) {
        below(s, (n - 1) as nat).push((n - 1) as u64)
    } else {
        below(s, (n - 1) as nat)
    }
}

proof fn lemma_below(s: Set<u64>, n: nat)
    requires
        n <= u64::MAX + 1,
    ensures
        forall|k: u64| #[trigger] below(s, n).contains(k) <==> s.contains(k) && k < n,
        forall|i: int, j: int|
            0 <= i < j < below(s, n).len() ==> below(s, n)[i] < below(s, n)[j],
    decreases n,
{
    if n > 0 {
        let m = (n - 1) as nat;
        lemma_below(s, m);
        let t = below(s, m);
        let u = below(s, n);
        assert forall|k: u64| #[trigger] u.contains(k) <==> s.contains(k) && k < n by {
            if t.contains(k) {
                let i = choose|i: int| 0 <= i < t.len() && t[i] == k;
                assert(u[i] == k);
            }
            if s.contains(m as u64) {
                assert(u[t.len() as int] == m as u64);
            }
            if u.contains(k) && !t.contains(k) {
                let i = choose|i: int| 0 <= i < u.len() && u[i] == k;
                if i < t.len() {
                    assert(t[i] == k);
                }
            }
        }
        assert forall|i: int, j: int| 0 <= i < j < u.len() implies u[i] < u[j] by {
            assert(t.contains(t[i]));
        }
    }
}

/// Every set of 64-bit keys can be listed in order.
pub proof fn lemma_in_order_lists(s: Set<u64>)
    ensures
        lists_in_order(in_order(s), s),
{
    lemma_below(s, (u64::MAX + 1) as nat);
    assert(lists_in_order(below(s, (u64::MAX + 1) as nat), s));
}

/// The keys of a map in increasing order.
pub fn sorted_keys<V>(m: &BTreeMap<u64, V>) -> (keys: Vec<u64>)
    ensures
        lists_in_order(keys@, m@.dom()),
        keys@ == in_order(m@.dom()),
{
    let mut out: Vec<u64> = Vec::new();
    let keys = m.keys();
    let ghost order = keys.remaining();
    for k in it: keys
        invariant
            it.seq() == order,
            out@ == order.unref().take(it.index()),
    {
        out.push(*k);
    }
    proof {
        assert(out@ =~= order.unref());
        assert(out@.to_set() == m@.dom());
        assert(obeys_cmp::<&u64>());
        assert(increasing_seq(order));
        assert forall|i: int, j: int| 0 <= i < j < out@.len() implies out@[i] < out@[j] by {
            assert(OrdSpec::cmp_spec(&order[i], &order[j]) is Less);
            assert(OrdSpec::cmp_spec(order[i], order[j]) is Less);
        }
        assert forall|k: u64| #[trigger] out@.contains(k) <==> m@.dom().contains(k) by {
            assert(out@.to_set().contains(k) <==> out@.contains(k));
        }
        lemma_in_order_unique(out@, m@.dom());
    }
    out
}

// ---- 32-bit keys ----

/// `ids` lists the set `s` in increasing order.
pub open spec fn lists_ids(ids: Seq<u32>, s: Set<u32>) -> bool {
    &&& forall|k: u32| #[trigger] ids.contains(k) <==> s.contains(k)
    &&& forall|i: int, j: int| 0 <= i < j < ids.len() ==> ids[i] < ids[j]
}

/// A set's members in increasing order.
pub open spec fn ids_in_order(s: Set<u32>) -> Seq<u32> {
    choose|ids: Seq<u32>| lists_ids(ids, s)
}

/// Every set of 32-bit keys can be listed in order.
pub proof fn lemma_ids_in_order(s: Set<u32>)
    ensures
        lists_ids(ids_in_order(s), s),
{
    let wide = Set::new(|k: u64| k <= u32::MAX && s.contains(k as u32));
    let keys = in_order(wide);
    lemma_in_order_lists(wide);
    let ids = Seq::new(keys.len(), |i: int| keys[i] as u32);
    assert forall|i: int| 0 <= i < keys.len() implies #[trigger] keys[i] <= u32::MAX && s.contains(
        ids[i],
    ) by {
        assert(keys.contains(keys[i]));
    }
    assert forall|k: u32| #[trigger] ids.contains(k) <==> s.contains(k) by {
        if ids.contains(k) {
            let i = choose|i: int| 0 <= i < ids.len() && ids[i] == k;
            assert(keys[i] <= u32::MAX);
        }
        if s.contains(k) {
            assert(wide.contains(k as u64));
            assert(keys.contains(k as u64));
            let i = choose|i: int| 0 <= i < keys.len() && keys[i] == k as u64;
            assert(ids[i] == k);
        }
    }
    assert(lists_ids(ids, s));
}

pub proof fn lemma_ids_unique(ids: Seq<u32>, s: Set<u32>)
    requires
        lists_ids(ids, s),
    ensures
        ids_in_order(s) == ids,
{
    lemma_ids_in_order(s);
    lemma_sorted_unique(ids, ids_in_order(s), |a: u32, b: u32| a < b);
}

/// The keys of a map in increasing order.
pub fn sorted_ids<V>(m: &BTreeMap<u32, V>) -> (ids: Vec<u32>)
    ensures
        lists_ids(ids@, m@.dom()),
        ids@ == ids_in_order(m@.dom()),
{
    let mut out: Vec<u32> = Vec::new();
    let keys = m.keys();
    let ghost order = keys.remaining();
    for k in it: keys
        invariant
            it.seq() == order,
            out@ == order.unref().take(it.index()),
    {
        out.push(*k);
    }
    proof {
        assert(out@ =~= order.unref());
        assert(out@.to_set() == m@.dom());
        assert(obeys_cmp::<&u32>());
        assert(increasing_seq(order));
        assert forall|i: int, j: int| 0 <= i < j < out@.len() implies out@[i] < out@[j] by {
            assert(OrdSpec::cmp_spec(&order[i], &order[j]) is Less);
            assert(OrdSpec::cmp_spec(order[i], order[j]) is Less);
        }
        assert forall|k: u32| #[trigger] out@.contains(k) <==> m@.dom().contains(k) by {
            assert(out@.to_set().contains(k) <==> out@.contains(k));
        }
        lemma_ids_unique(out@, m@.dom());
    }
    out
}

// ---- Hash maps ----

/// The keys of a hash map in increasing order.
pub fn sorted_hash_keys<V>(m: &HashMap<u64, V>) -> (keys: Vec<u64>)
    ensures
        lists_in_order(keys@, m@.dom()),
        keys@ == in_order(m@.dom()),
{
    let mut tree: BTreeMap<u64, ()> = BTreeMap::new();
    let keys = m.keys();
    let ghost order = keys.remaining();
    assert(tree@.dom() =~= order.unref().take(0).to_set());
    for k in it: keys
        invariant
            it.seq() == order,
            tree@.dom() == order.unref().take(it.index()).to_set(),
    {
        tree.insert(*k, ());
        proof {
            let n = it.index();
            let list = order.unref();
            let short = list.take(n);
            let long = list.take(n + 1);
            assert(long =~= short.push(*k));
            assert forall|x: u64| #[trigger] tree@.dom().contains(x) <==> long.contains(x) by {
                if short.contains(x) {
                    let j = choose|j: int| 0 <= j < short.len() && short[j] == x;
                    assert(long[j] == x);
                }
                assert(long[n] == *k);
                if long.contains(x) && x != *k {
                    let j = choose|j: int| 0 <= j < long.len() && long[j] == x;
                    assert(short[j] == x);
                }
                assert(short.to_set().contains(x) <==> short.contains(x));
            }
            assert(tree@.dom() =~= long.to_set());
        }
    }
    proof {
        let list = order.unref();
        assert(list.take(list.len() as int) =~= list);
    }
    sorted_keys(&tree)
}

/// The keys of a hash map in increasing order.
pub fn sorted_hash_ids<V>(m: &HashMap<u32, V>) -> (keys: Vec<u32>)
    ensures
        lists_ids(keys@, m@.dom()),
        keys@ == ids_in_order(m@.dom()),
{
    let mut tree: BTreeMap<u32, ()> = BTreeMap::new();
    let keys = m.keys();
    let ghost order = keys.remaining();
    assert(tree@.dom() =~= order.unref().take(0).to_set());
    for k in it: keys
        invariant
            it.seq() == order,
            tree@.dom() == order.unref().take(it.index()).to_set(),
    {
        tree.insert(*k, ());
        proof {
            let n = it.index();
            let list = order.unref();
            let short = list.take(n);
            let long = list.take(n + 1);
            assert(long =~= short.push(*k));
            assert forall|x: u32| #[trigger] tree@.dom().contains(x) <==> long.contains(x) by {
                if short.contains(x) {
                    let j = choose|j: int| 0 <= j < short.len() && short[j] == x;
                    assert(long[j] == x);
                }
                assert(long[n] == *k);
                if long.contains(x) && x != *k {
                    let j = choose|j: int| 0 <= j < long.len() && long[j] == x;
                    assert(short[j] == x);
                }
                assert(short.to_set().contains(x) <==> short.contains(x));
            }
            assert(tree@.dom() =~= long.to_set());
        }
    }
    proof {
        let list = order.unref();
        assert(list.take(list.len() as int) =~= list);
    }
    sorted_ids(&tree)
}

} // verus!
