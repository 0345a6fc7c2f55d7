//! Finite sums over index ranges.
use vstd::prelude::*;

verus! {

/// `f(0) + f(1) + ... + f(n - 1)`.
pub open spec fn total(n: int, f: spec_fn(int) -> int) -> int
    decreases n,
{
    if n <= 0 {
        0
    } else {
        total(n - 1, f) + f(n - 1)
    }
}

pub proof fn lemma_total_ext(n: int, f: spec_fn(int) -> int, g: spec_fn(int) -> int)
    requires
        forall|i: int| 0 <= i < n ==> #[trigger] f(i) == g(i),
    ensures
        total(n, f) == total(n, g),
    decreases n,
{
    if n > 0 {
        lemma_total_ext(n - 1, f, g);
        assert(f(n - 1) == g(n - 1));
    }
}

pub proof fn lemma_total_le(n: int, f: spec_fn(int) -> int, g: spec_fn(int) -> int)
    requires
        forall|i: int| 0 <= i < n ==> #[trigger] f(i) <= g(i),
    ensures
        total(n, f) <= total(n, g),
    decreases n,
{
    if n > 0 {
        lemma_total_le(n - 1, f, g);
        assert(f(n - 1) <= g(n - 1));
    }
}

pub proof fn lemma_total_nonneg(n: int, f: spec_fn(int) -> int)
    requires
        forall|i: int| 0 <= i < n ==> #[trigger] f(i) >= 0,
    ensures
        total(n, f) >= 0,
    decreases n,
{
    if n > 0 {
        lemma_total_nonneg(n - 1, f);
        assert(f(n - 1) >= 0);
    }
}

pub proof fn lemma_total_zero(n: int)
    ensures
        total(n, |i: int| 0int) == 0,
    decreases n,
{
    if n > 0 {
        lemma_total_zero(n - 1);
    }
}

/// A longer range of nonnegative terms sums to no less.
pub proof fn lemma_total_monotone(m: int, n: int, f: spec_fn(int) -> int)
    requires
        m <= n,
        forall|i: int| 0 <= i < n ==> #[trigger] f(i) >= 0,
    ensures
        total(m, f) <= total(n, f),
    decreases n,
{
    if m < n && n > 0 {
        lemma_total_monotone(m, n - 1, f);
        assert(f(n - 1) >= 0);
    }
}

/// Changing one term changes the sum by that much.
pub proof fn lemma_total_change_one(
    n: int,
    f: spec_fn(int) -> int,
    g: spec_fn(int) -> int,
    k: int,
)
    requires
        0 <= k < n,
        forall|i: int| 0 <= i < n && i != k ==> #[trigger] f(i) == g(i),
    ensures
        total(n, g) == total(n, f) + g(k) - f(k),
    decreases n,
{
    if k == n - 1 {
        assert forall|i: int| 0 <= i < n - 1 implies #[trigger] f(i) == g(i) by {}
        lemma_total_ext(n - 1, f, g);
    } else {
        lemma_total_change_one(n - 1, f, g, k);
        assert(f(n - 1) == g(n - 1));
    }
}

/// Sums add term by term.
pub proof fn lemma_total_sum(
    n: int,
    f: spec_fn(int) -> int,
    g: spec_fn(int) -> int,
    h: spec_fn(int) -> int,
)
    requires
        forall|i: int| 0 <= i < n ==> #[trigger] h(i) == f(i) + g(i),
    ensures
        total(n, h) == total(n, f) + total(n, g),
    decreases n,
{
    if n > 0 {
        lemma_total_sum(n - 1, f, g, h);
        assert(h(n - 1) == f(n - 1) + g(n - 1));
    }
}

} // verus!
