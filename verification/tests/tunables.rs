use std::mem::{align_of, size_of};

use scx_cohort::tunables::{
    CohortCounters, CohortPolicy, TaskCtx, TaskStat, Tunables, WakeEdgeKey, DEFAULT_SLICE_NS,
};

/// The C side sees these exact layouts via the generated header; these
/// assertions pin them so refactors can't change them unnoticed.
#[test]
fn layouts_are_stable() {
    assert_eq!(size_of::<TaskCtx>(), 64);
    assert_eq!(align_of::<TaskCtx>(), 8);
    assert_eq!(size_of::<CohortPolicy>(), 8);
    assert_eq!(size_of::<CohortCounters>(), 16);
    assert_eq!(align_of::<CohortCounters>(), 8);
    assert_eq!(size_of::<WakeEdgeKey>(), 8);
    assert_eq!(size_of::<TaskStat>(), 48);
    assert_eq!(align_of::<TaskStat>(), 8);
    assert_eq!(size_of::<Tunables>(), 56);
}

#[test]
fn defaults_are_a_fixed_point_of_the_default_slice() {
    // The stored knobs are calibrated against DEFAULT_SLICE_NS, so
    // scaling there must change nothing. If someone retunes the slice
    // default without retuning these, this catches it.
    let base = Tunables::default();
    let mut t = Tunables::default();
    t.scale_to_slice(DEFAULT_SLICE_NS);
    assert_eq!(t.credit_runtime_max_ns, base.credit_runtime_max_ns);
    assert_eq!(t.credit_max_ns, base.credit_max_ns);
}

#[test]
fn a_short_slice_tightens_the_interactive_signature() {
    // The regression: at 750 us the stored 2 ms ceiling exceeds the
    // slice, so every task reads as "runs briefly" and the credit
    // stops discriminating.
    let slice = 750_000;
    let mut t = Tunables::default();
    t.scale_to_slice(slice);
    assert!(
        t.credit_runtime_max_ns < slice,
        "a task cannot run a full slice and still count as brief"
    );
    assert!(
        t.credit_max_ns < slice,
        "credit above the clamp window flattens the vtime ordering"
    );
    assert_eq!(t.credit_runtime_max_ns, 375_000);
    assert_eq!(t.credit_max_ns, 600_000);
}

#[test]
fn scaling_never_raises_a_configured_ceiling() {
    let mut t = Tunables {
        credit_max_ns: 1_000,
        credit_runtime_max_ns: 2_000,
        ..Tunables::default()
    };
    t.scale_to_slice(5_000_000);
    assert_eq!(t.credit_max_ns, 1_000);
    assert_eq!(t.credit_runtime_max_ns, 2_000);
}

#[test]
fn a_zero_slice_is_left_alone() {
    let mut t = Tunables::default();
    t.scale_to_slice(0);
    assert_eq!(t.credit_max_ns, Tunables::default().credit_max_ns);
}

#[test]
fn tunables_defaults_sane() {
    let t = Tunables::default();
    assert!(t.steal_delay_ns > 0);
    assert!(t.credit_max_ns > 0);
    assert!(t.sample_shift < 16);
}

#[test]
fn scaling_twice_changes_nothing_more() {
    let mut once = Tunables::default();
    once.scale_to_slice(750_000);
    let mut twice = once;
    twice.scale_to_slice(750_000);
    assert_eq!(twice.credit_max_ns, once.credit_max_ns);
    assert_eq!(twice.credit_runtime_max_ns, once.credit_runtime_max_ns);
    assert_eq!(twice.steal_delay_ns, 500_000);
}

#[test]
fn extreme_slices_scale() {
    let mut t = Tunables::default();
    t.scale_to_slice(u64::MAX);
    assert_eq!(t.credit_max_ns, 2_000_000);
    t.scale_to_slice(1);
    assert_eq!(t.credit_max_ns, 0);
    assert_eq!(t.credit_runtime_max_ns, 0);
}
