//! What the knobs come to, told from the tables that set them.
use vstd::prelude::*;

use crate::config::OptionsTable;
use crate::options::{asked_tunables, built_in, overridden, Options};
use crate::tunables::{calibrated, scaled, Tunables, DEFAULT_SLICE_NS};
use crate::wake_graph::rank_of;

verus! {

/// A knob as a table that sets `set` leaves it, where it was `was`.
pub open spec fn left_at<T>(set: Option<T>, was: T, is: T) -> bool {
    match set {
        Some(v) => is == v,
        None => is == was,
    }
}

/// A table sets the knobs that it names and leaves the others alone.
pub proof fn law_a_table_sets_what_it_names(o: Options, table: OptionsTable)
    ensures
        ({
            let r = overridden(o, table);
            &&& left_at(table.slice_us, o.slice_us, r.slice_us)
            &&& left_at(table.interval_ms, o.interval_ms, r.interval_ms)
            &&& left_at(table.steal_min, o.steal_min, r.steal_min)
            &&& left_at(table.steal_delay_us, o.steal_delay_us, r.steal_delay_us)
            &&& left_at(table.preempt_min_us, o.preempt_min_us, r.preempt_min_us)
            &&& left_at(table.imbalance_pct, o.imbalance_pct, r.imbalance_pct)
            &&& left_at(table.residency_ms, o.residency_ms, r.residency_ms)
            &&& left_at(table.merge_wakes_per_sec, o.merge_wakes_per_sec, r.merge_wakes_per_sec)
            &&& left_at(table.rt_priority, o.rt_priority, r.rt_priority)
            &&& left_at(table.drop_privs, o.drop_privs, r.drop_privs)
        }),
{
}

/// What neither the file nor a flag sets is as built in; the rate that merges
/// is 300 wakes per second, told as the rank of the double.
pub proof fn law_unset_knobs_are_as_built_in(file: OptionsTable, flags: OptionsTable)
    ensures
        ({
            let o = overridden(overridden(built_in(), file), flags);
            &&& file.slice_us is None && flags.slice_us is None ==> o.slice_us == 5000
            &&& file.interval_ms is None && flags.interval_ms is None ==> o.interval_ms == 200
            &&& file.steal_min is None && flags.steal_min is None ==> o.steal_min == 2
            &&& file.steal_delay_us is None && flags.steal_delay_us is None ==> o.steal_delay_us
                == 500
            &&& file.preempt_min_us is None && flags.preempt_min_us is None ==> o.preempt_min_us
                == 20
            &&& file.imbalance_pct is None && flags.imbalance_pct is None ==> o.imbalance_pct == 20
            &&& file.residency_ms is None && flags.residency_ms is None ==> o.residency_ms == 2000
            &&& file.merge_wakes_per_sec is None && flags.merge_wakes_per_sec is None
                ==> o.merge_wakes_per_sec == rank_of(0x4072_C000_0000_0000)
            &&& file.rt_priority is None && flags.rt_priority is None ==> o.rt_priority == 10
            &&& file.drop_privs is None && flags.drop_privs is None ==> !o.drop_privs
        }),
{
}

/// The order of the tables matters only where both set a knob.
pub proof fn law_tables_that_share_no_knob_commute(o: Options, a: OptionsTable, b: OptionsTable)
    requires
        a.slice_us is None || b.slice_us is None,
        a.interval_ms is None || b.interval_ms is None,
        a.steal_min is None || b.steal_min is None,
        a.steal_delay_us is None || b.steal_delay_us is None,
        a.preempt_min_us is None || b.preempt_min_us is None,
        a.imbalance_pct is None || b.imbalance_pct is None,
        a.residency_ms is None || b.residency_ms is None,
        a.merge_wakes_per_sec is None || b.merge_wakes_per_sec is None,
        a.rt_priority is None || b.rt_priority is None,
        a.drop_privs is None || b.drop_privs is None,
    ensures
        overridden(overridden(o, a), b) == overridden(overridden(o, b), a),
{
}

/// The live knobs are as the options ask, microseconds told in nanoseconds;
/// the credit is at most four fifths of the slice, and brief at most half of
/// it, where there is a slice. No other option enters.
pub proof fn law_live_knobs_are_as_asked(o: Options)
    requires
        o.steal_delay_us * 1000 <= u64::MAX,
        o.preempt_min_us * 1000 <= u64::MAX,
        o.slice_us * 1000 <= u64::MAX,
    ensures
        ({
            let t = asked_tunables(o);
            let slice = o.slice_us * 1000;
            &&& t.steal_min == o.steal_min
            &&& t.steal_delay_ns == o.steal_delay_us * 1000
            &&& t.preempt_min_ns == o.preempt_min_us * 1000
            &&& t.credit_wake_freq_min == 50
            &&& t.sample_shift == 3
            &&& slice == 0 || 2_000_000 <= slice / 5 * 4 ==> t.credit_max_ns == 2_000_000
            &&& 0 < slice && slice / 5 * 4 < 2_000_000 ==> t.credit_max_ns == slice / 5 * 4
            &&& slice == 0 || 1_250_000 <= slice / 2 ==> t.credit_runtime_max_ns == 1_250_000
            &&& 0 < slice && slice / 2 < 1_250_000 ==> t.credit_runtime_max_ns == slice / 2
        }),
{
}

/// A knob that is too wide for the slice is brought down to the bound and no
/// further; one that fits stays; without a slice nothing changes.
pub proof fn law_wide_knobs_come_down_to_the_bound(t: Tunables, slice_ns: u64)
    ensures
        ({
            let s = scaled(t, slice_ns);
            &&& slice_ns > 0 && t.credit_runtime_max_ns > slice_ns / 2 ==> s.credit_runtime_max_ns
                == slice_ns / 2
            &&& slice_ns == 0 || t.credit_runtime_max_ns <= slice_ns / 2
                ==> s.credit_runtime_max_ns == t.credit_runtime_max_ns
            &&& slice_ns > 0 && t.credit_max_ns > slice_ns / 5 * 4 ==> s.credit_max_ns == slice_ns
                / 5 * 4
            &&& slice_ns == 0 || t.credit_max_ns <= slice_ns / 5 * 4 ==> s.credit_max_ns
                == t.credit_max_ns
            &&& s.steal_min == t.steal_min
            &&& s.steal_delay_ns == t.steal_delay_ns
            &&& s.credit_wake_freq_min == t.credit_wake_freq_min
            &&& s.preempt_min_ns == t.preempt_min_ns
            &&& s.sample_shift == t.sample_shift
        }),
{
}

/// The slice that the knobs are calibrated against is the shortest that leaves
/// them as they are.
pub proof fn law_the_default_slice_is_the_shortest_that_fits(slice_ns: u64)
    requires
        slice_ns > 0,
    ensures
        scaled(calibrated(), slice_ns) == calibrated() <==> slice_ns >= DEFAULT_SLICE_NS,
{
}

/// A shorter slice never leaves a knob wider.
pub proof fn law_shorter_slices_never_widen(t: Tunables, shorter: u64, longer: u64)
    requires
        0 < shorter <= longer,
    ensures
        scaled(t, shorter).credit_max_ns <= scaled(t, longer).credit_max_ns,
        scaled(t, shorter).credit_runtime_max_ns <= scaled(t, longer).credit_runtime_max_ns,
        scaled(scaled(t, longer), shorter) == scaled(t, shorter),
{
}

} // verus!
