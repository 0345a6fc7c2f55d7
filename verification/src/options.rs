//! The daemon's knobs: built-in defaults, overridden by the configuration
//! file's `[options]`, overridden by explicitly passed flags.
use vstd::prelude::*;

use crate::balancer::BalancerCfg;
use crate::config::{nothing_set, OptionsTable};
use crate::tunables::{calibrated, scaled, Tunables};
use crate::wake_graph::{WakeGraphCfg, RANK_1, RANK_10, RANK_300};

verus! {

/// The knobs, all of them set.
#[derive(Debug, Clone, Copy, PartialEq, Eq, Structural)]
pub struct Options {
    pub slice_us: u64,
    pub interval_ms: u64,
    pub steal_min: u64,
    pub steal_delay_us: u64,
    pub preempt_min_us: u64,
    pub imbalance_pct: u64,
    pub residency_ms: u64,
    /// A rank, as wake rates are.
    pub merge_wakes_per_sec: u64,
    pub rt_priority: i32,
    pub drop_privs: bool,
}

/// What the daemon does once the kernel has detached the scheduler.
#[derive(Debug, Clone, Copy, PartialEq, Eq, Structural)]
pub enum AfterExit {
    /// Leave.
    Leave,
    /// Load and attach anew.
    Reload,
    /// Leave with an error, for the service manager to start it anew.
    Fail,
}

/// The built-in defaults.
pub open spec fn built_in() -> Options {
    Options {
        slice_us: 5000,
        interval_ms: 200,
        steal_min: 2,
        steal_delay_us: 500,
        preempt_min_us: 20,
        imbalance_pct: 20,
        residency_ms: 2000,
        merge_wakes_per_sec: RANK_300,
        rt_priority: 10,
        drop_privs: false,
    }
}

/// The value, or else the fallback.
pub open spec fn set_or<T>(value: Option<T>, fallback: T) -> T {
    match value {
        Some(v) => v,
        None => fallback,
    }
}

/// The knobs with those that the table sets.
pub open spec fn overridden(o: Options, table: OptionsTable) -> Options {
    Options {
        slice_us: set_or(table.slice_us, o.slice_us),
        interval_ms: set_or(table.interval_ms, o.interval_ms),
        steal_min: set_or(table.steal_min, o.steal_min),
        steal_delay_us: set_or(table.steal_delay_us, o.steal_delay_us),
        preempt_min_us: set_or(table.preempt_min_us, o.preempt_min_us),
        imbalance_pct: set_or(table.imbalance_pct, o.imbalance_pct),
        residency_ms: set_or(table.residency_ms, o.residency_ms),
        merge_wakes_per_sec: set_or(table.merge_wakes_per_sec, o.merge_wakes_per_sec),
        rt_priority: set_or(table.rt_priority, o.rt_priority),
        drop_privs: set_or(table.drop_privs, o.drop_privs),
    }
}

/// The live-tunable knobs that the options ask for.
pub open spec fn asked_tunables(o: Options) -> Tunables {
    scaled(
        Tunables {
            steal_min: o.steal_min,
            steal_delay_ns: (o.steal_delay_us * 1000) as u64,
            preempt_min_ns: (o.preempt_min_us * 1000) as u64,
            ..calibrated()
        },
        (o.slice_us * 1000) as u64,
    )
}

impl Default for Options {
    fn default() -> (o: Self)
        ensures
            o == built_in(),
    {
        Options {
            slice_us: 5000,
            interval_ms: 200,
            steal_min: 2,
            steal_delay_us: 500,
            preempt_min_us: 20,
            imbalance_pct: 20,
            residency_ms: 2000,
            merge_wakes_per_sec: RANK_300,
            rt_priority: 10,
            drop_privs: false,
        }
    }
}

impl Options {
    /// The knobs with those that the table sets.
    pub fn overridden_by(&self, table: &OptionsTable) -> (o: Options)
        ensures
            o == overridden(*self, *table),
    {
        Options {
            slice_us: table.slice_us.unwrap_or(self.slice_us),
            interval_ms: table.interval_ms.unwrap_or(self.interval_ms),
            steal_min: table.steal_min.unwrap_or(self.steal_min),
            steal_delay_us: table.steal_delay_us.unwrap_or(self.steal_delay_us),
            preempt_min_us: table.preempt_min_us.unwrap_or(self.preempt_min_us),
            imbalance_pct: table.imbalance_pct.unwrap_or(self.imbalance_pct),
            residency_ms: table.residency_ms.unwrap_or(self.residency_ms),
            merge_wakes_per_sec: table.merge_wakes_per_sec.unwrap_or(self.merge_wakes_per_sec),
            rt_priority: table.rt_priority.unwrap_or(self.rt_priority),
            drop_privs: table.drop_privs.unwrap_or(self.drop_privs),
        }
    }

    /// The knobs in force: defaults, then the file, then the flags.
    pub fn resolve(file: &OptionsTable, flags: &OptionsTable) -> (o: Options)
        ensures
            o == overridden(overridden(built_in(), *file), *flags),
    {
        let defaults = Options::default();
        defaults.overridden_by(file).overridden_by(flags)
    }

    /// The live-tunable knobs that these options ask for.
    pub fn tunables(&self) -> (t: Tunables)
        requires
            self.steal_delay_us * 1000 <= u64::MAX,
            self.preempt_min_us * 1000 <= u64::MAX,
            self.slice_us * 1000 <= u64::MAX,
        ensures
            t == asked_tunables(*self),
    {
        let mut t = Tunables::default();
        t.steal_min = self.steal_min;
        t.steal_delay_ns = self.steal_delay_us * 1000;
        t.preempt_min_ns = self.preempt_min_us * 1000;
        t.scale_to_slice(self.slice_us * 1000);
        t
    }
}

impl Options {
    /// The balancer's configuration: the rest is as built in.
    pub fn balancer_cfg(&self) -> (cfg: BalancerCfg)
        ensures
            cfg.imbalance_pct == self.imbalance_pct,
            cfg.confirm_ticks == 2,
            cfg.residency_ms == self.residency_ms,
            cfg.max_moves_per_tick == 8,
    {
        let mut cfg = BalancerCfg::default();
        cfg.imbalance_pct = self.imbalance_pct;
        cfg.residency_ms = self.residency_ms;
        cfg
    }

    /// The wake graph's configuration: the rest is as built in.
    pub fn wake_graph_cfg(&self) -> (cfg: WakeGraphCfg)
        ensures
            cfg.merge_wakes_per_sec == self.merge_wakes_per_sec,
            cfg.merge_confirm_ticks == 3,
            cfg.split_min_wakes_per_sec == RANK_10,
            cfg.drop_wakes_per_sec == RANK_1,
            cfg.split_confirm_ticks == 25,
            cfg.split_min_tasks == 2,
    {
        let mut cfg = WakeGraphCfg::default();
        cfg.merge_wakes_per_sec = self.merge_wakes_per_sec;
        cfg
    }
}

// ---- Laws ----

/// What a flag sets holds, whatever the file says.
pub proof fn law_flags_override_the_file(file: OptionsTable, flags: OptionsTable)
    ensures
        ({
            let o = overridden(overridden(built_in(), file), flags);
            &&& flags.slice_us matches Some(v) ==> o.slice_us == v
            &&& flags.interval_ms matches Some(v) ==> o.interval_ms == v
            &&& flags.steal_min matches Some(v) ==> o.steal_min == v
            &&& flags.steal_delay_us matches Some(v) ==> o.steal_delay_us == v
            &&& flags.preempt_min_us matches Some(v) ==> o.preempt_min_us == v
            &&& flags.imbalance_pct matches Some(v) ==> o.imbalance_pct == v
            &&& flags.residency_ms matches Some(v) ==> o.residency_ms == v
            &&& flags.merge_wakes_per_sec matches Some(v) ==> o.merge_wakes_per_sec == v
            &&& flags.rt_priority matches Some(v) ==> o.rt_priority == v
            &&& flags.drop_privs matches Some(v) ==> o.drop_privs == v
        }),
{
}

/// What no flag sets is as the file says; what neither sets is as built in.
pub proof fn law_the_file_overrides_the_defaults(file: OptionsTable, flags: OptionsTable)
    ensures
        ({
            let f = overridden(built_in(), file);
            let o = overridden(f, flags);
            &&& flags.slice_us is None ==> o.slice_us == f.slice_us
            &&& flags.interval_ms is None ==> o.interval_ms == f.interval_ms
            &&& flags.steal_min is None ==> o.steal_min == f.steal_min
            &&& flags.steal_delay_us is None ==> o.steal_delay_us == f.steal_delay_us
            &&& flags.preempt_min_us is None ==> o.preempt_min_us == f.preempt_min_us
            &&& flags.imbalance_pct is None ==> o.imbalance_pct == f.imbalance_pct
            &&& flags.residency_ms is None ==> o.residency_ms == f.residency_ms
            &&& flags.merge_wakes_per_sec is None ==> o.merge_wakes_per_sec == f.merge_wakes_per_sec
            &&& flags.rt_priority is None ==> o.rt_priority == f.rt_priority
            &&& flags.drop_privs is None ==> o.drop_privs == f.drop_privs
        }),
        overridden(built_in(), nothing_set()) == built_in(),
{
}

impl Options {
    /// What to do once the kernel has detached the scheduler, asking for a
    /// restart or not. Without capabilities it cannot be loaded again.
    pub fn after_exit(&self, restart: bool) -> (next: AfterExit)
        ensures
            next == (if !restart {
                AfterExit::Leave
            } else if self.drop_privs {
                AfterExit::Fail
            } else {
                AfterExit::Reload
            }),
    {
        if !restart {
            AfterExit::Leave
        } else if self.drop_privs {
            AfterExit::Fail
        } else {
            AfterExit::Reload
        }
    }
}

} // verus!
