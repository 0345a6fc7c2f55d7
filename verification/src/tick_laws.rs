//! What a tick sees, told from the entries of the kernel's maps.
use vstd::prelude::*;

use crate::arith::{lemma_total_ext, lemma_total_nonneg, total};
use crate::domain::CohortSnapshot;
use crate::scheduler::{
    after_scan, belonging, counter_sum, dead_ids, homed_load, law_loads_come_in_order, load_sums,
    loads_fit, loads_of, snapshots, stale_of, tick_cohorts, CohortEntry,
    SchedulerState,
};

verus! {

// ---- Cohorts ----

/// How many of the first `n` entries have tasks.
pub open spec fn with_tasks(entries: Seq<CohortEntry>, n: int) -> int {
    total(
        n,
        |i: int|
            if entries[i].nr_tasks != 0 {
                1int
            } else {
                0
            },
    )
}

/// How many of the first `n` entries have no tasks.
pub open spec fn without_tasks(entries: Seq<CohortEntry>, n: int) -> int {
    total(
        n,
        |i: int|
            if entries[i].nr_tasks == 0 {
                1int
            } else {
                0
            },
    )
}

proof fn lemma_snapshots(prev: Map<u64, u64>, entries: Seq<CohortEntry>, n: int, i: int)
    requires
        0 <= i < n <= entries.len(),
    ensures
        snapshots(prev, entries, n).len() == with_tasks(entries, n),
        0 <= with_tasks(entries, i) <= with_tasks(entries, n),
        entries[i].nr_tasks != 0 ==> with_tasks(entries, i) < with_tasks(entries, n),
        entries[i].nr_tasks != 0 ==> {
            let e = entries[i];
            let c = snapshots(prev, entries, n)[with_tasks(entries, i)];
            &&& c.id == e.id
            &&& c.home_llc == e.home_llc
            &&& c.pinned <==> e.flags & 1 != 0
            &&& c.nr_tasks == e.nr_tasks
            &&& c.residency_ms == e.residency_ms
            &&& !prev.contains_key(e.id) ==> c.load_ns == 0
            &&& prev.contains_key(e.id) && prev[e.id] <= e.load_sum ==> prev[e.id] + c.load_ns
                == e.load_sum
            &&& prev.contains_key(e.id) && prev[e.id] > e.load_sum ==> c.load_ns == 0
        },
    decreases n,
{
    let f = |i: int|
        if entries[i].nr_tasks != 0 {
            1int
        } else {
            0
        };
    lemma_total_nonneg(i, f);
    if n == 1 {
        assert(snapshots(prev, entries, 0).len() == 0);
        assert(total(0, f) == 0);
        assert(total(1, f) == total(0, f) + f(0));
    } else {
        lemma_snapshots(prev, entries, n - 1, if i == n - 1 { i - 1 } else { i });
    }
}

/// Every cohort with tasks is seen, and in the order of the entries: as the
/// entry has it, with the runtime since the previous tick for its load, none
/// on the first sighting, and none where the sum fell back.
pub proof fn law_cohorts_are_seen_as_they_are(s: SchedulerState, entries: Seq<CohortEntry>, i: int)
    requires
        0 <= i < entries.len(),
        entries[i].nr_tasks != 0,
    ensures
        ({
            let e = entries[i];
            let prev = s.prev_load_sum;
            let k = with_tasks(entries, i);
            let c = tick_cohorts(s, entries)[k];
            &&& 0 <= k < tick_cohorts(s, entries).len()
            &&& c.id == e.id
            &&& c.home_llc == e.home_llc
            &&& c.pinned <==> e.flags & 1 != 0
            &&& c.nr_tasks == e.nr_tasks
            &&& c.residency_ms == e.residency_ms
            &&& !prev.contains_key(e.id) ==> c.load_ns == 0
            &&& prev.contains_key(e.id) && prev[e.id] <= e.load_sum ==> prev[e.id] + c.load_ns
                == e.load_sum
            &&& prev.contains_key(e.id) && prev[e.id] > e.load_sum ==> c.load_ns == 0
        }),
{
    lemma_snapshots(s.prev_load_sum, entries, entries.len() as int, i);
}

/// Only cohorts with tasks are seen.
pub proof fn law_empty_cohorts_are_not_seen(s: SchedulerState, entries: Seq<CohortEntry>)
    ensures
        tick_cohorts(s, entries).len() == with_tasks(entries, entries.len() as int),
{
    if entries.len() > 0 {
        lemma_snapshots(s.prev_load_sum, entries, entries.len() as int, 0);
    }
}

proof fn lemma_dead(entries: Seq<CohortEntry>, n: int, i: int)
    requires
        0 <= i < n <= entries.len(),
    ensures
        dead_ids(entries, n).len() == without_tasks(entries, n),
        0 <= without_tasks(entries, i) <= without_tasks(entries, n),
        entries[i].nr_tasks == 0 ==> without_tasks(entries, i) < without_tasks(entries, n),
        entries[i].nr_tasks == 0 ==> dead_ids(entries, n)[without_tasks(entries, i)]
            == entries[i].id,
    decreases n,
{
    let f = |i: int|
        if entries[i].nr_tasks == 0 {
            1int
        } else {
            0
        };
    lemma_total_nonneg(i, f);
    if n == 1 {
        assert(dead_ids(entries, 0).len() == 0);
        assert(total(0, f) == 0);
        assert(total(1, f) == total(0, f) + f(0));
    } else {
        lemma_dead(entries, n - 1, if i == n - 1 { i - 1 } else { i });
    }
}

/// Every cohort without tasks is to be deleted, in the order of the entries.
pub proof fn law_empty_cohorts_are_deleted(entries: Seq<CohortEntry>, i: int)
    requires
        0 <= i < entries.len(),
        entries[i].nr_tasks == 0,
    ensures
        ({
            let dead = dead_ids(entries, entries.len() as int);
            let k = without_tasks(entries, i);
            0 <= k < dead.len() && dead[k] == entries[i].id
        }),
{
    lemma_dead(entries, entries.len() as int, i);
}

/// Only cohorts without tasks are to be deleted.
pub proof fn law_only_empty_cohorts_are_deleted(entries: Seq<CohortEntry>)
    ensures
        dead_ids(entries, entries.len() as int).len() == without_tasks(
            entries,
            entries.len() as int,
        ),
{
    if entries.len() > 0 {
        lemma_dead(entries, entries.len() as int, 0);
    }
}

proof fn lemma_sums(entries: Seq<CohortEntry>, n: int, i: int)
    requires
        0 <= i < n <= entries.len(),
        entries[i].nr_tasks != 0,
        forall|j: int|
            i < j < n && (#[trigger] entries[j]).id == entries[i].id ==> entries[j].nr_tasks == 0,
    ensures
        load_sums(entries, n).contains_key(entries[i].id),
        load_sums(entries, n)[entries[i].id] == entries[i].load_sum,
    decreases n,
{
    if i < n - 1 {
        lemma_sums(entries, n - 1, i);
        assert(entries[n - 1].id == entries[i].id ==> entries[n - 1].nr_tasks == 0);
    }
}

proof fn lemma_no_sum(entries: Seq<CohortEntry>, n: int, id: u64)
    requires
        0 <= n <= entries.len(),
        forall|j: int|
            0 <= j < n && (#[trigger] entries[j]).id == id ==> entries[j].nr_tasks == 0,
    ensures
        !load_sums(entries, n).contains_key(id),
    decreases n,
{
    if n > 0 {
        lemma_no_sum(entries, n - 1, id);
        assert(entries[n - 1].id == id ==> entries[n - 1].nr_tasks == 0);
    }
}

/// The runtime sum of a cohort with tasks is remembered for the next tick, and
/// so is when it last moved.
pub proof fn law_a_scan_remembers_the_living(s: SchedulerState, entries: Seq<CohortEntry>, i: int)
    requires
        0 <= i < entries.len(),
        entries[i].nr_tasks != 0,
        forall|j: int|
            i < j < entries.len() && (#[trigger] entries[j]).id == entries[i].id
                ==> entries[j].nr_tasks == 0,
    ensures
        ({
            let id = entries[i].id;
            let then = s.balancer.last_move_at;
            let now = after_scan(s, entries).balancer.last_move_at;
            &&& after_scan(s, entries).prev_load_sum.contains_key(id)
            &&& after_scan(s, entries).prev_load_sum[id] == entries[i].load_sum
            &&& now.contains_key(id) <==> then.contains_key(id)
            &&& then.contains_key(id) ==> now[id] == then[id]
        }),
{
    lemma_sums(entries, entries.len() as int, i);
}

/// Nothing is remembered of a cohort that has no tasks.
pub proof fn law_a_scan_forgets_the_rest(s: SchedulerState, entries: Seq<CohortEntry>, id: u64)
    requires
        forall|j: int|
            0 <= j < entries.len() && (#[trigger] entries[j]).id == id ==> entries[j].nr_tasks
                == 0,
    ensures
        !after_scan(s, entries).prev_load_sum.contains_key(id),
        !after_scan(s, entries).balancer.last_move_at.contains_key(id),
{
    lemma_no_sum(entries, entries.len() as int, id);
}

/// Apart from what it remembers of cohorts, a scan changes nothing.
pub proof fn law_a_scan_changes_nothing_else(s: SchedulerState, entries: Seq<CohortEntry>)
    ensures
        after_scan(s, entries).balancer.cfg == s.balancer.cfg,
        after_scan(s, entries).balancer.streak == s.balancer.streak,
        after_scan(s, entries).llc_cpus == s.llc_cpus,
        after_scan(s, entries).tick_ns == s.tick_ns,
{
}

// ---- Loads ----

/// Every LLC has one load, and no other does; they come in order of the ids.
pub proof fn law_every_llc_has_one_load(s: SchedulerState, cohorts: Seq<CohortSnapshot>, llc: u32)
    ensures
        ({
            let loads = loads_of(s, cohorts);
            &&& (exists|i: int| 0 <= i < loads.len() && (#[trigger] loads[i]).llc == llc)
                <==> s.llc_cpus.contains_key(llc)
            &&& forall|i: int, j: int|
                0 <= i < j < loads.len() ==> (#[trigger] loads[i]).llc < (#[trigger] loads[j]).llc
        }),
{
    law_loads_come_in_order(s, cohorts);
    let loads = loads_of(s, cohorts);
    if s.llc_cpus.contains_key(llc) {
        assert(s.llc_cpus.dom().contains(llc));
        let i = choose|i: int| 0 <= i < loads.len() && (#[trigger] loads[i]).llc == llc;
        assert(loads[i].llc == llc);
    }
}

/// An LLC can carry what its CPUs run in a tick, and without cohorts it
/// carries nothing.
pub proof fn law_capacity_is_the_ticks_of_the_cpus(
    s: SchedulerState,
    cohorts: Seq<CohortSnapshot>,
    i: int,
)
    requires
        loads_fit(s, cohorts),
        0 <= i < loads_of(s, cohorts).len(),
    ensures
        loads_of(s, cohorts)[i].capacity_ns == s.llc_cpus[loads_of(s, cohorts)[i].llc] * s.tick_ns,
        cohorts.len() == 0 ==> loads_of(s, cohorts)[i].load_ns == 0,
{
    law_loads_come_in_order(s, cohorts);
    let llc = loads_of(s, cohorts)[i].llc;
    assert(s.llc_cpus.dom().contains(llc));
    assert(s.llc_cpus[llc] * s.tick_ns >= 0) by (nonlinear_arith);
}

/// One more cohort adds its load to its home, and to nothing else.
pub proof fn law_a_cohort_counts_at_its_home(
    s: SchedulerState,
    cohorts: Seq<CohortSnapshot>,
    c: CohortSnapshot,
    i: int,
)
    requires
        loads_fit(s, cohorts.push(c)),
        0 <= i < loads_of(s, cohorts).len(),
    ensures
        loads_of(s, cohorts.push(c)).len() == loads_of(s, cohorts).len(),
        ({
            let before = loads_of(s, cohorts)[i];
            let after = loads_of(s, cohorts.push(c))[i];
            &&& after.llc == before.llc
            &&& c.home_llc == before.llc ==> after.load_ns == before.load_ns + c.load_ns
            &&& c.home_llc != before.llc ==> after.load_ns == before.load_ns
        }),
{
    let more = cohorts.push(c);
    law_loads_come_in_order(s, cohorts);
    let llc = loads_of(s, cohorts)[i].llc;
    assert(s.llc_cpus.dom().contains(llc));
    let n = cohorts.len() as int;
    let f = |i: int|
        if cohorts[i].home_llc == llc {
            cohorts[i].load_ns as int
        } else {
            0
        };
    let g = |i: int|
        if more[i].home_llc == llc {
            more[i].load_ns as int
        } else {
            0
        };
    assert forall|j: int| 0 <= j < n implies #[trigger] f(j) == g(j) by {
        assert(more[j] == cohorts[j]);
    }
    lemma_total_ext(n, f, g);
    lemma_total_nonneg(n, f);
    assert(total(n + 1, g) == total(n, g) + g(n));
    assert(homed_load(more, llc) == total(n + 1, g));
    assert(homed_load(cohorts, llc) == total(n, f));
}

// ---- Map upkeep ----

/// How many of the first `n` tgids belong to cohorts that are gone.
pub open spec fn gone_among(tgids: Seq<(u32, u64)>, existing: Set<u64>, n: int) -> int {
    total(
        n,
        |i: int|
            if existing.contains(tgids[i].1) {
                0int
            } else {
                1
            },
    )
}

/// How many of the first `n` tgids belong to the cohort.
pub open spec fn own_among(tgids: Seq<(u32, u64)>, cohort: u64, n: int) -> int {
    total(
        n,
        |i: int|
            if tgids[i].1 == cohort {
                1int
            } else {
                0
            },
    )
}

/// Every tgid whose cohort is gone is dropped, once for each entry and in
/// their order, and no other is.
pub proof fn law_tgids_go_in_order(tgids: Seq<(u32, u64)>, existing: Set<u64>, n: int, i: int)
    requires
        0 <= i < n <= tgids.len(),
    ensures
        stale_of(tgids, existing, n).len() == gone_among(tgids, existing, n),
        0 <= gone_among(tgids, existing, i) <= gone_among(tgids, existing, n),
        !existing.contains(tgids[i].1) ==> {
            &&& gone_among(tgids, existing, i) < gone_among(tgids, existing, n)
            &&& stale_of(tgids, existing, n)[gone_among(tgids, existing, i)] == tgids[i].0
        },
    decreases n,
{
    let f = |i: int|
        if existing.contains(tgids[i].1) {
            0int
        } else {
            1
        };
    lemma_total_nonneg(i, f);
    if n == 1 {
        assert(stale_of(tgids, existing, 0).len() == 0);
        assert(total(0, f) == 0);
        assert(total(1, f) == total(0, f) + f(0));
    } else {
        law_tgids_go_in_order(tgids, existing, n - 1, if i == n - 1 { i - 1 } else { i });
    }
}

/// A merge hands over every tgid of the cohort, once for each entry and in
/// their order, and no other.
pub proof fn law_own_tgids_are_handed_over(tgids: Seq<(u32, u64)>, cohort: u64, n: int, i: int)
    requires
        0 <= i < n <= tgids.len(),
    ensures
        belonging(tgids, cohort, n).len() == own_among(tgids, cohort, n),
        0 <= own_among(tgids, cohort, i) <= own_among(tgids, cohort, n),
        tgids[i].1 == cohort ==> {
            &&& own_among(tgids, cohort, i) < own_among(tgids, cohort, n)
            &&& belonging(tgids, cohort, n)[own_among(tgids, cohort, i)] == tgids[i].0
        },
    decreases n,
{
    let f = |i: int|
        if tgids[i].1 == cohort {
            1int
        } else {
            0
        };
    lemma_total_nonneg(i, f);
    if n == 1 {
        assert(belonging(tgids, cohort, 0).len() == 0);
        assert(total(0, f) == 0);
        assert(total(1, f) == total(0, f) + f(0));
    } else {
        law_own_tgids_are_handed_over(tgids, cohort, n - 1, if i == n - 1 { i - 1 } else { i });
    }
}

/// Every CPU's value counts in full: without CPUs the sum is nothing, and one
/// more adds its value.
pub proof fn law_every_cpu_counts(per_cpu: Seq<u64>, value: u64)
    ensures
        counter_sum(Seq::<u64>::empty()) == 0,
        counter_sum(per_cpu.push(value)) == counter_sum(per_cpu) + value,
{
    let more = per_cpu.push(value);
    let n = per_cpu.len() as int;
    let f = |i: int| per_cpu[i] as int;
    let g = |i: int| more[i] as int;
    lemma_total_ext(n, f, g);
    assert(total(n + 1, g) == total(n, g) + g(n));
}

} // verus!
