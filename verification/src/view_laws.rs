//! What the rows of the per-cohort, per-process view show of the tasks.
use vstd::prelude::*;

use crate::arith::{lemma_total_ext, lemma_total_le, lemma_total_nonneg, lemma_total_zero, total};
use crate::domain::{CohortSnapshot, LlcLoad, TaskSnapshot};
use crate::procs::{
    at_home, away, cohort_of, cohorts_of, duty, everyone, first_thread, member_of, one, over,
    procs_of, runtimes_fit, takes_part, thread_of, utils_of,
};

verus! {

/// A sum of ones and zeroes is at most the number of terms.
proof fn lemma_at_most_all(n: int, f: spec_fn(int) -> int)
    requires
        0 <= n,
        forall|i: int| 0 <= i < n ==> 0 <= #[trigger] f(i) <= 1,
    ensures
        0 <= total(n, f) <= n,
    decreases n,
{
    if n > 0 {
        lemma_at_most_all(n - 1, f);
        assert(f(n - 1) <= 1);
    }
}

/// The row of a cohort is that of the last entry with its id.
proof fn lemma_row_of(
    cohorts: Seq<CohortSnapshot>,
    tasks: Seq<TaskSnapshot>,
    spills: Map<u32, u32>,
    tick_ns: u64,
    n: int,
    i: int,
)
    requires
        0 <= i < n <= cohorts.len(),
        forall|j: int| i < j < n ==> (#[trigger] cohorts[j]).id != cohorts[i].id,
    ensures
        cohorts_of(cohorts, tasks, spills, tick_ns, n).dom().contains(cohorts[i].id),
        cohorts_of(cohorts, tasks, spills, tick_ns, n)[cohorts[i].id] == cohort_of(
            cohorts[i],
            tasks,
            spills,
            tick_ns,
        ),
    decreases n,
{
    if i < n - 1 {
        lemma_row_of(cohorts, tasks, spills, tick_ns, n - 1, i);
        assert(cohorts[n - 1].id != cohorts[i].id);
    }
}

proof fn lemma_listed(
    cohorts: Seq<CohortSnapshot>,
    tasks: Seq<TaskSnapshot>,
    spills: Map<u32, u32>,
    tick_ns: u64,
    n: int,
    id: u64,
)
    requires
        0 <= n <= cohorts.len(),
    ensures
        cohorts_of(cohorts, tasks, spills, tick_ns, n).dom().contains(id) <==> exists|i: int|
            0 <= i < n && (#[trigger] cohorts[i]).id == id,
    decreases n,
{
    if n > 0 {
        lemma_listed(cohorts, tasks, spills, tick_ns, n - 1, id);
    }
}

/// The view has a row for each cohort of the snapshots, and for no other.
pub proof fn law_every_cohort_has_a_row(
    cohorts: Seq<CohortSnapshot>,
    tasks: Seq<TaskSnapshot>,
    llcs: Seq<LlcLoad>,
    spills: Map<u32, u32>,
    tick_ns: u64,
    id: u64,
)
    ensures
        procs_of(cohorts, tasks, llcs, spills, tick_ns).cohorts.dom().contains(id) <==> exists|
            i: int,
        |
            0 <= i < cohorts.len() && (#[trigger] cohorts[i]).id == id,
{
    lemma_listed(cohorts, tasks, spills, tick_ns, cohorts.len() as int, id);
}

/// A cohort's row shows where its home is and whether it is pinned, counts
/// the tasks that belong to it, and adds up their runtime, at home and all
/// told.
pub proof fn law_cohort_rows_count_their_tasks(
    cohorts: Seq<CohortSnapshot>,
    tasks: Seq<TaskSnapshot>,
    llcs: Seq<LlcLoad>,
    spills: Map<u32, u32>,
    tick_ns: u64,
    i: int,
)
    requires
        0 <= i < cohorts.len(),
        forall|j: int| i < j < cohorts.len() ==> (#[trigger] cohorts[j]).id != cohorts[i].id,
        tasks.len() <= u64::MAX,
        total(tasks.len() as int, |k: int| tasks[k].duty_ns as int) <= u64::MAX,
        total(tasks.len() as int, |k: int| tasks[k].home_ns as int) <= u64::MAX,
    ensures
        ({
            let id = cohorts[i].id;
            let n = tasks.len() as int;
            let row = procs_of(cohorts, tasks, llcs, spills, tick_ns).cohorts[id];
            let duty = total(
                n,
                |k: int|
                    if tasks[k].cohort_id == id {
                        tasks[k].duty_ns as int
                    } else {
                        0
                    },
            );
            let home = total(
                n,
                |k: int|
                    if tasks[k].cohort_id == id {
                        tasks[k].home_ns as int
                    } else {
                        0
                    },
            );
            &&& procs_of(cohorts, tasks, llcs, spills, tick_ns).cohorts.dom().contains(id)
            &&& row.home_llc == cohorts[i].home_llc
            &&& row.pinned == 1 <==> cohorts[i].pinned
            &&& row.pinned == 0 <==> !cohorts[i].pinned
            &&& row.tasks == total(
                n,
                |k: int|
                    if tasks[k].cohort_id == id {
                        1int
                    } else {
                        0
                    },
            )
            &&& row.util_pct.num == duty
            &&& tick_ns > 0 ==> row.util_pct.den == tick_ns
            &&& tick_ns == 0 ==> row.util_pct.den == 1
            &&& row.affinity_pct.num == home
            &&& row.affinity_pct.den == duty
            &&& forall|tgid: u64| #[trigger]
                row.procs.dom().contains(tgid) <==> exists|k: int|
                    0 <= k < n && (#[trigger] tasks[k]).cohort_id == id && tasks[k].tgid == tgid
        }),
{
    let id = cohorts[i].id;
    let n = tasks.len() as int;
    let row = procs_of(cohorts, tasks, llcs, spills, tick_ns).cohorts[id];
    lemma_row_of(cohorts, tasks, spills, tick_ns, cohorts.len() as int, i);
    let ones = |k: int|
        if tasks[k].cohort_id == id {
            1int
        } else {
            0
        };
    let duties = |k: int|
        if tasks[k].cohort_id == id {
            tasks[k].duty_ns as int
        } else {
            0
        };
    let homes = |k: int|
        if tasks[k].cohort_id == id {
            tasks[k].home_ns as int
        } else {
            0
        };
    lemma_at_most_all(n, ones);
    lemma_total_nonneg(n, duties);
    lemma_total_nonneg(n, homes);
    lemma_total_le(n, duties, |k: int| tasks[k].duty_ns as int);
    lemma_total_le(n, homes, |k: int| tasks[k].home_ns as int);
    lemma_same_sums(tasks, id, ones, duties, homes);
    assert forall|tgid: u64| #[trigger] row.procs.dom().contains(tgid) <==> exists|k: int|
        0 <= k < n && (#[trigger] tasks[k]).cohort_id == id && tasks[k].tgid == tgid by {
        if takes_part(tasks, id, tgid) {
            let k = choose|k: int| #[trigger] first_thread(tasks, id, tgid, k);
            assert(tasks[k].cohort_id == id);
        }
        if exists|k: int|
            0 <= k < n && (#[trigger] tasks[k]).cohort_id == id && tasks[k].tgid == tgid {
            let k = choose|k: int|
                0 <= k < n && (#[trigger] tasks[k]).cohort_id == id && tasks[k].tgid == tgid;
            lemma_first(tasks, id, tgid, k);
        }
    }
}

proof fn lemma_first(tasks: Seq<TaskSnapshot>, cohort: u64, tgid: u64, k: int)
    requires
        0 <= k < tasks.len(),
        tasks[k].cohort_id == cohort,
        tasks[k].tgid == tgid,
    ensures
        takes_part(tasks, cohort, tgid),
    decreases k,
{
    if exists|j: int|
        0 <= j < k && (#[trigger] tasks[j]).cohort_id == cohort && tasks[j].tgid == tgid {
        let j = choose|j: int|
            0 <= j < k && (#[trigger] tasks[j]).cohort_id == cohort && tasks[j].tgid == tgid;
        lemma_first(tasks, cohort, tgid, j);
    } else {
        assert(first_thread(tasks, cohort, tgid, k));
    }
}

proof fn lemma_same_sums(
    tasks: Seq<TaskSnapshot>,
    id: u64,
    ones: spec_fn(int) -> int,
    duties: spec_fn(int) -> int,
    homes: spec_fn(int) -> int,
)
    requires
        forall|k: int| 0 <= k < tasks.len() ==> #[trigger] ones(k) == (if tasks[k].cohort_id == id {
            1int
        } else {
            0
        }),
        forall|k: int| 0 <= k < tasks.len() ==> #[trigger] duties(k) == (if tasks[k].cohort_id
            == id {
            tasks[k].duty_ns as int
        } else {
            0
        }),
        forall|k: int| 0 <= k < tasks.len() ==> #[trigger] homes(k) == (if tasks[k].cohort_id
            == id {
            tasks[k].home_ns as int
        } else {
            0
        }),
    ensures
        over(tasks, member_of(id), one()) == total(tasks.len() as int, ones),
        over(tasks, member_of(id), duty()) == total(tasks.len() as int, duties),
        over(tasks, member_of(id), at_home()) == total(tasks.len() as int, homes),
{
    let n = tasks.len() as int;
    let member = member_of(id);
    lemma_total_ext(
        n,
        ones,
        |i: int|
            if member(tasks[i]) {
                one()(tasks[i])
            } else {
                0
            },
    );
    lemma_total_ext(
        n,
        duties,
        |i: int|
            if member(tasks[i]) {
                duty()(tasks[i])
            } else {
                0
            },
    );
    lemma_total_ext(
        n,
        homes,
        |i: int|
            if member(tasks[i]) {
                at_home()(tasks[i])
            } else {
                0
            },
    );
}

/// A process's row, found under its tgid in its cohort's row, carries the
/// name of its first thread, counts its threads in the cohort and those of them
/// that are in the spill map, wherever it sends them, and adds up their runtime.
/// The share of it at home is never shown as more than all.
pub proof fn law_process_rows_count_their_threads(
    cohorts: Seq<CohortSnapshot>,
    tasks: Seq<TaskSnapshot>,
    llcs: Seq<LlcLoad>,
    spills: Map<u32, u32>,
    tick_ns: u64,
    i: int,
    first: int,
)
    requires
        0 <= i < cohorts.len(),
        forall|j: int| i < j < cohorts.len() ==> (#[trigger] cohorts[j]).id != cohorts[i].id,
        0 <= first < tasks.len(),
        tasks[first].cohort_id == cohorts[i].id,
        forall|k: int|
            0 <= k < first ==> !((#[trigger] tasks[k]).cohort_id == cohorts[i].id && tasks[k].tgid
                == tasks[first].tgid),
        tasks.len() <= u64::MAX,
        total(tasks.len() as int, |k: int| tasks[k].duty_ns as int) <= u64::MAX,
        total(tasks.len() as int, |k: int| tasks[k].home_ns as int) <= u64::MAX,
    ensures
        ({
            let id = cohorts[i].id;
            let tgid = tasks[first].tgid;
            let n = tasks.len() as int;
            let rows = procs_of(cohorts, tasks, llcs, spills, tick_ns).cohorts[id].procs;
            let row = rows[tgid as u64];
            let duty = total(
                n,
                |k: int|
                    if tasks[k].cohort_id == id && tasks[k].tgid == tgid {
                        tasks[k].duty_ns as int
                    } else {
                        0
                    },
            );
            let home = total(
                n,
                |k: int|
                    if tasks[k].cohort_id == id && tasks[k].tgid == tgid {
                        tasks[k].home_ns as int
                    } else {
                        0
                    },
            );
            &&& rows.dom().contains(tgid as u64)
            &&& row.tgid == tgid
            &&& row.comm == tasks[first].comm@
            &&& row.threads == total(
                n,
                |k: int|
                    if tasks[k].cohort_id == id && tasks[k].tgid == tgid {
                        1int
                    } else {
                        0
                    },
            )
            &&& row.spilled == total(
                n,
                |k: int|
                    if tasks[k].cohort_id == id && tasks[k].tgid == tgid && spills.contains_key(
                        tasks[k].pid,
                    ) {
                        1int
                    } else {
                        0
                    },
            )
            &&& row.util_pct.num == duty
            &&& tick_ns > 0 ==> row.util_pct.den == tick_ns
            &&& tick_ns == 0 ==> row.util_pct.den == 1
            &&& row.affinity_pct.den == duty
            &&& home <= duty ==> row.affinity_pct.num == home
            &&& home > duty ==> row.affinity_pct.num == duty
        }),
{
    let id = cohorts[i].id;
    let tgid = tasks[first].tgid;
    let n = tasks.len() as int;
    lemma_row_of(cohorts, tasks, spills, tick_ns, cohorts.len() as int, i);
    lemma_first(tasks, id, tgid as u64, first);
    assert(first_thread(tasks, id, tgid as u64, first));
    let chosen = choose|k: int| #[trigger] first_thread(tasks, id, tgid as u64, k);
    assert(chosen == first) by {
        assert(first_thread(tasks, id, tgid as u64, chosen));
        if chosen < first {
            assert(tasks[chosen].cohort_id == id);
        } else if first < chosen {
            assert(tasks[first].cohort_id == id);
        }
    }
    let threads = |k: int|
        if tasks[k].cohort_id == id && tasks[k].tgid == tgid {
            1int
        } else {
            0
        };
    let gone = |k: int|
        if tasks[k].cohort_id == id && tasks[k].tgid == tgid && spills.contains_key(
            tasks[k].pid,
        ) {
            1int
        } else {
            0
        };
    let duties = |k: int|
        if tasks[k].cohort_id == id && tasks[k].tgid == tgid {
            tasks[k].duty_ns as int
        } else {
            0
        };
    let homes = |k: int|
        if tasks[k].cohort_id == id && tasks[k].tgid == tgid {
            tasks[k].home_ns as int
        } else {
            0
        };
    lemma_at_most_all(n, threads);
    lemma_at_most_all(n, gone);
    lemma_total_nonneg(n, duties);
    lemma_total_nonneg(n, homes);
    lemma_total_le(n, duties, |k: int| tasks[k].duty_ns as int);
    lemma_total_le(n, homes, |k: int| tasks[k].home_ns as int);
    let thread = thread_of(id, tgid as u64);
    lemma_total_ext(
        n,
        threads,
        |i: int|
            if thread(tasks[i]) {
                one()(tasks[i])
            } else {
                0
            },
    );
    let away_ = away(spills);
    lemma_total_ext(
        n,
        gone,
        |i: int|
            if thread(tasks[i]) {
                away_(tasks[i])
            } else {
                0
            },
    );
    lemma_total_ext(
        n,
        duties,
        |i: int|
            if thread(tasks[i]) {
                duty()(tasks[i])
            } else {
                0
            },
    );
    lemma_total_ext(
        n,
        homes,
        |i: int|
            if thread(tasks[i]) {
                at_home()(tasks[i])
            } else {
                0
            },
    );
    assert(over(tasks, thread, one()) == total(n, threads));
    assert(over(tasks, thread, away_) == total(n, gone));
    assert(over(tasks, thread, duty()) == total(n, duties));
    assert(over(tasks, thread, at_home()) == total(n, homes));
}

/// The whole view counts all tasks, adds up all runtime, and shows each LLC's
/// load as a share of its capacity.
pub proof fn law_the_totals_count_everything(
    cohorts: Seq<CohortSnapshot>,
    tasks: Seq<TaskSnapshot>,
    llcs: Seq<LlcLoad>,
    spills: Map<u32, u32>,
    tick_ns: u64,
)
    requires
        tasks.len() <= u64::MAX,
        total(tasks.len() as int, |k: int| tasks[k].duty_ns as int) <= u64::MAX,
        total(tasks.len() as int, |k: int| tasks[k].home_ns as int) <= u64::MAX,
    ensures
        ({
            let view = procs_of(cohorts, tasks, llcs, spills, tick_ns);
            &&& view.nr_tasks == tasks.len()
            &&& view.affinity_pct.num == total(
                tasks.len() as int,
                |k: int| tasks[k].home_ns as int,
            )
            &&& view.affinity_pct.den == total(
                tasks.len() as int,
                |k: int| tasks[k].duty_ns as int,
            )
        }),
{
    let n = tasks.len() as int;
    let homes = |k: int| tasks[k].home_ns as int;
    let duties = |k: int| tasks[k].duty_ns as int;
    let all = everyone();
    lemma_total_nonneg(n, homes);
    lemma_total_nonneg(n, duties);
    lemma_total_ext(
        n,
        homes,
        |i: int|
            if all(tasks[i]) {
                at_home()(tasks[i])
            } else {
                0
            },
    );
    lemma_total_ext(
        n,
        duties,
        |i: int|
            if all(tasks[i]) {
                duty()(tasks[i])
            } else {
                0
            },
    );
}

proof fn lemma_util(llcs: Seq<LlcLoad>, n: int, i: int)
    requires
        0 <= i < n <= llcs.len(),
        forall|j: int| i < j < n ==> (#[trigger] llcs[j]).llc != llcs[i].llc,
    ensures
        utils_of(llcs, n).dom().contains(llcs[i].llc as u64),
        utils_of(llcs, n)[llcs[i].llc as u64].num == llcs[i].load_ns,
        llcs[i].capacity_ns > 0 ==> utils_of(llcs, n)[llcs[i].llc as u64].den
            == llcs[i].capacity_ns,
        llcs[i].capacity_ns == 0 ==> utils_of(llcs, n)[llcs[i].llc as u64].den == 1,
    decreases n,
{
    if i < n - 1 {
        lemma_util(llcs, n - 1, i);
        assert(llcs[n - 1].llc != llcs[i].llc);
    }
}

proof fn lemma_utils_listed(llcs: Seq<LlcLoad>, n: int, llc: u64)
    requires
        0 <= n <= llcs.len(),
    ensures
        utils_of(llcs, n).dom().contains(llc) <==> exists|i: int|
            0 <= i < n && (#[trigger] llcs[i]).llc == llc,
    decreases n,
{
    if n > 0 {
        lemma_utils_listed(llcs, n - 1, llc);
    }
}

/// Each LLC of the snapshots, and no other, is shown with its load as a share
/// of its capacity.
pub proof fn law_llcs_are_shown_with_their_load(
    cohorts: Seq<CohortSnapshot>,
    tasks: Seq<TaskSnapshot>,
    llcs: Seq<LlcLoad>,
    spills: Map<u32, u32>,
    tick_ns: u64,
)
    ensures
        ({
            let utils = procs_of(cohorts, tasks, llcs, spills, tick_ns).llc_util_pct;
            &&& forall|llc: u64| #[trigger]
                utils.dom().contains(llc) <==> exists|i: int|
                    0 <= i < llcs.len() && (#[trigger] llcs[i]).llc == llc
            &&& forall|i: int|
                0 <= i < llcs.len() && (forall|j: int|
                    i < j < llcs.len() ==> (#[trigger] llcs[j]).llc != llcs[i].llc) ==> {
                    &&& utils[(#[trigger] llcs[i]).llc as u64].num == llcs[i].load_ns
                    &&& llcs[i].capacity_ns > 0 ==> utils[llcs[i].llc as u64].den
                        == llcs[i].capacity_ns
                    &&& llcs[i].capacity_ns == 0 ==> utils[llcs[i].llc as u64].den == 1
                }
        }),
{
    let utils = procs_of(cohorts, tasks, llcs, spills, tick_ns).llc_util_pct;
    let n = llcs.len() as int;
    assert forall|llc: u64| #[trigger] utils.dom().contains(llc) <==> exists|i: int|
        0 <= i < llcs.len() && (#[trigger] llcs[i]).llc == llc by {
        lemma_utils_listed(llcs, n, llc);
    }
    assert forall|i: int|
        0 <= i < llcs.len() && (forall|j: int|
            i < j < llcs.len() ==> (#[trigger] llcs[j]).llc != llcs[i].llc) implies {
        &&& utils[(#[trigger] llcs[i]).llc as u64].num == llcs[i].load_ns
        &&& llcs[i].capacity_ns > 0 ==> utils[llcs[i].llc as u64].den == llcs[i].capacity_ns
        &&& llcs[i].capacity_ns == 0 ==> utils[llcs[i].llc as u64].den == 1
    } by {
        lemma_util(llcs, n, i);
    }
}

// ---- Spilled threads ----

/// Where the spill map sends a task makes no difference to the view: two maps
/// with the same keys give the same one.
pub proof fn law_spill_targets_are_not_shown(
    cohorts: Seq<CohortSnapshot>,
    tasks: Seq<TaskSnapshot>,
    llcs: Seq<LlcLoad>,
    spills: Map<u32, u32>,
    others: Map<u32, u32>,
    tick_ns: u64,
)
    requires
        forall|pid: u32| #[trigger] spills.contains_key(pid) <==> others.contains_key(pid),
    ensures
        procs_of(cohorts, tasks, llcs, spills, tick_ns) == procs_of(
            cohorts,
            tasks,
            llcs,
            others,
            tick_ns,
        ),
{
    lemma_same_keys(cohorts, tasks, spills, others, tick_ns, cohorts.len() as int);
}

proof fn lemma_same_keys(
    cohorts: Seq<CohortSnapshot>,
    tasks: Seq<TaskSnapshot>,
    spills: Map<u32, u32>,
    others: Map<u32, u32>,
    tick_ns: u64,
    n: int,
)
    requires
        forall|pid: u32| #[trigger] spills.contains_key(pid) <==> others.contains_key(pid),
        0 <= n <= cohorts.len(),
    ensures
        cohorts_of(cohorts, tasks, spills, tick_ns, n) == cohorts_of(
            cohorts,
            tasks,
            others,
            tick_ns,
            n,
        ),
    decreases n,
{
    if n > 0 {
        lemma_same_keys(cohorts, tasks, spills, others, tick_ns, n - 1);
        let c = cohorts[n - 1];
        assert forall|t: TaskSnapshot| #[trigger] away(spills)(t) == away(others)(t) by {
            assert(spills.contains_key(t.pid) <==> others.contains_key(t.pid));
        }
        assert(away(spills) =~= away(others));
        assert(cohort_of(c, tasks, spills, tick_ns) == cohort_of(c, tasks, others, tick_ns));
    }
}

/// With every one of its threads in the spill map all of a process's threads
/// show as spilled, and with none of them in it none.
pub proof fn law_spilled_threads_are_those_in_the_map(
    cohorts: Seq<CohortSnapshot>,
    tasks: Seq<TaskSnapshot>,
    llcs: Seq<LlcLoad>,
    spills: Map<u32, u32>,
    tick_ns: u64,
    id: u64,
    tgid: u32,
)
    requires
        tasks.len() <= u64::MAX,
        procs_of(cohorts, tasks, llcs, spills, tick_ns).cohorts.dom().contains(id),
    ensures
        ({
            let row = procs_of(cohorts, tasks, llcs, spills, tick_ns).cohorts[id].procs[tgid as u64];
            let shown = procs_of(cohorts, tasks, llcs, spills, tick_ns).cohorts[id].procs.dom();
            shown.contains(tgid as u64) ==> {
                &&& (forall|k: int|
                    0 <= k < tasks.len() && (#[trigger] tasks[k]).cohort_id == id && tasks[k].tgid
                        == tgid ==> spills.contains_key(tasks[k].pid)) ==> row.spilled
                    == row.threads
                &&& (forall|k: int|
                    0 <= k < tasks.len() && (#[trigger] tasks[k]).cohort_id == id && tasks[k].tgid
                        == tgid ==> !spills.contains_key(tasks[k].pid)) ==> row.spilled == 0
            }
        }),
{
    lemma_listed(cohorts, tasks, spills, tick_ns, cohorts.len() as int, id);
    let i = lemma_last_entry(cohorts, id, cohorts.len() as int);
    lemma_row_of(cohorts, tasks, spills, tick_ns, cohorts.len() as int, i);
    let n = tasks.len() as int;
    let thread = thread_of(id, tgid as u64);
    let gone = away(spills);
    let f = |k: int|
        if thread(tasks[k]) {
            gone(tasks[k])
        } else {
            0
        };
    let g = |k: int|
        if thread(tasks[k]) {
            one()(tasks[k])
        } else {
            0
        };
    if forall|k: int|
        0 <= k < tasks.len() && (#[trigger] tasks[k]).cohort_id == id && tasks[k].tgid == tgid
            ==> spills.contains_key(tasks[k].pid) {
        lemma_total_ext(n, f, g);
    }
    if forall|k: int|
        0 <= k < tasks.len() && (#[trigger] tasks[k]).cohort_id == id && tasks[k].tgid == tgid
            ==> !spills.contains_key(tasks[k].pid) {
        lemma_total_ext(n, f, |k: int| 0int);
        lemma_total_zero(n);
    }
}

proof fn lemma_last_entry(cohorts: Seq<CohortSnapshot>, id: u64, n: int) -> (i: int)
    requires
        0 <= n <= cohorts.len(),
        exists|i: int| 0 <= i < n && (#[trigger] cohorts[i]).id == id,
    ensures
        0 <= i < n,
        cohorts[i].id == id,
        forall|j: int| i < j < n ==> (#[trigger] cohorts[j]).id != id,
    decreases n,
{
    if cohorts[n - 1].id == id {
        n - 1
    } else {
        lemma_last_entry(cohorts, id, n - 1)
    }
}

/// A view can be made exactly if the runtimes of all tasks add up to no more
/// than 64 bits hold, and those at home do.
pub proof fn law_a_view_is_made_where_the_runtimes_fit(tasks: Seq<TaskSnapshot>)
    ensures
        runtimes_fit(tasks) <==> {
            &&& total(tasks.len() as int, |i: int| tasks[i].duty_ns as int) <= u64::MAX
            &&& total(tasks.len() as int, |i: int| tasks[i].home_ns as int) <= u64::MAX
        },
{
    let n = tasks.len() as int;
    lemma_total_ext(
        n,
        |i: int| tasks[i].duty_ns as int,
        |i: int|
            if everyone()(tasks[i]) {
                duty()(tasks[i])
            } else {
                0
            },
    );
    lemma_total_ext(
        n,
        |i: int| tasks[i].home_ns as int,
        |i: int|
            if everyone()(tasks[i]) {
                at_home()(tasks[i])
            } else {
                0
            },
    );
}

} // verus!
