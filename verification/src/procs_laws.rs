//! What holds of the per-cohort, per-process view.
use vstd::prelude::*;

use crate::arith::{
    lemma_total_change_one, lemma_total_ext, lemma_total_le, lemma_total_sum, lemma_total_zero, total,
};
use crate::domain::{CohortSnapshot, TaskSnapshot};
use crate::ordered::{in_order, lemma_in_order_lists};
use crate::procs::{
    at_home, away, cohort_of, duty, first_thread, lemma_count_bound, lemma_over_bound,
    lemma_over_step, member_of, one, over, proc_of, runtimes_fit, takes_part, thread_of,
};

verus! {

/// The first thread of a process at or before task `i`.
proof fn lemma_has_first(tasks: Seq<TaskSnapshot>, cohort: u64, tgid: u64, i: int)
    requires
        0 <= i < tasks.len(),
        tasks[i].cohort_id == cohort,
        tasks[i].tgid == tgid,
    ensures
        takes_part(tasks, cohort, tgid),
    decreases i,
{
    if exists|j: int|
        0 <= j < i && (#[trigger] tasks[j]).cohort_id == cohort && tasks[j].tgid == tgid {
        let j = choose|j: int|
            0 <= j < i && (#[trigger] tasks[j]).cohort_id == cohort && tasks[j].tgid == tgid;
        lemma_has_first(tasks, cohort, tgid, j);
    } else {
        assert(first_thread(tasks, cohort, tgid, i));
    }
}

/// Every member task shows up: its cohort's row has a row for its process.
pub proof fn law_members_are_shown(
    c: CohortSnapshot,
    tasks: Seq<TaskSnapshot>,
    spills: Map<u32, u32>,
    tick_ns: u64,
    i: int,
)
    requires
        0 <= i < tasks.len(),
        tasks[i].cohort_id == c.id,
    ensures
        cohort_of(c, tasks, spills, tick_ns).procs.dom().contains(tasks[i].tgid as u64),
{
    lemma_has_first(tasks, c.id, tasks[i].tgid as u64, i);
}

/// A process that shows up has a member task, whose comm the row carries.
pub proof fn law_rows_come_from_members(
    c: CohortSnapshot,
    tasks: Seq<TaskSnapshot>,
    spills: Map<u32, u32>,
    tick_ns: u64,
    tgid: u64,
)
    requires
        cohort_of(c, tasks, spills, tick_ns).procs.dom().contains(tgid),
    ensures
        exists|i: int|
            0 <= i < tasks.len() && (#[trigger] tasks[i]).cohort_id == c.id && tasks[i].tgid == tgid
                && cohort_of(c, tasks, spills, tick_ns).procs[tgid].comm == tasks[i].comm@,
{
    let i = choose|i: int| #[trigger] first_thread(tasks, c.id, tgid, i);
    assert(tasks[i].cohort_id == c.id);
}

/// No process has more spilled threads than threads, nor an affinity above
/// 100%.
pub proof fn law_process_rows_are_consistent(
    tasks: Seq<TaskSnapshot>,
    spills: Map<u32, u32>,
    tick_ns: u64,
    cohort: u64,
    tgid: u64,
)
    requires
        runtimes_fit(tasks),
        tasks.len() <= u64::MAX,
    ensures
        ({
            let p = proc_of(tasks, spills, tick_ns, cohort, tgid);
            p.spilled <= p.threads && p.affinity_pct.num <= p.affinity_pct.den
        }),
{
    let picked = thread_of(cohort, tgid);
    let n = tasks.len() as int;
    assert(tasks.take(n) =~= tasks);
    lemma_over_bound(tasks, picked, duty(), n);
    lemma_over_bound(tasks, picked, at_home(), n);
    lemma_count_bound(tasks, picked, one(), n);
    lemma_count_bound(tasks, picked, away(spills), n);
    let f = |i: int|
        if picked(tasks[i]) {
            away(spills)(tasks[i])
        } else {
            0
        };
    let g = |i: int|
        if picked(tasks[i]) {
            one()(tasks[i])
        } else {
            0
        };
    lemma_total_le(n, f, g);
}

/// One term of a sum, and nothing else.
proof fn lemma_single_term(n: int, k: int, x: int, f: spec_fn(int) -> int)
    requires
        0 <= k < n,
        forall|i: int| 0 <= i < n ==> #[trigger] f(i) == (if i == k {
            x
        } else {
            0
        }),
    ensures
        total(n, f) == x,
{
    let zero = |i: int| 0int;
    assert forall|i: int| 0 <= i < n && i != k implies #[trigger] zero(i) == f(i) by {
        assert(f(i) == 0);
    }
    lemma_total_change_one(n, zero, f, k);
    lemma_total_zero(n);
}

/// The sums over a cohort's processes add up to the sum over its members.
proof fn lemma_processes_add_up(
    tasks: Seq<TaskSnapshot>,
    cohort: u64,
    keys: Seq<u64>,
    quantity: spec_fn(TaskSnapshot) -> int,
    n: int,
)
    requires
        0 <= n <= tasks.len(),
        forall|i: int, j: int| 0 <= i < j < keys.len() ==> keys[i] < keys[j],
        forall|i: int|
            0 <= i < tasks.len() && (#[trigger] tasks[i]).cohort_id == cohort ==> keys.contains(
                tasks[i].tgid as u64,
            ),
    ensures
        total(
            keys.len() as int,
            |k: int| over(tasks.take(n), thread_of(cohort, keys[k]), quantity),
        ) == over(tasks.take(n), member_of(cohort), quantity),
    decreases n,
{
    let m = keys.len() as int;
    let f = |k: int| over(tasks.take(n), thread_of(cohort, keys[k]), quantity);
    if n == 0 {
        assert forall|k: int| 0 <= k < m implies #[trigger] f(k) == 0 by {}
        lemma_total_ext(m, f, |k: int| 0int);
        lemma_total_zero(m);
    } else {
        let t = tasks[n - 1];
        let g = |k: int| over(tasks.take(n - 1), thread_of(cohort, keys[k]), quantity);
        let h = |k: int|
            if t.cohort_id == cohort && t.tgid == keys[k] {
                quantity(t)
            } else {
                0
            };
        lemma_processes_add_up(tasks, cohort, keys, quantity, n - 1);
        lemma_over_step(tasks, member_of(cohort), quantity, n - 1);
        assert forall|k: int| 0 <= k < m implies #[trigger] f(k) == g(k) + h(k) by {
            lemma_over_step(tasks, thread_of(cohort, keys[k]), quantity, n - 1);
        }
        lemma_total_sum(m, g, h, f);
        if t.cohort_id == cohort {
            assert(keys.contains(t.tgid as u64));
            let k = choose|k: int| 0 <= k < m && keys[k] == t.tgid as u64;
            assert forall|i: int| 0 <= i < m implies #[trigger] h(i) == (if i == k {
                quantity(t)
            } else {
                0
            }) by {
                if i < k {
                    assert(keys[i] < keys[k]);
                } else if k < i {
                    assert(keys[k] < keys[i]);
                }
            }
            lemma_single_term(m, k, quantity(t), h);
        } else {
            lemma_total_ext(m, h, |k: int| 0int);
            lemma_total_zero(m);
        }
    }
}

/// A cohort's row sums up its processes' rows: threads make up its tasks, and
/// the processes' utilization makes up its own.
pub proof fn law_cohorts_sum_up_their_processes(
    c: CohortSnapshot,
    tasks: Seq<TaskSnapshot>,
    spills: Map<u32, u32>,
    tick_ns: u64,
)
    requires
        runtimes_fit(tasks),
        tasks.len() <= u64::MAX,
    ensures
        ({
            let row = cohort_of(c, tasks, spills, tick_ns);
            let tgids = in_order(row.procs.dom());
            &&& total(tgids.len() as int, |k: int| row.procs[tgids[k]].threads as int) == row.tasks
            &&& total(tgids.len() as int, |k: int| row.procs[tgids[k]].util_pct.num as int)
                == row.util_pct.num
        }),
{
    let row = cohort_of(c, tasks, spills, tick_ns);
    let tgids = in_order(row.procs.dom());
    let n = tasks.len() as int;
    let m = tgids.len() as int;
    lemma_in_order_lists(row.procs.dom());
    assert(tasks.take(n) =~= tasks);
    assert forall|i: int| 0 <= i < n && (#[trigger] tasks[i]).cohort_id == c.id implies tgids.contains(
        tasks[i].tgid as u64,
    ) by {
        law_members_are_shown(c, tasks, spills, tick_ns, i);
    }
    lemma_processes_add_up(tasks, c.id, tgids, one(), n);
    lemma_processes_add_up(tasks, c.id, tgids, duty(), n);
    lemma_count_bound(tasks, member_of(c.id), one(), n);
    lemma_over_bound(tasks, member_of(c.id), duty(), n);
    let threads = |k: int| row.procs[tgids[k]].threads as int;
    let duties = |k: int| row.procs[tgids[k]].util_pct.num as int;
    let threads_of = |k: int| over(tasks.take(n), thread_of(c.id, tgids[k]), one());
    let duties_of = |k: int| over(tasks.take(n), thread_of(c.id, tgids[k]), duty());
    assert forall|k: int| 0 <= k < m implies #[trigger] threads(k) == threads_of(k) by {
        assert(tgids.contains(tgids[k]));
        lemma_count_bound(tasks, thread_of(c.id, tgids[k]), one(), n);
    }
    assert forall|k: int| 0 <= k < m implies #[trigger] duties(k) == duties_of(k) by {
        assert(tgids.contains(tgids[k]));
        lemma_over_bound(tasks, thread_of(c.id, tgids[k]), duty(), n);
    }
    lemma_total_ext(m, threads, threads_of);
    lemma_total_ext(m, duties, duties_of);
}

} // verus!
