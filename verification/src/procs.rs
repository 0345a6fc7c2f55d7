//! The per-cohort, per-process view: threads, utilization and affinity.
use std::collections::{BTreeMap, HashMap};

use vstd::prelude::*;

use crate::arith::{
    lemma_total_ext, lemma_total_le, lemma_total_monotone, lemma_total_nonneg, lemma_total_zero, total,
};
use crate::domain::{CohortSnapshot, LlcLoad, TaskSnapshot};
use crate::ordered::{lists_in_order, sorted_keys};
use crate::stats::{at_least_one, Pct};

verus! {

/// One process (thread group) in the procs view.
#[derive(Debug)]
pub struct ProcRow {
    /// Thread group id.
    pub tgid: u64,
    /// Process comm.
    pub comm: String,
    /// Live threads.
    pub threads: u64,
    /// Threads currently spilled to the other CCD.
    pub spilled: u64,
    /// CPU utilization, % of one CPU.
    pub util_pct: Pct,
    /// % of runtime executed on the home CCD.
    pub affinity_pct: Pct,
}

/// One cohort with its member processes.
#[derive(Debug)]
pub struct CohortRow {
    /// Home CCD (LLC id).
    pub home_llc: u64,
    /// Pinned by a rule (1/0).
    pub pinned: u64,
    /// Live tasks.
    pub tasks: u64,
    /// CPU utilization, % of one CPU.
    pub util_pct: Pct,
    /// % of member runtime executed on the home CCD.
    pub affinity_pct: Pct,
    /// Member processes, keyed by tgid.
    pub procs: BTreeMap<u64, ProcRow>,
}

/// Everything per cohort and per process.
#[derive(Debug)]
pub struct ProcsSnapshot {
    /// Live tasks under the scheduler.
    pub nr_tasks: u64,
    /// Global % of runtime executed on home CCDs.
    pub affinity_pct: Pct,
    /// Per-LLC utilization, % of LLC capacity.
    pub llc_util_pct: BTreeMap<u64, Pct>,
    /// Cohorts, keyed by cohort id.
    pub cohorts: BTreeMap<u64, CohortRow>,
}

// ---- What the rows say ----

pub struct ProcModel {
    pub tgid: u64,
    pub comm: Seq<char>,
    pub threads: u64,
    pub spilled: u64,
    pub util_pct: Pct,
    pub affinity_pct: Pct,
}

#[verifier::ext_equal]
pub struct CohortModel {
    pub home_llc: u64,
    pub pinned: u64,
    pub tasks: u64,
    pub util_pct: Pct,
    pub affinity_pct: Pct,
    pub procs: Map<u64, ProcModel>,
}

pub struct ProcsModel {
    pub nr_tasks: u64,
    pub affinity_pct: Pct,
    pub llc_util_pct: Map<u64, Pct>,
    pub cohorts: Map<u64, CohortModel>,
}

impl View for ProcRow {
    type V = ProcModel;

    open spec fn view(&self) -> ProcModel {
        ProcModel {
            tgid: self.tgid,
            comm: self.comm@,
            threads: self.threads,
            spilled: self.spilled,
            util_pct: self.util_pct,
            affinity_pct: self.affinity_pct,
        }
    }
}

/// The processes that the rows show.
pub open spec fn shown_procs(rows: Map<u64, ProcRow>) -> Map<u64, ProcModel> {
    Map::new(|k: u64| rows.dom().contains(k), |k: u64| rows[k]@)
}

impl View for CohortRow {
    type V = CohortModel;

    open spec fn view(&self) -> CohortModel {
        CohortModel {
            home_llc: self.home_llc,
            pinned: self.pinned,
            tasks: self.tasks,
            util_pct: self.util_pct,
            affinity_pct: self.affinity_pct,
            procs: shown_procs(self.procs@),
        }
    }
}

/// The cohorts that the rows show.
pub open spec fn shown_cohorts(rows: Map<u64, CohortRow>) -> Map<u64, CohortModel> {
    Map::new(|k: u64| rows.dom().contains(k), |k: u64| rows[k]@)
}

impl View for ProcsSnapshot {
    type V = ProcsModel;

    open spec fn view(&self) -> ProcsModel {
        ProcsModel {
            nr_tasks: self.nr_tasks,
            affinity_pct: self.affinity_pct,
            llc_util_pct: self.llc_util_pct@,
            cohorts: shown_cohorts(self.cohorts@),
        }
    }
}

// ---- Sums over tasks ----

/// The sum of a quantity over the tasks that are picked.
pub open spec fn over(
    tasks: Seq<TaskSnapshot>,
    picked: spec_fn(TaskSnapshot) -> bool,
    quantity: spec_fn(TaskSnapshot) -> int,
) -> int {
    total(
        tasks.len() as int,
        |i: int|
            if picked(tasks[i]) {
                quantity(tasks[i])
            } else {
                0
            },
    )
}

pub open spec fn duty() -> spec_fn(TaskSnapshot) -> int {
    |t: TaskSnapshot| t.duty_ns as int
}

pub open spec fn at_home() -> spec_fn(TaskSnapshot) -> int {
    |t: TaskSnapshot| t.home_ns as int
}

pub open spec fn one() -> spec_fn(TaskSnapshot) -> int {
    |t: TaskSnapshot| 1int
}

/// One if the task is spilled.
pub open spec fn away(spills: Map<u32, u32>) -> spec_fn(TaskSnapshot) -> int {
    |t: TaskSnapshot|
        if spills.dom().contains(t.pid) {
            1int
        } else {
            0
        }
}

pub open spec fn everyone() -> spec_fn(TaskSnapshot) -> bool {
    |t: TaskSnapshot| true
}

/// The tasks of a cohort.
pub open spec fn member_of(cohort: u64) -> spec_fn(TaskSnapshot) -> bool {
    |t: TaskSnapshot| t.cohort_id == cohort
}

/// The cohort's threads of a process.
pub open spec fn thread_of(cohort: u64, tgid: u64) -> spec_fn(TaskSnapshot) -> bool {
    |t: TaskSnapshot| t.cohort_id == cohort && t.tgid == tgid
}

/// Task `i` is the first of the cohort's threads of the process.
pub open spec fn first_thread(tasks: Seq<TaskSnapshot>, cohort: u64, tgid: u64, i: int) -> bool {
    &&& 0 <= i < tasks.len()
    &&& tasks[i].cohort_id == cohort && tasks[i].tgid == tgid
    &&& forall|j: int|
        0 <= j < i ==> !((#[trigger] tasks[j]).cohort_id == cohort && tasks[j].tgid == tgid)
}

/// The process has a thread in the cohort.
pub open spec fn takes_part(tasks: Seq<TaskSnapshot>, cohort: u64, tgid: u64) -> bool {
    exists|i: int| #[trigger] first_thread(tasks, cohort, tgid, i)
}

/// The share of `home` in `duty`; rounding of the samples does not show as
/// more than all.
pub open spec fn share(home: int, duty: int) -> Pct {
    Pct {
        num: (if home <= duty {
            home
        } else {
            duty
        }) as u64,
        den: duty as u64,
    }
}

/// The row of a process: its comm is that of its first thread.
pub open spec fn proc_of(
    tasks: Seq<TaskSnapshot>,
    spills: Map<u32, u32>,
    tick_ns: u64,
    cohort: u64,
    tgid: u64,
) -> ProcModel {
    let threads = thread_of(cohort, tgid);
    let first = choose|i: int| #[trigger] first_thread(tasks, cohort, tgid, i);
    ProcModel {
        tgid,
        comm: tasks[first].comm@,
        threads: over(tasks, threads, one()) as u64,
        spilled: over(tasks, threads, away(spills)) as u64,
        util_pct: Pct { num: over(tasks, threads, duty()) as u64, den: at_least_one(tick_ns) },
        affinity_pct: share(over(tasks, threads, at_home()), over(tasks, threads, duty())),
    }
}

/// The row of a cohort.
pub open spec fn cohort_of(
    c: CohortSnapshot,
    tasks: Seq<TaskSnapshot>,
    spills: Map<u32, u32>,
    tick_ns: u64,
) -> CohortModel {
    let members = member_of(c.id);
    CohortModel {
        home_llc: c.home_llc as u64,
        pinned: if c.pinned {
            1
        } else {
            0
        },
        tasks: over(tasks, members, one()) as u64,
        util_pct: Pct { num: over(tasks, members, duty()) as u64, den: at_least_one(tick_ns) },
        affinity_pct: Pct {
            num: over(tasks, members, at_home()) as u64,
            den: over(tasks, members, duty()) as u64,
        },
        procs: Map::new(
            |tgid: u64| takes_part(tasks, c.id, tgid),
            |tgid: u64| proc_of(tasks, spills, tick_ns, c.id, tgid),
        ),
    }
}

/// The rows of the first `n` cohorts.
pub open spec fn cohorts_of(
    cohorts: Seq<CohortSnapshot>,
    tasks: Seq<TaskSnapshot>,
    spills: Map<u32, u32>,
    tick_ns: u64,
    n: int,
) -> Map<u64, CohortModel>
    decreases n,
{
    if n <= 0 {
        Map::empty()
    } else {
        cohorts_of(cohorts, tasks, spills, tick_ns, n - 1).insert(
            cohorts[n - 1].id,
            cohort_of(cohorts[n - 1], tasks, spills, tick_ns),
        )
    }
}

/// The utilization of the first `n` LLCs.
pub open spec fn utils_of(llcs: Seq<LlcLoad>, n: int) -> Map<u64, Pct>
    decreases n,
{
    if n <= 0 {
        Map::empty()
    } else {
        let l = llcs[n - 1];
        utils_of(llcs, n - 1).insert(
            l.llc as u64,
            Pct { num: l.load_ns, den: at_least_one(l.capacity_ns) },
        )
    }
}

/// The whole view.
pub open spec fn procs_of(
    cohorts: Seq<CohortSnapshot>,
    tasks: Seq<TaskSnapshot>,
    llcs: Seq<LlcLoad>,
    spills: Map<u32, u32>,
    tick_ns: u64,
) -> ProcsModel {
    ProcsModel {
        nr_tasks: tasks.len() as u64,
        affinity_pct: Pct {
            num: over(tasks, everyone(), at_home()) as u64,
            den: over(tasks, everyone(), duty()) as u64,
        },
        llc_util_pct: utils_of(llcs, llcs.len() as int),
        cohorts: cohorts_of(cohorts, tasks, spills, tick_ns, cohorts.len() as int),
    }
}

/// The tasks' runtimes add up to no more than 64 bits hold.
pub open spec fn runtimes_fit(tasks: Seq<TaskSnapshot>) -> bool {
    over(tasks, everyone(), duty()) <= u64::MAX && over(tasks, everyone(), at_home()) <= u64::MAX
}

// ---- Lemmas on sums ----

/// One more task adds its quantity if it is picked.
pub proof fn lemma_over_step(
    tasks: Seq<TaskSnapshot>,
    picked: spec_fn(TaskSnapshot) -> bool,
    quantity: spec_fn(TaskSnapshot) -> int,
    n: int,
)
    requires
        0 <= n < tasks.len(),
    ensures
        over(tasks.take(n + 1), picked, quantity) == over(tasks.take(n), picked, quantity) + (
        if picked(tasks[n]) {
            quantity(tasks[n])
        } else {
            0
        }),
{
    let t = tasks.take(n);
    let u = tasks.take(n + 1);
    let f = |i: int|
        if picked(t[i]) {
            quantity(t[i])
        } else {
            0
        };
    let g = |i: int|
        if picked(u[i]) {
            quantity(u[i])
        } else {
            0
        };
    assert forall|i: int| 0 <= i < n implies #[trigger] f(i) == g(i) by {
        assert(t[i] == u[i]);
    }
    lemma_total_ext(n, f, g);
    assert(u[n] == tasks[n]);
}

/// Fewer tasks of which fewer are picked add up to no more.
pub proof fn lemma_over_bound(
    tasks: Seq<TaskSnapshot>,
    picked: spec_fn(TaskSnapshot) -> bool,
    quantity: spec_fn(TaskSnapshot) -> int,
    n: int,
)
    requires
        0 <= n <= tasks.len(),
        forall|t: TaskSnapshot| #[trigger] quantity(t) >= 0,
    ensures
        0 <= over(tasks.take(n), picked, quantity) <= over(tasks, everyone(), quantity),
{
    let t = tasks.take(n);
    let f = |i: int|
        if picked(t[i]) {
            quantity(t[i])
        } else {
            0
        };
    let g = |i: int|
        if everyone()(tasks[i]) {
            quantity(tasks[i])
        } else {
            0
        };
    assert forall|i: int| 0 <= i < n implies #[trigger] f(i) <= g(i) by {
        assert(t[i] == tasks[i]);
        assert(quantity(t[i]) >= 0);
    }
    lemma_total_le(n, f, g);
    assert forall|i: int| 0 <= i < n implies #[trigger] f(i) >= 0 by {
        assert(quantity(t[i]) >= 0);
    }
    lemma_total_nonneg(n, f);
    assert forall|i: int| 0 <= i < tasks.len() implies #[trigger] g(i) >= 0 by {
        assert(quantity(tasks[i]) >= 0);
    }
    lemma_total_monotone(n, tasks.len() as int, g);
}

/// At most all tasks are counted.
pub proof fn lemma_count_bound(
    tasks: Seq<TaskSnapshot>,
    picked: spec_fn(TaskSnapshot) -> bool,
    quantity: spec_fn(TaskSnapshot) -> int,
    n: int,
)
    requires
        0 <= n <= tasks.len(),
        forall|t: TaskSnapshot| 0 <= #[trigger] quantity(t) <= 1,
    ensures
        0 <= over(tasks.take(n), picked, quantity) <= n,
    decreases n,
{
    if n > 0 {
        lemma_count_bound(tasks, picked, quantity, n - 1);
        lemma_over_step(tasks, picked, quantity, n - 1);
        assert(0 <= quantity(tasks[n - 1]) <= 1);
    }
}

/// The first thread of a process stays the first when more tasks follow.
proof fn lemma_first_thread_step(tasks: Seq<TaskSnapshot>, cohort: u64, tgid: u64, n: int)
    requires
        0 <= n < tasks.len(),
    ensures
        forall|i: int|
            first_thread(tasks.take(n), cohort, tgid, i) ==> #[trigger] first_thread(
                tasks.take(n + 1),
                cohort,
                tgid,
                i,
            ),
        takes_part(tasks.take(n + 1), cohort, tgid) <==> (takes_part(tasks.take(n), cohort, tgid)
            || (tasks[n].cohort_id == cohort && tasks[n].tgid == tgid)),
        !takes_part(tasks.take(n), cohort, tgid) && tasks[n].cohort_id == cohort && tasks[n].tgid
            == tgid ==> first_thread(tasks.take(n + 1), cohort, tgid, n),
{
    let t = tasks.take(n);
    let u = tasks.take(n + 1);
    assert forall|i: int| first_thread(t, cohort, tgid, i) implies #[trigger] first_thread(
        u,
        cohort,
        tgid,
        i,
    ) by {
        assert forall|j: int| 0 <= j < i implies !((#[trigger] u[j]).cohort_id == cohort
            && u[j].tgid == tgid) by {
            assert(u[j] == t[j]);
        }
        assert(u[i] == t[i]);
    }
    if takes_part(t, cohort, tgid) {
        let i = choose|i: int| #[trigger] first_thread(t, cohort, tgid, i);
        assert(first_thread(u, cohort, tgid, i));
    } else {
        lemma_no_thread(t, cohort, tgid, n);
        if tasks[n].cohort_id == cohort && tasks[n].tgid == tgid {
            assert forall|j: int| 0 <= j < n implies !((#[trigger] u[j]).cohort_id == cohort
                && u[j].tgid == tgid) by {
                assert(u[j] == t[j]);
            }
            assert(first_thread(u, cohort, tgid, n));
        } else if takes_part(u, cohort, tgid) {
            let i = choose|i: int| #[trigger] first_thread(u, cohort, tgid, i);
            assert(u[i] == tasks[i]);
            assert(i < n ==> u[i] == t[i]);
        }
    }
}

/// Without a first thread there is no thread at all.
proof fn lemma_no_thread(tasks: Seq<TaskSnapshot>, cohort: u64, tgid: u64, n: int)
    requires
        !takes_part(tasks, cohort, tgid),
        0 <= n <= tasks.len(),
    ensures
        forall|i: int|
            0 <= i < n ==> !((#[trigger] tasks[i]).cohort_id == cohort && tasks[i].tgid == tgid),
    decreases n,
{
    if n > 0 {
        lemma_no_thread(tasks, cohort, tgid, n - 1);
        if tasks[n - 1].cohort_id == cohort && tasks[n - 1].tgid == tgid {
            assert(first_thread(tasks, cohort, tgid, n - 1));
        }
    }
}

/// A process without threads has empty sums.
proof fn lemma_no_thread_sum(
    tasks: Seq<TaskSnapshot>,
    cohort: u64,
    tgid: u64,
    quantity: spec_fn(TaskSnapshot) -> int,
)
    requires
        !takes_part(tasks, cohort, tgid),
    ensures
        over(tasks, thread_of(cohort, tgid), quantity) == 0,
{
    lemma_no_thread(tasks, cohort, tgid, tasks.len() as int);
    let f = |i: int|
        if thread_of(cohort, tgid)(tasks[i]) {
            quantity(tasks[i])
        } else {
            0
        };
    lemma_total_ext(tasks.len() as int, f, |i: int| 0int);
    lemma_total_zero(tasks.len() as int);
}

// ---- Assembly ----

/// What is known of a process so far.
#[derive(Clone, Copy)]
struct Tally {
    /// Its first thread.
    first: usize,
    threads: u64,
    spilled: u64,
    duty_ns: u64,
    home_ns: u64,
}

/// `tally` sums up the process over the tasks.
spec fn tallies(
    tasks: Seq<TaskSnapshot>,
    spills: Map<u32, u32>,
    cohort: u64,
    tgid: u64,
    tally: Tally,
) -> bool {
    let threads = thread_of(cohort, tgid);
    &&& first_thread(tasks, cohort, tgid, tally.first as int)
    &&& tally.threads == over(tasks, threads, one())
    &&& tally.spilled == over(tasks, threads, away(spills))
    &&& tally.duty_ns == over(tasks, threads, duty())
    &&& tally.home_ns == over(tasks, threads, at_home())
}

/// `book` holds a tally of each process of the cohort, and of no other.
spec fn books(
    tasks: Seq<TaskSnapshot>,
    spills: Map<u32, u32>,
    cohort: u64,
    book: Map<u64, Tally>,
) -> bool {
    &&& forall|tgid: u64| #[trigger]
        book.dom().contains(tgid) <==> takes_part(tasks, cohort, tgid)
    &&& forall|tgid: u64| #[trigger]
        book.dom().contains(tgid) ==> tallies(tasks, spills, cohort, tgid, book[tgid])
}

/// A task that is no thread of the process leaves its tally alone.
proof fn lemma_tally_unmoved(
    tasks: Seq<TaskSnapshot>,
    spills: Map<u32, u32>,
    cohort: u64,
    tgid: u64,
    n: int,
    tally: Tally,
)
    requires
        0 <= n < tasks.len(),
        !(tasks[n].cohort_id == cohort && tasks[n].tgid == tgid),
        tallies(tasks.take(n), spills, cohort, tgid, tally),
    ensures
        tallies(tasks.take(n + 1), spills, cohort, tgid, tally),
{
    let threads = thread_of(cohort, tgid);
    lemma_first_thread_step(tasks, cohort, tgid, n);
    lemma_over_step(tasks, threads, one(), n);
    lemma_over_step(tasks, threads, away(spills), n);
    lemma_over_step(tasks, threads, duty(), n);
    lemma_over_step(tasks, threads, at_home(), n);
    assert(first_thread(tasks.take(n + 1), cohort, tgid, tally.first as int));
}

/// Adds task `n` to the tally of its process.
fn tally_task(
    tasks: &[TaskSnapshot],
    spills: &HashMap<u32, u32>,
    n: usize,
    before: Option<Tally>,
) -> (after: Tally)
    requires
        n < tasks@.len(),
        runtimes_fit(tasks@),
        ({
            let t = tasks@[n as int];
            match before {
                Some(tally) => tallies(
                    tasks@.take(n as int),
                    spills@,
                    t.cohort_id,
                    t.tgid as u64,
                    tally,
                ),
                None => !takes_part(tasks@.take(n as int), t.cohort_id, t.tgid as u64),
            }
        }),
    ensures
        tallies(
            tasks@.take(n + 1),
            spills@,
            tasks@[n as int].cohort_id,
            tasks@[n as int].tgid as u64,
            after,
        ),
{
    let t = &tasks[n];
    let ghost cohort = t.cohort_id;
    let ghost tgid = t.tgid as u64;
    let ghost threads = thread_of(cohort, tgid);
    let sofar = match before {
        Some(tally) => tally,
        None => Tally { first: n, threads: 0, spilled: 0, duty_ns: 0, home_ns: 0 },
    };
    proof {
        let m = n as int;
        if before is None {
            lemma_no_thread_sum(tasks@.take(m), cohort, tgid, one());
            lemma_no_thread_sum(tasks@.take(m), cohort, tgid, away(spills@));
            lemma_no_thread_sum(tasks@.take(m), cohort, tgid, duty());
            lemma_no_thread_sum(tasks@.take(m), cohort, tgid, at_home());
        }
        lemma_first_thread_step(tasks@, cohort, tgid, m);
        lemma_over_step(tasks@, threads, one(), m);
        lemma_over_step(tasks@, threads, away(spills@), m);
        lemma_over_step(tasks@, threads, duty(), m);
        lemma_over_step(tasks@, threads, at_home(), m);
        lemma_count_bound(tasks@, threads, one(), m + 1);
        lemma_count_bound(tasks@, threads, away(spills@), m + 1);
        lemma_over_bound(tasks@, threads, duty(), m + 1);
        lemma_over_bound(tasks@, threads, at_home(), m + 1);
        assert(first_thread(tasks@.take(m + 1), cohort, tgid, sofar.first as int));
        assert(n < usize::MAX);
    }
    let away: u64 = if spills.contains_key(&t.pid) {
        1
    } else {
        0
    };
    Tally {
        first: sofar.first,
        threads: sofar.threads + 1,
        spilled: sofar.spilled + away,
        duty_ns: sofar.duty_ns + t.duty_ns,
        home_ns: sofar.home_ns + t.home_ns,
    }
}

/// What the members of a cohort add up to.
struct CohortSums {
    book: BTreeMap<u64, Tally>,
    tasks: u64,
    duty_ns: u64,
    home_ns: u64,
}

fn sum_cohort(tasks: &[TaskSnapshot], spills: &HashMap<u32, u32>, cohort: u64) -> (sums: CohortSums)
    requires
        runtimes_fit(tasks@),
    ensures
        books(tasks@, spills@, cohort, sums.book@),
        sums.tasks == over(tasks@, member_of(cohort), one()),
        sums.duty_ns == over(tasks@, member_of(cohort), duty()),
        sums.home_ns == over(tasks@, member_of(cohort), at_home()),
{
    let ghost members = member_of(cohort);
    let mut book: BTreeMap<u64, Tally> = BTreeMap::new();
    let mut count: u64 = 0;
    let mut duty_ns: u64 = 0;
    let mut home_ns: u64 = 0;
    let mut n: usize = 0;
    proof {
        assert forall|tgid: u64| !takes_part(tasks@.take(0), cohort, tgid) by {}
    }
    while n < tasks.len()
        invariant
            n <= tasks@.len(),
            members == member_of(cohort),
            runtimes_fit(tasks@),
            books(tasks@.take(n as int), spills@, cohort, book@),
            count == over(tasks@.take(n as int), members, one()),
            duty_ns == over(tasks@.take(n as int), members, duty()),
            home_ns == over(tasks@.take(n as int), members, at_home()),
        decreases tasks@.len() - n,
    {
        let ghost m = n as int;
        let ghost before = book@;
        proof {
            lemma_over_step(tasks@, members, one(), m);
            lemma_over_step(tasks@, members, duty(), m);
            lemma_over_step(tasks@, members, at_home(), m);
            lemma_count_bound(tasks@, members, one(), m + 1);
            lemma_over_bound(tasks@, members, duty(), m + 1);
            lemma_over_bound(tasks@, members, at_home(), m + 1);
        }
        let t = &tasks[n];
        if t.cohort_id == cohort {
            let tgid = t.tgid as u64;
            let known: Option<Tally> = match book.get(&tgid) {
                Some(tally) => Some(*tally),
                None => None,
            };
            let tally = tally_task(tasks, spills, n, known);
            book.insert(tgid, tally);
            count = count + 1;
            duty_ns = duty_ns + t.duty_ns;
            home_ns = home_ns + t.home_ns;
        }
        proof {
            assert forall|tgid: u64| #[trigger] book@.dom().contains(tgid) <==> takes_part(
                tasks@.take(m + 1),
                cohort,
                tgid,
            ) by {
                lemma_first_thread_step(tasks@, cohort, tgid, m);
                assert(before.dom().contains(tgid) <==> takes_part(tasks@.take(m), cohort, tgid));
            }
            assert forall|tgid: u64| #[trigger] book@.dom().contains(tgid) implies tallies(
                tasks@.take(m + 1),
                spills@,
                cohort,
                tgid,
                book@[tgid],
            ) by {
                if !(tasks@[m].cohort_id == cohort && tasks@[m].tgid == tgid) {
                    assert(before.dom().contains(tgid));
                    lemma_tally_unmoved(tasks@, spills@, cohort, tgid, m, before[tgid]);
                }
            }
        }
        n = n + 1;
    }
    assert(tasks@.take(tasks@.len() as int) =~= tasks@);
    CohortSums { book, tasks: count, duty_ns, home_ns }
}

/// Turns the tallies of a cohort's processes into rows.
fn proc_rows(
    tasks: &[TaskSnapshot],
    spills: Ghost<Map<u32, u32>>,
    tick_ns: u64,
    cohort: Ghost<u64>,
    book: &BTreeMap<u64, Tally>,
) -> (rows: BTreeMap<u64, ProcRow>)
    requires
        books(tasks@, spills@, cohort@, book@),
        tick_ns > 0,
    ensures
        shown_procs(rows@) == Map::new(
            |tgid: u64| takes_part(tasks@, cohort@, tgid),
            |tgid: u64| proc_of(tasks@, spills@, tick_ns, cohort@, tgid),
        ),
{
    let keys = sorted_keys(book);
    let mut rows: BTreeMap<u64, ProcRow> = BTreeMap::new();
    let mut i: usize = 0;
    while i < keys.len()
        invariant
            i <= keys@.len(),
            tick_ns > 0,
            books(tasks@, spills@, cohort@, book@),
            lists_in_order(keys@, book@.dom()),
            forall|k: u64| #[trigger] rows@.dom().contains(k) <==> keys@.take(i as int).contains(k),
            forall|k: u64| #[trigger]
                rows@.dom().contains(k) ==> rows@[k]@ == proc_of(
                    tasks@,
                    spills@,
                    tick_ns,
                    cohort@,
                    k,
                ),
        decreases keys@.len() - i,
    {
        let tgid: u64 = keys[i];
        assert(keys@.contains(tgid));
        let ghost before = rows@;
        match book.get(&tgid) {
            Some(tally) => {
                proof {
                    assert(tallies(tasks@, spills@, cohort@, tgid, *tally));
                    lemma_first_thread_unique(tasks@, cohort@, tgid, tally.first as int);
                }
                let home: u64 = if tally.home_ns <= tally.duty_ns {
                    tally.home_ns
                } else {
                    tally.duty_ns
                };
                let row = ProcRow {
                    tgid,
                    comm: tasks[tally.first].comm.clone(),
                    threads: tally.threads,
                    spilled: tally.spilled,
                    util_pct: Pct { num: tally.duty_ns, den: tick_ns },
                    affinity_pct: Pct { num: home, den: tally.duty_ns },
                };
                assert(row@ == proc_of(tasks@, spills@, tick_ns, cohort@, tgid));
                rows.insert(tgid, row);
            },
            None => {},
        }
        proof {
            let t = keys@.take(i as int);
            let u = keys@.take(i + 1);
            assert forall|k: u64| #[trigger] rows@.dom().contains(k) <==> u.contains(k) by {
                assert(u[i as int] == tgid);
                if t.contains(k) {
                    let j = choose|j: int| 0 <= j < t.len() && t[j] == k;
                    assert(u[j] == k);
                }
                if u.contains(k) && k != tgid {
                    let j = choose|j: int| 0 <= j < u.len() && u[j] == k;
                    assert(t[j] == k);
                }
                assert(before.dom().contains(k) <==> t.contains(k));
            }
            assert forall|k: u64| #[trigger] rows@.dom().contains(k) implies rows@[k]@ == proc_of(
                tasks@,
                spills@,
                tick_ns,
                cohort@,
                k,
            ) by {
                assert(before.dom().contains(k) || k == tgid);
            }
        }
        i = i + 1;
    }
    proof {
        assert(keys@.take(keys@.len() as int) =~= keys@);
        let expected = Map::new(
            |tgid: u64| takes_part(tasks@, cohort@, tgid),
            |tgid: u64| proc_of(tasks@, spills@, tick_ns, cohort@, tgid),
        );
        assert forall|k: u64| #[trigger] shown_procs(rows@).dom().contains(k)
            <==> expected.dom().contains(k) by {
            assert(rows@.dom().contains(k) <==> keys@.contains(k));
            assert(book@.dom().contains(k) <==> takes_part(tasks@, cohort@, k));
        }
        assert forall|k: u64| shown_procs(rows@).dom().contains(k) implies #[trigger] shown_procs(
            rows@,
        )[k] == expected[k] by {
            assert(rows@.dom().contains(k));
        }
        assert(shown_procs(rows@) =~= expected);
    }
    rows
}

proof fn lemma_first_thread_unique(tasks: Seq<TaskSnapshot>, cohort: u64, tgid: u64, i: int)
    requires
        first_thread(tasks, cohort, tgid, i),
    ensures
        (choose|j: int| #[trigger] first_thread(tasks, cohort, tgid, j)) == i,
{
    let j = choose|j: int| #[trigger] first_thread(tasks, cohort, tgid, j);
    assert(first_thread(tasks, cohort, tgid, j));
    if j < i {
        assert(tasks[j].cohort_id == cohort);
    } else if i < j {
        assert(tasks[i].cohort_id == cohort);
    }
}

/// Assembles the procs view from one tick's snapshots.
pub fn procs_snapshot(
    cohorts: &[CohortSnapshot],
    tasks: &[TaskSnapshot],
    llcs: &[LlcLoad],
    spills: &HashMap<u32, u32>,
    tick_ns: u64,
) -> (s: ProcsSnapshot)
    requires
        runtimes_fit(tasks@),
    ensures
        s@ == procs_of(cohorts@, tasks@, llcs@, spills@, tick_ns),
{
    let span: u64 = if tick_ns == 0 {
        1
    } else {
        tick_ns
    };
    let mut llc_util_pct: BTreeMap<u64, Pct> = BTreeMap::new();
    let mut i: usize = 0;
    while i < llcs.len()
        invariant
            i <= llcs@.len(),
            llc_util_pct@ == utils_of(llcs@, i as int),
        decreases llcs@.len() - i,
    {
        let l = llcs[i];
        let capacity: u64 = if l.capacity_ns == 0 {
            1
        } else {
            l.capacity_ns
        };
        llc_util_pct.insert(l.llc as u64, Pct { num: l.load_ns, den: capacity });
        i = i + 1;
    }
    let mut total_duty: u64 = 0;
    let mut total_home: u64 = 0;
    let mut n: usize = 0;
    while n < tasks.len()
        invariant
            n <= tasks@.len(),
            runtimes_fit(tasks@),
            total_duty == over(tasks@.take(n as int), everyone(), duty()),
            total_home == over(tasks@.take(n as int), everyone(), at_home()),
        decreases tasks@.len() - n,
    {
        proof {
            lemma_over_step(tasks@, everyone(), duty(), n as int);
            lemma_over_step(tasks@, everyone(), at_home(), n as int);
            lemma_over_bound(tasks@, everyone(), duty(), n + 1);
            lemma_over_bound(tasks@, everyone(), at_home(), n + 1);
        }
        total_duty = total_duty + tasks[n].duty_ns;
        total_home = total_home + tasks[n].home_ns;
        n = n + 1;
    }
    assert(tasks@.take(tasks@.len() as int) =~= tasks@);
    let mut rows: BTreeMap<u64, CohortRow> = BTreeMap::new();
    let mut k: usize = 0;
    assert(shown_cohorts(rows@) =~= Map::empty());
    while k < cohorts.len()
        invariant
            k <= cohorts@.len(),
            runtimes_fit(tasks@),
            span == at_least_one(tick_ns),
            shown_cohorts(rows@) == cohorts_of(cohorts@, tasks@, spills@, tick_ns, k as int),
        decreases cohorts@.len() - k,
    {
        let c = &cohorts[k];
        let ghost before = rows@;
        let sums = sum_cohort(tasks, spills, c.id);
        let procs = proc_rows(tasks, Ghost(spills@), span, Ghost(c.id), &sums.book);
        let pinned: u64 = if c.pinned {
            1
        } else {
            0
        };
        let row = CohortRow {
            home_llc: c.home_llc as u64,
            pinned,
            tasks: sums.tasks,
            util_pct: Pct { num: sums.duty_ns, den: span },
            affinity_pct: Pct { num: sums.home_ns, den: sums.duty_ns },
            procs,
        };
        proof {
            assert(row@.procs =~= cohort_of(*c, tasks@, spills@, tick_ns).procs) by {
                assert forall|tgid: u64| proc_of(tasks@, spills@, span, c.id, tgid) == proc_of(
                    tasks@,
                    spills@,
                    tick_ns,
                    c.id,
                    tgid,
                ) by {}
            }
            assert(row@ == cohort_of(*c, tasks@, spills@, tick_ns));
        }
        rows.insert(c.id, row);
        proof {
            assert(shown_cohorts(rows@) =~= shown_cohorts(before).insert(
                c.id,
                cohort_of(*c, tasks@, spills@, tick_ns),
            ));
        }
        k = k + 1;
    }
    ProcsSnapshot {
        nr_tasks: tasks.len() as u64,
        affinity_pct: Pct { num: total_home, den: total_duty },
        llc_util_pct,
        cohorts: rows,
    }
}

} // verus!
