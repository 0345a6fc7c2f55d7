//! From one tick's readings of the kernel maps to what the planners take: the
//! maps hold sums since attach, the planners want differences and groups.
use std::collections::{BTreeMap, HashMap};

use vstd::prelude::*;

use crate::arith::{lemma_total_ext, lemma_total_le, lemma_total_sum, lemma_total_zero, total};
use crate::domain::TaskSnapshot;
use crate::ordered::{ids_in_order, lists_ids, sorted_ids};
use crate::stats::monus;
use crate::wake_graph::{lemma_packed, pack, packed, tasks_fit};

verus! {

// ---- Tasks ----

/// A task as the kernel maps hold it.
#[derive(Debug, Clone)]
pub struct TaskRow {
    pub pid: u32,
    pub tgid: u32,
    pub cohort_id: u64,
    /// Monotonic on-CPU nanoseconds...
    pub runtime_sum: u64,
    /// ...and those of them on the home LLC.
    pub runtime_home_sum: u64,
    pub comm: String,
}

/// Turns runtime sums into runtimes per tick.
#[derive(Debug)]
pub struct TaskMeter {
    /// pid -> the two sums at the previous tick.
    prev: HashMap<u32, (u64, u64)>,
}

impl View for TaskMeter {
    type V = Map<u32, (u64, u64)>;

    closed spec fn view(&self) -> Map<u32, (u64, u64)> {
        self.prev@
    }
}

/// A task's snapshot, given the sums at the previous tick.
pub open spec fn task_of(prev: Map<u32, (u64, u64)>, row: TaskRow) -> TaskSnapshot {
    let known = prev.dom().contains(row.pid);
    TaskSnapshot {
        pid: row.pid,
        tgid: row.tgid,
        cohort_id: row.cohort_id,
        duty_ns: if known {
            monus(row.runtime_sum as int, prev[row.pid].0 as int) as u64
        } else {
            0
        },
        duty_known: known,
        home_ns: if known {
            monus(row.runtime_home_sum as int, prev[row.pid].1 as int) as u64
        } else {
            0
        },
        comm: row.comm,
    }
}

/// The sums of the first `n` rows.
pub open spec fn sums_of(rows: Seq<TaskRow>, n: int) -> Map<u32, (u64, u64)>
    decreases n,
{
    if n <= 0 {
        Map::empty()
    } else {
        sums_of(rows, n - 1).insert(
            rows[n - 1].pid,
            (rows[n - 1].runtime_sum, rows[n - 1].runtime_home_sum),
        )
    }
}

impl TaskMeter {
    pub fn new() -> (m: Self)
        ensures
            m@ == Map::<u32, (u64, u64)>::empty(),
    {
        TaskMeter { prev: HashMap::new() }
    }

    /// Reads one tick's rows.
    pub fn read(&mut self, rows: Vec<TaskRow>) -> (tasks: Vec<TaskSnapshot>)
        ensures
            tasks@ == Seq::new(rows@.len(), |i: int| task_of(old(self)@, rows@[i])),
            final(self)@ == sums_of(rows@, rows@.len() as int),
    {
        let ghost given = rows@;
        let ghost start = self@;
        let mut seen: HashMap<u32, (u64, u64)> = HashMap::new();
        let mut tasks: Vec<TaskSnapshot> = Vec::new();
        for row in it: rows
            invariant
                it.seq() == given,
                self@ == start,
                tasks@.len() == it.index(),
                forall|i: int| 0 <= i < it.index() ==> #[trigger] tasks@[i] == task_of(
                    start,
                    given[i],
                ),
                seen@ == sums_of(given, it.index() as int),
        {
            assert(row == given[it.index() as int]);
            let (duty_ns, home_ns, duty_known): (u64, u64, bool) = match self.prev.get(&row.pid) {
                Some(sums) => (
                    row.runtime_sum.saturating_sub(sums.0),
                    row.runtime_home_sum.saturating_sub(sums.1),
                    true,
                ),
                None => (0, 0, false),
            };
            seen.insert(row.pid, (row.runtime_sum, row.runtime_home_sum));
            tasks.push(
                TaskSnapshot {
                    pid: row.pid,
                    tgid: row.tgid,
                    cohort_id: row.cohort_id,
                    duty_ns,
                    duty_known,
                    home_ns,
                    comm: row.comm,
                },
            );
        }
        self.prev = seen;
        assert(tasks@ =~= Seq::new(given.len(), |i: int| task_of(start, given[i])));
        tasks
    }
}

/// How long a NUL-padded name is.
pub open spec fn ends_at(comm: Seq<u8>, n: int) -> bool {
    &&& 0 <= n <= comm.len()
    &&& forall|i: int| 0 <= i < n ==> #[trigger] comm[i] != 0
    &&& n < comm.len() ==> comm[n] == 0
}

/// The length of a NUL-padded name.
pub fn comm_len(comm: &[u8]) -> (n: usize)
    ensures
        ends_at(comm@, n as int),
{
    let mut n: usize = 0;
    while n < comm.len() && comm[n] != 0
        invariant
            n <= comm@.len(),
            forall|i: int| 0 <= i < n ==> #[trigger] comm@[i] != 0,
        decreases comm@.len() - n,
    {
        n = n + 1;
    }
    n
}

// ---- Cgroups ----

/// A line that names a cgroup v2 path (`0::/path`) starts at `i`.
pub open spec fn names_path(text: Seq<u8>, i: int) -> bool {
    &&& 0 <= i
    &&& i + 3 <= text.len()
    &&& i == 0 || text[i - 1] == 10
    &&& text[i] == 48
    &&& text[i + 1] == 58
    &&& text[i + 2] == 58
}

/// The path of the line at `i`, without the slashes it starts with, is what
/// stands from `from` to `to`.
pub open spec fn path_spans(text: Seq<u8>, i: int, from: int, to: int) -> bool {
    &&& i + 3 <= from <= to <= text.len()
    &&& forall|k: int| i + 3 <= k < from ==> #[trigger] text[k] == 47
    &&& forall|k: int| from <= k < to ==> #[trigger] text[k] != 10
    &&& to < text.len() ==> text[to] == 10
    &&& from < to ==> text[from] != 47
}

/// The first line of a task's cgroup file that names a v2 path, and the path.
pub open spec fn path_found(text: Seq<u8>, i: int, path: Seq<u8>) -> bool {
    &&& names_path(text, i)
    &&& forall|j: int| 0 <= j < i ==> !#[trigger] names_path(text, j)
    &&& exists|from: int, to: int| #[trigger]
        path_spans(text, i, from, to) && path == text.subrange(from, to)
}

/// The cgroup v2 path in a task's cgroup file, relative to the root.
pub fn cgroup_path(text: &[u8]) -> (found: Option<Vec<u8>>)
    ensures
        found is Some <==> exists|i: int| #[trigger] names_path(text@, i),
        found is Some ==> exists|i: int| #[trigger] path_found(text@, i, found->0@),
{
    let mut i: usize = 0;
    while i < text.len()
        invariant
            i <= text@.len(),
            forall|j: int| 0 <= j < i ==> !#[trigger] names_path(text@, j),
        decreases text@.len() - i,
    {
        if text.len() - i >= 3 && (i == 0 || text[i - 1] == 10) && text[i] == 48 && text[i + 1]
            == 58 && text[i + 2] == 58 {
            assert(names_path(text@, i as int));
            let mut from: usize = i + 3;
            while from < text.len() && text[from] == 47
                invariant
                    i + 3 <= from <= text@.len(),
                    forall|k: int| i + 3 <= k < from ==> #[trigger] text@[k] == 47,
                decreases text@.len() - from,
            {
                from = from + 1;
            }
            let mut path: Vec<u8> = Vec::new();
            let mut to: usize = from;
            while to < text.len() && text[to] != 10
                invariant
                    from <= to <= text@.len(),
                    path@ == text@.subrange(from as int, to as int),
                    forall|k: int| from <= k < to ==> #[trigger] text@[k] != 10,
                decreases text@.len() - to,
            {
                path.push(text[to]);
                to = to + 1;
                assert(path@ =~= text@.subrange(from as int, to as int));
            }
            proof {
                assert(path_spans(text@, i as int, from as int, to as int));
                assert(path_found(text@, i as int, path@));
            }
            let found: Option<Vec<u8>> = Some(path);
            assert(path_found(text@, i as int, found->0@));
            return found;
        }
        assert(!names_path(text@, i as int));
        i = i + 1;
    }
    None
}

// ---- Wake edges ----

/// Turns wake sums into wakes per tick.
#[derive(Debug)]
pub struct EdgeMeter {
    /// Packed (waker, wakee) -> the sum at the previous tick.
    prev: HashMap<u64, u64>,
}

impl View for EdgeMeter {
    type V = Map<u64, u64>;

    closed spec fn view(&self) -> Map<u64, u64> {
        self.prev@
    }
}

/// The wakes since the previous tick; all of them on the first sighting, for
/// an edge comes about with its first wake.
pub open spec fn edge_delta(prev: Map<u64, u64>, edge: (u32, u32, u64)) -> (u32, u32, u64) {
    let key = packed((edge.0, edge.1));
    let before = if prev.dom().contains(key) {
        prev[key]
    } else {
        0
    };
    (edge.0, edge.1, monus(edge.2 as int, before as int) as u64)
}

/// The sums of the first `n` edges.
pub open spec fn edge_sums(edges: Seq<(u32, u32, u64)>, n: int) -> Map<u64, u64>
    decreases n,
{
    if n <= 0 {
        Map::empty()
    } else {
        edge_sums(edges, n - 1).insert(packed((edges[n - 1].0, edges[n - 1].1)), edges[n - 1].2)
    }
}

impl EdgeMeter {
    pub fn new() -> (m: Self)
        ensures
            m@ == Map::<u64, u64>::empty(),
    {
        EdgeMeter { prev: HashMap::new() }
    }

    /// Reads one tick's edges: waker, wakee, and wakes since attach.
    pub fn read(&mut self, edges: &[(u32, u32, u64)]) -> (deltas: Vec<(u32, u32, u64)>)
        ensures
            deltas@ == Seq::new(edges@.len(), |i: int| edge_delta(old(self)@, edges@[i])),
            final(self)@ == edge_sums(edges@, edges@.len() as int),
    {
        let ghost start = self@;
        let mut seen: HashMap<u64, u64> = HashMap::new();
        let mut deltas: Vec<(u32, u32, u64)> = Vec::new();
        let mut i: usize = 0;
        while i < edges.len()
            invariant
                i <= edges@.len(),
                self@ == start,
                deltas@.len() == i,
                forall|k: int| 0 <= k < i ==> #[trigger] deltas@[k] == edge_delta(start, edges@[k]),
                seen@ == edge_sums(edges@, i as int),
            decreases edges@.len() - i,
        {
            let (waker, wakee, wakes) = edges[i];
            let key: u64 = pack((waker, wakee));
            let before: u64 = match self.prev.get(&key) {
                Some(sum) => *sum,
                None => 0,
            };
            seen.insert(key, wakes);
            deltas.push((waker, wakee, wakes.saturating_sub(before)));
            i = i + 1;
        }
        self.prev = seen;
        assert(deltas@ =~= Seq::new(edges@.len(), |k: int| edge_delta(start, edges@[k])));
        deltas
    }
}

// ---- Groups ----

/// The tasks by cohort.
#[derive(Debug)]
pub struct Grouping {
    /// Tasks in each cohort.
    pub sizes: HashMap<u64, u64>,
    /// Each cohort's processes and their numbers of tasks, in order of tgid.
    pub members: HashMap<u64, Vec<(u32, u64)>>,
}

/// Some task belongs to the cohort.
pub open spec fn inhabited(tasks: Seq<TaskSnapshot>, cohort: u64) -> bool {
    exists|i: int| 0 <= i < tasks.len() && (#[trigger] tasks[i]).cohort_id == cohort
}

/// How many tasks belong to the cohort.
pub open spec fn size_of(tasks: Seq<TaskSnapshot>, cohort: u64) -> int {
    total(
        tasks.len() as int,
        |i: int|
            if tasks[i].cohort_id == cohort {
                1int
            } else {
                0
            },
    )
}

/// How many tasks of the process belong to the cohort.
pub open spec fn threads_of(tasks: Seq<TaskSnapshot>, cohort: u64, tgid: u32) -> int {
    total(
        tasks.len() as int,
        |i: int|
            if tasks[i].cohort_id == cohort && tasks[i].tgid == tgid {
                1int
            } else {
                0
            },
    )
}

/// The processes with tasks in the cohort.
pub open spec fn tgids_in(tasks: Seq<TaskSnapshot>, cohort: u64) -> Set<u32> {
    Set::new(
        |tgid: u32|
            exists|i: int|
                0 <= i < tasks.len() && (#[trigger] tasks[i]).cohort_id == cohort && tasks[i].tgid
                    == tgid,
    )
}

/// The processes with tasks in the cohort and how many they have there, in
/// order of tgid.
pub open spec fn members_of(tasks: Seq<TaskSnapshot>, cohort: u64) -> Seq<(u32, u64)> {
    let tgids = ids_in_order(tgids_in(tasks, cohort));
    Seq::new(tgids.len(), |k: int| (tgids[k], threads_of(tasks, cohort, tgids[k]) as u64))
}

/// The tasks counted process by process are no more than there are.
proof fn lemma_threads_sum(tasks: Seq<TaskSnapshot>, cohort: u64, tgids: Seq<u32>, k: int)
    requires
        0 <= k <= tgids.len(),
        forall|i: int, j: int| 0 <= i < j < tgids.len() ==> tgids[i] < tgids[j],
    ensures
        total(k, |j: int| threads_of(tasks, cohort, tgids[j])) == total(
            tasks.len() as int,
            |i: int|
                if tasks[i].cohort_id == cohort && tgids.take(k).contains(tasks[i].tgid) {
                    1int
                } else {
                    0
                },
        ),
    decreases k,
{
    let n = tasks.len() as int;
    let among = |m: int|
        |i: int|
            if tasks[i].cohort_id == cohort && tgids.take(m).contains(tasks[i].tgid) {
                1int
            } else {
                0
            };
    let counted = |j: int| threads_of(tasks, cohort, tgids[j]);
    if k == 0 {
        lemma_total_ext(n, among(0), |i: int| 0int);
        lemma_total_zero(n);
        assert(total(0, counted) == 0);
    } else {
        lemma_threads_sum(tasks, cohort, tgids, k - 1);
        let last = tgids[k - 1];
        let own = |i: int|
            if tasks[i].cohort_id == cohort && tasks[i].tgid == last {
                1int
            } else {
                0
            };
        assert forall|i: int| 0 <= i < n implies #[trigger] among(k)(i) == among(k - 1)(i) + own(
            i,
        ) by {
            let t = tasks[i].tgid;
            let short = tgids.take(k - 1);
            let long = tgids.take(k);
            if short.contains(t) {
                let j = choose|j: int| 0 <= j < short.len() && short[j] == t;
                assert(long[j] == t);
                assert(tgids[j] < tgids[k - 1]);
            }
            if t == last {
                assert(long[k - 1] == t);
            }
            if long.contains(t) && t != last {
                let j = choose|j: int| 0 <= j < long.len() && long[j] == t;
                assert(short[j] == t);
            }
        }
        lemma_total_sum(n, among(k - 1), own, among(k));
        assert(total(k, counted) == total(k - 1, counted) + counted(k - 1));
    }
}

proof fn lemma_ones(n: int)
    requires
        n >= 0,
    ensures
        total(n, |i: int| 1int) == n,
    decreases n,
{
    if n > 0 {
        lemma_ones(n - 1);
    }
}

/// Counts one cohort's tasks and lists its processes.
fn list_members(tasks: &[TaskSnapshot], cohort: u64) -> (counted: (u64, Vec<(u32, u64)>))
    ensures
        counted.0 == size_of(tasks@, cohort),
        counted.1@ == members_of(tasks@, cohort),
        total(counted.1@.len() as int, |k: int| counted.1@[k].1 as int) <= u64::MAX,
{
    let ghost n = tasks@.len() as int;
    let ghost ours = |i: int|
        if tasks@[i].cohort_id == cohort {
            1int
        } else {
            0
        };
    let ghost theirs = |tgid: u32|
        |i: int|
            if tasks@[i].cohort_id == cohort && tasks@[i].tgid == tgid {
                1int
            } else {
                0
            };
    let mut size: u64 = 0;
    let mut threads: BTreeMap<u32, u64> = BTreeMap::new();
    let mut i: usize = 0;
    while i < tasks.len()
        invariant
            n == tasks@.len(),
            i <= n,
            ours == (|i: int|
                if tasks@[i].cohort_id == cohort {
                    1int
                } else {
                    0
                }),
            theirs == (|tgid: u32|
                |i: int|
                    if tasks@[i].cohort_id == cohort && tasks@[i].tgid == tgid {
                        1int
                    } else {
                        0
                    }),
            size == total(i as int, ours),
            size <= i,
            forall|t: u32| #[trigger]
                threads@.dom().contains(t) <==> tgids_in(tasks@.take(i as int), cohort).contains(t),
            forall|t: u32| #[trigger]
                threads@.dom().contains(t) ==> threads@[t] == total(i as int, theirs(t))
                    && threads@[t] <= i,
            forall|t: u32|
                !#[trigger] threads@.dom().contains(t) ==> total(i as int, theirs(t)) == 0,
        decreases n - i,
    {
        let ghost before = threads@;
        let ghost short = tasks@.take(i as int);
        let ghost long = tasks@.take(i + 1);
        let task = &tasks[i];
        if task.cohort_id == cohort {
            let so_far: u64 = match threads.get(&task.tgid) {
                Some(count) => *count,
                None => 0,
            };
            size = size + 1;
            threads.insert(task.tgid, so_far + 1);
        }
        proof {
            assert forall|t: u32| #[trigger] threads@.dom().contains(t) <==> tgids_in(
                long,
                cohort,
            ).contains(t) by {
                assert(before.dom().contains(t) <==> tgids_in(short, cohort).contains(t));
                if tgids_in(short, cohort).contains(t) {
                    let k = choose|k: int|
                        0 <= k < short.len() && (#[trigger] short[k]).cohort_id == cohort
                            && short[k].tgid == t;
                    assert(long[k] == short[k]);
                }
                assert(long[i as int] == tasks@[i as int]);
                if tgids_in(long, cohort).contains(t) {
                    let k = choose|k: int|
                        0 <= k < long.len() && (#[trigger] long[k]).cohort_id == cohort
                            && long[k].tgid == t;
                    if k < i {
                        assert(long[k] == short[k]);
                    }
                }
            }
            assert forall|t: u32| #[trigger] threads@.dom().contains(t) implies threads@[t]
                == total(i + 1, theirs(t)) && threads@[t] <= i + 1 by {
                assert(before.dom().contains(t) || !before.dom().contains(t));
                assert(total(i + 1, theirs(t)) == total(i as int, theirs(t)) + theirs(t)(i as int));
            }
            assert forall|t: u32| !#[trigger] threads@.dom().contains(t) implies total(
                i + 1,
                theirs(t),
            ) == 0 by {
                assert(!before.dom().contains(t));
                assert(total(i + 1, theirs(t)) == total(i as int, theirs(t)) + theirs(t)(i as int));
            }
        }
        i = i + 1;
    }
    assert(tasks@.take(n) =~= tasks@);
    let tgids = sorted_ids(&threads);
    assert(threads@.dom() =~= tgids_in(tasks@, cohort)) by {
        assert forall|t: u32| threads@.dom().contains(t) <==> tgids_in(tasks@, cohort).contains(
            t,
        ) by {}
    }
    let mut list: Vec<(u32, u64)> = Vec::new();
    let mut k: usize = 0;
    while k < tgids.len()
        invariant
            n == tasks@.len(),
            k <= tgids@.len(),
            lists_ids(tgids@, threads@.dom()),
            list@.len() == k,
            theirs == (|tgid: u32|
                |i: int|
                    if tasks@[i].cohort_id == cohort && tasks@[i].tgid == tgid {
                        1int
                    } else {
                        0
                    }),
            forall|t: u32| #[trigger]
                threads@.dom().contains(t) ==> threads@[t] == total(n, theirs(t)),
            forall|j: int|
                0 <= j < k ==> (#[trigger] list@[j]).0 == tgids@[j] && list@[j].1 == threads_of(
                    tasks@,
                    cohort,
                    tgids@[j],
                ),
        decreases tgids@.len() - k,
    {
        let tgid: u32 = tgids[k];
        assert(tgids@.contains(tgid));
        assert(threads@.dom().contains(tgid));
        let count: u64 = match threads.get(&tgid) {
            Some(count) => *count,
            None => 0,
        };
        assert(total(n, theirs(tgid)) == threads_of(tasks@, cohort, tgid)) by {
            lemma_total_ext(
                n,
                theirs(tgid),
                |i: int|
                    if tasks@[i].cohort_id == cohort && tasks@[i].tgid == tgid {
                        1int
                    } else {
                        0
                    },
            );
        }
        list.push((tgid, count));
        k = k + 1;
    }
    proof {
        assert(list@ =~= members_of(tasks@, cohort));
        let all = tgids@.len() as int;
        let among = |i: int|
            if tasks@[i].cohort_id == cohort && tgids@.take(all).contains(tasks@[i].tgid) {
                1int
            } else {
                0
            };
        lemma_threads_sum(tasks@, cohort, tgids@, all);
        lemma_total_ext(
            all,
            |j: int| threads_of(tasks@, cohort, tgids@[j]),
            |j: int| list@[j].1 as int,
        );
        lemma_total_le(n, among, |i: int| 1int);
        lemma_ones(n);
    }
    (size, list)
}

/// Groups a tick's tasks by cohort.
pub fn group_tasks(tasks: &[TaskSnapshot]) -> (groups: Grouping)
    ensures
        forall|c: u64| #[trigger] groups.sizes@.dom().contains(c) <==> inhabited(tasks@, c),
        forall|c: u64| #[trigger]
            groups.sizes@.dom().contains(c) ==> groups.sizes@[c] == size_of(tasks@, c),
        forall|c: u64| #[trigger] groups.members@.dom().contains(c) <==> inhabited(tasks@, c),
        forall|c: u64| #[trigger]
            groups.members@.dom().contains(c) ==> groups.members@[c]@ == members_of(tasks@, c),
        tasks_fit(groups.members@),
{
    let mut sizes: HashMap<u64, u64> = HashMap::new();
    let mut members: HashMap<u64, Vec<(u32, u64)>> = HashMap::new();
    let mut i: usize = 0;
    while i < tasks.len()
        invariant
            i <= tasks@.len(),
            sizes@.dom() == members@.dom(),
            forall|c: u64| #[trigger]
                members@.dom().contains(c) <==> inhabited(tasks@.take(i as int), c),
            forall|c: u64| #[trigger]
                members@.dom().contains(c) ==> members@[c]@ == members_of(tasks@, c) && sizes@[c]
                    == size_of(tasks@, c),
            tasks_fit(members@),
        decreases tasks@.len() - i,
    {
        let cohort: u64 = tasks[i].cohort_id;
        let ghost before = members@;
        let ghost short = tasks@.take(i as int);
        let ghost long = tasks@.take(i + 1);
        if !members.contains_key(&cohort) {
            let (size, list) = list_members(tasks, cohort);
            sizes.insert(cohort, size);
            members.insert(cohort, list);
            assert(sizes@.dom() =~= members@.dom());
        }
        proof {
            assert forall|c: u64| #[trigger] members@.dom().contains(c) <==> inhabited(long, c) by {
                assert(before.dom().contains(c) <==> inhabited(short, c));
                if inhabited(short, c) {
                    let k = choose|k: int|
                        0 <= k < short.len() && (#[trigger] short[k]).cohort_id == c;
                    assert(long[k] == short[k]);
                }
                assert(long[i as int] == tasks@[i as int]);
                if inhabited(long, c) {
                    let k = choose|k: int|
                        0 <= k < long.len() && (#[trigger] long[k]).cohort_id == c;
                    if k < i {
                        assert(long[k] == short[k]);
                    }
                }
            }
        }
        i = i + 1;
    }
    assert(tasks@.take(tasks@.len() as int) =~= tasks@);
    Grouping { sizes, members }
}

// ---- Laws ----

/// On a task's first sighting there is nothing to diff, and the snapshot says
/// so.
pub proof fn law_a_first_sighting_has_no_duty(prev: Map<u32, (u64, u64)>, row: TaskRow)
    requires
        !prev.dom().contains(row.pid),
    ensures
        task_of(prev, row).duty_ns == 0,
        task_of(prev, row).home_ns == 0,
        !task_of(prev, row).duty_known,
{
}

proof fn lemma_last_sums(rows: Seq<TaskRow>, n: int, i: int)
    requires
        0 <= i < n <= rows.len(),
        forall|j: int| 0 <= j < rows.len() && (#[trigger] rows[j]).pid == rows[i].pid ==> j == i,
    ensures
        sums_of(rows, n).dom().contains(rows[i].pid),
        sums_of(rows, n)[rows[i].pid] == (rows[i].runtime_sum, rows[i].runtime_home_sum),
    decreases n,
{
    if i < n - 1 {
        lemma_last_sums(rows, n - 1, i);
        assert(rows[n - 1].pid != rows[i].pid);
    }
}

/// Over two ticks, a task's runtimes are what its sums grew by.
pub proof fn law_duties_are_differences(first: Seq<TaskRow>, row: TaskRow, i: int)
    requires
        0 <= i < first.len(),
        first[i].pid == row.pid,
        forall|j: int| 0 <= j < first.len() && (#[trigger] first[j]).pid == row.pid ==> j == i,
        first[i].runtime_sum <= row.runtime_sum,
        first[i].runtime_home_sum <= row.runtime_home_sum,
    ensures
        task_of(sums_of(first, first.len() as int), row).duty_known,
        first[i].runtime_sum + task_of(sums_of(first, first.len() as int), row).duty_ns
            == row.runtime_sum,
        first[i].runtime_home_sum + task_of(sums_of(first, first.len() as int), row).home_ns
            == row.runtime_home_sum,
{
    lemma_last_sums(first, first.len() as int, i);
}

/// Over two ticks, an edge's delta is what its sum grew by.
pub proof fn law_deltas_are_differences(
    first: Seq<(u32, u32, u64)>,
    edge: (u32, u32, u64),
    i: int,
)
    requires
        0 <= i < first.len(),
        first[i].0 == edge.0,
        first[i].1 == edge.1,
        forall|j: int|
            0 <= j < first.len() && (#[trigger] first[j]).0 == edge.0 && first[j].1 == edge.1 ==> j
                == i,
        first[i].2 <= edge.2,
    ensures
        first[i].2 + edge_delta(edge_sums(first, first.len() as int), edge).2 == edge.2,
{
    lemma_last_edge_sum(first, first.len() as int, i);
}

proof fn lemma_last_edge_sum(edges: Seq<(u32, u32, u64)>, n: int, i: int)
    requires
        0 <= i < n <= edges.len(),
        forall|j: int|
            0 <= j < edges.len() && (#[trigger] edges[j]).0 == edges[i].0 && edges[j].1
                == edges[i].1 ==> j == i,
    ensures
        edge_sums(edges, n).dom().contains(packed((edges[i].0, edges[i].1))),
        edge_sums(edges, n)[packed((edges[i].0, edges[i].1))] == edges[i].2,
    decreases n,
{
    if i < n - 1 {
        lemma_last_edge_sum(edges, n - 1, i);
        lemma_packed((edges[i].0, edges[i].1));
        lemma_packed((edges[n - 1].0, edges[n - 1].1));
    }
}

} // verus!
