//! What the readings of the kernel's maps come to, told from the rows.
use vstd::prelude::*;

use crate::arith::{lemma_total_ext, lemma_total_le, lemma_total_nonneg, total};
use crate::domain::TaskSnapshot;
use crate::intake::{
    edge_delta, edge_sums, ends_at, inhabited, members_of, names_path, path_found, path_spans,
    size_of, sums_of, task_of, tgids_in, TaskRow,
};
use crate::ordered::{ids_in_order, lemma_ids_in_order};
use crate::wake_graph::{lemma_packed, packed};

verus! {

// ---- Tasks ----

/// A task is seen as its row has it.
pub proof fn law_tasks_are_seen_as_they_are(prev: Map<u32, (u64, u64)>, row: TaskRow)
    ensures
        task_of(prev, row).pid == row.pid,
        task_of(prev, row).tgid == row.tgid,
        task_of(prev, row).cohort_id == row.cohort_id,
        task_of(prev, row).comm == row.comm,
{
}

proof fn lemma_row_sums(rows: Seq<TaskRow>, n: int, i: int)
    requires
        0 <= i < n <= rows.len(),
        forall|j: int| i < j < n ==> (#[trigger] rows[j]).pid != rows[i].pid,
    ensures
        sums_of(rows, n).contains_key(rows[i].pid),
        sums_of(rows, n)[rows[i].pid] == (rows[i].runtime_sum, rows[i].runtime_home_sum),
    decreases n,
{
    if i < n - 1 {
        lemma_row_sums(rows, n - 1, i);
        assert(rows[n - 1].pid != rows[i].pid);
    }
}

proof fn lemma_no_row_sums(rows: Seq<TaskRow>, n: int, pid: u32)
    requires
        0 <= n <= rows.len(),
        forall|j: int| 0 <= j < n ==> (#[trigger] rows[j]).pid != pid,
    ensures
        !sums_of(rows, n).contains_key(pid),
    decreases n,
{
    if n > 0 {
        lemma_no_row_sums(rows, n - 1, pid);
    }
}

/// Between two ticks a task ran for what each of its sums grew by, and for
/// nothing where a sum fell back.
pub proof fn law_duties_are_clamped_differences(first: Seq<TaskRow>, row: TaskRow, i: int)
    requires
        0 <= i < first.len(),
        first[i].pid == row.pid,
        forall|j: int| i < j < first.len() ==> (#[trigger] first[j]).pid != row.pid,
    ensures
        ({
            let task = task_of(sums_of(first, first.len() as int), row);
            &&& task.duty_known
            &&& first[i].runtime_sum <= row.runtime_sum ==> first[i].runtime_sum + task.duty_ns
                == row.runtime_sum
            &&& first[i].runtime_sum > row.runtime_sum ==> task.duty_ns == 0
            &&& first[i].runtime_home_sum <= row.runtime_home_sum ==> first[i].runtime_home_sum
                + task.home_ns == row.runtime_home_sum
            &&& first[i].runtime_home_sum > row.runtime_home_sum ==> task.home_ns == 0
        }),
{
    lemma_row_sums(first, first.len() as int, i);
}

/// A task that was not there at the previous tick has no known duty.
pub proof fn law_newcomers_have_no_duty(first: Seq<TaskRow>, row: TaskRow)
    requires
        forall|j: int| 0 <= j < first.len() ==> (#[trigger] first[j]).pid != row.pid,
    ensures
        ({
            let task = task_of(sums_of(first, first.len() as int), row);
            !task.duty_known && task.duty_ns == 0 && task.home_ns == 0
        }),
{
    lemma_no_row_sums(first, first.len() as int, row.pid);
}

// ---- Names and paths ----

/// A name padded with NULs, or cut to fit, is read back.
pub proof fn law_names_are_read_back(name: Seq<u8>, rest: Seq<u8>, n: int)
    requires
        forall|i: int| 0 <= i < name.len() ==> #[trigger] name[i] != 0,
        rest.len() > 0 ==> rest[0] == 0,
        ends_at(name + rest, n),
    ensures
        n == name.len(),
        (name + rest).take(n) == name,
{
    let comm = name + rest;
    if n < name.len() {
        assert(comm[n] == name[n]);
    } else if n > name.len() {
        assert(comm[name.len() as int] == rest[0]);
    }
    assert(comm.take(n) =~= name);
}

/// A cgroup file in which `lines` come before the line of the path.
pub open spec fn cgroup_file(
    lines: Seq<u8>,
    slashes: Seq<u8>,
    path: Seq<u8>,
    rest: Seq<u8>,
) -> Seq<u8> {
    lines + seq![48u8, 58u8, 58u8] + slashes + path + rest
}

/// No line of the text starts with `0::`.
pub open spec fn no_such_line(lines: Seq<u8>) -> bool {
    forall|i: int|
        0 <= i && i + 2 < lines.len() && (i == 0 || lines[i - 1] == 10) ==> !(#[trigger] lines[i]
            == 48 && lines[i + 1] == 58 && lines[i + 2] == 58)
}

/// What stands behind `0::` on the first such line is read back, to the end of
/// the line and without the slashes it starts with.
pub proof fn law_paths_are_read_back(
    lines: Seq<u8>,
    slashes: Seq<u8>,
    path: Seq<u8>,
    rest: Seq<u8>,
    i: int,
    found: Seq<u8>,
)
    requires
        lines.len() > 0 ==> lines.last() == 10,
        no_such_line(lines),
        forall|k: int| 0 <= k < slashes.len() ==> #[trigger] slashes[k] == 47,
        forall|k: int| 0 <= k < path.len() ==> #[trigger] path[k] != 10,
        path.len() > 0 ==> path[0] != 47,
        rest.len() > 0 ==> rest[0] == 10,
        path_found(cgroup_file(lines, slashes, path, rest), i, found),
    ensures
        found == path,
{
    let text = cgroup_file(lines, slashes, path, rest);
    let n = lines.len() as int;
    let a = n + 3;
    let b = a + slashes.len();
    let c = b + path.len();
    assert forall|k: int| 0 <= k < n implies #[trigger] text[k] == lines[k] by {}
    assert(text[n] == 48 && text[n + 1] == 58 && text[n + 2] == 58);
    assert(n > 0 ==> text[n - 1] == lines[n - 1]);
    assert(names_path(text, n));
    // No earlier line qualifies: it would end within the lines before.
    if i < n {
        assert(lines[n - 1] == 10);
        assert(text[n - 1] == 10);
        assert(i + 2 < n) by {
            if i + 2 == n {
                assert(text[i + 1] == 10);
            } else if i + 1 == n {
                assert(text[i] == 10);
            }
        }
        assert(lines[i] == text[i] && lines[i + 1] == text[i + 1] && lines[i + 2] == text[i + 2]);
        if i > 0 {
            assert(lines[i - 1] == text[i - 1]);
        }
    }
    assert(i <= n) by {
        if n < i {
            assert(!names_path(text, n));
        }
    }
    assert(i == n);
    let (from, to) = choose|from: int, to: int| #[trigger]
        path_spans(text, i, from, to) && found == text.subrange(from, to);
    assert forall|k: int| a <= k < b implies #[trigger] text[k] == 47 by {
        assert(text[k] == slashes[k - a]);
    }
    assert forall|k: int| b <= k < c implies #[trigger] text[k] != 10 by {
        assert(text[k] == path[k - b]);
    }
    assert(c < text.len() ==> text[c] == rest[0]);
    assert(to == c) by {
        if to < a {
        } else if to < b {
            assert(text[to] == 47);
        } else if to < c {
            assert(text[to] != 10);
        } else if c < to {
            assert(rest.len() > 0);
            assert(text[c] == 10);
            if from <= c {
                assert(text[c] != 10);
            } else {
                assert(text[c] == 47);
            }
        }
    }
    assert(from == b) by {
        if from < b {
            assert(text[from] == 47);
        } else if b < from {
            assert(path.len() > 0);
            assert(text[b] == path[0]);
            assert(text[b] == 47);
        }
    }
    assert(found =~= path);
}

/// What stands behind `0::` on the first such line is found, with or without
/// slashes in front, and with or without anything at all.
pub proof fn law_every_path_is_found(
    lines: Seq<u8>,
    slashes: Seq<u8>,
    path: Seq<u8>,
    rest: Seq<u8>,
)
    requires
        lines.len() > 0 ==> lines.last() == 10,
        no_such_line(lines),
        forall|k: int| 0 <= k < slashes.len() ==> #[trigger] slashes[k] == 47,
        forall|k: int| 0 <= k < path.len() ==> #[trigger] path[k] != 10,
        path.len() > 0 ==> path[0] != 47,
        rest.len() > 0 ==> rest[0] == 10,
    ensures
        path_found(cgroup_file(lines, slashes, path, rest), lines.len() as int, path),
{
    let text = cgroup_file(lines, slashes, path, rest);
    let n = lines.len() as int;
    let a = n + 3;
    let b = a + slashes.len();
    let c = b + path.len();
    assert forall|k: int| 0 <= k < n implies #[trigger] text[k] == lines[k] by {}
    assert(text[n] == 48 && text[n + 1] == 58 && text[n + 2] == 58);
    assert(n > 0 ==> text[n - 1] == lines[n - 1]);
    assert(names_path(text, n));
    assert forall|i: int| 0 <= i < n implies !#[trigger] names_path(text, i) by {
        if names_path(text, i) {
            assert(text[n - 1] == 10);
            assert(i + 2 < n) by {
                if i + 2 == n {
                    assert(text[i + 1] == 10);
                } else if i + 1 == n {
                    assert(text[i] == 10);
                }
            }
            assert(lines[i] == text[i] && lines[i + 1] == text[i + 1] && lines[i + 2] == text[i
                + 2]);
            if i > 0 {
                assert(lines[i - 1] == text[i - 1]);
            }
        }
    }
    assert forall|k: int| a <= k < b implies #[trigger] text[k] == 47 by {
        assert(text[k] == slashes[k - a]);
    }
    assert forall|k: int| b <= k < c implies #[trigger] text[k] != 10 by {
        assert(text[k] == path[k - b]);
    }
    assert(c < text.len() ==> text[c] == rest[0]);
    assert(b < c ==> text[b] == path[0]);
    assert(path_spans(text, n, b, c));
    assert(path =~= text.subrange(b, c));
}

/// A file has a path exactly if one of its lines starts with `0::`.
pub proof fn law_only_such_lines_have_paths(text: Seq<u8>)
    ensures
        no_such_line(text) <==> forall|i: int| !#[trigger] names_path(text, i),
{
    if no_such_line(text) {
        assert forall|i: int| !#[trigger] names_path(text, i) by {
            if names_path(text, i) {
                assert(text[i] == 48);
            }
        }
    }
    if forall|i: int| !#[trigger] names_path(text, i) {
        assert forall|i: int|
            0 <= i && i + 2 < text.len() && (i == 0 || text[i - 1] == 10) implies !(
        #[trigger] text[i] == 48 && text[i + 1] == 58 && text[i + 2] == 58) by {
            assert(!names_path(text, i));
        }
    }
}

// ---- Wake edges ----

proof fn lemma_edge_sum(edges: Seq<(u32, u32, u64)>, n: int, i: int)
    requires
        0 <= i < n <= edges.len(),
        forall|j: int|
            i < j < n ==> !((#[trigger] edges[j]).0 == edges[i].0 && edges[j].1 == edges[i].1),
    ensures
        edge_sums(edges, n).contains_key(packed((edges[i].0, edges[i].1))),
        edge_sums(edges, n)[packed((edges[i].0, edges[i].1))] == edges[i].2,
    decreases n,
{
    if i < n - 1 {
        lemma_edge_sum(edges, n - 1, i);
        lemma_packed((edges[i].0, edges[i].1));
        lemma_packed((edges[n - 1].0, edges[n - 1].1));
        assert(!(edges[n - 1].0 == edges[i].0 && edges[n - 1].1 == edges[i].1));
    }
}

proof fn lemma_no_edge_sum(edges: Seq<(u32, u32, u64)>, n: int, a: u32, b: u32)
    requires
        0 <= n <= edges.len(),
        forall|j: int| 0 <= j < n ==> !((#[trigger] edges[j]).0 == a && edges[j].1 == b),
    ensures
        !edge_sums(edges, n).contains_key(packed((a, b))),
    decreases n,
{
    if n > 0 {
        lemma_no_edge_sum(edges, n - 1, a, b);
        lemma_packed((a, b));
        lemma_packed((edges[n - 1].0, edges[n - 1].1));
    }
}

/// Between two ticks an edge saw the wakes that its sum grew by, and none
/// where the sum fell back.
pub proof fn law_deltas_are_clamped_differences(
    first: Seq<(u32, u32, u64)>,
    edge: (u32, u32, u64),
    i: int,
)
    requires
        0 <= i < first.len(),
        first[i].0 == edge.0,
        first[i].1 == edge.1,
        forall|j: int|
            i < j < first.len() ==> !((#[trigger] first[j]).0 == edge.0 && first[j].1 == edge.1),
    ensures
        ({
            let delta = edge_delta(edge_sums(first, first.len() as int), edge);
            &&& delta.0 == edge.0
            &&& delta.1 == edge.1
            &&& first[i].2 <= edge.2 ==> first[i].2 + delta.2 == edge.2
            &&& first[i].2 > edge.2 ==> delta.2 == 0
        }),
{
    lemma_edge_sum(first, first.len() as int, i);
}

/// An edge that was not there at the previous tick came about with all its
/// wakes; the other direction is another edge.
pub proof fn law_new_edges_count_in_full(first: Seq<(u32, u32, u64)>, edge: (u32, u32, u64))
    requires
        forall|j: int|
            0 <= j < first.len() ==> !((#[trigger] first[j]).0 == edge.0 && first[j].1 == edge.1),
    ensures
        edge_delta(edge_sums(first, first.len() as int), edge) == edge,
{
    lemma_no_edge_sum(first, first.len() as int, edge.0, edge.1);
}

// ---- Groups ----

/// One more task counts in its cohort, and nowhere else.
pub proof fn law_a_task_counts_in_its_cohort(
    tasks: Seq<TaskSnapshot>,
    task: TaskSnapshot,
    cohort: u64,
)
    ensures
        size_of(Seq::<TaskSnapshot>::empty(), cohort) == 0,
        task.cohort_id == cohort ==> size_of(tasks.push(task), cohort) == size_of(tasks, cohort)
            + 1,
        task.cohort_id != cohort ==> size_of(tasks.push(task), cohort) == size_of(tasks, cohort),
{
    let more = tasks.push(task);
    let n = tasks.len() as int;
    let f = |i: int|
        if tasks[i].cohort_id == cohort {
            1int
        } else {
            0
        };
    let g = |i: int|
        if more[i].cohort_id == cohort {
            1int
        } else {
            0
        };
    assert forall|i: int| 0 <= i < n implies #[trigger] f(i) == g(i) by {
        assert(more[i] == tasks[i]);
    }
    lemma_total_ext(n, f, g);
    assert(total(n + 1, g) == total(n, g) + g(n));
}

/// The members of a cohort are the processes with tasks in it, each once and
/// in order, with the number of those tasks.
pub proof fn law_members_are_the_processes_of_the_cohort(
    tasks: Seq<TaskSnapshot>,
    cohort: u64,
    tgid: u32,
    k: int,
)
    requires
        tasks.len() <= u64::MAX,
    ensures
        ({
            let members = members_of(tasks, cohort);
            &&& forall|a: int, b: int|
                0 <= a < b < members.len() ==> (#[trigger] members[a]).0 < (#[trigger] members[b]).0
            &&& (exists|j: int| 0 <= j < members.len() && (#[trigger] members[j]).0 == tgid)
                <==> exists|i: int|
                0 <= i < tasks.len() && (#[trigger] tasks[i]).cohort_id == cohort && tasks[i].tgid
                    == tgid
            &&& 0 <= k < members.len() ==> members[k].1 == total(
                tasks.len() as int,
                |i: int|
                    if tasks[i].cohort_id == cohort && tasks[i].tgid == members[k].0 {
                        1int
                    } else {
                        0
                    },
            )
        }),
{
    let members = members_of(tasks, cohort);
    let tgids = ids_in_order(tgids_in(tasks, cohort));
    lemma_ids_in_order(tgids_in(tasks, cohort));
    if exists|j: int| 0 <= j < members.len() && (#[trigger] members[j]).0 == tgid {
        let j = choose|j: int| 0 <= j < members.len() && (#[trigger] members[j]).0 == tgid;
        assert(tgids[j] == tgid);
        assert(tgids.contains(tgid));
    }
    if tgids_in(tasks, cohort).contains(tgid) {
        assert(tgids.contains(tgid));
        let j = choose|j: int| 0 <= j < tgids.len() && tgids[j] == tgid;
        assert(members[j].0 == tgid);
    }
    if 0 <= k < members.len() {
        let last = members[k].0;
        let f = |i: int|
            if tasks[i].cohort_id == cohort && tasks[i].tgid == last {
                1int
            } else {
                0
            };
        let g = |i: int|
            if tasks[i].cohort_id == cohort && tasks[i].tgid == members[k].0 {
                1int
            } else {
                0
            };
        lemma_total_ext(tasks.len() as int, f, g);
        lemma_total_nonneg(tasks.len() as int, f);
        lemma_total_le(tasks.len() as int, f, |i: int| 1int);
        lemma_ones(tasks.len() as int);
    }
}

proof fn lemma_ones(n: int)
    requires
        n >= 0,
    ensures
        total(n, |i: int| 1int) == n,
    decreases n,
{
    if n > 0 {
        lemma_ones(n - 1);
    }
}

/// A cohort is grouped exactly if some task belongs to it.
pub proof fn law_only_cohorts_with_tasks_are_grouped(tasks: Seq<TaskSnapshot>, cohort: u64)
    ensures
        inhabited(tasks, cohort) <==> size_of(tasks, cohort) > 0,
{
    let f = |i: int|
        if tasks[i].cohort_id == cohort {
            1int
        } else {
            0
        };
    lemma_some_term(tasks.len() as int, f);
    if inhabited(tasks, cohort) {
        let i = choose|i: int| 0 <= i < tasks.len() && (#[trigger] tasks[i]).cohort_id == cohort;
        assert(f(i) > 0);
    }
    if exists|i: int| 0 <= i < tasks.len() && #[trigger] f(i) > 0 {
        let i = choose|i: int| 0 <= i < tasks.len() && #[trigger] f(i) > 0;
        assert(tasks[i].cohort_id == cohort);
    }
}

proof fn lemma_some_term(n: int, f: spec_fn(int) -> int)
    requires
        forall|i: int| 0 <= i < n ==> #[trigger] f(i) >= 0,
    ensures
        total(n, f) > 0 <==> exists|i: int| 0 <= i < n && #[trigger] f(i) > 0,
    decreases n,
{
    if n > 0 {
        lemma_some_term(n - 1, f);
        lemma_total_nonneg(n - 1, f);
        assert(f(n - 1) >= 0);
    }
}

} // verus!
