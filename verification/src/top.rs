//! The layout of the live view: which line shows what, hottest first, cut to
//! the height of the terminal.
use vstd::prelude::*;

use crate::arith::{lemma_total_monotone, total};
use crate::ordered::{lemma_sorted_unique, sorted_by};

verus! {

/// One line of the view.
#[derive(Debug, Clone, Copy, PartialEq, Eq, Structural)]
pub enum TopLine {
    /// Totals and per-LLC utilization.
    Summary,
    Blank,
    /// The names of the columns.
    Heading,
    /// A cohort, by its place in the snapshot.
    Cohort { cohort: usize },
    /// A process of a cohort, by its place in the cohort's list.
    Process { cohort: usize, process: usize },
}

/// The fewest lines that are shown.
pub const MIN_LINES: usize = 10;

/// Row `i` is hotter than row `j`, or as hot while it stands earlier.
pub open spec fn hotter(utils: Seq<u64>) -> spec_fn(usize, usize) -> bool {
    |i: usize, j: usize|
        utils[i as int] > utils[j as int] || (utils[i as int] == utils[j as int] && i < j)
}

/// `order` lists all rows, hottest first.
pub open spec fn lists_hottest(utils: Seq<u64>, order: Seq<usize>) -> bool {
    &&& forall|i: usize| #[trigger] order.contains(i) <==> i < utils.len()
    &&& sorted_by(order, hotter(utils))
}

/// All rows, hottest first.
pub open spec fn hottest(utils: Seq<u64>) -> Seq<usize> {
    choose|order: Seq<usize>| lists_hottest(utils, order)
}

/// The lines of the processes of a cohort, in `order`.
pub open spec fn process_lines(cohort: usize, order: Seq<usize>) -> Seq<TopLine> {
    Seq::new(order.len(), |k: int| TopLine::Process { cohort, process: order[k] })
}

/// The lines of the first `n` cohorts in `order`, each followed by its
/// processes.
pub open spec fn cohort_lines(order: Seq<usize>, procs: Seq<Vec<u64>>, n: int) -> Seq<TopLine>
    decreases n,
{
    if n <= 0 {
        seq![]
    } else {
        let cohort = order[n - 1];
        cohort_lines(order, procs, n - 1).push(TopLine::Cohort { cohort }) + process_lines(
            cohort,
            hottest(procs[cohort as int]@),
        )
    }
}

/// All lines of the view.
pub open spec fn all_lines(cohorts: Seq<u64>, procs: Seq<Vec<u64>>) -> Seq<TopLine> {
    let order = hottest(cohorts);
    seq![TopLine::Summary, TopLine::Blank, TopLine::Heading] + cohort_lines(
        order,
        procs,
        order.len() as int,
    )
}

/// How many lines fit: all rows of the terminal but one, though never fewer
/// than the minimum.
pub open spec fn line_budget(terminal_rows: usize) -> int {
    if terminal_rows - 1 < MIN_LINES {
        MIN_LINES as int
    } else {
        terminal_rows - 1
    }
}

/// The first `n` lines, or all if there are fewer.
pub open spec fn cut(lines: Seq<TopLine>, n: int) -> Seq<TopLine> {
    if lines.len() <= n {
        lines
    } else {
        lines.take(n)
    }
}

pub proof fn lemma_hottest_unique(utils: Seq<u64>, order: Seq<usize>)
    requires
        lists_hottest(utils, order),
    ensures
        hottest(utils) == order,
{
    let other = hottest(utils);
    assert(lists_hottest(utils, other));
    assert forall|i: usize| #[trigger] order.contains(i) <==> other.contains(i) by {
        assert(other.contains(i) <==> i < utils.len());
    }
    lemma_sorted_unique(order, other, hotter(utils));
}

/// Orders rows by utilization, hottest first; rows that are equally hot keep
/// their order.
pub fn hottest_first(utils: &[u64]) -> (order: Vec<usize>)
    ensures
        lists_hottest(utils@, order@),
        order@ == hottest(utils@),
{
    let mut order: Vec<usize> = Vec::new();
    let mut i: usize = 0;
    while i < utils.len()
        invariant
            i <= utils@.len(),
            forall|k: usize| #[trigger] order@.contains(k) <==> k < i,
            sorted_by(order@, hotter(utils@)),
        decreases utils@.len() - i,
    {
        let ghost before = order@;
        let mut p: usize = 0;
        proof {
            assert forall|a: int| 0 <= a < before.len() implies (#[trigger] before[a]) < i by {
                assert(before.contains(before[a]));
            }
        }
        while p < order.len() && utils[order[p]] >= utils[i]
            invariant
                p <= order@.len(),
                i < utils@.len(),
                order@ == before,
                forall|a: int| 0 <= a < before.len() ==> (#[trigger] before[a]) < i,
                forall|a: int| 0 <= a < p ==> utils@[(#[trigger] before[a]) as int] >= utils@[i as int],
            decreases order@.len() - p,
        {
            p = p + 1;
        }
        order.insert(p, i);
        proof {
            let after = order@;
            assert forall|k: usize| #[trigger] after.contains(k) <==> k < i + 1 by {
                if before.contains(k) {
                    let a = choose|a: int| 0 <= a < before.len() && before[a] == k;
                    if a < p {
                        assert(after[a] == k);
                    } else {
                        assert(after[a + 1] == k);
                    }
                }
                assert(after[p as int] == i);
                if after.contains(k) && k != i {
                    let a = choose|a: int| 0 <= a < after.len() && after[a] == k;
                    if a < p {
                        assert(before[a] == k);
                    } else {
                        assert(before[a - 1] == k);
                    }
                }
            }
            assert forall|a: int, b: int| 0 <= a < b < after.len() implies hotter(utils@)(
                #[trigger] after[a],
                #[trigger] after[b],
            ) by {
                let x = if a < p {
                    a
                } else {
                    a - 1
                };
                let y = if b < p {
                    b
                } else {
                    b - 1
                };
                if a != p && b != p {
                    assert(after[a] == before[x] && after[b] == before[y]);
                } else if a == p {
                    assert(after[b] == before[y]);
                    if y > p {
                        assert(hotter(utils@)(before[p as int], before[y]));
                    }
                } else {
                    assert(after[a] == before[x]);
                }
            }
        }
        i = i + 1;
    }
    proof {
        lemma_hottest_unique(utils@, order@);
    }
    order
}

/// Lays out the view: cohorts by utilization, hottest first, and processes
/// likewise within. `cohorts` and `procs` hold the utilizations as ranks.
pub fn layout(cohorts: &[u64], procs: &[Vec<u64>], terminal_rows: usize) -> (lines: Vec<TopLine>)
    requires
        procs@.len() == cohorts@.len(),
    ensures
        lines@ == cut(all_lines(cohorts@, procs@), line_budget(terminal_rows)),
{
    let mut lines: Vec<TopLine> = Vec::new();
    lines.push(TopLine::Summary);
    lines.push(TopLine::Blank);
    lines.push(TopLine::Heading);
    let ghost head = seq![TopLine::Summary, TopLine::Blank, TopLine::Heading];
    assert(lines@ =~= head);
    let order = hottest_first(cohorts);
    assert(lines@ =~= head + cohort_lines(order@, procs@, 0));
    let mut i: usize = 0;
    while i < order.len()
        invariant
            i <= order@.len(),
            procs@.len() == cohorts@.len(),
            lists_hottest(cohorts@, order@),
            lines@ == head + cohort_lines(order@, procs@, i as int),
        decreases order@.len() - i,
    {
        let cohort: usize = order[i];
        assert(order@.contains(cohort));
        let ghost upto = cohort_lines(order@, procs@, i as int).push(TopLine::Cohort { cohort });
        lines.push(TopLine::Cohort { cohort });
        assert(lines@ =~= head + upto);
        let within = hottest_first(&procs[cohort]);
        let mut k: usize = 0;
        assert(lines@ =~= head + upto + process_lines(cohort, within@).take(0));
        while k < within.len()
            invariant
                k <= within@.len(),
                lines@ == head + upto + process_lines(cohort, within@).take(k as int),
            decreases within@.len() - k,
        {
            lines.push(TopLine::Process { cohort, process: within[k] });
            assert(process_lines(cohort, within@).take(k + 1) =~= process_lines(
                cohort,
                within@,
            ).take(k as int).push(TopLine::Process { cohort, process: within@[k as int] }));
            assert(lines@ =~= head + upto + process_lines(cohort, within@).take(k + 1));
            k = k + 1;
        }
        proof {
            let all = process_lines(cohort, within@);
            assert(all.take(all.len() as int) =~= all);
            assert(head + upto + all =~= head + (upto + all));
        }
        i = i + 1;
    }
    let budget: usize = if terminal_rows <= MIN_LINES {
        MIN_LINES
    } else {
        terminal_rows - 1
    };
    if lines.len() > budget {
        lines.truncate(budget);
    }
    lines
}

// ---- Marks ----

/// The mark behind a cohort's home: a star where a rule pinned it there.
pub fn pin_mark(pinned: u64) -> (mark: char)
    ensures
        mark == (if pinned != 0 {
            '*'
        } else {
            ' '
        }),
{
    if pinned != 0 {
        '*'
    } else {
        ' '
    }
}

/// The number in the mark behind a process's threads: how many are spilled,
/// where any are.
pub fn spill_mark(spilled: u64) -> (mark: Option<u64>)
    ensures
        mark == (if spilled > 0 {
            Some(spilled)
        } else {
            None
        }),
{
    if spilled > 0 {
        Some(spilled)
    } else {
        None
    }
}

// ---- Laws ----

/// The view is never taller than the terminal allows, down to the minimum.
pub proof fn law_the_view_fits(cohorts: Seq<u64>, procs: Seq<Vec<u64>>, terminal_rows: usize)
    ensures
        cut(all_lines(cohorts, procs), line_budget(terminal_rows)).len() <= line_budget(
            terminal_rows,
        ),
        line_budget(terminal_rows) >= MIN_LINES,
        terminal_rows > MIN_LINES ==> line_budget(terminal_rows) < terminal_rows,
{
}

/// A table of utilizations can be listed hottest first.
proof fn lemma_hottest(utils: Seq<u64>)
    requires
        utils.len() <= usize::MAX,
    ensures
        lists_hottest(utils, hottest(utils)),
    decreases utils.len(),
{
    let order = lemma_listing(utils, utils.len() as int);
    assert(lists_hottest(utils, order));
}

proof fn lemma_listing(utils: Seq<u64>, n: int) -> (order: Seq<usize>)
    requires
        0 <= n <= utils.len() <= usize::MAX,
    ensures
        forall|i: usize| #[trigger] order.contains(i) <==> i < n,
        sorted_by(order, hotter(utils)),
    decreases n,
{
    if n == 0 {
        seq![]
    } else {
        let before = lemma_listing(utils, n - 1);
        let row = (n - 1) as usize;
        let p = lemma_place(utils, before, row, 0);
        let order = before.insert(p, row);
        assert forall|i: usize| #[trigger] order.contains(i) <==> i < n by {
            if before.contains(i) {
                let a = choose|a: int| 0 <= a < before.len() && before[a] == i;
                assert(order[if a < p { a } else { a + 1 }] == i);
            }
            assert(order[p] == row);
            if order.contains(i) && i != row {
                let a = choose|a: int| 0 <= a < order.len() && order[a] == i;
                assert(before[if a < p { a } else { a - 1 }] == i);
            }
        }
        assert forall|a: int, b: int| 0 <= a < b < order.len() implies hotter(utils)(
            #[trigger] order[a],
            #[trigger] order[b],
        ) by {
            let x = if a < p {
                a
            } else {
                a - 1
            };
            let y = if b < p {
                b
            } else {
                b - 1
            };
            if a != p && b != p {
                assert(order[a] == before[x] && order[b] == before[y]);
            } else if a == p {
                assert(order[b] == before[y]);
            } else {
                assert(order[a] == before[x]);
                assert(before.contains(before[x]));
            }
        }
        order
    }
}

/// Where in the order the next row belongs: behind all that are at least as
/// hot.
proof fn lemma_place(utils: Seq<u64>, before: Seq<usize>, row: usize, p: int) -> (place: int)
    requires
        0 <= p <= before.len(),
        row < utils.len(),
        forall|i: usize| #[trigger] before.contains(i) <==> i < row,
        sorted_by(before, hotter(utils)),
        forall|a: int| 0 <= a < p ==> utils[(#[trigger] before[a]) as int] >= utils[row as int],
    ensures
        0 <= place <= before.len(),
        forall|a: int|
            0 <= a < place ==> utils[(#[trigger] before[a]) as int] >= utils[row as int],
        forall|a: int|
            place <= a < before.len() ==> utils[(#[trigger] before[a]) as int]
                < utils[row as int],
    decreases before.len() - p,
{
    if p < before.len() && utils[before[p] as int] >= utils[row as int] {
        lemma_place(utils, before, row, p + 1)
    } else {
        assert forall|a: int| p <= a < before.len() implies utils[(#[trigger] before[a]) as int]
            < utils[row as int] by {
            if a > p {
                assert(hotter(utils)(before[p], before[a]));
            }
        }
        p
    }
}

/// Every row is listed once, hotter ones first, and rows that are equally hot
/// in the order in which they stand.
pub proof fn law_rows_come_hottest_first(utils: Seq<u64>)
    requires
        utils.len() <= usize::MAX,
    ensures
        ({
            let order = hottest(utils);
            &&& forall|i: usize| #[trigger] order.contains(i) <==> i < utils.len()
            &&& forall|a: int, b: int|
                0 <= a < b < order.len() ==> {
                    let x = #[trigger] order[a];
                    let y = #[trigger] order[b];
                    &&& x != y
                    &&& utils[x as int] >= utils[y as int]
                    &&& utils[x as int] == utils[y as int] ==> x < y
                }
        }),
{
    lemma_hottest(utils);
    let order = hottest(utils);
    assert forall|a: int, b: int| 0 <= a < b < order.len() implies {
        let x = #[trigger] order[a];
        let y = #[trigger] order[b];
        &&& x != y
        &&& utils[x as int] >= utils[y as int]
        &&& utils[x as int] == utils[y as int] ==> x < y
    } by {
        assert(hotter(utils)(order[a], order[b]));
    }
}

/// How many lines the first `n` cohorts in `order` take: one each, and one for
/// each of their processes.
pub open spec fn lines_taken(order: Seq<usize>, procs: Seq<Vec<u64>>, n: int) -> int {
    total(n, |k: int| 1int + hottest(procs[order[k] as int]@).len())
}

proof fn lemma_cohort_lines(order: Seq<usize>, procs: Seq<Vec<u64>>, n: int, k: int)
    requires
        0 <= k < n <= order.len(),
    ensures
        ({
            let lines = cohort_lines(order, procs, n);
            let at = lines_taken(order, procs, k);
            let within = hottest(procs[order[k] as int]@);
            &&& lines.len() == lines_taken(order, procs, n)
            &&& 0 <= at
            &&& at + within.len() < lines.len()
            &&& lines[at] == (TopLine::Cohort { cohort: order[k] })
            &&& forall|m: int|
                0 <= m < within.len() ==> lines[at + 1 + m] == (TopLine::Process {
                    cohort: order[k],
                    process: #[trigger] within[m],
                })
        }),
    decreases n,
{
    let f = |k: int| 1int + hottest(procs[order[k] as int]@).len();
    lemma_total_monotone(0, k, f);
    assert(total(k + 1, f) == total(k, f) + f(k));
    lemma_total_monotone(k + 1, n, f);
    assert(total(n, f) == total(n - 1, f) + f(n - 1));
    let before = cohort_lines(order, procs, n - 1);
    let lines = cohort_lines(order, procs, n);
    let at = lines_taken(order, procs, k);
    let within = hottest(procs[order[k] as int]@);
    if n > 1 {
        lemma_cohort_lines(order, procs, n - 1, if k < n - 1 { k } else { n - 2 });
    } else {
        assert(total(0, f) == 0);
        assert(before.len() == 0);
    }
    if k < n - 1 {
        assert(lines[at] == before[at]);
        assert forall|m: int| 0 <= m < within.len() implies lines[at + 1 + m] == (
        TopLine::Process { cohort: order[k], process: #[trigger] within[m] }) by {
            assert(lines[at + 1 + m] == before[at + 1 + m]);
        }
    } else {
        assert(lines[at] == TopLine::Cohort { cohort: order[k] });
        assert forall|m: int| 0 <= m < within.len() implies lines[at + 1 + m] == (
        TopLine::Process { cohort: order[k], process: #[trigger] within[m] }) by {
            assert(lines[at + 1 + m] == process_lines(order[k], within)[m]);
        }
    }
}

/// The view starts with the summary, a blank line and the heading. Then come
/// the cohorts, hottest first, each followed by its processes, hottest first;
/// and nothing else.
pub proof fn law_cohorts_head_their_processes(
    cohorts: Seq<u64>,
    procs: Seq<Vec<u64>>,
    k: int,
    m: int,
)
    requires
        0 <= k < hottest(cohorts).len(),
    ensures
        ({
            let order = hottest(cohorts);
            let lines = all_lines(cohorts, procs);
            let at = 3 + lines_taken(order, procs, k);
            let within = hottest(procs[order[k] as int]@);
            &&& lines.len() == 3 + lines_taken(order, procs, order.len() as int)
            &&& lines[0] == TopLine::Summary
            &&& lines[1] == TopLine::Blank
            &&& lines[2] == TopLine::Heading
            &&& lines[at] == (TopLine::Cohort { cohort: order[k] })
            &&& 0 <= m < within.len() ==> lines[at + 1 + m] == (TopLine::Process {
                cohort: order[k],
                process: within[m],
            })
        }),
{
    let order = hottest(cohorts);
    let n = order.len() as int;
    lemma_cohort_lines(order, procs, n, k);
    let within = hottest(procs[order[k] as int]@);
    let at = lines_taken(order, procs, k);
    let tail = cohort_lines(order, procs, n);
    let lines = all_lines(cohorts, procs);
    assert(lines[3 + at] == tail[at]);
    if 0 <= m < within.len() {
        assert(lines[3 + at + 1 + m] == tail[at + 1 + m]);
        assert(within[m] == within[m]);
    }
}

/// What does not fit is cut off at the end: all lines are shown where they
/// fit, and else as many from the top as the terminal has rows but one, though
/// never fewer than ten.
pub proof fn law_the_view_is_cut_at_the_end(
    cohorts: Seq<u64>,
    procs: Seq<Vec<u64>>,
    terminal_rows: usize,
    i: int,
)
    ensures
        ({
            let lines = all_lines(cohorts, procs);
            let shown = cut(lines, line_budget(terminal_rows));
            &&& 0 <= i < shown.len() ==> shown[i] == lines[i]
            &&& shown.len() <= lines.len()
            &&& shown.len() < lines.len() ==> shown.len() == (if terminal_rows <= 11 {
                10
            } else {
                terminal_rows - 1
            })
            &&& lines.len() <= 10 ==> shown.len() == lines.len()
            &&& lines.len() < terminal_rows ==> shown.len() == lines.len()
        }),
{
}

} // verus!
