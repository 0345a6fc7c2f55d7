//! Carrying a spill plan over to the kernel's map: what to write and what to
//! delete, and whether a plan can be made at all.
use std::collections::HashMap;

use vstd::prelude::*;

use crate::arith::{lemma_total_monotone, total};
use crate::domain::{LlcLoad, TaskSnapshot};
use crate::ordered::{
    ids_in_order, lemma_ids_in_order, lemma_ids_unique, lists_ids, sorted_hash_ids,
};
use crate::spill::{mark, spill_fits, total_duty, SpillCfg, SpillTick};

verus! {

/// Sums the runtime of all tasks, if it fits.
fn sum_duty(tasks: &[TaskSnapshot]) -> (sum: Option<u64>)
    ensures
        match sum {
            Some(sum) => sum == total_duty(tasks@),
            None => total_duty(tasks@) > u64::MAX,
        },
{
    let ghost n = tasks@.len() as int;
    let ghost f = |i: int| tasks@[i].duty_ns as int;
    let mut sum: u64 = 0;
    let mut i: usize = 0;
    while i < tasks.len()
        invariant
            n == tasks@.len(),
            i <= n,
            f == (|i: int| tasks@[i].duty_ns as int),
            sum == total(i as int, f),
        decreases n - i,
    {
        proof {
            lemma_total_monotone(i + 1, n, f);
        }
        match sum.checked_add(tasks[i].duty_ns) {
            Some(s) => {
                sum = s;
            },
            None => {
                return None;
            },
        }
        i = i + 1;
    }
    Some(sum)
}

/// The load that a plan may leave on an LLC, on top of another's and of all
/// tasks, if it fits.
fn load_fits(load_ns: u64, capacity_ns: u64, high_pct: u64, duty: u64) -> (yes: bool)
    requires
        capacity_ns * high_pct <= u64::MAX,
    ensures
        yes <==> load_ns + mark(capacity_ns, high_pct) + duty <= u64::MAX,
{
    let high: u64 = capacity_ns * high_pct / 100;
    match load_ns.checked_add(high) {
        Some(sum) => sum.checked_add(duty).is_some(),
        None => false,
    }
}

/// Whether the arithmetic of a spill plan fits.
pub fn spills_have_room(
    cfg: &SpillCfg,
    llcs: &[LlcLoad],
    tasks: &[TaskSnapshot],
    current: &HashMap<u32, u32>,
) -> (yes: bool)
    ensures
        yes <==> spill_fits(
            SpillTick { cfg: *cfg, llcs: llcs@, tasks: tasks@, current: current@ },
        ),
{
    let ghost s = SpillTick { cfg: *cfg, llcs: llcs@, tasks: tasks@, current: current@ };
    if llcs.len() < 2 {
        return true;
    }
    if cfg.tick_ns.checked_mul(cfg.cold_max_pct).is_none() {
        return false;
    }
    let mut i: usize = 0;
    while i < llcs.len()
        invariant
            i <= llcs@.len(),
            llcs@.len() >= 2,
            s == (SpillTick { cfg: *cfg, llcs: llcs@, tasks: tasks@, current: current@ }),
            forall|k: int|
                0 <= k < i ==> {
                    &&& (#[trigger] llcs@[k]).capacity_ns * cfg.high_pct <= u64::MAX
                    &&& llcs@[k].capacity_ns * cfg.low_pct <= u64::MAX
                },
        decreases llcs@.len() - i,
    {
        let capacity_ns: u64 = llcs[i].capacity_ns;
        if capacity_ns.checked_mul(cfg.high_pct).is_none() || capacity_ns.checked_mul(
            cfg.low_pct,
        ).is_none() {
            assert(!spill_fits(s)) by {
                assert(s.llcs[i as int].capacity_ns == capacity_ns);
            }
            return false;
        }
        i = i + 1;
    }
    let duty: u64 = match sum_duty(tasks) {
        Some(duty) => duty,
        None => {
            proof {
                lemma_marks_nonneg(s, 0);
                assert(!spill_fits(s)) by {
                    assert(s.llcs[0].load_ns + mark(s.llcs[0].capacity_ns, s.cfg.high_pct)
                        + total_duty(s.tasks) > u64::MAX);
                }
            }
            return false;
        },
    };
    let mut i: usize = 0;
    while i < llcs.len()
        invariant
            i <= llcs@.len(),
            llcs@.len() >= 2,
            s == (SpillTick { cfg: *cfg, llcs: llcs@, tasks: tasks@, current: current@ }),
            duty == total_duty(tasks@),
            forall|k: int|
                0 <= k < llcs@.len() ==> (#[trigger] llcs@[k]).capacity_ns * cfg.high_pct
                    <= u64::MAX,
            forall|a: int, b: int|
                0 <= a < i && 0 <= b < llcs@.len() ==> (#[trigger] llcs@[a]).load_ns + mark(
                    (#[trigger] llcs@[b]).capacity_ns,
                    cfg.high_pct,
                ) + duty <= u64::MAX,
        decreases llcs@.len() - i,
    {
        let mut j: usize = 0;
        while j < llcs.len()
            invariant
                i < llcs@.len(),
                j <= llcs@.len(),
                llcs@.len() >= 2,
                s == (SpillTick { cfg: *cfg, llcs: llcs@, tasks: tasks@, current: current@ }),
                duty == total_duty(tasks@),
                forall|k: int|
                    0 <= k < llcs@.len() ==> (#[trigger] llcs@[k]).capacity_ns * cfg.high_pct
                        <= u64::MAX,
                forall|b: int|
                    0 <= b < j ==> llcs@[i as int].load_ns + mark(
                        (#[trigger] llcs@[b]).capacity_ns,
                        cfg.high_pct,
                    ) + duty <= u64::MAX,
            decreases llcs@.len() - j,
        {
            if !load_fits(llcs[i].load_ns, llcs[j].capacity_ns, cfg.high_pct, duty) {
                assert(!spill_fits(s)) by {
                    assert(s.llcs[i as int].load_ns + mark(
                        s.llcs[j as int].capacity_ns,
                        s.cfg.high_pct,
                    ) + total_duty(s.tasks) > u64::MAX);
                }
                return false;
            }
            j = j + 1;
        }
        i = i + 1;
    }
    true
}

proof fn lemma_marks_nonneg(s: SpillTick, i: int)
    ensures
        mark(s.llcs[i].capacity_ns, s.cfg.high_pct) >= 0,
{
    assert(s.llcs[i].capacity_ns * s.cfg.high_pct >= 0) by (nonlinear_arith);
}

// ---- Differences ----

/// What turns the map's contents into the plan.
#[derive(Debug)]
pub struct SpillChanges {
    /// pids to write, and their target LLCs.
    pub sent: Vec<(u32, u32)>,
    /// pids to delete: these go home.
    pub called_back: Vec<u32>,
}

/// The task is to run elsewhere than it does.
pub open spec fn is_sent(current: Map<u32, u32>, desired: Map<u32, u32>, pid: u32) -> bool {
    desired.dom().contains(pid) && !(current.dom().contains(pid) && current[pid] == desired[pid])
}

/// The task is to go home.
pub open spec fn is_called_back(
    current: Map<u32, u32>,
    desired: Map<u32, u32>,
    pid: u32,
) -> bool {
    current.dom().contains(pid) && !desired.dom().contains(pid)
}

/// What to write, in order of the pids.
pub open spec fn all_sent(current: Map<u32, u32>, desired: Map<u32, u32>) -> Seq<(u32, u32)> {
    let pids = ids_in_order(Set::new(|pid: u32| is_sent(current, desired, pid)));
    Seq::new(pids.len(), |k: int| (pids[k], desired[pids[k]]))
}

/// What to delete, in order of the pids.
pub open spec fn all_called_back(current: Map<u32, u32>, desired: Map<u32, u32>) -> Seq<u32> {
    ids_in_order(Set::new(|pid: u32| is_called_back(current, desired, pid)))
}

/// Compares the map's contents with the plan.
pub fn spill_changes(current: &HashMap<u32, u32>, desired: &HashMap<u32, u32>) -> (changes:
    SpillChanges)
    ensures
        changes.sent@ == all_sent(current@, desired@),
        changes.called_back@ == all_called_back(current@, desired@),
{
    let ghost sends = Set::new(|pid: u32| is_sent(current@, desired@, pid));
    let ghost recalls = Set::new(|pid: u32| is_called_back(current@, desired@, pid));
    let planned = sorted_hash_ids(desired);
    let mut sent: Vec<(u32, u32)> = Vec::new();
    let ghost mut pids: Seq<u32> = seq![];
    let mut i: usize = 0;
    while i < planned.len()
        invariant
            i <= planned@.len(),
            lists_ids(planned@, desired@.dom()),
            sends == Set::new(|pid: u32| is_sent(current@, desired@, pid)),
            sent@ == Seq::new(pids.len(), |k: int| (pids[k], desired@[pids[k]])),
            kept_in_order(planned@, sends, i as int, pids),
        decreases planned@.len() - i,
    {
        let pid: u32 = planned[i];
        assert(planned@.contains(pid));
        let to: u32 = match desired.get(&pid) {
            Some(to) => *to,
            None => 0,
        };
        let there: bool = match current.get(&pid) {
            Some(at) => *at == to,
            None => false,
        };
        proof {
            lemma_keep_next(planned@, sends, i as int, pids);
        }
        if !there {
            sent.push((pid, to));
            proof {
                pids = pids.push(pid);
                assert(sent@ =~= Seq::new(pids.len(), |k: int| (pids[k], desired@[pids[k]])));
            }
        }
        i = i + 1;
    }
    proof {
        lemma_kept_all(planned@, desired@.dom(), sends, pids);
    }
    let held = sorted_hash_ids(current);
    let mut called_back: Vec<u32> = Vec::new();
    let mut i: usize = 0;
    while i < held.len()
        invariant
            i <= held@.len(),
            lists_ids(held@, current@.dom()),
            recalls == Set::new(|pid: u32| is_called_back(current@, desired@, pid)),
            kept_in_order(held@, recalls, i as int, called_back@),
        decreases held@.len() - i,
    {
        let pid: u32 = held[i];
        assert(held@.contains(pid));
        proof {
            lemma_keep_next(held@, recalls, i as int, called_back@);
        }
        if !desired.contains_key(&pid) {
            called_back.push(pid);
        }
        i = i + 1;
    }
    proof {
        lemma_kept_all(held@, current@.dom(), recalls, called_back@);
    }
    SpillChanges { sent, called_back }
}

/// `kept` are those of the first `n` ids that are in the set, in their order.
spec fn kept_in_order(ids: Seq<u32>, s: Set<u32>, n: int, kept: Seq<u32>) -> bool {
    &&& forall|x: u32| #[trigger] kept.contains(x) <==> ids.take(n).contains(x) && s.contains(x)
    &&& forall|a: int, b: int| 0 <= a < b < kept.len() ==> kept[a] < kept[b]
}

proof fn lemma_keep_next(ids: Seq<u32>, s: Set<u32>, n: int, kept: Seq<u32>)
    requires
        0 <= n < ids.len(),
        forall|a: int, b: int| 0 <= a < b < ids.len() ==> ids[a] < ids[b],
        kept_in_order(ids, s, n, kept),
    ensures
        s.contains(ids[n]) ==> kept_in_order(ids, s, n + 1, kept.push(ids[n])),
        !s.contains(ids[n]) ==> kept_in_order(ids, s, n + 1, kept),
{
    let more = kept.push(ids[n]);
    let short = ids.take(n);
    let long = ids.take(n + 1);
    assert forall|x: u32| #[trigger] long.contains(x) <==> short.contains(x) || x == ids[n] by {
        if short.contains(x) {
            let j = choose|j: int| 0 <= j < short.len() && short[j] == x;
            assert(long[j] == x);
        }
        assert(long[n] == ids[n]);
        if long.contains(x) && x != ids[n] {
            let j = choose|j: int| 0 <= j < long.len() && long[j] == x;
            assert(short[j] == x);
        }
    }
    assert forall|x: u32| #[trigger] more.contains(x) <==> kept.contains(x) || x == ids[n] by {
        if kept.contains(x) {
            let j = choose|j: int| 0 <= j < kept.len() && kept[j] == x;
            assert(more[j] == x);
        }
        assert(more[kept.len() as int] == ids[n]);
        if more.contains(x) && x != ids[n] {
            let j = choose|j: int| 0 <= j < more.len() && more[j] == x;
            assert(kept[j] == x);
        }
    }
    assert forall|a: int| 0 <= a < kept.len() implies #[trigger] kept[a] < ids[n] by {
        assert(kept.contains(kept[a]));
        let j = choose|j: int| 0 <= j < short.len() && short[j] == kept[a];
        assert(ids[j] < ids[n]);
    }
}

proof fn lemma_kept_all(ids: Seq<u32>, all: Set<u32>, s: Set<u32>, kept: Seq<u32>)
    requires
        lists_ids(ids, all),
        forall|x: u32| #[trigger] s.contains(x) ==> all.contains(x),
        kept_in_order(ids, s, ids.len() as int, kept),
    ensures
        ids_in_order(s) == kept,
{
    assert(ids.take(ids.len() as int) =~= ids);
    assert forall|x: u32| #[trigger] kept.contains(x) <==> s.contains(x) by {
        assert(ids.contains(x) <==> all.contains(x));
    }
    lemma_ids_unique(kept, s);
}

// ---- Laws ----

/// The map once the changes are made.
pub open spec fn after_changes(
    current: Map<u32, u32>,
    sent: Seq<(u32, u32)>,
    called_back: Seq<u32>,
) -> Map<u32, u32>
    decreases sent.len(),
{
    if sent.len() == 0 {
        current.remove_keys(called_back.to_set())
    } else {
        after_changes(current, sent.drop_last(), called_back).insert(sent.last().0, sent.last().1)
    }
}

/// Making the changes turns the map's contents into the plan.
pub proof fn law_changes_carry_out_the_plan(current: Map<u32, u32>, desired: Map<u32, u32>)
    ensures
        after_changes(current, all_sent(current, desired), all_called_back(current, desired))
            == desired,
{
    let sends = Set::new(|pid: u32| is_sent(current, desired, pid));
    let recalls = Set::new(|pid: u32| is_called_back(current, desired, pid));
    let pids = ids_in_order(sends);
    let sent = all_sent(current, desired);
    let back = all_called_back(current, desired);
    let end = after_changes(current, sent, back);
    lemma_ids_in_order(sends);
    lemma_ids_in_order(recalls);
    lemma_after_changes(current, desired, pids, back, pids.len() as int);
    assert(sent.take(pids.len() as int) =~= sent);
    assert(pids.take(pids.len() as int) =~= pids);
    assert forall|pid: u32| end.dom().contains(pid) <==> desired.dom().contains(pid) by {
        assert(pids.contains(pid) <==> is_sent(current, desired, pid));
        assert(back.contains(pid) <==> is_called_back(current, desired, pid));
    }
    assert forall|pid: u32| #[trigger] end.dom().contains(pid) implies end[pid]
        == desired[pid] by {
        assert(pids.contains(pid) <==> is_sent(current, desired, pid));
        assert(back.contains(pid) <==> is_called_back(current, desired, pid));
    }
    assert(end =~= desired);
}

proof fn lemma_after_changes(
    current: Map<u32, u32>,
    desired: Map<u32, u32>,
    pids: Seq<u32>,
    back: Seq<u32>,
    n: int,
)
    requires
        0 <= n <= pids.len(),
    ensures
        ({
            let sent = Seq::new(pids.len(), |k: int| (pids[k], desired[pids[k]]));
            let end = after_changes(current, sent.take(n), back);
            forall|pid: u32|
                #![trigger end.dom().contains(pid)]
                {
                    &&& end.dom().contains(pid) <==> pids.take(n).contains(pid) || (
                    current.dom().contains(pid) && !back.contains(pid))
                    &&& pids.take(n).contains(pid) ==> end[pid] == desired[pid]
                    &&& !pids.take(n).contains(pid) && end.dom().contains(pid) ==> end[pid]
                        == current[pid]
                }
        }),
    decreases n,
{
    let sent = Seq::new(pids.len(), |k: int| (pids[k], desired[pids[k]]));
    let end = after_changes(current, sent.take(n), back);
    if n == 0 {
        assert(pids.take(0).len() == 0);
        assert forall|pid: u32| #[trigger] end.dom().contains(pid) <==> current.dom().contains(pid)
            && !back.contains(pid) by {
            assert(back.to_set().contains(pid) <==> back.contains(pid));
        }
    } else {
        lemma_after_changes(current, desired, pids, back, n - 1);
        assert(sent.take(n).drop_last() =~= sent.take(n - 1));
        let before = after_changes(current, sent.take(n - 1), back);
        let last = pids[n - 1];
        assert(end == before.insert(last, desired[last]));
        assert forall|pid: u32|
            #![trigger end.dom().contains(pid)]
            {
                &&& end.dom().contains(pid) <==> pids.take(n).contains(pid) || (
                current.dom().contains(pid) && !back.contains(pid))
                &&& pids.take(n).contains(pid) ==> end[pid] == desired[pid]
                &&& !pids.take(n).contains(pid) && end.dom().contains(pid) ==> end[pid]
                    == current[pid]
            } by {
            let short = pids.take(n - 1);
            let long = pids.take(n);
            assert(before.dom().contains(pid) || !before.dom().contains(pid));
            if short.contains(pid) {
                let j = choose|j: int| 0 <= j < short.len() && short[j] == pid;
                assert(long[j] == pid);
            }
            assert(long[n - 1] == last);
            if long.contains(pid) && pid != last {
                let j = choose|j: int| 0 <= j < long.len() && long[j] == pid;
                assert(short[j] == pid);
            }
        }
    }
}

/// Only what has to change is touched: a task is written, once, exactly if the
/// plan sends it where it is not yet sent, and to where the plan sends it.
pub proof fn law_only_changes_are_written(
    current: Map<u32, u32>,
    desired: Map<u32, u32>,
    pid: u32,
    to: u32,
)
    ensures
        all_sent(current, desired).contains((pid, to)) <==> {
            &&& desired.contains_key(pid)
            &&& desired[pid] == to
            &&& current.contains_key(pid) ==> current[pid] != to
        },
        forall|a: int, b: int|
            0 <= a < b < all_sent(current, desired).len() ==> (#[trigger] all_sent(
                current,
                desired,
            )[a]).0 < (#[trigger] all_sent(current, desired)[b]).0,
{
    let sends = Set::new(|pid: u32| is_sent(current, desired, pid));
    let pids = ids_in_order(sends);
    let sent = all_sent(current, desired);
    lemma_ids_in_order(sends);
    if sent.contains((pid, to)) {
        let k = choose|k: int| 0 <= k < sent.len() && sent[k] == (pid, to);
        assert(pids[k] == pid);
        assert(pids.contains(pid));
        assert(is_sent(current, desired, pid));
    }
    if is_sent(current, desired, pid) {
        assert(pids.contains(pid));
        let k = choose|k: int| 0 <= k < pids.len() && pids[k] == pid;
        assert(sent[k] == (pid, desired[pid]));
    }
}

/// A task is deleted, once, exactly if it is sent away now and the plan sends
/// it nowhere.
pub proof fn law_only_the_recalled_are_deleted(
    current: Map<u32, u32>,
    desired: Map<u32, u32>,
    pid: u32,
)
    ensures
        all_called_back(current, desired).contains(pid) <==> current.contains_key(pid)
            && !desired.contains_key(pid),
        forall|a: int, b: int|
            0 <= a < b < all_called_back(current, desired).len() ==> #[trigger] all_called_back(
                current,
                desired,
            )[a] < #[trigger] all_called_back(current, desired)[b],
{
    let recalls = Set::new(|pid: u32| is_called_back(current, desired, pid));
    lemma_ids_in_order(recalls);
    assert(all_called_back(current, desired).contains(pid) <==> is_called_back(
        current,
        desired,
        pid,
    ));
}

/// Where the plan is what the map holds, nothing changes.
pub proof fn law_a_plan_in_place_changes_nothing(current: Map<u32, u32>)
    ensures
        all_sent(current, current).len() == 0,
        all_called_back(current, current).len() == 0,
{
    if all_sent(current, current).len() > 0 {
        let (pid, to) = all_sent(current, current)[0];
        assert(all_sent(current, current).contains((pid, to)));
        law_only_changes_are_written(current, current, pid, to);
    }
    if all_called_back(current, current).len() > 0 {
        let pid = all_called_back(current, current)[0];
        assert(all_called_back(current, current).contains(pid));
        law_only_the_recalled_are_deleted(current, current, pid);
    }
}

/// With fewer than two LLCs any plan can be made. With more, one can be made
/// exactly if what it reckons with fits in 64 bits: the cold threshold, both
/// marks of every LLC, and for any two LLCs the load of one on top of the high
/// mark of the other and of all tasks.
pub proof fn law_plans_are_made_where_they_fit(s: SpillTick)
    ensures
        s.llcs.len() < 2 ==> spill_fits(s),
        s.llcs.len() >= 2 ==> (spill_fits(s) <==> {
            &&& s.cfg.tick_ns * s.cfg.cold_max_pct <= u64::MAX
            &&& forall|i: int|
                0 <= i < s.llcs.len() ==> {
                    &&& (#[trigger] s.llcs[i]).capacity_ns * s.cfg.high_pct <= u64::MAX
                    &&& s.llcs[i].capacity_ns * s.cfg.low_pct <= u64::MAX
                }
            &&& forall|i: int, j: int|
                0 <= i < s.llcs.len() && 0 <= j < s.llcs.len() ==> (#[trigger] s.llcs[i]).load_ns
                    + (#[trigger] s.llcs[j]).capacity_ns * s.cfg.high_pct / 100 + total(
                    s.tasks.len() as int,
                    |k: int| s.tasks[k].duty_ns as int,
                ) <= u64::MAX
        }),
{
}

} // verus!
