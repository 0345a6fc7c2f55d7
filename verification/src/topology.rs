//! Checking a machine's topology against what the scheduler is sized for.
use vstd::prelude::*;

use crate::tunables::{MAX_CPUS, MAX_LLCS};

verus! {

/// A CPU and the LLC it belongs to.
#[derive(Debug, Clone, Copy)]
pub struct CpuSite {
    pub cpu: u32,
    pub llc: u32,
}

/// Why a machine is not supported.
#[derive(Debug, Clone, Copy, PartialEq, Eq, Structural)]
pub enum TopologyError {
    /// Multi-node (NUMA) systems are out of scope.
    MultiNode,
    /// There are more LLCs than the scheduler is sized for.
    TooManyLlcs { llcs: usize },
    /// CPU ids reach further than the scheduler is sized for.
    CpuRange { cpus: u64 },
}

/// What the fast path is told of the machine.
#[derive(Debug)]
pub struct TopologyPlan {
    pub nr_llcs: u32,
    /// One more than the highest CPU id.
    pub nr_cpus: u32,
    /// The LLC of each CPU; 0 where there is no such CPU.
    pub cpu_llc_id: Vec<u32>,
}

/// One more than the highest CPU id among the first `n`; at least 1.
pub open spec fn cpu_range(cpus: Seq<CpuSite>, n: int) -> int
    decreases n,
{
    if n <= 0 {
        1
    } else if cpus[n - 1].cpu + 1 > cpu_range(cpus, n - 1) {
        cpus[n - 1].cpu + 1
    } else {
        cpu_range(cpus, n - 1)
    }
}

/// The LLC table with the first `n` CPUs entered.
pub open spec fn llc_table(cpus: Seq<CpuSite>, n: int) -> Seq<u32>
    decreases n,
{
    if n <= 0 {
        Seq::new(MAX_CPUS as nat, |i: int| 0u32)
    } else {
        llc_table(cpus, n - 1).update(cpus[n - 1].cpu as int, cpus[n - 1].llc)
    }
}

/// The first reason, if any, why the machine is not supported.
pub open spec fn unsupported(nodes: usize, llcs: usize, cpus: Seq<CpuSite>) -> Option<
    TopologyError,
> {
    if nodes > 1 {
        Some(TopologyError::MultiNode)
    } else if llcs > MAX_LLCS {
        Some(TopologyError::TooManyLlcs { llcs })
    } else if cpu_range(cpus, cpus.len() as int) > MAX_CPUS {
        Some(TopologyError::CpuRange { cpus: cpu_range(cpus, cpus.len() as int) as u64 })
    } else {
        None
    }
}

proof fn lemma_cpu_range(cpus: Seq<CpuSite>, n: int)
    requires
        0 <= n <= cpus.len(),
    ensures
        1 <= cpu_range(cpus, n) <= u32::MAX + 1,
        forall|i: int| 0 <= i < n ==> (#[trigger] cpus[i]).cpu < cpu_range(cpus, n),
    decreases n,
{
    if n > 0 {
        lemma_cpu_range(cpus, n - 1);
    }
}

proof fn lemma_llc_table_len(cpus: Seq<CpuSite>, n: int)
    requires
        n <= cpus.len(),
        forall|i: int| 0 <= i < cpus.len() ==> (#[trigger] cpus[i]).cpu < MAX_CPUS,
    ensures
        llc_table(cpus, n).len() == MAX_CPUS,
    decreases n,
{
    if n > 0 {
        lemma_llc_table_len(cpus, n - 1);
        assert(cpus[n - 1].cpu < MAX_CPUS);
    }
}

/// Checks the topology and lays out what the fast path is told of it.
pub fn plan_topology(nodes: usize, llcs: usize, cpus: &[CpuSite]) -> (planned: Result<
    TopologyPlan,
    TopologyError,
>)
    requires
        forall|i: int| 0 <= i < cpus@.len() ==> (#[trigger] cpus@[i]).cpu < u32::MAX,
    ensures
        match planned {
            Ok(p) => {
                &&& unsupported(nodes, llcs, cpus@) is None
                &&& p.nr_llcs == llcs
                &&& p.nr_cpus == cpu_range(cpus@, cpus@.len() as int)
                &&& p.cpu_llc_id@ == llc_table(cpus@, cpus@.len() as int)
            },
            Err(e) => unsupported(nodes, llcs, cpus@) == Some(e),
        },
{
    if nodes > 1 {
        return Err(TopologyError::MultiNode);
    }
    if llcs > MAX_LLCS as usize {
        return Err(TopologyError::TooManyLlcs { llcs });
    }
    let mut range: u64 = 1;
    let mut i: usize = 0;
    while i < cpus.len()
        invariant
            i <= cpus@.len(),
            range == cpu_range(cpus@, i as int),
        decreases cpus@.len() - i,
    {
        let next: u64 = cpus[i].cpu as u64 + 1;
        if next > range {
            range = next;
        }
        i = i + 1;
    }
    if range > MAX_CPUS as u64 {
        return Err(TopologyError::CpuRange { cpus: range });
    }
    proof {
        lemma_cpu_range(cpus@, cpus@.len() as int);
    }
    let mut table: Vec<u32> = Vec::new();
    let mut k: usize = 0;
    while k < MAX_CPUS as usize
        invariant
            k <= MAX_CPUS,
            table@ =~= Seq::new(k as nat, |i: int| 0u32),
        decreases MAX_CPUS - k,
    {
        table.push(0);
        k = k + 1;
    }
    let mut n: usize = 0;
    while n < cpus.len()
        invariant
            n <= cpus@.len(),
            table@ == llc_table(cpus@, n as int),
            table@.len() == MAX_CPUS,
            forall|i: int| 0 <= i < cpus@.len() ==> (#[trigger] cpus@[i]).cpu < MAX_CPUS,
        decreases cpus@.len() - n,
    {
        let site = cpus[n];
        table.set(site.cpu as usize, site.llc);
        n = n + 1;
    }
    Ok(TopologyPlan { nr_llcs: llcs as u32, nr_cpus: range as u32, cpu_llc_id: table })
}

// ---- Laws ----

/// On a supported machine every CPU is entered with its LLC, and no CPU id
/// falls outside the table.
pub proof fn law_every_cpu_is_entered(nodes: usize, llcs: usize, cpus: Seq<CpuSite>, i: int)
    requires
        unsupported(nodes, llcs, cpus) is None,
        0 <= i < cpus.len(),
        forall|j: int| i < j < cpus.len() ==> (#[trigger] cpus[j]).cpu != cpus[i].cpu,
    ensures
        cpus[i].cpu < cpu_range(cpus, cpus.len() as int) <= MAX_CPUS,
        llc_table(cpus, cpus.len() as int)[cpus[i].cpu as int] == cpus[i].llc,
{
    lemma_cpu_range(cpus, cpus.len() as int);
    lemma_entered(cpus, cpus.len() as int, i);
}

proof fn lemma_entered(cpus: Seq<CpuSite>, n: int, i: int)
    requires
        0 <= i < n <= cpus.len(),
        forall|j: int| 0 <= j < cpus.len() ==> (#[trigger] cpus[j]).cpu < MAX_CPUS,
        forall|j: int| i < j < cpus.len() ==> (#[trigger] cpus[j]).cpu != cpus[i].cpu,
    ensures
        llc_table(cpus, n)[cpus[i].cpu as int] == cpus[i].llc,
    decreases n,
{
    lemma_llc_table_len(cpus, n - 1);
    assert(cpus[i].cpu < MAX_CPUS);
    if i < n - 1 {
        lemma_entered(cpus, n - 1, i);
        assert(cpus[n - 1].cpu != cpus[i].cpu);
    }
}

/// A machine is supported exactly if it is a single node with no more LLCs and
/// no higher CPU ids than the scheduler is sized for; where it is not, the
/// first of these that fails is the reason.
pub proof fn law_machines_that_fit_are_supported(nodes: usize, llcs: usize, cpus: Seq<CpuSite>)
    ensures
        ({
            let why = unsupported(nodes, llcs, cpus);
            let within = forall|i: int| 0 <= i < cpus.len() ==> (#[trigger] cpus[i]).cpu < 512;
            &&& why is None <==> nodes <= 1 && llcs <= 8 && within
            &&& nodes > 1 ==> why == Some(TopologyError::MultiNode)
            &&& nodes <= 1 && llcs > 8 ==> why == Some(TopologyError::TooManyLlcs { llcs })
            &&& nodes <= 1 && llcs <= 8 && !within ==> why == Some(
                TopologyError::CpuRange { cpus: cpu_range(cpus, cpus.len() as int) as u64 },
            )
        }),
{
    let n = cpus.len() as int;
    lemma_cpu_range(cpus, n);
    law_the_range_is_tight(cpus, n);
    if forall|i: int| 0 <= i < n ==> (#[trigger] cpus[i]).cpu < 512 {
        if cpu_range(cpus, n) > 512 {
            let i = choose|i: int|
                0 <= i < n && (#[trigger] cpus[i]).cpu + 1 == cpu_range(cpus, n);
            assert(cpus[i].cpu < 512);
        }
    }
}

/// The CPU range covers every id, and reaches no further than the highest.
pub proof fn law_the_range_is_tight(cpus: Seq<CpuSite>, n: int)
    requires
        0 <= n <= cpus.len(),
    ensures
        forall|i: int| 0 <= i < n ==> (#[trigger] cpus[i]).cpu < cpu_range(cpus, n),
        cpu_range(cpus, n) == 1 || exists|i: int|
            0 <= i < n && (#[trigger] cpus[i]).cpu + 1 == cpu_range(cpus, n),
    decreases n,
{
    if n > 0 {
        law_the_range_is_tight(cpus, n - 1);
        assert(cpus[n - 1].cpu + 1 <= cpu_range(cpus, n));
        if cpus[n - 1].cpu + 1 != cpu_range(cpus, n) {
            assert(cpu_range(cpus, n) == cpu_range(cpus, n - 1));
        }
    }
}

/// Ids that no CPU has are entered with the first LLC.
pub proof fn law_other_ids_stay_blank(cpus: Seq<CpuSite>, n: int, id: int)
    requires
        0 <= n <= cpus.len(),
        forall|i: int| 0 <= i < cpus.len() ==> (#[trigger] cpus[i]).cpu < 512,
        0 <= id < 512,
        forall|i: int| 0 <= i < n ==> (#[trigger] cpus[i]).cpu != id,
    ensures
        llc_table(cpus, n).len() == 512,
        llc_table(cpus, n)[id] == 0,
    decreases n,
{
    if n > 0 {
        law_other_ids_stay_blank(cpus, n - 1, id);
        assert(cpus[n - 1].cpu != id);
    }
}

} // verus!
