//! How much memory is mapped, and where its regions lie.

use vstd::prelude::*;

use crate::config::{HUGE_PAGE_SIZE, MB, MIN_ALLOC_MB, SAFETY_BUFFER_MB};

verus! {

/// How many regions pass between two progress reports.
pub const PROGRESS_INTERVAL: usize = 64;

/// An allocation of whole huge pages.
#[derive(Debug, Clone, Copy)]
pub struct AllocationPlan {
    pub safe_mb: usize,
    pub num_pages: usize,
    /// Bytes to allocate.
    pub alloc_size: usize,
}

/// What may be allocated: all that is available beyond the safety buffer, or
/// the limit where that is less.
pub open spec fn budget_mb(available_mb: usize, limit_mb: Option<usize>) -> int {
    let free = if available_mb > SAFETY_BUFFER_MB {
        available_mb - SAFETY_BUFFER_MB
    } else {
        0
    };
    match limit_mb {
        Some(limit) => if limit < free {
            limit as int
        } else {
            free
        },
        None => free,
    }
}

/// The largest amount within the budget that huge pages can make up.
pub open spec fn usable(available_mb: usize, limit_mb: Option<usize>) -> int {
    budget_mb(available_mb, limit_mb) / 2 * 2
}

/// Computes the largest amount within the budget that huge pages can make up.
pub fn usable_mb(available_mb: usize, limit_mb: Option<usize>) -> (safe_mb: usize)
    ensures
        safe_mb == budget_mb(available_mb, limit_mb) / 2 * 2,
        safe_mb == usable(available_mb, limit_mb),
{
    let free: usize = available_mb.saturating_sub(SAFETY_BUFFER_MB);
    let budget: usize = match limit_mb {
        Some(limit) => if limit < free {
            limit
        } else {
            free
        },
        None => free,
    };
    (budget / 2) * 2
}

/// `plan` allocates `safe_mb` mebibytes, unless that is too little.
pub open spec fn is_plan(plan: Option<AllocationPlan>, safe_mb: usize) -> bool {
    &&& plan is None <==> safe_mb < MIN_ALLOC_MB
    &&& plan matches Some(plan) ==> {
        &&& plan.safe_mb == safe_mb
        &&& plan.num_pages == safe_mb / 2
        &&& plan.alloc_size == safe_mb / 2 * HUGE_PAGE_SIZE
    }
}

impl AllocationPlan {
    /// Plans an allocation, unless it would be too small to be worthwhile.
    pub fn new(safe_mb: usize) -> (plan: Option<Self>)
        requires
            safe_mb >= MIN_ALLOC_MB ==> safe_mb / 2 * HUGE_PAGE_SIZE <= usize::MAX,
        ensures
            is_plan(plan, safe_mb),
            plan is None <==> safe_mb < MIN_ALLOC_MB,
            plan matches Some(plan) ==> {
                &&& plan.safe_mb == safe_mb
                &&& plan.num_pages == safe_mb / 2
                &&& plan.alloc_size == safe_mb / 2 * HUGE_PAGE_SIZE
            },
    {
        if safe_mb < MIN_ALLOC_MB {
            return None;
        }
        let num_pages: usize = safe_mb / 2;
        Some(AllocationPlan { safe_mb, num_pages, alloc_size: num_pages * HUGE_PAGE_SIZE })
    }
}

/// What is usable is a whole number of pages of two mebibytes, within the
/// limit, and with 4096 mebibytes left over unless it is zero; and it is the
/// largest such amount.
pub proof fn usable_exact(available_mb: usize, limit_mb: Option<usize>)
    ensures
        ({
            let most = usable(available_mb, limit_mb);
            &&& most >= 0 && most % 2 == 0
            &&& limit_mb matches Some(limit) ==> most <= limit
            &&& most == 0 || most + 4096 <= available_mb
            &&& forall|mb: int|
                #![trigger mb % 2]
                mb % 2 == 0 && mb + 4096 <= available_mb && (limit_mb matches Some(limit) ==> mb
                    <= limit) ==> mb <= most
        }),
{
}

/// A plan is made exactly for 64 mebibytes or more. Its pages of two mebibytes
/// are as many as go into the amount, and its bytes are those of its pages.
pub proof fn plan_exact(plan: Option<AllocationPlan>, safe_mb: usize)
    requires
        is_plan(plan, safe_mb),
    ensures
        plan is Some <==> safe_mb >= 64,
        plan matches Some(plan) ==> {
            &&& plan.safe_mb == safe_mb
            &&& 2 * plan.num_pages <= safe_mb < 2 * plan.num_pages + 2
            &&& plan.alloc_size == plan.num_pages * 2097152
        },
{
}

/// What is planned stays within the limit and leaves the safety buffer free,
/// is exactly as large as its pages, and no further page would fit the budget.
pub proof fn plan_within_budget(
    available_mb: usize,
    limit_mb: Option<usize>,
    safe_mb: usize,
    plan: AllocationPlan,
)
    requires
        safe_mb == budget_mb(available_mb, limit_mb) / 2 * 2,
        plan.safe_mb == safe_mb,
        plan.num_pages == safe_mb / 2,
        plan.alloc_size == safe_mb / 2 * HUGE_PAGE_SIZE,
    ensures
        limit_mb matches Some(limit) ==> plan.safe_mb <= limit,
        plan.safe_mb > 0 ==> plan.safe_mb + SAFETY_BUFFER_MB <= available_mb,
        plan.safe_mb + 2 > budget_mb(available_mb, limit_mb),
        plan.alloc_size == plan.safe_mb * MB,
        plan.alloc_size as int % (HUGE_PAGE_SIZE as int) == 0,
{
    let pages = safe_mb as int / 2;
    assert(pages * HUGE_PAGE_SIZE == (pages * 2) * MB) by (nonlinear_arith)
        requires
            HUGE_PAGE_SIZE == 2 * MB,
    ;
    vstd::arithmetic::div_mod::lemma_mod_multiples_basic(pages, HUGE_PAGE_SIZE as int);
}

/// `vaddrs` are the addresses of `num_pages` regions at `base`.
pub open spec fn are_vaddrs(vaddrs: Seq<usize>, base: usize, num_pages: usize) -> bool {
    &&& vaddrs.len() == num_pages
    &&& forall|i: int| 0 <= i < num_pages ==> #[trigger] vaddrs[i] == base + i * HUGE_PAGE_SIZE
}

/// There is an address for every page: the first is the allocation's, and each
/// page begins two mebibytes behind the one before it.
pub proof fn vaddrs_exact(vaddrs: Seq<usize>, base: usize, num_pages: usize)
    requires
        are_vaddrs(vaddrs, base, num_pages),
    ensures
        vaddrs.len() == num_pages,
        num_pages > 0 ==> vaddrs[0] == base,
        forall|i: int, j: int|
            0 <= i < num_pages && 0 <= j < num_pages ==> #[trigger] vaddrs[i] - #[trigger] vaddrs[j]
                == 2097152 * (i - j),
{
}

/// The virtual addresses of the regions of an allocation at `base`.
pub fn region_vaddrs(base: usize, num_pages: usize) -> (vaddrs: Vec<usize>)
    requires
        num_pages > 0 ==> base + (num_pages - 1) * HUGE_PAGE_SIZE <= usize::MAX,
    ensures
        are_vaddrs(vaddrs@, base, num_pages),
        vaddrs@.len() == num_pages,
        forall|i: int| 0 <= i < num_pages ==> #[trigger] vaddrs@[i] == base + i * HUGE_PAGE_SIZE,
{
    let mut vaddrs: Vec<usize> = Vec::new();
    let mut i: usize = 0;
    while i < num_pages
        invariant
            num_pages > 0 ==> base + (num_pages - 1) * HUGE_PAGE_SIZE <= usize::MAX,
            i <= num_pages,
            vaddrs@.len() == i,
            forall|k: int| 0 <= k < i ==> #[trigger] vaddrs@[k] == base + k * HUGE_PAGE_SIZE,
        decreases num_pages - i,
    {
        proof {
            assert(0 <= i * HUGE_PAGE_SIZE <= (num_pages - 1) * HUGE_PAGE_SIZE) by (nonlinear_arith)
                requires
                    0 <= i <= num_pages - 1,
            ;
        }
        vaddrs.push(base + i * HUGE_PAGE_SIZE);
        i = i + 1;
    }
    vaddrs
}

/// `range` are the lowest and the highest of `paddrs`.
pub open spec fn is_range(paddrs: Seq<usize>, range: (usize, usize)) -> bool {
    &&& paddrs.contains(range.0)
    &&& paddrs.contains(range.1)
    &&& forall|i: int| 0 <= i < paddrs.len() ==> range.0 <= #[trigger] paddrs[i] <= range.1
}

/// The range's ends are addresses of regions, no region lies outside it, and a
/// further region widens it just so far as to take that region in.
pub proof fn range_exact(
    paddrs: Seq<usize>,
    paddr: usize,
    range: (usize, usize),
    wider: (usize, usize),
)
    requires
        is_range(paddrs, range),
        is_range(paddrs.push(paddr), wider),
    ensures
        paddrs.contains(range.0) && paddrs.contains(range.1),
        forall|i: int| 0 <= i < paddrs.len() ==> range.0 <= #[trigger] paddrs[i] <= range.1,
        wider.0 == if paddr < range.0 {
            paddr
        } else {
            range.0
        },
        wider.1 == if paddr > range.1 {
            paddr
        } else {
            range.1
        },
{
    let longer = paddrs.push(paddr);
    assert(longer[paddrs.len() as int] == paddr);
    let (low, high) = (paddrs.index_of(range.0), paddrs.index_of(range.1));
    assert(longer[low] == range.0 && longer[high] == range.1);
    let (bottom, top) = (longer.index_of(wider.0), longer.index_of(wider.1));
    if bottom < paddrs.len() {
        assert(paddrs[bottom] == wider.0);
    }
    if top < paddrs.len() {
        assert(paddrs[top] == wider.1);
    }
}

/// The lowest and the highest of the physical addresses.
pub fn physical_range(paddrs: &[usize]) -> (range: (usize, usize))
    requires
        paddrs@.len() > 0,
    ensures
        is_range(paddrs@, range),
        paddrs@.contains(range.0),
        paddrs@.contains(range.1),
        forall|i: int| 0 <= i < paddrs@.len() ==> range.0 <= #[trigger] paddrs@[i] <= range.1,
{
    let mut low: usize = paddrs[0];
    let mut high: usize = paddrs[0];
    let mut i: usize = 1;
    while i < paddrs.len()
        invariant
            1 <= i <= paddrs@.len(),
            paddrs@.contains(low),
            paddrs@.contains(high),
            forall|k: int| 0 <= k < i ==> low <= #[trigger] paddrs@[k] <= high,
        decreases paddrs@.len() - i,
    {
        let paddr: usize = paddrs[i];
        assert(paddrs@[i as int] == paddr);
        if paddr < low {
            low = paddr;
        }
        if paddr > high {
            high = paddr;
        }
        i = i + 1;
    }
    (low, high)
}

/// `percent` is what is reported before region `done` of `total`.
pub open spec fn is_progress(percent: Option<usize>, done: usize, total: usize) -> bool {
    &&& percent is Some <==> done % PROGRESS_INTERVAL == 0
    &&& percent matches Some(percent) ==> percent == done * 100 / total as int
}

/// A report is due before the first region and before every 64th behind it. It
/// tells how many whole hundredths of the regions are done.
pub proof fn progress_exact(percent: Option<usize>, done: usize, total: usize)
    requires
        done < total,
        is_progress(percent, done, total),
    ensures
        percent is Some <==> done as int % 64 == 0,
        percent matches Some(percent) ==> percent * total <= done * 100 < (percent + 1) * total,
{
    vstd::arithmetic::div_mod::lemma_fundamental_div_mod(done * 100, total as int);
    vstd::arithmetic::div_mod::lemma_mod_bound(done * 100, total as int);
    if let Some(percent) = percent {
        assert(percent * total == total * percent && (percent + 1) * total == total * percent
            + total) by (nonlinear_arith);
    }
}

/// The percentage to report before region `done` of `total` is benchmarked,
/// where a report is due.
pub fn progress(done: usize, total: usize) -> (percent: Option<usize>)
    requires
        done < total,
        done * 100 <= usize::MAX,
    ensures
        is_progress(percent, done, total),
        percent is Some <==> done % PROGRESS_INTERVAL == 0,
        percent matches Some(percent) ==> percent == done * 100 / total as int && percent < 100,
{
    if done % PROGRESS_INTERVAL == 0 {
        proof {
            assert(done * 100 / (total as int) < 100) by (nonlinear_arith)
                requires
                    0 <= done < total,
            ;
        }
        Some(done * 100 / total)
    } else {
        None
    }
}

} // verus!
