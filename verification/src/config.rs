//! The sizes the mapper works with, and its benchmark modes.

use vstd::prelude::*;

verus! {

/// Bytes in a base page.
pub const PAGE_SIZE: usize = 4096;

/// Bytes in a huge page; every benchmarked region is one huge page.
pub const HUGE_PAGE_SIZE: usize = 0x20_0000;

/// Bytes in a cache line.
pub const CACHE_LINE_SIZE: usize = 64;

/// 64-bit words in a cache line.
pub const LINE_WORDS: usize = 8;

/// Bytes in a mebibyte.
pub const MB: usize = 0x10_0000;

/// Memory left to the operating system, in mebibytes.
pub const SAFETY_BUFFER_MB: usize = 4096;

/// The smallest allocation worth mapping, in mebibytes.
pub const MIN_ALLOC_MB: usize = 64;

/// How much work a benchmark run does in each region.
#[derive(Debug, Clone, Copy)]
pub struct BenchMode {
    pub name: &'static str,
    pub seq_passes: usize,
    pub random_accesses: usize,
    pub warmup_passes: usize,
}

/// The default mode: the fewest passes.
pub open spec fn fast_mode() -> BenchMode {
    BenchMode { name: "FAST", seq_passes: 2, random_accesses: 500, warmup_passes: 1 }
}

/// A compromise between duration and accuracy.
pub open spec fn balanced_mode() -> BenchMode {
    BenchMode { name: "BALANCED", seq_passes: 5, random_accesses: 2000, warmup_passes: 2 }
}

/// The most accurate and slowest mode.
pub open spec fn precise_mode() -> BenchMode {
    BenchMode { name: "PRECISE", seq_passes: 20, random_accesses: 10000, warmup_passes: 3 }
}

impl BenchMode {
    /// The default mode: the fewest passes.
    pub fn fast() -> (mode: Self)
        ensures
            mode == fast_mode(),
    {
        Self { name: "FAST", seq_passes: 2, random_accesses: 500, warmup_passes: 1 }
    }

    /// A compromise between duration and accuracy.
    pub fn balanced() -> (mode: Self)
        ensures
            mode == balanced_mode(),
    {
        Self { name: "BALANCED", seq_passes: 5, random_accesses: 2000, warmup_passes: 2 }
    }

    /// The most accurate and slowest mode.
    pub fn precise() -> (mode: Self)
        ensures
            mode == precise_mode(),
    {
        Self { name: "PRECISE", seq_passes: 20, random_accesses: 10000, warmup_passes: 3 }
    }
}

/// The sizes go into one another: a huge page is two mebibytes of whole pages
/// and lines, and a line is eight words of eight bytes.
pub proof fn sizes_fit()
    ensures
        PAGE_SIZE == 4096,
        CACHE_LINE_SIZE == 64 && CACHE_LINE_SIZE == 8 * LINE_WORDS,
        MB == 1024 * 1024 && HUGE_PAGE_SIZE == 2 * MB,
        HUGE_PAGE_SIZE % PAGE_SIZE == 0 && HUGE_PAGE_SIZE % CACHE_LINE_SIZE == 0,
        SAFETY_BUFFER_MB == 4096 && MIN_ALLOC_MB == 64,
{
}

/// The modes do ever more work: five and twenty passes against two, four and
/// twenty times the accesses, and one warm-up pass more each.
pub proof fn modes_grow()
    ensures
        fast_mode().seq_passes == 2,
        2 * balanced_mode().seq_passes == 5 * fast_mode().seq_passes,
        precise_mode().seq_passes == 10 * fast_mode().seq_passes,
        fast_mode().random_accesses == 500,
        balanced_mode().random_accesses == 4 * fast_mode().random_accesses,
        precise_mode().random_accesses == 20 * fast_mode().random_accesses,
        fast_mode().warmup_passes == 1,
        balanced_mode().warmup_passes == fast_mode().warmup_passes + 1,
        precise_mode().warmup_passes == balanced_mode().warmup_passes + 1,
        fast_mode().name@ == "FAST"@,
        balanced_mode().name@ == "BALANCED"@,
        precise_mode().name@ == "PRECISE"@,
{
}

/// No mode makes more random accesses than a huge page has lines, so none of
/// them needs to visit a line twice.
pub proof fn accesses_fit_a_page(mode: BenchMode)
    requires
        mode == fast_mode() || mode == balanced_mode() || mode == precise_mode(),
    ensures
        0 < mode.random_accesses <= HUGE_PAGE_SIZE / CACHE_LINE_SIZE,
{
}

} // verus!
