//! Physically contiguous runs of huge pages.

use vstd::prelude::*;

use crate::config::{HUGE_PAGE_SIZE, MB};

verus! {

/// A run of regions that are adjacent in physical memory.
#[derive(Debug, Clone, Copy)]
pub struct ContiguousBlock {
    /// Position of the block's first region.
    pub first: usize,
    /// Number of regions in the block.
    pub count: usize,
    pub start_paddr: usize,
    /// First address behind the block.
    pub end_paddr: usize,
    pub size_mb: usize,
}

/// Region `i` begins where region `i - 1` ends.
pub open spec fn adjoins(paddrs: Seq<usize>, i: int) -> bool {
    paddrs[i] == paddrs[i - 1] + HUGE_PAGE_SIZE
}

/// `block` describes a run of adjacent regions of `paddrs`.
pub open spec fn describes(paddrs: Seq<usize>, block: ContiguousBlock) -> bool {
    &&& block.count > 0
    &&& block.first + block.count <= paddrs.len()
    &&& forall|i: int|
        block.first < i < block.first + block.count ==> #[trigger] adjoins(paddrs, i)
    &&& block.start_paddr == paddrs[block.first as int]
    &&& block.end_paddr == paddrs[block.first + block.count - 1] + HUGE_PAGE_SIZE
    &&& block.size_mb == block.count * 2
}

/// The region behind the last one of `blocks`.
pub open spec fn covered(blocks: Seq<ContiguousBlock>) -> int {
    if blocks.len() == 0 {
        0
    } else {
        blocks.last().first + blocks.last().count
    }
}

/// Block `k` begins behind block `k - 1` and does not continue its run.
pub open spec fn breaks_before(
    paddrs: Seq<usize>,
    blocks: Seq<ContiguousBlock>,
    k: int,
) -> bool {
    &&& blocks[k].first == blocks[k - 1].first + blocks[k - 1].count
    &&& !adjoins(paddrs, blocks[k].first as int)
}

/// `blocks` are consecutive runs that begin with the first region, and none
/// could be continued by the next.
pub open spec fn consecutive(paddrs: Seq<usize>, blocks: Seq<ContiguousBlock>) -> bool {
    &&& forall|k: int| 0 <= k < blocks.len() ==> describes(paddrs, #[trigger] blocks[k])
    &&& blocks.len() > 0 ==> blocks[0].first == 0
    &&& forall|k: int| 0 < k < blocks.len() ==> #[trigger] breaks_before(paddrs, blocks, k)
}

/// `blocks` are the maximal runs of adjacent regions, in order.
pub open spec fn maximal_blocks(paddrs: Seq<usize>, blocks: Seq<ContiguousBlock>) -> bool {
    consecutive(paddrs, blocks) && covered(blocks) == paddrs.len()
}

/// A run that begins behind the last block and does not continue it is the
/// next block.
proof fn lemma_push_block(
    paddrs: Seq<usize>,
    blocks: Seq<ContiguousBlock>,
    block: ContiguousBlock,
)
    requires
        consecutive(paddrs, blocks),
        describes(paddrs, block),
        block.first == covered(blocks),
        blocks.len() > 0 ==> !adjoins(paddrs, block.first as int),
    ensures
        consecutive(paddrs, blocks.push(block)),
        covered(blocks.push(block)) == block.first + block.count,
{
    let longer = blocks.push(block);
    assert forall|k: int| 0 < k < longer.len() implies #[trigger] breaks_before(
        paddrs,
        longer,
        k,
    ) by {
        if k < blocks.len() {
            assert(breaks_before(paddrs, blocks, k));
        }
    }
}

/// The block of the regions from `first` up to, not including, `end`.
fn make_block(paddrs: &[usize], first: usize, end: usize) -> (block: ContiguousBlock)
    requires
        first < end <= paddrs@.len(),
        paddrs@.len() * 2 <= usize::MAX,
        paddrs@[end - 1] + HUGE_PAGE_SIZE <= usize::MAX,
        forall|i: int| first < i < end ==> #[trigger] adjoins(paddrs@, i),
    ensures
        describes(paddrs@, block),
        block.first == first,
        block.count == end - first,
{
    ContiguousBlock {
        first,
        count: end - first,
        start_paddr: paddrs[first],
        end_paddr: paddrs[end - 1] + HUGE_PAGE_SIZE,
        size_mb: (end - first) * 2,
    }
}

/// Splits regions, given by their physical addresses, into maximal runs of
/// adjacent ones. Adjacency is looked for between neighbours in `paddrs`, so
/// addresses in ascending order give the contiguous blocks of memory.
pub fn find_contiguous_blocks(paddrs: &[usize]) -> (blocks: Vec<ContiguousBlock>)
    requires
        paddrs@.len() * 2 <= usize::MAX,
        forall|i: int|
            0 <= i < paddrs@.len() ==> #[trigger] paddrs@[i] + HUGE_PAGE_SIZE <= usize::MAX,
    ensures
        maximal_blocks(paddrs@, blocks@),
{
    let mut blocks: Vec<ContiguousBlock> = Vec::new();
    if paddrs.len() == 0 {
        return blocks;
    }
    let mut run_start: usize = 0;
    let mut i: usize = 1;
    while i < paddrs.len()
        invariant
            0 <= run_start < i <= paddrs@.len(),
            paddrs@.len() * 2 <= usize::MAX,
            forall|l: int|
                0 <= l < paddrs@.len() ==> #[trigger] paddrs@[l] + HUGE_PAGE_SIZE <= usize::MAX,
            consecutive(paddrs@, blocks@),
            covered(blocks@) == run_start,
            blocks@.len() > 0 ==> !adjoins(paddrs@, run_start as int),
            forall|l: int| run_start < l < i ==> #[trigger] adjoins(paddrs@, l),
        decreases paddrs@.len() - i,
    {
        if paddrs[i] != paddrs[i - 1] + HUGE_PAGE_SIZE {
            let block = make_block(paddrs, run_start, i);
            proof {
                lemma_push_block(paddrs@, blocks@, block);
            }
            blocks.push(block);
            run_start = i;
        }
        i = i + 1;
    }
    let block = make_block(paddrs, run_start, i);
    proof {
        lemma_push_block(paddrs@, blocks@, block);
    }
    blocks.push(block);
    blocks
}

/// The maximal runs of a list of regions are determined by it.
pub proof fn blocks_unique(
    paddrs: Seq<usize>,
    one: Seq<ContiguousBlock>,
    other: Seq<ContiguousBlock>,
)
    requires
        maximal_blocks(paddrs, one),
        maximal_blocks(paddrs, other),
    ensures
        one == other,
{
    lemma_common_prefix(paddrs, one, other, one.len());
    lemma_common_prefix(paddrs, other, one, other.len());
    assert(one =~= other);
}

/// Two splittings agree block by block.
proof fn lemma_common_prefix(
    paddrs: Seq<usize>,
    one: Seq<ContiguousBlock>,
    other: Seq<ContiguousBlock>,
    k: nat,
)
    requires
        maximal_blocks(paddrs, one),
        maximal_blocks(paddrs, other),
        k <= one.len(),
    ensures
        k <= other.len(),
        forall|l: int| 0 <= l < k ==> one[l] == other[l],
    decreases k,
{
    if k > 0 {
        let l = k - 1;
        lemma_common_prefix(paddrs, one, other, l as nat);
        let a = one[l];
        assert(describes(paddrs, a));
        if l == other.len() {
            if l > 0 {
                assert(one[l - 1] == other[l - 1]);
                assert(breaks_before(paddrs, one, l));
            }
            assert(false);
        }
        let b = other[l];
        assert(describes(paddrs, b));
        assert(a.first == b.first) by {
            if l > 0 {
                assert(one[l - 1] == other[l - 1]);
                assert(breaks_before(paddrs, one, l));
                assert(breaks_before(paddrs, other, l));
            }
        }
        if a.count < b.count {
            if l + 1 < one.len() {
                assert(breaks_before(paddrs, one, l + 1));
                assert(adjoins(paddrs, one[l + 1].first as int));
            }
            assert(false);
        }
        if b.count < a.count {
            if l + 1 < other.len() {
                assert(breaks_before(paddrs, other, l + 1));
                assert(adjoins(paddrs, other[l + 1].first as int));
            }
            assert(false);
        }
        assert(a == b);
    }
}

/// A block spans exactly its size: its regions fill the addresses from its
/// start to its end without a gap.
pub proof fn block_spans_size(paddrs: Seq<usize>, block: ContiguousBlock)
    requires
        describes(paddrs, block),
    ensures
        block.end_paddr - block.start_paddr == block.size_mb * MB,
        forall|i: int|
            0 <= i < block.count ==> #[trigger] paddrs[block.first + i] == block.start_paddr + i
                * HUGE_PAGE_SIZE,
{
    assert forall|i: int| 0 <= i < block.count implies #[trigger] paddrs[block.first + i]
        == block.start_paddr + i * HUGE_PAGE_SIZE by {
        lemma_run_address(paddrs, block, i);
    }
    assert(paddrs[block.first + (block.count - 1)] == block.start_paddr + (block.count - 1)
        * HUGE_PAGE_SIZE);
    assert((block.count - 1) * HUGE_PAGE_SIZE + HUGE_PAGE_SIZE == (block.count * 2) * MB)
        by (nonlinear_arith)
        requires
            HUGE_PAGE_SIZE == 2 * MB,
    ;
}

/// The address of the `i`-th region of a block.
proof fn lemma_run_address(paddrs: Seq<usize>, block: ContiguousBlock, i: int)
    requires
        describes(paddrs, block),
        0 <= i < block.count,
    ensures
        paddrs[block.first + i] == block.start_paddr + i * HUGE_PAGE_SIZE,
    decreases i,
{
    if i > 0 {
        lemma_run_address(paddrs, block, i - 1);
        assert(adjoins(paddrs, block.first + i));
        assert(paddrs[block.first + i - 1] == paddrs[block.first + (i - 1)]);
        assert(i * HUGE_PAGE_SIZE == (i - 1) * HUGE_PAGE_SIZE + HUGE_PAGE_SIZE) by (nonlinear_arith);
    } else {
        assert(i * HUGE_PAGE_SIZE == 0) by (nonlinear_arith)
            requires
                i == 0,
        ;
    }
}

/// The sum of the sizes of `blocks`.
pub open spec fn total_mb(blocks: Seq<ContiguousBlock>) -> int
    decreases blocks.len(),
{
    if blocks.len() == 0 {
        0
    } else {
        total_mb(blocks.drop_last()) + blocks.last().size_mb
    }
}

/// The blocks together are as large as the regions: none is lost or counted
/// twice.
pub proof fn blocks_cover_regions(paddrs: Seq<usize>, blocks: Seq<ContiguousBlock>)
    requires
        consecutive(paddrs, blocks),
    ensures
        total_mb(blocks) == covered(blocks) * 2,
        maximal_blocks(paddrs, blocks) ==> total_mb(blocks) == paddrs.len() * 2,
    decreases blocks.len(),
{
    if blocks.len() > 0 {
        let shorter = blocks.drop_last();
        assert forall|k: int| 0 < k < shorter.len() implies #[trigger] breaks_before(
            paddrs,
            shorter,
            k,
        ) by {
            assert(breaks_before(paddrs, blocks, k));
        }
        blocks_cover_regions(paddrs, shorter);
        assert(describes(paddrs, blocks[blocks.len() - 1]));
        if blocks.len() > 1 {
            assert(shorter.last() == blocks[blocks.len() - 2]);
            assert(breaks_before(paddrs, blocks, blocks.len() - 1));
        }
    }
}

/// Region `i` begins where region `i - 1` ends, or above.
pub open spec fn lies_above(paddrs: Seq<usize>, i: int) -> bool {
    paddrs[i - 1] + HUGE_PAGE_SIZE <= paddrs[i]
}

/// Where the regions lie in ascending order without overlap, so do the
/// blocks, and between any two of them there is a gap.
pub proof fn blocks_apart(paddrs: Seq<usize>, blocks: Seq<ContiguousBlock>, a: int, b: int)
    requires
        consecutive(paddrs, blocks),
        forall|i: int| 0 < i < paddrs.len() ==> #[trigger] lies_above(paddrs, i),
        0 <= a < b < blocks.len(),
    ensures
        blocks[a].end_paddr < blocks[b].start_paddr,
    decreases b - a,
{
    let block = blocks[b];
    let previous = blocks[b - 1];
    assert(describes(paddrs, block));
    assert(describes(paddrs, previous));
    assert(breaks_before(paddrs, blocks, b));
    assert(lies_above(paddrs, block.first as int));
    if a < b - 1 {
        blocks_apart(paddrs, blocks, a, b - 1);
        block_spans_size(paddrs, previous);
    }
}

/// The addresses in the order `order`.
pub open spec fn reordered(paddrs: Seq<usize>, order: Seq<usize>) -> Seq<usize> {
    order.map_values(|p: usize| paddrs[p as int])
}

/// Distinct huge pages, ordered by address, lie in ascending order without
/// overlap.
pub proof fn ordered_pages_ascend(paddrs: Seq<usize>, order: Seq<usize>, i: int)
    requires
        crate::order::is_stable_order(crate::order::address_keys(paddrs), order),
        paddrs.no_duplicates(),
        forall|k: int|
            0 <= k < paddrs.len() ==> #[trigger] paddrs[k] as int % (HUGE_PAGE_SIZE as int) == 0,
        0 < i < paddrs.len(),
    ensures
        lies_above(reordered(paddrs, order), i),
{
    let keys = crate::order::address_keys(paddrs);
    let a = order[i - 1] as int;
    let b = order[i] as int;
    assert(crate::order::precedes(keys, order[i - 1] as int, order[i] as int));
    assert(0 <= a < paddrs.len() && 0 <= b < paddrs.len());
    assert(keys[a] == paddrs[a] && keys[b] == paddrs[b]);
    assert(paddrs[a] < paddrs[b]);
    assert(paddrs[a] as int % (HUGE_PAGE_SIZE as int) == 0);
    assert(paddrs[b] as int % (HUGE_PAGE_SIZE as int) == 0);
    assert(paddrs[a] as int % 0x20_0000 == 0 && paddrs[b] as int % 0x20_0000 == 0);
    assert(paddrs[a] + 0x20_0000 <= paddrs[b]);
}

/// The blocks follow one another from the first region to the last. Neighbours
/// share a block exactly if the second begins two mebibytes behind the first.
/// A block names the address of its first region and the end of its last, and
/// counts two mebibytes for each.
pub proof fn blocks_exact(paddrs: Seq<usize>, blocks: Seq<ContiguousBlock>)
    requires
        maximal_blocks(paddrs, blocks),
    ensures
        paddrs.len() == 0 <==> blocks.len() == 0,
        blocks.len() > 0 ==> blocks[0].first == 0 && blocks.last().first + blocks.last().count
            == paddrs.len(),
        forall|k: int| #![trigger blocks[k]]
            0 <= k < blocks.len() ==> {
                &&& blocks[k].count > 0 && blocks[k].first + blocks[k].count <= paddrs.len()
                &&& blocks[k].start_paddr == paddrs[blocks[k].first as int]
                &&& blocks[k].end_paddr == paddrs[blocks[k].first + blocks[k].count - 1] + 2097152
                &&& blocks[k].size_mb == 2 * blocks[k].count
            },
        forall|j: int, k: int|
            0 <= j && k == j + 1 && k < blocks.len() ==> (#[trigger] blocks[k]).first == (
            #[trigger] blocks[j]).first + blocks[j].count,
        forall|k: int, i: int| #![trigger blocks[k], paddrs[i]]
            0 <= k < blocks.len() && blocks[k].first <= i < blocks[k].first + blocks[k].count && i
                > 0 ==> (paddrs[i] == paddrs[i - 1] + 2097152 <==> blocks[k].first < i),
{
    if blocks.len() > 0 {
        assert(describes(paddrs, blocks[blocks.len() - 1]));
    }
    assert forall|k: int| #![trigger blocks[k]] 0 <= k < blocks.len() implies {
        &&& blocks[k].count > 0 && blocks[k].first + blocks[k].count <= paddrs.len()
        &&& blocks[k].start_paddr == paddrs[blocks[k].first as int]
        &&& blocks[k].end_paddr == paddrs[blocks[k].first + blocks[k].count - 1] + 2097152
        &&& blocks[k].size_mb == 2 * blocks[k].count
    } by {
        assert(describes(paddrs, blocks[k]));
    }
    assert forall|j: int, k: int| 0 <= j && k == j + 1 && k < blocks.len() implies (
    #[trigger] blocks[k]).first == (#[trigger] blocks[j]).first + blocks[j].count by {
        assert(breaks_before(paddrs, blocks, k));
    }
    assert forall|k: int, i: int| #![trigger blocks[k], paddrs[i]]
        0 <= k < blocks.len() && blocks[k].first <= i < blocks[k].first + blocks[k].count && i
            > 0 implies (paddrs[i] == paddrs[i - 1] + 2097152 <==> blocks[k].first < i) by {
        assert(describes(paddrs, blocks[k]));
        if blocks[k].first < i {
            assert(adjoins(paddrs, i));
        } else {
            assert(breaks_before(paddrs, blocks, k));
        }
    }
}

} // verus!
