//! Where the parts of a language model go in a block of memory.

use vstd::prelude::*;

use crate::config::{HUGE_PAGE_SIZE, MB};

verus! {

/// The places of a model's parts. The cache of keys and values, which is
/// critical for latency, comes first; the weights, critical for bandwidth,
/// follow; the embeddings, which are accessed sparsely, take the rest.
#[derive(Debug, Clone, Copy)]
pub struct ComponentLayout {
    pub kv_mb: usize,
    pub wt_mb: usize,
    pub emb_mb: usize,
    pub kv_start: usize,
    pub wt_start: usize,
    pub emb_start: usize,
    /// Offset of the weights within the block.
    pub wt_offset: usize,
    /// Offset of the embeddings within the block.
    pub emb_offset: usize,
}

/// `mb` rounded down to whole huge pages.
pub open spec fn whole_pages_mb(mb: usize) -> int {
    mb as int / 2 * 2
}

/// The parts that a layout gives a block of `mb` mebibytes.
pub open spec fn is_layout(layout: ComponentLayout, start_paddr: usize, mb: usize) -> bool {
    &&& layout.emb_mb == if layout.kv_mb + layout.wt_mb < mb {
        mb - (layout.kv_mb + layout.wt_mb)
    } else {
        0
    }
    &&& layout.kv_start == start_paddr
    &&& layout.wt_start == start_paddr + layout.kv_mb * MB
    &&& layout.emb_start == start_paddr + (layout.kv_mb + layout.wt_mb) * MB
}

/// `layout` is that of a block of `mb` mebibytes at `start_paddr` in which the
/// cache and the weights are entitled to `kv_share` and `wt_share` mebibytes.
pub open spec fn lays_out(
    layout: ComponentLayout,
    start_paddr: usize,
    mb: usize,
    kv_share: usize,
    wt_share: usize,
) -> bool {
    &&& layout.kv_mb == whole_pages_mb(kv_share)
    &&& layout.wt_mb == whole_pages_mb(wt_share)
    &&& is_layout(layout, start_paddr, mb)
    &&& layout.wt_offset == layout.kv_mb * MB
    &&& layout.emb_offset == (layout.kv_mb + layout.wt_mb) * MB
}

/// Lays the parts out in a block of `mb` mebibytes at `start_paddr`, where
/// `kv_share` and `wt_share` are the mebibytes that the cache and the weights
/// are entitled to.
pub fn component_layout(
    start_paddr: usize,
    mb: usize,
    kv_share: usize,
    wt_share: usize,
) -> (layout: ComponentLayout)
    requires
        start_paddr + (whole_pages_mb(kv_share) + whole_pages_mb(wt_share)) * MB <= usize::MAX,
    ensures
        lays_out(layout, start_paddr, mb, kv_share, wt_share),
        layout.kv_mb == whole_pages_mb(kv_share),
        layout.wt_mb == whole_pages_mb(wt_share),
        is_layout(layout, start_paddr, mb),
        layout.wt_offset == layout.kv_mb * MB,
        layout.emb_offset == (layout.kv_mb + layout.wt_mb) * MB,
{
    let kv_mb: usize = (kv_share / 2) * 2;
    let wt_mb: usize = (wt_share / 2) * 2;
    proof {
        assert(kv_mb * MB <= (kv_mb + wt_mb) * MB && kv_mb + wt_mb <= (kv_mb + wt_mb) * MB)
            by (nonlinear_arith)
            requires
                0 <= kv_mb,
                0 <= wt_mb,
                MB >= 1,
        ;
    }
    let wt_offset: usize = kv_mb * MB;
    let emb_offset: usize = (kv_mb + wt_mb) * MB;
    ComponentLayout {
        kv_mb,
        wt_mb,
        emb_mb: mb.saturating_sub(kv_mb + wt_mb),
        kv_start: start_paddr,
        wt_start: start_paddr + wt_offset,
        emb_start: start_paddr + emb_offset,
        wt_offset,
        emb_offset,
    }
}

/// Where the shares do not exceed the block, its parts fill it without gap or
/// overlap, in their order, from its start to its end.
pub proof fn layout_fills_block(layout: ComponentLayout, start_paddr: usize, mb: usize)
    requires
        is_layout(layout, start_paddr, mb),
        layout.kv_mb + layout.wt_mb <= mb,
    ensures
        layout.kv_mb + layout.wt_mb + layout.emb_mb == mb,
        layout.kv_start == start_paddr,
        layout.wt_start == layout.kv_start + layout.kv_mb * MB,
        layout.emb_start == layout.wt_start + layout.wt_mb * MB,
        layout.emb_start + layout.emb_mb * MB == start_paddr + mb * MB,
{
    let (kv, wt, emb) = (layout.kv_mb as int, layout.wt_mb as int, layout.emb_mb as int);
    assert((kv + wt) * MB == kv * MB + wt * MB) by (nonlinear_arith);
    assert((kv + wt + emb) * MB == (kv + wt) * MB + emb * MB) by (nonlinear_arith);
}

/// The weights and the embeddings begin at whole huge pages of the block.
pub proof fn layout_keeps_pages(kv_share: usize, wt_share: usize)
    ensures
        (whole_pages_mb(kv_share) * MB) % (HUGE_PAGE_SIZE as int) == 0,
        ((whole_pages_mb(kv_share) + whole_pages_mb(wt_share)) * MB) % (HUGE_PAGE_SIZE as int) == 0,
{
    let kv = kv_share as int / 2;
    let both = kv_share as int / 2 + wt_share as int / 2;
    assert((kv * 2) * MB == kv * HUGE_PAGE_SIZE && (both * 2) * MB == both * HUGE_PAGE_SIZE)
        by (nonlinear_arith)
        requires
            HUGE_PAGE_SIZE == 2 * MB,
    ;
    assert(whole_pages_mb(kv_share) + whole_pages_mb(wt_share) == both * 2);
    vstd::arithmetic::div_mod::lemma_mod_multiples_basic(kv, HUGE_PAGE_SIZE as int);
    vstd::arithmetic::div_mod::lemma_mod_multiples_basic(both, HUGE_PAGE_SIZE as int);
}

/// Rounding to whole huge pages of two mebibytes loses less than a page.
pub proof fn rounding_loses_less_than_a_page(mb: usize)
    ensures
        whole_pages_mb(mb) % 2 == 0,
        whole_pages_mb(mb) <= mb < whole_pages_mb(mb) + 2,
{
}

/// The cache and the weights get the largest even numbers of mebibytes that
/// their shares allow, and the embeddings what they leave of the block, if
/// anything. The cache begins with the block, the weights behind the cache,
/// the embeddings behind the weights, and the offsets are counted from the
/// block's start.
pub proof fn layout_exact(
    layout: ComponentLayout,
    start_paddr: usize,
    mb: usize,
    kv_share: usize,
    wt_share: usize,
)
    requires
        lays_out(layout, start_paddr, mb, kv_share, wt_share),
    ensures
        layout.kv_mb % 2 == 0 && layout.kv_mb <= kv_share < layout.kv_mb + 2,
        layout.wt_mb % 2 == 0 && layout.wt_mb <= wt_share < layout.wt_mb + 2,
        layout.kv_mb + layout.wt_mb <= mb ==> layout.kv_mb + layout.wt_mb + layout.emb_mb == mb,
        layout.kv_mb + layout.wt_mb >= mb ==> layout.emb_mb == 0,
        layout.kv_start == start_paddr,
        layout.wt_start == layout.kv_start + layout.kv_mb * 1048576,
        layout.emb_start == layout.wt_start + layout.wt_mb * 1048576,
        layout.wt_start == start_paddr + layout.wt_offset,
        layout.emb_start == start_paddr + layout.emb_offset,
{
    let (kv, wt) = (layout.kv_mb as int, layout.wt_mb as int);
    assert((kv + wt) * MB == kv * MB + wt * MB) by (nonlinear_arith);
}

} // verus!
