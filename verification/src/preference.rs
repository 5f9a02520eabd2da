//! Which of two blocks to prefer.

use std::cmp::Ordering;

use vstd::prelude::*;

use crate::order::order_key;

verus! {

/// What decides between blocks.
#[derive(Debug, Clone, Copy)]
pub struct BlockMerit {
    pub size_mb: usize,
    /// Bit pattern of the average score.
    pub avg_score: u64,
}

/// The order of two sizes, the larger first.
pub open spec fn larger_first(a: usize, b: usize) -> Ordering {
    if a > b {
        Ordering::Less
    } else if a == b {
        Ordering::Equal
    } else {
        Ordering::Greater
    }
}

/// The order of two scores in the total order, the higher first.
pub open spec fn higher_first(a: u64, b: u64) -> Ordering {
    if crate::order::total_order_key(a) > crate::order::total_order_key(b) {
        Ordering::Less
    } else if crate::order::total_order_key(a) == crate::order::total_order_key(b) {
        Ordering::Equal
    } else {
        Ordering::Greater
    }
}

/// The order of two blocks: scores whose difference is noise leave the choice
/// to the size, others decide themselves.
pub open spec fn preference(a: BlockMerit, b: BlockMerit, within_noise: bool) -> Ordering {
    if within_noise {
        larger_first(a.size_mb, b.size_mb)
    } else {
        higher_first(a.avg_score, b.avg_score)
    }
}

/// Compares two blocks, the preferred one first; `within_noise` says whether
/// their scores differ by less than measuring does.
pub fn prefer_block(a: &BlockMerit, b: &BlockMerit, within_noise: bool) -> (result: Ordering)
    ensures
        result == preference(*a, *b, within_noise),
{
    if within_noise {
        if a.size_mb > b.size_mb {
            Ordering::Less
        } else if a.size_mb == b.size_mb {
            Ordering::Equal
        } else {
            Ordering::Greater
        }
    } else {
        let left: u64 = order_key(a.avg_score);
        let right: u64 = order_key(b.avg_score);
        if left > right {
            Ordering::Less
        } else if left == right {
            Ordering::Equal
        } else {
            Ordering::Greater
        }
    }
}

/// The opposite order.
pub open spec fn opposite(order: Ordering) -> Ordering {
    match order {
        Ordering::Less => Ordering::Greater,
        Ordering::Equal => Ordering::Equal,
        Ordering::Greater => Ordering::Less,
    }
}

/// It does not matter which block is named first.
pub proof fn preference_symmetric(a: BlockMerit, b: BlockMerit, within_noise: bool)
    ensures
        preference(b, a, within_noise) == opposite(preference(a, b, within_noise)),
{
}

/// Within noise the size alone decides: a block comes first exactly if it is
/// strictly larger, and equally large blocks are equal.
pub proof fn larger_wins_within_noise(a: BlockMerit, b: BlockMerit)
    ensures
        preference(a, b, true) == Ordering::Less <==> a.size_mb > b.size_mb,
        preference(a, b, true) == Ordering::Equal <==> a.size_mb == b.size_mb,
        preference(a, b, true) == Ordering::Greater <==> a.size_mb < b.size_mb,
{
}

/// Beyond noise the score alone decides: of two scores that are not negative
/// the larger pattern comes first, of two negative ones the smaller, and a
/// negative one comes behind the others; only equal patterns are equal.
pub proof fn higher_score_wins_beyond_noise(a: BlockMerit, b: BlockMerit)
    ensures
        preference(a, b, false) == Ordering::Equal <==> a.avg_score == b.avg_score,
        preference(a, b, false) == Ordering::Less <==> if a.avg_score < 0x8000_0000_0000_0000 {
            b.avg_score < a.avg_score || b.avg_score >= 0x8000_0000_0000_0000
        } else {
            b.avg_score > a.avg_score
        },
{
    crate::order::total_order_exact(a.avg_score, b.avg_score);
    crate::order::total_order_exact(b.avg_score, a.avg_score);
}

} // verus!
