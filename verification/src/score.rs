//! When a score can be computed, and what becomes of one that is no number.
//!
//! Scores are handed over as the bit patterns of IEEE 754 doubles.

use vstd::prelude::*;

use crate::order::{INFINITY_BITS, SIGN_BIT};

verus! {

/// The pattern stands for zero, of either sign.
pub open spec fn is_zero(bits: u64) -> bool {
    bits == 0 || bits == SIGN_BIT
}

/// The pattern stands for a finite number: below infinity but for the sign.
pub open spec fn is_finite(bits: u64) -> bool {
    bits % SIGN_BIT < INFINITY_BITS
}

/// None of what a score divides by is zero.
pub open spec fn can_score(max_read: u64, max_write: u64, latency: u64) -> bool {
    !(is_zero(max_read) || is_zero(max_write) || is_zero(latency))
}

/// `score`, or zero where it is not finite.
pub open spec fn settled(score: u64) -> u64 {
    if is_finite(score) {
        score
    } else {
        0
    }
}

/// Whether a region can be scored: the best bandwidths and its latency, which
/// its score divides by, are not zero.
pub fn scorable(max_read: u64, max_write: u64, latency: u64) -> (possible: bool)
    ensures
        possible == can_score(max_read, max_write, latency),
        possible == !(is_zero(max_read) || is_zero(max_write) || is_zero(latency)),
{
    !(zero(max_read) || zero(max_write) || zero(latency))
}

/// Whether the pattern stands for zero.
fn zero(bits: u64) -> (found: bool)
    ensures
        found == is_zero(bits),
{
    bits == 0 || bits == SIGN_BIT
}

/// The score to record: the one computed, or zero where it is infinite or no
/// number. What is recorded is always finite.
pub fn settled_score(score: u64) -> (settled: u64)
    ensures
        settled == if is_finite(score) {
            score
        } else {
            0
        },
        is_finite(settled),
        settled == self::settled(score),
{
    if score % SIGN_BIT < INFINITY_BITS {
        score
    } else {
        0
    }
}

/// A region is scored exactly if the best bandwidths and its latency all have
/// a bit set besides their sign.
pub proof fn scored_unless_zero(max_read: u64, max_write: u64, latency: u64)
    ensures
        can_score(max_read, max_write, latency) <==> max_read as int % 0x8000_0000_0000_0000 != 0
            && max_write as int % 0x8000_0000_0000_0000 != 0 && latency as int
            % 0x8000_0000_0000_0000 != 0,
{
}

/// A score is kept exactly if its exponent is not the one that infinities and
/// what is no number have; otherwise zero is recorded.
pub proof fn finite_scores_kept(score: u64)
    ensures
        score as int / 0x10_0000_0000_0000 % 0x800 != 0x7ff ==> settled(score) == score,
        score as int / 0x10_0000_0000_0000 % 0x800 == 0x7ff ==> settled(score) == 0,
{
}

} // verus!
