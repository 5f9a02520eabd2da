//! Ranking measurements.
//!
//! A measurement is handed over as the bit pattern of an IEEE 754 double.
//! Patterns of positive numbers order as the numbers do, and a flip of the
//! negative ones extends that to the standard's total order, so ranking them
//! needs integers only.

use vstd::prelude::*;

verus! {

/// The pattern of the sign bit alone: negative zero.
pub const SIGN_BIT: u64 = 0x8000_0000_0000_0000;

/// The pattern of positive infinity; smaller patterns are finite.
pub const INFINITY_BITS: u64 = 0x7ff0_0000_0000_0000;

/// The pattern of the largest finite number.
pub const MAX_FINITE_BITS: u64 = 0x7fef_ffff_ffff_ffff;

/// The pattern stands for a finite number above zero.
pub open spec fn is_positive_finite(bits: u64) -> bool {
    0 < bits < INFINITY_BITS
}

/// The place of a pattern in the total order: negative patterns descend from
/// the sign bit's place, the others ascend from there.
pub open spec fn total_order_key(bits: u64) -> int {
    if bits < SIGN_BIT {
        bits + SIGN_BIT
    } else {
        u64::MAX - bits
    }
}

/// Computes the place of a pattern in the total order.
pub fn order_key(bits: u64) -> (key: u64)
    ensures
        key == total_order_key(bits),
{
    if bits < SIGN_BIT {
        bits + SIGN_BIT
    } else {
        u64::MAX - bits
    }
}

/// Whether the pattern stands for a finite number above zero.
pub fn positive_finite(bits: u64) -> (found: bool)
    ensures
        found == is_positive_finite(bits),
{
    0 < bits && bits < INFINITY_BITS
}

/// Position `a` comes before position `b`: by its key, or, between equal keys,
/// because it is smaller.
pub open spec fn precedes(keys: Seq<u64>, a: int, b: int) -> bool {
    keys[a] < keys[b] || (keys[a] == keys[b] && a < b)
}

/// `order` lists positions so that each precedes all that follow it.
pub open spec fn ascending(keys: Seq<u64>, order: Seq<usize>) -> bool {
    forall|i: int, j: int|
        0 <= i < j < order.len() ==> precedes(
            keys,
            #[trigger] order[i] as int,
            #[trigger] order[j] as int,
        )
}

/// All of `order` lies from `low` up to, not including, `high`.
pub open spec fn within(order: Seq<usize>, low: int, high: int) -> bool {
    forall|i: int| 0 <= i < order.len() ==> low <= #[trigger] order[i] < high
}

/// `order` lists every position of `keys` once, by ascending key, equal keys
/// in the order in which they stand.
pub open spec fn is_stable_order(keys: Seq<u64>, order: Seq<usize>) -> bool {
    order.len() == keys.len() && within(order, 0, keys.len() as int) && ascending(keys, order)
}

/// Every one of `order` precedes position `p`.
spec fn all_precede(keys: Seq<u64>, order: Seq<usize>, p: int) -> bool {
    forall|i: int| 0 <= i < order.len() ==> precedes(keys, #[trigger] order[i] as int, p)
}

/// Merges two sorted lists of positions, the first of positions below `mid`
/// and the second of positions from there on.
fn merge(
    keys: &[u64],
    left: &Vec<usize>,
    right: &Vec<usize>,
    Ghost(low): Ghost<int>,
    Ghost(mid): Ghost<int>,
    Ghost(high): Ghost<int>,
) -> (merged: Vec<usize>)
    requires
        0 <= low <= mid <= high <= keys@.len(),
        ascending(keys@, left@),
        ascending(keys@, right@),
        within(left@, low, mid),
        within(right@, mid, high),
    ensures
        ascending(keys@, merged@),
        merged@.len() == left@.len() + right@.len(),
        within(merged@, low, high),
{
    let mut merged: Vec<usize> = Vec::new();
    let mut l: usize = 0;
    let mut r: usize = 0;
    while l < left.len() || r < right.len()
        invariant
            0 <= low <= mid <= high <= keys@.len(),
            ascending(keys@, left@),
            ascending(keys@, right@),
            within(left@, low, mid),
            within(right@, mid, high),
            l <= left@.len(),
            r <= right@.len(),
            merged@.len() == l + r,
            ascending(keys@, merged@),
            within(merged@, low, high),
            forall|i: int|
                l <= i < left@.len() ==> all_precede(keys@, merged@, #[trigger] left@[i] as int),
            forall|i: int|
                r <= i < right@.len() ==> all_precede(keys@, merged@, #[trigger] right@[i] as int),
        decreases left@.len() - l + right@.len() - r,
    {
        if r == right.len() || (l < left.len() && keys[left[l]] <= keys[right[r]]) {
            merged.push(left[l]);
            l = l + 1;
        } else {
            merged.push(right[r]);
            r = r + 1;
        }
    }
    merged
}

/// Sorts the positions from `low` up to, not including, `high`.
fn sort_range(keys: &[u64], low: usize, high: usize) -> (order: Vec<usize>)
    requires
        low <= high <= keys@.len(),
    ensures
        order@.len() == high - low,
        within(order@, low as int, high as int),
        ascending(keys@, order@),
    decreases high - low,
{
    if high - low < 2 {
        let mut order: Vec<usize> = Vec::new();
        if low < high {
            order.push(low);
        }
        return order;
    }
    let mid: usize = low + (high - low) / 2;
    let left: Vec<usize> = sort_range(keys, low, mid);
    let right: Vec<usize> = sort_range(keys, mid, high);
    merge(keys, &left, &right, Ghost(low as int), Ghost(mid as int), Ghost(high as int))
}

/// The positions of `keys` by ascending key; equal keys keep their order.
pub fn stable_order(keys: &[u64]) -> (order: Vec<usize>)
    ensures
        is_stable_order(keys@, order@),
{
    sort_range(keys, 0, keys.len())
}

/// A stable order leaves no position out.
pub proof fn stable_order_complete(keys: Seq<u64>, order: Seq<usize>, p: int)
    requires
        is_stable_order(keys, order),
        0 <= p < keys.len(),
    ensures
        exists|i: int| 0 <= i < order.len() && #[trigger] order[i] == p,
{
    let n = keys.len();
    let listed = order.map_values(|q: usize| q as int);
    assert forall|i: int, j: int| 0 <= i < j < listed.len() implies listed[i] != listed[j] by {
        assert(precedes(keys, order[i] as int, order[j] as int));
    }
    assert(listed.no_duplicates());
    listed.unique_seq_to_set();
    vstd::set_lib::lemma_int_range(0, n as int);
    let all = vstd::set_lib::set_int_range(0, n as int);
    assert forall|v: int| listed.to_set().contains(v) implies all.contains(v) by {
        let i = choose|i: int| 0 <= i < listed.len() && listed[i] == v;
        assert(0 <= order[i] < n);
    }
    vstd::set_lib::lemma_subset_equality(listed.to_set(), all);
    assert(all.contains(p));
    assert(listed.to_set().contains(p));
    let i = choose|i: int| 0 <= i < listed.len() && listed[i] == p;
    assert(order[i] == p);
}

/// There is only one stable order of a list of keys.
pub proof fn stable_order_unique(keys: Seq<u64>, one: Seq<usize>, other: Seq<usize>)
    requires
        is_stable_order(keys, one),
        is_stable_order(keys, other),
    ensures
        one == other,
{
    lemma_same_prefix(keys, one, other, one.len() as int);
    assert(one =~= other);
}

/// Two stable orders agree position by position.
proof fn lemma_same_prefix(keys: Seq<u64>, one: Seq<usize>, other: Seq<usize>, len: int)
    requires
        is_stable_order(keys, one),
        is_stable_order(keys, other),
        0 <= len <= one.len(),
    ensures
        forall|i: int| 0 <= i < len ==> one[i] == other[i],
    decreases len,
{
    if len > 0 {
        let p = len - 1;
        lemma_same_prefix(keys, one, other, p);
        if one[p] != other[p] {
            stable_order_complete(keys, other, one[p] as int);
            stable_order_complete(keys, one, other[p] as int);
            let q = choose|q: int| 0 <= q < other.len() && #[trigger] other[q] == one[p];
            let r = choose|r: int| 0 <= r < one.len() && #[trigger] one[r] == other[p];
            if q < p {
                assert(precedes(keys, one[q] as int, one[p] as int));
            } else if r < p {
                assert(precedes(keys, other[r] as int, other[p] as int));
            } else {
                assert(precedes(keys, other[p] as int, other[q] as int));
                assert(precedes(keys, one[p] as int, one[r] as int));
            }
            assert(false);
        }
    }
}

/// The physical addresses as keys.
pub open spec fn address_keys(paddrs: Seq<usize>) -> Seq<u64> {
    paddrs.map_values(|paddr: usize| paddr as u64)
}

/// The order of regions by ascending physical address.
pub fn order_by_paddr(paddrs: &[usize]) -> (order: Vec<usize>)
    ensures
        is_stable_order(address_keys(paddrs@), order@),
{
    let mut keys: Vec<u64> = Vec::new();
    let mut i: usize = 0;
    while i < paddrs.len()
        invariant
            i <= paddrs@.len(),
            keys@ =~= address_keys(paddrs@).take(i as int),
        decreases paddrs@.len() - i,
    {
        keys.push(paddrs[i] as u64);
        i = i + 1;
    }
    assert(keys@ =~= address_keys(paddrs@));
    stable_order(keys.as_slice())
}

/// Score `a` ranks above score `b`: by its place in the total order, or,
/// between equal scores, because it stands first.
pub open spec fn outranks(scores: Seq<u64>, a: int, b: int) -> bool {
    ||| total_order_key(scores[a]) > total_order_key(scores[b])
    ||| total_order_key(scores[a]) == total_order_key(scores[b]) && a < b
}

/// `ranking` lists every position of `scores` once, the best first.
pub open spec fn is_ranking(scores: Seq<u64>, ranking: Seq<usize>) -> bool {
    &&& ranking.len() == scores.len()
    &&& within(ranking, 0, scores.len() as int)
    &&& forall|i: int, j: int|
        0 <= i < j < ranking.len() ==> outranks(
            scores,
            #[trigger] ranking[i] as int,
            #[trigger] ranking[j] as int,
        )
}

/// The order of regions by descending score; equal scores keep their order.
pub fn rank_by_score(scores: &[u64]) -> (ranking: Vec<usize>)
    ensures
        is_ranking(scores@, ranking@),
{
    let mut keys: Vec<u64> = Vec::new();
    let mut i: usize = 0;
    while i < scores.len()
        invariant
            i <= scores@.len(),
            keys@.len() == i,
            forall|k: int|
                0 <= k < i ==> #[trigger] keys@[k] == u64::MAX - total_order_key(scores@[k]),
        decreases scores@.len() - i,
    {
        keys.push(u64::MAX - order_key(scores[i]));
        i = i + 1;
    }
    let ranking: Vec<usize> = stable_order(keys.as_slice());
    assert forall|i: int, j: int| 0 <= i < j < ranking@.len() implies outranks(
        scores@,
        #[trigger] ranking@[i] as int,
        #[trigger] ranking@[j] as int,
    ) by {
        assert(precedes(keys@, ranking@[i] as int, ranking@[j] as int));
    }
    ranking
}

/// There is only one ranking of a list of scores.
pub proof fn ranking_unique(scores: Seq<u64>, one: Seq<usize>, other: Seq<usize>)
    requires
        is_ranking(scores, one),
        is_ranking(scores, other),
    ensures
        one == other,
{
    let keys = scores.map_values(|bits: u64| (u64::MAX - total_order_key(bits)) as u64);
    assert forall|i: int, j: int| 0 <= i < j < one.len() implies precedes(
        keys,
        #[trigger] one[i] as int,
        #[trigger] one[j] as int,
    ) by {
        assert(outranks(scores, one[i] as int, one[j] as int));
    }
    assert forall|i: int, j: int| 0 <= i < j < other.len() implies precedes(
        keys,
        #[trigger] other[i] as int,
        #[trigger] other[j] as int,
    ) by {
        assert(outranks(scores, other[i] as int, other[j] as int));
    }
    stable_order_unique(keys, one, other);
}

/// Patterns have different places in the total order.
pub proof fn total_order_key_injective(a: u64, b: u64)
    ensures
        total_order_key(a) == total_order_key(b) ==> a == b,
        0 <= total_order_key(a) <= u64::MAX,
{
}

/// The total order of patterns: those without the sign bit ascend with the
/// number they are, those with it descend and stand below all others. As many
/// places are there as patterns.
pub proof fn total_order_exact(a: u64, b: u64)
    ensures
        0 <= total_order_key(a) <= u64::MAX,
        a < b < 0x8000_0000_0000_0000 ==> total_order_key(a) < total_order_key(b),
        0x8000_0000_0000_0000 <= a < b ==> total_order_key(a) > total_order_key(b),
        a < 0x8000_0000_0000_0000 <= b ==> total_order_key(a) > total_order_key(b),
{
}

/// A pattern stands for a finite number above zero exactly if it has no sign,
/// is not zero, and its exponent is not the one of infinity.
pub proof fn positive_finite_exact(bits: u64)
    ensures
        is_positive_finite(bits) <==> bits != 0 && bits < 0x8000_0000_0000_0000 && bits as int
            / 0x10_0000_0000_0000 != 0x7ff,
{
}

/// In a stable order no key is larger than a later one, equal keys keep their
/// places, and no position is listed twice.
pub proof fn stable_order_exact(keys: Seq<u64>, order: Seq<usize>)
    requires
        is_stable_order(keys, order),
    ensures
        order.len() == keys.len(),
        forall|i: int| 0 <= i < order.len() ==> #[trigger] order[i] < keys.len(),
        forall|i: int, j: int|
            0 <= i < j < order.len() ==> {
                &&& keys[#[trigger] order[i] as int] <= keys[#[trigger] order[j] as int]
                &&& keys[order[i] as int] == keys[order[j] as int] ==> order[i] < order[j]
                &&& order[i] != order[j]
            },
{
    assert forall|i: int, j: int| 0 <= i < j < order.len() implies {
        &&& keys[#[trigger] order[i] as int] <= keys[#[trigger] order[j] as int]
        &&& keys[order[i] as int] == keys[order[j] as int] ==> order[i] < order[j]
        &&& order[i] != order[j]
    } by {
        assert(precedes(keys, order[i] as int, order[j] as int));
    }
}

/// Regions ordered by address: no address is above a later one, equal ones
/// keep their places, and every region is listed.
pub proof fn address_order_exact(paddrs: Seq<usize>, order: Seq<usize>)
    requires
        is_stable_order(address_keys(paddrs), order),
    ensures
        order.len() == paddrs.len(),
        forall|i: int| 0 <= i < order.len() ==> #[trigger] order[i] < paddrs.len(),
        forall|i: int, j: int|
            0 <= i < j < order.len() ==> {
                &&& paddrs[#[trigger] order[i] as int] <= paddrs[#[trigger] order[j] as int]
                &&& paddrs[order[i] as int] == paddrs[order[j] as int] ==> order[i] < order[j]
            },
        forall|p: int| 0 <= p < paddrs.len() ==> order.contains(#[trigger] (p as usize)),
{
    let keys = address_keys(paddrs);
    stable_order_exact(keys, order);
    assert forall|i: int, j: int| 0 <= i < j < order.len() implies {
        &&& paddrs[#[trigger] order[i] as int] <= paddrs[#[trigger] order[j] as int]
        &&& paddrs[order[i] as int] == paddrs[order[j] as int] ==> order[i] < order[j]
    } by {
        assert(keys[order[i] as int] == paddrs[order[i] as int]);
        assert(keys[order[j] as int] == paddrs[order[j] as int]);
    }
    assert forall|p: int| 0 <= p < paddrs.len() implies order.contains(#[trigger] (
    p as usize)) by {
        stable_order_complete(keys, order, p);
    }
}

/// Of two scores that are not negative the larger pattern ranks first, of two
/// negative ones the smaller, and a negative one ranks behind all others;
/// equal scores keep their places, and no region is listed twice.
pub proof fn ranking_exact(scores: Seq<u64>, ranking: Seq<usize>)
    requires
        is_ranking(scores, ranking),
    ensures
        ranking.len() == scores.len(),
        forall|i: int| 0 <= i < ranking.len() ==> #[trigger] ranking[i] < scores.len(),
        forall|i: int, j: int|
            0 <= i < j < ranking.len() ==> #[trigger] ranking[i] != #[trigger] ranking[j] && ({
                let (first, second) = (scores[ranking[i] as int], scores[ranking[j] as int]);
                &&& second < 0x8000_0000_0000_0000 ==> second <= first < 0x8000_0000_0000_0000
                &&& first >= 0x8000_0000_0000_0000 ==> first <= second
                &&& first == second ==> ranking[i] < ranking[j]
            }),
{
    assert forall|i: int, j: int| 0 <= i < j < ranking.len() implies #[trigger] ranking[i]
        != #[trigger] ranking[j] && ({
        let (first, second) = (scores[ranking[i] as int], scores[ranking[j] as int]);
        &&& second < 0x8000_0000_0000_0000 ==> second <= first < 0x8000_0000_0000_0000
        &&& first >= 0x8000_0000_0000_0000 ==> first <= second
        &&& first == second ==> ranking[i] < ranking[j]
    }) by {
        assert(outranks(scores, ranking[i] as int, ranking[j] as int));
    }
}

/// A ranking leaves no region out.
pub proof fn ranking_complete(scores: Seq<u64>, ranking: Seq<usize>, p: int)
    requires
        is_ranking(scores, ranking),
        0 <= p < scores.len(),
    ensures
        ranking.contains(p as usize),
{
    let keys = scores.map_values(|bits: u64| (u64::MAX - total_order_key(bits)) as u64);
    assert forall|i: int, j: int| 0 <= i < j < ranking.len() implies precedes(
        keys,
        #[trigger] ranking[i] as int,
        #[trigger] ranking[j] as int,
    ) by {
        assert(outranks(scores, ranking[i] as int, ranking[j] as int));
    }
    stable_order_complete(keys, ranking, p);
}

/// Whether the score at a position is a finite number above zero.
pub open spec fn is_measured(scores: Seq<u64>) -> spec_fn(int) -> bool {
    |i: int| is_positive_finite(scores[i])
}

/// The regions whose score is a finite number above zero, in order.
pub fn measured_regions(scores: &[u64]) -> (positions: Vec<usize>)
    ensures
        positions@ == crate::select::positions_where(is_measured(scores@), scores@.len() as int),
{
    let mut positions: Vec<usize> = Vec::new();
    let mut i: usize = 0;
    while i < scores.len()
        invariant
            i <= scores@.len(),
            positions@ == crate::select::positions_where(is_measured(scores@), i as int),
        decreases scores@.len() - i,
    {
        if positive_finite(scores[i]) {
            positions.push(i);
        }
        i = i + 1;
    }
    positions
}

/// A region counts as measured exactly if its score's pattern lies above zero
/// and below infinity; measured regions are listed in order.
pub proof fn measured_exact(scores: Seq<u64>)
    requires
        scores.len() <= usize::MAX,
    ensures
        ({
            let positions = crate::select::positions_where(
                is_measured(scores),
                scores.len() as int,
            );
            &&& forall|i: int|
                0 <= i < scores.len() ==> (#[trigger] positions.contains(i as usize) <==> 0
                    < scores[i] < 0x7ff0_0000_0000_0000)
            &&& forall|a: int, b: int|
                0 <= a < b < positions.len() ==> #[trigger] positions[a] < #[trigger] positions[b]
            &&& forall|a: int| 0 <= a < positions.len() ==> #[trigger] positions[a] < scores.len()
        }),
{
    crate::select::selection_exact(is_measured(scores), scores.len() as int);
    let positions = crate::select::positions_where(is_measured(scores), scores.len() as int);
    assert forall|i: int| 0 <= i < scores.len() implies (#[trigger] positions.contains(
        i as usize,
    ) <==> 0 < scores[i] < 0x7ff0_0000_0000_0000) by {
        assert(is_measured(scores)(i) == is_positive_finite(scores[i]));
    }
}

/// `best` is the largest of the finite patterns above zero, or zero.
pub open spec fn is_best_bandwidth(values: Seq<u64>, best: u64) -> bool {
    &&& forall|i: int|
        0 <= i < values.len() && is_positive_finite(#[trigger] values[i]) ==> values[i] <= best
    &&& best == 0 || (is_positive_finite(best) && values.contains(best))
}

/// `best` is the smallest of the finite patterns above zero, or the largest
/// finite pattern.
pub open spec fn is_best_latency(values: Seq<u64>, best: u64) -> bool {
    &&& forall|i: int|
        0 <= i < values.len() && is_positive_finite(#[trigger] values[i]) ==> best <= values[i]
    &&& best == MAX_FINITE_BITS || (is_positive_finite(best) && values.contains(best))
}

/// The best bandwidth is among the values and none of the finite ones is
/// above it; it is zero exactly if no value is finite and above zero.
pub proof fn best_bandwidth_exact(values: Seq<u64>, best: u64)
    requires
        is_best_bandwidth(values, best),
    ensures
        forall|i: int|
            0 <= i < values.len() && 0 < #[trigger] values[i] < 0x7ff0_0000_0000_0000 ==> values[i]
                <= best,
        best > 0 ==> values.contains(best) && best < 0x7ff0_0000_0000_0000,
{
    assert forall|i: int|
        0 <= i < values.len() && 0 < #[trigger] values[i] < 0x7ff0_0000_0000_0000 implies values[i]
        <= best by {
        assert(is_positive_finite(values[i]));
    }
}

/// The best latency is among the values and none of those above zero is below
/// it; where no value is finite and above zero it is the largest finite number.
pub proof fn best_latency_exact(values: Seq<u64>, best: u64)
    requires
        is_best_latency(values, best),
    ensures
        forall|i: int|
            0 <= i < values.len() && 0 < #[trigger] values[i] < 0x7ff0_0000_0000_0000 ==> best
                <= values[i],
        best != 0x7fef_ffff_ffff_ffff ==> values.contains(best) && 0 < best
            < 0x7fef_ffff_ffff_ffff,
{
    assert forall|i: int|
        0 <= i < values.len() && 0 < #[trigger] values[i] < 0x7ff0_0000_0000_0000 implies best
        <= values[i] by {
        assert(is_positive_finite(values[i]));
    }
}

/// The largest of the finite patterns above zero, or zero where there is none.
pub fn best_bandwidth(values: &[u64]) -> (best: u64)
    ensures
        is_best_bandwidth(values@, best),
        forall|i: int|
            0 <= i < values@.len() && is_positive_finite(#[trigger] values@[i]) ==> values@[i]
                <= best,
        best == 0 || (is_positive_finite(best) && values@.contains(best)),
{
    let mut best: u64 = 0;
    let mut i: usize = 0;
    while i < values.len()
        invariant
            i <= values@.len(),
            forall|k: int|
                0 <= k < i && is_positive_finite(#[trigger] values@[k]) ==> values@[k] <= best,
            best == 0 || (is_positive_finite(best) && values@.contains(best)),
        decreases values@.len() - i,
    {
        let value: u64 = values[i];
        if positive_finite(value) && value > best {
            best = value;
            assert(values@[i as int] == best);
        }
        i = i + 1;
    }
    best
}

/// The smallest of the finite patterns above zero, or the largest finite
/// pattern where there is none.
pub fn best_latency(values: &[u64]) -> (best: u64)
    ensures
        is_best_latency(values@, best),
        forall|i: int|
            0 <= i < values@.len() && is_positive_finite(#[trigger] values@[i]) ==> best
                <= values@[i],
        best == MAX_FINITE_BITS || (is_positive_finite(best) && values@.contains(best)),
{
    let mut best: u64 = MAX_FINITE_BITS;
    let mut i: usize = 0;
    while i < values.len()
        invariant
            i <= values@.len(),
            forall|k: int|
                0 <= k < i && is_positive_finite(#[trigger] values@[k]) ==> best <= values@[k],
            best == MAX_FINITE_BITS || (is_positive_finite(best) && values@.contains(best)),
        decreases values@.len() - i,
    {
        let value: u64 = values[i];
        if positive_finite(value) && value < best {
            best = value;
            assert(values@[i as int] == best);
        }
        i = i + 1;
    }
    best
}

/// The scores a tenth, a half and nine tenths of the way up in ascending order.
#[derive(Debug, Clone, Copy)]
pub struct Percentiles {
    pub p10: u64,
    pub p50: u64,
    pub p90: u64,
}

/// The places of `scores` in the total order.
pub open spec fn score_keys(scores: Seq<u64>) -> Seq<u64> {
    scores.map_values(|bits: u64| total_order_key(bits) as u64)
}

/// `value` stands at position `k` of `scores` in ascending order.
pub open spec fn is_nth(scores: Seq<u64>, k: int, value: u64) -> bool {
    exists|order: Seq<usize>|
        #[trigger] is_stable_order(score_keys(scores), order) && scores[order[k] as int] == value
}

/// `result` holds the scores a tenth, a half and nine tenths of the way up.
pub open spec fn are_percentiles(scores: Seq<u64>, result: Percentiles) -> bool {
    &&& is_nth(scores, scores.len() as int / 10, result.p10)
    &&& is_nth(scores, scores.len() as int / 2, result.p50)
    &&& is_nth(scores, (scores.len() * 9 / 10) as int, result.p90)
}

/// `sorted` lists every position of `scores` once, so that a larger pattern
/// never comes before a smaller one; patterns with the sign bit come first,
/// the largest of them in front.
pub open spec fn sorts_patterns(scores: Seq<u64>, sorted: Seq<usize>) -> bool {
    &&& sorted.len() == scores.len()
    &&& forall|i: int| 0 <= i < sorted.len() ==> #[trigger] sorted[i] < scores.len()
    &&& forall|i: int, j: int|
        0 <= i < j < sorted.len() ==> #[trigger] sorted[i] != #[trigger] sorted[j] && ({
            let (first, second) = (scores[sorted[i] as int], scores[sorted[j] as int]);
            &&& first < 0x8000_0000_0000_0000 ==> first <= second < 0x8000_0000_0000_0000
            &&& second >= 0x8000_0000_0000_0000 ==> first >= second
        })
}

/// The percentiles stand a tenth, a half and nine tenths of the way up in the
/// sorted list of the scores, rounded down.
pub proof fn percentiles_exact(scores: Seq<u64>, result: Percentiles) -> (sorted: Seq<usize>)
    requires
        scores.len() > 0,
        are_percentiles(scores, result),
    ensures
        sorts_patterns(scores, sorted),
        forall|k: int|
            10 * k <= scores.len() < 10 * k + 10 ==> result.p10 == scores[#[trigger] sorted[k] as int],
        forall|k: int|
            2 * k <= scores.len() < 2 * k + 2 ==> result.p50 == scores[#[trigger] sorted[k] as int],
        forall|k: int|
            10 * k <= 9 * scores.len() < 10 * k + 10 ==> result.p90
                == scores[#[trigger] sorted[k] as int],
{
    let keys = score_keys(scores);
    let n = scores.len() as int;
    let p10 = choose|order: Seq<usize>|
        #[trigger] is_stable_order(keys, order) && scores[order[n / 10] as int] == result.p10;
    let p50 = choose|order: Seq<usize>|
        #[trigger] is_stable_order(keys, order) && scores[order[n / 2] as int] == result.p50;
    let p90 = choose|order: Seq<usize>|
        #[trigger] is_stable_order(keys, order) && scores[order[n * 9 / 10] as int]
            == result.p90;
    stable_order_unique(keys, p10, p50);
    stable_order_unique(keys, p10, p90);
    assert forall|i: int, j: int| 0 <= i < j < p10.len() implies #[trigger] p10[i]
        != #[trigger] p10[j] && ({
        let (first, second) = (scores[p10[i] as int], scores[p10[j] as int]);
        &&& first < 0x8000_0000_0000_0000 ==> first <= second < 0x8000_0000_0000_0000
        &&& second >= 0x8000_0000_0000_0000 ==> first >= second
    }) by {
        stable_order_exact(keys, p10);
        let (first, second) = (scores[p10[i] as int], scores[p10[j] as int]);
        total_order_exact(first, second);
        total_order_exact(second, first);
        assert(keys[p10[i] as int] == total_order_key(first));
        assert(keys[p10[j] as int] == total_order_key(second));
    }
    p10
}

/// Sorts scores and picks the percentiles.
pub fn score_percentiles(scores: &[u64]) -> (result: Percentiles)
    requires
        0 < scores@.len(),
        scores@.len() * 9 <= usize::MAX,
    ensures
        are_percentiles(scores@, result),
        is_nth(scores@, scores@.len() as int / 10, result.p10),
        is_nth(scores@, scores@.len() as int / 2, result.p50),
        is_nth(scores@, (scores@.len() * 9 / 10) as int, result.p90),
{
    let mut keys: Vec<u64> = Vec::new();
    let mut i: usize = 0;
    while i < scores.len()
        invariant
            i <= scores@.len(),
            keys@ =~= score_keys(scores@).take(i as int),
        decreases scores@.len() - i,
    {
        keys.push(order_key(scores[i]));
        i = i + 1;
    }
    assert(keys@ =~= score_keys(scores@));
    let order: Vec<usize> = stable_order(keys.as_slice());
    let len: usize = order.len();
    Percentiles {
        p10: scores[order[len / 10]],
        p50: scores[order[len / 2]],
        p90: scores[order[len * 9 / 10]],
    }
}

/// A later position in ascending order holds no smaller score; in particular
/// the percentiles ascend, and each is determined by the scores.
pub proof fn nth_ascends(scores: Seq<u64>, j: int, k: int, a: u64, b: u64)
    requires
        0 <= j <= k < scores.len(),
        is_nth(scores, j, a),
        is_nth(scores, k, b),
    ensures
        total_order_key(a) <= total_order_key(b),
        j == k ==> a == b,
{
    let keys = score_keys(scores);
    let one = choose|order: Seq<usize>|
        #[trigger] is_stable_order(keys, order) && scores[order[j] as int] == a;
    let other = choose|order: Seq<usize>|
        #[trigger] is_stable_order(keys, order) && scores[order[k] as int] == b;
    stable_order_unique(keys, one, other);
    total_order_key_injective(a, b);
    total_order_key_injective(b, a);
    assert(0 <= one[j] < keys.len() && 0 <= one[k] < keys.len());
    assert(keys[one[j] as int] == total_order_key(a));
    assert(keys[one[k] as int] == total_order_key(b));
    if j < k {
        assert(precedes(keys, one[j] as int, one[k] as int));
    }
}

} // verus!
