//! Positions that satisfy a condition.

use vstd::prelude::*;

verus! {

/// The positions below `len` that satisfy `condition`, in ascending order.
pub open spec fn positions_where(condition: spec_fn(int) -> bool, len: int) -> Seq<usize>
    decreases len,
{
    if len <= 0 {
        Seq::empty()
    } else if condition(len - 1) {
        positions_where(condition, len - 1).push((len - 1) as usize)
    } else {
        positions_where(condition, len - 1)
    }
}

/// A position is listed exactly if it satisfies the condition, and the list
/// keeps the order.
pub proof fn selection_exact(condition: spec_fn(int) -> bool, len: int)
    requires
        0 <= len <= usize::MAX,
    ensures
        forall|i: int|
            0 <= i < len ==> (condition(i) <==> #[trigger] positions_where(condition, len).contains(
                i as usize,
            )),
        forall|a: int|
            0 <= a < positions_where(condition, len).len() ==> #[trigger] positions_where(
                condition,
                len,
            )[a] < len,
        forall|a: int, b: int|
            0 <= a < b < positions_where(condition, len).len() ==> #[trigger] positions_where(
                condition,
                len,
            )[a] < #[trigger] positions_where(condition, len)[b],
    decreases len,
{
    if len > 0 {
        selection_exact(condition, len - 1);
        let shorter = positions_where(condition, len - 1);
        let list = positions_where(condition, len);
        assert forall|i: int| 0 <= i < len implies (condition(i) <==> #[trigger] list.contains(
            i as usize,
        )) by {
            if condition(len - 1) {
                assert(list[list.len() - 1] == len - 1);
                if i < len - 1 && shorter.contains(i as usize) {
                    let k = choose|k: int| 0 <= k < shorter.len() && shorter[k] == i as usize;
                    assert(list[k] == i as usize);
                }
            }
        }
    }
}

} // verus!
