//! Drawing the tiles that hold the mines.

use vstd::prelude::*;
use rand::seq::IteratorRandom;

verus! {

/// `picked` holds distinct numbers below `total`.
pub open spec fn distinct_below(picked: Seq<usize>, total: nat) -> bool {
    &&& forall|k: int| 0 <= k < picked.len() ==> #[trigger] picked[k] < total
    &&& forall|j: int, k: int| 0 <= j < k < picked.len() ==> #[trigger] picked[j] != #[trigger] picked[k]
}

/// Draws `amount` of the numbers below `total` at random, none of them twice.
///
/// This calls `IteratorRandom::choose_multiple` of the crate `rand` on the range
/// `0..total`, with the generator that `rand::thread_rng` hands out. The
/// contract is taken on trust from that crate: the vector starts as the
/// first `amount` items of the range, and each later item of the range
/// replaces at most one slot, so that the result has `amount` entries where
/// the range has as many, each of them an item of the range and no item of
/// the range in two slots. Which numbers come out, and in what order, is
/// left open.
#[verifier::external_body]
pub(crate) fn choose_indices(total: usize, amount: usize) -> (picked: Vec<usize>)
    requires
        amount <= total,
    ensures
        picked@.len() == amount,
        distinct_below(picked@, total as nat),
{
    (0..total).choose_multiple(&mut rand::thread_rng(), amount)
}

} // verus!
