//! Random grids, for callers that measure the reductions.

use rand::Rng;
use vstd::prelude::*;

verus! {

/// Every generated cell is below this value.
pub const CELL_LIMIT: u32 = 500;

/// Relies on rand::thread_rng and rand::Rng::gen_range: a value drawn from
/// `0..bound`, which must not be empty (gen_range panics on an empty range).
/// thread_rng itself panics only where the system cannot seed it.
#[verifier::external_body]
fn random_below(bound: u32) -> (r: u32)
    requires
        bound > 0,
    ensures
        r < bound,
{
    rand::thread_rng().gen_range(0..bound)
}

/// A buffer of `size` random cells, each below `CELL_LIMIT`.
pub fn gen_data(size: usize) -> (v: Vec<u32>)
    ensures
        v@.len() == size,
        forall|i: int| 0 <= i < size ==> v@[i] < CELL_LIMIT,
{
    let mut v: Vec<u32> = Vec::with_capacity(size);
    let mut i: usize = 0;
    while i < size
        invariant
            i <= size,
            v@.len() == i,
            forall|k: int| 0 <= k < i ==> v@[k] < CELL_LIMIT,
        decreases size - i,
    {
        v.push(random_below(CELL_LIMIT));
        i = i + 1;
    }
    v
}

} // verus!
