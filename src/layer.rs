//! One reduction step: a row folded into the row next to it.

use vstd::prelude::*;
use vstd::slice::slice_subrange;

verus! {

/// The larger of two values, as a mathematical integer.
pub open spec fn max_of(a: int, b: int) -> int {
    if a >= b {
        a
    } else {
        b
    }
}

/// What `rest[i]` becomes when `layer` is folded into it: the better of the
/// two cells of `layer` adjacent to position `i` is added on.
pub open spec fn folded_cell(layer: Seq<u32>, rest: Seq<u32>, i: int) -> int {
    rest[i] + max_of(layer[i] as int, layer[i + 1] as int)
}

/// `rest` after `layer` has been folded into it: the first `layer.len() - 1`
/// cells gain the better of their two neighbours in `layer`, the others stay.
pub open spec fn folded(layer: Seq<u32>, rest: Seq<u32>) -> Seq<u32> {
    Seq::new(
        rest.len(),
        |i: int|
            if i < layer.len() - 1 {
                folded_cell(layer, rest, i) as u32
            } else {
                rest[i]
            },
    )
}

/// Every cell that a fold of `layer` into `rest` touches stays within `u32`.
pub open spec fn fold_fits(layer: Seq<u32>, rest: Seq<u32>) -> bool {
    forall|i: int| 0 <= i < layer.len() - 1 ==> #[trigger] folded_cell(layer, rest, i) <= u32::MAX
}

/// A row-combine strategy: folds a row of width `n` into the row beside it.
pub trait LayerCalc {
    /// Adds to each `rest[i]`, for `i < n - 1`, the larger of `layer[i]` and
    /// `layer[i + 1]`; `layer` is only read.
    fn algorithm(layer: &[u32], rest: &mut [u32], n: usize)
        requires
            layer@.len() == n,
            n >= 1,
            old(rest)@.len() >= n - 1,
            fold_fits(layer@, old(rest)@),
        ensures
            final(rest)@ == folded(layer@, old(rest)@),
    ;
}

/// The reference strategy: one comparison and one addition per cell, in order.
pub struct Simple;

impl LayerCalc for Simple {
    fn algorithm(layer: &[u32], rest: &mut [u32], _n: usize) {
        let end: usize = layer.len() - 1;
        let mut i: usize = 0;
        while i < end
            invariant
                end == layer@.len() - 1,
                i <= end,
                rest@.len() == old(rest)@.len(),
                old(rest)@.len() >= end,
                fold_fits(layer@, old(rest)@),
                forall|k: int| 0 <= k < i ==> rest@[k] == folded(layer@, old(rest)@)[k],
                forall|k: int| i <= k < rest@.len() ==> rest@[k] == old(rest)@[k],
            decreases end - i,
        {
            let a: u32 = layer[i];
            let b: u32 = layer[i + 1];
            let best: u32 = if a >= b { a } else { b };
            assert(folded_cell(layer@, old(rest)@, i as int) <= u32::MAX);
            rest[i] = rest[i] + best;
            i = i + 1;
        }
        assert(rest@ =~= folded(layer@, old(rest)@));
    }
}

/// Folds one aligned window: `out[i]` gains the larger of `left[i]` and
/// `right[i]`. Windows cut at the same points of the three views can be
/// folded independently of one another.
pub fn combine_chunk(left: &[u32], right: &[u32], out: &mut [u32])
    requires
        left@.len() == right@.len(),
        left@.len() == old(out)@.len(),
        forall|i: int|
            0 <= i < left@.len() ==> old(out)@[i] + max_of(left@[i] as int, right@[i] as int)
                <= u32::MAX,
    ensures
        final(out)@.len() == old(out)@.len(),
        forall|i: int|
            0 <= i < left@.len() ==> final(out)@[i] == old(out)@[i] + max_of(
                left@[i] as int,
                right@[i] as int,
            ),
{
    let len: usize = left.len();
    let mut i: usize = 0;
    while i < len
        invariant
            len == left@.len(),
            left@.len() == right@.len(),
            out@.len() == len,
            old(out)@.len() == len,
            i <= len,
            forall|k: int|
                0 <= k < len ==> old(out)@[k] + max_of(left@[k] as int, right@[k] as int)
                    <= u32::MAX,
            forall|k: int|
                0 <= k < i ==> out@[k] == old(out)@[k] + max_of(
                    left@[k] as int,
                    right@[k] as int,
                ),
            forall|k: int| i <= k < len ==> out@[k] == old(out)@[k],
        decreases len - i,
    {
        let a: u32 = left[i];
        let b: u32 = right[i];
        let best: u32 = if a >= b { a } else { b };
        out[i] = out[i] + best;
        i = i + 1;
    }
}

/// Folds `layer[start..end]`'s windows into `rest[start..end]` and leaves the
/// other cells of `rest` as they were.
fn combine_window(layer: &[u32], rest: &mut [u32], start: usize, end: usize)
    requires
        start <= end,
        end < layer@.len(),
        end <= old(rest)@.len(),
        forall|k: int| start <= k < end ==> #[trigger] folded_cell(layer@, old(rest)@, k) <= u32::MAX,
    ensures
        final(rest)@.len() == old(rest)@.len(),
        forall|k: int|
            start <= k < end ==> final(rest)@[k] == folded_cell(layer@, old(rest)@, k),
        forall|k: int|
            0 <= k < old(rest)@.len() && !(start <= k < end) ==> final(rest)@[k]
                == old(rest)@[k],
{
    let width: usize = layer.len();
    assert(end + 1 <= width);
    let left: &[u32] = slice_subrange(layer, start, end);
    let right: &[u32] = slice_subrange(layer, start + 1, end + 1);
    let (_before, from_start) = rest.split_at_mut(start);
    let (window, _after) = from_start.split_at_mut(end - start);
    assert forall|i: int| 0 <= i < left@.len() implies window@[i] + max_of(
        left@[i] as int,
        right@[i] as int,
    ) <= u32::MAX by {
        assert(folded_cell(layer@, old(rest)@, start + i) <= u32::MAX);
    }
    combine_chunk(left, right, window);
}

/// The same fold written over three aligned windows (left cell, right cell,
/// destination), walked together in one pass.
pub struct Vectorization;

impl LayerCalc for Vectorization {
    fn algorithm(l: &[u32], r: &mut [u32], n: usize) {
        assert forall|k: int| 0 <= k < n - 1 implies #[trigger] folded_cell(l@, r@, k)
            <= u32::MAX by {}
        combine_window(l, r, 0, n - 1);
        assert(r@ =~= folded(l@, old(r)@));
    }
}

/// Width of each of the `fan_out` chunks that a row of `width` cells is cut
/// into: `width / fan_out` rounded up, or the whole row when `fan_out` is 0.
pub fn chunk_len(width: usize, fan_out: usize) -> (r: usize)
    requires
        width >= 1,
    ensures
        r >= 1,
        fan_out == 0 ==> r == width,
        fan_out > 0 ==> (r - 1) * fan_out < width <= r * fan_out,
{
    if fan_out == 0 {
        width
    } else {
        let q: usize = width / fan_out;
        assert(width % fan_out != 0 ==> q < width) by (nonlinear_arith)
            requires
                fan_out > 0,
                q == width / fan_out,
                width >= 1,
        ;
        let r: usize = if width % fan_out == 0 { q } else { q + 1 };
        assert(r >= 1 && (r - 1) * fan_out < width <= r * fan_out) by (nonlinear_arith)
            requires
                fan_out > 0,
                q == width / fan_out,
                width >= 1,
                width % fan_out == 0 ==> r == q,
                width % fan_out != 0 ==> r == q + 1,
        ;
        r
    }
}

/// The fold cut into at most `N` chunks of `chunk_len(n, N)` cells (the last
/// may be shorter); chunk `j` of the left cells, of the right cells and of
/// the destination cover the same positions, so no two chunks touch the same
/// cell. Each chunk is one independent call of `combine_chunk` on its own
/// window; here they run one after another, and a caller with threads may
/// give each its own.
pub struct ParallelSplit<const N: usize>;

impl<const N: usize> LayerCalc for ParallelSplit<N> {
    fn algorithm(layer: &[u32], rest: &mut [u32], n: usize) {
        let len: usize = n - 1;
        let chunk: usize = chunk_len(n, N);
        let mut start: usize = 0;
        while start < len
            invariant
                len == n - 1,
                layer@.len() == n,
                chunk >= 1,
                start <= len,
                rest@.len() == old(rest)@.len(),
                old(rest)@.len() >= len,
                fold_fits(layer@, old(rest)@),
                forall|k: int| 0 <= k < start ==> rest@[k] == folded(layer@, old(rest)@)[k],
                forall|k: int| start <= k < rest@.len() ==> rest@[k] == old(rest)@[k],
            decreases len - start,
        {
            let end: usize = if len - start > chunk { start + chunk } else { len };
            assert forall|k: int| start <= k < end implies #[trigger] folded_cell(
                layer@,
                rest@,
                k,
            ) <= u32::MAX by {
                assert(folded_cell(layer@, old(rest)@, k) <= u32::MAX);
            }
            let ghost before = rest@;
            combine_window(layer, rest, start, end);
            assert forall|k: int| start <= k < end implies rest@[k] == folded(
                layer@,
                old(rest)@,
            )[k] by {
                assert(before[k] == old(rest)@[k]);
            }
            start = end;
        }
        assert(rest@ =~= folded(layer@, old(rest)@));
    }
}

} // verus!
