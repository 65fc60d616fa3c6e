//! The drivers: a triangle or a square grid, stored row by row in one buffer,
//! reduced in place to its maximum path sum.

use vstd::prelude::*;
use crate::layer::{folded, folded_cell, max_of, LayerCalc};

verus! {

/// Number of cells in a triangle of `layers` rows: `layers * (layers + 1) / 2`.
pub open spec fn triangular(layers: nat) -> nat {
    layers * (layers + 1) / 2
}

proof fn lemma_triangular_step(w: nat)
    requires
        w >= 1,
    ensures
        triangular(w) == triangular((w - 1) as nat) + w,
        triangular((w - 1) as nat) <= triangular(w),
{
    let p: nat = (w - 1) as nat;
    assert(w * (w + 1) == p * (p + 1) + 2 * w) by (nonlinear_arith)
        requires
            p + 1 == w,
    ;
}

proof fn lemma_triangular_monotone(a: nat, b: nat)
    requires
        a <= b,
    ensures
        triangular(a) <= triangular(b),
        triangular(b) - triangular(a) >= b - a,
    decreases b - a,
{
    if a < b {
        lemma_triangular_step(b);
        lemma_triangular_monotone(a, (b - 1) as nat);
    }
}

/// Number of cells in a triangle of `layers` rows.
pub fn get_size(layers: usize) -> (r: u64)
    requires
        layers * (layers + 1) <= u64::MAX,
    ensures
        r == triangular(layers as nat),
{
    let n: u64 = layers as u64;
    assert(n < u64::MAX) by (nonlinear_arith)
        requires
            n * (n + 1) <= u64::MAX,
    ;
    assert(n * (n + 1) <= u64::MAX);
    (n * (n + 1)) / 2
}

/// Position in a triangle buffer of cell `j` of the row of width `w`. The
/// buffer holds the rows from the widest (`size` cells) to the apex (one
/// cell), each row left to right.
pub open spec fn tri_index(size: nat, w: nat, j: int) -> int {
    triangular(size) - triangular(w) + j
}

/// Largest sum of a path that starts at cell `j` of the row of width `w` and
/// steps, row by row, to one of the two adjacent cells of the next wider row,
/// ending in the widest row.
pub open spec fn tri_best(buf: Seq<u32>, size: nat, w: nat, j: int) -> int
    decreases size - w,
{
    if w >= size {
        buf[tri_index(size, w, j)] as int
    } else {
        buf[tri_index(size, w, j)] + max_of(
            tri_best(buf, size, w + 1, j),
            tri_best(buf, size, w + 1, j + 1),
        )
    }
}

/// The maximum path sum of a triangle of `size` rows: the best path from the
/// apex down to the widest row.
pub open spec fn pyramid_max(buf: Seq<u32>, size: nat) -> int {
    tri_best(buf, size, 1, 0)
}

proof fn lemma_tri_best_nonneg(buf: Seq<u32>, size: nat, w: nat, j: int)
    ensures
        tri_best(buf, size, w, j) >= buf[tri_index(size, w, j)],
    decreases size - w,
{
    if w < size {
        lemma_tri_best_nonneg(buf, size, w + 1, j);
    }
}

/// No cell of the reduction exceeds the apex's final value: every cell lies
/// on some path from the apex, and no cell is negative.
proof fn lemma_tri_best_below_apex(buf: Seq<u32>, size: nat, w: nat, j: int)
    requires
        1 <= w <= size,
        0 <= j < w,
    ensures
        tri_best(buf, size, w, j) <= pyramid_max(buf, size),
    decreases w,
{
    if w > 1 {
        let p: int = if j < w - 1 {
            j
        } else {
            j - 1
        };
        let up: nat = (w - 1) as nat;
        lemma_tri_best_nonneg(buf, size, up, p);
        assert(tri_best(buf, size, w, j) <= tri_best(buf, size, up, p));
        lemma_tri_best_below_apex(buf, size, up, p);
    }
}

/// Reduces a triangle of `size` rows, stored from its widest row to its apex,
/// to its maximum path sum. Every row is folded, widest first, into the row
/// above it; afterwards each cell holds the best sum of a path from it down
/// to the widest row.
pub fn pyramid<T: LayerCalc>(input: &mut [u32], size: usize) -> (r: u32)
    requires
        size >= 1,
        old(input)@.len() == triangular(size as nat),
        pyramid_max(old(input)@, size as nat) <= u32::MAX,
    ensures
        r == pyramid_max(old(input)@, size as nat),
        final(input)@.len() == old(input)@.len(),
        forall|w: nat, j: int|
            1 <= w <= size && 0 <= j < w ==> final(input)@[tri_index(size as nat, w, j)]
                == tri_best(old(input)@, size as nat, w, j),
{
    let ghost orig: Seq<u32> = input@;
    let ghost sz: nat = size as nat;
    let total: usize = input.len();
    let mut i: usize = size;
    let mut off: usize = 0;
    proof {
        lemma_triangular_monotone(0, sz);
    }
    while i >= 2
        invariant
            1 <= i <= size,
            off == tri_index(sz, i as nat, 0),
            sz == size,
            orig.len() == triangular(sz),
            input@.len() == orig.len(),
            total == orig.len(),
            pyramid_max(orig, sz) <= u32::MAX,
            forall|w: nat, j: int|
                i <= w <= size && 0 <= j < w ==> input@[tri_index(sz, w, j)] == tri_best(
                    orig,
                    sz,
                    w,
                    j,
                ),
            forall|k: int| off + i <= k < orig.len() ==> input@[k] == orig[k],
        decreases i,
    {
        proof {
            lemma_triangular_step(i as nat);
            lemma_triangular_monotone(i as nat, sz);
            lemma_triangular_monotone((i - 1) as nat, sz);
            lemma_triangular_monotone(0, (i - 1) as nat);
        }
        let ghost before: Seq<u32> = input@;
        let (head, tail) = input.split_at_mut(off + i);
        let (_done, layer) = head.split_at_mut(off);
        let (rest, _untouched) = tail.split_at_mut(i - 1);
        assert forall|j: int| 0 <= j < i implies layer@[j] == tri_best(orig, sz, i as nat, j) by {
            assert(layer@[j] == before[tri_index(sz, i as nat, j)]);
        }
        assert forall|j: int| 0 <= j < i - 1 implies #[trigger] folded_cell(layer@, rest@, j)
            <= u32::MAX by {
            let up: nat = (i - 1) as nat;
            assert(rest@[j] == orig[tri_index(sz, up, j)]);
            assert(folded_cell(layer@, rest@, j) == tri_best(orig, sz, up, j));
            lemma_tri_best_below_apex(orig, sz, up, j);
        }
        let ghost layer_vals: Seq<u32> = layer@;
        let ghost rest_vals: Seq<u32> = rest@;
        T::algorithm(layer, rest, i);
        let ghost mid: int = off + i;
        assert(input@ =~= before.subrange(0, mid) + folded(layer_vals, rest_vals) + before.subrange(
            mid + i - 1,
            before.len() as int,
        ));
        assert forall|w: nat, j: int| i - 1 <= w <= size && 0 <= j < w implies input@[tri_index(
            sz,
            w,
            j,
        )] == tri_best(orig, sz, w, j) by {
            if w >= i {
                lemma_triangular_step(w);
                lemma_triangular_monotone((i - 1) as nat, (w - 1) as nat);
                lemma_triangular_monotone(w, sz);
                assert(input@[tri_index(sz, w, j)] == before[tri_index(sz, w, j)]);
            } else {
                assert(input@[tri_index(sz, w, j)] == folded(layer_vals, rest_vals)[j]);
                assert(rest_vals[j] == orig[tri_index(sz, w, j)]);
            }
        }
        off = off + i;
        i = i - 1;
    }
    proof {
        lemma_triangular_step(1);
        lemma_triangular_monotone(1, sz);
        assert(input@[tri_index(sz, 1, 0)] == tri_best(orig, sz, 1, 0));
    }
    input[off]
}

/// Position in a square buffer of cell `j` of row `row`: rows of `size` cells
/// follow one another, the first row read first.
pub open spec fn rect_index(size: nat, row: nat, j: int) -> int {
    row * size + j
}

/// Largest sum of a path that starts in the first row and ends at cell `j`
/// of row `row`, each step going to the same column or the column to the
/// left in the next row.
pub open spec fn rect_best(buf: Seq<u32>, size: nat, row: nat, j: int) -> int
    decreases row,
{
    if row == 0 {
        buf[j] as int
    } else {
        let up: nat = (row - 1) as nat;
        buf[rect_index(size, row, j)] + if j < size - 1 {
            max_of(rect_best(buf, size, up, j), rect_best(buf, size, up, j + 1))
        } else {
            rect_best(buf, size, up, j)
        }
    }
}

/// The largest of `rect_best` over the first `count` cells of row `row`.
pub open spec fn rect_row_max(buf: Seq<u32>, size: nat, row: nat, count: nat) -> int
    decreases count,
{
    if count <= 1 {
        rect_best(buf, size, row, 0)
    } else {
        max_of(
            rect_row_max(buf, size, row, (count - 1) as nat),
            rect_best(buf, size, row, count - 1),
        )
    }
}

/// The maximum path sum of a square grid of side `size`: the best path from
/// the first row to any cell of the last row.
pub open spec fn rectangle_max(buf: Seq<u32>, size: nat) -> int {
    rect_row_max(buf, size, (size - 1) as nat, size)
}

proof fn lemma_rect_index_bounds(size: nat, a: nat, b: nat, j: int)
    requires
        0 <= j < size,
    ensures
        a <= b ==> rect_index(size, a, j) < rect_index(size, b + 1, 0),
        a > b ==> rect_index(size, a, j) >= rect_index(size, b + 1, 0),
        rect_index(size, a + 1, 0) == rect_index(size, a, 0) + size,
        a < size ==> rect_index(size, a, j) < size * size,
{
    assert(a <= b ==> a * size + j < (b + 1) * size) by (nonlinear_arith)
        requires
            0 <= j < size,
    ;
    assert(a > b ==> a * size + j >= (b + 1) * size) by (nonlinear_arith)
        requires
            0 <= j,
    ;
    assert((a + 1) * size == a * size + size) by (nonlinear_arith);
    assert(a < size ==> a * size + j < size * size) by (nonlinear_arith)
        requires
            0 <= j < size,
    ;
}

/// Path sums only grow from one row to the next in the same column.
proof fn lemma_rect_best_grows(buf: Seq<u32>, size: nat, a: nat, b: nat, j: int)
    requires
        a <= b,
        0 <= j < size,
    ensures
        rect_best(buf, size, a, j) <= rect_best(buf, size, b, j),
    decreases b - a,
{
    if a < b {
        lemma_rect_best_grows(buf, size, a, (b - 1) as nat, j);
    }
}

proof fn lemma_rect_row_max_bounds(buf: Seq<u32>, size: nat, row: nat, count: nat, j: int)
    requires
        0 <= j < count,
    ensures
        rect_best(buf, size, row, j) <= rect_row_max(buf, size, row, count),
    decreases count,
{
    if j < count - 1 {
        lemma_rect_row_max_bounds(buf, size, row, (count - 1) as nat, j);
    }
}

/// Reduces a square grid of side `size` to its maximum path sum. Each row is
/// folded into the next: a cell gains the better of the cell above it and
/// the one above and to the right, and the last column gains the cell above
/// it. The answer is the largest cell of the last row; afterwards each cell
/// holds the best sum of a path from the first row to it.
pub fn rectangle<T: LayerCalc>(input: &mut [u32], size: usize) -> (r: u32)
    requires
        size >= 1,
        old(input)@.len() == size * size,
        rectangle_max(old(input)@, size as nat) <= u32::MAX,
    ensures
        r == rectangle_max(old(input)@, size as nat),
        final(input)@.len() == old(input)@.len(),
        forall|row: nat, j: int|
            row < size && 0 <= j < size ==> final(input)@[rect_index(size as nat, row, j)]
                == rect_best(old(input)@, size as nat, row, j),
{
    let ghost orig: Seq<u32> = input@;
    let ghost sz: nat = size as nat;
    let ghost last: nat = (sz - 1) as nat;
    let total: usize = input.len();
    let mut off: usize = 0;
    let ghost mut row: nat = 0;
    assert(rect_index(sz, 0, 0) == 0);
    assert(sz <= sz * sz) by (nonlinear_arith)
        requires
            sz >= 1,
    ;
    while total - off > size
        invariant
            sz == size,
            sz >= 1,
            last == sz - 1,
            total == orig.len(),
            orig.len() == sz * sz,
            input@.len() == orig.len(),
            row < sz,
            off == rect_index(sz, row, 0),
            off + size <= total,
            rectangle_max(orig, sz) <= u32::MAX,
            forall|a: nat, j: int|
                a <= row && 0 <= j < sz ==> input@[rect_index(sz, a, j)] == rect_best(
                    orig,
                    sz,
                    a,
                    j,
                ),
            forall|k: int| off + size <= k < orig.len() ==> input@[k] == orig[k],
        decreases total - off,
    {
        proof {
            lemma_rect_index_bounds(sz, row, row, 0);
            lemma_rect_index_bounds(sz, row + 1, row + 1, 0);
            assert(row + 1 < sz) by (nonlinear_arith)
                requires
                    total == sz * sz,
                    off == row * sz,
                    total - off > sz,
                    rect_index(sz, row + 1, 0) == off + sz,
            ;
            lemma_rect_index_bounds(sz, row + 1, row + 1, sz - 1);
            lemma_rect_index_bounds(sz, row + 1, sz, sz - 1);
        }
        let ghost before: Seq<u32> = input@;
        let ghost next: nat = row + 1;
        let (head, tail) = input.split_at_mut(off + size);
        let (_done, layer) = head.split_at_mut(off);
        let (rest, _untouched) = tail.split_at_mut(size - 1);
        assert forall|j: int| 0 <= j < size implies layer@[j] == rect_best(orig, sz, row, j) by {
            assert(layer@[j] == before[rect_index(sz, row, j)]);
        }
        assert forall|j: int| 0 <= j < size - 1 implies #[trigger] folded_cell(layer@, rest@, j)
            <= u32::MAX by {
            lemma_rect_index_bounds(sz, next, next, j);
            assert(rest@[j] == orig[rect_index(sz, next, j)]);
            assert(folded_cell(layer@, rest@, j) == rect_best(orig, sz, next, j));
            lemma_rect_best_grows(orig, sz, next, last, j);
            lemma_rect_row_max_bounds(orig, sz, last, sz, j);
        }
        let ghost layer_vals: Seq<u32> = layer@;
        let ghost rest_vals: Seq<u32> = rest@;
        T::algorithm(layer, rest, size);
        let mid: usize = off + size;
        assert(input@ =~= before.subrange(0, mid as int) + folded(layer_vals, rest_vals)
            + before.subrange(mid + size - 1, before.len() as int));
        let corner: usize = mid + size - 1;
        proof {
            lemma_rect_best_grows(orig, sz, next, last, sz - 1);
            lemma_rect_row_max_bounds(orig, sz, last, sz, sz - 1);
            assert(input@[corner as int] == orig[rect_index(sz, next, sz - 1)]);
            assert(input@[off + size - 1] == rect_best(orig, sz, row, sz - 1));
        }
        input[corner] = input[corner] + input[off + size - 1];
        assert forall|a: nat, j: int| a <= next && 0 <= j < sz implies input@[rect_index(
            sz,
            a,
            j,
        )] == rect_best(orig, sz, a, j) by {
            lemma_rect_index_bounds(sz, a, row, j);
            if a == next {
                lemma_rect_index_bounds(sz, next, next, j);
                if j < sz - 1 {
                    assert(input@[rect_index(sz, a, j)] == folded(layer_vals, rest_vals)[j]);
                    assert(rest_vals[j] == orig[rect_index(sz, a, j)]);
                }
            } else {
                assert(input@[rect_index(sz, a, j)] == before[rect_index(sz, a, j)]);
            }
        }
        off = mid;
        proof {
            row = next;
        }
    }
    proof {
        assert(row == last) by (nonlinear_arith)
            requires
                total == sz * sz,
                off == row * sz,
                total - off <= sz,
                row < sz,
                last == sz - 1,
                sz >= 1,
        ;
        lemma_rect_index_bounds(sz, row, row, 0);
    }
    let mut best: u32 = input[off];
    let mut j: usize = 1;
    while j < size
        invariant
            1 <= j <= size,
            sz == size,
            row == last,
            last == sz - 1,
            off == rect_index(sz, row, 0),
            off + size <= total,
            total == input@.len(),
            rectangle_max(orig, sz) <= u32::MAX,
            forall|c: int| 0 <= c < sz ==> input@[off + c] == rect_best(orig, sz, last, c),
            best == rect_row_max(orig, sz, last, j as nat),
        decreases size - j,
    {
        let cell: u32 = input[off + j];
        if cell > best {
            best = cell;
        }
        j = j + 1;
    }
    best
}

/// A path down a triangle from a cell of the row of width `w`: one column
/// per row, from that row to the widest, each column equal to the one above
/// it or one more.
pub open spec fn is_tri_path(size: nat, w: nat, path: Seq<int>) -> bool {
    &&& 1 <= w <= size
    &&& path.len() == size - w + 1
    &&& 0 <= path[0] < w
    &&& forall|t: int| 0 <= t < path.len() - 1 ==> #[trigger] down_step(path, t)
}

/// From step `t` to step `t + 1` a path keeps its column or moves one right.
pub open spec fn down_step(path: Seq<int>, t: int) -> bool {
    path[t + 1] == path[t] || path[t + 1] == path[t] + 1
}

/// Sum of the cells that `path` visits, its first column in the row of width `w`.
pub open spec fn tri_path_sum(buf: Seq<u32>, size: nat, w: nat, path: Seq<int>) -> int
    decreases path.len(),
{
    if path.len() == 0 {
        0
    } else {
        buf[tri_index(size, w, path[0])] + tri_path_sum(buf, size, w + 1, path.drop_first())
    }
}

/// A path from cell `j` of the row of width `w` whose sum is `tri_best`.
pub open spec fn tri_best_path(buf: Seq<u32>, size: nat, w: nat, j: int) -> Seq<int>
    decreases size - w,
{
    if w >= size {
        seq![j]
    } else if tri_best(buf, size, w + 1, j) >= tri_best(buf, size, w + 1, j + 1) {
        seq![j] + tri_best_path(buf, size, w + 1, j)
    } else {
        seq![j] + tri_best_path(buf, size, w + 1, j + 1)
    }
}

proof fn lemma_tri_path_tail(size: nat, w: nat, path: Seq<int>)
    requires
        is_tri_path(size, w, path),
        w < size,
    ensures
        is_tri_path(size, w + 1, path.drop_first()),
{
    let tail = path.drop_first();
    assert forall|t: int| 0 <= t < tail.len() - 1 implies #[trigger] down_step(tail, t) by {
        assert(down_step(path, t + 1));
    }
    assert(down_step(path, 0));
}

proof fn lemma_tri_path_below_best(buf: Seq<u32>, size: nat, w: nat, path: Seq<int>)
    requires
        is_tri_path(size, w, path),
    ensures
        tri_path_sum(buf, size, w, path) <= tri_best(buf, size, w, path[0]),
    decreases size - w,
{
    let tail = path.drop_first();
    if w < size {
        lemma_tri_path_tail(size, w, path);
        lemma_tri_path_below_best(buf, size, w + 1, tail);
        assert(down_step(path, 0));
        assert(tail[0] == path[1]);
    } else {
        assert(tail.len() == 0);
        assert(tri_path_sum(buf, size, w + 1, tail) == 0);
    }
}

proof fn lemma_tri_best_path_reaches(buf: Seq<u32>, size: nat, w: nat, j: int)
    requires
        1 <= w <= size,
        0 <= j < w,
    ensures
        is_tri_path(size, w, tri_best_path(buf, size, w, j)),
        tri_best_path(buf, size, w, j)[0] == j,
        tri_path_sum(buf, size, w, tri_best_path(buf, size, w, j)) == tri_best(buf, size, w, j),
    decreases size - w,
{
    let path = tri_best_path(buf, size, w, j);
    if w >= size {
        assert(path.drop_first().len() == 0);
        assert(tri_path_sum(buf, size, w + 1, path.drop_first()) == 0);
    } else {
        let next: int = if tri_best(buf, size, w + 1, j) >= tri_best(buf, size, w + 1, j + 1) {
            j
        } else {
            j + 1
        };
        let tail = tri_best_path(buf, size, w + 1, next);
        lemma_tri_best_path_reaches(buf, size, w + 1, next);
        assert(path == seq![j] + tail);
        assert(path.drop_first() =~= tail);
        assert(tri_path_sum(buf, size, w, path) == buf[tri_index(size, w, j)] + tri_path_sum(
            buf,
            size,
            w + 1,
            tail,
        ));
        assert forall|t: int| 0 <= t < path.len() - 1 implies #[trigger] down_step(path, t) by {
            if t > 0 {
                assert(down_step(tail, t - 1));
            }
        }
    }
}

/// `pyramid_max` is the maximum path sum: no path from the apex to the
/// widest row sums to more, and some path sums to exactly that.
pub proof fn lemma_pyramid_max_is_best_path(buf: Seq<u32>, layers: nat)
    requires
        is_triangle(buf.len(), layers),
    ensures
        forall|path: Seq<int>| #[trigger]
            is_tri_path(layers, 1, path) ==> tri_path_sum(buf, layers, 1, path) <= pyramid_max(
                buf,
                layers,
            ),
        exists|path: Seq<int>| #[trigger]
            is_tri_path(layers, 1, path) && tri_path_sum(buf, layers, 1, path) == pyramid_max(
                buf,
                layers,
            ),
{
    assert forall|path: Seq<int>| #[trigger]
        is_tri_path(layers, 1, path) implies tri_path_sum(buf, layers, 1, path) <= pyramid_max(
        buf,
        layers,
    ) by {
        lemma_tri_path_below_best(buf, layers, 1, path);
    }
    lemma_tri_best_path_reaches(buf, layers, 1, 0);
    let best = tri_best_path(buf, layers, 1, 0);
    assert(is_tri_path(layers, 1, best) && tri_path_sum(buf, layers, 1, best) == pyramid_max(
        buf,
        layers,
    ));
}

/// A path down a square grid of side `size` from its first row: one column
/// per row, each in the grid, each equal to the one above it or one less.
pub open spec fn is_rect_path(size: nat, path: Seq<int>) -> bool {
    &&& path.len() >= 1
    &&& forall|t: int| 0 <= t < path.len() ==> 0 <= #[trigger] path[t] < size
    &&& forall|t: int| 0 <= t < path.len() - 1 ==> #[trigger] left_step(path, t)
}

/// From step `t` to step `t + 1` a path keeps its column or moves one left.
pub open spec fn left_step(path: Seq<int>, t: int) -> bool {
    path[t + 1] == path[t] || path[t + 1] == path[t] - 1
}

/// Sum of the cells that `path` visits, its step `t` in row `t`.
pub open spec fn rect_path_sum(buf: Seq<u32>, size: nat, path: Seq<int>) -> int
    decreases path.len(),
{
    if path.len() == 0 {
        0
    } else {
        rect_path_sum(buf, size, path.drop_last()) + buf[rect_index(
            size,
            (path.len() - 1) as nat,
            path.last(),
        )]
    }
}

/// A path ending at cell `j` of row `row` whose sum is `rect_best`.
pub open spec fn rect_best_path(buf: Seq<u32>, size: nat, row: nat, j: int) -> Seq<int>
    decreases row,
{
    if row == 0 {
        seq![j]
    } else {
        let up: nat = (row - 1) as nat;
        if j < size - 1 && rect_best(buf, size, up, j + 1) > rect_best(buf, size, up, j) {
            rect_best_path(buf, size, up, j + 1).push(j)
        } else {
            rect_best_path(buf, size, up, j).push(j)
        }
    }
}

proof fn lemma_rect_path_below_best(buf: Seq<u32>, size: nat, path: Seq<int>)
    requires
        is_rect_path(size, path),
    ensures
        rect_path_sum(buf, size, path) <= rect_best(buf, size, (path.len() - 1) as nat, path.last()),
    decreases path.len(),
{
    let row: nat = (path.len() - 1) as nat;
    let front = path.drop_last();
    if row == 0 {
        assert(rect_path_sum(buf, size, front) == 0);
        assert(rect_index(size, 0, path[0]) == path[0]);
    } else {
        assert forall|t: int| 0 <= t < front.len() - 1 implies #[trigger] left_step(front, t) by {
            assert(left_step(path, t));
        }
        assert forall|t: int| 0 <= t < front.len() implies 0 <= #[trigger] front[t] < size by {
            assert(0 <= path[t] < size);
        }
        lemma_rect_path_below_best(buf, size, front);
        assert(left_step(path, row - 1));
        assert(0 <= path[row as int] < size);
    }
}

proof fn lemma_rect_best_path_reaches(buf: Seq<u32>, size: nat, row: nat, j: int)
    requires
        0 <= j < size,
    ensures
        is_rect_path(size, rect_best_path(buf, size, row, j)),
        rect_best_path(buf, size, row, j).len() == row + 1,
        rect_best_path(buf, size, row, j).last() == j,
        rect_path_sum(buf, size, rect_best_path(buf, size, row, j)) == rect_best(buf, size, row, j),
    decreases row,
{
    let path = rect_best_path(buf, size, row, j);
    if row == 0 {
        assert(path.drop_last().len() == 0);
        assert(rect_path_sum(buf, size, path.drop_last()) == 0);
        assert(rect_index(size, 0, j) == j);
    } else {
        let up: nat = (row - 1) as nat;
        let prev: int = if j < size - 1 && rect_best(buf, size, up, j + 1) > rect_best(
            buf,
            size,
            up,
            j,
        ) {
            j + 1
        } else {
            j
        };
        let front = rect_best_path(buf, size, up, prev);
        lemma_rect_best_path_reaches(buf, size, up, prev);
        assert(path == front.push(j));
        assert(path.drop_last() =~= front);
        assert forall|t: int| 0 <= t < path.len() - 1 implies #[trigger] left_step(path, t) by {
            if t < path.len() - 2 {
                assert(left_step(front, t));
            }
        }
        assert forall|t: int| 0 <= t < path.len() implies 0 <= #[trigger] path[t] < size by {
            if t < path.len() - 1 {
                assert(0 <= front[t] < size);
            }
        }
    }
}

proof fn lemma_rect_row_max_reached(buf: Seq<u32>, size: nat, row: nat, count: nat)
    requires
        1 <= count,
    ensures
        exists|j: int| 0 <= j < count && #[trigger] rect_best(buf, size, row, j) == rect_row_max(buf, size, row, count),
    decreases count,
{
    if count <= 1 {
        assert(rect_best(buf, size, row, 0) == rect_row_max(buf, size, row, count));
    } else {
        lemma_rect_row_max_reached(buf, size, row, (count - 1) as nat);
        if rect_best(buf, size, row, count - 1) >= rect_row_max(buf, size, row, (count - 1) as nat) {
            assert(rect_best(buf, size, row, count - 1) == rect_row_max(buf, size, row, count));
        }
    }
}

/// `rectangle_max` is the maximum path sum: no path from the first row to
/// the last sums to more, and some path sums to exactly that.
pub proof fn lemma_rectangle_max_is_best_path(buf: Seq<u32>, side: nat)
    requires
        is_square(buf.len(), side),
    ensures
        forall|path: Seq<int>| #[trigger]
            is_rect_path(side, path) && path.len() == side ==> rect_path_sum(buf, side, path)
                <= rectangle_max(buf, side),
        exists|path: Seq<int>| #[trigger]
            is_rect_path(side, path) && path.len() == side && rect_path_sum(buf, side, path)
                == rectangle_max(buf, side),
{
    let last: nat = (side - 1) as nat;
    assert forall|path: Seq<int>| #[trigger]
        is_rect_path(side, path) && path.len() == side implies rect_path_sum(buf, side, path)
        <= rectangle_max(buf, side) by {
        lemma_rect_path_below_best(buf, side, path);
        assert(0 <= path[path.len() - 1] < side);
        lemma_rect_row_max_bounds(buf, side, last, side, path.last());
    }
    lemma_rect_row_max_reached(buf, side, last, side);
    let j: int = choose|j: int| 0 <= j < side && #[trigger] rect_best(buf, side, last, j) == rect_row_max(buf, side, last, side);
    lemma_rect_best_path_reaches(buf, side, last, j);
    let best = rect_best_path(buf, side, last, j);
    assert(is_rect_path(side, best) && best.len() == side && rect_path_sum(buf, side, best)
        == rectangle_max(buf, side));
}

/// Why a buffer cannot be reduced.
#[derive(Debug, Clone, Copy, PartialEq, Eq, Structural)]
pub enum ShapeError {
    /// The buffer's length is not the number of cells of a grid with the
    /// declared number of rows (at least one).
    InvalidShape,
}

/// Whether a buffer of `len` cells is a triangle of `layers` rows.
pub open spec fn is_triangle(len: nat, layers: nat) -> bool {
    layers >= 1 && len == triangular(layers)
}

/// Whether a buffer of `len` cells is a square grid of side `side`.
pub open spec fn is_square(len: nat, side: nat) -> bool {
    side >= 1 && len == side * side
}

/// `pyramid`, after a check of the buffer's shape: a buffer that is not a
/// triangle of `layers` rows is refused and left as it was.
pub fn checked_pyramid<T: LayerCalc>(input: &mut [u32], layers: usize) -> (r: Result<u32, ShapeError>)
    requires
        is_triangle(old(input)@.len(), layers as nat) ==> pyramid_max(old(input)@, layers as nat)
            <= u32::MAX,
    ensures
        r is Err <==> !is_triangle(old(input)@.len(), layers as nat),
        r is Err ==> r == Err::<u32, ShapeError>(ShapeError::InvalidShape) && final(input)@ == old(
            input,
        )@,
        r is Ok ==> r == Ok::<u32, ShapeError>(pyramid_max(old(input)@, layers as nat) as u32),
{
    let n: u128 = layers as u128;
    assert(n * (n + 1) <= u128::MAX) by (nonlinear_arith)
        requires
            n <= u64::MAX,
    ;
    let cells: u128 = n * (n + 1) / 2;
    if layers == 0 || input.len() as u128 != cells {
        Err(ShapeError::InvalidShape)
    } else {
        Ok(pyramid::<T>(input, layers))
    }
}

/// `rectangle`, after a check of the buffer's shape: a buffer that is not a
/// square grid of side `side` is refused and left as it was.
pub fn checked_rectangle<T: LayerCalc>(input: &mut [u32], side: usize) -> (r: Result<u32, ShapeError>)
    requires
        is_square(old(input)@.len(), side as nat) ==> rectangle_max(old(input)@, side as nat)
            <= u32::MAX,
    ensures
        r is Err <==> !is_square(old(input)@.len(), side as nat),
        r is Err ==> r == Err::<u32, ShapeError>(ShapeError::InvalidShape) && final(input)@ == old(
            input,
        )@,
        r is Ok ==> r == Ok::<u32, ShapeError>(rectangle_max(old(input)@, side as nat) as u32),
{
    let n: u128 = side as u128;
    assert(n * n <= u128::MAX) by (nonlinear_arith)
        requires
            n <= u64::MAX,
    ;
    let cells: u128 = n * n;
    if side == 0 || input.len() as u128 != cells {
        Err(ShapeError::InvalidShape)
    } else {
        Ok(rectangle::<T>(input, side))
    }
}

proof fn lemma_tri_index_in_bounds(size: nat, w: nat, j: int)
    requires
        1 <= w <= size,
        0 <= j < w,
    ensures
        0 <= tri_index(size, w, j) < triangular(size),
{
    lemma_triangular_monotone(0, w);
    lemma_triangular_monotone(w, size);
}

proof fn lemma_tri_best_pointwise(a: Seq<u32>, b: Seq<u32>, size: nat, w: nat, j: int)
    requires
        a.len() == triangular(size),
        b.len() == a.len(),
        forall|i: int| 0 <= i < a.len() ==> a[i] <= b[i],
        1 <= w <= size,
        0 <= j < w,
    ensures
        tri_best(a, size, w, j) <= tri_best(b, size, w, j),
    decreases size - w,
{
    lemma_tri_index_in_bounds(size, w, j);
    if w < size {
        lemma_tri_best_pointwise(a, b, size, w + 1, j);
        lemma_tri_best_pointwise(a, b, size, w + 1, j + 1);
    }
}

/// Raising one cell of a triangle never lowers its maximum path sum.
pub proof fn lemma_pyramid_monotone(a: Seq<u32>, b: Seq<u32>, layers: nat, k: int)
    requires
        is_triangle(a.len(), layers),
        b.len() == a.len(),
        0 <= k < a.len(),
        a[k] < b[k],
        forall|i: int| 0 <= i < a.len() && i != k ==> a[i] == b[i],
    ensures
        pyramid_max(a, layers) <= pyramid_max(b, layers),
{
    lemma_tri_best_pointwise(a, b, layers, 1, 0);
}

proof fn lemma_rect_best_pointwise(a: Seq<u32>, b: Seq<u32>, size: nat, row: nat, j: int)
    requires
        a.len() == size * size,
        b.len() == a.len(),
        forall|i: int| 0 <= i < a.len() ==> a[i] <= b[i],
        row < size,
        0 <= j < size,
    ensures
        rect_best(a, size, row, j) <= rect_best(b, size, row, j),
    decreases row,
{
    lemma_rect_index_bounds(size, row, row, j);
    if row > 0 {
        let up: nat = (row - 1) as nat;
        lemma_rect_best_pointwise(a, b, size, up, j);
        if j < size - 1 {
            lemma_rect_best_pointwise(a, b, size, up, j + 1);
        }
    }
}

proof fn lemma_rect_row_max_pointwise(a: Seq<u32>, b: Seq<u32>, size: nat, row: nat, count: nat)
    requires
        a.len() == size * size,
        b.len() == a.len(),
        forall|i: int| 0 <= i < a.len() ==> a[i] <= b[i],
        row < size,
        1 <= count <= size,
    ensures
        rect_row_max(a, size, row, count) <= rect_row_max(b, size, row, count),
    decreases count,
{
    lemma_rect_best_pointwise(a, b, size, row, count - 1);
    if count > 1 {
        lemma_rect_best_pointwise(a, b, size, row, 0);
        lemma_rect_row_max_pointwise(a, b, size, row, (count - 1) as nat);
    } else {
        lemma_rect_best_pointwise(a, b, size, row, 0);
    }
}

/// Raising one cell of a square grid never lowers its maximum path sum.
pub proof fn lemma_rectangle_monotone(a: Seq<u32>, b: Seq<u32>, side: nat, k: int)
    requires
        is_square(a.len(), side),
        b.len() == a.len(),
        0 <= k < a.len(),
        a[k] < b[k],
        forall|i: int| 0 <= i < a.len() && i != k ==> a[i] == b[i],
    ensures
        rectangle_max(a, side) <= rectangle_max(b, side),
{
    lemma_rect_row_max_pointwise(a, b, side, (side - 1) as nat, side);
}

} // verus!
