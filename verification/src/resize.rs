//! Resampling a heat matrix to other dimensions by nearest neighbour.

use vstd::prelude::*;
use vstd::arithmetic::div_mod::{lemma_fundamental_div_mod_converse, lemma_div_multiples_vanish};
use crate::matrix::{allocatable, HeatmapMatrix, MatrixView};

verus! {

/// The place in a source of `source` cells that the place `i` of `target`
/// cells takes its value from: `i * source / target`, rounded down, and
/// never beyond the last cell.
pub open spec fn source_index(i: int, target: int, source: int) -> int {
    let scaled = (i * source) / target;
    if scaled > source - 1 {
        source - 1
    } else {
        scaled
    }
}

/// The matrix `m` resampled to `rows x cols`.
pub open spec fn resized(m: MatrixView, cols: nat, rows: nat) -> MatrixView {
    MatrixView {
        rows,
        cols,
        data: Seq::new(
            rows * cols,
            |k: int|
                m.cell(
                    source_index(k / (cols as int), rows as int, m.rows as int),
                    source_index(k % (cols as int), cols as int, m.cols as int),
                ),
        ),
    }
}

/// The source place lies inside the source.
pub proof fn lemma_source_index_bounds(i: int, target: int, source: int)
    requires
        0 <= i < target,
        0 < source,
    ensures
        0 <= source_index(i, target, source) < source,
        (i * source) / target < source,
{
    assert(0 <= i * source < target * source) by (nonlinear_arith)
        requires
            0 <= i < target,
            0 < source,
    ;
    assert(0 <= (i * source) / target < source) by (nonlinear_arith)
        requires
            0 <= i * source < target * source,
            0 < target,
    ;
}

/// Between equal dimensions every place takes its value from itself.
pub proof fn lemma_source_index_identity(i: int, n: int)
    requires
        0 <= i < n,
    ensures
        source_index(i, n, n) == i,
{
    lemma_div_multiples_vanish(i, n);
    assert(i * n == n * i) by (nonlinear_arith);
}

/// Resampling a matrix to its own dimensions gives the matrix back, cell
/// for cell. Every matrix can be resampled to its own dimensions: what
/// `resize_heatmap` asks of them, `nrows` and `ncols` state of every
/// matrix.
pub proof fn lemma_resize_identity(m: MatrixView)
    requires
        m.wf(),
    ensures
        resized(m, m.cols, m.rows) == m,
{
    let out = resized(m, m.cols, m.rows);
    let w = m.cols as int;
    let h = m.rows as int;
    assert(out.data.len() == m.data.len());
    assert forall|k: int| 0 <= k < out.data.len() implies out.data[k] == m.data[k] by {
        assert(w > 0) by (nonlinear_arith)
            requires
                0 <= k < h * w,
                h >= 0,
                w >= 0,
        ;
        vstd::arithmetic::div_mod::lemma_fundamental_div_mod(k, w);
        vstd::arithmetic::div_mod::lemma_mod_bound(k, w);
        let row = k / w;
        let col = k % w;
        assert(0 <= row < h) by (nonlinear_arith)
            requires
                0 <= k < h * w,
                k == w * row + col,
                0 <= col < w,
        ;
        lemma_source_index_identity(row, h);
        lemma_source_index_identity(col, w);
        assert(row * w + col == k) by (nonlinear_arith)
            requires
                k == w * row + col,
        ;
    }
    assert(out.data =~= m.data);
}

/// Finds the source place of one target place.
fn nearest(i: usize, target: usize, source: usize) -> (r: usize)
    requires
        i < target,
        0 < source,
    ensures
        r == source_index(i as int, target as int, source as int),
        r < source,
{
    proof {
        lemma_source_index_bounds(i as int, target as int, source as int);
        assert(0 <= i * source <= usize::MAX * usize::MAX) by (nonlinear_arith)
            requires
                0 <= i <= usize::MAX,
                0 <= source <= usize::MAX,
        ;
        assert(usize::MAX * usize::MAX <= 0xffff_ffff_ffff_ffff * 0xffff_ffff_ffff_ffff)
            by (nonlinear_arith)
            requires
                0 <= usize::MAX <= 0xffff_ffff_ffff_ffff,
        ;
    }
    let scaled: u128 = ((i as u128) * (source as u128)) / (target as u128);
    let found: usize = scaled as usize;
    if found > source - 1 {
        source - 1
    } else {
        found
    }
}

/// Resamples a heat matrix to `target_height x target_width`. The result
/// is a new matrix, also where the dimensions do not change. A source
/// without cells can only be resampled to a target without cells.
pub fn resize_heatmap(data: &HeatmapMatrix, target_width: usize, target_height: usize) -> (r:
    HeatmapMatrix)
    requires
        allocatable(target_height as int, target_width as int),
        target_width > 0 && target_height > 0 ==> data@.rows > 0 && data@.cols > 0,
    ensures
        r@ == resized(data@, target_width as nat, target_height as nat),
{
    let (src_height, src_width) = data.dim();
    let mut out = HeatmapMatrix::zeros(target_height, target_width);
    let ghost want = resized(data@, target_width as nat, target_height as nat);
    let mut row: usize = 0;
    while row < target_height
        invariant
            row <= target_height,
            src_height == data@.rows,
            src_width == data@.cols,
            data@.wf(),
            target_width > 0 && target_height > 0 ==> src_height > 0 && src_width > 0,
            want == resized(data@, target_width as nat, target_height as nat),
            out@.rows == target_height,
            out@.cols == target_width,
            out@.data.len() == target_height * target_width,
            forall|k: int| 0 <= k < row * target_width ==> out@.data[k] == want.data[k],
        decreases target_height - row,
    {
        let mut col: usize = 0;
        while col < target_width
            invariant
                col <= target_width,
                row < target_height,
                src_height == data@.rows,
                src_width == data@.cols,
                data@.wf(),
                target_width > 0 && target_height > 0 ==> src_height > 0 && src_width > 0,
                want == resized(data@, target_width as nat, target_height as nat),
                out@.rows == target_height,
                out@.cols == target_width,
                out@.data.len() == target_height * target_width,
                forall|k: int| 0 <= k < row * target_width + col ==> out@.data[k] == want.data[k],
            decreases target_width - col,
        {
            let src_row: usize = nearest(row, target_height, src_height);
            let src_col: usize = nearest(col, target_width, src_width);
            let value: i32 = data.at(src_row, src_col);
            let ghost k = row * target_width + col;
            proof {
                assert(0 <= k < target_height * target_width) by (nonlinear_arith)
                    requires
                        k == row * target_width + col,
                        0 <= row < target_height,
                        0 <= col < target_width,
                ;
                lemma_fundamental_div_mod_converse(
                    k,
                    target_width as int,
                    row as int,
                    col as int,
                );
                assert(want.data[k] == value);
            }
            out.put(row, col, value);
            col += 1;
        }
        proof {
            assert(row * target_width + target_width == (row + 1) * target_width)
                by (nonlinear_arith);
        }
        row += 1;
    }
    assert(out@.data =~= want.data);
    out
}

} // verus!
