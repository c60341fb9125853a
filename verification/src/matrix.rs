//! The heat matrix: a dense grid of samples held in an `ndarray` array.
//!
//! Verus does not look inside the array. What it knows of a matrix is its
//! view, and what the functions marked `external_body` below state about
//! the `ndarray` calls they make.

use vstd::prelude::*;
use crate::ieee::{bits_cell, bits_of_cell, cell_bits, cell_of_bits};

verus! {

/// A dense `rows x cols` grid of cells of 32 bits, row by row. A cell of a
/// matrix that was read holds the bit pattern of a single-precision
/// number; a cell of a normalized matrix holds a sample.
#[verifier::external_body]
pub struct HeatmapMatrix {
    cells: ndarray::Array2<i32>,
}

/// `ndarray::ShapeError`, the error of `from_shape_vec`. Nothing is known
/// of its contents.
#[verifier::external_type_specification]
#[verifier::external_body]
pub struct ExShapeError(ndarray::ShapeError);

/// The samples of a matrix in row-major order.
pub uninterp spec fn matrix_data(m: HeatmapMatrix) -> Seq<i32>;

/// The number of rows and the number of columns of a matrix.
pub uninterp spec fn matrix_shape(m: HeatmapMatrix) -> (nat, nat);

/// What a matrix is: its two dimensions and its samples, row by row.
pub struct MatrixView {
    pub rows: nat,
    pub cols: nat,
    pub data: Seq<i32>,
}

impl MatrixView {
    /// The sample in row `r` and column `c`.
    pub open spec fn cell(self, r: int, c: int) -> i32 {
        self.data[r * self.cols + c]
    }

    /// There is one sample for every pair of a row and a column.
    pub open spec fn wf(self) -> bool {
        self.data.len() == self.rows * self.cols
    }
}

impl View for HeatmapMatrix {
    type V = MatrixView;

    open spec fn view(&self) -> MatrixView {
        MatrixView {
            rows: matrix_shape(*self).0,
            cols: matrix_shape(*self).1,
            data: matrix_data(*self),
        }
    }
}

/// The product of the two lengths, a length of zero counted as one.
pub open spec fn nonzero_product(rows: int, cols: int) -> int {
    (if rows == 0 { 1 } else { rows }) * (if cols == 0 { 1 } else { cols })
}

/// Whether a grid of `rows x cols` cells of four bytes can be held in
/// memory at all. This holds of the dimensions of every matrix.
pub open spec fn allocatable(rows: int, cols: int) -> bool {
    &&& nonzero_product(rows, cols) <= isize::MAX
    &&& 4 * (rows * cols) <= isize::MAX
}

impl HeatmapMatrix {
    /// `ndarray::Array2::from_shape_vec` with the shape `(rows, cols)`:
    /// succeeds exactly when the vector has `rows * cols` elements and the
    /// product of the lengths that are not zero does not exceed
    /// `isize::MAX`; the matrix then holds the vector's elements row by row.
    #[verifier::external_body]
    pub(crate) fn from_shape_vec(rows: usize, cols: usize, data: Vec<i32>) -> (r: Result<
        HeatmapMatrix,
        ndarray::ShapeError,
    >)
        ensures
            r is Ok <==> (rows * cols == data@.len() && nonzero_product(rows as int, cols as int)
                <= isize::MAX),
            r matches Ok(m) ==> matrix_shape(m) == (rows as nat, cols as nat) && matrix_data(m)
                == data@,
    {
        ndarray::Array2::from_shape_vec((rows, cols), data).map(|cells| HeatmapMatrix { cells })
    }

    /// `ndarray::ArrayBase::dim`: the two lengths. Every array holds one
    /// element per index, the product of its lengths that are not zero does
    /// not exceed `isize::MAX`, and its elements, of four bytes each, take
    /// no more than `isize::MAX` bytes, as every allocation does.
    #[verifier::external_body]
    pub(crate) fn dim(&self) -> (r: (usize, usize))
        ensures
            (r.0 as nat, r.1 as nat) == matrix_shape(*self),
            matrix_data(*self).len() == r.0 * r.1,
            nonzero_product(r.0 as int, r.1 as int) <= isize::MAX,
            4 * (r.0 * r.1) <= isize::MAX,
    {
        self.cells.dim()
    }

    /// Indexing an `ndarray` array by `[[row, col]]`: the element at that
    /// place. The index must lie inside the array.
    #[verifier::external_body]
    pub(crate) fn at(&self, row: usize, col: usize) -> (r: i32)
        requires
            row < matrix_shape(*self).0,
            col < matrix_shape(*self).1,
        ensures
            r == matrix_data(*self)[row * matrix_shape(*self).1 + col],
    {
        self.cells[[row, col]]
    }

    /// `ndarray::ArrayBase::iter`, collected: the elements in row-major
    /// order.
    #[verifier::external_body]
    pub(crate) fn to_vec(&self) -> (r: Vec<i32>)
        ensures
            r@ == matrix_data(*self),
    {
        self.cells.iter().cloned().collect()
    }

    /// `Clone::clone` of the array: an array of the same shape with the
    /// same elements.
    #[verifier::external_body]
    pub(crate) fn duplicate(&self) -> (r: HeatmapMatrix)
        ensures
            matrix_shape(r) == matrix_shape(*self),
            matrix_data(r) == matrix_data(*self),
    {
        HeatmapMatrix { cells: self.cells.clone() }
    }

    /// `ndarray::Array2::zeros` with the shape `(rows, cols)`: an array of
    /// that shape filled with zero. The grid must be one that can be
    /// allocated.
    #[verifier::external_body]
    pub(crate) fn zeros(rows: usize, cols: usize) -> (r: HeatmapMatrix)
        requires
            allocatable(rows as int, cols as int),
        ensures
            matrix_shape(r) == (rows as nat, cols as nat),
            matrix_data(r) == Seq::new((rows * cols) as nat, |i: int| 0i32),
    {
        HeatmapMatrix { cells: ndarray::Array2::zeros((rows, cols)) }
    }

    /// Assigning to an `ndarray` array at `[[row, col]]`: that element is
    /// replaced, all others and the shape stay. The index must lie inside
    /// the array.
    #[verifier::external_body]
    pub(crate) fn put(&mut self, row: usize, col: usize, value: i32)
        requires
            row < matrix_shape(*old(self)).0,
            col < matrix_shape(*old(self)).1,
        ensures
            matrix_shape(*final(self)) == matrix_shape(*old(self)),
            matrix_data(*final(self)) == matrix_data(*old(self)).update(
                row * matrix_shape(*old(self)).1 + col,
                value,
            ),
    {
        self.cells[[row, col]] = value;
    }
}

impl HeatmapMatrix {
    /// Makes a matrix of `rows x cols` samples from the samples row by
    /// row. Fails where their number is not `rows * cols`, and where no
    /// grid can have these dimensions.
    pub fn from_vec(rows: usize, cols: usize, data: Vec<i32>) -> (r: Option<HeatmapMatrix>)
        ensures
            r is Some <==> (rows * cols == data@.len() && nonzero_product(rows as int, cols as int)
                <= isize::MAX),
            r matches Some(m) ==> m@.wf() && m@ == (MatrixView {
                rows: rows as nat,
                cols: cols as nat,
                data: data@,
            }),
    {
        match HeatmapMatrix::from_shape_vec(rows, cols, data) {
            Ok(m) => Some(m),
            Err(_) => None,
        }
    }

    /// The number of rows.
    pub fn nrows(&self) -> (r: usize)
        ensures
            r == self@.rows,
            self@.wf(),
            allocatable(self@.rows as int, self@.cols as int),
    {
        self.dim().0
    }

    /// The number of columns.
    pub fn ncols(&self) -> (r: usize)
        ensures
            r == self@.cols,
            self@.wf(),
            allocatable(self@.rows as int, self@.cols as int),
    {
        self.dim().1
    }

    /// The sample in the given row and column, if there is one.
    pub fn get(&self, row: usize, col: usize) -> (r: Option<i32>)
        ensures
            r == if row < self@.rows && col < self@.cols {
                Some(self@.cell(row as int, col as int))
            } else {
                None
            },
    {
        let (rows, cols) = self.dim();
        if row < rows && col < cols {
            Some(self.at(row, col))
        } else {
            None
        }
    }

    /// The samples, row by row.
    pub fn samples(&self) -> (r: Vec<i32>)
        ensures
            r@ == self@.data,
    {
        self.to_vec()
    }
}

impl HeatmapMatrix {
    /// Makes a matrix of `rows x cols` single-precision numbers from their
    /// bit patterns row by row. Fails as `from_vec` does.
    pub fn from_bit_patterns(rows: usize, cols: usize, bits: Vec<u32>) -> (r: Option<
        HeatmapMatrix,
    >)
        ensures
            r is Some <==> (rows * cols == bits@.len() && nonzero_product(rows as int, cols as int)
                <= isize::MAX),
            r matches Some(m) ==> m@.wf() && m@.rows == rows && m@.cols == cols && m@.data
                == Seq::new(bits@.len(), |i: int| bits_cell(bits@[i])),
    {
        let mut cells: Vec<i32> = Vec::new();
        let mut i: usize = 0;
        while i < bits.len()
            invariant
                i <= bits@.len(),
                cells@.len() == i,
                forall|k: int| 0 <= k < i ==> #[trigger] cells@[k] == bits_cell(bits@[k]),
            decreases bits@.len() - i,
        {
            cells.push(cell_of_bits(bits[i]));
            i += 1;
        }
        assert(cells@ =~= Seq::new(bits@.len(), |i: int| bits_cell(bits@[i])));
        HeatmapMatrix::from_vec(rows, cols, cells)
    }

    /// The bit patterns that the cells hold, row by row.
    pub fn bit_patterns(&self) -> (r: Vec<u32>)
        ensures
            r@ == Seq::new(self@.data.len(), |i: int| cell_bits(self@.data[i])),
    {
        let cells: Vec<i32> = self.to_vec();
        let mut bits: Vec<u32> = Vec::new();
        let mut i: usize = 0;
        while i < cells.len()
            invariant
                i <= cells@.len(),
                cells@ == self@.data,
                bits@.len() == i,
                forall|k: int| 0 <= k < i ==> #[trigger] bits@[k] == cell_bits(cells@[k]),
            decreases cells@.len() - i,
        {
            bits.push(bits_of_cell(cells[i]));
            i += 1;
        }
        assert(bits@ =~= Seq::new(self@.data.len(), |i: int| cell_bits(self@.data[i])));
        bits
    }
}

} // verus!
