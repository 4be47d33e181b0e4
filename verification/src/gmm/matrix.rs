//! Matrices of single-precision bits.

use vstd::prelude::*;

use crate::table::{grid, grid_of, rows_of};

verus! {

/// A matrix, row after row.
#[derive(Debug)]
pub struct Matrix {
    pub cols: usize,
    pub rows: Vec<Vec<u32>>,
}

/// What a matrix is.
#[verifier::ext_equal]
pub struct MatrixView {
    pub cols: int,
    pub rows: Seq<Seq<u32>>,
}

impl View for Matrix {
    type V = MatrixView;

    open spec fn view(&self) -> MatrixView {
        MatrixView {
            cols: self.cols as int,
            rows: Seq::new(self.rows@.len(), |i: int| self.rows@[i]@),
        }
    }
}

impl MatrixView {
    /// Every row has as many entries as there are columns.
    pub open spec fn wf(self) -> bool {
        forall|i: int| 0 <= i < self.rows.len() ==> (#[trigger] self.rows[i]).len() == self.cols
    }
}

/// The matrix of `rows` rows and `cols` columns whose data follow each other row after row.
pub open spec fn unflattened(rows: int, cols: int, data: Seq<u32>) -> MatrixView {
    MatrixView {
        cols,
        rows: Seq::new(rows as nat, |i: int| data.subrange(i * cols, (i + 1) * cols)),
    }
}

impl Matrix {
    /// A matrix from its data, row after row.
    pub fn from_data(rows: usize, cols: usize, data: &Vec<u32>) -> (r: Self)
        requires
            data@.len() == rows * cols,
        ensures
            r@ == unflattened(rows as int, cols as int, data@),
            r@.wf(),
            r.cols == cols,
            r.rows@.len() == rows,
    {
        let mut out: Vec<Vec<u32>> = Vec::new();
        let total: usize = data.len();
        let mut start: usize = 0;
        let mut i: usize = 0;
        proof {
            assert(0 * cols == 0) by (nonlinear_arith);
        }
        while i < rows
            invariant
                i <= rows,
                total == data@.len(),
                data@.len() == rows * cols,
                start == i * cols,
                out@.len() == i,
                forall|k: int|
                    0 <= k < i ==> (#[trigger] out@[k])@ == data@.subrange(k * cols, (k + 1) * cols)
                        && out@[k]@.len() == cols,
            decreases rows - i,
        {
            proof {
                assert((i + 1) * cols == i * cols + cols) by (nonlinear_arith);
                assert((i + 1) * cols <= rows * cols) by (nonlinear_arith)
                    requires
                        i + 1 <= rows,
                ;
            }
            let mut row: Vec<u32> = Vec::new();
            let mut j: usize = 0;
            while j < cols
                invariant
                    j <= cols,
                    start + cols <= total,
                    total == data@.len(),
                    row@ == data@.subrange(start as int, start + j),
                decreases cols - j,
            {
                row.push(data[start + j]);
                assert(row@ =~= data@.subrange(start as int, start + j + 1));
                j += 1;
            }
            out.push(row);
            start += cols;
            i += 1;
        }
        let m = Matrix { cols, rows: out };
        proof {
            let want = unflattened(rows as int, cols as int, data@);
            assert(m@.rows =~= want.rows) by {
                assert forall|k: int| 0 <= k < rows implies m@.rows[k] == want.rows[k] by {
                    assert(out@[k]@ == data@.subrange(k * cols, (k + 1) * cols));
                }
            }
        }
        m
    }

    pub fn nrows(&self) -> (r: usize)
        ensures
            r == self@.rows.len(),
    {
        self.rows.len()
    }

    pub fn ncols(&self) -> (r: usize)
        ensures
            r == self@.cols,
    {
        self.cols
    }
}

/// The matrix whose entry in row `i` and column `j` is `entry(i, j)`.
pub open spec fn tabulated(rows: int, cols: int, entry: spec_fn(int, int) -> u32) -> MatrixView {
    MatrixView {
        cols,
        rows: grid(rows, cols, entry),
    }
}

impl Clone for Matrix {
    fn clone(&self) -> (r: Self)
        ensures
            r@ == self@,
    {
        let mut rows: Vec<Vec<u32>> = Vec::new();
        let mut i: usize = 0;
        while i < self.rows.len()
            invariant
                i <= self.rows@.len(),
                rows@.len() == i,
                forall|k: int| 0 <= k < i ==> (#[trigger] rows@[k])@ == self.rows@[k]@,
            decreases self.rows.len() - i,
        {
            rows.push(self.rows[i].clone());
            i += 1;
        }
        let m = Matrix { cols: self.cols, rows };
        assert(m@.rows =~= self@.rows);
        m
    }
}

impl Matrix {
    /// The entry in row `i` and column `j`.
    pub fn at(&self, i: usize, j: usize) -> (r: u32)
        requires
            i < self@.rows.len(),
            j < self@.rows[i as int].len(),
        ensures
            r == self@.rows[i as int][j as int],
    {
        assert(self@.rows[i as int] == self.rows@[i as int]@);
        self.rows[i][j]
    }

    /// A matrix from a function of its rows and columns.
    pub(crate) fn tabulate<E: Fn(usize, usize) -> u32>(
        rows: usize,
        cols: usize,
        entry: &E,
        Ghost(want): Ghost<spec_fn(int, int) -> u32>,
    ) -> (r: Self)
        requires
            forall|i: usize, j: usize|
                i < rows && j < cols ==> #[trigger] call_requires(*entry, (i, j)),
            forall|i: usize, j: usize, v: u32|
                i < rows && j < cols && #[trigger] call_ensures(*entry, (i, j), v) ==> v == want(
                    i as int,
                    j as int,
                ),
        ensures
            r@ == tabulated(rows as int, cols as int, want),
            r@.wf(),
    {
        let m = Matrix { cols, rows: grid_of(rows, cols, entry, Ghost(want)) };
        assert(m@.rows =~= rows_of(m.rows@));
        m
    }
}

} // verus!
