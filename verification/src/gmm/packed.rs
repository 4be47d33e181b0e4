//! All components of a model in one matrix.
//!
//! A component is a row of its constant, its means over the variances, and minus half its inverse
//! variances. The inner product with the row of a frame, which holds one, the frame and its squares,
//! is then the log-likelihood of the frame.

use vstd::prelude::*;

use crate::float::{eval, is_evaluator, value, FloatOp, ONE};
use crate::gmm::am::{all_wf, dim_of, gauss_count, AmDiagGmm};
use crate::gmm::diag::GmmView;
use crate::gmm::matrix::Matrix;
use crate::table::rows_of;
use crate::types::PdfId;

verus! {

/// Single-precision -0.5.
pub const SINGLE_MINUS_HALF: u32 = 0xbf00_0000;

/// The components of all mixtures, one row each; those of mixture `p` are the rows from
/// `offsets[p]` to `offsets[p + 1]`, the end excluded.
#[derive(Debug)]
pub struct PackedGmm {
    pub rows: Matrix,
    pub offsets: Vec<u32>,
}

/// The row of component `c` of a mixture.
pub open spec fn packed_row<F: Fn(FloatOp) -> u64>(m: GmmView, c: int, dim: int, f: F) -> Seq<u32> {
    seq![m.gconsts[c]] + m.means_invvars.rows[c] + Seq::new(
        dim as nat,
        |d: int| value(f, FloatOp::Mul(SINGLE_MINUS_HALF, m.inv_vars.rows[c][d])),
    )
}

/// The rows of the first `n` components of a mixture.
pub open spec fn mixture_rows<F: Fn(FloatOp) -> u64>(m: GmmView, n: int, dim: int, f: F) -> Seq<
    Seq<u32>,
> {
    Seq::new(n as nat, |c: int| packed_row(m, c, dim, f))
}

/// The rows of the first `n` mixtures.
pub open spec fn packed_rows<F: Fn(FloatOp) -> u64>(am: Seq<GmmView>, n: int, f: F) -> Seq<Seq<u32>>
    decreases n,
{
    if n <= 0 {
        seq![]
    } else {
        packed_rows(am, n - 1, f) + mixture_rows(
            am[n - 1],
            am[n - 1].weights.len() as int,
            dim_of(am),
            f,
        )
    }
}

/// The mixtures have a constant for every component, and all the same dimension.
pub open spec fn can_pack(am: Seq<GmmView>) -> bool {
    &&& all_wf(am)
    &&& forall|i: int|
        0 <= i < am.len() ==> (#[trigger] am[i]).gconsts.len() == am[i].weights.len()
            && am[i].inv_vars.cols == dim_of(am)
    &&& gauss_count(am, am.len() as int) <= u32::MAX
    &&& 1 + 2 * dim_of(am) <= usize::MAX
}

/// The rows before mixture `n` are as many as the components.
pub proof fn packed_rows_count<F: Fn(FloatOp) -> u64>(am: Seq<GmmView>, n: int, f: F)
    requires
        0 <= n <= am.len(),
    ensures
        packed_rows(am, n, f).len() == gauss_count(am, n),
    decreases n,
{
    if n > 0 {
        packed_rows_count(am, n - 1, f);
    }
}

/// The rows of mixture `p` are those of its components.
pub proof fn range_holds_the_mixture<F: Fn(FloatOp) -> u64>(am: Seq<GmmView>, p: int, c: int, f: F)
    requires
        0 <= p < am.len(),
        0 <= c < am[p].weights.len(),
    ensures
        packed_rows(am, am.len() as int, f)[gauss_count(am, p) + c] == packed_row(
            am[p],
            c,
            dim_of(am),
            f,
        ),
        gauss_count(am, p) + c < gauss_count(am, p + 1) <= packed_rows(am, am.len() as int, f).len(),
{
    packed_rows_count(am, p, f);
    packed_rows_count(am, p + 1, f);
    row_stays(am, p + 1, am.len() as int, gauss_count(am, p) + c, f);
}

proof fn row_stays<F: Fn(FloatOp) -> u64>(am: Seq<GmmView>, a: int, b: int, r: int, f: F)
    requires
        0 <= a <= b <= am.len(),
        0 <= r < packed_rows(am, a, f).len(),
    ensures
        packed_rows(am, b, f).len() >= packed_rows(am, a, f).len(),
        packed_rows(am, b, f)[r] == packed_rows(am, a, f)[r],
    decreases b,
{
    if a < b {
        row_stays(am, a, b - 1, r, f);
    }
}

pub(crate) fn pack_row<F: Fn(FloatOp) -> u64>(gconst: u32, mi: &Vec<u32>, iv: &Vec<u32>, f: &F) -> (r: Vec<u32>)
    requires
        is_evaluator(*f),
    ensures
        r@ == seq![gconst] + mi@ + Seq::new(
            iv@.len(),
            |d: int| value(*f, FloatOp::Mul(SINGLE_MINUS_HALF, iv@[d])),
        ),
{
    let mut row: Vec<u32> = Vec::new();
    row.push(gconst);
    row.extend_from_slice(mi.as_slice());
    let ghost head = seq![gconst] + mi@;
    assert(row@ =~= head);
    let mut d: usize = 0;
    while d < iv.len()
        invariant
            is_evaluator(*f),
            d <= iv@.len(),
            row@ == head + Seq::new(
                d as nat,
                |d: int| value(*f, FloatOp::Mul(SINGLE_MINUS_HALF, iv@[d])),
            ),
        decreases iv.len() - d,
    {
        row.push(eval(f, FloatOp::Mul(SINGLE_MINUS_HALF, iv[d])));
        assert(row@ =~= head + Seq::new(
            (d + 1) as nat,
            |d: int| value(*f, FloatOp::Mul(SINGLE_MINUS_HALF, iv@[d])),
        ));
        d += 1;
    }
    row
}

impl AmDiagGmm {
    /// All components in one matrix.
    pub fn packed<F: Fn(FloatOp) -> u64>(&self, f: &F) -> (r: PackedGmm)
        requires
            is_evaluator(*f),
            can_pack(self@),
        ensures
            r.rows@.cols == 1 + 2 * dim_of(self@),
            r.rows@.rows == packed_rows(self@, self@.len() as int, *f),
            r.rows@.wf(),
            r.offsets@ == Seq::new(self@.len() + 1, |p: int| gauss_count(self@, p) as u32),
    {
        let ghost am = self@;
        let n: usize = self.pdfs.len();
        let dim: usize = self.dim();
        let cols: usize = 1 + 2 * dim;
        let mut rows: Vec<Vec<u32>> = Vec::new();
        let mut offsets: Vec<u32> = Vec::new();
        offsets.push(0);
        assert(rows_of(rows@) =~= packed_rows(am, 0, *f));
        assert(offsets@ =~= Seq::new(1, |p: int| gauss_count(am, p) as u32));
        let mut i: usize = 0;
        while i < n
            invariant
                is_evaluator(*f),
                am == self@,
                can_pack(am),
                n == am.len(),
                n == self.pdfs@.len(),
                dim == dim_of(am),
                cols == 1 + 2 * dim,
                i <= n,
                rows_of(rows@) == packed_rows(am, i as int, *f),
                offsets@ == Seq::new((i + 1) as nat, |p: int| gauss_count(am, p) as u32),
                forall|k: int| 0 <= k < rows@.len() ==> (#[trigger] rows@[k])@.len() == cols,
            decreases n - i,
        {
            let m = &self.pdfs[i];
            let count: usize = m.num_gauss();
            let ghost before = rows_of(rows@);
            proof {
                assert(am[i as int] == m@);
            }
            let mut c: usize = 0;
            assert(before + mixture_rows(m@, 0, dim as int, *f) =~= before);
            while c < count
                invariant
                    is_evaluator(*f),
                    m@.wf(),
                    m@.gconsts.len() == count,
                    count == m@.weights.len(),
                    m@.inv_vars.cols == dim,
                    cols == 1 + 2 * dim,
                    c <= count,
                    rows_of(rows@) == before + mixture_rows(m@, c as int, dim as int, *f),
                    forall|k: int| 0 <= k < rows@.len() ==> (#[trigger] rows@[k])@.len() == cols,
                decreases count - c,
            {
                proof {
                    assert(m@.means_invvars.rows[c as int] == m.means_invvars.rows@[c as int]@);
                    assert(m@.inv_vars.rows[c as int] == m.inv_vars.rows@[c as int]@);
                }
                let row = pack_row(
                    m.gconsts[c],
                    &m.means_invvars.rows[c],
                    &m.inv_vars.rows[c],
                    f,
                );
                let ghost sofar = rows_of(rows@);
                rows.push(row);
                proof {
                    assert(row@ =~= packed_row(m@, c as int, dim as int, *f));
                    assert(rows_of(rows@) =~= sofar.push(row@));
                    assert(rows_of(rows@) =~= before + mixture_rows(m@, c + 1, dim as int, *f));
                }
                c += 1;
            }
            proof {
                packed_rows_count(am, i + 1, *f);
                count_grows(am, i + 1, n as int);
            }
            let total: usize = rows.len();
            offsets.push(total as u32);
            assert(offsets@ =~= Seq::new((i + 2) as nat, |p: int| gauss_count(am, p) as u32));
            i += 1;
        }
        let packed = Matrix { cols, rows };
        assert(packed@.rows =~= rows_of(packed.rows@));
        PackedGmm { rows: packed, offsets }
    }
}

proof fn count_grows(am: Seq<GmmView>, a: int, b: int)
    requires
        0 <= a <= b,
    ensures
        gauss_count(am, a) <= gauss_count(am, b),
    decreases b,
{
    if a < b {
        count_grows(am, a, b - 1);
    }
}

impl PackedGmm {
    pub fn num_pdfs(&self) -> (r: usize)
        ensures
            r == (if self.offsets@.len() > 0 {
                self.offsets@.len() - 1
            } else {
                0
            }),
    {
        if self.offsets.len() > 0 {
            self.offsets.len() - 1
        } else {
            0
        }
    }

    /// The rows of a mixture, the end excluded.
    pub fn pdf_range(&self, p: PdfId) -> (r: (usize, usize))
        requires
            p + 1 < self.offsets@.len(),
        ensures
            r.0 == self.offsets@[p as int],
            r.1 == self.offsets@[p + 1],
    {
        let n: usize = self.offsets.len();
        assert(p + 1 < n);
        let i: usize = p as usize;
        (self.offsets[i] as usize, self.offsets[i + 1] as usize)
    }

    /// The row of a frame: one, the frame, and its squares.
    pub fn frame_row<F: Fn(FloatOp) -> u64>(x: &[u32], f: &F) -> (r: Vec<u32>)
        requires
            is_evaluator(*f),
        ensures
            r@ == seq![ONE] + x@ + Seq::new(
                x@.len(),
                |d: int| value(*f, FloatOp::Mul(x@[d], x@[d])),
            ),
    {
        let mut row: Vec<u32> = Vec::new();
        row.push(ONE);
        row.extend_from_slice(x);
        let ghost head = seq![ONE] + x@;
        assert(row@ =~= head);
        let mut d: usize = 0;
        while d < x.len()
            invariant
                is_evaluator(*f),
                d <= x@.len(),
                row@ == head + Seq::new(
                    d as nat,
                    |d: int| value(*f, FloatOp::Mul(x@[d], x@[d])),
                ),
            decreases x.len() - d,
        {
            row.push(eval(f, FloatOp::Mul(x[d], x[d])));
            assert(row@ =~= head + Seq::new(
                (d + 1) as nat,
                |d: int| value(*f, FloatOp::Mul(x@[d], x@[d])),
            ));
            d += 1;
        }
        row
    }
}

} // verus!
