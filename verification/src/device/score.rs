//! Scoring frames against mixtures.
//!
//! A component's log-likelihood is the product of the expanded frame `[1, x, x * x]` with the packed
//! row of the component, so that all of them are one matrix product. The product itself is the
//! caller's: it is handed to the functions here as a function on single-precision bits.

use vstd::prelude::*;
use vstd::slice::slice_subrange;

use crate::float::{
    eval, is_evaluator, is_finite, is_finite_bits, value, FloatOp, NEG_INFINITY, ONE, ZERO,
};
use crate::gmm::diag::{DiagGmm, GmmView};
use crate::gmm::matrix::{tabulated, unflattened, Matrix, MatrixView};
use crate::gmm::mixing::{find_largest, largest};
use crate::gmm::packed::{mixture_rows, pack_row, packed_row, PackedGmm};
use crate::types::PdfId;

verus! {

/// Rows one after the other.
pub open spec fn flat(rows: Seq<Seq<u32>>) -> Seq<u32>
    decreases rows.len(),
{
    if rows.len() == 0 {
        seq![]
    } else {
        flat(rows.drop_last()) + rows.last()
    }
}

pub(crate) proof fn flat_push(rows: Seq<Seq<u32>>, row: Seq<u32>)
    ensures
        flat(rows.push(row)) == flat(rows) + row,
{
    assert(rows.push(row).drop_last() =~= rows);
}

pub(crate) proof fn flat_len(rows: Seq<Seq<u32>>, width: int)
    requires
        forall|i: int| 0 <= i < rows.len() ==> (#[trigger] rows[i]).len() == width,
    ensures
        flat(rows).len() == rows.len() * width,
    decreases rows.len(),
{
    if rows.len() == 0 {
        assert(0 * width == 0) by (nonlinear_arith);
    } else {
        assert forall|i: int| 0 <= i < rows.drop_last().len() implies (
        #[trigger] rows.drop_last()[i]).len() == width by {
            assert(rows.drop_last()[i] == rows[i]);
        }
        flat_len(rows.drop_last(), width);
        let n = rows.len() as int;
        assert(n * width == (n - 1) * width + width) by (nonlinear_arith);
    }
}

/// The row of a frame: one, the frame, and its squares.
pub open spec fn expanded_row<F: Fn(FloatOp) -> u64>(x: Seq<u32>, f: F) -> Seq<u32> {
    seq![ONE] + x + Seq::new(x.len(), |d: int| value(f, FloatOp::Mul(x[d], x[d])))
}

/// The rows of all frames.
pub open spec fn expanded_rows<F: Fn(FloatOp) -> u64>(m: MatrixView, f: F) -> Seq<Seq<u32>> {
    Seq::new(m.rows.len(), |t: int| expanded_row(m.rows[t], f))
}

/// Expand all frames, one row after the other.
pub fn expand_feats<F: Fn(FloatOp) -> u64>(feats: &Matrix, f: &F) -> (r: Vec<u32>)
    requires
        is_evaluator(*f),
    ensures
        r@ == flat(expanded_rows(feats@, *f)),
{
    let ghost rows = expanded_rows(feats@, *f);
    let mut out: Vec<u32> = Vec::new();
    let mut t: usize = 0;
    assert(rows.take(0) =~= seq![]);
    while t < feats.rows.len()
        invariant
            is_evaluator(*f),
            rows == expanded_rows(feats@, *f),
            t <= feats.rows@.len(),
            out@ == flat(rows.take(t as int)),
        decreases feats.rows.len() - t,
    {
        let row = PackedGmm::frame_row(feats.rows[t].as_slice(), f);
        proof {
            assert(feats@.rows[t as int] == feats.rows@[t as int]@);
            assert(row@ == rows[t as int]);
            flat_push(rows.take(t as int), row@);
            assert(rows.take(t + 1) =~= rows.take(t as int).push(row@));
        }
        out.extend_from_slice(row.as_slice());
        t += 1;
    }
    assert(rows.take(t as int) =~= rows);
    out
}

/// The packed rows of the first `n` of the pdfs.
pub open spec fn gathered(rows: Seq<Seq<u32>>, offsets: Seq<u32>, pdfs: Seq<u32>, n: int) -> Seq<
    Seq<u32>,
>
    decreases n,
{
    if n <= 0 {
        seq![]
    } else {
        let p = pdfs[n - 1] as int;
        gathered(rows, offsets, pdfs, n - 1) + rows.subrange(
            offsets[p] as int,
            offsets[p + 1] as int,
        )
    }
}

/// The ranges of the pdfs in the gathered rows.
pub open spec fn gathered_bounds(rows: Seq<Seq<u32>>, offsets: Seq<u32>, pdfs: Seq<u32>) -> Seq<
    (u32, u32),
> {
    Seq::new(
        pdfs.len(),
        |j: int|
            (
                gathered(rows, offsets, pdfs, j).len() as u32,
                gathered(rows, offsets, pdfs, j + 1).len() as u32,
            ),
    )
}

/// The offsets are ranges of rows.
pub open spec fn are_offsets(rows: Seq<Seq<u32>>, offsets: Seq<u32>) -> bool {
    forall|p: int|
        0 <= p < offsets.len() - 1 ==> #[trigger] offsets[p] <= offsets[p + 1] <= rows.len()
}

/// The pdfs have offsets, and the rows that they need can be numbered.
pub open spec fn can_gather(rows: Seq<Seq<u32>>, offsets: Seq<u32>, pdfs: Seq<u32>) -> bool {
    &&& are_offsets(rows, offsets)
    &&& forall|j: int| 0 <= j < pdfs.len() ==> #[trigger] pdfs[j] < offsets.len() - 1
    &&& gathered(rows, offsets, pdfs, pdfs.len() as int).len() <= u32::MAX
}

proof fn gathered_grows(rows: Seq<Seq<u32>>, offsets: Seq<u32>, pdfs: Seq<u32>, a: int, b: int)
    requires
        are_offsets(rows, offsets),
        forall|j: int| 0 <= j < pdfs.len() ==> #[trigger] pdfs[j] < offsets.len() - 1,
        0 <= a <= b <= pdfs.len(),
    ensures
        gathered(rows, offsets, pdfs, a).len() <= gathered(rows, offsets, pdfs, b).len(),
    decreases b,
{
    if a < b {
        assert(offsets[pdfs[b - 1] as int] <= offsets[pdfs[b - 1] + 1] <= rows.len());
        gathered_grows(rows, offsets, pdfs, a, b - 1);
    }
}

/// What a gathered row is: one of the packed rows.
proof fn gathered_rows_are_rows(rows: Seq<Seq<u32>>, offsets: Seq<u32>, pdfs: Seq<u32>, n: int, width: int)
    requires
        are_offsets(rows, offsets),
        forall|j: int| 0 <= j < pdfs.len() ==> #[trigger] pdfs[j] < offsets.len() - 1,
        forall|i: int| 0 <= i < rows.len() ==> (#[trigger] rows[i]).len() == width,
        0 <= n <= pdfs.len(),
    ensures
        forall|i: int|
            0 <= i < gathered(rows, offsets, pdfs, n).len() ==> (#[trigger] gathered(
                rows,
                offsets,
                pdfs,
                n,
            )[i]).len() == width,
    decreases n,
{
    if n > 0 {
        gathered_rows_are_rows(rows, offsets, pdfs, n - 1, width);
        let p = pdfs[n - 1];
        assert(p < offsets.len() - 1);
        assert(offsets[p as int] <= offsets[p + 1] <= rows.len());
        let old_rows = gathered(rows, offsets, pdfs, n - 1);
        let all = gathered(rows, offsets, pdfs, n);
        assert forall|i: int| 0 <= i < all.len() implies (#[trigger] all[i]).len() == width by {
            if i < old_rows.len() {
                assert(all[i] == old_rows[i]);
            } else {
                assert(all[i] == rows[offsets[p as int] + i - old_rows.len()]);
            }
        }
    }
}

/// Gather the packed rows of the requested pdfs, one after the other, with the width of a row and
/// the range of every pdf.
pub fn gather_pdfs(packed_rows: &Matrix, offsets: &Vec<u32>, pdfs: &[PdfId]) -> (r: (
    Vec<u32>,
    usize,
    Vec<(u32, u32)>,
))
    requires
        can_gather(packed_rows@.rows, offsets@, pdfs@),
    ensures
        r.0@ == flat(gathered(packed_rows@.rows, offsets@, pdfs@, pdfs@.len() as int)),
        r.1 == packed_rows.cols,
        r.2@ == gathered_bounds(packed_rows@.rows, offsets@, pdfs@),
{
    let ghost rows = packed_rows@.rows;
    let ends: usize = offsets.len();
    let mut out: Vec<u32> = Vec::new();
    let mut bounds: Vec<(u32, u32)> = Vec::new();
    let mut total: u32 = 0;
    let mut j: usize = 0;
    while j < pdfs.len()
        invariant
            rows == packed_rows@.rows,
            ends == offsets@.len(),
            can_gather(rows, offsets@, pdfs@),
            j <= pdfs@.len(),
            out@ == flat(gathered(rows, offsets@, pdfs@, j as int)),
            total == gathered(rows, offsets@, pdfs@, j as int).len(),
            bounds@ == gathered_bounds(rows, offsets@, pdfs@).take(j as int),
        decreases pdfs.len() - j,
    {
        let p: usize = pdfs[j] as usize;
        assert(p + 1 < ends);
        assert(offsets@[p as int] <= offsets@[p as int + 1] <= rows.len());
        let lo: u32 = offsets[p];
        let hi: u32 = offsets[p + 1];
        let ghost before = gathered(rows, offsets@, pdfs@, j as int);
        proof {
            gathered_grows(rows, offsets@, pdfs@, j + 1, pdfs@.len() as int);
            assert(before + rows.subrange(lo as int, lo as int) =~= before);
        }
        let mut k: u32 = lo;
        while k < hi
            invariant
                rows == packed_rows@.rows,
                lo <= k <= hi <= rows.len(),
                out@ == flat(before + rows.subrange(lo as int, k as int)),
            decreases hi - k,
        {
            let row = &packed_rows.rows[k as usize];
            proof {
                assert(rows[k as int] == row@);
                flat_push(before + rows.subrange(lo as int, k as int), row@);
                assert(before + rows.subrange(lo as int, k + 1) =~= (before + rows.subrange(
                    lo as int,
                    k as int,
                )).push(row@));
            }
            out.extend_from_slice(row.as_slice());
            k += 1;
        }
        let end: u32 = total + (hi - lo);
        bounds.push((total, end));
        total = end;
        assert(bounds@ =~= gathered_bounds(rows, offsets@, pdfs@).take(j + 1));
        j += 1;
    }
    assert(bounds@ =~= gathered_bounds(rows, offsets@, pdfs@));
    (out, packed_rows.cols, bounds)
}

/// The sum of the exponentials of the first `n` values, `max` taken out.
pub open spec fn exp_sum<F: Fn(FloatOp) -> u64>(xs: Seq<u32>, n: int, max: u32, f: F) -> u32
    decreases n,
{
    if n <= 0 {
        ZERO
    } else {
        value(
            f,
            FloatOp::Add(
                exp_sum(xs, n - 1, max, f),
                value(f, FloatOp::Exp(value(f, FloatOp::Sub(xs[n - 1], max)))),
            ),
        )
    }
}

/// The logarithm of the sum of the exponentials, in single precision; if the largest value is not
/// finite, that value.
pub open spec fn single_log_sum<F: Fn(FloatOp) -> u64>(xs: Seq<u32>, f: F) -> u32 {
    let n = xs.len() as int;
    let max = largest(xs, n);
    if is_finite_bits(max) {
        value(f, FloatOp::Add(max, value(f, FloatOp::Ln(exp_sum(xs, n, max, f)))))
    } else {
        max
    }
}

/// The logarithm of the sum of the exponentials, negative infinity if there are no values.
pub fn logsumexp<F: Fn(FloatOp) -> u64>(xs: &[u32], f: &F) -> (r: u32)
    requires
        is_evaluator(*f),
    ensures
        r == single_log_sum(xs@, *f),
        xs@.len() == 0 ==> r == NEG_INFINITY,
{
    let max: u32 = find_largest(xs);
    assert(xs@.len() == 0 ==> !is_finite_bits(max));
    if !is_finite(max) {
        return max;
    }
    let mut sum: u32 = ZERO;
    let mut i: usize = 0;
    while i < xs.len()
        invariant
            is_evaluator(*f),
            i <= xs@.len(),
            sum == exp_sum(xs@, i as int, max, *f),
        decreases xs.len() - i,
    {
        sum = eval(f, FloatOp::Add(sum, eval(f, FloatOp::Exp(eval(f, FloatOp::Sub(xs[i], max))))));
        i += 1;
    }
    eval(f, FloatOp::Add(max, eval(f, FloatOp::Ln(sum))))
}

/// The components of frame `t` that belong to the range `b`.
pub open spec fn segment(comp: Seq<u32>, total_gauss: int, t: int, b: (u32, u32)) -> Seq<u32> {
    comp.subrange(t * total_gauss + b.0, t * total_gauss + b.1)
}

/// The log-likelihoods of the pdfs from those of the components.
pub open spec fn segmented<F: Fn(FloatOp) -> u64>(
    comp: Seq<u32>,
    frames: int,
    total_gauss: int,
    bounds: Seq<(u32, u32)>,
    f: F,
) -> MatrixView {
    tabulated(
        frames,
        bounds.len() as int,
        |t: int, j: int| single_log_sum(segment(comp, total_gauss, t, bounds[j]), f),
    )
}

/// Reduce a matrix of component log-likelihoods to one of pdf log-likelihoods: entry `(t, j)` is
/// over the components of frame `t` in range `j`.
pub fn segmented_logsumexp<F: Fn(FloatOp) -> u64>(
    comp: &Vec<u32>,
    frames: usize,
    total_gauss: usize,
    bounds: &Vec<(u32, u32)>,
    f: &F,
) -> (r: Matrix)
    requires
        is_evaluator(*f),
        comp@.len() == frames * total_gauss,
        forall|j: int|
            0 <= j < bounds@.len() ==> (#[trigger] bounds@[j]).0 <= bounds@[j].1 <= total_gauss,
    ensures
        r@ == segmented(comp@, frames as int, total_gauss as int, bounds@, *f),
{
    let fg: Ghost<F> = Ghost(*f);
    let total: usize = comp.len();
    let entry = |t: usize, j: usize| -> (v: u32)
        requires
            t < frames,
            j < bounds@.len(),
        ensures
            v == single_log_sum(segment(comp@, total_gauss as int, t as int, bounds@[j as int]), fg@),
        {
            let b: (u32, u32) = bounds[j];
            proof {
                assert(bounds@[j as int].0 <= bounds@[j as int].1 <= total_gauss);
                assert((t + 1) * total_gauss == t * total_gauss + total_gauss) by (nonlinear_arith);
                assert((t + 1) * total_gauss <= frames * total_gauss) by (nonlinear_arith)
                    requires
                        t + 1 <= frames,
                ;
                assert(0 <= t * total_gauss) by (nonlinear_arith);
            }
            let start: usize = t * total_gauss;
            logsumexp(slice_subrange(comp.as_slice(), start + b.0 as usize, start + b.1 as usize), f)
        };
    Matrix::tabulate(
        frames,
        bounds.len(),
        &entry,
        Ghost(|t: int, j: int| single_log_sum(segment(comp@, total_gauss as int, t, bounds@[j]), *f)),
    )
}

/// The function takes any two row-major matrices, of `m` and `n` rows with `k` columns, and answers
/// with as many values as their product has.
pub open spec fn is_product<G: Fn(Vec<u32>, usize, Vec<u32>, usize, usize) -> Vec<u32>>(
    g: G,
) -> bool {
    &&& forall|a: Vec<u32>, m: usize, b: Vec<u32>, n: usize, k: usize| #[trigger]
        call_requires(g, (a, m, b, n, k))
    &&& forall|a: Vec<u32>, m: usize, b: Vec<u32>, n: usize, k: usize, c: Vec<u32>| #[trigger]
        call_ensures(g, (a, m, b, n, k), c) ==> c@.len() == m * n
}

/// The function can answer `c` for these matrices.
pub open spec fn answers<G: Fn(Vec<u32>, usize, Vec<u32>, usize, usize) -> Vec<u32>>(
    g: G,
    a: Seq<u32>,
    m: int,
    b: Seq<u32>,
    n: int,
    k: int,
    c: Seq<u32>,
) -> bool {
    exists|va: Vec<u32>, vm: usize, vb: Vec<u32>, vn: usize, vk: usize, vc: Vec<u32>|
        va@ == a && vm == m && vb@ == b && vn == n && vk == k && vc@ == c && #[trigger] call_ensures(
            g,
            (va, vm, vb, vn, vk),
            vc,
        )
}

/// The matrix can be the log-likelihoods of the frames under the pdfs: there are no frames or no
/// pdfs, or its entries come from a product of the expanded frames and the gathered rows.
pub open spec fn are_scores<
    F: Fn(FloatOp) -> u64,
    G: Fn(Vec<u32>, usize, Vec<u32>, usize, usize) -> Vec<u32>,
>(r: MatrixView, feats: MatrixView, packed: MatrixView, offsets: Seq<u32>, pdfs: Seq<u32>, f: F, g: G) -> bool {
    let frames = feats.rows.len() as int;
    let rows = gathered(packed.rows, offsets, pdfs, pdfs.len() as int);
    if frames == 0 || pdfs.len() == 0 {
        r == tabulated(frames, pdfs.len() as int, |t: int, j: int| ZERO)
    } else {
        exists|c: Seq<u32>|
            #![trigger segmented(c, frames, rows.len() as int, gathered_bounds(packed.rows, offsets, pdfs), f)]
            answers(
                g,
                flat(expanded_rows(feats, f)),
                frames,
                flat(rows),
                rows.len() as int,
                packed.cols,
                c,
            ) && r == segmented(
                c,
                frames,
                rows.len() as int,
                gathered_bounds(packed.rows, offsets, pdfs),
                f,
            )
    }
}

/// The log-likelihood of every frame under every listed pdf: column `j` is for `pdfs[j]`.
pub fn score_cpu<
    F: Fn(FloatOp) -> u64,
    G: Fn(Vec<u32>, usize, Vec<u32>, usize, usize) -> Vec<u32>,
>(feats: &Matrix, packed: &PackedGmm, pdfs: &[PdfId], f: &F, gemm: &G) -> (r: Matrix)
    requires
        is_evaluator(*f),
        is_product(*gemm),
        packed.rows@.wf(),
        packed.rows.cols > 0,
        can_gather(packed.rows@.rows, packed.offsets@, pdfs@),
    ensures
        are_scores(r@, feats@, packed.rows@, packed.offsets@, pdfs@, *f, *gemm),
{
    let frames: usize = feats.rows.len();
    let (rows, width, bounds) = gather_pdfs(&packed.rows, &packed.offsets, pdfs);
    let ghost all = gathered(packed.rows@.rows, packed.offsets@, pdfs@, pdfs@.len() as int);
    proof {
        gathered_rows_are_rows(
            packed.rows@.rows,
            packed.offsets@,
            pdfs@,
            pdfs@.len() as int,
            width as int,
        );
        flat_len(all, width as int);
        let (n, w) = (all.len() as int, width as int);
        assert((n * w) / w == n) by (nonlinear_arith)
            requires
                w > 0,
        ;
    }
    let total_gauss: usize = rows.len() / width;
    if frames == 0 || pdfs.len() == 0 {
        let zero = |t: usize, j: usize| -> (v: u32)
            ensures
                v == ZERO,
            { ZERO };
        return Matrix::tabulate(frames, pdfs.len(), &zero, Ghost(|t: int, j: int| ZERO));
    }
    let a = expand_feats(feats, f);
    let ghost (va, vb) = (a, rows);
    let comp = gemm(a, frames, rows, total_gauss, width);
    proof {
        assert(call_ensures(*gemm, (va, frames, vb, total_gauss, width), comp));
        assert(answers(
            *gemm,
            flat(expanded_rows(feats@, *f)),
            frames as int,
            flat(all),
            all.len() as int,
            width as int,
            comp@,
        ));
        assert forall|j: int| 0 <= j < bounds@.len() implies (#[trigger] bounds@[j]).0
            <= bounds@[j].1 <= total_gauss by {
            gathered_grows(packed.rows@.rows, packed.offsets@, pdfs@, j, j + 1);
            gathered_grows(packed.rows@.rows, packed.offsets@, pdfs@, j + 1, pdfs@.len() as int);
        }
    }
    segmented_logsumexp(&comp, frames, total_gauss, &bounds, f)
}

/// Score many utterances, each against its own pdfs.
pub fn score_batch_sel<
    F: Fn(FloatOp) -> u64,
    G: Fn(Vec<u32>, usize, Vec<u32>, usize, usize) -> Vec<u32>,
>(feats: &Vec<Matrix>, packed: &PackedGmm, sels: &Vec<Vec<PdfId>>, f: &F, gemm: &G) -> (r: Vec<
    Matrix,
>)
    requires
        is_evaluator(*f),
        is_product(*gemm),
        packed.rows@.wf(),
        packed.rows.cols > 0,
        feats@.len() == sels@.len(),
        forall|i: int|
            0 <= i < sels@.len() ==> can_gather(
                packed.rows@.rows,
                packed.offsets@,
                (#[trigger] sels@[i])@,
            ),
    ensures
        r@.len() == feats@.len(),
        forall|i: int|
            0 <= i < feats@.len() ==> are_scores(
                (#[trigger] r@[i])@,
                feats@[i]@,
                packed.rows@,
                packed.offsets@,
                sels@[i]@,
                *f,
                *gemm,
            ),
{
    let mut out: Vec<Matrix> = Vec::new();
    let mut i: usize = 0;
    while i < feats.len()
        invariant
            is_evaluator(*f),
            is_product(*gemm),
            packed.rows@.wf(),
            packed.rows.cols > 0,
            feats@.len() == sels@.len(),
            forall|i: int|
                0 <= i < sels@.len() ==> can_gather(
                    packed.rows@.rows,
                    packed.offsets@,
                    (#[trigger] sels@[i])@,
                ),
            i <= feats@.len(),
            out@.len() == i,
            forall|k: int|
                0 <= k < i ==> are_scores(
                    (#[trigger] out@[k])@,
                    feats@[k]@,
                    packed.rows@,
                    packed.offsets@,
                    sels@[k]@,
                    *f,
                    *gemm,
                ),
        decreases feats.len() - i,
    {
        assert(can_gather(packed.rows@.rows, packed.offsets@, sels@[i as int]@));
        let m = score_cpu(&feats[i], packed, sels[i].as_slice(), f, gemm);
        out.push(m);
        i += 1;
    }
    out
}

/// Score many utterances against the same pdfs.
pub fn score_batch<
    F: Fn(FloatOp) -> u64,
    G: Fn(Vec<u32>, usize, Vec<u32>, usize, usize) -> Vec<u32>,
>(feats: &Vec<Matrix>, packed: &PackedGmm, pdfs: &Vec<PdfId>, f: &F, gemm: &G) -> (r: Vec<Matrix>)
    requires
        is_evaluator(*f),
        is_product(*gemm),
        packed.rows@.wf(),
        packed.rows.cols > 0,
        can_gather(packed.rows@.rows, packed.offsets@, pdfs@),
    ensures
        r@.len() == feats@.len(),
        forall|i: int|
            0 <= i < feats@.len() ==> are_scores(
                (#[trigger] r@[i])@,
                feats@[i]@,
                packed.rows@,
                packed.offsets@,
                pdfs@,
                *f,
                *gemm,
            ),
{
    let mut sels: Vec<Vec<PdfId>> = Vec::new();
    let mut i: usize = 0;
    while i < feats.len()
        invariant
            i <= feats@.len(),
            sels@.len() == i,
            forall|k: int| 0 <= k < i ==> (#[trigger] sels@[k])@ == pdfs@,
        decreases feats.len() - i,
    {
        let mut one: Vec<PdfId> = Vec::new();
        one.extend_from_slice(pdfs.as_slice());
        assert(one@ =~= pdfs@);
        sels.push(one);
        i += 1;
    }
    let r = score_batch_sel(feats, packed, &sels, f, gemm);
    assert forall|i: int| 0 <= i < feats@.len() implies are_scores(
        (#[trigger] r@[i])@,
        feats@[i]@,
        packed.rows@,
        packed.offsets@,
        pdfs@,
        *f,
        *gemm,
    ) by {
        assert(sels@[i]@ == pdfs@);
    }
    r
}

/// The packed rows of one mixture, one after the other.
pub fn pack_single<F: Fn(FloatOp) -> u64>(gmm: &DiagGmm, f: &F) -> (r: Vec<u32>)
    requires
        is_evaluator(*f),
        gmm@.wf(),
        gmm@.gconsts.len() == gmm@.weights.len(),
    ensures
        r@ == flat(
            mixture_rows(gmm@, gmm@.weights.len() as int, gmm@.means_invvars.cols, *f),
        ),
{
    let ghost dim = gmm@.means_invvars.cols;
    let ghost rows = mixture_rows(gmm@, gmm@.weights.len() as int, dim, *f);
    let mut out: Vec<u32> = Vec::new();
    let mut c: usize = 0;
    assert(rows.take(0) =~= seq![]);
    while c < gmm.gconsts.len()
        invariant
            is_evaluator(*f),
            gmm@.wf(),
            gmm@.gconsts.len() == gmm@.weights.len(),
            dim == gmm@.means_invvars.cols,
            rows == mixture_rows(gmm@, gmm@.weights.len() as int, dim, *f),
            c <= gmm@.gconsts.len(),
            out@ == flat(rows.take(c as int)),
        decreases gmm.gconsts.len() - c,
    {
        proof {
            assert(gmm@.means_invvars.rows[c as int] == gmm.means_invvars.rows@[c as int]@);
            assert(gmm@.inv_vars.rows[c as int] == gmm.inv_vars.rows@[c as int]@);
        }
        let row = pack_row(gmm.gconsts[c], &gmm.means_invvars.rows[c], &gmm.inv_vars.rows[c], f);
        proof {
            assert(row@ =~= packed_row(gmm@, c as int, dim, *f));
            assert(rows[c as int] == row@);
            flat_push(rows.take(c as int), row@);
            assert(rows.take(c + 1) =~= rows.take(c as int).push(row@));
        }
        out.extend_from_slice(row.as_slice());
        c += 1;
    }
    assert(rows.take(c as int) =~= rows);
    out
}

/// The matrix can be the log-likelihoods of the frames under the components of a mixture.
pub open spec fn are_component_scores<
    F: Fn(FloatOp) -> u64,
    G: Fn(Vec<u32>, usize, Vec<u32>, usize, usize) -> Vec<u32>,
>(r: MatrixView, feats: MatrixView, m: GmmView, f: F, g: G) -> bool {
    let frames = feats.rows.len() as int;
    let n = m.gconsts.len() as int;
    let dim = m.means_invvars.cols;
    if frames == 0 || n == 0 {
        r == tabulated(frames, n, |t: int, j: int| ZERO)
    } else {
        exists|c: Seq<u32>|
            #![trigger unflattened(frames, n, c)]
            answers(
                g,
                flat(expanded_rows(feats, f)),
                frames,
                flat(mixture_rows(m, m.weights.len() as int, dim, f)),
                n,
                1 + 2 * dim,
                c,
            ) && r == unflattened(frames, n, c)
    }
}

/// The log-likelihood of every frame under every component of one mixture.
pub fn score_components<
    F: Fn(FloatOp) -> u64,
    G: Fn(Vec<u32>, usize, Vec<u32>, usize, usize) -> Vec<u32>,
>(feats: &Matrix, gmm: &DiagGmm, f: &F, gemm: &G) -> (r: Matrix)
    requires
        is_evaluator(*f),
        is_product(*gemm),
        gmm@.wf(),
        gmm@.gconsts.len() == gmm@.weights.len(),
        feats.cols == gmm@.means_invvars.cols,
        1 + 2 * feats.cols <= usize::MAX,
    ensures
        are_component_scores(r@, feats@, gmm@, *f, *gemm),
{
    let frames: usize = feats.rows.len();
    let n: usize = gmm.gconsts.len();
    if frames == 0 || n == 0 {
        let zero = |t: usize, j: usize| -> (v: u32)
            ensures
                v == ZERO,
            { ZERO };
        return Matrix::tabulate(frames, n, &zero, Ghost(|t: int, j: int| ZERO));
    }
    let packed = pack_single(gmm, f);
    let width: usize = 1 + 2 * feats.cols;
    let a = expand_feats(feats, f);
    let ghost (va, vb) = (a, packed);
    let c = gemm(a, frames, packed, n, width);
    proof {
        assert(call_ensures(*gemm, (va, frames, vb, n, width), c));
        assert(answers(
            *gemm,
            va@,
            frames as int,
            vb@,
            n as int,
            width as int,
            c@,
        ));
    }
    Matrix::from_data(frames, n, &c)
}

/// The rows of a matrix, one after the other.
pub fn flatten(m: &Matrix) -> (r: Vec<u32>)
    ensures
        r@ == flat(m@.rows),
{
    let mut out: Vec<u32> = Vec::new();
    let mut t: usize = 0;
    assert(m@.rows.take(0) =~= seq![]);
    while t < m.rows.len()
        invariant
            t <= m.rows@.len(),
            out@ == flat(m@.rows.take(t as int)),
        decreases m.rows.len() - t,
    {
        proof {
            assert(m@.rows[t as int] == m.rows@[t as int]@);
            flat_push(m@.rows.take(t as int), m.rows@[t as int]@);
            assert(m@.rows.take(t + 1) =~= m@.rows.take(t as int).push(m.rows@[t as int]@));
        }
        out.extend_from_slice(m.rows[t].as_slice());
        t += 1;
    }
    assert(m@.rows.take(t as int) =~= m@.rows);
    out
}

/// The product of a matrix and the transpose of another with as many columns.
pub fn gemm_abt<G: Fn(Vec<u32>, usize, Vec<u32>, usize, usize) -> Vec<u32>>(
    a: &Matrix,
    b: &Matrix,
    gemm: &G,
) -> (r: Matrix)
    requires
        is_product(*gemm),
        a.cols == b.cols,
    ensures
        exists|c: Seq<u32>|
            #![trigger unflattened(a@.rows.len() as int, b@.rows.len() as int, c)]
            answers(
                *gemm,
                flat(a@.rows),
                a@.rows.len() as int,
                flat(b@.rows),
                b@.rows.len() as int,
                a@.cols,
                c,
            ) && r@ == unflattened(a@.rows.len() as int, b@.rows.len() as int, c),
{
    let fa = flatten(a);
    let fb = flatten(b);
    let m: usize = a.rows.len();
    let n: usize = b.rows.len();
    let ghost (va, vb) = (fa, fb);
    let c = gemm(fa, m, fb, n, a.cols);
    proof {
        assert(call_ensures(*gemm, (va, m, vb, n, a.cols), c));
        assert(answers(*gemm, va@, m as int, vb@, n as int, a.cols as int, c@));
    }
    Matrix::from_data(m, n, &c)
}

/// A row of `width` values with zeros up to `padded`.
pub open spec fn widened(row: Seq<u32>, padded: int) -> Seq<u32> {
    row + Seq::new((padded - row.len()) as nat, |k: int| ZERO)
}

/// The rows of `width` values in a flat list, each with zeros up to `padded`.
pub open spec fn widened_rows(src: Seq<u32>, rows: int, width: int, padded: int) -> Seq<Seq<u32>> {
    Seq::new(rows as nat, |r: int| widened(src.subrange(r * width, (r + 1) * width), padded))
}

/// Append `rows` rows of `width` values, each with zeros up to `padded`.
pub fn pad_rows_into(out: &mut Vec<u32>, src: &[u32], rows: usize, width: usize, padded: usize)
    requires
        src@.len() == rows * width,
        width <= padded,
    ensures
        final(out)@ == old(out)@ + flat(widened_rows(src@, rows as int, width as int, padded as int)),
{
    let ghost all = widened_rows(src@, rows as int, width as int, padded as int);
    let ghost before = out@;
    let total: usize = src.len();
    let mut r: usize = 0;
    let mut start: usize = 0;
    proof {
        assert(all.take(0) =~= seq![]);
        assert(before + flat(all.take(0)) =~= before);
        assert(0 * width == 0) by (nonlinear_arith);
    }
    while r < rows
        invariant
            all == widened_rows(src@, rows as int, width as int, padded as int),
            total == src@.len(),
            src@.len() == rows * width,
            width <= padded,
            r <= rows,
            start == r * width,
            out@ == before + flat(all.take(r as int)),
        decreases rows - r,
    {
        proof {
            assert((r + 1) * width == r * width + width) by (nonlinear_arith);
            assert((r + 1) * width <= rows * width) by (nonlinear_arith)
                requires
                    r + 1 <= rows,
            ;
        }
        let row = slice_subrange(src, start, start + width);
        let ghost sofar = out@;
        out.extend_from_slice(row);
        let mut k: usize = width;
        while k < padded
            invariant
                width <= k <= padded,
                out@ == sofar + row@ + Seq::new((k - width) as nat, |k: int| ZERO),
            decreases padded - k,
        {
            out.push(ZERO);
            assert(out@ =~= sofar + row@ + Seq::new((k + 1 - width) as nat, |k: int| ZERO));
            k += 1;
        }
        proof {
            assert(all[r as int] =~= widened(row@, padded as int));
            assert(out@ =~= sofar + all[r as int]);
            flat_push(all.take(r as int), all[r as int]);
            assert(all.take(r + 1) =~= all.take(r as int).push(all[r as int]));
            assert(out@ =~= before + flat(all.take(r + 1)));
        }
        start += width;
        r += 1;
    }
    assert(all.take(r as int) =~= all);
}

/// A list for a buffer that may not be empty: a single zero in place of none.
pub fn pad_u32(v: &[u32]) -> (r: Vec<u32>)
    ensures
        r@ == (if v@.len() == 0 {
            seq![0u32]
        } else {
            v@
        }),
{
    let mut out: Vec<u32> = Vec::new();
    if v.len() == 0 {
        out.push(0);
        assert(out@ =~= seq![0u32]);
    } else {
        out.extend_from_slice(v);
        assert(out@ =~= v@);
    }
    out
}

} // verus!
