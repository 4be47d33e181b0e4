//! Batched accumulation of mixture statistics.
//!
//! The statistics of a batch are accumulated frame by frame, or from the sums that a device has made
//! of a [`Plan`].

use vstd::prelude::*;
use vstd::slice::slice_subrange;

use crate::device::groups::MAX_WIDTH;
use crate::device::plan::{batch, BatchView, Plan};
use crate::float::{
    eval_wide, is_evaluator, is_finite_bits, wide_value, FloatOp, ONE, WIDE_ONE, WIDE_ZERO,
};
use crate::gmm::accum::{
    am_added, no_stats, with_component, with_gmm_frame, AccumAmDiagGmm, AccumAmView, AccumView,
};
use crate::gmm::am::{dim_of, AmDiagGmm};
use crate::gmm::diag::{log_likes, GmmView};
use crate::gmm::flags::{augmented, holds, GmmFlags};
use crate::gmm::matrix::Matrix;
use crate::gmm::mixing::soft_max_total;
use crate::types::PdfId;

verus! {

/// The model has mixtures of one dimension, with at least one component each.
pub open spec fn is_model(am: Seq<GmmView>, dim: int) -> bool {
    forall|i: int|
        0 <= i < am.len() ==> (#[trigger] am[i]).wf() && am[i].gconsts.len() == am[i].weights.len()
            && am[i].weights.len() > 0 && am[i].inv_vars.cols == dim && dim > 0
}

/// The flags of the first statistics, all flags if there are none.
pub open spec fn first_flags(a: AccumAmView) -> u8 {
    if a.accs.len() > 0 {
        a.accs[0].flags
    } else {
        7
    }
}

/// The statistics are those of the mixtures of a model, all with the same flags.
pub open spec fn suits(a: AccumAmView, am: Seq<GmmView>, dim: int, flags: u8) -> bool {
    &&& a.accs.len() == am.len()
    &&& forall|i: int|
        0 <= i < am.len() ==> (#[trigger] a.accs[i]).wf(dim) && a.accs[i].occupancy.len()
            == am[i].weights.len() && a.accs[i].flags == flags
}

/// The statistics with the first `n` frames of utterance `i` added.
pub open spec fn utterance_added<F: Fn(FloatOp) -> u64>(
    a: AccumAmView,
    am: Seq<GmmView>,
    b: BatchView,
    i: int,
    n: int,
    f: F,
) -> AccumAmView
    decreases n,
{
    if n <= 0 {
        a
    } else {
        let p = b.pdfs[i][n - 1] as int;
        let x = b.feats[i].rows[n - 1];
        with_gmm_frame(
            utterance_added(a, am, b, i, n - 1, f),
            am[p],
            p,
            x,
            x,
            b.weight(i, n - 1),
            f,
        )
    }
}

/// The statistics with the frames of the first `n` utterances added.
pub open spec fn batch_added<F: Fn(FloatOp) -> u64>(
    a: AccumAmView,
    am: Seq<GmmView>,
    b: BatchView,
    n: int,
    f: F,
) -> AccumAmView
    decreases n,
{
    if n <= 0 {
        a
    } else {
        utterance_added(batch_added(a, am, b, n - 1, f), am, b, n - 1, b.used(n - 1), f)
    }
}

/// The batch can be accumulated: it has a pdf list and, if weighted, enough weights for every
/// utterance; the rows have the model's dimension; the pdfs are the model's; and the frames have
/// finite log-likelihoods.
pub open spec fn can_add<F: Fn(FloatOp) -> u64>(am: Seq<GmmView>, b: BatchView, dim: int, f: F) -> bool {
    let n = b.feats.len() as int;
    &&& b.pdfs.len() == n
    &&& b.weights matches Some(w) ==> w.len() == n && forall|i: int|
        0 <= i < n ==> (#[trigger] w[i]).len() >= b.used(i)
    &&& forall|i: int| 0 <= i < n ==> (#[trigger] b.feats[i]).wf() && b.feats[i].cols == dim
    &&& forall|i: int, t: int|
        0 <= i < n && 0 <= t < b.used(i) ==> (#[trigger] b.pdfs[i][t]) < am.len()
            && is_finite_bits(
            soft_max_total(log_likes(am[b.pdfs[i][t] as int], b.feats[i].rows[t], f), f),
        )
}

proof fn frame_suits<F: Fn(FloatOp) -> u64>(
    a: AccumAmView,
    am: Seq<GmmView>,
    dim: int,
    flags: u8,
    p: int,
    x: Seq<u32>,
    weight: u32,
    f: F,
)
    requires
        suits(a, am, dim, flags),
        0 <= p < am.len(),
        x.len() == dim,
    ensures
        suits(with_gmm_frame(a, am[p], p, x, x, weight, f), am, dim, flags),
{
    let next = with_gmm_frame(a, am[p], p, x, x, weight, f);
    assert(a.accs[p].wf(dim));
    assert forall|i: int| 0 <= i < am.len() implies (#[trigger] next.accs[i]).wf(dim)
        && next.accs[i].occupancy.len() == am[i].weights.len() && next.accs[i].flags == flags by {
        if i != p {
            assert(next.accs[i] == a.accs[i]);
        }
    }
}

proof fn flags_stay(flags: u8)
    requires
        flags <= 7,
        holds(flags, 4),
        holds(flags, 2) ==> holds(flags, 1),
    ensures
        augmented(flags) == flags,
{
    let a = flags;
    assert(a & 4u8 == 4u8 ==> a | 4u8 | 0u8 == a) by (bit_vector);
    assert(a & 4u8 == 4u8 && a & 1u8 == 1u8 ==> a | 4u8 | 1u8 == a) by (bit_vector);
}

/// Add the frames of one utterance: as many as have both features and a pdf.
fn add_utterance<F: Fn(FloatOp) -> u64>(
    local: &mut AccumAmDiagGmm,
    feats: &Vec<Matrix>,
    pdf_per_frame: &Vec<Vec<PdfId>>,
    weights: &Option<Vec<Vec<u32>>>,
    i: usize,
    am: &AmDiagGmm,
    f: &F,
    Ghost(dim): Ghost<int>,
    Ghost(flags): Ghost<u8>,
)
    requires
        is_evaluator(*f),
        i < feats@.len(),
        is_model(am@, dim),
        suits(old(local)@, am@, dim, flags),
        can_add(am@, batch(feats@, pdf_per_frame@, *weights), dim, *f),
    ensures
        final(local)@ == utterance_added(
            old(local)@,
            am@,
            batch(feats@, pdf_per_frame@, *weights),
            i as int,
            batch(feats@, pdf_per_frame@, *weights).used(i as int),
            *f,
        ),
        suits(final(local)@, am@, dim, flags),
{
    let ghost b = batch(feats@, pdf_per_frame@, *weights);
    let ghost a = local@;
    assert(b.feats[i as int] == feats@[i as int]@);
    assert(b.pdfs[i as int] == pdf_per_frame@[i as int]@);
    let pdfs = &pdf_per_frame[i];
    let rows = &feats[i].rows;
    let used: usize = if pdfs.len() < rows.len() {
        pdfs.len()
    } else {
        rows.len()
    };
    let mut t: usize = 0;
    while t < used
        invariant
            is_evaluator(*f),
            i < feats@.len(),
            b == batch(feats@, pdf_per_frame@, *weights),
            b.feats[i as int] == feats@[i as int]@,
            b.pdfs[i as int] == pdf_per_frame@[i as int]@,
            pdfs@ == b.pdfs[i as int],
            rows@ == feats@[i as int].rows@,
            used == b.used(i as int),
            used <= pdfs@.len(),
            used <= rows@.len(),
            t <= used,
            is_model(am@, dim),
            can_add(am@, b, dim, *f),
            suits(local@, am@, dim, flags),
            local@ == utterance_added(a, am@, b, i as int, t as int, *f),
        decreases used - t,
    {
        let p: PdfId = pdfs[t];
        let w: u32 = match weights {
            Some(w) => {
                assert(b.weights->0[i as int] == w@[i as int]@);
                w[i][t]
            },
            None => ONE,
        };
        proof {
            assert(b.pdfs[i as int][t as int] == p);
            assert(b.feats[i as int].rows[t as int] == rows@[t as int]@);
            assert(am@[p as int].wf());
            assert(local@.accs[p as int].wf(dim));
            frame_suits(local@, am@, dim, flags, p as int, rows@[t as int]@, w, *f);
        }
        local.accumulate_for_gmm(am, p, rows[t].as_slice(), w, f);
        t += 1;
    }
}

/// Statistics of no frames for a model.
pub open spec fn empty_stats(am: Seq<GmmView>, flags: u8) -> AccumAmView {
    AccumAmView {
        accs: Seq::new(
            am.len(),
            |i: int| no_stats(am[i].weights.len() as int, am[i].inv_vars.cols, flags),
        ),
        frames: WIDE_ZERO,
        loglike: WIDE_ZERO,
    }
}

/// Accumulate the statistics of a batch frame by frame, and return the weighted sum of the frames'
/// log-likelihoods. The statistics of the batch are summed by themselves and then added.
pub fn accumulate_batch<F: Fn(FloatOp) -> u64>(
    feats: &Vec<Matrix>,
    pdf_per_frame: &Vec<Vec<PdfId>>,
    weights: &Option<Vec<Vec<u32>>>,
    am: &AmDiagGmm,
    acc: &mut AccumAmDiagGmm,
    f: &F,
) -> (r: u64)
    requires
        is_evaluator(*f),
        is_model(am@, dim_of(am@)),
        suits(old(acc)@, am@, dim_of(am@), first_flags(old(acc)@)),
        can_add(am@, batch(feats@, pdf_per_frame@, *weights), dim_of(am@), *f),
    ensures
        ({
            let sums = batch_added(
                empty_stats(am@, first_flags(old(acc)@)),
                am@,
                batch(feats@, pdf_per_frame@, *weights),
                feats@.len() as int,
                *f,
            );
            &&& r == sums.loglike
            &&& final(acc)@ == am_added(old(acc)@, sums, WIDE_ONE, *f)
        }),
{
    let ghost b = batch(feats@, pdf_per_frame@, *weights);
    let ghost dim = dim_of(am@);
    let ghost before = acc@;
    let ghost flags0 = first_flags(acc@);
    let flags: GmmFlags = if acc.accs.len() > 0 {
        assert(acc@.accs[0] == acc.accs@[0]@);
        assert(acc@.accs[0].wf(dim));
        acc.accs[0].flags
    } else {
        GmmFlags::all()
    };
    let mut local = AccumAmDiagGmm::new(am, flags);
    proof {
        if before.accs.len() > 0 {
            flags_stay(flags0);
        }
        assert(local@ =~= empty_stats(am@, flags0));
        assert forall|i: int| 0 <= i < am@.len() implies (#[trigger] local@.accs[i]).wf(dim)
            && local@.accs[i].occupancy.len() == am@[i].weights.len() && local@.accs[i].flags
            == flags0 by {
            assert(am@[i].inv_vars.cols == dim);
        }
    }
    let mut i: usize = 0;
    while i < feats.len()
        invariant
            is_evaluator(*f),
            b == batch(feats@, pdf_per_frame@, *weights),
            i <= feats@.len(),
            is_model(am@, dim),
            can_add(am@, b, dim, *f),
            suits(local@, am@, dim, flags0),
            local@ == batch_added(empty_stats(am@, flags0), am@, b, i as int, *f),
        decreases feats.len() - i,
    {
        add_utterance(
            &mut local,
            feats,
            pdf_per_frame,
            weights,
            i,
            am,
            f,
            Ghost(dim),
            Ghost(flags0),
        );
        i += 1;
    }
    let loglike: u64 = local.total_loglike;
    proof {
        assert forall|k: int|
            #![trigger before.accs[k]]
            0 <= k < local@.accs.len() implies before.accs[k].wf(before.accs[k].dim())
            && local@.accs[k].wf(before.accs[k].dim()) && local@.accs[k].flags
            == before.accs[k].flags && local@.accs[k].occupancy.len()
            == before.accs[k].occupancy.len() by {
            assert(before.accs[k].wf(dim));
            assert(local@.accs[k].wf(dim));
        }
    }
    acc.add(&local, WIDE_ONE, f);
    loglike
}

/// Whether the rows of a model of this dimension fit into the tiles of a device.
pub fn fits_device(dim: usize) -> (r: bool)
    ensures
        r == (1 + 2 * dim <= MAX_WIDTH),
{
    dim <= (MAX_WIDTH - 1) / 2
}

/// The values in double precision.
pub open spec fn widened_values<F: Fn(FloatOp) -> u64>(xs: Seq<u32>, f: F) -> Seq<u64> {
    Seq::new(xs.len(), |d: int| wide_value(f, FloatOp::Widen(xs[d])))
}

fn widen_values<F: Fn(FloatOp) -> u64>(xs: &[u32], f: &F) -> (r: Vec<u64>)
    requires
        is_evaluator(*f),
    ensures
        r@ == widened_values(xs@, *f),
{
    let mut out: Vec<u64> = Vec::new();
    let mut d: usize = 0;
    while d < xs.len()
        invariant
            is_evaluator(*f),
            d <= xs@.len(),
            out@ == widened_values(xs@, *f).take(d as int),
        decreases xs.len() - d,
    {
        out.push(eval_wide(f, FloatOp::Widen(xs[d])));
        assert(out@ =~= widened_values(xs@, *f).take(d + 1));
        d += 1;
    }
    assert(out@ =~= widened_values(xs@, *f));
    out
}

/// The statistics with the sums of the first `n` active components added: row `k` of `sums` is the
/// occupancy, the sums of the values and the sums of the squares of active component `k`.
pub open spec fn scattered<F: Fn(FloatOp) -> u64>(
    a: Seq<AccumView>,
    p: Plan,
    sums: Seq<u32>,
    dim: int,
    n: int,
    f: F,
) -> Seq<AccumView>
    decreases n,
{
    if n <= 0 {
        a
    } else {
        let prev = scattered(a, p, sums, dim, n - 1, f);
        let g = p.active@[n - 1];
        let at = (n - 1) * (1 + 2 * dim);
        prev.update(
            g.pdf as int,
            with_component(
                prev[g.pdf as int],
                g.comp as int,
                wide_value(f, FloatOp::Widen(sums[at])),
                widened_values(sums.subrange(at + 1, at + 1 + dim), f),
                widened_values(sums.subrange(at + 1 + dim, at + 1 + 2 * dim), f),
                f,
            ),
        )
    }
}

/// The active components are components of the statistics.
pub open spec fn is_active_in(p: Plan, a: Seq<AccumView>, dim: int) -> bool {
    &&& forall|k: int|
        0 <= k < p.active@.len() ==> (#[trigger] p.active@[k]).pdf < a.len() && p.active@[k].comp
            < a[p.active@[k].pdf as int].occupancy.len()
    &&& forall|i: int| 0 <= i < a.len() ==> (#[trigger] a[i]).wf(dim)
}

/// Add the sums that a device has made of a plan to the statistics.
pub fn scatter<F: Fn(FloatOp) -> u64>(
    acc: &mut AccumAmDiagGmm,
    p: &Plan,
    sums: &Vec<u32>,
    dim: usize,
    f: &F,
)
    requires
        is_evaluator(*f),
        1 + 2 * dim <= usize::MAX,
        sums@.len() == p.active@.len() * (1 + 2 * dim),
        is_active_in(*p, old(acc)@.accs, dim as int),
    ensures
        final(acc)@ == (AccumAmView {
            accs: scattered(
                old(acc)@.accs,
                *p,
                sums@,
                dim as int,
                p.active@.len() as int,
                *f,
            ),
            ..old(acc)@
        }),
{
    let ghost before = acc@;
    let width: usize = 1 + 2 * dim;
    let total: usize = sums.len();
    let mut k: usize = 0;
    let mut at: usize = 0;
    proof {
        assert(0 * width == 0) by (nonlinear_arith);
    }
    while k < p.active.len()
        invariant
            is_evaluator(*f),
            width == 1 + 2 * dim,
            total == sums@.len(),
            sums@.len() == p.active@.len() * width,
            k <= p.active@.len(),
            at == k * width,
            is_active_in(*p, acc@.accs, dim as int),
            acc@.frames == before.frames,
            acc@.loglike == before.loglike,
            acc@.accs == scattered(before.accs, *p, sums@, dim as int, k as int, *f),
        decreases p.active.len() - k,
    {
        proof {
            assert((k + 1) * width == k * width + width) by (nonlinear_arith);
            assert((k + 1) * width <= p.active@.len() * width) by (nonlinear_arith)
                requires
                    k + 1 <= p.active@.len(),
            ;
        }
        let ghost prev = acc@.accs;
        let pdf: usize = p.active[k].pdf as usize;
        let comp: usize = p.active[k].comp as usize;
        assert(p.active@[k as int].pdf < prev.len());
        assert(prev[pdf as int] == acc.accs@[pdf as int]@);
        let occ: u64 = eval_wide(f, FloatOp::Widen(sums[at]));
        let x = widen_values(slice_subrange(sums.as_slice(), at + 1, at + 1 + dim), f);
        let x2 = widen_values(
            slice_subrange(sums.as_slice(), at + 1 + dim, at + 1 + 2 * dim),
            f,
        );
        proof {
            let a = prev[pdf as int];
            assert(a.wf(dim as int));
            assert(holds(a.flags, 1) ==> a.means.len() > 0 && a.means[0].len() == dim);
            assert(holds(a.flags, 2) ==> a.vars.len() > 0 && a.vars[0].len() == dim);
        }
        acc.accs[pdf].add_stats_for_component(comp, occ, x.as_slice(), x2.as_slice(), f);
        proof {
            let a = prev[pdf as int];
            let next = with_component(a, comp as int, occ, x@, x2@, *f);
            assert(acc@.accs =~= prev.update(pdf as int, next));
            assert(next.wf(dim as int)) by {
                assert forall|g: int| 0 <= g < next.means.len() implies (
                #[trigger] next.means[g]).len() == dim by {
                    assert(a.means[g].len() == dim);
                }
                assert forall|g: int| 0 <= g < next.vars.len() implies (
                #[trigger] next.vars[g]).len() == dim by {
                    assert(a.vars[g].len() == dim);
                }
            }
            assert forall|j: int| 0 <= j < p.active@.len() implies (#[trigger] p.active@[j]).pdf
                < acc@.accs.len() && p.active@[j].comp
                < acc@.accs[p.active@[j].pdf as int].occupancy.len() by {
                assert(p.active@[j].pdf < prev.len());
            }
            assert forall|i: int| 0 <= i < acc@.accs.len() implies (#[trigger] acc@.accs[i]).wf(
                dim as int,
            ) by {
                assert(prev[i].wf(dim as int));
            }
        }
        at += width;
        k += 1;
    }
}

/// The weighted log-likelihoods of the first `n` frames, summed onto `sum`.
pub open spec fn loglike_from<F: Fn(FloatOp) -> u64>(
    sum: u64,
    loglike: Seq<u32>,
    weights: Seq<u32>,
    n: int,
    f: F,
) -> u64
    decreases n,
{
    if n <= 0 {
        sum
    } else {
        wide_value(
            f,
            FloatOp::AddWide(
                loglike_from(sum, loglike, weights, n - 1, f),
                wide_value(
                    f,
                    FloatOp::MulWide(
                        wide_value(f, FloatOp::Widen(loglike[n - 1])),
                        wide_value(f, FloatOp::Widen(weights[n - 1])),
                    ),
                ),
            ),
        )
    }
}

/// The weights of the first `n` frames, summed onto `sum`.
pub open spec fn frames_from<F: Fn(FloatOp) -> u64>(sum: u64, weights: Seq<u32>, n: int, f: F) -> u64
    decreases n,
{
    if n <= 0 {
        sum
    } else {
        wide_value(
            f,
            FloatOp::AddWide(
                frames_from(sum, weights, n - 1, f),
                wide_value(f, FloatOp::Widen(weights[n - 1])),
            ),
        )
    }
}

/// What the chunks of a batch add up to.
#[derive(Clone, Copy, Debug, PartialEq, Eq, Structural)]
pub struct Totals {
    pub loglike: u64,
    pub frames: u64,
}

/// Add the log-likelihoods of the frames of a chunk to the totals of a batch.
pub fn add_loglikes<F: Fn(FloatOp) -> u64>(
    totals: Totals,
    loglike: &Vec<u32>,
    frame_weight: &Vec<u32>,
    f: &F,
) -> (r: Totals)
    requires
        is_evaluator(*f),
        loglike@.len() == frame_weight@.len(),
    ensures
        r.loglike == loglike_from(
            totals.loglike,
            loglike@,
            frame_weight@,
            loglike@.len() as int,
            *f,
        ),
        r.frames == frames_from(totals.frames, frame_weight@, loglike@.len() as int, *f),
{
    let mut ll: u64 = totals.loglike;
    let mut frames: u64 = totals.frames;
    let mut t: usize = 0;
    while t < loglike.len()
        invariant
            is_evaluator(*f),
            loglike@.len() == frame_weight@.len(),
            t <= loglike@.len(),
            ll == loglike_from(totals.loglike, loglike@, frame_weight@, t as int, *f),
            frames == frames_from(totals.frames, frame_weight@, t as int, *f),
        decreases loglike.len() - t,
    {
        let w: u64 = eval_wide(f, FloatOp::Widen(frame_weight[t]));
        let x: u64 = eval_wide(f, FloatOp::Widen(loglike[t]));
        ll = eval_wide(f, FloatOp::AddWide(ll, eval_wide(f, FloatOp::MulWide(x, w))));
        frames = eval_wide(f, FloatOp::AddWide(frames, w));
        t += 1;
    }
    Totals { loglike: ll, frames }
}

/// Add the totals of a batch to the statistics.
pub fn add_totals<F: Fn(FloatOp) -> u64>(acc: &mut AccumAmDiagGmm, totals: Totals, f: &F)
    requires
        is_evaluator(*f),
    ensures
        final(acc)@ == (AccumAmView {
            accs: old(acc)@.accs,
            frames: wide_value(*f, FloatOp::AddWide(old(acc)@.frames, totals.frames)),
            loglike: wide_value(*f, FloatOp::AddWide(old(acc)@.loglike, totals.loglike)),
        }),
{
    acc.total_loglike = eval_wide(f, FloatOp::AddWide(acc.total_loglike, totals.loglike));
    acc.total_frames = eval_wide(f, FloatOp::AddWide(acc.total_frames, totals.frames));
}

} // verus!
