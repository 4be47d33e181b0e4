//! Batches of frames for the statistics of a speaker transform.

use vstd::prelude::*;

use crate::device::accum::is_model;
use crate::device::groups::padded;
use crate::device::plan::{lists, matrices};
use crate::device::score::{expanded_row, flat, flat_push, widened};
use crate::float::{
    eq, eval, eval_wide, is_evaluator, is_finite_bits, same, value, wide_value, FloatOp, ONE,
    WIDE_ZERO, ZERO,
};
use crate::gmm::am::AmDiagGmm;
use crate::gmm::diag::{log_likes, GmmView};
use crate::gmm::matrix::{Matrix, MatrixView};
use crate::gmm::mixing::{soft_max, soft_max_total};
use crate::gmm::packed::PackedGmm;
use crate::table::{grid, grid_of, rows_of};
use crate::types::PdfId;

verus! {

/// How many frames a batch has at most.
pub const MAX_BATCH_FRAMES: usize = 262_144;

/// A frame with its pdf and its weight.
#[verifier::ext_equal]
pub struct Frame {
    pub x: Seq<u32>,
    pub pdf: u32,
    pub weight: u32,
}

/// The frames of a speaker's utterances.
#[verifier::ext_equal]
pub struct SpeakerView {
    pub feats: Seq<MatrixView>,
    pub pdfs: Seq<Seq<u32>>,
    pub weights: Seq<Seq<u32>>,
}

pub open spec fn least(a: nat, b: nat) -> nat {
    if a < b {
        a
    } else {
        b
    }
}

impl SpeakerView {
    /// How many frames of utterance `i` count: as many as have features, a pdf and a weight.
    pub open spec fn used(self, i: int) -> int {
        least(
            least(self.feats[i].rows.len(), self.pdfs[i].len()),
            self.weights[i].len(),
        ) as int
    }

    /// How many utterances count: as many as have features, pdfs and weights.
    pub open spec fn utterances(self) -> int {
        least(least(self.feats.len(), self.pdfs.len()), self.weights.len()) as int
    }

    /// The first `t` frames of utterance `i` whose weight is not zero.
    pub open spec fn kept_in(self, i: int, t: int) -> Seq<Frame>
        decreases t,
    {
        if t <= 0 {
            seq![]
        } else {
            let before = self.kept_in(i, t - 1);
            let w = self.weights[i][t - 1];
            if same(w, ZERO) {
                before
            } else {
                before.push(
                    Frame { x: self.feats[i].rows[t - 1], pdf: self.pdfs[i][t - 1], weight: w },
                )
            }
        }
    }

    /// The frames of the first `n` utterances whose weight is not zero.
    pub open spec fn kept(self, n: int) -> Seq<Frame>
        decreases n,
    {
        if n <= 0 {
            seq![]
        } else {
            self.kept(n - 1) + self.kept_in(n - 1, self.used(n - 1))
        }
    }
}

/// A batch of frames: their expanded rows, their rows with a one appended, their pdfs and their
/// weights.
#[derive(Debug)]
pub struct Batch {
    pub expanded: Vec<u32>,
    pub xplus: Vec<u32>,
    pub pdfs: Vec<u32>,
    pub weights: Vec<u32>,
    pub frames: usize,
}

/// The expanded rows of frames, padded.
pub open spec fn expanded_frames<F: Fn(FloatOp) -> u64>(frames: Seq<Frame>, padded: int, f: F) -> Seq<
    Seq<u32>,
> {
    Seq::new(frames.len(), |k: int| widened(expanded_row(frames[k].x, f), padded))
}

/// The rows of frames with a one appended, padded.
pub open spec fn extended_frames(frames: Seq<Frame>, xw: int) -> Seq<Seq<u32>> {
    Seq::new(frames.len(), |k: int| widened(frames[k].x.push(ONE), xw))
}

/// The batch holds these frames.
pub open spec fn holds_frames<F: Fn(FloatOp) -> u64>(
    b: Batch,
    frames: Seq<Frame>,
    padded: int,
    xw: int,
    f: F,
) -> bool {
    &&& b.expanded@ == flat(expanded_frames(frames, padded, f))
    &&& b.xplus@ == flat(extended_frames(frames, xw))
    &&& b.pdfs@ == Seq::new(frames.len(), |k: int| frames[k].pdf)
    &&& b.weights@ == Seq::new(frames.len(), |k: int| frames[k].weight)
    &&& b.frames == frames.len()
}

fn new_batch() -> (r: Batch)
    ensures
        r.expanded@ == Seq::<u32>::empty(),
        r.xplus@ == Seq::<u32>::empty(),
        r.pdfs@ == Seq::<u32>::empty(),
        r.weights@ == Seq::<u32>::empty(),
        r.frames == 0,
{
    Batch {
        expanded: Vec::new(),
        xplus: Vec::new(),
        pdfs: Vec::new(),
        weights: Vec::new(),
        frames: 0,
    }
}

fn push_widened(out: &mut Vec<u32>, row: &Vec<u32>, padded: usize)
    requires
        row@.len() <= padded,
    ensures
        final(out)@ == old(out)@ + widened(row@, padded as int),
{
    let ghost before = out@;
    out.extend_from_slice(row.as_slice());
    let n: usize = row.len();
    let mut k: usize = n;
    while k < padded
        invariant
            n == row@.len(),
            n <= k <= padded,
            out@ == before + row@ + Seq::new((k - n) as nat, |k: int| ZERO),
        decreases padded - k,
    {
        out.push(ZERO);
        assert(out@ =~= before + row@ + Seq::new((k + 1 - n) as nat, |k: int| ZERO));
        k += 1;
    }
    assert(out@ =~= before + widened(row@, padded as int));
}

fn push_frame<F: Fn(FloatOp) -> u64>(
    b: &mut Batch,
    x: &Vec<u32>,
    pdf: u32,
    weight: u32,
    padded: usize,
    xw: usize,
    f: &F,
    Ghost(frames): Ghost<Seq<Frame>>,
)
    requires
        is_evaluator(*f),
        holds_frames(*old(b), frames, padded as int, xw as int, *f),
        frames.len() < MAX_BATCH_FRAMES,
        1 + 2 * x@.len() <= padded,
        x@.len() + 1 <= xw,
    ensures
        holds_frames(
            *final(b),
            frames.push(Frame { x: x@, pdf, weight }),
            padded as int,
            xw as int,
            *f,
        ),
{
    let ghost next = frames.push(Frame { x: x@, pdf, weight });
    let row = PackedGmm::frame_row(x.as_slice(), f);
    push_widened(&mut b.expanded, &row, padded);
    let mut ext: Vec<u32> = Vec::new();
    ext.extend_from_slice(x.as_slice());
    ext.push(ONE);
    push_widened(&mut b.xplus, &ext, xw);
    b.pdfs.push(pdf);
    b.weights.push(weight);
    b.frames = b.frames + 1;
    proof {
        assert(row@ =~= expanded_row(x@, *f));
        assert(ext@ =~= x@.push(ONE));
        flat_push(expanded_frames(frames, padded as int, *f), widened(row@, padded as int));
        flat_push(extended_frames(frames, xw as int), widened(ext@, xw as int));
        assert(expanded_frames(next, padded as int, *f) =~= expanded_frames(
            frames,
            padded as int,
            *f,
        ).push(widened(row@, padded as int)));
        assert(extended_frames(next, xw as int) =~= extended_frames(frames, xw as int).push(
            widened(ext@, xw as int),
        ));
        assert(b.pdfs@ =~= Seq::new(next.len(), |k: int| next[k].pdf));
        assert(b.weights@ =~= Seq::new(next.len(), |k: int| next[k].weight));
    }
}

/// The frames of batch `k` of a list of frames.
pub open spec fn part(frames: Seq<Frame>, k: int) -> Seq<Frame> {
    let end = (k + 1) * MAX_BATCH_FRAMES;
    frames.subrange(
        k * MAX_BATCH_FRAMES,
        if end < frames.len() {
            end
        } else {
            frames.len() as int
        },
    )
}

/// How many batches there are for a number of frames.
pub open spec fn batches_for(frames: int) -> int {
    (frames + MAX_BATCH_FRAMES - 1) / MAX_BATCH_FRAMES as int
}

/// Every frame is in exactly the batch that its place says.
pub proof fn batches_cover_all(frames: Seq<Frame>, i: int)
    requires
        0 <= i < frames.len(),
    ensures
        ({
            let k = i / MAX_BATCH_FRAMES as int;
            &&& 0 <= k < batches_for(frames.len() as int)
            &&& i - k * MAX_BATCH_FRAMES < part(frames, k).len()
            &&& part(frames, k)[i - k * MAX_BATCH_FRAMES] == frames[i]
        }),
{
}

/// The frames of a speaker in batches of at most [`MAX_BATCH_FRAMES`] frames. Frames with a weight
/// of zero are left out.
pub fn build_batches<F: Fn(FloatOp) -> u64>(
    feats: &Vec<Matrix>,
    pdf_per_frame: &Vec<Vec<PdfId>>,
    weights: &Vec<Vec<u32>>,
    dim: usize,
    padded: usize,
    xw: usize,
    f: &F,
) -> (r: Vec<Batch>)
    requires
        is_evaluator(*f),
        feats@.len() == pdf_per_frame@.len(),
        feats@.len() == weights@.len(),
        1 + 2 * dim <= padded,
        dim + 1 <= xw,
        forall|i: int| 0 <= i < feats@.len() ==> (#[trigger] feats@[i])@.wf() && feats@[i].cols == dim,
    ensures
        ({
            let all = (SpeakerView {
                feats: matrices(feats@),
                pdfs: lists(pdf_per_frame@),
                weights: lists(weights@),
            }).kept(feats@.len() as int);
            &&& r@.len() == batches_for(all.len() as int)
            &&& forall|k: int|
                0 <= k < r@.len() ==> holds_frames(
                    #[trigger] r@[k],
                    part(all, k),
                    padded as int,
                    xw as int,
                    *f,
                )
        }),
{
    let ghost s = SpeakerView {
        feats: matrices(feats@),
        pdfs: lists(pdf_per_frame@),
        weights: lists(weights@),
    };
    let mut out: Vec<Batch> = Vec::new();
    let mut cur = new_batch();
    let ghost mut all: Seq<Frame> = seq![];
    let ghost mut done: Seq<Frame> = seq![];
    proof {
        assert(all.subrange(0, 0) =~= seq![]);
        assert(expanded_frames(all, padded as int, *f) =~= seq![]);
        assert(extended_frames(all, xw as int) =~= seq![]);
        assert(cur.pdfs@ =~= Seq::new(0, |k: int| all[k].pdf));
        assert(cur.weights@ =~= Seq::new(0, |k: int| all[k].weight));
    }
    let mut i: usize = 0;
    while i < feats.len()
        invariant
            is_evaluator(*f),
            s == (SpeakerView {
                feats: matrices(feats@),
                pdfs: lists(pdf_per_frame@),
                weights: lists(weights@),
            }),
            feats@.len() == pdf_per_frame@.len(),
            feats@.len() == weights@.len(),
            1 + 2 * dim <= padded,
            dim + 1 <= xw,
            forall|i: int|
                0 <= i < feats@.len() ==> (#[trigger] feats@[i])@.wf() && feats@[i].cols == dim,
            i <= feats@.len(),
            all == s.kept(i as int),
            all.len() == out@.len() * MAX_BATCH_FRAMES + cur.frames,
            cur.frames < MAX_BATCH_FRAMES,
            holds_frames(
                cur,
                all.subrange(out@.len() * MAX_BATCH_FRAMES, all.len() as int),
                padded as int,
                xw as int,
                *f,
            ),
            forall|k: int|
                0 <= k < out@.len() ==> holds_frames(
                    #[trigger] out@[k],
                    all.subrange(k * MAX_BATCH_FRAMES, (k + 1) * MAX_BATCH_FRAMES),
                    padded as int,
                    xw as int,
                    *f,
                ),
        decreases feats.len() - i,
    {
        assert(s.feats[i as int] == feats@[i as int]@);
        assert(s.pdfs[i as int] == pdf_per_frame@[i as int]@);
        assert(s.weights[i as int] == weights@[i as int]@);
        assert(feats@[i as int]@.wf());
        let rows = &feats[i].rows;
        let pdfs = &pdf_per_frame[i];
        let ws = &weights[i];
        let mut used: usize = rows.len();
        if pdfs.len() < used {
            used = pdfs.len();
        }
        if ws.len() < used {
            used = ws.len();
        }
        let ghost before = all;
        proof {
            assert(before + s.kept_in(i as int, 0) =~= before);
        }
        let mut t: usize = 0;
        while t < used
            invariant
                is_evaluator(*f),
                1 + 2 * dim <= padded,
                dim + 1 <= xw,
                i < feats@.len(),
                s.feats[i as int] == feats@[i as int]@,
                s.pdfs[i as int] == pdfs@,
                s.weights[i as int] == ws@,
                feats@[i as int]@.wf(),
                feats@[i as int].cols == dim,
                rows@ == feats@[i as int].rows@,
                used <= rows@.len(),
                used <= pdfs@.len(),
                used <= ws@.len(),
                t <= used,
                all == before + s.kept_in(i as int, t as int),
                all.len() == out@.len() * MAX_BATCH_FRAMES + cur.frames,
                cur.frames < MAX_BATCH_FRAMES,
                holds_frames(
                    cur,
                    all.subrange(out@.len() * MAX_BATCH_FRAMES, all.len() as int),
                    padded as int,
                    xw as int,
                    *f,
                ),
                forall|k: int|
                    0 <= k < out@.len() ==> holds_frames(
                        #[trigger] out@[k],
                        all.subrange(k * MAX_BATCH_FRAMES, (k + 1) * MAX_BATCH_FRAMES),
                        padded as int,
                        xw as int,
                        *f,
                    ),
            decreases used - t,
        {
            if !eq(ws[t], ZERO) {
                let ghost start = out@.len() * MAX_BATCH_FRAMES;
                let ghost held = all.subrange(start, all.len() as int);
                let ghost x = rows@[t as int]@;
                let ghost prev = all;
                proof {
                    assert(s.feats[i as int].rows[t as int] == x);
                }
                push_frame(&mut cur, &rows[t], pdfs[t], ws[t], padded, xw, f, Ghost(held));
                proof {
                    let frame = Frame { x, pdf: pdfs@[t as int], weight: ws@[t as int] };
                    all = prev.push(frame);
                    assert(all =~= before + s.kept_in(i as int, t + 1));
                    assert(all.subrange(start, all.len() as int) =~= held.push(frame));
                    assert forall|k: int| 0 <= k < out@.len() implies holds_frames(
                        #[trigger] out@[k],
                        all.subrange(k * MAX_BATCH_FRAMES, (k + 1) * MAX_BATCH_FRAMES),
                        padded as int,
                        xw as int,
                        *f,
                    ) by {
                        assert(all.subrange(k * MAX_BATCH_FRAMES, (k + 1) * MAX_BATCH_FRAMES)
                            =~= prev.subrange(k * MAX_BATCH_FRAMES, (k + 1) * MAX_BATCH_FRAMES));
                    }
                }
                if cur.frames == MAX_BATCH_FRAMES {
                    let full = cur;
                    cur = new_batch();
                    let ghost had = out@.len() as int;
                    out.push(full);
                    proof {
                        let none = all.subrange(out@.len() * MAX_BATCH_FRAMES, all.len() as int);
                        assert(none =~= seq![]);
                        assert(expanded_frames(none, padded as int, *f) =~= seq![]);
                        assert(extended_frames(none, xw as int) =~= seq![]);
                        assert(cur.pdfs@ =~= Seq::new(none.len(), |k: int| none[k].pdf));
                        assert(cur.weights@ =~= Seq::new(none.len(), |k: int| none[k].weight));
                        assert(all.subrange(had * MAX_BATCH_FRAMES, (had + 1) * MAX_BATCH_FRAMES)
                            =~= all.subrange(start, all.len() as int));
                    }
                }
            }
            t += 1;
        }
        i += 1;
    }
    proof {
        assert forall|k: int| 0 <= k < out@.len() implies holds_frames(
            #[trigger] out@[k],
            part(all, k),
            padded as int,
            xw as int,
            *f,
        ) by {
            assert(part(all, k) =~= all.subrange(k * MAX_BATCH_FRAMES, (k + 1) * MAX_BATCH_FRAMES));
        }
        assert(part(all, out@.len() as int) =~= all.subrange(
            out@.len() * MAX_BATCH_FRAMES,
            all.len() as int,
        ));
    }
    if cur.frames > 0 {
        out.push(cur);
    }
    out
}

/// The sums that a device has made of a batch: the count, and the two tables of the transform's
/// statistics, in double precision.
#[derive(Debug)]
pub struct BatchSums {
    pub beta: u64,
    pub k: Vec<Vec<u64>>,
    pub g: Vec<Vec<Vec<u64>>>,
}

/// The sum of the first `n` values, in double precision.
pub open spec fn sum_widened<F: Fn(FloatOp) -> u64>(xs: Seq<u32>, n: int, f: F) -> u64
    decreases n,
{
    if n <= 0 {
        WIDE_ZERO
    } else {
        wide_value(
            f,
            FloatOp::AddWide(
                sum_widened(xs, n - 1, f),
                wide_value(f, FloatOp::Widen(xs[n - 1])),
            ),
        )
    }
}

/// The place of entry `(i, j)` of the first table.
pub open spec fn k_place(frames: int, dim: int, i: int, j: int) -> int {
    frames + i * (dim + 1) + j
}

/// The place of entry `(r, c)` of matrix `i` of the second table, of which only the upper triangle is
/// written: below the diagonal it is the place of the mirrored entry.
pub open spec fn g_place(frames: int, dim: int, i: int, r: int, c: int) -> int {
    let (a, b) = if c < r {
        (c, r)
    } else {
        (r, c)
    };
    frames + dim * (dim + 1) + (i * (dim + 1) + a) * (dim + 1) + b
}

/// How many values a device hands back for a batch.
pub open spec fn sums_len(frames: int, dim: int) -> int {
    frames + dim * (dim + 1) + dim * (dim + 1) * (dim + 1)
}

/// The second table is symmetric.
pub proof fn g_is_symmetric(frames: int, dim: int, i: int, r: int, c: int)
    ensures
        g_place(frames, dim, i, r, c) == g_place(frames, dim, i, c, r),
{
}

proof fn places_are_inside(frames: int, dim: int, i: int, a: int, b: int)
    requires
        0 <= frames,
        0 <= i < dim,
        0 <= a <= dim,
        0 <= b <= dim,
    ensures
        0 <= i * (dim + 1) + b,
        frames <= k_place(frames, dim, i, b) < frames + dim * (dim + 1),
        0 <= (i * (dim + 1) + a) * (dim + 1) + b < dim * (dim + 1) * (dim + 1),
        0 <= dim * (dim + 1),
        0 <= i * (dim + 1) + a < dim * (dim + 1),
{
    let d = dim + 1;
    assert(0 <= i * d && (i + 1) * d == i * d + d && (i + 1) * d <= dim * d) by (nonlinear_arith)
        requires
            0 <= i < dim,
            0 <= d,
    ;
    let q = i * d + a;
    let m = dim * d;
    assert(0 <= q * d && (q + 1) * d == q * d + d && (q + 1) * d <= m * d) by (nonlinear_arith)
        requires
            0 <= q < m,
            0 <= d,
    ;
}

/// The tables from the values that a device hands back.
pub fn read_sums<F: Fn(FloatOp) -> u64>(all: &Vec<u32>, frames: usize, dim: usize, f: &F) -> (r: BatchSums)
    requires
        is_evaluator(*f),
        dim < usize::MAX,
        all@.len() == sums_len(frames as int, dim as int),
    ensures
        r.beta == sum_widened(all@, frames as int, *f),
        rows_of(r.k@) == grid(
            dim as int,
            dim + 1,
            |i: int, j: int|
                wide_value(*f, FloatOp::Widen(all@[k_place(frames as int, dim as int, i, j)])),
        ),
        r.g@.len() == dim,
        forall|i: int|
            0 <= i < dim ==> rows_of((#[trigger] r.g@[i])@) == grid(
                dim + 1,
                dim + 1,
                |a: int, b: int|
                    wide_value(
                        *f,
                        FloatOp::Widen(all@[g_place(frames as int, dim as int, i, a, b)]),
                    ),
            ),
{
    let total: usize = all.len();
    let d: usize = dim + 1;
    let fg: Ghost<F> = Ghost(*f);
    proof {
        assert(0 <= dim * d) by (nonlinear_arith);
        assert(0 <= dim * d * d) by (nonlinear_arith);
    }
    let mut beta: u64 = WIDE_ZERO;
    let mut t: usize = 0;
    while t < frames
        invariant
            is_evaluator(*f),
            frames <= all@.len(),
            t <= frames,
            beta == sum_widened(all@, t as int, *f),
        decreases frames - t,
    {
        beta = eval_wide(f, FloatOp::AddWide(beta, eval_wide(f, FloatOp::Widen(all[t]))));
        t += 1;
    }
    let k_entry = |i: usize, j: usize| -> (v: u64)
        requires
            i < dim,
            j < d,
        ensures
            v == wide_value(
                fg@,
                FloatOp::Widen(all@[k_place(frames as int, dim as int, i as int, j as int)]),
            ),
        {
            proof {
                places_are_inside(frames as int, dim as int, i as int, 0, j as int);
                places_are_inside(frames as int, dim as int, i as int, 0, 0);
            }
            eval_wide(f, FloatOp::Widen(all[frames + i * d + j]))
        };
    let k = grid_of(
        dim,
        d,
        &k_entry,
        Ghost(
            |i: int, j: int|
                wide_value(*f, FloatOp::Widen(all@[k_place(frames as int, dim as int, i, j)])),
        ),
    );
    let mut g: Vec<Vec<Vec<u64>>> = Vec::new();
    let mut i: usize = 0;
    while i < dim
        invariant
            is_evaluator(*f),
            fg@ == *f,
            d == dim + 1,
            total == all@.len(),
            all@.len() == sums_len(frames as int, dim as int),
            i <= dim,
            g@.len() == i,
            forall|k: int|
                0 <= k < i ==> rows_of((#[trigger] g@[k])@) == grid(
                    dim + 1,
                    dim + 1,
                    |a: int, b: int|
                        wide_value(
                            *f,
                            FloatOp::Widen(all@[g_place(frames as int, dim as int, k, a, b)]),
                        ),
                ),
        decreases dim - i,
    {
        let g_entry = |a: usize, b: usize| -> (v: u64)
            requires
                a < d,
                b < d,
                i < dim,
            ensures
                v == wide_value(
                    fg@,
                    FloatOp::Widen(
                        all@[g_place(frames as int, dim as int, i as int, a as int, b as int)],
                    ),
                ),
            {
                let (row, col) = if b < a {
                    (b, a)
                } else {
                    (a, b)
                };
                proof {
                    places_are_inside(frames as int, dim as int, i as int, row as int, col as int);
                    places_are_inside(frames as int, dim as int, i as int, 0, 0);
                    let q = i * d + row;
                    let (m, dd) = (dim as int, d as int);
                    assert(0 <= q * dd) by (nonlinear_arith)
                        requires
                            0 <= q,
                            0 <= dd,
                    ;
                    assert(m * dd <= m * dd * dd) by (nonlinear_arith)
                        requires
                            0 <= m,
                            1 <= dd,
                    ;
                }
                let at: usize = frames + dim * d + (i * d + row) * d + col;
                eval_wide(f, FloatOp::Widen(all[at]))
            };
        let ghost want = |a: int, b: int|
            wide_value(*f, FloatOp::Widen(all@[g_place(frames as int, dim as int, i as int, a, b)]));
        let m = grid_of(d, d, &g_entry, Ghost(want));
        g.push(m);
        i += 1;
    }
    BatchSums { beta, k, g }
}

/// A frame with the posteriors of the components of its pdf, times its weight.
#[derive(Debug)]
pub struct WeighedFrame {
    pub x: Vec<u32>,
    pub pdf: PdfId,
    pub posteriors: Vec<u32>,
}

/// The posteriors of the components of a frame's pdf, times its weight unless that is one.
pub open spec fn weighed<F: Fn(FloatOp) -> u64>(frame: Frame, am: Seq<GmmView>, f: F) -> Seq<u32> {
    let p = soft_max(log_likes(am[frame.pdf as int], frame.x, f), f);
    if same(frame.weight, ONE) {
        p
    } else {
        Seq::new(p.len(), |k: int| value(f, FloatOp::Mul(p[k], frame.weight)))
    }
}

/// What a weighed frame is.
pub open spec fn is_weighed<F: Fn(FloatOp) -> u64>(
    w: WeighedFrame,
    frame: Frame,
    am: Seq<GmmView>,
    f: F,
) -> bool {
    w.x@ == frame.x && w.pdf == frame.pdf && w.posteriors@ == weighed(frame, am, f)
}

/// The frames whose weight is not zero have a pdf of the model and a finite log-likelihood.
pub open spec fn can_weigh<F: Fn(FloatOp) -> u64>(
    s: SpeakerView,
    n: int,
    am: Seq<GmmView>,
    f: F,
) -> bool {
    forall|i: int, t: int|
        0 <= i < n && 0 <= t < s.used(i) && !same(s.weights[i][t], ZERO) ==> (
        #[trigger] s.pdfs[i][t]) < am.len() && is_finite_bits(
            soft_max_total(log_likes(am[s.pdfs[i][t] as int], s.feats[i].rows[t], f), f),
        )
}

/// Multiply posteriors by a weight, unless that is one.
fn weigh<F: Fn(FloatOp) -> u64>(p: Vec<u32>, weight: u32, f: &F) -> (r: Vec<u32>)
    requires
        is_evaluator(*f),
    ensures
        r@ == (if same(weight, ONE) {
            p@
        } else {
            Seq::new(p@.len(), |k: int| value(*f, FloatOp::Mul(p@[k], weight)))
        }),
{
    if eq(weight, ONE) {
        return p;
    }
    let mut out: Vec<u32> = Vec::new();
    let mut k: usize = 0;
    while k < p.len()
        invariant
            is_evaluator(*f),
            k <= p@.len(),
            out@ == Seq::new(k as nat, |k: int| value(*f, FloatOp::Mul(p@[k], weight))),
        decreases p.len() - k,
    {
        let ghost before = out@;
        out.push(eval(f, FloatOp::Mul(p[k], weight)));
        k += 1;
        assert(out@ =~= Seq::new(k as nat, |k: int| value(*f, FloatOp::Mul(p@[k], weight))));
    }
    out
}

/// The frames of a speaker, each with the weighed posteriors of its components, in the order in
/// which the statistics of a transform take them. Frames with a weight of zero are left out.
pub fn weigh_frames<F: Fn(FloatOp) -> u64>(
    feats: &Vec<Matrix>,
    pdf_per_frame: &Vec<Vec<PdfId>>,
    weights: &Vec<Vec<u32>>,
    am: &AmDiagGmm,
    dim: usize,
    f: &F,
) -> (r: Vec<WeighedFrame>)
    requires
        is_evaluator(*f),
        is_model(am@, dim as int),
        forall|i: int| 0 <= i < feats@.len() ==> (#[trigger] feats@[i])@.wf() && feats@[i].cols == dim,
        ({
            let s = SpeakerView {
                feats: matrices(feats@),
                pdfs: lists(pdf_per_frame@),
                weights: lists(weights@),
            };
            can_weigh(s, s.utterances(), am@, *f)
        }),
    ensures
        ({
            let s = SpeakerView {
                feats: matrices(feats@),
                pdfs: lists(pdf_per_frame@),
                weights: lists(weights@),
            };
            let all = s.kept(s.utterances());
            &&& r@.len() == all.len()
            &&& forall|k: int| 0 <= k < r@.len() ==> is_weighed(#[trigger] r@[k], all[k], am@, *f)
        }),
{
    let ghost s = SpeakerView {
        feats: matrices(feats@),
        pdfs: lists(pdf_per_frame@),
        weights: lists(weights@),
    };
    let mut n: usize = feats.len();
    if pdf_per_frame.len() < n {
        n = pdf_per_frame.len();
    }
    if weights.len() < n {
        n = weights.len();
    }
    let mut out: Vec<WeighedFrame> = Vec::new();
    let ghost mut all: Seq<Frame> = seq![];
    let mut i: usize = 0;
    while i < n
        invariant
            is_evaluator(*f),
            is_model(am@, dim as int),
            s == (SpeakerView {
                feats: matrices(feats@),
                pdfs: lists(pdf_per_frame@),
                weights: lists(weights@),
            }),
            forall|i: int|
                0 <= i < feats@.len() ==> (#[trigger] feats@[i])@.wf() && feats@[i].cols == dim,
            n == s.utterances(),
            n <= feats@.len(),
            n <= pdf_per_frame@.len(),
            n <= weights@.len(),
            can_weigh(s, n as int, am@, *f),
            i <= n,
            all == s.kept(i as int),
            out@.len() == all.len(),
            forall|k: int|
                0 <= k < out@.len() ==> is_weighed(#[trigger] out@[k], all[k], am@, *f),
        decreases n - i,
    {
        assert(s.feats[i as int] == feats@[i as int]@);
        assert(s.pdfs[i as int] == pdf_per_frame@[i as int]@);
        assert(s.weights[i as int] == weights@[i as int]@);
        assert(feats@[i as int]@.wf());
        let rows = &feats[i].rows;
        let pdfs = &pdf_per_frame[i];
        let ws = &weights[i];
        let mut used: usize = rows.len();
        if pdfs.len() < used {
            used = pdfs.len();
        }
        if ws.len() < used {
            used = ws.len();
        }
        let ghost before = all;
        assert(before + s.kept_in(i as int, 0) =~= before);
        let mut t: usize = 0;
        while t < used
            invariant
                is_evaluator(*f),
                is_model(am@, dim as int),
                can_weigh(s, n as int, am@, *f),
                i < n,
                s.feats[i as int] == feats@[i as int]@,
                s.pdfs[i as int] == pdfs@,
                s.weights[i as int] == ws@,
                feats@[i as int]@.wf(),
                feats@[i as int].cols == dim,
                rows@ == feats@[i as int].rows@,
                used == s.used(i as int),
                used <= rows@.len(),
                used <= pdfs@.len(),
                used <= ws@.len(),
                t <= used,
                all == before + s.kept_in(i as int, t as int),
                out@.len() == all.len(),
                forall|k: int|
                    0 <= k < out@.len() ==> is_weighed(#[trigger] out@[k], all[k], am@, *f),
            decreases used - t,
        {
            if !eq(ws[t], ZERO) {
                let p: PdfId = pdfs[t];
                let ghost x = rows@[t as int]@;
                let ghost frame = Frame { x, pdf: p, weight: ws@[t as int] };
                assert(s.feats[i as int].rows[t as int] == x);
                assert(s.pdfs[i as int][t as int] == p);
                assert(am@[p as int].wf());
                let (posteriors, _) = am.pdf(p).component_posteriors(rows[t].as_slice(), f);
                let posteriors = weigh(posteriors, ws[t], f);
                let w = WeighedFrame { x: rows[t].clone(), pdf: p, posteriors };
                assert(w.x@ =~= x);
                out.push(w);
                proof {
                    assert(is_weighed(w, frame, am@, *f));
                    all = all.push(frame);
                    assert(all =~= before + s.kept_in(i as int, t + 1));
                }
            }
            t += 1;
        }
        i += 1;
    }
    out
}

} // verus!
