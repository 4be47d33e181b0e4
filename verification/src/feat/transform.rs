//! Transforms of features: mean and variance normalisation, deltas, splicing and affine maps.

use vstd::arithmetic::div_mod::{lemma_fundamental_div_mod, lemma_mod_bound};
use vstd::prelude::*;

use crate::feat::options::DeltaOptions;
use crate::float::{
    eq, eval, eval_wide, is_evaluator, is_wide_finite_bits, neg, negated, same, value, wide_at_most,
    wide_eq, wide_less, wide_lt, wide_neg, wide_negated, wide_same, wide_value, FloatOp, ONE,
    WIDE_ONE, WIDE_ZERO, ZERO,
};
use crate::gmm::matrix::{tabulated, Matrix, MatrixView};
use crate::table::list_of;

verus! {

/// The least variance, 1e-20 in double precision.
pub const VARIANCE_FLOOR: u64 = 0x3bc7_9ca1_0c92_4223;

/// Sums over frames: of the values, of their squares, and of the frames.
#[derive(Clone, Debug)]
pub struct CmvnStats {
    pub sum: Vec<u64>,
    pub sumsq: Vec<u64>,
    pub count: u64,
}

/// What sums over frames are.
#[verifier::ext_equal]
pub struct CmvnView {
    pub sum: Seq<u64>,
    pub sumsq: Seq<u64>,
    pub count: u64,
}

impl View for CmvnStats {
    type V = CmvnView;

    open spec fn view(&self) -> CmvnView {
        CmvnView { sum: self.sum@, sumsq: self.sumsq@, count: self.count }
    }
}

/// Sums over no frames.
pub open spec fn no_frames(dim: int) -> CmvnView {
    CmvnView {
        sum: Seq::new(dim as nat, |d: int| WIDE_ZERO),
        sumsq: Seq::new(dim as nat, |d: int| WIDE_ZERO),
        count: WIDE_ZERO,
    }
}

impl CmvnView {
    /// There is a sum of squares for every sum.
    pub open spec fn wf(self) -> bool {
        self.sum.len() == self.sumsq.len()
    }

    /// The sums, with a dimension if they had none yet.
    pub open spec fn started(self, dim: int) -> CmvnView {
        if self.sum.len() == 0 && wide_same(self.count, WIDE_ZERO) {
            CmvnView { count: self.count, ..no_frames(dim) }
        } else {
            self
        }
    }

    /// The sums with a frame added.
    pub open spec fn with_row<F: Fn(FloatOp) -> u64>(self, x: Seq<u32>, f: F) -> CmvnView {
        CmvnView {
            sum: Seq::new(
                self.sum.len(),
                |d: int|
                    wide_value(
                        f,
                        FloatOp::AddWide(self.sum[d], wide_value(f, FloatOp::Widen(x[d]))),
                    ),
            ),
            sumsq: Seq::new(
                self.sum.len(),
                |d: int|
                    {
                        let v = wide_value(f, FloatOp::Widen(x[d]));
                        wide_value(
                            f,
                            FloatOp::AddWide(self.sumsq[d], wide_value(f, FloatOp::MulWide(v, v))),
                        )
                    },
            ),
            count: wide_value(f, FloatOp::AddWide(self.count, WIDE_ONE)),
        }
    }

    /// The sums with the first `n` rows added.
    pub open spec fn with_rows<F: Fn(FloatOp) -> u64>(
        self,
        rows: Seq<Seq<u32>>,
        n: int,
        f: F,
    ) -> CmvnView
        decreases n,
    {
        if n <= 0 {
            self
        } else {
            self.with_rows(rows, n - 1, f).with_row(rows[n - 1], f)
        }
    }

    /// The sums with a weighted frame added; a weight of zero adds nothing.
    pub open spec fn with_weighted<F: Fn(FloatOp) -> u64>(self, x: Seq<u32>, weight: u64, f: F) -> CmvnView {
        if wide_same(weight, WIDE_ZERO) {
            self
        } else {
            CmvnView {
                sum: Seq::new(
                    self.sum.len(),
                    |d: int|
                        {
                            let v = wide_value(f, FloatOp::Widen(x[d]));
                            wide_value(
                                f,
                                FloatOp::AddWide(
                                    self.sum[d],
                                    wide_value(f, FloatOp::MulWide(v, weight)),
                                ),
                            )
                        },
                ),
                sumsq: Seq::new(
                    self.sum.len(),
                    |d: int|
                        {
                            let v = wide_value(f, FloatOp::Widen(x[d]));
                            let square = wide_value(f, FloatOp::MulWide(v, v));
                            wide_value(
                                f,
                                FloatOp::AddWide(
                                    self.sumsq[d],
                                    wide_value(f, FloatOp::MulWide(square, weight)),
                                ),
                            )
                        },
                ),
                count: wide_value(f, FloatOp::AddWide(self.count, weight)),
            }
        }
    }

    /// The sums with others added.
    pub open spec fn plus<F: Fn(FloatOp) -> u64>(self, o: CmvnView, f: F) -> CmvnView {
        CmvnView {
            sum: Seq::new(
                self.sum.len(),
                |d: int| wide_value(f, FloatOp::AddWide(self.sum[d], o.sum[d])),
            ),
            sumsq: Seq::new(
                self.sum.len(),
                |d: int| wide_value(f, FloatOp::AddWide(self.sumsq[d], o.sumsq[d])),
            ),
            count: wide_value(f, FloatOp::AddWide(self.count, o.count)),
        }
    }
}

fn zeros(dim: usize) -> (r: Vec<u64>)
    ensures
        r@ == Seq::new(dim as nat, |d: int| WIDE_ZERO),
{
    let item = |d: usize| -> (v: u64)
        ensures
            v == WIDE_ZERO,
        { WIDE_ZERO };
    list_of(dim, &item, Ghost(|d: int| WIDE_ZERO))
}

impl CmvnStats {
    /// Sums over no frames.
    pub fn new(dim: usize) -> (r: Self)
        ensures
            r@ == no_frames(dim as int),
    {
        CmvnStats { sum: zeros(dim), sumsq: zeros(dim), count: WIDE_ZERO }
    }

    pub fn dim(&self) -> (r: usize)
        ensures
            r == self@.sum.len(),
    {
        self.sum.len()
    }

    fn start(&mut self, dim: usize)
        ensures
            final(self)@ == old(self)@.started(dim as int),
    {
        if self.sum.len() == 0 && wide_eq(self.count, WIDE_ZERO) {
            self.sum = zeros(dim);
            self.sumsq = zeros(dim);
        }
    }

    /// Add every frame.
    pub fn accumulate<F: Fn(FloatOp) -> u64>(&mut self, feats: &Matrix, f: &F)
        requires
            is_evaluator(*f),
            old(self)@.wf(),
            feats@.wf(),
            old(self)@.started(feats@.cols).sum.len() == feats@.cols,
        ensures
            final(self)@ == old(self)@.started(feats@.cols).with_rows(
                feats@.rows,
                feats@.rows.len() as int,
                *f,
            ),
            final(self)@.wf(),
            final(self)@.sum.len() == feats@.cols,
    {
        self.start(feats.cols);
        let ghost first = self@;
        let dim: usize = feats.cols;
        let fg: Ghost<F> = Ghost(*f);
        let mut t: usize = 0;
        while t < feats.rows.len()
            invariant
                is_evaluator(*f),
                fg@ == *f,
                feats@.wf(),
                dim == feats@.cols,
                first.sum.len() == dim,
                t <= feats.rows@.len(),
                self@ == first.with_rows(feats@.rows, t as int, *f),
                self@.wf(),
                self@.sum.len() == dim,
            decreases feats.rows.len() - t,
        {
            let ghost before = self@;
            let row = &feats.rows[t];
            assert(feats@.rows[t as int] == row@);
            let sum = &self.sum;
            let sum_item = |d: usize| -> (v: u64)
                requires
                    d < dim,
                ensures
                    v == wide_value(
                        fg@,
                        FloatOp::AddWide(
                            sum@[d as int],
                            wide_value(fg@, FloatOp::Widen(row@[d as int])),
                        ),
                    ),
                { eval_wide(f, FloatOp::AddWide(sum[d], eval_wide(f, FloatOp::Widen(row[d])))) };
            let new_sum = list_of(
                dim,
                &sum_item,
                Ghost(
                    |d: int|
                        wide_value(
                            *f,
                            FloatOp::AddWide(sum@[d], wide_value(*f, FloatOp::Widen(row@[d]))),
                        ),
                ),
            );
            let sumsq = &self.sumsq;
            let square_item = |d: usize| -> (v: u64)
                requires
                    d < dim,
                ensures
                    v == ({
                        let x = wide_value(fg@, FloatOp::Widen(row@[d as int]));
                        wide_value(
                            fg@,
                            FloatOp::AddWide(
                                sumsq@[d as int],
                                wide_value(fg@, FloatOp::MulWide(x, x)),
                            ),
                        )
                    }),
                {
                    let x: u64 = eval_wide(f, FloatOp::Widen(row[d]));
                    eval_wide(
                        f,
                        FloatOp::AddWide(sumsq[d], eval_wide(f, FloatOp::MulWide(x, x))),
                    )
                };
            let new_sumsq = list_of(
                dim,
                &square_item,
                Ghost(
                    |d: int|
                        {
                            let x = wide_value(*f, FloatOp::Widen(row@[d]));
                            wide_value(
                                *f,
                                FloatOp::AddWide(sumsq@[d], wide_value(*f, FloatOp::MulWide(x, x))),
                            )
                        },
                ),
            );
            self.sum = new_sum;
            self.sumsq = new_sumsq;
            self.count = eval_wide(f, FloatOp::AddWide(self.count, WIDE_ONE));
            assert(self@ =~= before.with_row(row@, *f));
            t += 1;
        }
    }

    /// Add one weighted frame.
    pub fn accumulate_frame<F: Fn(FloatOp) -> u64>(&mut self, frame: &[u32], weight: u64, f: &F)
        requires
            is_evaluator(*f),
            old(self)@.wf(),
            wide_same(weight, WIDE_ZERO) || frame@.len() == old(self)@.sum.len(),
        ensures
            final(self)@ == old(self)@.with_weighted(frame@, weight, *f),
            final(self)@.wf(),
    {
        if wide_eq(weight, WIDE_ZERO) {
            return;
        }
        let ghost before = self@;
        let dim: usize = self.sum.len();
        let fg: Ghost<F> = Ghost(*f);
        let sum = &self.sum;
        let sum_item = |d: usize| -> (v: u64)
            requires
                d < dim,
            ensures
                v == ({
                    let x = wide_value(fg@, FloatOp::Widen(frame@[d as int]));
                    wide_value(
                        fg@,
                        FloatOp::AddWide(
                            sum@[d as int],
                            wide_value(fg@, FloatOp::MulWide(x, weight)),
                        ),
                    )
                }),
            {
                let x: u64 = eval_wide(f, FloatOp::Widen(frame[d]));
                eval_wide(f, FloatOp::AddWide(sum[d], eval_wide(f, FloatOp::MulWide(x, weight))))
            };
        let new_sum = list_of(
            dim,
            &sum_item,
            Ghost(
                |d: int|
                    {
                        let x = wide_value(*f, FloatOp::Widen(frame@[d]));
                        wide_value(
                            *f,
                            FloatOp::AddWide(sum@[d], wide_value(*f, FloatOp::MulWide(x, weight))),
                        )
                    },
            ),
        );
        let sumsq = &self.sumsq;
        let square_item = |d: usize| -> (v: u64)
            requires
                d < dim,
            ensures
                v == ({
                    let x = wide_value(fg@, FloatOp::Widen(frame@[d as int]));
                    let square = wide_value(fg@, FloatOp::MulWide(x, x));
                    wide_value(
                        fg@,
                        FloatOp::AddWide(
                            sumsq@[d as int],
                            wide_value(fg@, FloatOp::MulWide(square, weight)),
                        ),
                    )
                }),
            {
                let x: u64 = eval_wide(f, FloatOp::Widen(frame[d]));
                let square: u64 = eval_wide(f, FloatOp::MulWide(x, x));
                eval_wide(
                    f,
                    FloatOp::AddWide(sumsq[d], eval_wide(f, FloatOp::MulWide(square, weight))),
                )
            };
        let new_sumsq = list_of(
            dim,
            &square_item,
            Ghost(
                |d: int|
                    {
                        let x = wide_value(*f, FloatOp::Widen(frame@[d]));
                        let square = wide_value(*f, FloatOp::MulWide(x, x));
                        wide_value(
                            *f,
                            FloatOp::AddWide(
                                sumsq@[d],
                                wide_value(*f, FloatOp::MulWide(square, weight)),
                            ),
                        )
                    },
            ),
        );
        self.sum = new_sum;
        self.sumsq = new_sumsq;
        self.count = eval_wide(f, FloatOp::AddWide(self.count, weight));
        assert(self@ =~= before.with_weighted(frame@, weight, *f));
    }

    /// Add other sums.
    pub fn merge<F: Fn(FloatOp) -> u64>(&mut self, o: &Self, f: &F)
        requires
            is_evaluator(*f),
            old(self)@.wf(),
            o@.wf(),
            old(self)@.started(o@.sum.len() as int).sum.len() == o@.sum.len(),
        ensures
            final(self)@ == old(self)@.started(o@.sum.len() as int).plus(o@, *f),
            final(self)@.wf(),
    {
        let dim: usize = o.sum.len();
        self.start(dim);
        let ghost before = self@;
        let fg: Ghost<F> = Ghost(*f);
        let (a, b) = (&self.sum, &o.sum);
        let sum_item = |d: usize| -> (v: u64)
            requires
                d < dim,
            ensures
                v == wide_value(fg@, FloatOp::AddWide(a@[d as int], b@[d as int])),
            { eval_wide(f, FloatOp::AddWide(a[d], b[d])) };
        let new_sum = list_of(
            dim,
            &sum_item,
            Ghost(|d: int| wide_value(*f, FloatOp::AddWide(a@[d], b@[d]))),
        );
        let (c, e) = (&self.sumsq, &o.sumsq);
        let square_item = |d: usize| -> (v: u64)
            requires
                d < dim,
            ensures
                v == wide_value(fg@, FloatOp::AddWide(c@[d as int], e@[d as int])),
            { eval_wide(f, FloatOp::AddWide(c[d], e[d])) };
        let new_sumsq = list_of(
            dim,
            &square_item,
            Ghost(|d: int| wide_value(*f, FloatOp::AddWide(c@[d], e@[d]))),
        );
        self.sum = new_sum;
        self.sumsq = new_sumsq;
        self.count = eval_wide(f, FloatOp::AddWide(self.count, o.count));
        assert(self@ =~= before.plus(o@, *f));
    }

    /// The mean of every dimension.
    pub fn mean<F: Fn(FloatOp) -> u64>(&self, f: &F) -> (r: Vec<u64>)
        requires
            is_evaluator(*f),
            wide_less(WIDE_ZERO, self@.count),
        ensures
            r@ == Seq::new(
                self@.sum.len(),
                |d: int| wide_value(*f, FloatOp::DivWide(self@.sum[d], self@.count)),
            ),
    {
        let fg: Ghost<F> = Ghost(*f);
        let (sum, count) = (&self.sum, self.count);
        let item = |d: usize| -> (v: u64)
            requires
                d < sum@.len(),
            ensures
                v == wide_value(fg@, FloatOp::DivWide(sum@[d as int], count)),
            { eval_wide(f, FloatOp::DivWide(sum[d], count)) };
        list_of(
            sum.len(),
            &item,
            Ghost(|d: int| wide_value(*f, FloatOp::DivWide(sum@[d], count))),
        )
    }
}

/// What is added to dimension `d` to take the mean out.
pub open spec fn mean_offset<F: Fn(FloatOp) -> u64>(s: CmvnView, d: int, f: F) -> u32 {
    value(f, FloatOp::Narrow(wide_value(f, FloatOp::DivWide(wide_negated(s.sum[d]), s.count))))
}

/// The variance of dimension `d`, at least [`VARIANCE_FLOOR`].
pub open spec fn variance<F: Fn(FloatOp) -> u64>(s: CmvnView, d: int, f: F) -> u64 {
    let mean = wide_value(f, FloatOp::DivWide(s.sum[d], s.count));
    let var = wide_value(
        f,
        FloatOp::SubWide(
            wide_value(f, FloatOp::DivWide(s.sumsq[d], s.count)),
            wide_value(f, FloatOp::MulWide(mean, mean)),
        ),
    );
    if wide_less(var, VARIANCE_FLOOR) {
        VARIANCE_FLOOR
    } else {
        var
    }
}

/// What dimension `d` is multiplied by to have unit variance.
pub open spec fn wide_scale<F: Fn(FloatOp) -> u64>(s: CmvnView, d: int, f: F) -> u64 {
    wide_value(f, FloatOp::DivWide(WIDE_ONE, wide_value(f, FloatOp::SqrtWide(variance(s, d, f)))))
}

/// What is added to dimension `d` after it has been scaled.
pub open spec fn scaled_offset<F: Fn(FloatOp) -> u64>(s: CmvnView, d: int, f: F) -> u32 {
    let mean = wide_value(f, FloatOp::DivWide(s.sum[d], s.count));
    value(
        f,
        FloatOp::Narrow(wide_negated(wide_value(f, FloatOp::MulWide(mean, wide_scale(s, d, f))))),
    )
}

/// Every dimension can be scaled.
pub open spec fn can_scale<F: Fn(FloatOp) -> u64>(s: CmvnView, f: F) -> bool {
    forall|d: int|
        0 <= d < s.sum.len() ==> is_wide_finite_bits(#[trigger] wide_scale(s, d, f)) && !wide_same(
            wide_scale(s, d, f),
            WIDE_ZERO,
        )
}

/// The features with the mean taken out and, if asked for, unit variances.
pub open spec fn normalised<F: Fn(FloatOp) -> u64>(
    m: MatrixView,
    s: CmvnView,
    norm_vars: bool,
    f: F,
) -> MatrixView {
    tabulated(
        m.rows.len() as int,
        m.cols,
        |t: int, d: int|
            if norm_vars {
                value(
                    f,
                    FloatOp::Add(
                        value(
                            f,
                            FloatOp::Mul(
                                m.rows[t][d],
                                value(f, FloatOp::Narrow(wide_scale(s, d, f))),
                            ),
                        ),
                        scaled_offset(s, d, f),
                    ),
                )
            } else {
                value(f, FloatOp::Add(m.rows[t][d], mean_offset(s, d, f)))
            },
    )
}

fn scale_and_offset<F: Fn(FloatOp) -> u64>(s: &CmvnStats, d: usize, f: &F) -> (r: (u32, u32))
    requires
        is_evaluator(*f),
        s@.wf(),
        d < s@.sum.len(),
    ensures
        r.0 == value(*f, FloatOp::Narrow(wide_scale(s@, d as int, *f))),
        r.1 == scaled_offset(s@, d as int, *f),
{
    let mean: u64 = eval_wide(f, FloatOp::DivWide(s.sum[d], s.count));
    let square: u64 = eval_wide(f, FloatOp::MulWide(mean, mean));
    let mut var: u64 = eval_wide(
        f,
        FloatOp::SubWide(eval_wide(f, FloatOp::DivWide(s.sumsq[d], s.count)), square),
    );
    if wide_lt(var, VARIANCE_FLOOR) {
        var = VARIANCE_FLOOR;
    }
    let scale: u64 = eval_wide(f, FloatOp::DivWide(WIDE_ONE, eval_wide(f, FloatOp::SqrtWide(var))));
    let shift: u64 = eval_wide(f, FloatOp::MulWide(mean, scale));
    (eval(f, FloatOp::Narrow(scale)), eval(f, FloatOp::Narrow(wide_neg(shift))))
}

/// Take the mean out of features and, if asked for, give them unit variances.
pub fn apply_cmvn<F: Fn(FloatOp) -> u64>(feats: &mut Matrix, stats: &CmvnStats, norm_vars: bool, f: &F)
    requires
        is_evaluator(*f),
        old(feats)@.wf(),
        stats@.wf(),
        old(feats)@.cols == stats@.sum.len(),
        wide_at_most(WIDE_ONE, stats@.count),
        norm_vars ==> can_scale(stats@, *f),
    ensures
        final(feats)@ == normalised(old(feats)@, stats@, norm_vars, *f),
{
    let ghost before = feats@;
    let dim: usize = feats.cols;
    let fg: Ghost<F> = Ghost(*f);
    let mut scales: Vec<u32> = Vec::new();
    let mut offsets: Vec<u32> = Vec::new();
    let mut d: usize = 0;
    while d < dim
        invariant
            is_evaluator(*f),
            stats@.wf(),
            dim == stats@.sum.len(),
            d <= dim,
            scales@.len() == d,
            offsets@.len() == d,
            forall|k: int|
                0 <= k < d && norm_vars ==> #[trigger] scales@[k] == value(
                    *f,
                    FloatOp::Narrow(wide_scale(stats@, k, *f)),
                ),
            forall|k: int|
                0 <= k < d ==> #[trigger] offsets@[k] == (if norm_vars {
                    scaled_offset(stats@, k, *f)
                } else {
                    mean_offset(stats@, k, *f)
                }),
        decreases dim - d,
    {
        if norm_vars {
            let (scale, offset) = scale_and_offset(stats, d, f);
            scales.push(scale);
            offsets.push(offset);
        } else {
            let shift: u64 = eval_wide(f, FloatOp::DivWide(wide_neg(stats.sum[d]), stats.count));
            scales.push(ONE);
            offsets.push(eval(f, FloatOp::Narrow(shift)));
        }
        d += 1;
    }
    let rows = &feats.rows;
    let ghost want = |t: int, d: int|
        if norm_vars {
            value(
                *f,
                FloatOp::Add(
                    value(
                        *f,
                        FloatOp::Mul(
                            before.rows[t][d],
                            value(*f, FloatOp::Narrow(wide_scale(stats@, d, *f))),
                        ),
                    ),
                    scaled_offset(stats@, d, *f),
                ),
            )
        } else {
            value(*f, FloatOp::Add(before.rows[t][d], mean_offset(stats@, d, *f)))
        };
    let wg: Ghost<spec_fn(int, int) -> u32> = Ghost(want);
    let bg: Ghost<MatrixView> = Ghost(before);
    let entry = |t: usize, d: usize| -> (v: u32)
        requires
            t < rows@.len(),
            d < dim,
        ensures
            v == (wg@)(t as int, d as int),
        {
            proof {
                assert(bg@.rows[t as int] == rows@[t as int]@);
            }
            if norm_vars {
                eval(f, FloatOp::Add(eval(f, FloatOp::Mul(rows[t][d], scales[d])), offsets[d]))
            } else {
                eval(f, FloatOp::Add(rows[t][d], offsets[d]))
            }
        };
    let out = Matrix::tabulate(rows.len(), dim, &entry, Ghost(want));
    *feats = out;
}

/// The single-precision bits of a small integer.
pub open spec fn signed<F: Fn(FloatOp) -> u64>(j: int, f: F) -> u32 {
    if j < 0 {
        negated(value(f, FloatOp::Count((-j) as u64)))
    } else {
        value(f, FloatOp::Count(j as u64))
    }
}

fn signed_value<F: Fn(FloatOp) -> u64>(j: i64, f: &F) -> (r: u32)
    requires
        is_evaluator(*f),
        -1000 <= j <= 1000,
    ensures
        r == signed(j as int, *f),
{
    if j < 0 {
        neg(eval(f, FloatOp::Count((-j) as u64)))
    } else {
        eval(f, FloatOp::Count(j as u64))
    }
}

/// Entry `p` of a filter convolved with the first `m` of the weights from `-window` on.
pub open spec fn convolved<F: Fn(FloatOp) -> u64>(
    prev: Seq<u32>,
    window: int,
    p: int,
    m: int,
    f: F,
) -> u32
    decreases m,
{
    if m <= 0 {
        ZERO
    } else {
        let sum = convolved(prev, window, p, m - 1, f);
        let q = p - (m - 1);
        if 0 <= q < prev.len() {
            value(
                f,
                FloatOp::Add(sum, value(f, FloatOp::Mul(signed(m - 1 - window, f), prev[q]))),
            )
        } else {
            sum
        }
    }
}

/// The sum of the squares of the first `m` of the weights from `-window` on.
pub open spec fn square_sum<F: Fn(FloatOp) -> u64>(window: int, m: int, f: F) -> u32
    decreases m,
{
    if m <= 0 {
        ZERO
    } else {
        let j = m - 1 - window;
        value(
            f,
            FloatOp::Add(square_sum(window, m - 1, f), value(f, FloatOp::Count((j * j) as u64))),
        )
    }
}

/// The filter of a delta order: that of the order before, convolved with the weights from `-window`
/// to `window`, over the sum of their squares.
pub open spec fn delta_filter<F: Fn(FloatOp) -> u64>(window: int, order: int, f: F) -> Seq<u32>
    decreases order,
{
    if order <= 0 {
        seq![ONE]
    } else {
        let prev = delta_filter(window, order - 1, f);
        let scale = value(f, FloatOp::Div(ONE, square_sum(window, 2 * window + 1, f)));
        Seq::new(
            (prev.len() + 2 * window) as nat,
            |p: int|
                value(f, FloatOp::Mul(convolved(prev, window, p, 2 * window + 1, f), scale)),
        )
    }
}

/// How long a delta filter is.
pub proof fn filter_length<F: Fn(FloatOp) -> u64>(window: int, order: int, f: F)
    requires
        0 <= window,
        0 <= order,
    ensures
        delta_filter(window, order, f).len() == 1 + 2 * window * order,
    decreases order,
{
    if order > 0 {
        filter_length(window, order - 1, f);
        assert(2 * window * order == 2 * window * (order - 1) + 2 * window) by (nonlinear_arith);
    } else {
        assert(2 * window * 0 == 0) by (nonlinear_arith);
    }
}

fn convolve<F: Fn(FloatOp) -> u64>(prev: &Vec<u32>, window: usize, p: usize, f: &F) -> (r: u32)
    requires
        is_evaluator(*f),
        window < 1000,
        prev@.len() <= 10_000_000,
        p <= 10_000_000,
    ensures
        r == convolved(prev@, window as int, p as int, 2 * window + 1, *f),
{
    let mut sum: u32 = ZERO;
    let mut m: usize = 0;
    while m < 2 * window + 1
        invariant
            is_evaluator(*f),
            window < 1000,
            prev@.len() <= 10_000_000,
            p <= 10_000_000,
            m <= 2 * window + 1,
            sum == convolved(prev@, window as int, p as int, m as int, *f),
        decreases 2 * window + 1 - m,
    {
        if m <= p && p - m < prev.len() {
            let j: u32 = signed_value(m as i64 - window as i64, f);
            sum = eval(f, FloatOp::Add(sum, eval(f, FloatOp::Mul(j, prev[p - m]))));
        }
        m += 1;
    }
    sum
}

fn sum_squares<F: Fn(FloatOp) -> u64>(window: usize, f: &F) -> (r: u32)
    requires
        is_evaluator(*f),
        window < 1000,
    ensures
        r == square_sum(window as int, 2 * window + 1, *f),
{
    let mut sum: u32 = ZERO;
    let mut m: usize = 0;
    while m < 2 * window + 1
        invariant
            is_evaluator(*f),
            window < 1000,
            m <= 2 * window + 1,
            sum == square_sum(window as int, m as int, *f),
        decreases 2 * window + 1 - m,
    {
        let a: u64 = if m < window {
            (window - m) as u64
        } else {
            (m - window) as u64
        };
        proof {
            let j = m - window;
            assert(a * a == j * j) by (nonlinear_arith)
                requires
                    a == j || a == -j,
            ;
            assert(a * a <= 1000 * 1000) by (nonlinear_arith)
                requires
                    0 <= a <= 1000,
            ;
        }
        sum = eval(f, FloatOp::Add(sum, eval(f, FloatOp::Count(a * a))));
        m += 1;
    }
    sum
}

/// The filters of the delta orders up to the highest one.
pub fn delta_scales<F: Fn(FloatOp) -> u64>(o: &DeltaOptions, f: &F) -> (r: Vec<Vec<u32>>)
    requires
        is_evaluator(*f),
        o.order < 1000,
        0 < o.window < 1000,
    ensures
        r@.len() == o.order + 1,
        forall|i: int|
            0 <= i <= o.order ==> (#[trigger] r@[i])@ == delta_filter(o.window as int, i, *f),
{
    let window: usize = o.window as usize;
    let order: usize = o.order as usize;
    let fg: Ghost<F> = Ghost(*f);
    let mut scales: Vec<Vec<u32>> = Vec::new();
    let mut first: Vec<u32> = Vec::new();
    first.push(ONE);
    assert(first@ =~= delta_filter(window as int, 0, *f));
    scales.push(first);
    let mut i: usize = 1;
    while i <= order
        invariant
            is_evaluator(*f),
            fg@ == *f,
            order < 1000,
            0 < window < 1000,
            1 <= i <= order + 1,
            scales@.len() == i,
            forall|k: int|
                0 <= k < i ==> (#[trigger] scales@[k])@ == delta_filter(window as int, k, *f),
        decreases order + 1 - i,
    {
        let prev = &scales[i - 1];
        proof {
            filter_length(window as int, i - 1, *f);
            let (w, k) = (window as int, i - 1);
            assert(2 * w * k <= 2 * 1000 * 1000) by (nonlinear_arith)
                requires
                    0 <= w <= 1000,
                    0 <= k <= 1000,
            ;
        }
        let scale: u32 = eval(f, FloatOp::Div(ONE, sum_squares(window, f)));
        let n: usize = prev.len() + 2 * window;
        let item = |p: usize| -> (v: u32)
            requires
                p < n,
            ensures
                v == value(
                    fg@,
                    FloatOp::Mul(
                        convolved(prev@, window as int, p as int, 2 * window + 1, fg@),
                        scale,
                    ),
                ),
            { eval(f, FloatOp::Mul(convolve(prev, window, p, f), scale)) };
        let cur = list_of(
            n,
            &item,
            Ghost(
                |p: int|
                    value(
                        *f,
                        FloatOp::Mul(
                            convolved(prev@, window as int, p, 2 * window + 1, *f),
                            scale,
                        ),
                    ),
            ),
        );
        assert(cur@ =~= delta_filter(window as int, i as int, *f));
        scales.push(cur);
        i += 1;
    }
    scales
}

/// The frame that stands for frame `t`: the first or the last one outside the signal.
pub open spec fn clamped(t: int, frames: int) -> int {
    if t < 0 {
        0
    } else if t >= frames {
        frames - 1
    } else {
        t
    }
}

/// The sum of the first `n` terms of a filter at frame `t`; terms with a factor of zero are left out.
pub open spec fn filtered<F: Fn(FloatOp) -> u64>(
    m: MatrixView,
    filter: Seq<u32>,
    t: int,
    d: int,
    n: int,
    f: F,
) -> u32
    decreases n,
{
    if n <= 0 {
        ZERO
    } else {
        let sum = filtered(m, filter, t, d, n - 1, f);
        let scale = filter[n - 1];
        if same(scale, ZERO) {
            sum
        } else {
            let src = clamped(
                t + n - 1 - (filter.len() - 1) / 2,
                m.rows.len() as int,
            );
            value(f, FloatOp::Add(sum, value(f, FloatOp::Mul(scale, m.rows[src][d]))))
        }
    }
}

/// The features with their deltas: one block of columns for every order.
pub open spec fn with_deltas<F: Fn(FloatOp) -> u64>(m: MatrixView, o: DeltaOptions, f: F) -> MatrixView {
    tabulated(
        m.rows.len() as int,
        m.cols * (o.order + 1),
        |t: int, c: int|
            {
                let filter = delta_filter(o.window as int, c / m.cols, f);
                filtered(m, filter, t, c % m.cols, filter.len() as int, f)
            },
    )
}

fn apply_filter<F: Fn(FloatOp) -> u64>(m: &Matrix, filter: &Vec<u32>, t: usize, d: usize, f: &F) -> (r:
    u32)
    requires
        is_evaluator(*f),
        m@.wf(),
        t < m@.rows.len(),
        m@.rows.len() <= i32::MAX,
        d < m@.cols,
        filter@.len() <= 10_000_000,
    ensures
        r == filtered(m@, filter@, t as int, d as int, filter@.len() as int, *f),
{
    let frames: usize = m.rows.len();
    let mut sum: u32 = ZERO;
    let mut n: usize = 0;
    while n < filter.len()
        invariant
            is_evaluator(*f),
            m@.wf(),
            frames == m@.rows.len(),
            frames == m.rows@.len(),
            t < frames,
            frames <= i32::MAX,
            d < m@.cols,
            filter@.len() <= 10_000_000,
            n <= filter@.len(),
            sum == filtered(m@, filter@, t as int, d as int, n as int, *f),
        decreases filter.len() - n,
    {
        let scale: u32 = filter[n];
        if !eq(scale, ZERO) {
            let mut src: i64 = t as i64 + n as i64 - ((filter.len() - 1) / 2) as i64;
            if src < 0 {
                src = 0;
            } else if src >= frames as i64 {
                src = frames as i64 - 1;
            }
            let s: usize = src as usize;
            assert(m@.rows[s as int] == m.rows@[s as int]@);
            assert(m@.rows[s as int].len() == m@.cols);
            sum = eval(f, FloatOp::Add(sum, eval(f, FloatOp::Mul(scale, m.rows[s][d]))));
        }
        n += 1;
    }
    sum
}

proof fn column_places(c: int, dim: int, blocks: int)
    requires
        0 < dim,
        0 <= c < dim * blocks,
    ensures
        0 <= c / dim < blocks,
        0 <= c % dim < dim,
{
    lemma_fundamental_div_mod(c, dim);
    lemma_mod_bound(c, dim);
    let q = c / dim;
    assert(0 <= q < blocks) by (nonlinear_arith)
        requires
            c == dim * q + c % dim,
            0 <= c % dim < dim,
            0 <= c < dim * blocks,
            0 < dim,
    ;
}

/// Add the deltas of features; outside the signal the first and the last frame are repeated.
pub fn add_deltas<F: Fn(FloatOp) -> u64>(feats: &Matrix, o: &DeltaOptions, f: &F) -> (r: Matrix)
    requires
        is_evaluator(*f),
        feats@.wf(),
        feats@.rows.len() <= i32::MAX,
        feats@.cols * (o.order + 1) <= usize::MAX,
        feats@.rows.len() == 0 || feats@.cols == 0 || (o.order < 1000 && 0 < o.window < 1000),
        o.order < u32::MAX,
    ensures
        r@ == with_deltas(feats@, *o, *f),
{
    let frames: usize = feats.rows.len();
    let dim: usize = feats.cols;
    let blocks: usize = o.order as usize + 1;
    proof {
        assert(0 <= dim * blocks) by (nonlinear_arith);
    }
    let out_dim: usize = dim * blocks;
    let ghost want = |t: int, c: int|
        {
            let filter = delta_filter(o.window as int, c / (dim as int), *f);
            filtered(feats@, filter, t, c % (dim as int), filter.len() as int, *f)
        };
    if frames == 0 || dim == 0 {
        let zero = |t: usize, c: usize| -> (v: u32)
            ensures
                v == ZERO,
            { ZERO };
        let out = Matrix::tabulate(frames, out_dim, &zero, Ghost(|t: int, c: int| ZERO));
        proof {
            if dim == 0 {
                assert(dim * blocks == 0) by (nonlinear_arith)
                    requires
                        dim == 0,
                ;
                assert forall|t: int| 0 <= t < frames implies #[trigger] out@.rows[t]
                    =~= with_deltas(feats@, *o, *f).rows[t] by {}
            }
            assert(out@.rows =~= with_deltas(feats@, *o, *f).rows);
        }
        return out;
    }
    let scales = delta_scales(o, f);
    let fg: Ghost<F> = Ghost(*f);
    let wg: Ghost<spec_fn(int, int) -> u32> = Ghost(want);
    let entry = |t: usize, c: usize| -> (v: u32)
        requires
            t < frames,
            c < out_dim,
        ensures
            v == (wg@)(t as int, c as int),
        {
            proof {
                column_places(c as int, dim as int, blocks as int);
                let (w, k) = (o.window as int, c as int / dim as int);
                filter_length(w, k, fg@);
                assert(2 * w * k <= 2 * 1000 * 1000) by (nonlinear_arith)
                    requires
                        0 <= w <= 1000,
                        0 <= k <= 1000,
                ;
                assert(scales@[k]@ == delta_filter(w, k, fg@));
            }
            apply_filter(feats, &scales[c / dim], t, c % dim, f)
        };
    Matrix::tabulate(frames, out_dim, &entry, Ghost(want))
}

/// The features with those of the frames around them: `left` frames before, the frame itself, and
/// `right` frames after it.
pub open spec fn spliced(m: MatrixView, left: int, right: int) -> MatrixView {
    tabulated(
        m.rows.len() as int,
        m.cols * (1 + left + right),
        |t: int, c: int|
            m.rows[clamped(t + c / m.cols - left, m.rows.len() as int)][c % m.cols],
    )
}

/// Splicing with no frames around leaves the features as they are.
pub proof fn splicing_nothing_is_identity(m: MatrixView)
    requires
        m.wf(),
        m.cols > 0,
    ensures
        spliced(m, 0, 0) == m,
{
    let s = spliced(m, 0, 0);
    assert(m.cols * 1 == m.cols) by (nonlinear_arith);
    assert forall|t: int| 0 <= t < m.rows.len() implies #[trigger] s.rows[t] == m.rows[t] by {
        assert(m.rows[t].len() == m.cols);
        assert forall|c: int| 0 <= c < m.cols implies #[trigger] s.rows[t][c] == m.rows[t][c] by {
            vstd::arithmetic::div_mod::lemma_small_mod(c as nat, m.cols as nat);
            vstd::arithmetic::div_mod::lemma_basic_div(c, m.cols);
        }
        assert(s.rows[t] =~= m.rows[t]);
    }
    assert(s.rows =~= m.rows);
}

/// In the middle of a spliced frame is the frame itself.
pub proof fn splicing_keeps_the_frame(m: MatrixView, left: int, right: int, t: int, d: int)
    requires
        m.wf(),
        0 <= left,
        0 <= right,
        0 <= t < m.rows.len(),
        0 <= d < m.cols,
    ensures
        spliced(m, left, right).rows[t][left * m.cols + d] == m.rows[t][d],
{
    let c = left * m.cols + d;
    assert(0 <= c < m.cols * (1 + left + right)) by (nonlinear_arith)
        requires
            c == left * m.cols + d,
            0 <= d < m.cols,
            0 <= left,
            0 <= right,
    ;
    assert(c == m.cols * left + d) by (nonlinear_arith)
        requires
            c == left * m.cols + d,
    ;
    vstd::arithmetic::div_mod::lemma_fundamental_div_mod_converse(c, m.cols, left, d);
}

/// Splice frames with those around them; outside the signal the first and the last one are repeated.
pub fn splice(feats: &Matrix, left: usize, right: usize) -> (r: Matrix)
    requires
        feats@.wf(),
        feats@.rows.len() > 0,
        feats@.cols > 0,
        feats@.cols * (1 + left + right) <= usize::MAX,
        feats@.rows.len() + left + right < i64::MAX,
    ensures
        r@ == spliced(feats@, left as int, right as int),
{
    let frames: usize = feats.rows.len();
    let dim: usize = feats.cols;
    proof {
        let n = 1 + left + right;
        assert(n <= dim * n) by (nonlinear_arith)
            requires
                1 <= dim,
                0 <= n,
        ;
    }
    let n: usize = 1 + left + right;
    let out_dim: usize = dim * n;
    let ghost want = |t: int, c: int|
        feats@.rows[clamped(t + c / (dim as int) - left, frames as int)][c % (dim as int)];
    let wg: Ghost<spec_fn(int, int) -> u32> = Ghost(want);
    let entry = |t: usize, c: usize| -> (v: u32)
        requires
            t < frames,
            c < out_dim,
        ensures
            v == (wg@)(t as int, c as int),
        {
            proof {
                column_places(c as int, dim as int, n as int);
            }
            let mut src: i64 = t as i64 + (c / dim) as i64 - left as i64;
            if src < 0 {
                src = 0;
            }
            if src >= frames as i64 {
                src = frames as i64 - 1;
            }
            let s: usize = src as usize;
            assert(feats@.rows[s as int] == feats.rows@[s as int]@);
            assert(feats@.rows[s as int].len() == feats@.cols);
            feats.rows[s][c % dim]
        };
    Matrix::tabulate(frames, out_dim, &entry, Ghost(want))
}

/// The product of the first `n` entries of two rows.
pub open spec fn dot<F: Fn(FloatOp) -> u64>(a: Seq<u32>, x: Seq<u32>, n: int, f: F) -> u32
    decreases n,
{
    if n <= 0 {
        ZERO
    } else {
        value(
            f,
            FloatOp::Add(dot(a, x, n - 1, f), value(f, FloatOp::Mul(a[n - 1], x[n - 1]))),
        )
    }
}

pub(crate) fn dot_of<F: Fn(FloatOp) -> u64>(a: &Vec<u32>, x: &Vec<u32>, n: usize, f: &F) -> (r: u32)
    requires
        is_evaluator(*f),
        n <= a@.len(),
        n <= x@.len(),
    ensures
        r == dot(a@, x@, n as int, *f),
{
    let mut sum: u32 = ZERO;
    let mut i: usize = 0;
    while i < n
        invariant
            is_evaluator(*f),
            i <= n,
            n <= a@.len(),
            n <= x@.len(),
            sum == dot(a@, x@, i as int, *f),
        decreases n - i,
    {
        sum = eval(f, FloatOp::Add(sum, eval(f, FloatOp::Mul(a[i], x[i]))));
        i += 1;
    }
    sum
}

/// The features after a linear map, or after an affine one if the matrix has a column more than the
/// features.
pub open spec fn transformed<F: Fn(FloatOp) -> u64>(m: MatrixView, mat: MatrixView, f: F) -> MatrixView {
    tabulated(
        m.rows.len() as int,
        mat.rows.len() as int,
        |t: int, o: int|
            {
                let sum = dot(mat.rows[o], m.rows[t], m.cols, f);
                if mat.cols == m.cols + 1 {
                    value(f, FloatOp::Add(sum, mat.rows[o][m.cols]))
                } else {
                    sum
                }
            },
    )
}

/// Apply a linear or an affine map to features.
pub fn apply_transform<F: Fn(FloatOp) -> u64>(feats: &Matrix, mat: &Matrix, f: &F) -> (r: Matrix)
    requires
        is_evaluator(*f),
        feats@.wf(),
        mat@.wf(),
        mat@.cols == feats@.cols || mat@.cols == feats@.cols + 1,
    ensures
        r@ == transformed(feats@, mat@, *f),
{
    let in_dim: usize = feats.cols;
    let affine: bool = mat.cols != in_dim;
    let ghost want = |t: int, o: int|
        {
            let sum = dot(mat@.rows[o], feats@.rows[t], in_dim as int, *f);
            if mat@.cols == in_dim + 1 {
                value(*f, FloatOp::Add(sum, mat@.rows[o][in_dim as int]))
            } else {
                sum
            }
        };
    let wg: Ghost<spec_fn(int, int) -> u32> = Ghost(want);
    let entry = |t: usize, o: usize| -> (v: u32)
        requires
            t < feats.rows@.len(),
            o < mat.rows@.len(),
        ensures
            v == (wg@)(t as int, o as int),
        {
            proof {
                assert(feats@.rows[t as int] == feats.rows@[t as int]@);
                assert(mat@.rows[o as int] == mat.rows@[o as int]@);
                assert(feats@.rows[t as int].len() == feats@.cols);
                assert(mat@.rows[o as int].len() == mat@.cols);
            }
            let sum: u32 = dot_of(&mat.rows[o], &feats.rows[t], in_dim, f);
            if affine {
                eval(f, FloatOp::Add(sum, mat.rows[o][in_dim]))
            } else {
                sum
            }
        };
    Matrix::tabulate(feats.rows.len(), mat.rows.len(), &entry, Ghost(want))
}

} // verus!
