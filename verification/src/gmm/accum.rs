//! The statistics that mixtures are re-estimated from.

use vstd::prelude::*;

use crate::float::{
    eval, eval_wide, is_evaluator, is_finite_bits, value, wide_eq, wide_same, wide_value, FloatOp,
    WIDE_ONE, WIDE_ZERO,
};
use crate::gmm::am::AmDiagGmm;
use crate::gmm::diag::{log_likes, means_of, vars_of, DiagGmm, GmmView};
use crate::gmm::flags::{augmented, holds, GmmFlags};
use crate::gmm::mixing::{soft_max, soft_max_total};
use crate::hmm::transition::{sum_wide, wide_sum};
use crate::table::{grid, grid_of, list_of, rows_of};
use crate::types::PdfId;

verus! {

/// The statistics of one mixture, in double-precision bits: for every component the frames that it
/// accounts for, the sum of these frames, and the sum of their squares. The sums are there only
/// where the flags say so.
#[derive(Clone, Debug)]
pub struct AccumDiagGmm {
    pub occupancy: Vec<u64>,
    pub mean_accum: Vec<Vec<u64>>,
    pub var_accum: Vec<Vec<u64>>,
    pub flags: GmmFlags,
}

/// What the statistics of a mixture are.
#[verifier::ext_equal]
pub struct AccumView {
    pub occupancy: Seq<u64>,
    pub means: Seq<Seq<u64>>,
    pub vars: Seq<Seq<u64>>,
    pub flags: u8,
}

impl View for AccumDiagGmm {
    type V = AccumView;

    open spec fn view(&self) -> AccumView {
        AccumView {
            occupancy: self.occupancy@,
            means: rows_of(self.mean_accum@),
            vars: rows_of(self.var_accum@),
            flags: self.flags.0,
        }
    }
}

impl AccumView {
    /// The statistics are those of a mixture of this dimension: the sums that the flags name have a
    /// row per component, and the flags hold what they imply.
    pub open spec fn wf(self, dim: int) -> bool {
        let n = self.occupancy.len();
        &&& 0 < n
        &&& self.flags <= 7
        &&& holds(self.flags, 4)
        &&& holds(self.flags, 2) ==> holds(self.flags, 1)
        &&& self.means.len() == (if holds(self.flags, 1) {
            n
        } else {
            0
        })
        &&& self.vars.len() == (if holds(self.flags, 2) {
            n
        } else {
            0
        })
        &&& forall|g: int| 0 <= g < self.means.len() ==> (#[trigger] self.means[g]).len() == dim
        &&& forall|g: int| 0 <= g < self.vars.len() ==> (#[trigger] self.vars[g]).len() == dim
    }

    /// The dimension, as far as there are sums; zero otherwise.
    pub open spec fn dim(self) -> int {
        if self.means.len() > 0 {
            self.means[0].len() as int
        } else if self.vars.len() > 0 {
            self.vars[0].len() as int
        } else {
            0
        }
    }
}

/// Statistics of no frames.
pub open spec fn no_stats(n: int, dim: int, flags: u8) -> AccumView {
    let all = augmented(flags);
    AccumView {
        occupancy: Seq::new(n as nat, |g: int| WIDE_ZERO),
        means: zeros(
            if holds(all, 1) {
                n
            } else {
                0
            },
            dim,
        ),
        vars: zeros(
            if holds(all, 2) {
                n
            } else {
                0
            },
            dim,
        ),
        flags: all,
    }
}

/// A table of zeros.
pub open spec fn zeros(rows: int, cols: int) -> Seq<Seq<u64>> {
    grid(rows, cols, |i: int, j: int| WIDE_ZERO)
}

fn make_zeros(rows: usize, cols: usize) -> (r: Vec<Vec<u64>>)
    ensures
        rows_of(r@) == zeros(rows as int, cols as int),
{
    let item = |i: usize, j: usize| -> (v: u64)
        ensures
            v == WIDE_ZERO,
        { WIDE_ZERO };
    grid_of(rows, cols, &item, Ghost(|i: int, j: int| WIDE_ZERO))
}

/// A sum with the weighted value added; a weight of zero adds nothing.
pub open spec fn plus_value<F: Fn(FloatOp) -> u64>(sum: u64, p: u64, x: u32, f: F) -> u64 {
    if wide_same(p, WIDE_ZERO) {
        sum
    } else {
        wide_value(
            f,
            FloatOp::AddWide(sum, wide_value(f, FloatOp::MulWide(p, wide_value(f, FloatOp::Widen(x))))),
        )
    }
}

/// A sum with the weighted square added; a weight of zero adds nothing.
pub open spec fn plus_square<F: Fn(FloatOp) -> u64>(sum: u64, p: u64, x: u32, f: F) -> u64 {
    let wide = wide_value(f, FloatOp::Widen(x));
    if wide_same(p, WIDE_ZERO) {
        sum
    } else {
        wide_value(
            f,
            FloatOp::AddWide(
                sum,
                wide_value(f, FloatOp::MulWide(wide_value(f, FloatOp::MulWide(p, wide)), wide)),
            ),
        )
    }
}

/// The statistics with a frame added, weighted by the posteriors of the components.
pub open spec fn with_frame<F: Fn(FloatOp) -> u64>(
    a: AccumView,
    x: Seq<u32>,
    posteriors: Seq<u32>,
    f: F,
) -> AccumView {
    AccumView {
        occupancy: Seq::new(
            a.occupancy.len(),
            |g: int|
                wide_value(
                    f,
                    FloatOp::AddWide(
                        a.occupancy[g],
                        wide_value(f, FloatOp::Widen(posteriors[g])),
                    ),
                ),
        ),
        means: grid(
            a.means.len() as int,
            x.len() as int,
            |g: int, d: int|
                plus_value(a.means[g][d], wide_value(f, FloatOp::Widen(posteriors[g])), x[d], f),
        ),
        vars: grid(
            a.vars.len() as int,
            x.len() as int,
            |g: int, d: int|
                plus_square(a.vars[g][d], wide_value(f, FloatOp::Widen(posteriors[g])), x[d], f),
        ),
        flags: a.flags,
    }
}

/// The posteriors of a frame, scaled.
pub open spec fn scaled_posteriors<F: Fn(FloatOp) -> u64>(
    m: GmmView,
    x: Seq<u32>,
    weight: u32,
    f: F,
) -> Seq<u32> {
    let p = soft_max(log_likes(m, x, f), f);
    Seq::new(p.len(), |g: int| value(f, FloatOp::Mul(p[g], weight)))
}

/// A value with a multiple of another added.
pub open spec fn plus_scaled<F: Fn(FloatOp) -> u64>(a: u64, b: u64, scale: u64, f: F) -> u64 {
    wide_value(f, FloatOp::AddWide(a, wide_value(f, FloatOp::MulWide(scale, b))))
}

/// A table with a multiple of another added.
pub open spec fn table_plus<F: Fn(FloatOp) -> u64>(
    a: Seq<Seq<u64>>,
    b: Seq<Seq<u64>>,
    dim: int,
    scale: u64,
    f: F,
) -> Seq<Seq<u64>> {
    grid(a.len() as int, dim, |g: int, d: int| plus_scaled(a[g][d], b[g][d], scale, f))
}

/// The statistics with a multiple of others added.
pub open spec fn added<F: Fn(FloatOp) -> u64>(
    a: AccumView,
    o: AccumView,
    dim: int,
    scale: u64,
    f: F,
) -> AccumView {
    AccumView {
        occupancy: Seq::new(
            a.occupancy.len(),
            |g: int| plus_scaled(a.occupancy[g], o.occupancy[g], scale, f),
        ),
        means: table_plus(a.means, o.means, dim, scale, f),
        vars: table_plus(a.vars, o.vars, dim, scale, f),
        flags: a.flags,
    }
}

/// A table with every item scaled.
pub open spec fn table_times<F: Fn(FloatOp) -> u64>(a: Seq<Seq<u64>>, dim: int, s: u64, f: F) -> Seq<
    Seq<u64>,
> {
    grid(a.len() as int, dim, |g: int, d: int| wide_value(f, FloatOp::MulWide(a[g][d], s)))
}

/// The statistics with everything scaled.
pub open spec fn scaled_stats<F: Fn(FloatOp) -> u64>(a: AccumView, dim: int, s: u64, f: F) -> AccumView {
    AccumView {
        occupancy: Seq::new(
            a.occupancy.len(),
            |g: int| wide_value(f, FloatOp::MulWide(a.occupancy[g], s)),
        ),
        means: table_times(a.means, dim, s, f),
        vars: table_times(a.vars, dim, s, f),
        flags: a.flags,
    }
}

/// A row with another added, as far as the other reaches.
pub open spec fn row_plus<F: Fn(FloatOp) -> u64>(row: Seq<u64>, more: Seq<u64>, f: F) -> Seq<u64> {
    Seq::new(
        row.len(),
        |d: int|
            if d < more.len() {
                wide_value(f, FloatOp::AddWide(row[d], more[d]))
            } else {
                row[d]
            },
    )
}

/// The statistics with more for one component.
pub open spec fn with_component<F: Fn(FloatOp) -> u64>(
    a: AccumView,
    g: int,
    occ: u64,
    x: Seq<u64>,
    x2: Seq<u64>,
    f: F,
) -> AccumView {
    AccumView {
        occupancy: a.occupancy.update(g, wide_value(f, FloatOp::AddWide(a.occupancy[g], occ))),
        means: if holds(a.flags, 1) {
            a.means.update(g, row_plus(a.means[g], x, f))
        } else {
            a.means
        },
        vars: if holds(a.flags, 2) {
            a.vars.update(g, row_plus(a.vars[g], x2, f))
        } else {
            a.vars
        },
        flags: a.flags,
    }
}

/// What `tau` frames of the model itself add to the sum of squares.
pub open spec fn model_square<F: Fn(FloatOp) -> u64>(mean: u32, var: u32, f: F) -> u64 {
    let m = wide_value(f, FloatOp::Widen(mean));
    wide_value(
        f,
        FloatOp::AddWide(
            wide_value(f, FloatOp::Widen(var)),
            wide_value(f, FloatOp::MulWide(m, m)),
        ),
    )
}

/// The statistics with `tau` frames of the model itself added to every component.
pub open spec fn smoothed_with<F: Fn(FloatOp) -> u64>(a: AccumView, tau: u64, m: GmmView, f: F) -> AccumView {
    let dim = m.inv_vars.cols;
    AccumView {
        occupancy: Seq::new(
            a.occupancy.len(),
            |g: int| wide_value(f, FloatOp::AddWide(a.occupancy[g], tau)),
        ),
        means: grid(
            a.means.len() as int,
            dim,
            |g: int, d: int|
                plus_scaled(
                    a.means[g][d],
                    wide_value(f, FloatOp::Widen(means_of(m, f).rows[g][d])),
                    tau,
                    f,
                ),
        ),
        vars: grid(
            a.vars.len() as int,
            dim,
            |g: int, d: int|
                plus_scaled(
                    a.vars[g][d],
                    model_square(means_of(m, f).rows[g][d], vars_of(m, f).rows[g][d], f),
                    tau,
                    f,
                ),
        ),
        flags: a.flags,
    }
}

/// An item of a component with `tau` frames of its own average added.
pub open spec fn smoothed_at<F: Fn(FloatOp) -> u64>(v: u64, occ: u64, tau: u64, f: F) -> u64 {
    if wide_same(occ, WIDE_ZERO) {
        v
    } else {
        let factor = wide_value(
            f,
            FloatOp::AddWide(wide_value(f, FloatOp::DivWide(tau, occ)), WIDE_ONE),
        );
        wide_value(f, FloatOp::MulWide(v, factor))
    }
}

/// The statistics with `tau` frames of its own average added to every component that has any.
pub open spec fn smoothed<F: Fn(FloatOp) -> u64>(a: AccumView, dim: int, tau: u64, f: F) -> AccumView {
    AccumView {
        occupancy: Seq::new(
            a.occupancy.len(),
            |g: int|
                if wide_same(a.occupancy[g], WIDE_ZERO) {
                    a.occupancy[g]
                } else {
                    wide_value(f, FloatOp::AddWide(a.occupancy[g], tau))
                },
        ),
        means: grid(
            a.means.len() as int,
            dim,
            |g: int, d: int| smoothed_at(a.means[g][d], a.occupancy[g], tau, f),
        ),
        vars: grid(
            a.vars.len() as int,
            dim,
            |g: int, d: int| smoothed_at(a.vars[g][d], a.occupancy[g], tau, f),
        ),
        flags: a.flags,
    }
}

/// The statistics with those that `flags` names set to zero.
pub open spec fn zeroed(a: AccumView, dim: int, flags: u8) -> AccumView {
    AccumView {
        occupancy: if holds(flags, 4) {
            Seq::new(a.occupancy.len(), |g: int| WIDE_ZERO)
        } else {
            a.occupancy
        },
        means: if holds(flags, 1) {
            zeros(a.means.len() as int, dim)
        } else {
            a.means
        },
        vars: if holds(flags, 2) {
            zeros(a.vars.len() as int, dim)
        } else {
            a.vars
        },
        flags: a.flags,
    }
}

impl AccumDiagGmm {
    /// Statistics of no frames. The flags are taken with what they imply.
    pub fn new(num_gauss: usize, dim: usize, flags: GmmFlags) -> (r: Self)
        requires
            num_gauss > 0,
            dim > 0,
            flags.0 <= 7,
        ensures
            r@ == no_stats(num_gauss as int, dim as int, flags.0),
            r@.wf(dim as int),
    {
        let all = flags.augment();
        let zero = |g: usize| -> (v: u64)
            ensures
                v == WIDE_ZERO,
            { WIDE_ZERO };
        let occupancy = list_of(num_gauss, &zero, Ghost(|g: int| WIDE_ZERO));
        let means: usize = if all.contains(GmmFlags::means()) {
            num_gauss
        } else {
            0
        };
        let vars: usize = if all.contains(GmmFlags::variances()) {
            num_gauss
        } else {
            0
        };
        proof {
            let a = flags.0;
            assert(a <= 7u8 ==> (a | 4u8 | 1u8) & 4u8 == 4u8) by (bit_vector);
            assert(a <= 7u8 ==> (a | 4u8 | 0u8) & 4u8 == 4u8) by (bit_vector);
            assert(a <= 7u8 && a & 2u8 == 2u8 ==> (a | 4u8 | 1u8) & 1u8 == 1u8) by (bit_vector);
            assert(a <= 7u8 && a & 2u8 != 2u8 ==> (a | 4u8 | 0u8) & 2u8 != 2u8) by (bit_vector);
        }
        AccumDiagGmm {
            occupancy,
            mean_accum: make_zeros(means, dim),
            var_accum: make_zeros(vars, dim),
            flags: all,
        }
    }

    /// Statistics of no frames for a mixture.
    pub fn from_gmm(gmm: &DiagGmm, flags: GmmFlags) -> (r: Self)
        requires
            gmm@.weights.len() > 0,
            gmm@.inv_vars.cols > 0,
            flags.0 <= 7,
        ensures
            r@ == no_stats(gmm@.weights.len() as int, gmm@.inv_vars.cols, flags.0),
            r@.wf(gmm@.inv_vars.cols),
    {
        Self::new(gmm.num_gauss(), gmm.dim(), flags)
    }

    pub fn num_gauss(&self) -> (r: usize)
        ensures
            r == self@.occupancy.len(),
    {
        self.occupancy.len()
    }

    /// The dimension, as far as there are sums; zero otherwise.
    pub fn dim(&self) -> (r: usize)
        ensures
            r == self@.dim(),
    {
        if self.mean_accum.len() > 0 {
            assert(self@.means[0] == self.mean_accum@[0]@);
            self.mean_accum[0].len()
        } else if self.var_accum.len() > 0 {
            assert(self@.vars[0] == self.var_accum@[0]@);
            self.var_accum[0].len()
        } else {
            0
        }
    }

    /// Set the statistics that `flags` names to zero.
    pub fn set_zero(&mut self, flags: GmmFlags)
        requires
            holds(old(self)@.flags, flags.0),
        ensures
            final(self)@ == zeroed(old(self)@, old(self)@.dim(), flags.0),
    {
        let ghost a = self@;
        let dim: usize = self.dim();
        if flags.contains(GmmFlags::weights()) {
            let zero = |g: usize| -> (v: u64)
                ensures
                    v == WIDE_ZERO,
                { WIDE_ZERO };
            self.occupancy = list_of(self.occupancy.len(), &zero, Ghost(|g: int| WIDE_ZERO));
        }
        if flags.contains(GmmFlags::means()) {
            self.mean_accum = make_zeros(self.mean_accum.len(), dim);
        }
        if flags.contains(GmmFlags::variances()) {
            self.var_accum = make_zeros(self.var_accum.len(), dim);
        }
        assert(self@ =~= zeroed(a, dim as int, flags.0));
    }

    /// Add a frame, weighted by the posteriors of the components.
    pub fn accumulate_from_posteriors<F: Fn(FloatOp) -> u64>(
        &mut self,
        x: &[u32],
        posteriors: &[u32],
        f: &F,
    )
        requires
            is_evaluator(*f),
            old(self)@.wf(x@.len() as int),
            posteriors@.len() == old(self)@.occupancy.len(),
        ensures
            final(self)@ == with_frame(old(self)@, x@, posteriors@, *f),
            final(self)@.wf(x@.len() as int),
    {
        let ghost a = self@;
        let dim: usize = x.len();
        let fg: Ghost<F> = Ghost(*f);
        let occupancy = {
            let item = |g: usize| -> (v: u64)
                requires
                    g < self@.occupancy.len(),
                    g < posteriors@.len(),
                ensures
                    v == wide_value(
                        fg@,
                        FloatOp::AddWide(
                            self@.occupancy[g as int],
                            wide_value(fg@, FloatOp::Widen(posteriors@[g as int])),
                        ),
                    ),
                {
                    let p: u64 = eval_wide(f, FloatOp::Widen(posteriors[g]));
                    eval_wide(f, FloatOp::AddWide(self.occupancy[g], p))
                };
            list_of(
                self.occupancy.len(),
                &item,
                Ghost(
                    |g: int|
                        wide_value(
                            *f,
                            FloatOp::AddWide(
                                a.occupancy[g],
                                wide_value(*f, FloatOp::Widen(posteriors@[g])),
                            ),
                        ),
                ),
            )
        };
        let means = {
            let item = |g: usize, d: usize| -> (v: u64)
                requires
                    g < self@.means.len(),
                    d < x@.len(),
                ensures
                    v == plus_value(
                        self@.means[g as int][d as int],
                        wide_value(fg@, FloatOp::Widen(posteriors@[g as int])),
                        x@[d as int],
                        fg@,
                    ),
                {
                    assert(self@.means[g as int] == self.mean_accum@[g as int]@);
                    let p: u64 = eval_wide(f, FloatOp::Widen(posteriors[g]));
                    let sum: u64 = self.mean_accum[g][d];
                    if wide_eq(p, WIDE_ZERO) {
                        sum
                    } else {
                        let wide: u64 = eval_wide(f, FloatOp::Widen(x[d]));
                        eval_wide(f, FloatOp::AddWide(sum, eval_wide(f, FloatOp::MulWide(p, wide))))
                    }
                };
            grid_of(
                self.mean_accum.len(),
                dim,
                &item,
                Ghost(
                    |g: int, d: int|
                        plus_value(
                            a.means[g][d],
                            wide_value(*f, FloatOp::Widen(posteriors@[g])),
                            x@[d],
                            *f,
                        ),
                ),
            )
        };
        let vars = {
            let item = |g: usize, d: usize| -> (v: u64)
                requires
                    g < self@.vars.len(),
                    d < x@.len(),
                ensures
                    v == plus_square(
                        self@.vars[g as int][d as int],
                        wide_value(fg@, FloatOp::Widen(posteriors@[g as int])),
                        x@[d as int],
                        fg@,
                    ),
                {
                    assert(self@.vars[g as int] == self.var_accum@[g as int]@);
                    let p: u64 = eval_wide(f, FloatOp::Widen(posteriors[g]));
                    let sum: u64 = self.var_accum[g][d];
                    if wide_eq(p, WIDE_ZERO) {
                        sum
                    } else {
                        let wide: u64 = eval_wide(f, FloatOp::Widen(x[d]));
                        let scaled: u64 = eval_wide(f, FloatOp::MulWide(p, wide));
                        eval_wide(
                            f,
                            FloatOp::AddWide(sum, eval_wide(f, FloatOp::MulWide(scaled, wide))),
                        )
                    }
                };
            grid_of(
                self.var_accum.len(),
                dim,
                &item,
                Ghost(
                    |g: int, d: int|
                        plus_square(
                            a.vars[g][d],
                            wide_value(*f, FloatOp::Widen(posteriors@[g])),
                            x@[d],
                            *f,
                        ),
                ),
            )
        };
        self.occupancy = occupancy;
        self.mean_accum = means;
        self.var_accum = vars;
        assert(self@ =~= with_frame(a, x@, posteriors@, *f));
    }
}

/// A list with a multiple of another added.
fn list_plus_scaled<F: Fn(FloatOp) -> u64>(a: &Vec<u64>, b: &Vec<u64>, scale: u64, f: &F) -> (r: Vec<
    u64,
>)
    requires
        is_evaluator(*f),
        a@.len() == b@.len(),
    ensures
        r@ == Seq::new(a@.len(), |g: int| plus_scaled(a@[g], b@[g], scale, *f)),
{
    let fg: Ghost<F> = Ghost(*f);
    let item = |g: usize| -> (v: u64)
        requires
            g < a@.len(),
            g < b@.len(),
        ensures
            v == plus_scaled(a@[g as int], b@[g as int], scale, fg@),
        { eval_wide(f, FloatOp::AddWide(a[g], eval_wide(f, FloatOp::MulWide(scale, b[g])))) };
    list_of(a.len(), &item, Ghost(|g: int| plus_scaled(a@[g], b@[g], scale, *f)))
}

fn add_tables<F: Fn(FloatOp) -> u64>(
    a: &Vec<Vec<u64>>,
    b: &Vec<Vec<u64>>,
    dim: usize,
    scale: u64,
    f: &F,
) -> (r: Vec<Vec<u64>>)
    requires
        is_evaluator(*f),
        a@.len() == b@.len(),
        forall|g: int| 0 <= g < a@.len() ==> (#[trigger] a@[g])@.len() == dim,
        forall|g: int| 0 <= g < b@.len() ==> (#[trigger] b@[g])@.len() == dim,
    ensures
        rows_of(r@) == table_plus(rows_of(a@), rows_of(b@), dim as int, scale, *f),
{
    let fg: Ghost<F> = Ghost(*f);
    let item = |g: usize, d: usize| -> (v: u64)
        requires
            g < a@.len(),
            g < b@.len(),
            d < dim,
        ensures
            v == plus_scaled(
                rows_of(a@)[g as int][d as int],
                rows_of(b@)[g as int][d as int],
                scale,
                fg@,
            ),
        { eval_wide(f, FloatOp::AddWide(a[g][d], eval_wide(f, FloatOp::MulWide(scale, b[g][d])))) };
    grid_of(
        a.len(),
        dim,
        &item,
        Ghost(|g: int, d: int| plus_scaled(rows_of(a@)[g][d], rows_of(b@)[g][d], scale, *f)),
    )
}

fn scale_table<F: Fn(FloatOp) -> u64>(a: &Vec<Vec<u64>>, dim: usize, s: u64, f: &F) -> (r: Vec<
    Vec<u64>,
>)
    requires
        is_evaluator(*f),
        forall|g: int| 0 <= g < a@.len() ==> (#[trigger] a@[g])@.len() == dim,
    ensures
        rows_of(r@) == table_times(rows_of(a@), dim as int, s, *f),
{
    let fg: Ghost<F> = Ghost(*f);
    let item = |g: usize, d: usize| -> (v: u64)
        requires
            g < a@.len(),
            d < dim,
        ensures
            v == wide_value(fg@, FloatOp::MulWide(rows_of(a@)[g as int][d as int], s)),
        { eval_wide(f, FloatOp::MulWide(a[g][d], s)) };
    grid_of(
        a.len(),
        dim,
        &item,
        Ghost(|g: int, d: int| wide_value(*f, FloatOp::MulWide(rows_of(a@)[g][d], s))),
    )
}

fn add_rows<F: Fn(FloatOp) -> u64>(row: &Vec<u64>, more: &[u64], f: &F) -> (r: Vec<u64>)
    requires
        is_evaluator(*f),
    ensures
        r@ == row_plus(row@, more@, *f),
{
    let fg: Ghost<F> = Ghost(*f);
    let item = |d: usize| -> (v: u64)
        requires
            d < row@.len(),
        ensures
            v == (if d < more@.len() {
                wide_value(fg@, FloatOp::AddWide(row@[d as int], more@[d as int]))
            } else {
                row@[d as int]
            }),
        {
            if d < more.len() {
                eval_wide(f, FloatOp::AddWide(row[d], more[d]))
            } else {
                row[d]
            }
        };
    list_of(
        row.len(),
        &item,
        Ghost(
            |d: int|
                if d < more@.len() {
                    wide_value(*f, FloatOp::AddWide(row@[d], more@[d]))
                } else {
                    row@[d]
                },
        ),
    )
}

fn smooth_table<F: Fn(FloatOp) -> u64>(
    a: &Vec<Vec<u64>>,
    occupancy: &Vec<u64>,
    dim: usize,
    tau: u64,
    f: &F,
) -> (r: Vec<Vec<u64>>)
    requires
        is_evaluator(*f),
        a@.len() <= occupancy@.len(),
        forall|g: int| 0 <= g < a@.len() ==> (#[trigger] a@[g])@.len() == dim,
    ensures
        rows_of(r@) == grid(
            a@.len() as int,
            dim as int,
            |g: int, d: int| smoothed_at(rows_of(a@)[g][d], occupancy@[g], tau, *f),
        ),
{
    let fg: Ghost<F> = Ghost(*f);
    let item = |g: usize, d: usize| -> (v: u64)
        requires
            g < a@.len(),
            g < occupancy@.len(),
            d < dim,
        ensures
            v == smoothed_at(rows_of(a@)[g as int][d as int], occupancy@[g as int], tau, fg@),
        {
            if wide_eq(occupancy[g], WIDE_ZERO) {
                a[g][d]
            } else {
                let ratio: u64 = eval_wide(f, FloatOp::DivWide(tau, occupancy[g]));
                let factor: u64 = eval_wide(f, FloatOp::AddWide(ratio, WIDE_ONE));
                eval_wide(f, FloatOp::MulWide(a[g][d], factor))
            }
        };
    grid_of(
        a.len(),
        dim,
        &item,
        Ghost(|g: int, d: int| smoothed_at(rows_of(a@)[g][d], occupancy@[g], tau, *f)),
    )
}

impl AccumDiagGmm {
    /// The rows have the dimension that the view says.
    proof fn rows_have_dim(&self, dim: int)
        requires
            self@.wf(dim),
        ensures
            self.mean_accum@.len() == self@.means.len(),
            self.var_accum@.len() == self@.vars.len(),
            forall|g: int|
                0 <= g < self.mean_accum@.len() ==> (#[trigger] self.mean_accum@[g])@.len() == dim,
            forall|g: int|
                0 <= g < self.var_accum@.len() ==> (#[trigger] self.var_accum@[g])@.len() == dim,
            self@.dim() == dim || (self@.means.len() == 0 && self@.vars.len() == 0),
    {
        assert forall|g: int| 0 <= g < self.mean_accum@.len() implies (
        #[trigger] self.mean_accum@[g])@.len() == dim by {
            assert(self@.means[g] == self.mean_accum@[g]@);
        }
        assert forall|g: int| 0 <= g < self.var_accum@.len() implies (
        #[trigger] self.var_accum@[g])@.len() == dim by {
            assert(self@.vars[g] == self.var_accum@[g]@);
        }
    }

    /// Add a frame, weighted by `weight` times the posteriors that the mixture gives, and return the
    /// log-likelihood of the frame. None, and nothing is added, if that is not finite.
    pub fn try_accumulate_from_diag<F: Fn(FloatOp) -> u64>(
        &mut self,
        gmm: &DiagGmm,
        x: &[u32],
        weight: u32,
        f: &F,
    ) -> (r: Option<u32>)
        requires
            is_evaluator(*f),
            old(self)@.wf(x@.len() as int),
            gmm@.wf(),
            gmm@.gconsts.len() == gmm@.weights.len(),
            gmm@.weights.len() == old(self)@.occupancy.len(),
            gmm@.inv_vars.cols == x@.len(),
        ensures
            final(self)@.wf(x@.len() as int),
            r is Some == is_finite_bits(soft_max_total(log_likes(gmm@, x@, *f), *f)),
            r is None ==> final(self)@ == old(self)@,
            r matches Some(v) ==> v == soft_max_total(log_likes(gmm@, x@, *f), *f) && final(self)@
                == with_frame(old(self)@, x@, scaled_posteriors(gmm@, x@, weight, *f), *f),
    {
        let (posteriors, total) = match gmm.try_component_posteriors(x, f) {
            Some(v) => v,
            None => {
                return None;
            },
        };
        let scaled = scale_list(&posteriors, weight, f);
        assert(scaled@ =~= scaled_posteriors(gmm@, x@, weight, *f));
        self.accumulate_from_posteriors(x, scaled.as_slice(), f);
        Some(total)
    }

    /// Add a frame, weighted by `weight` times the posteriors that the mixture gives, and return the
    /// log-likelihood of the frame.
    pub fn accumulate_from_diag<F: Fn(FloatOp) -> u64>(
        &mut self,
        gmm: &DiagGmm,
        x: &[u32],
        weight: u32,
        f: &F,
    ) -> (r: u32)
        requires
            is_evaluator(*f),
            old(self)@.wf(x@.len() as int),
            gmm@.wf(),
            gmm@.gconsts.len() == gmm@.weights.len(),
            gmm@.weights.len() == old(self)@.occupancy.len(),
            gmm@.inv_vars.cols == x@.len(),
            is_finite_bits(soft_max_total(log_likes(gmm@, x@, *f), *f)),
        ensures
            final(self)@.wf(x@.len() as int),
            r == soft_max_total(log_likes(gmm@, x@, *f), *f),
            final(self)@ == with_frame(
                old(self)@,
                x@,
                scaled_posteriors(gmm@, x@, weight, *f),
                *f,
            ),
    {
        self.try_accumulate_from_diag(gmm, x, weight, f).unwrap()
    }

    /// Add statistics of one component.
    pub fn add_stats_for_component<F: Fn(FloatOp) -> u64>(
        &mut self,
        g: usize,
        occ: u64,
        x_stats: &[u64],
        x2_stats: &[u64],
        f: &F,
    )
        requires
            is_evaluator(*f),
            old(self)@.wf(old(self)@.dim()),
            g < old(self)@.occupancy.len(),
            x_stats@.len() <= old(self)@.dim() || !holds(old(self)@.flags, 1),
            x2_stats@.len() <= old(self)@.dim() || !holds(old(self)@.flags, 2),
        ensures
            final(self)@ == with_component(
                old(self)@,
                g as int,
                occ,
                x_stats@,
                x2_stats@,
                *f,
            ),
            final(self)@.wf(old(self)@.dim()),
    {
        let ghost a = self@;
        let dim: usize = self.dim();
        proof {
            self.rows_have_dim(dim as int);
        }
        let sum: u64 = eval_wide(f, FloatOp::AddWide(self.occupancy[g], occ));
        self.occupancy.set(g, sum);
        if self.flags.contains(GmmFlags::means()) {
            assert(a.means[g as int] == self.mean_accum@[g as int]@);
            let row = add_rows(&self.mean_accum[g], x_stats, f);
            self.mean_accum.set(g, row);
        }
        if self.flags.contains(GmmFlags::variances()) {
            assert(a.vars[g as int] == self.var_accum@[g as int]@);
            let row = add_rows(&self.var_accum[g], x2_stats, f);
            self.var_accum.set(g, row);
        }
        proof {
            let want = with_component(a, g as int, occ, x_stats@, x2_stats@, *f);
            assert(self@.means =~= want.means);
            assert(self@.vars =~= want.vars);
            assert(self@ =~= want);
        }
    }

    /// Add a multiple of other statistics of the same shape.
    pub fn add<F: Fn(FloatOp) -> u64>(&mut self, o: &Self, scale: u64, f: &F)
        requires
            is_evaluator(*f),
            old(self)@.wf(old(self)@.dim()),
            o@.wf(old(self)@.dim()),
            o@.flags == old(self)@.flags,
            o@.occupancy.len() == old(self)@.occupancy.len(),
        ensures
            final(self)@ == added(old(self)@, o@, old(self)@.dim(), scale, *f),
            final(self)@.wf(old(self)@.dim()),
    {
        let ghost a = self@;
        let dim: usize = self.dim();
        proof {
            self.rows_have_dim(dim as int);
            o.rows_have_dim(dim as int);
        }
        let occupancy = list_plus_scaled(&self.occupancy, &o.occupancy, scale, f);
        let means = add_tables(&self.mean_accum, &o.mean_accum, dim, scale, f);
        let vars = add_tables(&self.var_accum, &o.var_accum, dim, scale, f);
        self.occupancy = occupancy;
        self.mean_accum = means;
        self.var_accum = vars;
        assert(self@ =~= added(a, o@, dim as int, scale, *f));
    }

    /// Scale all statistics.
    pub fn scale<F: Fn(FloatOp) -> u64>(&mut self, s: u64, f: &F)
        requires
            is_evaluator(*f),
            old(self)@.wf(old(self)@.dim()),
        ensures
            final(self)@ == scaled_stats(old(self)@, old(self)@.dim(), s, *f),
            final(self)@.wf(old(self)@.dim()),
    {
        let ghost a = self@;
        let dim: usize = self.dim();
        proof {
            self.rows_have_dim(dim as int);
        }
        let fg: Ghost<F> = Ghost(*f);
        let occupancy = {
            let item = |g: usize| -> (v: u64)
                requires
                    g < self@.occupancy.len(),
                ensures
                    v == wide_value(fg@, FloatOp::MulWide(self@.occupancy[g as int], s)),
                { eval_wide(f, FloatOp::MulWide(self.occupancy[g], s)) };
            list_of(
                self.occupancy.len(),
                &item,
                Ghost(|g: int| wide_value(*f, FloatOp::MulWide(a.occupancy[g], s))),
            )
        };
        let means = scale_table(&self.mean_accum, dim, s, f);
        let vars = scale_table(&self.var_accum, dim, s, f);
        self.occupancy = occupancy;
        self.mean_accum = means;
        self.var_accum = vars;
        assert(self@ =~= scaled_stats(a, dim as int, s, *f));
    }

    /// The frames that all components account for together.
    pub fn occupancy_sum<F: Fn(FloatOp) -> u64>(&self, f: &F) -> (r: u64)
        requires
            is_evaluator(*f),
        ensures
            r == wide_sum(self@.occupancy, self@.occupancy.len() as int, *f),
    {
        sum_wide(&self.occupancy, f)
    }

    /// Add `tau` frames of the model itself to every component.
    pub fn smooth_with_model<F: Fn(FloatOp) -> u64>(&mut self, tau: u64, gmm: &DiagGmm, f: &F)
        requires
            is_evaluator(*f),
            gmm@.wf(),
            old(self)@.wf(gmm@.inv_vars.cols),
            old(self)@.occupancy.len() == gmm@.weights.len(),
            holds(old(self)@.flags, 1),
            holds(old(self)@.flags, 2),
        ensures
            final(self)@ == smoothed_with(old(self)@, tau, gmm@, *f),
            final(self)@.wf(gmm@.inv_vars.cols),
    {
        let ghost a = self@;
        let dim: usize = gmm.dim();
        proof {
            self.rows_have_dim(dim as int);
        }
        let model_means = gmm.means(f);
        let model_vars = gmm.vars(f);
        let fg: Ghost<F> = Ghost(*f);
        let occupancy = {
            let item = |g: usize| -> (v: u64)
                requires
                    g < self@.occupancy.len(),
                ensures
                    v == wide_value(fg@, FloatOp::AddWide(self@.occupancy[g as int], tau)),
                { eval_wide(f, FloatOp::AddWide(self.occupancy[g], tau)) };
            list_of(
                self.occupancy.len(),
                &item,
                Ghost(|g: int| wide_value(*f, FloatOp::AddWide(a.occupancy[g], tau))),
            )
        };
        let means = {
            let item = |g: usize, d: usize| -> (v: u64)
                requires
                    g < self@.means.len(),
                    d < dim,
                ensures
                    v == plus_scaled(
                        self@.means[g as int][d as int],
                        wide_value(
                            fg@,
                            FloatOp::Widen(means_of(gmm@, fg@).rows[g as int][d as int]),
                        ),
                        tau,
                        fg@,
                    ),
                {
                    let m: u64 = eval_wide(f, FloatOp::Widen(model_means.at(g, d)));
                    eval_wide(
                        f,
                        FloatOp::AddWide(
                            self.mean_accum[g][d],
                            eval_wide(f, FloatOp::MulWide(tau, m)),
                        ),
                    )
                };
            grid_of(
                self.mean_accum.len(),
                dim,
                &item,
                Ghost(
                    |g: int, d: int|
                        plus_scaled(
                            a.means[g][d],
                            wide_value(*f, FloatOp::Widen(means_of(gmm@, *f).rows[g][d])),
                            tau,
                            *f,
                        ),
                ),
            )
        };
        let vars = {
            let item = |g: usize, d: usize| -> (v: u64)
                requires
                    g < self@.vars.len(),
                    d < dim,
                ensures
                    v == plus_scaled(
                        self@.vars[g as int][d as int],
                        model_square(
                            means_of(gmm@, fg@).rows[g as int][d as int],
                            vars_of(gmm@, fg@).rows[g as int][d as int],
                            fg@,
                        ),
                        tau,
                        fg@,
                    ),
                {
                    let m: u64 = eval_wide(f, FloatOp::Widen(model_means.at(g, d)));
                    let v: u64 = eval_wide(f, FloatOp::Widen(model_vars.at(g, d)));
                    let square: u64 = eval_wide(
                        f,
                        FloatOp::AddWide(v, eval_wide(f, FloatOp::MulWide(m, m))),
                    );
                    eval_wide(
                        f,
                        FloatOp::AddWide(
                            self.var_accum[g][d],
                            eval_wide(f, FloatOp::MulWide(tau, square)),
                        ),
                    )
                };
            grid_of(
                self.var_accum.len(),
                dim,
                &item,
                Ghost(
                    |g: int, d: int|
                        plus_scaled(
                            a.vars[g][d],
                            model_square(
                                means_of(gmm@, *f).rows[g][d],
                                vars_of(gmm@, *f).rows[g][d],
                                *f,
                            ),
                            tau,
                            *f,
                        ),
                ),
            )
        };
        self.occupancy = occupancy;
        self.mean_accum = means;
        self.var_accum = vars;
        assert(self@ =~= smoothed_with(a, tau, gmm@, *f));
    }

    /// Add `tau` frames of its own average to every component that has any.
    pub fn smooth_stats<F: Fn(FloatOp) -> u64>(&mut self, tau: u64, f: &F)
        requires
            is_evaluator(*f),
            old(self)@.wf(old(self)@.dim()),
            holds(old(self)@.flags, 1) == holds(old(self)@.flags, 2),
        ensures
            final(self)@ == smoothed(old(self)@, old(self)@.dim(), tau, *f),
            final(self)@.wf(old(self)@.dim()),
    {
        let ghost a = self@;
        let dim: usize = self.dim();
        proof {
            self.rows_have_dim(dim as int);
        }
        let fg: Ghost<F> = Ghost(*f);
        let occupancy = {
            let item = |g: usize| -> (v: u64)
                requires
                    g < self@.occupancy.len(),
                ensures
                    v == (if wide_same(self@.occupancy[g as int], WIDE_ZERO) {
                        self@.occupancy[g as int]
                    } else {
                        wide_value(fg@, FloatOp::AddWide(self@.occupancy[g as int], tau))
                    }),
                {
                    if wide_eq(self.occupancy[g], WIDE_ZERO) {
                        self.occupancy[g]
                    } else {
                        eval_wide(f, FloatOp::AddWide(self.occupancy[g], tau))
                    }
                };
            list_of(
                self.occupancy.len(),
                &item,
                Ghost(
                    |g: int|
                        if wide_same(a.occupancy[g], WIDE_ZERO) {
                            a.occupancy[g]
                        } else {
                            wide_value(*f, FloatOp::AddWide(a.occupancy[g], tau))
                        },
                ),
            )
        };
        let means = smooth_table(&self.mean_accum, &self.occupancy, dim, tau, f);
        let vars = smooth_table(&self.var_accum, &self.occupancy, dim, tau, f);
        self.occupancy = occupancy;
        self.mean_accum = means;
        self.var_accum = vars;
        assert(self@ =~= smoothed(a, dim as int, tau, *f));
    }
}

/// A list of single-precision values, scaled.
fn scale_list<F: Fn(FloatOp) -> u64>(v: &Vec<u32>, s: u32, f: &F) -> (r: Vec<u32>)
    requires
        is_evaluator(*f),
    ensures
        r@ == Seq::new(v@.len(), |i: int| value(*f, FloatOp::Mul(v@[i], s))),
{
    let fg: Ghost<F> = Ghost(*f);
    let item = |i: usize| -> (x: u32)
        requires
            i < v@.len(),
        ensures
            x == value(fg@, FloatOp::Mul(v@[i as int], s)),
        { eval(f, FloatOp::Mul(v[i], s)) };
    list_of(v.len(), &item, Ghost(|i: int| value(*f, FloatOp::Mul(v@[i], s))))
}

/// The statistics of all mixtures, the frames that went into them, and the log-likelihood of these.
#[derive(Clone, Debug)]
pub struct AccumAmDiagGmm {
    pub accs: Vec<AccumDiagGmm>,
    pub total_frames: u64,
    pub total_loglike: u64,
}

/// What the statistics of all mixtures are.
#[verifier::ext_equal]
pub struct AccumAmView {
    pub accs: Seq<AccumView>,
    pub frames: u64,
    pub loglike: u64,
}

/// What a list of statistics is.
pub open spec fn accum_views(accs: Seq<AccumDiagGmm>) -> Seq<AccumView> {
    Seq::new(accs.len(), |i: int| accs[i]@)
}

impl View for AccumAmDiagGmm {
    type V = AccumAmView;

    open spec fn view(&self) -> AccumAmView {
        AccumAmView {
            accs: accum_views(self.accs@),
            frames: self.total_frames,
            loglike: self.total_loglike,
        }
    }
}

/// The statistics with a frame added to those of one mixture: the frame `x`, weighted by `weight`
/// times the posteriors that the mixture gives for the frame `seen`.
pub open spec fn with_gmm_frame<F: Fn(FloatOp) -> u64>(
    a: AccumAmView,
    m: GmmView,
    pdf: int,
    seen: Seq<u32>,
    x: Seq<u32>,
    weight: u32,
    f: F,
) -> AccumAmView {
    let ll = wide_value(f, FloatOp::Widen(soft_max_total(log_likes(m, seen, f), f)));
    let w = wide_value(f, FloatOp::Widen(weight));
    AccumAmView {
        accs: a.accs.update(
            pdf,
            with_frame(a.accs[pdf], x, scaled_posteriors(m, seen, weight, f), f),
        ),
        frames: wide_value(f, FloatOp::AddWide(a.frames, w)),
        loglike: wide_value(
            f,
            FloatOp::AddWide(a.loglike, wide_value(f, FloatOp::MulWide(ll, w))),
        ),
    }
}

/// The sum of the first `n` posteriors, in double precision.
pub open spec fn posterior_sum<F: Fn(FloatOp) -> u64>(p: Seq<u32>, n: int, f: F) -> u64
    decreases n,
{
    if n <= 0 {
        WIDE_ZERO
    } else {
        wide_value(
            f,
            FloatOp::AddWide(
                posterior_sum(p, n - 1, f),
                wide_value(f, FloatOp::Widen(p[n - 1])),
            ),
        )
    }
}

/// All statistics with a multiple of others added.
pub open spec fn am_added<F: Fn(FloatOp) -> u64>(a: AccumAmView, o: AccumAmView, scale: u64, f: F) -> AccumAmView {
    AccumAmView {
        accs: Seq::new(
            a.accs.len(),
            |i: int| added(a.accs[i], o.accs[i], a.accs[i].dim(), scale, f),
        ),
        frames: plus_scaled(a.frames, o.frames, scale, f),
        loglike: plus_scaled(a.loglike, o.loglike, scale, f),
    }
}

/// All statistics scaled.
pub open spec fn am_scaled<F: Fn(FloatOp) -> u64>(a: AccumAmView, s: u64, f: F) -> AccumAmView {
    AccumAmView {
        accs: Seq::new(a.accs.len(), |i: int| scaled_stats(a.accs[i], a.accs[i].dim(), s, f)),
        frames: wide_value(f, FloatOp::MulWide(a.frames, s)),
        loglike: wide_value(f, FloatOp::MulWide(a.loglike, s)),
    }
}

impl AccumAmDiagGmm {
    /// Statistics of no frames for every mixture.
    pub fn new(am: &AmDiagGmm, flags: GmmFlags) -> (r: Self)
        requires
            flags.0 <= 7,
            forall|i: int|
                0 <= i < am@.len() ==> (#[trigger] am@[i]).weights.len() > 0 && am@[i].inv_vars.cols
                    > 0,
        ensures
            r@ == (AccumAmView {
                accs: Seq::new(
                    am@.len(),
                    |i: int|
                        no_stats(am@[i].weights.len() as int, am@[i].inv_vars.cols, flags.0),
                ),
                frames: WIDE_ZERO,
                loglike: WIDE_ZERO,
            }),
            forall|i: int|
                0 <= i < r@.accs.len() ==> (#[trigger] r@.accs[i]).wf(am@[i].inv_vars.cols),
    {
        let mut accs: Vec<AccumDiagGmm> = Vec::new();
        let mut i: usize = 0;
        while i < am.pdfs.len()
            invariant
                flags.0 <= 7,
                forall|i: int|
                    0 <= i < am@.len() ==> (#[trigger] am@[i]).weights.len() > 0
                        && am@[i].inv_vars.cols > 0,
                i <= am.pdfs@.len(),
                accs@.len() == i,
                forall|k: int|
                    0 <= k < i ==> (#[trigger] accs@[k])@ == no_stats(
                        am@[k].weights.len() as int,
                        am@[k].inv_vars.cols,
                        flags.0,
                    ) && accs@[k]@.wf(am@[k].inv_vars.cols),
            decreases am.pdfs.len() - i,
        {
            assert(am@[i as int] == am.pdfs@[i as int]@);
            accs.push(AccumDiagGmm::from_gmm(&am.pdfs[i], flags));
            i += 1;
        }
        let r = AccumAmDiagGmm { accs, total_frames: WIDE_ZERO, total_loglike: WIDE_ZERO };
        proof {
            let want = Seq::new(
                am@.len(),
                |i: int| no_stats(am@[i].weights.len() as int, am@[i].inv_vars.cols, flags.0),
            );
            assert(r@.accs =~= want);
        }
        r
    }

    pub fn num_accs(&self) -> (r: usize)
        ensures
            r == self@.accs.len(),
    {
        self.accs.len()
    }

    /// The dimension of the first mixture, zero if there is none.
    pub fn dim(&self) -> (r: usize)
        ensures
            r == (if self@.accs.len() > 0 {
                self@.accs[0].dim()
            } else {
                0
            }),
    {
        if self.accs.len() > 0 {
            self.accs[0].dim()
        } else {
            0
        }
    }

    /// Add a frame to the statistics of one mixture, with posteriors from another frame, and return
    /// the log-likelihood of that other frame. None, and nothing is added, if it is not finite.
    pub fn try_accumulate_for_gmm_twofeats<F: Fn(FloatOp) -> u64>(
        &mut self,
        am: &AmDiagGmm,
        pdf: PdfId,
        x_posterior: &[u32],
        x_stats: &[u32],
        weight: u32,
        f: &F,
    ) -> (r: Option<u32>)
        requires
            is_evaluator(*f),
            pdf < old(self)@.accs.len(),
            pdf < am@.len(),
            am@[pdf as int].wf(),
            am@[pdf as int].gconsts.len() == am@[pdf as int].weights.len(),
            am@[pdf as int].inv_vars.cols == x_posterior@.len(),
            old(self)@.accs[pdf as int].wf(x_stats@.len() as int),
            old(self)@.accs[pdf as int].occupancy.len() == am@[pdf as int].weights.len(),
        ensures
            r is Some == is_finite_bits(
                soft_max_total(log_likes(am@[pdf as int], x_posterior@, *f), *f),
            ),
            r is None ==> final(self)@ == old(self)@,
            r matches Some(v) ==> v == soft_max_total(
                log_likes(am@[pdf as int], x_posterior@, *f),
                *f,
            ) && final(self)@ == with_gmm_frame(
                old(self)@,
                am@[pdf as int],
                pdf as int,
                x_posterior@,
                x_stats@,
                weight,
                *f,
            ),
    {
        let ghost a = self@;
        let i: usize = pdf as usize;
        let gmm = am.pdf(pdf);
        let (posteriors, total) = match gmm.try_component_posteriors(x_posterior, f) {
            Some(v) => v,
            None => {
                return None;
            },
        };
        let scaled = scale_list(&posteriors, weight, f);
        assert(scaled@ =~= scaled_posteriors(gmm@, x_posterior@, weight, *f));
        assert(a.accs[i as int] == self.accs@[i as int]@);
        self.accs[i].accumulate_from_posteriors(x_stats, scaled.as_slice(), f);
        let w: u64 = eval_wide(f, FloatOp::Widen(weight));
        let ll: u64 = eval_wide(f, FloatOp::Widen(total));
        self.total_loglike = eval_wide(
            f,
            FloatOp::AddWide(self.total_loglike, eval_wide(f, FloatOp::MulWide(ll, w))),
        );
        self.total_frames = eval_wide(f, FloatOp::AddWide(self.total_frames, w));
        proof {
            let want = with_gmm_frame(
                a,
                am@[pdf as int],
                pdf as int,
                x_posterior@,
                x_stats@,
                weight,
                *f,
            );
            assert(self@.accs =~= want.accs);
        }
        Some(total)
    }

    /// Add a frame to the statistics of one mixture, with posteriors from another frame, and return
    /// the log-likelihood of that other frame.
    pub fn accumulate_for_gmm_twofeats<F: Fn(FloatOp) -> u64>(
        &mut self,
        am: &AmDiagGmm,
        pdf: PdfId,
        x_posterior: &[u32],
        x_stats: &[u32],
        weight: u32,
        f: &F,
    ) -> (r: u32)
        requires
            is_evaluator(*f),
            pdf < old(self)@.accs.len(),
            pdf < am@.len(),
            am@[pdf as int].wf(),
            am@[pdf as int].gconsts.len() == am@[pdf as int].weights.len(),
            am@[pdf as int].inv_vars.cols == x_posterior@.len(),
            old(self)@.accs[pdf as int].wf(x_stats@.len() as int),
            old(self)@.accs[pdf as int].occupancy.len() == am@[pdf as int].weights.len(),
            is_finite_bits(soft_max_total(log_likes(am@[pdf as int], x_posterior@, *f), *f)),
        ensures
            r == soft_max_total(log_likes(am@[pdf as int], x_posterior@, *f), *f),
            final(self)@ == with_gmm_frame(
                old(self)@,
                am@[pdf as int],
                pdf as int,
                x_posterior@,
                x_stats@,
                weight,
                *f,
            ),
    {
        self.try_accumulate_for_gmm_twofeats(am, pdf, x_posterior, x_stats, weight, f).unwrap()
    }

    /// Add a frame to the statistics of one mixture, and return its log-likelihood.
    pub fn accumulate_for_gmm<F: Fn(FloatOp) -> u64>(
        &mut self,
        am: &AmDiagGmm,
        pdf: PdfId,
        x: &[u32],
        weight: u32,
        f: &F,
    ) -> (r: u32)
        requires
            is_evaluator(*f),
            pdf < old(self)@.accs.len(),
            pdf < am@.len(),
            am@[pdf as int].wf(),
            am@[pdf as int].gconsts.len() == am@[pdf as int].weights.len(),
            am@[pdf as int].inv_vars.cols == x@.len(),
            old(self)@.accs[pdf as int].wf(x@.len() as int),
            old(self)@.accs[pdf as int].occupancy.len() == am@[pdf as int].weights.len(),
            is_finite_bits(soft_max_total(log_likes(am@[pdf as int], x@, *f), *f)),
        ensures
            r == soft_max_total(log_likes(am@[pdf as int], x@, *f), *f),
            final(self)@ == with_gmm_frame(
                old(self)@,
                am@[pdf as int],
                pdf as int,
                x@,
                x@,
                weight,
                *f,
            ),
    {
        self.accumulate_for_gmm_twofeats(am, pdf, x, x, weight, f)
    }

    /// Add a frame to the statistics of one mixture, with given posteriors.
    pub fn accumulate_from_posteriors<F: Fn(FloatOp) -> u64>(
        &mut self,
        pdf: PdfId,
        x: &[u32],
        posteriors: &[u32],
        f: &F,
    )
        requires
            is_evaluator(*f),
            pdf < old(self)@.accs.len(),
            old(self)@.accs[pdf as int].wf(x@.len() as int),
            old(self)@.accs[pdf as int].occupancy.len() == posteriors@.len(),
        ensures
            final(self)@ == (AccumAmView {
                accs: old(self)@.accs.update(
                    pdf as int,
                    with_frame(old(self)@.accs[pdf as int], x@, posteriors@, *f),
                ),
                frames: wide_value(
                    *f,
                    FloatOp::AddWide(
                        old(self)@.frames,
                        posterior_sum(posteriors@, posteriors@.len() as int, *f),
                    ),
                ),
                loglike: old(self)@.loglike,
            }),
    {
        let ghost a = self@;
        let k: usize = pdf as usize;
        assert(a.accs[k as int] == self.accs@[k as int]@);
        self.accs[k].accumulate_from_posteriors(x, posteriors, f);
        let mut sum: u64 = WIDE_ZERO;
        let mut i: usize = 0;
        while i < posteriors.len()
            invariant
                is_evaluator(*f),
                i <= posteriors@.len(),
                sum == posterior_sum(posteriors@, i as int, *f),
            decreases posteriors.len() - i,
        {
            sum = eval_wide(f, FloatOp::AddWide(sum, eval_wide(f, FloatOp::Widen(posteriors[i]))));
            i += 1;
        }
        self.total_frames = eval_wide(f, FloatOp::AddWide(self.total_frames, sum));
        proof {
            assert(self@.accs =~= a.accs.update(
                pdf as int,
                with_frame(a.accs[pdf as int], x@, posteriors@, *f),
            ));
        }
    }

    /// Add a multiple of other statistics of the same shapes.
    pub fn add<F: Fn(FloatOp) -> u64>(&mut self, o: &Self, scale: u64, f: &F)
        requires
            is_evaluator(*f),
            old(self)@.accs.len() == o@.accs.len(),
            forall|i: int|
                #![trigger old(self)@.accs[i]]
                0 <= i < o@.accs.len() ==> old(self)@.accs[i].wf(old(self)@.accs[i].dim())
                    && o@.accs[i].wf(old(self)@.accs[i].dim()) && o@.accs[i].flags
                    == old(self)@.accs[i].flags && o@.accs[i].occupancy.len()
                    == old(self)@.accs[i].occupancy.len(),
        ensures
            final(self)@ == am_added(old(self)@, o@, scale, *f),
    {
        let ghost a = self@;
        let n: usize = self.accs.len();
        let mut i: usize = 0;
        while i < n
            invariant
                is_evaluator(*f),
                n == self.accs@.len(),
                n == a.accs.len(),
                n == o@.accs.len(),
                i <= n,
                self.total_frames == a.frames,
                self.total_loglike == a.loglike,
                forall|k: int|
                    #![trigger a.accs[k]]
                    0 <= k < n ==> a.accs[k].wf(a.accs[k].dim()) && o@.accs[k].wf(a.accs[k].dim())
                        && o@.accs[k].flags == a.accs[k].flags && o@.accs[k].occupancy.len()
                        == a.accs[k].occupancy.len(),
                forall|k: int|
                    0 <= k < i ==> (#[trigger] self.accs@[k])@ == added(
                        a.accs[k],
                        o@.accs[k],
                        a.accs[k].dim(),
                        scale,
                        *f,
                    ),
                forall|k: int| i <= k < n ==> (#[trigger] self.accs@[k])@ == a.accs[k],
            decreases n - i,
        {
            assert(o@.accs[i as int] == o.accs@[i as int]@);
            assert(self.accs@[i as int]@ == a.accs[i as int]);
            self.accs[i].add(&o.accs[i], scale, f);
            i += 1;
        }
        self.total_frames = eval_wide(
            f,
            FloatOp::AddWide(
                self.total_frames,
                eval_wide(f, FloatOp::MulWide(scale, o.total_frames)),
            ),
        );
        self.total_loglike = eval_wide(
            f,
            FloatOp::AddWide(
                self.total_loglike,
                eval_wide(f, FloatOp::MulWide(scale, o.total_loglike)),
            ),
        );
        assert(self@.accs =~= am_added(a, o@, scale, *f).accs);
    }

    /// Scale all statistics.
    pub fn scale<F: Fn(FloatOp) -> u64>(&mut self, s: u64, f: &F)
        requires
            is_evaluator(*f),
            forall|i: int|
                0 <= i < old(self)@.accs.len() ==> (#[trigger] old(self)@.accs[i]).wf(
                    old(self)@.accs[i].dim(),
                ),
        ensures
            final(self)@ == am_scaled(old(self)@, s, *f),
    {
        let ghost a = self@;
        let n: usize = self.accs.len();
        let mut i: usize = 0;
        while i < n
            invariant
                is_evaluator(*f),
                n == self.accs@.len(),
                n == a.accs.len(),
                i <= n,
                self.total_frames == a.frames,
                self.total_loglike == a.loglike,
                forall|k: int| 0 <= k < n ==> (#[trigger] a.accs[k]).wf(a.accs[k].dim()),
                forall|k: int|
                    0 <= k < i ==> (#[trigger] self.accs@[k])@ == scaled_stats(
                        a.accs[k],
                        a.accs[k].dim(),
                        s,
                        *f,
                    ),
                forall|k: int| i <= k < n ==> (#[trigger] self.accs@[k])@ == a.accs[k],
            decreases n - i,
        {
            assert(self.accs@[i as int]@ == a.accs[i as int]);
            self.accs[i].scale(s, f);
            i += 1;
        }
        self.total_frames = eval_wide(f, FloatOp::MulWide(self.total_frames, s));
        self.total_loglike = eval_wide(f, FloatOp::MulWide(self.total_loglike, s));
        assert(self@.accs =~= am_scaled(a, s, *f).accs);
    }

    /// The frames that every mixture accounts for.
    pub fn pdf_occupancies<F: Fn(FloatOp) -> u64>(&self, f: &F) -> (r: Vec<u64>)
        requires
            is_evaluator(*f),
        ensures
            r@ == Seq::new(
                self@.accs.len(),
                |i: int|
                    wide_sum(
                        self@.accs[i].occupancy,
                        self@.accs[i].occupancy.len() as int,
                        *f,
                    ),
            ),
    {
        let fg: Ghost<F> = Ghost(*f);
        let item = |i: usize| -> (v: u64)
            requires
                i < self@.accs.len(),
            ensures
                v == wide_sum(
                    self@.accs[i as int].occupancy,
                    self@.accs[i as int].occupancy.len() as int,
                    fg@,
                ),
            { self.accs[i].occupancy_sum(f) };
        list_of(
            self.accs.len(),
            &item,
            Ghost(
                |i: int|
                    wide_sum(
                        self@.accs[i].occupancy,
                        self@.accs[i].occupancy.len() as int,
                        *f,
                    ),
            ),
        )
    }
}

} // verus!
