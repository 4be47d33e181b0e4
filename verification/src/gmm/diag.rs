//! A diagonal-covariance Gaussian mixture.
//!
//! For component `g` the mixture keeps its weight, `mean * invvar` and `1 / var` for every
//! dimension, and a constant that folds the log weight and the normalising terms together, so
//! that the log-likelihood of a frame is the constant plus terms linear in the frame and in its
//! square.

use vstd::prelude::*;
use vstd::slice::slice_subrange;

use crate::float::{
    eval, eval_wide, is_evaluator, is_finite, is_finite_bits, is_nan_bits, less, lt, same, value,
    wide_eq, wide_same, wide_value, FloatOp, INFINITY, NEG_INFINITY, ONE, ZERO,
};
use crate::gmm::matrix::{tabulated, Matrix, MatrixView};
use crate::gmm::mixing::{
    apply_soft_max, log_sum, log_sum_exp, soft_max, soft_max_total, sum_of, sum_upto,
};
use crate::table::list_of;

verus! {

/// Double-precision logarithm of twice pi.
pub const LOG_2PI: u64 = 0x3ffd_67f1_c864_beb5;

/// Double-precision -0.5.
pub const MINUS_HALF: u64 = 0xbfe0_0000_0000_0000;

/// Double-precision 0.5.
pub const HALF: u64 = 0x3fe0_0000_0000_0000;

/// Single-precision 0.5.
pub const SINGLE_HALF: u32 = 0x3f00_0000;

/// Single-precision 2.
pub const SINGLE_TWO: u32 = 0x4000_0000;

/// A mixture. The parameters are single-precision bits.
#[derive(Debug)]
pub struct DiagGmm {
    /// The weights, one per component.
    pub weights: Vec<u32>,
    /// `mean * invvar`, one row per component.
    pub means_invvars: Matrix,
    /// `1 / var`, one row per component.
    pub inv_vars: Matrix,
    /// The constants, one per component.
    pub gconsts: Vec<u32>,
}

/// What a mixture is.
#[verifier::ext_equal]
pub struct GmmView {
    pub weights: Seq<u32>,
    pub means_invvars: MatrixView,
    pub inv_vars: MatrixView,
    pub gconsts: Seq<u32>,
}

impl View for DiagGmm {
    type V = GmmView;

    open spec fn view(&self) -> GmmView {
        GmmView {
            weights: self.weights@,
            means_invvars: self.means_invvars@,
            inv_vars: self.inv_vars@,
            gconsts: self.gconsts@,
        }
    }
}

impl GmmView {
    /// The two matrices have a row per component and the same width.
    pub open spec fn wf(self) -> bool {
        &&& self.means_invvars.wf()
        &&& self.inv_vars.wf()
        &&& self.means_invvars.rows.len() == self.weights.len()
        &&& self.inv_vars.rows.len() == self.weights.len()
        &&& self.means_invvars.cols == self.inv_vars.cols
    }
}

/// The part of a component's constant that depends on the dimension alone.
pub open spec fn constant_offset<F: Fn(FloatOp) -> u64>(dim: int, f: F) -> u64 {
    wide_value(
        f,
        FloatOp::MulWide(
            wide_value(f, FloatOp::MulWide(MINUS_HALF, LOG_2PI)),
            wide_value(f, FloatOp::CountWide(dim as u64)),
        ),
    )
}

/// What one dimension adds to a component's constant:
/// `0.5 * ln(invvar) - 0.5 * (mean * invvar)^2 / invvar`.
pub open spec fn constant_term<F: Fn(FloatOp) -> u64>(mean_invvar: u32, inv_var: u32, f: F) -> u64 {
    let mi = wide_value(f, FloatOp::Widen(mean_invvar));
    let iv = wide_value(f, FloatOp::Widen(inv_var));
    let square = wide_value(
        f,
        FloatOp::MulWide(wide_value(f, FloatOp::MulWide(HALF, mi)), mi),
    );
    wide_value(
        f,
        FloatOp::SubWide(
            wide_value(f, FloatOp::MulWide(HALF, wide_value(f, FloatOp::LnWide(iv)))),
            wide_value(f, FloatOp::DivWide(square, iv)),
        ),
    )
}

/// The constant of a component after its first `d` dimensions.
pub open spec fn constant_upto<F: Fn(FloatOp) -> u64>(
    weight: u32,
    means_invvars: Seq<u32>,
    inv_vars: Seq<u32>,
    dim: int,
    d: int,
    f: F,
) -> u64
    decreases d,
{
    if d <= 0 {
        wide_value(
            f,
            FloatOp::AddWide(
                wide_value(f, FloatOp::LnWide(wide_value(f, FloatOp::Widen(weight)))),
                constant_offset(dim, f),
            ),
        )
    } else {
        wide_value(
            f,
            FloatOp::AddWide(
                constant_upto(weight, means_invvars, inv_vars, dim, d - 1, f),
                constant_term(means_invvars[d - 1], inv_vars[d - 1], f),
            ),
        )
    }
}

/// The constant of component `g` in double precision.
pub open spec fn wide_constant<F: Fn(FloatOp) -> u64>(m: GmmView, g: int, f: F) -> u64 {
    constant_upto(
        m.weights[g],
        m.means_invvars.rows[g],
        m.inv_vars.rows[g],
        m.inv_vars.cols,
        m.inv_vars.cols,
        f,
    )
}

/// `b` is infinite.
pub open spec fn is_infinite(b: u32) -> bool {
    b == INFINITY || b == NEG_INFINITY
}

/// The constant of component `g`: positive infinity is turned into negative infinity, so that the
/// likelihood vanishes rather than being undefined.
pub open spec fn constant<F: Fn(FloatOp) -> u64>(m: GmmView, g: int, f: F) -> u32 {
    let gc = value(f, FloatOp::Narrow(wide_constant(m, g, f)));
    if gc == INFINITY {
        NEG_INFINITY
    } else {
        gc
    }
}

/// Component `g` has a constant: its weight is a number that is not negative, and the constant is
/// a number.
pub open spec fn has_constant<F: Fn(FloatOp) -> u64>(m: GmmView, g: int, f: F) -> bool {
    !less(m.weights[g], ZERO) && same(m.weights[g], m.weights[g]) && wide_same(
        wide_constant(m, g, f),
        wide_constant(m, g, f),
    )
}

/// How many of the first `n` components have an infinite constant.
pub open spec fn bad_constants<F: Fn(FloatOp) -> u64>(m: GmmView, n: int, f: F) -> int
    decreases n,
{
    if n <= 0 {
        0
    } else {
        bad_constants(m, n - 1, f) + if is_infinite(constant(m, n - 1, f)) {
            1int
        } else {
            0
        }
    }
}

impl DiagGmm {
    pub fn num_gauss(&self) -> (r: usize)
        ensures
            r == self@.weights.len(),
    {
        self.weights.len()
    }

    pub fn dim(&self) -> (r: usize)
        ensures
            r == self@.inv_vars.cols,
    {
        self.inv_vars.cols
    }

    /// Recompute the constants, and count the infinite ones. If a weight is negative or a constant
    /// is not a number there is no answer, and the mixture stays as it was.
    pub fn try_compute_gconsts<F: Fn(FloatOp) -> u64>(&mut self, f: &F) -> (r: Option<usize>)
        requires
            is_evaluator(*f),
            old(self)@.wf(),
        ensures
            r is Some == forall|g: int|
                0 <= g < old(self)@.weights.len() ==> #[trigger] has_constant(old(self)@, g, *f),
            r is None ==> *final(self) == *old(self),
            r matches Some(bad) ==> bad == bad_constants(
                old(self)@,
                old(self)@.weights.len() as int,
                *f,
            ) && final(self)@ == (GmmView {
                gconsts: Seq::new(
                    old(self)@.weights.len(),
                    |g: int| constant(old(self)@, g, *f),
                ),
                ..old(self)@
            }),
    {
        let ghost m = self@;
        let dim: usize = self.inv_vars.cols;
        let offset: u64 = eval_wide(
            f,
            FloatOp::MulWide(
                eval_wide(f, FloatOp::MulWide(MINUS_HALF, LOG_2PI)),
                eval_wide(f, FloatOp::CountWide(dim as u64)),
            ),
        );
        let mut out: Vec<u32> = Vec::new();
        let mut bad: usize = 0;
        let mut g: usize = 0;
        while g < self.weights.len()
            invariant
                is_evaluator(*f),
                *self == *old(self),
                m == self@,
                m.wf(),
                dim == m.inv_vars.cols,
                offset == constant_offset(dim as int, *f),
                g <= m.weights.len(),
                bad <= g,
                bad == bad_constants(m, g as int, *f),
                out@ == Seq::new(g as nat, |k: int| constant(m, k, *f)),
                forall|k: int| 0 <= k < g ==> #[trigger] has_constant(m, k, *f),
            decreases self.weights.len() - g,
        {
            let w: u32 = self.weights[g];
            if !crate::float::le(ZERO, w) {
                assert(!has_constant(m, g as int, *f));
                return None;
            }
            let mis = &self.means_invvars.rows[g];
            let ivs = &self.inv_vars.rows[g];
            assert(mis@ == m.means_invvars.rows[g as int]);
            assert(ivs@ == m.inv_vars.rows[g as int]);
            let mut gc: u64 = eval_wide(
                f,
                FloatOp::AddWide(
                    eval_wide(f, FloatOp::LnWide(eval_wide(f, FloatOp::Widen(w)))),
                    offset,
                ),
            );
            let mut d: usize = 0;
            while d < dim
                invariant
                    is_evaluator(*f),
                    d <= dim,
                    mis@.len() == dim,
                    ivs@.len() == dim,
                    gc == constant_upto(w, mis@, ivs@, dim as int, d as int, *f),
                decreases dim - d,
            {
                let mi: u64 = eval_wide(f, FloatOp::Widen(mis[d]));
                let iv: u64 = eval_wide(f, FloatOp::Widen(ivs[d]));
                let half_log: u64 = eval_wide(
                    f,
                    FloatOp::MulWide(HALF, eval_wide(f, FloatOp::LnWide(iv))),
                );
                let square: u64 = eval_wide(
                    f,
                    FloatOp::MulWide(eval_wide(f, FloatOp::MulWide(HALF, mi)), mi),
                );
                let quotient: u64 = eval_wide(f, FloatOp::DivWide(square, iv));
                let term: u64 = eval_wide(f, FloatOp::SubWide(half_log, quotient));
                gc = eval_wide(f, FloatOp::AddWide(gc, term));
                d += 1;
            }
            if !wide_eq(gc, gc) {
                assert(!has_constant(m, g as int, *f));
                return None;
            }
            let mut narrow: u32 = eval(f, FloatOp::Narrow(gc));
            if narrow == INFINITY {
                narrow = NEG_INFINITY;
            }
            if narrow == NEG_INFINITY {
                bad += 1;
            }
            out.push(narrow);
            assert(out@ =~= Seq::new((g + 1) as nat, |k: int| constant(m, k, *f)));
            g += 1;
        }
        self.gconsts = out;
        Some(bad)
    }

    /// Recompute the constants, and count the infinite ones.
    pub fn compute_gconsts<F: Fn(FloatOp) -> u64>(&mut self, f: &F) -> (r: usize)
        requires
            is_evaluator(*f),
            old(self)@.wf(),
            forall|g: int|
                0 <= g < old(self)@.weights.len() ==> #[trigger] has_constant(old(self)@, g, *f),
        ensures
            r == bad_constants(old(self)@, old(self)@.weights.len() as int, *f),
            final(self)@ == (GmmView {
                gconsts: Seq::new(
                    old(self)@.weights.len(),
                    |g: int| constant(old(self)@, g, *f),
                ),
                ..old(self)@
            }),
    {
        self.try_compute_gconsts(f).unwrap()
    }
}

/// The mean of component `g` in dimension `d`.
pub open spec fn mean_at<F: Fn(FloatOp) -> u64>(m: GmmView, g: int, d: int, f: F) -> u32 {
    value(f, FloatOp::Div(m.means_invvars.rows[g][d], m.inv_vars.rows[g][d]))
}

/// The variance of component `g` in dimension `d`.
pub open spec fn var_at<F: Fn(FloatOp) -> u64>(m: GmmView, g: int, d: int, f: F) -> u32 {
    value(f, FloatOp::Div(ONE, m.inv_vars.rows[g][d]))
}

/// The means, one row per component.
pub open spec fn means_of<F: Fn(FloatOp) -> u64>(m: GmmView, f: F) -> MatrixView {
    tabulated(m.weights.len() as int, m.inv_vars.cols, |g: int, d: int| mean_at(m, g, d, f))
}

/// The variances, one row per component.
pub open spec fn vars_of<F: Fn(FloatOp) -> u64>(m: GmmView, f: F) -> MatrixView {
    tabulated(m.weights.len() as int, m.inv_vars.cols, |g: int, d: int| var_at(m, g, d, f))
}

impl DiagGmm {
    /// The means, one row per component.
    pub fn means<F: Fn(FloatOp) -> u64>(&self, f: &F) -> (r: Matrix)
        requires
            is_evaluator(*f),
            self@.wf(),
        ensures
            r@ == means_of(self@, *f),
            r@.wf(),
    {
        let n: usize = self.weights.len();
        let dim: usize = self.inv_vars.cols;
        let fg: Ghost<F> = Ghost(*f);
        let entry = |g: usize, d: usize| -> (v: u32)
            requires
                g < self@.weights.len(),
                d < self@.inv_vars.cols,
            ensures
                v == mean_at(self@, g as int, d as int, fg@),
            { eval(f, FloatOp::Div(self.means_invvars.at(g, d), self.inv_vars.at(g, d))) };
        Matrix::tabulate(n, dim, &entry, Ghost(|g: int, d: int| mean_at(self@, g, d, *f)))
    }
}

/// The mixture with its constants recomputed, if every component has one.
pub open spec fn with_constants<F: Fn(FloatOp) -> u64>(m: GmmView, f: F) -> Option<GmmView> {
    if forall|g: int| 0 <= g < m.weights.len() ==> #[trigger] has_constant(m, g, f) {
        Some(
            GmmView { gconsts: Seq::new(m.weights.len(), |g: int| constant(m, g, f)), ..m },
        )
    } else {
        None
    }
}

/// The parts of a mixture put together, and its constants computed.
pub open spec fn assembled<F: Fn(FloatOp) -> u64>(
    weights: Seq<u32>,
    means_invvars: MatrixView,
    inv_vars: MatrixView,
    f: F,
) -> Option<GmmView> {
    with_constants(GmmView { weights, means_invvars, inv_vars, gconsts: seq![] }, f)
}

/// The result of a function that may have none.
pub open spec fn gives(r: Option<DiagGmm>, want: Option<GmmView>) -> bool {
    match want {
        Some(m) => r matches Some(x) && x@ == m && m.wf(),
        None => r is None,
    }
}

pub(crate) fn assemble<F: Fn(FloatOp) -> u64>(
    weights: Vec<u32>,
    means_invvars: Matrix,
    inv_vars: Matrix,
    f: &F,
) -> (r: Option<DiagGmm>)
    requires
        is_evaluator(*f),
        means_invvars@.wf(),
        inv_vars@.wf(),
        means_invvars@.rows.len() == weights@.len(),
        inv_vars@.rows.len() == weights@.len(),
        means_invvars@.cols == inv_vars@.cols,
    ensures
        gives(r, assembled(weights@, means_invvars@, inv_vars@, *f)),
{
    let mut out = DiagGmm { weights, means_invvars, inv_vars, gconsts: Vec::new() };
    match out.try_compute_gconsts(f) {
        Some(bad) => Some(out),
        None => None,
    }
}

/// A constant matrix.
pub open spec fn filled(rows: int, cols: int, v: u32) -> MatrixView {
    tabulated(rows, cols, |i: int, j: int| v)
}

fn fill(rows: usize, cols: usize, v: u32) -> (r: Matrix)
    ensures
        r@ == filled(rows as int, cols as int, v),
        r@.wf(),
{
    let entry = |i: usize, j: usize| -> (x: u32)
        ensures
            x == v,
        { v };
    Matrix::tabulate(rows, cols, &entry, Ghost(|i: int, j: int| v))
}

/// Components of zero mean and unit variance with equal weights.
pub open spec fn plain_mixture<F: Fn(FloatOp) -> u64>(n: int, dim: int, f: F) -> Option<GmmView> {
    let weight = value(f, FloatOp::Div(ONE, value(f, FloatOp::Count(n as u64))));
    assembled(Seq::new(n as nat, |g: int| weight), filled(n, dim, ZERO), filled(n, dim, ONE), f)
}

/// One component with these means and variances.
pub open spec fn single_mixture<F: Fn(FloatOp) -> u64>(mean: Seq<u32>, var: Seq<u32>, f: F) -> Option<
    GmmView,
> {
    let dim = mean.len() as int;
    assembled(
        seq![ONE],
        tabulated(1, dim, |g: int, d: int| scaled_mean(mean[d], var[d], f)),
        tabulated(1, dim, |g: int, d: int| value(f, FloatOp::Div(ONE, var[d]))),
        f,
    )
}

/// A mean times the inverse of its variance.
pub open spec fn scaled_mean<F: Fn(FloatOp) -> u64>(mean: u32, var: u32, f: F) -> u32 {
    value(f, FloatOp::Mul(mean, value(f, FloatOp::Div(ONE, var))))
}

/// The mixture with these means and variances.
pub open spec fn with_means_and_vars<F: Fn(FloatOp) -> u64>(
    m: GmmView,
    means: MatrixView,
    vars: MatrixView,
    f: F,
) -> Option<GmmView> {
    let n = m.weights.len() as int;
    let dim = m.inv_vars.cols;
    if forall|g: int, d: int|
        0 <= g < n && 0 <= d < dim ==> less(ZERO, #[trigger] vars.rows[g][d]) {
        assembled(
            m.weights,
            tabulated(
                n,
                dim,
                |g: int, d: int| scaled_mean(means.rows[g][d], vars.rows[g][d], f),
            ),
            tabulated(n, dim, |g: int, d: int| value(f, FloatOp::Div(ONE, vars.rows[g][d]))),
            f,
        )
    } else {
        None
    }
}

/// What the frame adds to the log-likelihood of a component, over the first `d` dimensions.
pub open spec fn frame_term<F: Fn(FloatOp) -> u64>(
    means_invvars: Seq<u32>,
    inv_vars: Seq<u32>,
    x: Seq<u32>,
    d: int,
    f: F,
) -> u32
    decreases d,
{
    if d <= 0 {
        ZERO
    } else {
        let v = x[d - 1];
        let linear = value(f, FloatOp::Mul(means_invvars[d - 1], v));
        let half = value(f, FloatOp::Mul(SINGLE_HALF, inv_vars[d - 1]));
        let square = value(f, FloatOp::Mul(value(f, FloatOp::Mul(half, v)), v));
        value(
            f,
            FloatOp::Add(
                frame_term(means_invvars, inv_vars, x, d - 1, f),
                value(f, FloatOp::Sub(linear, square)),
            ),
        )
    }
}

/// The log-likelihood of a frame under component `g`.
pub open spec fn log_like_at<F: Fn(FloatOp) -> u64>(m: GmmView, x: Seq<u32>, g: int, f: F) -> u32 {
    value(
        f,
        FloatOp::Add(
            m.gconsts[g],
            frame_term(m.means_invvars.rows[g], m.inv_vars.rows[g], x, x.len() as int, f),
        ),
    )
}

/// The log-likelihoods of a frame under the components.
pub open spec fn log_likes<F: Fn(FloatOp) -> u64>(m: GmmView, x: Seq<u32>, f: F) -> Seq<u32> {
    Seq::new(m.weights.len(), |g: int| log_like_at(m, x, g, f))
}

/// The first heaviest of the first `n` components.
pub open spec fn heaviest(weights: Seq<u32>, n: int) -> int
    decreases n,
{
    if n <= 1 {
        0
    } else {
        let best = heaviest(weights, n - 1);
        if less(weights[best], weights[n - 1]) {
            n - 1
        } else {
            best
        }
    }
}

/// How far the two halves of a component are moved in dimension `d`.
pub open spec fn perturbation<F: Fn(FloatOp) -> u64>(noise: u32, inv_var: u32, factor: u32, f: F) -> u32 {
    value(
        f,
        FloatOp::Mul(
            factor,
            value(f, FloatOp::Mul(noise, value(f, FloatOp::Sqrt(inv_var)))),
        ),
    )
}

/// The mixture with its heaviest component split into two halves that `noise` moves apart. The
/// second half comes last.
pub open spec fn split_once<F: Fn(FloatOp) -> u64>(
    m: GmmView,
    factor: u32,
    noise: Seq<u32>,
    f: F,
) -> GmmView {
    let b = heaviest(m.weights, m.weights.len() as int);
    let half = value(f, FloatOp::Div(m.weights[b], SINGLE_TWO));
    let mi = m.means_invvars.rows[b];
    let iv = m.inv_vars.rows[b];
    let up = Seq::new(
        mi.len(),
        |d: int| value(f, FloatOp::Add(mi[d], perturbation(noise[d], iv[d], factor, f))),
    );
    let down = Seq::new(
        mi.len(),
        |d: int| value(f, FloatOp::Sub(mi[d], perturbation(noise[d], iv[d], factor, f))),
    );
    GmmView {
        weights: m.weights.update(b, half).push(half),
        means_invvars: MatrixView {
            rows: m.means_invvars.rows.update(b, down).push(up),
            ..m.means_invvars
        },
        inv_vars: MatrixView { rows: m.inv_vars.rows.push(iv), ..m.inv_vars },
        gconsts: m.gconsts,
    }
}

/// The mixture split until it has `target` components. Every split takes as much noise as there are
/// dimensions.
pub open spec fn split_upto<F: Fn(FloatOp) -> u64>(
    m: GmmView,
    target: int,
    factor: u32,
    noise: Seq<u32>,
    f: F,
) -> GmmView
    decreases target - m.weights.len(),
{
    if m.weights.len() == 0 || m.weights.len() >= target {
        m
    } else {
        proof {
            heaviest_is_one(m.weights, m.weights.len() as int);
        }
        split_upto(
            split_once(m, factor, noise.take(m.inv_vars.cols), f),
            target,
            factor,
            noise.skip(m.inv_vars.cols),
            f,
        )
    }
}

/// The heaviest component is one of those looked at, and none of them weighs more, as far as their
/// weights are numbers.
pub proof fn heaviest_is_one(weights: Seq<u32>, n: int)
    requires
        1 <= n <= weights.len(),
    ensures
        0 <= heaviest(weights, n) < n,
        !is_nan_bits(weights[0]) ==> forall|i: int|
            0 <= i < n ==> !less(weights[heaviest(weights, n)], #[trigger] weights[i]),
    decreases n,
{
    if n > 1 {
        heaviest_is_one(weights, n - 1);
    }
}

/// The result of splitting to `target` components.
pub open spec fn split_mixture<F: Fn(FloatOp) -> u64>(
    m: GmmView,
    target: int,
    factor: u32,
    noise: Seq<u32>,
    f: F,
) -> Option<GmmView> {
    if m.weights.len() == target {
        Some(m)
    } else {
        with_constants(split_upto(m, target, factor, noise, f), f)
    }
}

/// The items at the listed places.
pub open spec fn selected<T>(items: Seq<T>, keep: Seq<usize>) -> Seq<T> {
    Seq::new(keep.len(), |i: int| items[keep[i] as int])
}

/// The mixture of the listed components alone, with its weights scaled to add up to one.
pub open spec fn retained<F: Fn(FloatOp) -> u64>(m: GmmView, keep: Seq<usize>, f: F) -> GmmView {
    let weights = selected(m.weights, keep);
    let sum = sum_upto(weights, weights.len() as int, f);
    if keep.len() == m.weights.len() {
        m
    } else {
        GmmView {
            weights: if less(ZERO, sum) {
                Seq::new(weights.len(), |i: int| value(f, FloatOp::Div(weights[i], sum)))
            } else {
                weights
            },
            means_invvars: MatrixView {
                rows: selected(m.means_invvars.rows, keep),
                ..m.means_invvars
            },
            inv_vars: MatrixView { rows: selected(m.inv_vars.rows, keep), ..m.inv_vars },
            gconsts: if m.gconsts.len() > keep.len() {
                m.gconsts.take(keep.len() as int)
            } else {
                m.gconsts
            },
        }
    }
}

impl Clone for DiagGmm {
    fn clone(&self) -> (r: Self)
        ensures
            r@ == self@,
    {
        DiagGmm {
            weights: self.weights.clone(),
            means_invvars: self.means_invvars.clone(),
            inv_vars: self.inv_vars.clone(),
            gconsts: self.gconsts.clone(),
        }
    }
}

impl DiagGmm {
    /// Components of zero mean and unit variance with equal weights, if their constants are numbers.
    pub fn try_new<F: Fn(FloatOp) -> u64>(num_gauss: usize, dim: usize, f: &F) -> (r: Option<Self>)
        requires
            is_evaluator(*f),
        ensures
            gives(r, plain_mixture(num_gauss as int, dim as int, *f)),
    {
        let weight: u32 = eval(f, FloatOp::Div(ONE, eval(f, FloatOp::Count(num_gauss as u64))));
        let item = |g: usize| -> (x: u32)
            ensures
                x == weight,
            { weight };
        let weights = list_of(num_gauss, &item, Ghost(|g: int| weight));
        assemble(weights, fill(num_gauss, dim, ZERO), fill(num_gauss, dim, ONE), f)
    }

    /// Components of zero mean and unit variance with equal weights.
    pub fn new<F: Fn(FloatOp) -> u64>(num_gauss: usize, dim: usize, f: &F) -> (r: Self)
        requires
            is_evaluator(*f),
            num_gauss > 0,
            dim > 0,
            plain_mixture(num_gauss as int, dim as int, *f) is Some,
        ensures
            r@ == plain_mixture(num_gauss as int, dim as int, *f)->0,
            r@.wf(),
    {
        Self::try_new(num_gauss, dim, f).unwrap()
    }

    /// One component with these means and variances, if its constant is a number.
    pub fn try_from_single_gaussian<F: Fn(FloatOp) -> u64>(mean: &[u32], var: &[u32], f: &F) -> (r:
        Option<Self>)
        requires
            is_evaluator(*f),
            mean@.len() == var@.len(),
        ensures
            gives(r, single_mixture(mean@, var@, *f)),
    {
        let dim: usize = mean.len();
        let fg: Ghost<F> = Ghost(*f);
        let scaled = |g: usize, d: usize| -> (x: u32)
            requires
                d < mean@.len(),
                d < var@.len(),
            ensures
                x == scaled_mean(mean@[d as int], var@[d as int], fg@),
            { eval(f, FloatOp::Mul(mean[d], eval(f, FloatOp::Div(ONE, var[d])))) };
        let inverse = |g: usize, d: usize| -> (x: u32)
            requires
                d < var@.len(),
            ensures
                x == value(fg@, FloatOp::Div(ONE, var@[d as int])),
            { eval(f, FloatOp::Div(ONE, var[d])) };
        let means_invvars = Matrix::tabulate(
            1,
            dim,
            &scaled,
            Ghost(|g: int, d: int| scaled_mean(mean@[d], var@[d], *f)),
        );
        let inv_vars = Matrix::tabulate(
            1,
            dim,
            &inverse,
            Ghost(|g: int, d: int| value(*f, FloatOp::Div(ONE, var@[d]))),
        );
        let mut weights: Vec<u32> = Vec::new();
        weights.push(ONE);
        assert(weights@ =~= seq![ONE]);
        assemble(weights, means_invvars, inv_vars, f)
    }

    /// One component with these means and variances, which have to be positive.
    pub fn from_single_gaussian<F: Fn(FloatOp) -> u64>(mean: &[u32], var: &[u32], f: &F) -> (r: Self)
        requires
            is_evaluator(*f),
            0 < mean@.len() == var@.len(),
            forall|d: int| 0 <= d < var@.len() ==> less(ZERO, #[trigger] var@[d]),
            single_mixture(mean@, var@, *f) is Some,
        ensures
            r@ == single_mixture(mean@, var@, *f)->0,
            r@.wf(),
    {
        Self::try_from_single_gaussian(mean, var, f).unwrap()
    }

    /// The variances, one row per component.
    pub fn vars<F: Fn(FloatOp) -> u64>(&self, f: &F) -> (r: Matrix)
        requires
            is_evaluator(*f),
            self@.wf(),
        ensures
            r@ == vars_of(self@, *f),
            r@.wf(),
    {
        let fg: Ghost<F> = Ghost(*f);
        let entry = |g: usize, d: usize| -> (v: u32)
            requires
                g < self@.weights.len(),
                d < self@.inv_vars.cols,
            ensures
                v == var_at(self@, g as int, d as int, fg@),
            { eval(f, FloatOp::Div(ONE, self.inv_vars.at(g, d))) };
        Matrix::tabulate(
            self.weights.len(),
            self.inv_vars.cols,
            &entry,
            Ghost(|g: int, d: int| var_at(self@, g, d, *f)),
        )
    }

    /// The mean of a component.
    pub fn component_mean<F: Fn(FloatOp) -> u64>(&self, g: usize, f: &F) -> (r: Vec<u32>)
        requires
            is_evaluator(*f),
            self@.wf(),
            g < self@.weights.len(),
        ensures
            r@ == means_of(self@, *f).rows[g as int],
    {
        let fg: Ghost<F> = Ghost(*f);
        let item = |d: usize| -> (v: u32)
            requires
                d < self@.inv_vars.cols,
            ensures
                v == mean_at(self@, g as int, d as int, fg@),
            { eval(f, FloatOp::Div(self.means_invvars.at(g, d), self.inv_vars.at(g, d))) };
        let r = list_of(self.inv_vars.cols, &item, Ghost(|d: int| mean_at(self@, g as int, d, *f)));
        assert(r@ =~= means_of(self@, *f).rows[g as int]);
        r
    }

    /// The sum of the weights.
    pub fn weight_sum<F: Fn(FloatOp) -> u64>(&self, f: &F) -> (r: u32)
        requires
            is_evaluator(*f),
        ensures
            r == sum_upto(self@.weights, self@.weights.len() as int, *f),
    {
        sum_of(self.weights.as_slice(), f)
    }

    /// The mixture with these means and variances, if the variances are positive and the constants
    /// are numbers.
    pub fn try_with_means_and_vars<F: Fn(FloatOp) -> u64>(&self, means: &Matrix, vars: &Matrix, f: &F)
        -> (r: Option<Self>)
        requires
            is_evaluator(*f),
            self@.wf(),
            means@.wf(),
            vars@.wf(),
            means@.rows.len() == vars@.rows.len() == self@.weights.len(),
            means@.cols == vars@.cols == self@.inv_vars.cols,
        ensures
            gives(r, with_means_and_vars(self@, means@, vars@, *f)),
    {
        let n: usize = self.weights.len();
        let dim: usize = self.inv_vars.cols;
        let mut g: usize = 0;
        while g < n
            invariant
                n == self@.weights.len(),
                dim == self@.inv_vars.cols,
                vars@.wf(),
                vars@.rows.len() == n,
                vars@.cols == dim,
                g <= n,
                forall|i: int, d: int|
                    0 <= i < g && 0 <= d < dim ==> less(ZERO, #[trigger] vars@.rows[i][d]),
            decreases n - g,
        {
            let mut d: usize = 0;
            while d < dim
                invariant
                    n == self@.weights.len(),
                    dim == self@.inv_vars.cols,
                    vars@.wf(),
                    vars@.rows.len() == n,
                    vars@.cols == dim,
                    g < n,
                    d <= dim,
                    forall|i: int, j: int|
                        0 <= i < g && 0 <= j < dim ==> less(ZERO, #[trigger] vars@.rows[i][j]),
                    forall|j: int|
                        0 <= j < d ==> less(ZERO, #[trigger] vars@.rows[g as int][j]),
                decreases dim - d,
            {
                if !lt(ZERO, vars.at(g, d)) {
                    assert(!less(ZERO, vars@.rows[g as int][d as int]));
                    return None;
                }
                d += 1;
            }
            g += 1;
        }
        let fg: Ghost<F> = Ghost(*f);
        let scaled = |g: usize, d: usize| -> (x: u32)
            requires
                g < self@.weights.len(),
                d < self@.inv_vars.cols,
            ensures
                x == scaled_mean(
                    means@.rows[g as int][d as int],
                    vars@.rows[g as int][d as int],
                    fg@,
                ),
            { eval(f, FloatOp::Mul(means.at(g, d), eval(f, FloatOp::Div(ONE, vars.at(g, d))))) };
        let inverse = |g: usize, d: usize| -> (x: u32)
            requires
                g < self@.weights.len(),
                d < self@.inv_vars.cols,
            ensures
                x == value(fg@, FloatOp::Div(ONE, vars@.rows[g as int][d as int])),
            { eval(f, FloatOp::Div(ONE, vars.at(g, d))) };
        let means_invvars = Matrix::tabulate(
            n,
            dim,
            &scaled,
            Ghost(|g: int, d: int| scaled_mean(means@.rows[g][d], vars@.rows[g][d], *f)),
        );
        let inv_vars = Matrix::tabulate(
            n,
            dim,
            &inverse,
            Ghost(|g: int, d: int| value(*f, FloatOp::Div(ONE, vars@.rows[g][d]))),
        );
        assemble(self.weights.clone(), means_invvars, inv_vars, f)
    }

    /// Set the means and variances, and recompute the constants.
    pub fn set_means_and_vars<F: Fn(FloatOp) -> u64>(&mut self, means: &Matrix, vars: &Matrix, f: &F)
        requires
            is_evaluator(*f),
            old(self)@.wf(),
            means@.wf(),
            vars@.wf(),
            means@.rows.len() == vars@.rows.len() == old(self)@.weights.len(),
            means@.cols == vars@.cols == old(self)@.inv_vars.cols,
            with_means_and_vars(old(self)@, means@, vars@, *f) is Some,
        ensures
            final(self)@ == with_means_and_vars(old(self)@, means@, vars@, *f)->0,
            final(self)@.wf(),
    {
        let out = self.try_with_means_and_vars(means, vars, f).unwrap();
        *self = out;
    }

    /// The log-likelihoods of a frame under the components, their log weights included.
    pub fn component_log_likes<F: Fn(FloatOp) -> u64>(&self, x: &[u32], f: &F) -> (r: Vec<u32>)
        requires
            is_evaluator(*f),
            self@.wf(),
            self@.gconsts.len() == self@.weights.len(),
            x@.len() == self@.inv_vars.cols,
        ensures
            r@ == log_likes(self@, x@, *f),
    {
        let n: usize = self.weights.len();
        let mut out: Vec<u32> = Vec::new();
        let mut g: usize = 0;
        while g < n
            invariant
                is_evaluator(*f),
                self@.wf(),
                self@.gconsts.len() == n,
                n == self@.weights.len(),
                x@.len() == self@.inv_vars.cols,
                g <= n,
                out@ == Seq::new(g as nat, |k: int| log_like_at(self@, x@, k, *f)),
            decreases n - g,
        {
            assert(self@.means_invvars.rows[g as int] == self.means_invvars.rows@[g as int]@);
            assert(self@.inv_vars.rows[g as int] == self.inv_vars.rows@[g as int]@);
            let term: u32 = frame_sum(&self.means_invvars.rows[g], &self.inv_vars.rows[g], x, f);
            out.push(eval(f, FloatOp::Add(self.gconsts[g], term)));
            assert(out@ =~= Seq::new((g + 1) as nat, |k: int| log_like_at(self@, x@, k, *f)));
            g += 1;
        }
        assert(out@ =~= log_likes(self@, x@, *f));
        out
    }

    /// The log-likelihood of a frame.
    pub fn log_likelihood<F: Fn(FloatOp) -> u64>(&self, x: &[u32], f: &F) -> (r: u32)
        requires
            is_evaluator(*f),
            self@.wf(),
            self@.gconsts.len() == self@.weights.len(),
            x@.len() == self@.inv_vars.cols,
            !is_nan_bits(log_sum(log_likes(self@, x@, *f), *f)),
        ensures
            r == log_sum(log_likes(self@, x@, *f), *f),
    {
        log_sum_exp(self.component_log_likes(x, f).as_slice(), f)
    }

    /// The posteriors of the components given a frame, and the log-likelihood of the frame. None if
    /// that is not finite.
    pub fn try_component_posteriors<F: Fn(FloatOp) -> u64>(&self, x: &[u32], f: &F) -> (r: Option<
        (Vec<u32>, u32),
    >)
        requires
            is_evaluator(*f),
            self@.wf(),
            self@.gconsts.len() == self@.weights.len(),
            x@.len() == self@.inv_vars.cols,
        ensures
            r is Some == is_finite_bits(soft_max_total(log_likes(self@, x@, *f), *f)),
            r matches Some(v) ==> v.0@ == soft_max(log_likes(self@, x@, *f), *f) && v.1
                == soft_max_total(log_likes(self@, x@, *f), *f),
    {
        let mut out = self.component_log_likes(x, f);
        let total: u32 = apply_soft_max(&mut out, f);
        if is_finite(total) {
            Some((out, total))
        } else {
            None
        }
    }

    /// The posteriors of the components given a frame, and the log-likelihood of the frame.
    pub fn component_posteriors<F: Fn(FloatOp) -> u64>(&self, x: &[u32], f: &F) -> (r: (
        Vec<u32>,
        u32,
    ))
        requires
            is_evaluator(*f),
            self@.wf(),
            self@.gconsts.len() == self@.weights.len(),
            x@.len() == self@.inv_vars.cols,
            is_finite_bits(soft_max_total(log_likes(self@, x@, *f), *f)),
        ensures
            r.0@ == soft_max(log_likes(self@, x@, *f), *f),
            r.1 == soft_max_total(log_likes(self@, x@, *f), *f),
    {
        self.try_component_posteriors(x, f).unwrap()
    }
}

/// What the frame adds to the log-likelihood of a component.
fn frame_sum<F: Fn(FloatOp) -> u64>(mi: &Vec<u32>, iv: &Vec<u32>, x: &[u32], f: &F) -> (r: u32)
    requires
        is_evaluator(*f),
        mi@.len() == x@.len(),
        iv@.len() == x@.len(),
    ensures
        r == frame_term(mi@, iv@, x@, x@.len() as int, *f),
{
    let mut acc: u32 = ZERO;
    let mut d: usize = 0;
    while d < x.len()
        invariant
            is_evaluator(*f),
            mi@.len() == x@.len(),
            iv@.len() == x@.len(),
            d <= x@.len(),
            acc == frame_term(mi@, iv@, x@, d as int, *f),
        decreases x.len() - d,
    {
        let v: u32 = x[d];
        let linear: u32 = eval(f, FloatOp::Mul(mi[d], v));
        let half: u32 = eval(f, FloatOp::Mul(SINGLE_HALF, iv[d]));
        let square: u32 = eval(f, FloatOp::Mul(eval(f, FloatOp::Mul(half, v)), v));
        acc = eval(f, FloatOp::Add(acc, eval(f, FloatOp::Sub(linear, square))));
        d += 1;
    }
    acc
}

/// The first heaviest component.
fn find_heaviest(weights: &Vec<u32>) -> (r: usize)
    requires
        weights@.len() > 0,
    ensures
        r == heaviest(weights@, weights@.len() as int),
        r < weights@.len(),
{
    let mut best: usize = 0;
    let mut i: usize = 1;
    while i < weights.len()
        invariant
            1 <= i <= weights@.len(),
            best == heaviest(weights@, i as int),
            best < i,
        decreases weights.len() - i,
    {
        if lt(weights[best], weights[i]) {
            best = i;
        }
        i += 1;
    }
    best
}

impl DiagGmm {
    /// Split the heaviest component into two halves that `noise` moves apart.
    fn split_heaviest<F: Fn(FloatOp) -> u64>(&mut self, factor: u32, noise: &[u32], f: &F)
        requires
            is_evaluator(*f),
            old(self)@.wf(),
            old(self)@.weights.len() > 0,
            noise@.len() == old(self)@.inv_vars.cols,
        ensures
            final(self)@ == split_once(old(self)@, factor, noise@, *f),
            final(self)@.wf(),
            final(self)@.weights.len() == old(self)@.weights.len() + 1,
            final(self)@.inv_vars.cols == old(self)@.inv_vars.cols,
    {
        let ghost m = self@;
        let b: usize = find_heaviest(&self.weights);
        let half: u32 = eval(f, FloatOp::Div(self.weights[b], SINGLE_TWO));
        let mi = self.means_invvars.rows[b].clone();
        let iv = self.inv_vars.rows[b].clone();
        let dim: usize = self.inv_vars.cols;
        assert(mi@ == m.means_invvars.rows[b as int]);
        assert(iv@ == m.inv_vars.rows[b as int]);
        let fg: Ghost<F> = Ghost(*f);
        let up_at = |d: usize| -> (v: u32)
            requires
                d < mi@.len(),
                d < iv@.len(),
                d < noise@.len(),
            ensures
                v == value(
                    fg@,
                    FloatOp::Add(
                        mi@[d as int],
                        perturbation(noise@[d as int], iv@[d as int], factor, fg@),
                    ),
                ),
            {
                let root: u32 = eval(f, FloatOp::Sqrt(iv[d]));
                let step: u32 = eval(f, FloatOp::Mul(factor, eval(f, FloatOp::Mul(noise[d], root))));
                eval(f, FloatOp::Add(mi[d], step))
            };
        let up = list_of(
            dim,
            &up_at,
            Ghost(
                |d: int|
                    value(*f, FloatOp::Add(mi@[d], perturbation(noise@[d], iv@[d], factor, *f))),
            ),
        );
        let down_at = |d: usize| -> (v: u32)
            requires
                d < mi@.len(),
                d < iv@.len(),
                d < noise@.len(),
            ensures
                v == value(
                    fg@,
                    FloatOp::Sub(
                        mi@[d as int],
                        perturbation(noise@[d as int], iv@[d as int], factor, fg@),
                    ),
                ),
            {
                let root: u32 = eval(f, FloatOp::Sqrt(iv[d]));
                let step: u32 = eval(f, FloatOp::Mul(factor, eval(f, FloatOp::Mul(noise[d], root))));
                eval(f, FloatOp::Sub(mi[d], step))
            };
        let down = list_of(
            dim,
            &down_at,
            Ghost(
                |d: int|
                    value(*f, FloatOp::Sub(mi@[d], perturbation(noise@[d], iv@[d], factor, *f))),
            ),
        );
        self.weights.set(b, half);
        self.weights.push(half);
        self.means_invvars.rows.set(b, down);
        self.means_invvars.rows.push(up);
        self.inv_vars.rows.push(iv);
        proof {
            let want = split_once(m, factor, noise@, *f);
            assert(self@.means_invvars.rows =~= want.means_invvars.rows);
            assert(self@.inv_vars.rows =~= want.inv_vars.rows);
            assert(self@ =~= want);
        }
    }

    /// The mixture split until it has `target` components, if the constants are numbers. Every
    /// split takes as much noise as there are dimensions.
    pub fn try_split<F: Fn(FloatOp) -> u64>(
        &self,
        target: usize,
        perturb_factor: u32,
        noise: &[u32],
        f: &F,
    ) -> (r: Option<Self>)
        requires
            is_evaluator(*f),
            self@.wf(),
            0 < self@.weights.len() <= target,
            noise@.len() >= (target - self@.weights.len()) * self@.inv_vars.cols,
        ensures
            gives(r, split_mixture(self@, target as int, perturb_factor, noise@, *f)),
    {
        let mut out = self.clone();
        let n: usize = self.weights.len();
        if target == n {
            return Some(out);
        }
        let dim: usize = self.inv_vars.cols;
        let total: usize = noise.len();
        let mut start: usize = 0;
        let ghost want = split_upto(self@, target as int, perturb_factor, noise@, *f);
        proof {
            assert(noise@.skip(0) =~= noise@);
            assert((target - n) * dim >= 0) by (nonlinear_arith)
                requires
                    target >= n,
            ;
        }
        while out.weights.len() < target
            invariant
                is_evaluator(*f),
                out@.wf(),
                0 < out@.weights.len() <= target,
                out@.inv_vars.cols == dim,
                total == noise@.len(),
                start <= total,
                noise@.len() - start >= (target - out@.weights.len()) * dim,
                want == split_upto(
                    out@,
                    target as int,
                    perturb_factor,
                    noise@.skip(start as int),
                    *f,
                ),
            decreases target - out.weights.len(),
        {
            let ghost left = target - out@.weights.len();
            proof {
                assert(left * dim == (left - 1) * dim + dim && (left - 1) * dim >= 0)
                    by (nonlinear_arith)
                    requires
                        left >= 1,
                        dim >= 0,
                ;
                assert(noise@.skip(start as int).take(dim as int) =~= noise@.subrange(
                    start as int,
                    start + dim,
                ));
                assert(noise@.skip(start as int).skip(dim as int) =~= noise@.skip(start + dim));
            }
            out.split_heaviest(perturb_factor, slice_subrange(noise, start, start + dim), f);
            start += dim;
        }
        match out.try_compute_gconsts(f) {
            Some(bad) => Some(out),
            None => None,
        }
    }

    /// Split components until there are `target`: always the heaviest, into two halves that are
    /// moved apart by `perturb_factor` times the noise, in units of the standard deviation.
    pub fn split<F: Fn(FloatOp) -> u64>(
        &mut self,
        target: usize,
        perturb_factor: u32,
        noise: &[u32],
        f: &F,
    )
        requires
            is_evaluator(*f),
            old(self)@.wf(),
            0 < old(self)@.weights.len() <= target,
            noise@.len() >= (target - old(self)@.weights.len()) * old(self)@.inv_vars.cols,
            split_mixture(old(self)@, target as int, perturb_factor, noise@, *f) is Some,
        ensures
            final(self)@ == split_mixture(old(self)@, target as int, perturb_factor, noise@, *f)->0,
            final(self)@.wf(),
    {
        let out = self.try_split(target, perturb_factor, noise, f).unwrap();
        *self = out;
    }

    /// Keep only the listed components, and scale their weights to add up to one.
    pub fn retain_components<F: Fn(FloatOp) -> u64>(&mut self, keep: &[usize], f: &F)
        requires
            is_evaluator(*f),
            old(self)@.wf(),
            0 < keep@.len(),
            forall|i: int| 0 <= i < keep@.len() ==> #[trigger] keep@[i] < old(self)@.weights.len(),
        ensures
            final(self)@ == retained(old(self)@, keep@, *f),
            final(self)@.wf(),
    {
        if keep.len() == self.weights.len() {
            return;
        }
        let ghost m = self@;
        let n: usize = keep.len();
        let mut weights: Vec<u32> = Vec::new();
        let mut mi: Vec<Vec<u32>> = Vec::new();
        let mut iv: Vec<Vec<u32>> = Vec::new();
        let mut i: usize = 0;
        while i < n
            invariant
                i <= n,
                n == keep@.len(),
                m == self@,
                m.wf(),
                forall|i: int| 0 <= i < n ==> #[trigger] keep@[i] < m.weights.len(),
                weights@ == selected(m.weights, keep@).take(i as int),
                mi@.len() == i,
                iv@.len() == i,
                forall|k: int|
                    0 <= k < i ==> (#[trigger] mi@[k])@ == m.means_invvars.rows[keep@[k] as int],
                forall|k: int| 0 <= k < i ==> (#[trigger] iv@[k])@ == m.inv_vars.rows[keep@[k] as int],
            decreases n - i,
        {
            let k: usize = keep[i];
            weights.push(self.weights[k]);
            mi.push(self.means_invvars.rows[k].clone());
            iv.push(self.inv_vars.rows[k].clone());
            assert(weights@ =~= selected(m.weights, keep@).take(i + 1));
            i += 1;
        }
        assert(weights@ =~= selected(m.weights, keep@));
        let sum: u32 = sum_of(weights.as_slice(), f);
        if lt(ZERO, sum) {
            let fg: Ghost<F> = Ghost(*f);
            let item = |k: usize| -> (v: u32)
                requires
                    k < weights@.len(),
                ensures
                    v == value(fg@, FloatOp::Div(weights@[k as int], sum)),
                { eval(f, FloatOp::Div(weights[k], sum)) };
            let scaled = list_of(
                n,
                &item,
                Ghost(|k: int| value(*f, FloatOp::Div(weights@[k], sum))),
            );
            self.weights = scaled;
        } else {
            self.weights = weights;
        }
        self.means_invvars.rows = mi;
        self.inv_vars.rows = iv;
        if self.gconsts.len() > n {
            self.gconsts.truncate(n);
        }
        proof {
            let want = retained(m, keep@, *f);
            assert(self@.means_invvars.rows =~= want.means_invvars.rows);
            assert(self@.inv_vars.rows =~= want.inv_vars.rows);
            assert(self@.weights =~= want.weights);
            assert(self@.gconsts =~= want.gconsts);
        }
    }

    /// The mixture with all weights scaled, if the constants are numbers.
    pub fn try_scale_weights<F: Fn(FloatOp) -> u64>(&self, factor: u32, f: &F) -> (r: Option<Self>)
        requires
            is_evaluator(*f),
            self@.wf(),
        ensures
            gives(r, scaled_mixture(self@, factor, *f)),
    {
        let fg: Ghost<F> = Ghost(*f);
        let item = |g: usize| -> (v: u32)
            requires
                g < self@.weights.len(),
            ensures
                v == value(fg@, FloatOp::Mul(self@.weights[g as int], factor)),
            { eval(f, FloatOp::Mul(self.weights[g], factor)) };
        let weights = list_of(
            self.weights.len(),
            &item,
            Ghost(|g: int| value(*f, FloatOp::Mul(self@.weights[g], factor))),
        );
        assemble(weights, self.means_invvars.clone(), self.inv_vars.clone(), f)
    }

    /// Scale all weights, without bringing their sum back to one.
    pub fn scale_weights<F: Fn(FloatOp) -> u64>(&mut self, factor: u32, f: &F)
        requires
            is_evaluator(*f),
            old(self)@.wf(),
            scaled_mixture(old(self)@, factor, *f) is Some,
        ensures
            final(self)@ == scaled_mixture(old(self)@, factor, *f)->0,
            final(self)@.wf(),
    {
        let out = self.try_scale_weights(factor, f).unwrap();
        *self = out;
    }
}

/// The mixture with all weights scaled.
pub open spec fn scaled_mixture<F: Fn(FloatOp) -> u64>(m: GmmView, factor: u32, f: F) -> Option<
    GmmView,
> {
    assembled(
        Seq::new(m.weights.len(), |g: int| value(f, FloatOp::Mul(m.weights[g], factor))),
        m.means_invvars,
        m.inv_vars,
        f,
    )
}

/// Splitting to a target gives that many components, and keeps the dimension.
pub proof fn split_reaches_its_target<F: Fn(FloatOp) -> u64>(
    m: GmmView,
    target: int,
    factor: u32,
    noise: Seq<u32>,
    f: F,
)
    requires
        0 < m.weights.len() <= target,
    ensures
        split_upto(m, target, factor, noise, f).weights.len() == target,
        split_upto(m, target, factor, noise, f).inv_vars.cols == m.inv_vars.cols,
        split_mixture(m, target, factor, noise, f) matches Some(s) ==> s.weights.len() == target,
    decreases target - m.weights.len(),
{
    if m.weights.len() < target {
        heaviest_is_one(m.weights, m.weights.len() as int);
        split_reaches_its_target(
            split_once(m, factor, noise.take(m.inv_vars.cols), f),
            target,
            factor,
            noise.skip(m.inv_vars.cols),
            f,
        );
    }
}

} // verus!
