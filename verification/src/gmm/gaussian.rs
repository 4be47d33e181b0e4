//! What the log-likelihoods of mixtures mean as numbers, where nothing is rounded.

use vstd::prelude::*;

use crate::exact::{
    constants_are_exact, difference_is_exact, halves_are_exact, is_double, is_exact, is_single,
    is_wide_exact, means, product_is_exact, real_of, sum_is_exact, wide_difference_is_exact,
    wide_means, wide_product_is_exact, wide_quotient_is_exact, wide_real_of, wide_sum_is_exact,
};
use crate::float::{is_finite_bits, is_wide_finite_bits, value, wide_value, FloatOp};
use crate::gmm::diag::{
    constant_offset, constant_term, constant_upto, frame_term, log_like_at, GmmView, HALF, LOG_2PI,
    MINUS_HALF, SINGLE_HALF,
};

verus! {

/// Half the squared distance of a value from the mean of a component, over its variance.
pub open spec fn half_distance(mean_invvar: real, inv_var: real, x: real) -> real {
    let offset = x - mean_invvar / inv_var;
    inv_var * (offset * offset) / 2 as real
}

/// Half the squared distance of a frame from the mean of a component over the first `d` dimensions.
pub open spec fn half_distances(
    means_invvars: Seq<u32>,
    inv_vars: Seq<u32>,
    x: Seq<u32>,
    d: int,
) -> real
    decreases d,
{
    if d <= 0 {
        0 as real
    } else {
        half_distances(means_invvars, inv_vars, x, d - 1) + half_distance(
            real_of(means_invvars[d - 1]),
            real_of(inv_vars[d - 1]),
            real_of(x[d - 1]),
        )
    }
}

/// What the log-likelihood of a component is at its mean, less its constant, over the first `d`
/// dimensions.
pub open spec fn peaks(means_invvars: Seq<u32>, inv_vars: Seq<u32>, d: int) -> real
    decreases d,
{
    if d <= 0 {
        0 as real
    } else {
        let (mi, iv) = (real_of(means_invvars[d - 1]), real_of(inv_vars[d - 1]));
        peaks(means_invvars, inv_vars, d - 1) + mi * mi / iv / 2 as real
    }
}

/// One dimension adds to the log-likelihood of a frame without rounding.
pub open spec fn scores_exactly(
    means_invvars: Seq<u32>,
    inv_vars: Seq<u32>,
    x: Seq<u32>,
    d: int,
) -> bool {
    let (mi, iv, v) = (real_of(means_invvars[d]), real_of(inv_vars[d]), real_of(x[d]));
    let half = 1 as real / 2 as real;
    &&& is_finite_bits(means_invvars[d])
    &&& is_finite_bits(inv_vars[d])
    &&& is_finite_bits(x[d])
    &&& iv != 0 as real
    &&& is_single(mi * v)
    &&& is_single(half * iv)
    &&& is_single(half * iv * v)
    &&& is_single(half * iv * v * v)
    &&& is_single(mi * v - half * iv * v * v)
    &&& is_single(
        peaks(means_invvars, inv_vars, d + 1) - half_distances(means_invvars, inv_vars, x, d + 1),
    )
}

proof fn square_is_completed(mi: real, iv: real, v: real)
    requires
        iv != 0 as real,
    ensures
        mi * v - 1 as real / 2 as real * iv * v * v == mi * mi / iv / 2 as real - half_distance(
            mi,
            iv,
            v,
        ),
{
    let m = mi / iv;
    let half = 1 as real / 2 as real;
    assert(m * iv == mi) by (nonlinear_arith)
        requires
            iv != 0 as real,
            m == mi / iv,
    ;
    assert(mi * mi / iv == m * mi) by (nonlinear_arith)
        requires
            iv != 0 as real,
            m == mi / iv,
    ;
    assert(iv * ((v - m) * (v - m)) == iv * v * v - 2 as real * (mi * v) + m * mi)
        by (nonlinear_arith)
        requires
            m * iv == mi,
    ;
    assert(half * iv * v * v == (iv * v * v) / 2 as real) by (nonlinear_arith)
        requires
            half == 1 as real / 2 as real,
    ;
}

proof fn frame_term_is_gaussian<F: Fn(FloatOp) -> u64>(
    means_invvars: Seq<u32>,
    inv_vars: Seq<u32>,
    x: Seq<u32>,
    d: int,
    f: F,
)
    requires
        is_exact(f),
        0 <= d,
        forall|k: int|
            0 <= k < d ==> #[trigger] scores_exactly(means_invvars, inv_vars, x, k),
    ensures
        means(
            frame_term(means_invvars, inv_vars, x, d, f),
            peaks(means_invvars, inv_vars, d) - half_distances(means_invvars, inv_vars, x, d),
        ),
    decreases d,
{
    constants_are_exact();
    halves_are_exact();
    if d > 0 {
        frame_term_is_gaussian(means_invvars, inv_vars, x, d - 1, f);
        assert(scores_exactly(means_invvars, inv_vars, x, d - 1));
        let (a, b, c) = (means_invvars[d - 1], inv_vars[d - 1], x[d - 1]);
        let (mi, iv, v) = (real_of(a), real_of(b), real_of(c));
        let half = 1 as real / 2 as real;
        square_is_completed(mi, iv, v);
        product_is_exact(f, a, mi, c, v);
        product_is_exact(f, SINGLE_HALF, half, b, iv);
        let h = value(f, FloatOp::Mul(SINGLE_HALF, b));
        product_is_exact(f, h, half * iv, c, v);
        let hv = value(f, FloatOp::Mul(h, c));
        product_is_exact(f, hv, half * iv * v, c, v);
        let hvv = value(f, FloatOp::Mul(hv, c));
        difference_is_exact(
            f,
            value(f, FloatOp::Mul(a, c)),
            mi * v,
            hvv,
            half * iv * v * v,
        );
        sum_is_exact(
            f,
            frame_term(means_invvars, inv_vars, x, d - 1, f),
            peaks(means_invvars, inv_vars, d - 1) - half_distances(
                means_invvars,
                inv_vars,
                x,
                d - 1,
            ),
            value(f, FloatOp::Sub(value(f, FloatOp::Mul(a, c)), hvv)),
            mi * v - half * iv * v * v,
        );
    }
}

/// The log-likelihood of a frame is greatest at the mean of a component, and falls off by half the
/// squared distance from it over the variances.
pub proof fn likelihoods_are_gaussian<F: Fn(FloatOp) -> u64>(m: GmmView, x: Seq<u32>, g: int, f: F)
    requires
        is_exact(f),
        m.wf(),
        0 <= g < m.weights.len(),
        x.len() == m.inv_vars.cols,
        is_finite_bits(m.gconsts[g]),
        forall|k: int|
            0 <= k < x.len() ==> #[trigger] scores_exactly(
                m.means_invvars.rows[g],
                m.inv_vars.rows[g],
                x,
                k,
            ),
        is_single(
            real_of(m.gconsts[g]) + (peaks(
                m.means_invvars.rows[g],
                m.inv_vars.rows[g],
                x.len() as int,
            ) - half_distances(m.means_invvars.rows[g], m.inv_vars.rows[g], x, x.len() as int)),
        ),
    ensures
        means(
            log_like_at(m, x, g, f),
            real_of(m.gconsts[g]) + peaks(
                m.means_invvars.rows[g],
                m.inv_vars.rows[g],
                x.len() as int,
            ) - half_distances(m.means_invvars.rows[g], m.inv_vars.rows[g], x, x.len() as int),
        ),
{
    let (mis, ivs) = (m.means_invvars.rows[g], m.inv_vars.rows[g]);
    let n = x.len() as int;
    frame_term_is_gaussian(mis, ivs, x, n, f);
    sum_is_exact(
        f,
        m.gconsts[g],
        real_of(m.gconsts[g]),
        frame_term(mis, ivs, x, n, f),
        peaks(mis, ivs, n) - half_distances(mis, ivs, x, n),
    );
}

/// The natural logarithm, as the evaluator has it.
pub open spec fn ln_of<F: Fn(FloatOp) -> u64>(f: F, b: u32) -> real {
    wide_real_of(wide_value(f, FloatOp::LnWide(wide_value(f, FloatOp::Widen(b)))))
}

/// The logarithms of the inverse variances of the first `d` dimensions together.
pub open spec fn logs_upto<F: Fn(FloatOp) -> u64>(f: F, inv_vars: Seq<u32>, d: int) -> real
    decreases d,
{
    if d <= 0 {
        0 as real
    } else {
        logs_upto(f, inv_vars, d - 1) + ln_of(f, inv_vars[d - 1])
    }
}

/// What the constant of a component is over the first `d` of `dim` dimensions: the logarithm of its
/// weight, plus that of the peak of a normal distribution, less what the frame terms are at the mean.
pub open spec fn log_peak<F: Fn(FloatOp) -> u64>(
    f: F,
    weight: u32,
    means_invvars: Seq<u32>,
    inv_vars: Seq<u32>,
    dim: int,
    d: int,
) -> real {
    ln_of(f, weight) - wide_real_of(LOG_2PI) * dim as real / 2 as real + logs_upto(f, inv_vars, d)
        / 2 as real - peaks(means_invvars, inv_vars, d)
}

/// One dimension adds to a constant without rounding.
pub open spec fn counts_exactly<F: Fn(FloatOp) -> u64>(
    f: F,
    weight: u32,
    means_invvars: Seq<u32>,
    inv_vars: Seq<u32>,
    dim: int,
    d: int,
) -> bool {
    let (mi, iv) = (real_of(means_invvars[d]), real_of(inv_vars[d]));
    let half = 1 as real / 2 as real;
    let log = wide_value(f, FloatOp::LnWide(wide_value(f, FloatOp::Widen(inv_vars[d]))));
    &&& is_finite_bits(means_invvars[d])
    &&& is_finite_bits(inv_vars[d])
    &&& iv != 0 as real
    &&& is_wide_finite_bits(log)
    &&& is_double(half * mi)
    &&& is_double(half * mi * mi)
    &&& is_double(half * mi * mi / iv)
    &&& is_double(half * wide_real_of(log))
    &&& is_double(half * wide_real_of(log) - half * mi * mi / iv)
    &&& is_double(log_peak(f, weight, means_invvars, inv_vars, dim, d + 1))
}

/// The constant of a component makes it a normal distribution times its weight: at the mean of the
/// component the log-likelihood is the logarithm of the weight, less half of the dimension times the
/// logarithm of two pi, plus half of the logarithms of the inverse variances.
pub proof fn constants_are_log_peaks<F: Fn(FloatOp) -> u64>(
    weight: u32,
    means_invvars: Seq<u32>,
    inv_vars: Seq<u32>,
    dim: int,
    d: int,
    f: F,
)
    requires
        is_wide_exact(f),
        0 <= d,
        0 <= dim <= u64::MAX,
        is_wide_finite_bits(
            wide_value(f, FloatOp::LnWide(wide_value(f, FloatOp::Widen(weight)))),
        ),
        is_double(dim as real),
        is_double(-(1 as real / 2 as real) * wide_real_of(LOG_2PI)),
        is_double(-(1 as real / 2 as real) * wide_real_of(LOG_2PI) * dim as real),
        is_double(log_peak(f, weight, means_invvars, inv_vars, dim, 0)),
        forall|k: int|
            0 <= k < d ==> #[trigger] counts_exactly(f, weight, means_invvars, inv_vars, dim, k),
    ensures
        wide_means(
            constant_upto(weight, means_invvars, inv_vars, dim, d, f),
            log_peak(f, weight, means_invvars, inv_vars, dim, d),
        ),
    decreases d,
{
    halves_are_exact();
    let half = 1 as real / 2 as real;
    if d <= 0 {
        let lp = wide_real_of(LOG_2PI);
        wide_product_is_exact(f, MINUS_HALF, -half, LOG_2PI, lp);
        let first = wide_value(f, FloatOp::MulWide(MINUS_HALF, LOG_2PI));
        let count = wide_value(f, FloatOp::CountWide(dim as u64));
        assert(wide_means(count, dim as real));
        wide_product_is_exact(f, first, -half * lp, count, dim as real);
        let log = wide_value(f, FloatOp::LnWide(wide_value(f, FloatOp::Widen(weight))));
        assert(-half * lp * dim as real == -(lp * dim as real / 2 as real)) by (nonlinear_arith)
            requires
                half == 1 as real / 2 as real,
        ;
        wide_sum_is_exact(
            f,
            log,
            wide_real_of(log),
            constant_offset(dim, f),
            -half * lp * dim as real,
        );
    } else {
        constants_are_log_peaks(weight, means_invvars, inv_vars, dim, d - 1, f);
        assert(counts_exactly(f, weight, means_invvars, inv_vars, dim, d - 1));
        let (a, b) = (means_invvars[d - 1], inv_vars[d - 1]);
        let (mi, iv) = (real_of(a), real_of(b));
        let (wa, wb) = (wide_value(f, FloatOp::Widen(a)), wide_value(f, FloatOp::Widen(b)));
        let h = HALF;
        let log = wide_value(f, FloatOp::LnWide(wb));
        wide_product_is_exact(f, h, half, wa, mi);
        let ha = wide_value(f, FloatOp::MulWide(h, wa));
        wide_product_is_exact(f, ha, half * mi, wa, mi);
        let haa = wide_value(f, FloatOp::MulWide(ha, wa));
        wide_quotient_is_exact(f, haa, half * mi * mi, wb, iv);
        wide_product_is_exact(f, h, half, log, wide_real_of(log));
        wide_difference_is_exact(
            f,
            wide_value(f, FloatOp::MulWide(h, log)),
            half * wide_real_of(log),
            wide_value(f, FloatOp::DivWide(haa, wb)),
            half * mi * mi / iv,
        );
        assert(half * mi * mi / iv == mi * mi / iv / 2 as real) by (nonlinear_arith)
            requires
                half == 1 as real / 2 as real,
                iv != 0 as real,
        ;
        wide_sum_is_exact(
            f,
            constant_upto(weight, means_invvars, inv_vars, dim, d - 1, f),
            log_peak(f, weight, means_invvars, inv_vars, dim, d - 1),
            constant_term(a, b, f),
            half * wide_real_of(log) - half * mi * mi / iv,
        );
    }
}

} // verus!
