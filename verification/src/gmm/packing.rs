//! What packed mixtures and expanded frames mean as numbers, where nothing is rounded.

use vstd::prelude::*;

use crate::device::score::expanded_row;
use crate::exact::{
    constants_are_exact, factors_cancel, finite_is_single, halves_are_exact, is_exact, is_single,
    means, negation_is_exact, product_is_exact, quotient_is_exact, quotient_undoes, real_of,
};
use crate::float::{negated, value, FloatOp, ONE};
use crate::gmm::diag::{mean_at, var_at, with_means_and_vars, GmmView};
use crate::gmm::matrix::MatrixView;
use crate::gmm::packed::{packed_row, SINGLE_MINUS_HALF};

verus! {

/// The packed row of a component belongs to the expanded row of a frame: the constant stands over the
/// one, and in every dimension the products of what stands over the value and over its square are
/// what that dimension adds to the log-likelihood.
pub proof fn packed_rows_score_expanded_ones<F: Fn(FloatOp) -> u64>(
    m: GmmView,
    c: int,
    x: Seq<u32>,
    d: int,
    mi: real,
    iv: real,
    v: real,
    f: F,
)
    requires
        is_exact(f),
        m.means_invvars.rows[c].len() == x.len(),
        0 <= d < x.len(),
        means(m.means_invvars.rows[c][d], mi),
        means(m.inv_vars.rows[c][d], iv),
        means(x[d], v),
        is_single(-(1 as real / 2 as real) * iv),
        is_single(v * v),
    ensures
        ({
            let (p, e) = (packed_row(m, c, x.len() as int, f), expanded_row(x, f));
            let n = x.len() as int;
            &&& p.len() == 1 + 2 * n
            &&& e.len() == 1 + 2 * n
            &&& p[0] == m.gconsts[c]
            &&& means(e[0], 1 as real)
            &&& real_of(p[1 + d]) * real_of(e[1 + d]) == mi * v
            &&& real_of(p[1 + n + d]) * real_of(e[1 + n + d]) == -(1 as real / 2 as real) * iv * (v
                * v)
        }),
{
    halves_are_exact();
    constants_are_exact();
    let half = 1 as real / 2 as real;
    negation_is_exact(0x3f00_0000);
    assert(negated(0x3f00_0000) == SINGLE_MINUS_HALF);
    product_is_exact(f, SINGLE_MINUS_HALF, -half, m.inv_vars.rows[c][d], iv);
    product_is_exact(f, x[d], v, x[d], v);
}

proof fn times_nothing(v: real)
    by (nonlinear_arith)
    ensures
        0 as real * v == 0 as real,
{
}

proof fn factors_swap(a: real, b: real)
    by (nonlinear_arith)
    ensures
        a * b == b * a,
{
}

/// A mixture that is given means and variances has them.
pub proof fn means_and_variances_are_read_back<F: Fn(FloatOp) -> u64>(
    m: GmmView,
    centers: MatrixView,
    vars: MatrixView,
    g: int,
    d: int,
    x: real,
    v: real,
    f: F,
)
    requires
        is_exact(f),
        0 <= g < m.weights.len(),
        0 <= d < m.inv_vars.cols,
        means(centers.rows[g][d], x),
        means(vars.rows[g][d], v),
        v != 0 as real,
        is_single(1 as real / v),
        is_single(x * (1 as real / v)),
    ensures
        with_means_and_vars(m, centers, vars, f) matches Some(r) ==> r.weights == m.weights
            && real_of(mean_at(r, g, d, f)) == x && real_of(var_at(r, g, d, f)) == v,
{
    let (a, b) = (centers.rows[g][d], vars.rows[g][d]);
    constants_are_exact();
    quotient_is_exact(f, ONE, 1 as real, b, v);
    let i = value(f, FloatOp::Div(ONE, b));
    let iv = 1 as real / v;
    product_is_exact(f, a, x, i, iv);
    let mi = value(f, FloatOp::Mul(a, i));
    quotient_undoes(1 as real, v);
    times_nothing(v);
    assert(iv != 0 as real);
    quotient_undoes(x * iv, iv);
    factors_cancel(x * iv / iv, x, iv);
    quotient_undoes(1 as real, iv);
    factors_swap(v, iv);
    factors_cancel(1 as real / iv, v, iv);
    finite_is_single(a);
    finite_is_single(b);
    quotient_is_exact(f, mi, x * iv, i, iv);
    quotient_is_exact(f, ONE, 1 as real, i, iv);
}

} // verus!
