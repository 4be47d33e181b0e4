//! What the steps from samples to features mean as numbers, where nothing is rounded.

use vstd::prelude::*;

use crate::exact::{
    constants_are_exact, difference_is_exact, is_double, is_exact, is_single, is_wide_exact, means,
    order_is_exact, product_is_exact, quotient_is_exact, quotient_undoes, real_of, sum_is_exact,
    wide_means, wide_negation_is_exact, wide_quotient_is_exact,
};
use crate::feat::mfcc::{centered, energy_upto, power_of};
use crate::feat::transform::{dot, mean_offset, normalised, spliced, transformed, CmvnView};
use crate::feat::window::{energy_of, triangle_weight, BinView, Triangle};
use crate::float::{value, wide_negated, wide_value, FloatOp};
use crate::gmm::matrix::MatrixView;
use crate::gmm::mixing::sum_upto;

verus! {

/// The first `n` numbers stand behind the patterns.
pub open spec fn stand_for(bits: Seq<u32>, xs: Seq<real>, n: int) -> bool {
    forall|k: int| 0 <= k < n ==> means(#[trigger] bits[k], xs[k])
}

/// The first `n` numbers together.
pub open spec fn total_upto(xs: Seq<real>, n: int) -> real
    decreases n,
{
    if n <= 0 {
        0 as real
    } else {
        total_upto(xs, n - 1) + xs[n - 1]
    }
}

/// The products of the first `n` numbers of two rows together.
pub open spec fn products_upto(a: Seq<real>, x: Seq<real>, n: int) -> real
    decreases n,
{
    if n <= 0 {
        0 as real
    } else {
        products_upto(a, x, n - 1) + a[n - 1] * x[n - 1]
    }
}

/// No product and no sum of products on the way to the first `n` rounds.
pub open spec fn multiply_exactly(a: Seq<real>, x: Seq<real>, n: int) -> bool {
    forall|k: int|
        0 <= k < n ==> is_single(#[trigger] a[k] * x[k]) && is_single(products_upto(a, x, k + 1))
}

/// A product of rows is the sum of the products of their numbers.
pub proof fn dots_are_sums_of_products<F: Fn(FloatOp) -> u64>(
    a: Seq<u32>,
    x: Seq<u32>,
    ra: Seq<real>,
    rx: Seq<real>,
    n: int,
    f: F,
)
    requires
        is_exact(f),
        0 <= n,
        stand_for(a, ra, n),
        stand_for(x, rx, n),
        multiply_exactly(ra, rx, n),
    ensures
        means(dot(a, x, n, f), products_upto(ra, rx, n)),
    decreases n,
{
    constants_are_exact();
    if n > 0 {
        dots_are_sums_of_products(a, x, ra, rx, n - 1, f);
        let k = n - 1;
        assert(means(a[k], ra[k]) && means(x[k], rx[k]));
        assert(is_single(ra[k] * rx[k]));
        product_is_exact(f, a[k], ra[k], x[k], rx[k]);
        sum_is_exact(
            f,
            dot(a, x, k, f),
            products_upto(ra, rx, k),
            value(f, FloatOp::Mul(a[k], x[k])),
            ra[k] * rx[k],
        );
    }
}

/// A transform multiplies every frame with the rows of its matrix, and adds the last column of an
/// affine one.
pub proof fn transforms_are_affine<F: Fn(FloatOp) -> u64>(
    m: MatrixView,
    mat: MatrixView,
    t: int,
    o: int,
    row: Seq<real>,
    x: Seq<real>,
    f: F,
)
    requires
        is_exact(f),
        0 <= t < m.rows.len(),
        0 <= o < mat.rows.len(),
        0 <= m.cols,
        mat.cols == m.cols + 1,
        stand_for(mat.rows[o], row, m.cols + 1),
        stand_for(m.rows[t], x, m.cols),
        multiply_exactly(row, x, m.cols),
        is_single(products_upto(row, x, m.cols) + row[m.cols]),
    ensures
        means(
            transformed(m, mat, f).rows[t][o],
            products_upto(row, x, m.cols) + row[m.cols],
        ),
{
    dots_are_sums_of_products(mat.rows[o], m.rows[t], row, x, m.cols, f);
    assert(means(mat.rows[o][m.cols], row[m.cols]));
    sum_is_exact(
        f,
        dot(mat.rows[o], m.rows[t], m.cols, f),
        products_upto(row, x, m.cols),
        mat.rows[o][m.cols],
        row[m.cols],
    );
}

/// The energy of samples is the sum of their squares.
pub proof fn energy_is_the_sum_of_squares<F: Fn(FloatOp) -> u64>(
    xs: Seq<u32>,
    x: Seq<real>,
    n: int,
    f: F,
)
    requires
        is_exact(f),
        0 <= n,
        stand_for(xs, x, n),
        multiply_exactly(x, x, n),
    ensures
        means(energy_upto(xs, n, f), products_upto(x, x, n)),
    decreases n,
{
    constants_are_exact();
    if n > 0 {
        energy_is_the_sum_of_squares(xs, x, n - 1, f);
        let k = n - 1;
        assert(means(xs[k], x[k]));
        assert(is_single(x[k] * x[k]));
        product_is_exact(f, xs[k], x[k], xs[k], x[k]);
        sum_is_exact(
            f,
            energy_upto(xs, k, f),
            products_upto(x, x, k),
            value(f, FloatOp::Mul(xs[k], xs[k])),
            x[k] * x[k],
        );
    }
}

/// The power of a place in the spectrum is the sum of the squares of its two parts.
pub proof fn power_is_the_squared_size<F: Fn(FloatOp) -> u64>(
    re: Seq<u32>,
    im: Seq<u32>,
    k: int,
    x: real,
    y: real,
    f: F,
)
    requires
        is_exact(f),
        0 <= k < re.len(),
        means(re[k], x),
        means(im[k], y),
        is_single(x * x),
        is_single(y * y),
        is_single(x * x + y * y),
    ensures
        means(power_of(re, im, f)[k], x * x + y * y),
{
    product_is_exact(f, re[k], x, re[k], x);
    product_is_exact(f, im[k], y, im[k], y);
    sum_is_exact(
        f,
        value(f, FloatOp::Mul(re[k], re[k])),
        x * x,
        value(f, FloatOp::Mul(im[k], im[k])),
        y * y,
    );
}

/// The energy of a filter is the power of its places by their weights.
pub proof fn filters_weigh_the_power<F: Fn(FloatOp) -> u64>(
    b: BinView,
    power: Seq<u32>,
    w: Seq<real>,
    p: Seq<real>,
    n: int,
    f: F,
)
    requires
        is_exact(f),
        0 <= n,
        stand_for(b.weights, w, n),
        forall|k: int| 0 <= k < n ==> means(power[b.first + k], #[trigger] p[k]),
        multiply_exactly(w, p, n),
    ensures
        means(energy_of(b, power, n, f), products_upto(w, p, n)),
    decreases n,
{
    constants_are_exact();
    if n > 0 {
        filters_weigh_the_power(b, power, w, p, n - 1, f);
        let k = n - 1;
        assert(means(b.weights[k], w[k]));
        assert(means(power[b.first + k], p[k]));
        assert(is_single(w[k] * p[k]));
        product_is_exact(f, b.weights[k], w[k], power[b.first + k], p[k]);
        sum_is_exact(
            f,
            energy_of(b, power, k, f),
            products_upto(w, p, k),
            value(f, FloatOp::Mul(b.weights[k], power[b.first + k])),
            w[k] * p[k],
        );
    }
}

/// The weight of a mel frequency rises in a line from nothing at the left corner of a triangle to one
/// at its center, and falls in a line from there to nothing at its right corner.
pub proof fn triangles_rise_and_fall<F: Fn(FloatOp) -> u64>(
    t: Triangle,
    mel: u32,
    l: real,
    c: real,
    r: real,
    x: real,
    f: F,
)
    requires
        is_exact(f),
        means(t.left, l),
        means(t.center, c),
        means(t.right, r),
        means(mel, x),
        l < c < r,
        is_single(x - l),
        is_single(c - l),
        is_single(r - x),
        is_single(r - c),
        is_single((x - l) / (c - l)),
        is_single((r - x) / (r - c)),
    ensures
        x <= c ==> real_of(triangle_weight(t, mel, f)) * (c - l) == x - l,
        x > c ==> real_of(triangle_weight(t, mel, f)) * (r - c) == r - x,
{
    order_is_exact(t.center, mel);
    order_is_exact(mel, t.center);
    difference_is_exact(f, mel, x, t.left, l);
    difference_is_exact(f, t.center, c, t.left, l);
    difference_is_exact(f, t.right, r, mel, x);
    difference_is_exact(f, t.right, r, t.center, c);
    quotient_is_exact(
        f,
        value(f, FloatOp::Sub(mel, t.left)),
        x - l,
        value(f, FloatOp::Sub(t.center, t.left)),
        c - l,
    );
    quotient_is_exact(
        f,
        value(f, FloatOp::Sub(t.right, mel)),
        r - x,
        value(f, FloatOp::Sub(t.right, t.center)),
        r - c,
    );
    quotient_undoes(x - l, c - l);
    quotient_undoes(r - x, r - c);
}

proof fn sums_are_totals<F: Fn(FloatOp) -> u64>(xs: Seq<u32>, x: Seq<real>, n: int, f: F)
    requires
        is_exact(f),
        0 <= n,
        stand_for(xs, x, n),
        forall|k: int| 0 <= k < n ==> is_single(#[trigger] total_upto(x, k + 1)),
    ensures
        means(sum_upto(xs, n, f), total_upto(x, n)),
    decreases n,
{
    constants_are_exact();
    if n > 0 {
        sums_are_totals(xs, x, n - 1, f);
        assert(means(xs[n - 1], x[n - 1]));
        assert(is_single(total_upto(x, (n - 1) + 1)));
        sum_is_exact(f, sum_upto(xs, n - 1, f), total_upto(x, n - 1), xs[n - 1], x[n - 1]);
    }
}

/// Every sample of a frame loses the same: as many times as there are samples it is their sum, so
/// that nothing is left of them together.
pub proof fn frames_are_centered<F: Fn(FloatOp) -> u64>(
    xs: Seq<u32>,
    x: Seq<real>,
    n: real,
    s: int,
    f: F,
)
    requires
        is_exact(f),
        0 <= s < xs.len() <= u64::MAX,
        n == xs.len() as int as real,
        n != 0 as real,
        is_single(n),
        stand_for(xs, x, xs.len() as int),
        forall|k: int| 0 <= k < xs.len() ==> is_single(#[trigger] total_upto(x, k + 1)),
        is_single(total_upto(x, xs.len() as int) / n),
        is_single(x[s] - total_upto(x, xs.len() as int) / n),
    ensures
        (x[s] - real_of(centered(xs, f)[s])) * n == total_upto(x, xs.len() as int),
{
    let total = total_upto(x, xs.len() as int);
    sums_are_totals(xs, x, xs.len() as int, f);
    let count = value(f, FloatOp::Count(xs.len() as u64));
    assert(means(count, n));
    quotient_is_exact(f, sum_upto(xs, xs.len() as int, f), total, count, n);
    let mean = value(f, FloatOp::Div(sum_upto(xs, xs.len() as int, f), count));
    assert(means(xs[s], x[s]));
    difference_is_exact(f, xs[s], x[s], mean, total / n);
    quotient_undoes(total, n);
}

/// Normalising takes the mean of the statistics out of every value: as many times as there are frames
/// it is their sum.
pub proof fn normalising_takes_the_mean_out<F: Fn(FloatOp) -> u64>(
    m: MatrixView,
    st: CmvnView,
    t: int,
    d: int,
    x: real,
    sum: real,
    n: real,
    f: F,
)
    requires
        is_exact(f),
        is_wide_exact(f),
        0 <= t < m.rows.len(),
        0 <= d < m.cols,
        means(m.rows[t][d], x),
        wide_means(st.sum[d], sum),
        wide_means(st.count, n),
        n != 0 as real,
        is_double(-sum / n),
        is_single(-sum / n),
        is_single(x + -sum / n),
    ensures
        (x - real_of(normalised(m, st, false, f).rows[t][d])) * n == sum,
{
    wide_negation_is_exact(st.sum[d]);
    let minus = wide_negated(st.sum[d]);
    wide_quotient_is_exact(f, minus, -sum, st.count, n);
    let q = wide_value(f, FloatOp::DivWide(minus, st.count));
    assert(means(value(f, FloatOp::Narrow(q)), -sum / n));
    assert(means(mean_offset(st, d, f), -sum / n));
    sum_is_exact(f, m.rows[t][d], x, mean_offset(st, d, f), -sum / n);
    quotient_undoes(-sum, n);
    negated_factor(-sum / n, n);
}

proof fn negated_factor(a: real, b: real)
    by (nonlinear_arith)
    ensures
        -a * b == -(a * b),
{
}

/// A spliced frame holds the frames around it in the order of time, each as it was; beyond the ends
/// the first and the last frame repeat.
pub proof fn splicing_keeps_the_order(
    m: MatrixView,
    left: int,
    right: int,
    t: int,
    b: int,
    d: int,
)
    requires
        0 <= left,
        0 <= right,
        0 <= t < m.rows.len(),
        0 <= b <= left + right,
        0 <= d < m.cols,
    ensures
        ({
            let at = t + b - left;
            let n = m.rows.len() as int;
            spliced(m, left, right).rows[t][b * m.cols + d] == m.rows[if at < 0 {
                0
            } else if at >= n {
                n - 1
            } else {
                at
            }][d]
        }),
{
    let c = b * m.cols + d;
    vstd::arithmetic::div_mod::lemma_fundamental_div_mod_converse(c, m.cols, b, d);
    assert(0 <= c < m.cols * (1 + left + right)) by (nonlinear_arith)
        requires
            0 <= b <= left + right,
            0 <= d < m.cols,
            c == b * m.cols + d,
    ;
}

} // verus!
