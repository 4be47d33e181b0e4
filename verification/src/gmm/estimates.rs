//! What the statistics of mixtures and the estimates from them mean as numbers, where nothing is
//! rounded.

use vstd::prelude::*;

use crate::exact::{
    constants_are_exact, is_double, is_exact, is_single, is_wide_exact, means, product_is_exact,
    quotient_is_exact, quotient_undoes, real_of, sum_is_exact, wide_difference_is_exact,
    wide_means, wide_order_is_exact, wide_product_is_exact, wide_quotient_is_exact, wide_real_of,
    wide_sum_is_exact,
};
use crate::float::{
    is_finite_bits, is_wide_finite_bits, value, wide_same, wide_value, FloatOp, WIDE_ZERO,
};
use crate::gmm::accum::{plus_square, plus_value};
use crate::gmm::diag::means_of;
use crate::gmm::flags::holds;
use crate::gmm::merge::pooled;
use crate::gmm::mle::Update;

verus! {

proof fn nothing_times(p: real, v: real)
    by (nonlinear_arith)
    requires
        p == 0 as real,
    ensures
        p * v == 0 as real,
{
}

proof fn wide_same_is_exact(a: u64, b: u64)
    requires
        is_wide_finite_bits(a),
        is_wide_finite_bits(b),
        wide_same(a, b),
    ensures
        wide_real_of(a) == wide_real_of(b),
{
    wide_order_is_exact(a, b);
    wide_order_is_exact(b, a);
}

/// A weighted value adds the weight times the value to a sum.
pub proof fn values_are_added_by_weight<F: Fn(FloatOp) -> u64>(
    sum: u64,
    s: real,
    weight: u64,
    p: real,
    x: u32,
    v: real,
    f: F,
)
    requires
        is_wide_exact(f),
        wide_means(sum, s),
        wide_means(weight, p),
        means(x, v),
        is_double(p * v),
        is_double(s + p * v),
    ensures
        wide_means(plus_value(sum, weight, x, f), s + p * v),
{
    constants_are_exact();
    if wide_same(weight, WIDE_ZERO) {
        wide_same_is_exact(weight, WIDE_ZERO);
        nothing_times(p, v);
    } else {
        let w = wide_value(f, FloatOp::Widen(x));
        wide_product_is_exact(f, weight, p, w, v);
        wide_sum_is_exact(f, sum, s, wide_value(f, FloatOp::MulWide(weight, w)), p * v);
    }
}

/// A weighted value adds the weight times its square to a sum of squares.
pub proof fn squares_are_added_by_weight<F: Fn(FloatOp) -> u64>(
    sum: u64,
    s: real,
    weight: u64,
    p: real,
    x: u32,
    v: real,
    f: F,
)
    requires
        is_wide_exact(f),
        wide_means(sum, s),
        wide_means(weight, p),
        means(x, v),
        is_double(p * v),
        is_double(p * v * v),
        is_double(s + p * v * v),
    ensures
        wide_means(plus_square(sum, weight, x, f), s + p * v * v),
{
    constants_are_exact();
    if wide_same(weight, WIDE_ZERO) {
        wide_same_is_exact(weight, WIDE_ZERO);
        nothing_times(p, v);
        nothing_times(p * v, v);
    } else {
        let w = wide_value(f, FloatOp::Widen(x));
        wide_product_is_exact(f, weight, p, w, v);
        let first = wide_value(f, FloatOp::MulWide(weight, w));
        wide_product_is_exact(f, first, p * v, w, v);
        wide_sum_is_exact(f, sum, s, wide_value(f, FloatOp::MulWide(first, w)), p * v * v);
    }
}

/// The new mean of a component with enough data is the average of its frames: times the occupancy it
/// is their sum.
pub proof fn means_are_averages<F: Fn(FloatOp) -> u64>(
    u: Update,
    i: int,
    d: int,
    o: real,
    x: real,
    f: F,
)
    requires
        is_exact(f),
        is_wide_exact(f),
        u.is_fed(i, f),
        holds(u.a.flags, 1),
        wide_means(u.a.occupancy[i], o),
        wide_means(u.a.means[i][d], x),
        o != 0 as real,
        is_double(x / o),
        is_single(x / o),
    ensures
        is_finite_bits(u.mean(i, d, f)),
        real_of(u.mean(i, d, f)) * o == x,
{
    wide_quotient_is_exact(f, u.a.means[i][d], x, u.a.occupancy[i], o);
    let q = wide_value(f, FloatOp::DivWide(u.a.means[i][d], u.a.occupancy[i]));
    assert(means(value(f, FloatOp::Narrow(q)), x / o));
    quotient_undoes(x, o);
}

/// The new weight of a component with enough data is its share of all frames: times their number it
/// is the occupancy.
pub proof fn weights_are_shares<F: Fn(FloatOp) -> u64>(u: Update, i: int, o: real, n: real, f: F)
    requires
        is_exact(f),
        is_wide_exact(f),
        u.is_fed(i, f),
        wide_means(u.a.occupancy[i], o),
        wide_means(u.frames(f), n),
        n > 0 as real,
        is_double(o / n),
        is_single(o / n),
    ensures
        real_of(u.weight(i, f)) * n == o,
{
    constants_are_exact();
    wide_order_is_exact(WIDE_ZERO, u.frames(f));
    wide_quotient_is_exact(f, u.a.occupancy[i], o, u.frames(f), n);
    assert(means(value(f, FloatOp::Narrow(u.share(i, f))), o / n));
    quotient_undoes(o, n);
}

proof fn times_equal(x: real, a: real, b: real)
    requires
        a == b,
    ensures
        x * a == x * b,
{
}

proof fn spread_around(second: real, mean: real, c: real, o: real)
    by (nonlinear_arith)
    ensures
        (second - mean * mean + (c - mean) * (c - mean)) * o == second * o - 2 as real * c * (mean
            * o) + c * c * o,
{
}

proof fn spread_around_mean(second: real, mean: real, o: real)
    by (nonlinear_arith)
    ensures
        (second - mean * mean) * o == second * o - 2 as real * mean * (mean * o) + mean * mean * o,
{
}

/// The new variance of a component is the average square of what its frames are off the center: the
/// new mean, or the old one if the means are not written. Times the occupancy it is the sum of these
/// squares.
pub proof fn variances_are_average_squares<F: Fn(FloatOp) -> u64>(
    u: Update,
    i: int,
    d: int,
    o: real,
    x: real,
    y: real,
    old: real,
    f: F,
)
    requires
        is_exact(f),
        is_wide_exact(f),
        u.is_fed(i, f),
        holds(u.a.flags, 1),
        wide_means(u.a.occupancy[i], o),
        wide_means(u.a.means[i][d], x),
        wide_means(u.a.vars[i][d], y),
        means(means_of(u.m, f).rows[i][d], old),
        o != 0 as real,
        is_double(x / o),
        is_single(x / o),
        is_double(y / o),
        is_double(x / o * (x / o)),
        is_double(y / o - x / o * (x / o)),
        is_double(old - x / o),
        is_double((old - x / o) * (old - x / o)),
        is_double(y / o - x / o * (x / o) + (old - x / o) * (old - x / o)),
    ensures
        holds(u.flags, 1) ==> wide_real_of(u.raw_var(i, d, f)) * o == y - 2 as real * (x / o) * x
            + x / o * (x / o) * o,
        !holds(u.flags, 1) ==> wide_real_of(u.raw_var(i, d, f)) * o == y - 2 as real * old * x
            + old * old * o,
{
    let (mean, second) = (x / o, y / o);
    wide_quotient_is_exact(f, u.a.means[i][d], x, u.a.occupancy[i], o);
    let q = wide_value(f, FloatOp::DivWide(u.a.means[i][d], u.a.occupancy[i]));
    assert(means(value(f, FloatOp::Narrow(q)), mean));
    let wm = wide_value(f, FloatOp::Widen(u.mean(i, d, f)));
    assert(wide_means(wm, mean));
    wide_quotient_is_exact(f, u.a.vars[i][d], y, u.a.occupancy[i], o);
    let ws = wide_value(f, FloatOp::DivWide(u.a.vars[i][d], u.a.occupancy[i]));
    wide_product_is_exact(f, wm, mean, wm, mean);
    let square = wide_value(f, FloatOp::MulWide(wm, wm));
    wide_difference_is_exact(f, ws, second, square, mean * mean);
    let var = wide_value(f, FloatOp::SubWide(ws, square));
    let wo = wide_value(f, FloatOp::Widen(means_of(u.m, f).rows[i][d]));
    wide_difference_is_exact(f, wo, old, wm, mean);
    let diff = wide_value(f, FloatOp::SubWide(wo, wm));
    wide_product_is_exact(f, diff, old - mean, diff, old - mean);
    let off = wide_value(f, FloatOp::MulWide(diff, diff));
    wide_sum_is_exact(f, var, second - mean * mean, off, (old - mean) * (old - mean));
    quotient_undoes(x, o);
    quotient_undoes(y, o);
    spread_around(second, mean, old, o);
    spread_around_mean(second, mean, o);
    times_equal(2 as real * old, mean * o, x);
    times_equal(2 as real * mean, mean * o, x);
}

/// A variance that is raised lies below the floor, and becomes the floor.
pub proof fn floors_raise_variances<F: Fn(FloatOp) -> u64>(
    u: Update,
    i: int,
    d: int,
    raw: real,
    floor: real,
    f: F,
)
    requires
        is_exact(f),
        u.is_fed(i, f),
        holds(u.a.flags, 2),
        wide_means(u.raw_var(i, d, f), raw),
        wide_means(u.floor(d), floor),
        is_single(raw),
        is_single(floor),
    ensures
        real_of(u.var(i, d, f)) == if raw < floor {
            floor
        } else {
            raw
        },
{
    wide_order_is_exact(u.raw_var(i, d, f), u.floor(d));
}

proof fn regroup(x: real, s: real, t: real)
    by (nonlinear_arith)
    ensures
        x * s * t == x * (s * t),
{
}

proof fn distribute(a: real, r: real, b: real, w: real)
    by (nonlinear_arith)
    ensures
        (a + r * b) * w == w * a + b * (r * w),
{
}

/// The mean, or the mean square, of two components together is their average by weight: times the
/// sum of the weights it is the sum of each by its own weight.
pub proof fn merging_averages_by_weight<F: Fn(FloatOp) -> u64>(
    w1: u32,
    w2: u32,
    a: u32,
    b: u32,
    v1: real,
    v2: real,
    x: real,
    y: real,
    f: F,
)
    requires
        is_exact(f),
        means(w1, v1),
        means(w2, v2),
        means(a, x),
        means(b, y),
        v1 != 0 as real,
        v1 + v2 != 0 as real,
        is_single(v1 + v2),
        is_single(v2 / v1),
        is_single(v2 / v1 * y),
        is_single(x + v2 / v1 * y),
        is_single(v1 / (v1 + v2)),
        is_single((x + v2 / v1 * y) * (v1 / (v1 + v2))),
    ensures
        real_of(pooled(w1, w2, a, b, f)) * (v1 + v2) == v1 * x + y * v2,
{
    let (r, s) = (v2 / v1, v1 / (v1 + v2));
    sum_is_exact(f, w1, v1, w2, v2);
    quotient_is_exact(f, w2, v2, w1, v1);
    let ratio = value(f, FloatOp::Div(w2, w1));
    product_is_exact(f, ratio, r, b, y);
    let scaled = value(f, FloatOp::Mul(ratio, b));
    sum_is_exact(f, a, x, scaled, r * y);
    let both = value(f, FloatOp::Add(a, scaled));
    quotient_is_exact(f, w1, v1, value(f, FloatOp::Add(w1, w2)), v1 + v2);
    product_is_exact(
        f,
        both,
        x + r * y,
        value(f, FloatOp::Div(w1, value(f, FloatOp::Add(w1, w2)))),
        s,
    );
    quotient_undoes(v2, v1);
    quotient_undoes(v1, v1 + v2);
    regroup(x + r * y, s, v1 + v2);
    times_equal(x + r * y, s * (v1 + v2), v1);
    distribute(x, r, y, v1);
    times_equal(y, r * v1, v2);
}

} // verus!
