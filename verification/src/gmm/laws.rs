//! What mixtures mean as numbers, where nothing is rounded.

use vstd::prelude::*;

use crate::exact::{halves_are_exact, is_exact, is_single, means, order_is_exact, real_of};
use crate::float::{is_finite_bits, value, FloatOp};
use crate::gmm::diag::{
    heaviest, heaviest_is_one, split_mixture, split_once, split_upto, GmmView,
};

verus! {

/// Moving a component apart in one dimension rounds nothing; `deviation` is the root of its inverse
/// variance there.
pub open spec fn moves_by(
    mean_invvar: u32,
    inv_var: u32,
    factor: u32,
    noise: u32,
    deviation: real,
) -> bool {
    let step = real_of(factor) * (real_of(noise) * deviation);
    &&& is_finite_bits(mean_invvar)
    &&& is_finite_bits(inv_var)
    &&& is_finite_bits(factor)
    &&& is_finite_bits(noise)
    &&& deviation >= 0 as real
    &&& deviation * deviation == real_of(inv_var)
    &&& is_single(deviation)
    &&& is_single(real_of(noise) * deviation)
    &&& is_single(step)
    &&& is_single(real_of(mean_invvar) + step)
    &&& is_single(real_of(mean_invvar) - step)
}

/// Moving a component apart in one dimension rounds nothing.
pub open spec fn moves_exactly(mean_invvar: u32, inv_var: u32, factor: u32, noise: u32) -> bool {
    exists|deviation: real| #[trigger] moves_by(mean_invvar, inv_var, factor, noise, deviation)
}

/// No component weighs more than component `b`.
pub open spec fn weighs_most(m: GmmView, b: int) -> bool {
    &&& 0 <= b < m.weights.len()
    &&& forall|g: int|
        0 <= g < m.weights.len() ==> real_of(#[trigger] m.weights[g]) <= real_of(m.weights[b])
}

/// Splitting a component of the greatest weight rounds nothing.
pub open spec fn splits_exactly(m: GmmView, factor: u32, noise: Seq<u32>) -> bool {
    &&& m.wf()
    &&& m.weights.len() > 0
    &&& forall|g: int| 0 <= g < m.weights.len() ==> is_finite_bits(#[trigger] m.weights[g])
    &&& forall|g: int|
        0 <= g < m.weights.len() ==> is_single(real_of(#[trigger] m.weights[g]) / 2 as real)
    &&& forall|b: int, d: int|
        weighs_most(m, b) && 0 <= d < m.inv_vars.cols ==> moves_exactly(
            #[trigger] m.means_invvars.rows[b][d],
            m.inv_vars.rows[b][d],
            factor,
            noise[d],
        )
}

/// Component `b` of `m` has become components `b` and the last one of `s`: with half of its weight
/// and its variances each, and on opposite sides of its mean, twice as far from each other as the
/// factor times the noise times the deviation. The other components stay.
pub open spec fn are_halves(m: GmmView, s: GmmView, b: int, factor: u32, noise: Seq<u32>) -> bool {
    let last = m.weights.len() as int;
    &&& s.wf()
    &&& s.weights.len() == last + 1
    &&& s.inv_vars.cols == m.inv_vars.cols
    &&& real_of(s.weights[b]) == real_of(s.weights[last])
    &&& real_of(s.weights[b]) + real_of(s.weights[last]) == real_of(m.weights[b])
    &&& s.inv_vars.rows[b] == m.inv_vars.rows[b]
    &&& s.inv_vars.rows[last] == m.inv_vars.rows[b]
    &&& forall|d: int|
        0 <= d < m.inv_vars.cols ==> real_of(#[trigger] s.means_invvars.rows[b][d]) + real_of(
            s.means_invvars.rows[last][d],
        ) == 2 as real * real_of(m.means_invvars.rows[b][d])
    &&& forall|d: int|
        0 <= d < m.inv_vars.cols ==> are_apart(
            #[trigger] s.means_invvars.rows[b][d],
            s.means_invvars.rows[last][d],
            m.inv_vars.rows[b][d],
            factor,
            noise[d],
        )
    &&& forall|g: int|
        0 <= g < last && g != b ==> s.weights[g] == #[trigger] m.weights[g]
            && s.means_invvars.rows[g] == m.means_invvars.rows[g] && s.inv_vars.rows[g]
            == m.inv_vars.rows[g]
}

/// The root of a number.
pub open spec fn is_root(x: real, square: u32) -> bool {
    x >= 0 as real && x * x == real_of(square)
}

/// The second number is larger than the first by twice the factor times the noise times the root of
/// the inverse variance.
pub open spec fn are_apart(down: u32, up: u32, inv_var: u32, factor: u32, noise: u32) -> bool {
    exists|deviation: real| #[trigger]
        is_root(deviation, inv_var) && real_of(up) - real_of(down) == 2 as real * (real_of(factor)
            * (real_of(noise) * deviation))
}

proof fn one_split<F: Fn(FloatOp) -> u64>(m: GmmView, factor: u32, noise: Seq<u32>, f: F) -> (b: int)
    requires
        is_exact(f),
        splits_exactly(m, factor, noise),
    ensures
        weighs_most(m, b),
        are_halves(m, split_once(m, factor, noise, f), b, factor, noise),
{
    let n = m.weights.len() as int;
    let b = heaviest(m.weights, n);
    let s = split_once(m, factor, noise, f);
    heaviest_is_one(m.weights, n);
    assert(is_finite_bits(m.weights[0]));
    assert forall|g: int| 0 <= g < n implies real_of(#[trigger] m.weights[g]) <= real_of(
        m.weights[b],
    ) by {
        assert(is_finite_bits(m.weights[g]) && is_finite_bits(m.weights[b]));
        order_is_exact(m.weights[b], m.weights[g]);
    }
    halves_are_exact();
    assert(is_finite_bits(m.weights[b]));
    let w = real_of(m.weights[b]);
    assert(is_single(w / 2 as real));
    assert(w / 2 as real + w / 2 as real == w);
    assert(m.means_invvars.rows[b].len() == m.inv_vars.cols);
    assert forall|d: int| 0 <= d < m.inv_vars.cols implies {
        let (x, y, z) = (
            real_of(#[trigger] s.means_invvars.rows[b][d]),
            real_of(s.means_invvars.rows[n][d]),
            real_of(m.means_invvars.rows[b][d]),
        );
        x + y == 2 as real * z && are_apart(
            s.means_invvars.rows[b][d],
            s.means_invvars.rows[n][d],
            m.inv_vars.rows[b][d],
            factor,
            noise[d],
        )
    } by {
        let (mi, iv) = (m.means_invvars.rows[b][d], m.inv_vars.rows[b][d]);
        assert(weighs_most(m, b));
        assert(moves_exactly(mi, iv, factor, noise[d]));
        let r = choose|deviation: real| #[trigger] moves_by(mi, iv, factor, noise[d], deviation);
        assert(moves_by(mi, iv, factor, noise[d], r));
        assert(is_root(r, iv));
        let root = value(f, FloatOp::Sqrt(iv));
        assert(is_single(r));
        assert(means(root, r));
        let part = value(f, FloatOp::Mul(noise[d], root));
        assert(means(part, real_of(noise[d]) * r));
        let step = value(f, FloatOp::Mul(factor, part));
        assert(means(step, real_of(factor) * (real_of(noise[d]) * r)));
        assert(s.means_invvars.rows[n][d] == value(f, FloatOp::Add(mi, step)));
        assert(s.means_invvars.rows[b][d] == value(f, FloatOp::Sub(mi, step)));
    }
    assert(s.wf());
    b
}

/// A mixture that gets one more component has it from one that none weighs more than: that one
/// becomes two halves on opposite sides of its mean, and the others stay.
pub proof fn halves_move_apart<F: Fn(FloatOp) -> u64>(
    m: GmmView,
    factor: u32,
    noise: Seq<u32>,
    f: F,
) -> (b: int)
    requires
        is_exact(f),
        splits_exactly(m, factor, noise),
        noise.len() >= m.inv_vars.cols,
    ensures
        weighs_most(m, b),
        split_mixture(m, m.weights.len() as int + 1, factor, noise, f) matches Some(s) ==> are_halves(
            m,
            s,
            b,
            factor,
            noise,
        ),
{
    let head = noise.take(m.inv_vars.cols);
    assert(splits_exactly(m, factor, head)) by {
        assert forall|b: int, d: int|
            weighs_most(m, b) && 0 <= d < m.inv_vars.cols implies moves_exactly(
            #[trigger] m.means_invvars.rows[b][d],
            m.inv_vars.rows[b][d],
            factor,
            head[d],
        ) by {
            assert(head[d] == noise[d]);
        }
    }
    let b = one_split(m, factor, head, f);
    let s = split_once(m, factor, head, f);
    assert(split_upto(s, m.weights.len() as int + 1, factor, noise.skip(m.inv_vars.cols), f) == s);
    assert(are_halves(m, s, b, factor, noise)) by {
        assert forall|d: int| 0 <= d < m.inv_vars.cols implies are_apart(
            #[trigger] s.means_invvars.rows[b][d],
            s.means_invvars.rows[m.weights.len() as int][d],
            m.inv_vars.rows[b][d],
            factor,
            noise[d],
        ) by {
            assert(head[d] == noise[d]);
        }
    }
    b
}

/// The weights of the first `n` components together.
pub open spec fn weight_upto(m: GmmView, n: int) -> real
    decreases n,
{
    if n <= 0 {
        0 as real
    } else {
        weight_upto(m, n - 1) + real_of(m.weights[n - 1])
    }
}

/// The means over the variances of the first `n` components in one dimension, by weight.
pub open spec fn mean_upto(m: GmmView, d: int, n: int) -> real
    decreases n,
{
    if n <= 0 {
        0 as real
    } else {
        mean_upto(m, d, n - 1) + real_of(m.weights[n - 1]) * real_of(
            m.means_invvars.rows[n - 1][d],
        )
    }
}

/// Splitting to `target` components rounds nothing on the way.
pub open spec fn all_split_exactly<F: Fn(FloatOp) -> u64>(
    m: GmmView,
    target: int,
    factor: u32,
    noise: Seq<u32>,
    f: F,
) -> bool
    decreases target - m.weights.len(),
{
    if m.weights.len() >= target {
        true
    } else {
        let s = split_once(m, factor, noise.take(m.inv_vars.cols), f);
        if s.weights.len() == m.weights.len() + 1 {
            splits_exactly(m, factor, noise.take(m.inv_vars.cols)) && all_split_exactly(
                s,
                target,
                factor,
                noise.skip(m.inv_vars.cols),
                f,
            )
        } else {
            false
        }
    }
}

proof fn totals_change_at_one(m: GmmView, s: GmmView, d: int, b: int, n: int)
    requires
        0 <= n <= m.weights.len(),
        m.weights.len() < s.weights.len(),
        0 <= b,
        forall|g: int|
            0 <= g < m.weights.len() && g != b ==> s.weights[g] == #[trigger] m.weights[g]
                && s.means_invvars.rows[g] == m.means_invvars.rows[g],
    ensures
        weight_upto(s, n) - weight_upto(m, n) == if b < n {
            real_of(s.weights[b]) - real_of(m.weights[b])
        } else {
            0 as real
        },
        mean_upto(s, d, n) - mean_upto(m, d, n) == if b < n {
            real_of(s.weights[b]) * real_of(s.means_invvars.rows[b][d]) - real_of(m.weights[b])
                * real_of(m.means_invvars.rows[b][d])
        } else {
            0 as real
        },
    decreases n,
{
    if n > 0 {
        totals_change_at_one(m, s, d, b, n - 1);
        if n - 1 != b {
            assert(s.weights[n - 1] == m.weights[n - 1]);
        }
    }
}

proof fn halves_keep_totals(m: GmmView, s: GmmView, b: int, factor: u32, noise: Seq<u32>, d: int)
    requires
        m.wf(),
        are_halves(m, s, b, factor, noise),
        0 <= b < m.weights.len(),
        0 <= d < m.inv_vars.cols,
    ensures
        weight_upto(s, s.weights.len() as int) == weight_upto(m, m.weights.len() as int),
        mean_upto(s, d, s.weights.len() as int) == mean_upto(m, d, m.weights.len() as int),
{
    let n = m.weights.len() as int;
    totals_change_at_one(m, s, d, b, n);
    let (h, w) = (real_of(s.weights[b]), real_of(m.weights[b]));
    let (x, y, z) = (
        real_of(s.means_invvars.rows[b][d]),
        real_of(s.means_invvars.rows[n][d]),
        real_of(m.means_invvars.rows[b][d]),
    );
    assert(x + y == 2 as real * z);
    assert(h * x - w * z + h * y == 0 as real) by (nonlinear_arith)
        requires
            x + y == 2 as real * z,
            h + h == w,
    ;
}

/// Splitting moves nothing as a whole: the weights add up to what they did, and so do the means over
/// the variances by weight, in every dimension.
pub proof fn splitting_keeps_totals<F: Fn(FloatOp) -> u64>(
    m: GmmView,
    target: int,
    factor: u32,
    noise: Seq<u32>,
    f: F,
    d: int,
)
    requires
        is_exact(f),
        m.wf(),
        m.weights.len() > 0,
        0 <= d < m.inv_vars.cols,
        all_split_exactly(m, target, factor, noise, f),
    ensures
        split_mixture(m, target, factor, noise, f) matches Some(s) ==> weight_upto(
            s,
            s.weights.len() as int,
        ) == weight_upto(m, m.weights.len() as int) && mean_upto(s, d, s.weights.len() as int)
            == mean_upto(m, d, m.weights.len() as int),
{
    splits_keep_totals(m, target, factor, noise, f, d);
    let u = split_upto(m, target, factor, noise, f);
    if let Some(s) = split_mixture(m, target, factor, noise, f) {
        constants_do_not_count(u, s, d, u.weights.len() as int);
    }
}

proof fn constants_do_not_count(u: GmmView, s: GmmView, d: int, n: int)
    requires
        s.weights == u.weights,
        s.means_invvars == u.means_invvars,
    ensures
        weight_upto(s, n) == weight_upto(u, n),
        mean_upto(s, d, n) == mean_upto(u, d, n),
    decreases n,
{
    if n > 0 {
        constants_do_not_count(u, s, d, n - 1);
    }
}

proof fn splits_keep_totals<F: Fn(FloatOp) -> u64>(
    m: GmmView,
    target: int,
    factor: u32,
    noise: Seq<u32>,
    f: F,
    d: int,
)
    requires
        is_exact(f),
        m.wf(),
        m.weights.len() > 0,
        0 <= d < m.inv_vars.cols,
        all_split_exactly(m, target, factor, noise, f),
    ensures
        ({
            let s = split_upto(m, target, factor, noise, f);
            &&& weight_upto(s, s.weights.len() as int) == weight_upto(m, m.weights.len() as int)
            &&& mean_upto(s, d, s.weights.len() as int) == mean_upto(m, d, m.weights.len() as int)
        }),
    decreases target - m.weights.len(),
{
    if m.weights.len() < target {
        let head = noise.take(m.inv_vars.cols);
        let b = one_split(m, factor, head, f);
        let s = split_once(m, factor, head, f);
        halves_keep_totals(m, s, b, factor, head, d);
        splits_keep_totals(s, target, factor, noise.skip(m.inv_vars.cols), f, d);
    }
}

} // verus!
