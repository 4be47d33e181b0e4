//! Merging components of a mixture.

use vstd::prelude::*;

use crate::float::{
    abs, eval, eval_wide, is_evaluator, less, lt, magnitude, value, wide_value, FloatOp, ONE,
    WIDE_ZERO, ZERO,
};
use crate::gmm::diag::{
    assemble, assembled, gives, means_of, retained, vars_of, with_constants, DiagGmm, GmmView, HALF,
};
use crate::gmm::matrix::{tabulated, Matrix, MatrixView};
use crate::gmm::mixing::{sum_of, sum_upto};
use crate::table::{grid, grid_of, list_of, rows_of};

verus! {

/// The least finite single-precision value.
pub const LOWEST: u32 = 0xff7f_ffff;

/// Single-precision 1e-6.
pub const MILLIONTH: u32 = 0x3586_37bd;

/// Half the logarithms of the first `d` inverse variances together.
pub open spec fn logdet_upto<F: Fn(FloatOp) -> u64>(inv_vars: Seq<u32>, d: int, f: F) -> u64
    decreases d,
{
    if d <= 0 {
        WIDE_ZERO
    } else {
        let log = wide_value(f, FloatOp::LnWide(wide_value(f, FloatOp::Widen(inv_vars[d - 1]))));
        wide_value(
            f,
            FloatOp::AddWide(
                logdet_upto(inv_vars, d - 1, f),
                wide_value(f, FloatOp::MulWide(HALF, log)),
            ),
        )
    }
}

/// Half the log-determinant of a component's inverse covariance.
pub open spec fn logdet_of<F: Fn(FloatOp) -> u64>(inv_vars: Seq<u32>, f: F) -> u32 {
    value(f, FloatOp::Narrow(logdet_upto(inv_vars, inv_vars.len() as int, f)))
}

/// The statistic of two components together, given those of each: their average by weight.
pub open spec fn pooled<F: Fn(FloatOp) -> u64>(w1: u32, w2: u32, a: u32, b: u32, f: F) -> u32 {
    let sum = value(f, FloatOp::Add(w1, w2));
    let scaled = value(f, FloatOp::Mul(value(f, FloatOp::Div(w2, w1)), b));
    value(
        f,
        FloatOp::Mul(value(f, FloatOp::Add(a, scaled)), value(f, FloatOp::Div(w1, sum))),
    )
}

/// The variance that a mean and a mean square belong to.
pub open spec fn centered<F: Fn(FloatOp) -> u64>(second: u32, mean: u32, f: F) -> u32 {
    value(f, FloatOp::Sub(second, value(f, FloatOp::Mul(mean, mean))))
}

/// Minus half the logarithms of the first `d` variances of two components together.
pub open spec fn merged_logdet_upto<F: Fn(FloatOp) -> u64>(
    w1: u32,
    w2: u32,
    f1: Seq<u32>,
    f2: Seq<u32>,
    s1: Seq<u32>,
    s2: Seq<u32>,
    d: int,
    f: F,
) -> u64
    decreases d,
{
    if d <= 0 {
        WIDE_ZERO
    } else {
        let mean = pooled(w1, w2, f1[d - 1], f2[d - 1], f);
        let var = centered(pooled(w1, w2, s1[d - 1], s2[d - 1], f), mean, f);
        let log = wide_value(f, FloatOp::LnWide(wide_value(f, FloatOp::Widen(var))));
        wide_value(
            f,
            FloatOp::SubWide(
                merged_logdet_upto(w1, w2, f1, f2, s1, s2, d - 1, f),
                wide_value(f, FloatOp::MulWide(HALF, log)),
            ),
        )
    }
}

/// A mixture on the way to fewer components.
#[verifier::ext_equal]
pub struct Merging {
    pub weights: Seq<u32>,
    pub means_invvars: Seq<Seq<u32>>,
    pub inv_vars: Seq<Seq<u32>>,
    /// The means of the components.
    pub means: Seq<Seq<u32>>,
    /// Their mean squares.
    pub seconds: Seq<Seq<u32>>,
    pub logdet: Seq<u32>,
    /// In row `i` and column `j < i`, what merging the two components changes the likelihood by.
    pub delta: Seq<Seq<u32>>,
    /// The components that were merged into others.
    pub gone: Seq<bool>,
}

impl Merging {
    /// The lists have one item per component, and the rows `dim` or that many.
    pub open spec fn wf(self, dim: int) -> bool {
        let n = self.weights.len();
        &&& self.means_invvars.len() == n
        &&& self.inv_vars.len() == n
        &&& self.means.len() == n
        &&& self.seconds.len() == n
        &&& self.logdet.len() == n
        &&& self.delta.len() == n
        &&& self.gone.len() == n
        &&& forall|i: int| 0 <= i < n ==> (#[trigger] self.means_invvars[i]).len() == dim
        &&& forall|i: int| 0 <= i < n ==> (#[trigger] self.inv_vars[i]).len() == dim
        &&& forall|i: int| 0 <= i < n ==> (#[trigger] self.means[i]).len() == dim
        &&& forall|i: int| 0 <= i < n ==> (#[trigger] self.seconds[i]).len() == dim
        &&& forall|i: int| 0 <= i < n ==> (#[trigger] self.delta[i]).len() == n
    }

    /// What merging components `i` and `j` changes the likelihood by.
    pub open spec fn gain<F: Fn(FloatOp) -> u64>(self, i: int, j: int, f: F) -> u32 {
        let w1 = self.weights[i];
        let w2 = self.weights[j];
        let merged = value(
            f,
            FloatOp::Narrow(
                merged_logdet_upto(
                    w1,
                    w2,
                    self.means[i],
                    self.means[j],
                    self.seconds[i],
                    self.seconds[j],
                    self.means[i].len() as int,
                    f,
                ),
            ),
        );
        let together = value(f, FloatOp::Mul(value(f, FloatOp::Add(w1, w2)), merged));
        let first = value(f, FloatOp::Mul(w1, self.logdet[i]));
        let second = value(f, FloatOp::Mul(w2, self.logdet[j]));
        value(f, FloatOp::Sub(value(f, FloatOp::Sub(together, first)), second))
    }
}

/// The best pair so far: what merging it changes the likelihood by, and the pair.
#[verifier::ext_equal]
pub struct Found {
    pub delta: u32,
    pub pair: Option<(int, int)>,
}

/// The best pair after the first `j` partners of component `i`.
pub open spec fn best_in_row(s: Merging, i: int, j: int, best: Found) -> Found
    decreases j,
{
    if j <= 0 {
        best
    } else {
        let b = best_in_row(s, i, j - 1, best);
        if !s.gone[j - 1] && less(b.delta, s.delta[i][j - 1]) {
            Found { delta: s.delta[i][j - 1], pair: Some((i, j - 1)) }
        } else {
            b
        }
    }
}

/// The best pair among the first `i` components: the first that changes the likelihood least.
pub open spec fn best_pair(s: Merging, i: int) -> Found
    decreases i,
{
    if i <= 0 {
        Found { delta: LOWEST, pair: None }
    } else {
        let b = best_pair(s, i - 1);
        if s.gone[i - 1] {
            b
        } else {
            best_in_row(s, i - 1, i - 1, b)
        }
    }
}

/// The means (or mean squares) of two components together.
pub open spec fn pooled_row<F: Fn(FloatOp) -> u64>(
    w1: u32,
    w2: u32,
    a: Seq<u32>,
    b: Seq<u32>,
    f: F,
) -> Seq<u32> {
    Seq::new(a.len(), |d: int| pooled(w1, w2, a[d], b[d], f))
}

/// The inverse variances that means and mean squares belong to.
pub open spec fn inverse_row<F: Fn(FloatOp) -> u64>(seconds: Seq<u32>, means: Seq<u32>, f: F) -> Seq<
    u32,
> {
    Seq::new(
        means.len(),
        |d: int| value(f, FloatOp::Div(ONE, centered(seconds[d], means[d], f))),
    )
}

/// The products of two rows.
pub open spec fn product_row<F: Fn(FloatOp) -> u64>(a: Seq<u32>, b: Seq<u32>, f: F) -> Seq<u32> {
    Seq::new(a.len(), |d: int| value(f, FloatOp::Mul(a[d], b[d])))
}

/// Component `j` merged into component `i`.
pub open spec fn absorbed<F: Fn(FloatOp) -> u64>(s: Merging, i: int, j: int, f: F) -> Merging {
    let w1 = s.weights[i];
    let w2 = s.weights[j];
    let means = pooled_row(w1, w2, s.means[i], s.means[j], f);
    let seconds = pooled_row(w1, w2, s.seconds[i], s.seconds[j], f);
    let inv_vars = inverse_row(seconds, means, f);
    Merging {
        weights: s.weights.update(i, value(f, FloatOp::Add(w1, w2))),
        means_invvars: s.means_invvars.update(i, product_row(means, inv_vars, f)),
        inv_vars: s.inv_vars.update(i, inv_vars),
        means: s.means.update(i, means),
        seconds: s.seconds.update(i, seconds),
        logdet: s.logdet.update(i, logdet_of(inv_vars, f)),
        delta: s.delta,
        gone: s.gone.update(j, true),
    }
}

/// What the pair `a > b` changes the likelihood by after component `i` changed.
pub open spec fn refreshed_at<F: Fn(FloatOp) -> u64>(s: Merging, i: int, a: int, b: int, f: F) -> u32 {
    if a == i && b < i && !s.gone[b] {
        s.gain(i, b, f)
    } else if b == i && a > i && !s.gone[a] {
        s.gain(i, a, f)
    } else {
        s.delta[a][b]
    }
}

/// The likelihood changes brought up to date after component `i` changed.
pub open spec fn refreshed<F: Fn(FloatOp) -> u64>(s: Merging, i: int, f: F) -> Merging {
    let n = s.weights.len() as int;
    Merging { delta: grid(n, n, |a: int, b: int| refreshed_at(s, i, a, b, f)), ..s }
}

/// The mixture after `count` more mergers, if there is a pair to merge for each.
pub open spec fn merged_by<F: Fn(FloatOp) -> u64>(s: Merging, count: int, f: F) -> Option<Merging>
    decreases count,
{
    if count <= 0 {
        Some(s)
    } else {
        match best_pair(s, s.weights.len() as int).pair {
            Some(p) => merged_by(refreshed(absorbed(s, p.0, p.1, f), p.0, f), count - 1, f),
            None => None,
        }
    }
}

/// The mean square of a component in a dimension.
pub open spec fn second_at<F: Fn(FloatOp) -> u64>(m: GmmView, g: int, d: int, f: F) -> u32 {
    let mean = means_of(m, f).rows[g][d];
    value(f, FloatOp::Add(vars_of(m, f).rows[g][d], value(f, FloatOp::Mul(mean, mean))))
}

/// The mean squares of the components.
pub open spec fn seconds_of<F: Fn(FloatOp) -> u64>(m: GmmView, f: F) -> Seq<Seq<u32>> {
    grid(m.weights.len() as int, m.inv_vars.cols, |g: int, d: int| second_at(m, g, d, f))
}

/// A mixture before anything is merged, the likelihood changes not computed yet.
pub open spec fn unmerged<F: Fn(FloatOp) -> u64>(m: GmmView, f: F) -> Merging {
    let n = m.weights.len() as int;
    Merging {
        weights: m.weights,
        means_invvars: m.means_invvars.rows,
        inv_vars: m.inv_vars.rows,
        means: means_of(m, f).rows,
        seconds: seconds_of(m, f),
        logdet: Seq::new(n as nat, |g: int| logdet_of(m.inv_vars.rows[g], f)),
        delta: grid(n, n, |a: int, b: int| ZERO),
        gone: Seq::new(n as nat, |g: int| false),
    }
}

/// A mixture before anything is merged.
pub open spec fn started<F: Fn(FloatOp) -> u64>(m: GmmView, f: F) -> Merging {
    let s = unmerged(m, f);
    let n = m.weights.len() as int;
    Merging {
        delta: grid(
            n,
            n,
            |a: int, b: int|
                if b < a {
                    s.gain(a, b, f)
                } else {
                    ZERO
                },
        ),
        ..s
    }
}

/// Which of the first `n` components are still there.
pub open spec fn remaining(gone: Seq<bool>, n: int) -> Seq<usize>
    decreases n,
{
    if n <= 0 {
        seq![]
    } else if gone[n - 1] {
        remaining(gone, n - 1)
    } else {
        remaining(gone, n - 1).push((n - 1) as usize)
    }
}

/// The mixture of the components that are still there.
pub open spec fn collected<F: Fn(FloatOp) -> u64>(m: GmmView, s: Merging, f: F) -> Option<GmmView> {
    with_constants(
        retained(
            GmmView {
                weights: s.weights,
                means_invvars: MatrixView { rows: s.means_invvars, ..m.means_invvars },
                inv_vars: MatrixView { rows: s.inv_vars, ..m.inv_vars },
                gconsts: m.gconsts,
            },
            remaining(s.gone, s.gone.len() as int),
            f,
        ),
        f,
    )
}

/// The average of the first `n` components' statistics in a dimension, by weight.
pub open spec fn average<F: Fn(FloatOp) -> u64>(
    weights: Seq<u32>,
    rows: Seq<Seq<u32>>,
    n: int,
    d: int,
    f: F,
) -> u32
    decreases n,
{
    if n <= 0 {
        ZERO
    } else {
        value(
            f,
            FloatOp::Add(
                average(weights, rows, n - 1, d, f),
                value(f, FloatOp::Mul(weights[n - 1], rows[n - 1][d])),
            ),
        )
    }
}

/// The weights do not add up to one.
pub open spec fn is_off<F: Fn(FloatOp) -> u64>(sum: u32, f: F) -> bool {
    let size = if less(ONE, magnitude(sum)) {
        magnitude(sum)
    } else {
        ONE
    };
    less(
        value(f, FloatOp::Mul(MILLIONTH, size)),
        magnitude(value(f, FloatOp::Sub(sum, ONE))),
    )
}

/// A statistic of all components together; scaled where their weights do not add up to one.
pub open spec fn overall<F: Fn(FloatOp) -> u64>(m: GmmView, rows: Seq<Seq<u32>>, d: int, f: F) -> u32 {
    let n = m.weights.len() as int;
    let sum = sum_upto(m.weights, n, f);
    let v = average(m.weights, rows, n, d, f);
    if is_off(sum, f) {
        value(f, FloatOp::Mul(v, sum))
    } else {
        v
    }
}

/// The inverse of the variance of all components together.
pub open spec fn overall_inverse<F: Fn(FloatOp) -> u64>(m: GmmView, d: int, f: F) -> u32 {
    value(
        f,
        FloatOp::Div(
            ONE,
            centered(
                overall(m, seconds_of(m, f), d, f),
                overall(m, means_of(m, f).rows, d, f),
                f,
            ),
        ),
    )
}

/// One component with the mean and variance of all together.
pub open spec fn merged_to_one<F: Fn(FloatOp) -> u64>(m: GmmView, f: F) -> Option<GmmView> {
    let sum = sum_upto(m.weights, m.weights.len() as int, f);
    let dim = m.inv_vars.cols;
    assembled(
        seq![if is_off(sum, f) { ONE } else { sum }],
        tabulated(
            1,
            dim,
            |g: int, d: int|
                value(
                    f,
                    FloatOp::Mul(overall(m, means_of(m, f).rows, d, f), overall_inverse(m, d, f)),
                ),
        ),
        tabulated(1, dim, |g: int, d: int| overall_inverse(m, d, f)),
        f,
    )
}

/// The mixture merged down to `target` components.
pub open spec fn merged<F: Fn(FloatOp) -> u64>(m: GmmView, target: int, f: F) -> Option<GmmView> {
    if m.weights.len() == target {
        Some(m)
    } else if target == 1 {
        merged_to_one(m, f)
    } else {
        match merged_by(started(m, f), m.weights.len() - target, f) {
            Some(s) => collected(m, s, f),
            None => None,
        }
    }
}

/// A pair found consists of two different components that are still there.
proof fn row_pair_is_there(s: Merging, i: int, j: int, best: Found)
    requires
        0 <= j <= i < s.gone.len(),
        !s.gone[i],
        best.pair matches Some(p) ==> 0 <= p.1 < p.0 < s.gone.len() && !s.gone[p.0] && !s.gone[p.1],
    ensures
        best_in_row(s, i, j, best).pair matches Some(p) ==> 0 <= p.1 < p.0 < s.gone.len()
            && !s.gone[p.0] && !s.gone[p.1],
    decreases j,
{
    if j > 0 {
        row_pair_is_there(s, i, j - 1, best);
    }
}

/// The best pair consists of two different components that are still there.
pub proof fn best_pair_is_there(s: Merging, i: int)
    requires
        0 <= i <= s.gone.len(),
    ensures
        best_pair(s, i).pair matches Some(p) ==> 0 <= p.1 < p.0 < s.gone.len() && !s.gone[p.0]
            && !s.gone[p.1],
    decreases i,
{
    if i > 0 {
        best_pair_is_there(s, i - 1);
        if !s.gone[i - 1] {
            row_pair_is_there(s, i - 1, i - 1, best_pair(s, i - 1));
        }
    }
}

/// What remains are components.
proof fn remaining_are_components(gone: Seq<bool>, n: int)
    requires
        0 <= n <= gone.len(),
        gone.len() <= usize::MAX,
    ensures
        remaining(gone, n).len() <= n,
        forall|k: int| 0 <= k < remaining(gone, n).len() ==> #[trigger] remaining(gone, n)[k] < n,
    decreases n,
{
    if n > 0 {
        remaining_are_components(gone, n - 1);
    }
}

/// One component less remains when one goes.
proof fn one_less_remains(gone: Seq<bool>, j: int, n: int)
    requires
        0 <= j < gone.len(),
        0 <= n <= gone.len(),
        !gone[j],
    ensures
        remaining(gone.update(j, true), n).len() == remaining(gone, n).len() - (if j < n {
            1int
        } else {
            0
        }),
    decreases n,
{
    if n > 0 {
        one_less_remains(gone, j, n - 1);
    }
}

/// All components remain while none is gone.
proof fn all_remain(gone: Seq<bool>, n: int)
    requires
        0 <= n <= gone.len(),
        forall|i: int| 0 <= i < n ==> !#[trigger] gone[i],
    ensures
        remaining(gone, n).len() == n,
    decreases n,
{
    if n > 0 {
        all_remain(gone, n - 1);
    }
}

/// Every merger leaves one component less.
proof fn mergers_count<F: Fn(FloatOp) -> u64>(s: Merging, count: int, f: F)
    requires
        0 <= count,
        s.weights.len() == s.gone.len(),
    ensures
        merged_by(s, count, f) matches Some(t) ==> t.gone.len() == s.gone.len() && t.weights.len()
            == s.weights.len() && remaining(t.gone, t.gone.len() as int).len() == remaining(
            s.gone,
            s.gone.len() as int,
        ).len() - count,
    decreases count,
{
    if count > 0 {
        let n = s.weights.len() as int;
        best_pair_is_there(s, n);
        match best_pair(s, n).pair {
            Some(p) => {
                let next = refreshed(absorbed(s, p.0, p.1, f), p.0, f);
                one_less_remains(s.gone, p.1, n);
                mergers_count(next, count - 1, f);
            },
            None => {},
        }
    }
}

/// Merging down to a target leaves that many components.
pub proof fn merging_reaches_its_target<F: Fn(FloatOp) -> u64>(m: GmmView, target: int, f: F)
    requires
        0 < target <= m.weights.len(),
    ensures
        merged(m, target, f) matches Some(r) ==> r.weights.len() == target,
{
    let n = m.weights.len() as int;
    if target != n && target != 1 {
        let s = started(m, f);
        all_remain(s.gone, n);
        mergers_count(s, n - target, f);
    }
}

/// A mixture on the way to fewer components.
struct Merger {
    weights: Vec<u32>,
    means_invvars: Vec<Vec<u32>>,
    inv_vars: Vec<Vec<u32>>,
    means: Vec<Vec<u32>>,
    seconds: Vec<Vec<u32>>,
    logdet: Vec<u32>,
    delta: Vec<Vec<u32>>,
    gone: Vec<bool>,
}

impl View for Merger {
    type V = Merging;

    closed spec fn view(&self) -> Merging {
        Merging {
            weights: self.weights@,
            means_invvars: rows_of(self.means_invvars@),
            inv_vars: rows_of(self.inv_vars@),
            means: rows_of(self.means@),
            seconds: rows_of(self.seconds@),
            logdet: self.logdet@,
            delta: rows_of(self.delta@),
            gone: self.gone@,
        }
    }
}

fn logdet<F: Fn(FloatOp) -> u64>(inv_vars: &Vec<u32>, f: &F) -> (r: u32)
    requires
        is_evaluator(*f),
    ensures
        r == logdet_of(inv_vars@, *f),
{
    let mut acc: u64 = WIDE_ZERO;
    let mut d: usize = 0;
    while d < inv_vars.len()
        invariant
            is_evaluator(*f),
            d <= inv_vars@.len(),
            acc == logdet_upto(inv_vars@, d as int, *f),
        decreases inv_vars.len() - d,
    {
        let log: u64 = eval_wide(f, FloatOp::LnWide(eval_wide(f, FloatOp::Widen(inv_vars[d]))));
        acc = eval_wide(f, FloatOp::AddWide(acc, eval_wide(f, FloatOp::MulWide(HALF, log))));
        d += 1;
    }
    eval(f, FloatOp::Narrow(acc))
}

fn pool<F: Fn(FloatOp) -> u64>(w1: u32, w2: u32, a: u32, b: u32, f: &F) -> (r: u32)
    requires
        is_evaluator(*f),
    ensures
        r == pooled(w1, w2, a, b, *f),
{
    let sum: u32 = eval(f, FloatOp::Add(w1, w2));
    let scaled: u32 = eval(f, FloatOp::Mul(eval(f, FloatOp::Div(w2, w1)), b));
    let share: u32 = eval(f, FloatOp::Div(w1, sum));
    eval(f, FloatOp::Mul(eval(f, FloatOp::Add(a, scaled)), share))
}

fn center<F: Fn(FloatOp) -> u64>(second: u32, mean: u32, f: &F) -> (r: u32)
    requires
        is_evaluator(*f),
    ensures
        r == centered(second, mean, *f),
{
    eval(f, FloatOp::Sub(second, eval(f, FloatOp::Mul(mean, mean))))
}

/// Minus half the log-determinant of two components together.
fn merged_components_logdet<F: Fn(FloatOp) -> u64>(
    w1: u32,
    w2: u32,
    f1: &Vec<u32>,
    f2: &Vec<u32>,
    s1: &Vec<u32>,
    s2: &Vec<u32>,
    f: &F,
) -> (r: u32)
    requires
        is_evaluator(*f),
        f1@.len() == f2@.len(),
        f1@.len() == s1@.len(),
        f1@.len() == s2@.len(),
    ensures
        r == value(
            *f,
            FloatOp::Narrow(
                merged_logdet_upto(w1, w2, f1@, f2@, s1@, s2@, f1@.len() as int, *f),
            ),
        ),
{
    let mut acc: u64 = WIDE_ZERO;
    let mut d: usize = 0;
    while d < f1.len()
        invariant
            is_evaluator(*f),
            f1@.len() == f2@.len(),
            f1@.len() == s1@.len(),
            f1@.len() == s2@.len(),
            d <= f1@.len(),
            acc == merged_logdet_upto(w1, w2, f1@, f2@, s1@, s2@, d as int, *f),
        decreases f1.len() - d,
    {
        let mean: u32 = pool(w1, w2, f1[d], f2[d], f);
        let var: u32 = center(pool(w1, w2, s1[d], s2[d], f), mean, f);
        let log: u64 = eval_wide(f, FloatOp::LnWide(eval_wide(f, FloatOp::Widen(var))));
        acc = eval_wide(f, FloatOp::SubWide(acc, eval_wide(f, FloatOp::MulWide(HALF, log))));
        d += 1;
    }
    eval(f, FloatOp::Narrow(acc))
}

fn pool_rows<F: Fn(FloatOp) -> u64>(w1: u32, w2: u32, a: &Vec<u32>, b: &Vec<u32>, f: &F) -> (r: Vec<
    u32,
>)
    requires
        is_evaluator(*f),
        a@.len() == b@.len(),
    ensures
        r@ == pooled_row(w1, w2, a@, b@, *f),
{
    let fg: Ghost<F> = Ghost(*f);
    let item = |d: usize| -> (v: u32)
        requires
            d < a@.len(),
            d < b@.len(),
        ensures
            v == pooled(w1, w2, a@[d as int], b@[d as int], fg@),
        { pool(w1, w2, a[d], b[d], f) };
    list_of(a.len(), &item, Ghost(|d: int| pooled(w1, w2, a@[d], b@[d], *f)))
}

fn invert_row<F: Fn(FloatOp) -> u64>(seconds: &Vec<u32>, means: &Vec<u32>, f: &F) -> (r: Vec<u32>)
    requires
        is_evaluator(*f),
        seconds@.len() == means@.len(),
    ensures
        r@ == inverse_row(seconds@, means@, *f),
{
    let fg: Ghost<F> = Ghost(*f);
    let item = |d: usize| -> (v: u32)
        requires
            d < seconds@.len(),
            d < means@.len(),
        ensures
            v == value(fg@, FloatOp::Div(ONE, centered(seconds@[d as int], means@[d as int], fg@))),
        { eval(f, FloatOp::Div(ONE, center(seconds[d], means[d], f))) };
    list_of(
        means.len(),
        &item,
        Ghost(|d: int| value(*f, FloatOp::Div(ONE, centered(seconds@[d], means@[d], *f)))),
    )
}

fn multiply_rows<F: Fn(FloatOp) -> u64>(a: &Vec<u32>, b: &Vec<u32>, f: &F) -> (r: Vec<u32>)
    requires
        is_evaluator(*f),
        a@.len() == b@.len(),
    ensures
        r@ == product_row(a@, b@, *f),
{
    let fg: Ghost<F> = Ghost(*f);
    let item = |d: usize| -> (v: u32)
        requires
            d < a@.len(),
            d < b@.len(),
        ensures
            v == value(fg@, FloatOp::Mul(a@[d as int], b@[d as int])),
        { eval(f, FloatOp::Mul(a[d], b[d])) };
    list_of(a.len(), &item, Ghost(|d: int| value(*f, FloatOp::Mul(a@[d], b@[d]))))
}

impl Merger {
    fn find_gain<F: Fn(FloatOp) -> u64>(&self, i: usize, j: usize, Ghost(dim): Ghost<int>, f: &F)
        -> (r: u32)
        requires
            is_evaluator(*f),
            self@.wf(dim),
            i < self@.weights.len(),
            j < self@.weights.len(),
        ensures
            r == self@.gain(i as int, j as int, *f),
    {
        proof {
            assert(self@.means[i as int] == self.means@[i as int]@);
            assert(self@.means[j as int] == self.means@[j as int]@);
            assert(self@.seconds[i as int] == self.seconds@[i as int]@);
            assert(self@.seconds[j as int] == self.seconds@[j as int]@);
        }
        let w1: u32 = self.weights[i];
        let w2: u32 = self.weights[j];
        let merged: u32 = merged_components_logdet(
            w1,
            w2,
            &self.means[i],
            &self.means[j],
            &self.seconds[i],
            &self.seconds[j],
            f,
        );
        let together: u32 = eval(f, FloatOp::Mul(eval(f, FloatOp::Add(w1, w2)), merged));
        let first: u32 = eval(f, FloatOp::Mul(w1, self.logdet[i]));
        let second: u32 = eval(f, FloatOp::Mul(w2, self.logdet[j]));
        eval(f, FloatOp::Sub(eval(f, FloatOp::Sub(together, first)), second))
    }

    /// The pair whose merger changes the likelihood least.
    fn find_pair(&self, Ghost(dim): Ghost<int>) -> (r: Option<(usize, usize)>)
        requires
            self@.wf(dim),
        ensures
            match best_pair(self@, self@.weights.len() as int).pair {
                Some(p) => r matches Some(q) && q.0 == p.0 && q.1 == p.1 && q.1 < q.0
                    < self@.weights.len(),
                None => r is None,
            },
    {
        let ghost s = self@;
        let n: usize = self.weights.len();
        let mut delta: u32 = LOWEST;
        let mut pair: Option<(usize, usize)> = None;
        let mut i: usize = 0;
        while i < n
            invariant
                s == self@,
                s.wf(dim),
                n == s.weights.len(),
                i <= n,
                delta == best_pair(s, i as int).delta,
                match best_pair(s, i as int).pair {
                    Some(p) => pair matches Some(q) && q.0 == p.0 && q.1 == p.1 && q.1 < q.0 < n,
                    None => pair is None,
                },
            decreases n - i,
        {
            if !self.gone[i] {
                let ghost start = best_pair(s, i as int);
                assert(s.delta[i as int] == self.delta@[i as int]@);
                let mut j: usize = 0;
                while j < i
                    invariant
                        s == self@,
                        s.wf(dim),
                        n == s.weights.len(),
                        j <= i < n,
                        s.delta[i as int] == self.delta@[i as int]@,
                        delta == best_in_row(s, i as int, j as int, start).delta,
                        match best_in_row(s, i as int, j as int, start).pair {
                            Some(p) => pair matches Some(q) && q.0 == p.0 && q.1 == p.1 && q.1 < q.0
                                < n,
                            None => pair is None,
                        },
                    decreases i - j,
                {
                    if !self.gone[j] && lt(delta, self.delta[i][j]) {
                        delta = self.delta[i][j];
                        pair = Some((i, j));
                    }
                    j += 1;
                }
            }
            i += 1;
        }
        pair
    }

    /// Merge component `j` into component `i`.
    fn absorb<F: Fn(FloatOp) -> u64>(&mut self, i: usize, j: usize, Ghost(dim): Ghost<int>, f: &F)
        requires
            is_evaluator(*f),
            old(self)@.wf(dim),
            j < i < old(self)@.weights.len(),
        ensures
            final(self)@ == absorbed(old(self)@, i as int, j as int, *f),
            final(self)@.wf(dim),
    {
        let ghost s = self@;
        let ghost want = absorbed(s, i as int, j as int, *f);
        proof {
            assert(s.means[i as int] == self.means@[i as int]@);
            assert(s.means[j as int] == self.means@[j as int]@);
            assert(s.seconds[i as int] == self.seconds@[i as int]@);
            assert(s.seconds[j as int] == self.seconds@[j as int]@);
        }
        let w1: u32 = self.weights[i];
        let w2: u32 = self.weights[j];
        let means = pool_rows(w1, w2, &self.means[i], &self.means[j], f);
        let seconds = pool_rows(w1, w2, &self.seconds[i], &self.seconds[j], f);
        let inv_vars = invert_row(&seconds, &means, f);
        let means_invvars = multiply_rows(&means, &inv_vars, f);
        let det: u32 = logdet(&inv_vars, f);
        self.weights.set(i, eval(f, FloatOp::Add(w1, w2)));
        self.means_invvars.set(i, means_invvars);
        self.inv_vars.set(i, inv_vars);
        self.means.set(i, means);
        self.seconds.set(i, seconds);
        self.logdet.set(i, det);
        self.gone.set(j, true);
        proof {
            assert(self@.means_invvars =~= want.means_invvars);
            assert(self@.inv_vars =~= want.inv_vars);
            assert(self@.means =~= want.means);
            assert(self@.seconds =~= want.seconds);
            assert(self@ =~= want);
        }
    }

    /// Bring the likelihood changes up to date after component `i` changed.
    fn refresh<F: Fn(FloatOp) -> u64>(&mut self, i: usize, Ghost(dim): Ghost<int>, f: &F)
        requires
            is_evaluator(*f),
            old(self)@.wf(dim),
            i < old(self)@.weights.len(),
        ensures
            final(self)@ == refreshed(old(self)@, i as int, *f),
            final(self)@.wf(dim),
    {
        let ghost s = self@;
        let n: usize = self.weights.len();
        let delta = self.refreshed_table(i, Ghost(dim), f);
        self.delta = delta;
        proof {
            assert(self@ =~= refreshed(s, i as int, *f));
        }
    }

    fn refreshed_table<F: Fn(FloatOp) -> u64>(&self, i: usize, Ghost(dim): Ghost<int>, f: &F) -> (r:
        Vec<Vec<u32>>)
        requires
            is_evaluator(*f),
            self@.wf(dim),
            i < self@.weights.len(),
        ensures
            rows_of(r@) == refreshed(self@, i as int, *f).delta,
    {
        let n: usize = self.weights.len();
        let fg: Ghost<F> = Ghost(*f);
        let item = |a: usize, b: usize| -> (v: u32)
            requires
                a < self@.weights.len(),
                b < self@.weights.len(),
            ensures
                v == refreshed_at(self@, i as int, a as int, b as int, fg@),
            {
                assert(self@.delta[a as int] == self.delta@[a as int]@);
                if a == i && b < i && !self.gone[b] {
                    self.find_gain(i, b, Ghost(dim), f)
                } else if b == i && a > i && !self.gone[a] {
                    self.find_gain(i, a, Ghost(dim), f)
                } else {
                    self.delta[a][b]
                }
            };
        grid_of(
            n,
            n,
            &item,
            Ghost(|a: int, b: int| refreshed_at(self@, i as int, a, b, *f)),
        )
    }
}

/// The mean squares that means and variances belong to.
fn square_up<F: Fn(FloatOp) -> u64>(m: &DiagGmm, means: &Matrix, vars: &Matrix, f: &F) -> (r: Vec<
    Vec<u32>,
>)
    requires
        is_evaluator(*f),
        m@.wf(),
        means@ == means_of(m@, *f),
        vars@ == vars_of(m@, *f),
    ensures
        rows_of(r@) == seconds_of(m@, *f),
{
    let fg: Ghost<F> = Ghost(*f);
    let item = |g: usize, d: usize| -> (v: u32)
        requires
            g < m@.weights.len(),
            d < m@.inv_vars.cols,
        ensures
            v == second_at(m@, g as int, d as int, fg@),
        {
            let mean: u32 = means.at(g, d);
            eval(f, FloatOp::Add(vars.at(g, d), eval(f, FloatOp::Mul(mean, mean))))
        };
    grid_of(
        m.weights.len(),
        m.inv_vars.cols,
        &item,
        Ghost(|g: int, d: int| second_at(m@, g, d, *f)),
    )
}

/// A mixture before anything is merged.
fn start<F: Fn(FloatOp) -> u64>(m: &DiagGmm, f: &F) -> (r: Merger)
    requires
        is_evaluator(*f),
        m@.wf(),
    ensures
        r@ == started(m@, *f),
        r@.wf(m@.inv_vars.cols),
{
    let ghost dim = m@.inv_vars.cols;
    let n: usize = m.weights.len();
    let means = m.means(f);
    let vars = m.vars(f);
    let seconds = square_up(m, &means, &vars, f);
    let fg: Ghost<F> = Ghost(*f);
    let det_at = |g: usize| -> (v: u32)
        requires
            g < m@.weights.len(),
        ensures
            v == logdet_of(m@.inv_vars.rows[g as int], fg@),
        {
            assert(m@.inv_vars.rows[g as int] == m.inv_vars.rows@[g as int]@);
            logdet(&m.inv_vars.rows[g], f)
        };
    let logdet = list_of(n, &det_at, Ghost(|g: int| logdet_of(m@.inv_vars.rows[g], *f)));
    let zero_at = |a: usize, b: usize| -> (v: u32)
        ensures
            v == ZERO,
        { ZERO };
    let zeros = grid_of(n, n, &zero_at, Ghost(|a: int, b: int| ZERO));
    let gone_at = |g: usize| -> (v: bool)
        ensures
            !v,
        { false };
    let gone = list_of(n, &gone_at, Ghost(|g: int| false));
    let mi = m.means_invvars.clone();
    let iv = m.inv_vars.clone();
    let mut s = Merger {
        weights: m.weights.clone(),
        means_invvars: mi.rows,
        inv_vars: iv.rows,
        means: means.rows,
        seconds,
        logdet,
        delta: zeros,
        gone,
    };
    proof {
        assert(rows_of(mi.rows@) =~= m@.means_invvars.rows);
        assert(rows_of(iv.rows@) =~= m@.inv_vars.rows);
        assert(rows_of(means.rows@) =~= means_of(m@, *f).rows);
        assert(s@ =~= unmerged(m@, *f));
        assert(s@.wf(dim));
    }
    let delta = {
        let item = |a: usize, b: usize| -> (v: u32)
            requires
                a < s@.weights.len(),
                b < s@.weights.len(),
            ensures
                v == (if b < a {
                    s@.gain(a as int, b as int, fg@)
                } else {
                    ZERO
                }),
            {
                if b < a {
                    s.find_gain(a, b, Ghost(dim), f)
                } else {
                    ZERO
                }
            };
        grid_of(
            n,
            n,
            &item,
            Ghost(
                |a: int, b: int|
                    if b < a {
                        unmerged(m@, *f).gain(a, b, *f)
                    } else {
                        ZERO
                    },
            ),
        )
    };
    s.delta = delta;
    assert(s@ =~= started(m@, *f));
    s
}

/// Which components are still there.
fn list_remaining(gone: &Vec<bool>) -> (r: Vec<usize>)
    ensures
        r@ == remaining(gone@, gone@.len() as int),
{
    let mut out: Vec<usize> = Vec::new();
    let mut i: usize = 0;
    while i < gone.len()
        invariant
            i <= gone@.len(),
            out@ == remaining(gone@, i as int),
        decreases gone.len() - i,
    {
        if !gone[i] {
            out.push(i);
        }
        i += 1;
    }
    out
}

/// A statistic of all components together.
fn find_average<F: Fn(FloatOp) -> u64>(
    weights: &Vec<u32>,
    rows: &Vec<Vec<u32>>,
    d: usize,
    f: &F,
) -> (r: u32)
    requires
        is_evaluator(*f),
        rows@.len() == weights@.len(),
        forall|i: int| 0 <= i < rows@.len() ==> d < (#[trigger] rows@[i])@.len(),
    ensures
        r == average(weights@, rows_of(rows@), weights@.len() as int, d as int, *f),
{
    let mut acc: u32 = ZERO;
    let mut i: usize = 0;
    while i < weights.len()
        invariant
            is_evaluator(*f),
            rows@.len() == weights@.len(),
            forall|i: int| 0 <= i < rows@.len() ==> d < (#[trigger] rows@[i])@.len(),
            i <= weights@.len(),
            acc == average(weights@, rows_of(rows@), i as int, d as int, *f),
        decreases weights.len() - i,
    {
        assert(rows_of(rows@)[i as int] == rows@[i as int]@);
        acc = eval(f, FloatOp::Add(acc, eval(f, FloatOp::Mul(weights[i], rows[i][d]))));
        i += 1;
    }
    acc
}

fn find_overall<F: Fn(FloatOp) -> u64>(
    m: &DiagGmm,
    rows: &Vec<Vec<u32>>,
    sum: u32,
    off: bool,
    d: usize,
    f: &F,
) -> (r: u32)
    requires
        is_evaluator(*f),
        sum == sum_upto(m@.weights, m@.weights.len() as int, *f),
        off == is_off(sum, *f),
        rows@.len() == m@.weights.len(),
        forall|i: int| 0 <= i < rows@.len() ==> d < (#[trigger] rows@[i])@.len(),
    ensures
        r == overall(m@, rows_of(rows@), d as int, *f),
{
    let v: u32 = find_average(&m.weights, rows, d, f);
    if off {
        eval(f, FloatOp::Mul(v, sum))
    } else {
        v
    }
}

impl DiagGmm {
    /// One component with the mean and variance of all together, if its constant is a number.
    fn merge_to_one<F: Fn(FloatOp) -> u64>(&self, f: &F) -> (r: Option<Self>)
        requires
            is_evaluator(*f),
            self@.wf(),
        ensures
            gives(r, merged_to_one(self@, *f)),
    {
        let dim: usize = self.inv_vars.cols;
        let means = self.means(f);
        let vars = self.vars(f);
        let seconds = square_up(self, &means, &vars, f);
        proof {
            assert(rows_of(means.rows@) =~= means_of(self@, *f).rows);
            assert forall|i: int| 0 <= i < means.rows@.len() implies (#[trigger] means.rows@[i])@.len()
                == dim by {
                assert(rows_of(means.rows@)[i] == means.rows@[i]@);
            }
            assert(rows_of(seconds@).len() == self@.weights.len());
            assert(rows_of(means.rows@).len() == self@.weights.len());
            assert forall|i: int| 0 <= i < seconds@.len() implies (#[trigger] seconds@[i])@.len()
                == dim by {
                assert(rows_of(seconds@)[i] == seconds@[i]@);
                assert(seconds_of(self@, *f)[i].len() == dim);
            }
        }
        let sum: u32 = sum_of(self.weights.as_slice(), f);
        let size: u32 = if lt(ONE, abs(sum)) {
            abs(sum)
        } else {
            ONE
        };
        let off: bool = lt(
            eval(f, FloatOp::Mul(MILLIONTH, size)),
            abs(eval(f, FloatOp::Sub(sum, ONE))),
        );
        assert(off == is_off(sum, *f));
        let fg: Ghost<F> = Ghost(*f);
        let inverse_at = |g: usize, d: usize| -> (v: u32)
            requires
                d < dim,
            ensures
                v == overall_inverse(self@, d as int, fg@),
            {
                let second: u32 = find_overall(self, &seconds, sum, off, d, f);
                let mean: u32 = find_overall(self, &means.rows, sum, off, d, f);
                eval(f, FloatOp::Div(ONE, center(second, mean, f)))
            };
        let inv_vars = Matrix::tabulate(
            1,
            dim,
            &inverse_at,
            Ghost(|g: int, d: int| overall_inverse(self@, d, *f)),
        );
        let scaled_at = |g: usize, d: usize| -> (v: u32)
            requires
                d < dim,
            ensures
                v == value(
                    fg@,
                    FloatOp::Mul(
                        overall(self@, means_of(self@, fg@).rows, d as int, fg@),
                        overall_inverse(self@, d as int, fg@),
                    ),
                ),
            {
                let mean: u32 = find_overall(self, &means.rows, sum, off, d, f);
                let inverse: u32 = inv_vars.at(0, d);
                eval(f, FloatOp::Mul(mean, inverse))
            };
        let means_invvars = Matrix::tabulate(
            1,
            dim,
            &scaled_at,
            Ghost(
                |g: int, d: int|
                    value(
                        *f,
                        FloatOp::Mul(
                            overall(self@, means_of(self@, *f).rows, d, *f),
                            overall_inverse(self@, d, *f),
                        ),
                    ),
            ),
        );
        let mut weights: Vec<u32> = Vec::new();
        weights.push(
            if off {
                ONE
            } else {
                sum
            },
        );
        assert(weights@ =~= seq![if is_off(sum, *f) { ONE } else { sum }]);
        assemble(weights, means_invvars, inv_vars, f)
    }

    /// The mixture merged down to `target` components. None if at some point there is no pair to
    /// merge, or a constant is not a number.
    pub fn try_merge<F: Fn(FloatOp) -> u64>(&self, target: usize, f: &F) -> (r: Option<Self>)
        requires
            is_evaluator(*f),
            self@.wf(),
            0 < target <= self@.weights.len(),
        ensures
            gives(r, merged(self@, target as int, *f)),
    {
        let n: usize = self.weights.len();
        if n == target {
            return Some(self.clone());
        }
        if target == 1 {
            return self.merge_to_one(f);
        }
        let ghost dim = self@.inv_vars.cols;
        let ghost want = merged_by(started(self@, *f), n - target, *f);
        let mut s = start(self, f);
        let mut left: usize = n - target;
        proof {
            all_remain(s@.gone, n as int);
            mergers_count(s@, n - target, *f);
        }
        while left > 0
            invariant
                is_evaluator(*f),
                s@.wf(dim),
                s@.weights.len() == n,
                n == self@.weights.len(),
                target < n,
                want == merged_by(s@, left as int, *f),
                want == merged_by(started(self@, *f), n - target, *f),
                merged(self@, target as int, *f) == (match want {
                    Some(s) => collected(self@, s, *f),
                    None => None,
                }),
            decreases left,
        {
            match s.find_pair(Ghost(dim)) {
                Some((i, j)) => {
                    s.absorb(i, j, Ghost(dim), f);
                    s.refresh(i, Ghost(dim), f);
                },
                None => {
                    return None;
                },
            }
            left -= 1;
        }
        let keep = list_remaining(&s.gone);
        let mut out = DiagGmm {
            weights: s.weights,
            means_invvars: Matrix { cols: self.means_invvars.cols, rows: s.means_invvars },
            inv_vars: Matrix { cols: self.inv_vars.cols, rows: s.inv_vars },
            gconsts: self.gconsts.clone(),
        };
        proof {
            remaining_are_components(s.gone@, n as int);
            assert(out@.means_invvars.rows =~= s@.means_invvars);
            assert(out@.inv_vars.rows =~= s@.inv_vars);
        }
        out.retain_components(keep.as_slice(), f);
        match out.try_compute_gconsts(f) {
            Some(bad) => Some(out),
            None => None,
        }
    }

    /// Merge components until there are `target`: always the pair whose merger costs the least
    /// likelihood. A target of one gives the mean and variance of all together.
    pub fn merge<F: Fn(FloatOp) -> u64>(&mut self, target: usize, f: &F)
        requires
            is_evaluator(*f),
            old(self)@.wf(),
            0 < target <= old(self)@.weights.len(),
            merged(old(self)@, target as int, *f) is Some,
        ensures
            final(self)@ == merged(old(self)@, target as int, *f)->0,
            final(self)@.wf(),
    {
        let out = self.try_merge(target, f).unwrap();
        *self = out;
    }
}

} // verus!
