//! Maximum-likelihood re-estimation of mixtures.

use vstd::prelude::*;

use crate::float::{
    eval, eval_wide, is_evaluator, is_wide_nan_bits, value, wide_eq, wide_less, wide_lt, wide_value,
    FloatOp, WIDE_ONE, WIDE_ZERO,
};
use crate::gmm::accum::{smoothed_with, AccumAmDiagGmm, AccumAmView, AccumDiagGmm, AccumView};
use crate::gmm::am::AmDiagGmm;
use crate::gmm::diag::{
    means_of, retained, vars_of, with_constants, with_means_and_vars, DiagGmm, GmmView, HALF,
};
use crate::gmm::flags::{holds, GmmFlags};
use crate::gmm::matrix::{tabulated, Matrix};
use crate::hmm::transition::wide_sum;
use crate::table::list_of;

verus! {

/// When a component has too little data, and how small a variance may become. The numbers are
/// double-precision bits.
#[derive(Debug)]
pub struct MleDiagGmmOptions {
    pub min_gaussian_weight: u64,
    pub min_gaussian_occupancy: u64,
    pub min_variance: u64,
    /// Whether components with too little data are removed.
    pub remove_low_count_gaussians: bool,
    /// A least variance for every dimension, in place of the common one; empty for none.
    pub variance_floor_vector: Vec<u64>,
}

impl Default for MleDiagGmmOptions {
    fn default() -> (r: Self)
        ensures
            r.min_gaussian_weight == 0x3ee4_f8b5_88e3_68f1,
            r.min_gaussian_occupancy == 0x4024_0000_0000_0000,
            r.min_variance == 0x3f50_624d_d2f1_a9fc,
            r.remove_low_count_gaussians,
            r.variance_floor_vector@.len() == 0,
    {
        MleDiagGmmOptions {
            min_gaussian_weight: 0x3ee4_f8b5_88e3_68f1,
            min_gaussian_occupancy: 0x4024_0000_0000_0000,
            min_variance: 0x3f50_624d_d2f1_a9fc,
            remove_low_count_gaussians: true,
            variance_floor_vector: Vec::new(),
        }
    }
}

/// What an update did: the change of the objective and the frames, in double-precision bits, and how
/// many variances, components with such, and removed components there were.
#[derive(Clone, Copy, Debug, PartialEq, Eq, Structural)]
pub struct UpdateStats {
    pub objf_change: u64,
    pub count: u64,
    pub floored_elements: usize,
    pub floored_gaussians: usize,
    pub removed_gaussians: usize,
}

/// What the constants of the first `n` components add to the objective.
pub open spec fn constant_part<F: Fn(FloatOp) -> u64>(
    occupancy: Seq<u64>,
    gconsts: Seq<u32>,
    n: int,
    f: F,
) -> u64
    decreases n,
{
    if n <= 0 {
        WIDE_ZERO
    } else {
        let c = wide_value(f, FloatOp::Widen(gconsts[n - 1]));
        wide_value(
            f,
            FloatOp::AddWide(
                constant_part(occupancy, gconsts, n - 1, f),
                wide_value(f, FloatOp::MulWide(occupancy[n - 1], c)),
            ),
        )
    }
}

/// `start` and the products of the first `d` items of two rows.
pub open spec fn row_part<F: Fn(FloatOp) -> u64>(
    start: u64,
    stats: Seq<u64>,
    params: Seq<u32>,
    d: int,
    f: F,
) -> u64
    decreases d,
{
    if d <= 0 {
        start
    } else {
        let p = wide_value(f, FloatOp::Widen(params[d - 1]));
        wide_value(
            f,
            FloatOp::AddWide(
                row_part(start, stats, params, d - 1, f),
                wide_value(f, FloatOp::MulWide(stats[d - 1], p)),
            ),
        )
    }
}

/// `start` and the products of the first `n` rows of two tables.
pub open spec fn linear_part<F: Fn(FloatOp) -> u64>(
    start: u64,
    stats: Seq<Seq<u64>>,
    params: Seq<Seq<u32>>,
    n: int,
    dim: int,
    f: F,
) -> u64
    decreases n,
{
    if n <= 0 {
        start
    } else {
        row_part(
            linear_part(start, stats, params, n - 1, dim, f),
            stats[n - 1],
            params[n - 1],
            dim,
            f,
        )
    }
}

/// `start` without half the products of the first `d` items of two rows.
pub open spec fn square_row_part<F: Fn(FloatOp) -> u64>(
    start: u64,
    stats: Seq<u64>,
    params: Seq<u32>,
    d: int,
    f: F,
) -> u64
    decreases d,
{
    if d <= 0 {
        start
    } else {
        let p = wide_value(f, FloatOp::Widen(params[d - 1]));
        let half = wide_value(f, FloatOp::MulWide(HALF, stats[d - 1]));
        wide_value(
            f,
            FloatOp::SubWide(
                square_row_part(start, stats, params, d - 1, f),
                wide_value(f, FloatOp::MulWide(half, p)),
            ),
        )
    }
}

/// `start` without half the products of the first `n` rows of two tables.
pub open spec fn square_part<F: Fn(FloatOp) -> u64>(
    start: u64,
    stats: Seq<Seq<u64>>,
    params: Seq<Seq<u32>>,
    n: int,
    dim: int,
    f: F,
) -> u64
    decreases n,
{
    if n <= 0 {
        start
    } else {
        square_row_part(
            square_part(start, stats, params, n - 1, dim, f),
            stats[n - 1],
            params[n - 1],
            dim,
            f,
        )
    }
}

/// The log-likelihood of the frames behind the statistics under a mixture, each frame weighted by
/// the posteriors that it was accumulated with.
pub open spec fn objective<F: Fn(FloatOp) -> u64>(m: GmmView, a: AccumView, f: F) -> u64 {
    let n = m.weights.len() as int;
    let dim = m.inv_vars.cols;
    let constants = constant_part(a.occupancy, m.gconsts, n, f);
    let linear = if holds(a.flags, 1) {
        linear_part(constants, a.means, m.means_invvars.rows, n, dim, f)
    } else {
        constants
    };
    if holds(a.flags, 2) {
        square_part(linear, a.vars, m.inv_vars.rows, n, dim, f)
    } else {
        linear
    }
}

fn find_objective<F: Fn(FloatOp) -> u64>(m: &DiagGmm, a: &AccumDiagGmm, f: &F) -> (r: u64)
    requires
        is_evaluator(*f),
        m@.wf(),
        m@.gconsts.len() == m@.weights.len(),
        a@.wf(m@.inv_vars.cols),
        a@.occupancy.len() == m@.weights.len(),
    ensures
        r == objective(m@, a@, *f),
{
    let n: usize = m.weights.len();
    let dim: usize = m.inv_vars.cols;
    let mut obj: u64 = WIDE_ZERO;
    let mut g: usize = 0;
    while g < n
        invariant
            is_evaluator(*f),
            m@.gconsts.len() == n,
            a@.occupancy.len() == n,
            g <= n,
            obj == constant_part(a@.occupancy, m@.gconsts, g as int, *f),
        decreases n - g,
    {
        let c: u64 = eval_wide(f, FloatOp::Widen(m.gconsts[g]));
        obj = eval_wide(
            f,
            FloatOp::AddWide(obj, eval_wide(f, FloatOp::MulWide(a.occupancy[g], c))),
        );
        g += 1;
    }
    if a.flags.contains(GmmFlags::means()) {
        let ghost start = obj;
        let mut g: usize = 0;
        while g < n
            invariant
                is_evaluator(*f),
                m@.wf(),
                a@.wf(dim as int),
                holds(a@.flags, 1),
                dim == m@.inv_vars.cols,
                n == m@.weights.len(),
                n == a@.occupancy.len(),
                g <= n,
                obj == linear_part(
                    start,
                    a@.means,
                    m@.means_invvars.rows,
                    g as int,
                    dim as int,
                    *f,
                ),
            decreases n - g,
        {
            let ghost before = obj;
            assert(a@.means[g as int] == a.mean_accum@[g as int]@);
            assert(m@.means_invvars.rows[g as int] == m.means_invvars.rows@[g as int]@);
            let stats = &a.mean_accum[g];
            let params = &m.means_invvars.rows[g];
            let mut d: usize = 0;
            while d < dim
                invariant
                    is_evaluator(*f),
                    stats@.len() == dim,
                    params@.len() == dim,
                    d <= dim,
                    obj == row_part(before, stats@, params@, d as int, *f),
                decreases dim - d,
            {
                let p: u64 = eval_wide(f, FloatOp::Widen(params[d]));
                obj = eval_wide(
                    f,
                    FloatOp::AddWide(obj, eval_wide(f, FloatOp::MulWide(stats[d], p))),
                );
                d += 1;
            }
            g += 1;
        }
    }
    if a.flags.contains(GmmFlags::variances()) {
        let ghost start = obj;
        let mut g: usize = 0;
        while g < n
            invariant
                is_evaluator(*f),
                m@.wf(),
                a@.wf(dim as int),
                holds(a@.flags, 2),
                dim == m@.inv_vars.cols,
                n == m@.weights.len(),
                n == a@.occupancy.len(),
                g <= n,
                obj == square_part(start, a@.vars, m@.inv_vars.rows, g as int, dim as int, *f),
            decreases n - g,
        {
            let ghost before = obj;
            assert(a@.vars[g as int] == a.var_accum@[g as int]@);
            assert(m@.inv_vars.rows[g as int] == m.inv_vars.rows@[g as int]@);
            let stats = &a.var_accum[g];
            let params = &m.inv_vars.rows[g];
            let mut d: usize = 0;
            while d < dim
                invariant
                    is_evaluator(*f),
                    stats@.len() == dim,
                    params@.len() == dim,
                    d <= dim,
                    obj == square_row_part(before, stats@, params@, d as int, *f),
                decreases dim - d,
            {
                let p: u64 = eval_wide(f, FloatOp::Widen(params[d]));
                let half: u64 = eval_wide(f, FloatOp::MulWide(HALF, stats[d]));
                obj = eval_wide(
                    f,
                    FloatOp::SubWide(obj, eval_wide(f, FloatOp::MulWide(half, p))),
                );
                d += 1;
            }
            g += 1;
        }
    }
    obj
}

/// An update to be made: the mixture, its statistics, the parameters to write, and the options.
#[verifier::ext_equal]
pub struct Update {
    pub m: GmmView,
    pub a: AccumView,
    /// The parameters that are written.
    pub flags: u8,
    pub min_weight: u64,
    pub min_occupancy: u64,
    pub min_variance: u64,
    pub remove: bool,
    pub floors: Seq<u64>,
}

impl Update {
    /// The frames behind the statistics.
    pub open spec fn frames<F: Fn(FloatOp) -> u64>(self, f: F) -> u64 {
        wide_sum(self.a.occupancy, self.a.occupancy.len() as int, f)
    }

    /// The share of the frames that component `i` accounts for; equal shares where there are none.
    pub open spec fn share<F: Fn(FloatOp) -> u64>(self, i: int, f: F) -> u64 {
        let frames = self.frames(f);
        if wide_less(WIDE_ZERO, frames) {
            wide_value(f, FloatOp::DivWide(self.a.occupancy[i], frames))
        } else {
            wide_value(
                f,
                FloatOp::DivWide(
                    WIDE_ONE,
                    wide_value(f, FloatOp::CountWide(self.m.weights.len() as u64)),
                ),
            )
        }
    }

    /// Component `i` has enough data.
    pub open spec fn is_fed<F: Fn(FloatOp) -> u64>(self, i: int, f: F) -> bool {
        wide_less(self.min_occupancy, self.a.occupancy[i]) && wide_less(
            self.min_weight,
            self.share(i, f),
        )
    }

    /// Component `i` is removed if `c` components before it are: it has too little data, and it is
    /// not the last one.
    pub open spec fn is_removed<F: Fn(FloatOp) -> u64>(self, i: int, c: int, f: F) -> bool {
        !self.is_fed(i, f) && self.remove && c < self.m.weights.len() - 1
    }

    /// How many of the first `i` components are removed.
    pub open spec fn removals<F: Fn(FloatOp) -> u64>(self, i: int, f: F) -> int
        decreases i,
    {
        if i <= 0 {
            0
        } else {
            let c = self.removals(i - 1, f);
            c + if self.is_removed(i - 1, c, f) {
                1int
            } else {
                0
            }
        }
    }

    /// Which of the first `i` components stay.
    pub open spec fn kept<F: Fn(FloatOp) -> u64>(self, i: int, f: F) -> Seq<usize>
        decreases i,
    {
        if i <= 0 {
            seq![]
        } else if self.is_removed(i - 1, self.removals(i - 1, f), f) {
            self.kept(i - 1, f)
        } else {
            self.kept(i - 1, f).push((i - 1) as usize)
        }
    }

    /// The new weight of component `i`.
    pub open spec fn weight<F: Fn(FloatOp) -> u64>(self, i: int, f: F) -> u32 {
        let share = self.share(i, f);
        if self.is_fed(i, f) {
            value(f, FloatOp::Narrow(share))
        } else if self.is_removed(i, self.removals(i, f), f) {
            self.m.weights[i]
        } else {
            value(
                f,
                FloatOp::Narrow(
                    if is_wide_nan_bits(share) || wide_less(share, self.min_weight) {
                        self.min_weight
                    } else {
                        share
                    },
                ),
            )
        }
    }

    /// The new mean of component `i` in dimension `d`: the average of its frames, if it has enough.
    pub open spec fn mean<F: Fn(FloatOp) -> u64>(self, i: int, d: int, f: F) -> u32 {
        if self.is_fed(i, f) && holds(self.a.flags, 1) {
            value(
                f,
                FloatOp::Narrow(
                    wide_value(f, FloatOp::DivWide(self.a.means[i][d], self.a.occupancy[i])),
                ),
            )
        } else {
            means_of(self.m, f).rows[i][d]
        }
    }

    /// The variance of the frames of component `i` in dimension `d`. Where the means are not
    /// written, it is taken around the old mean.
    pub open spec fn raw_var<F: Fn(FloatOp) -> u64>(self, i: int, d: int, f: F) -> u64 {
        let mean = wide_value(f, FloatOp::Widen(self.mean(i, d, f)));
        let second = wide_value(f, FloatOp::DivWide(self.a.vars[i][d], self.a.occupancy[i]));
        let var = wide_value(
            f,
            FloatOp::SubWide(second, wide_value(f, FloatOp::MulWide(mean, mean))),
        );
        if holds(self.flags, 1) {
            var
        } else {
            let diff = wide_value(
                f,
                FloatOp::SubWide(
                    wide_value(f, FloatOp::Widen(means_of(self.m, f).rows[i][d])),
                    mean,
                ),
            );
            wide_value(f, FloatOp::AddWide(var, wide_value(f, FloatOp::MulWide(diff, diff))))
        }
    }

    /// The least variance in dimension `d`.
    pub open spec fn floor(self, d: int) -> u64 {
        if self.floors.len() == 0 {
            self.min_variance
        } else {
            self.floors[d]
        }
    }

    /// The variance of component `i` in dimension `d` is raised to the least one.
    pub open spec fn is_floored<F: Fn(FloatOp) -> u64>(self, i: int, d: int, f: F) -> bool {
        self.is_fed(i, f) && holds(self.a.flags, 2) && wide_less(
            self.raw_var(i, d, f),
            self.floor(d),
        )
    }

    /// The new variance of component `i` in dimension `d`.
    pub open spec fn var<F: Fn(FloatOp) -> u64>(self, i: int, d: int, f: F) -> u32 {
        if self.is_fed(i, f) && holds(self.a.flags, 2) {
            value(
                f,
                FloatOp::Narrow(
                    if self.is_floored(i, d, f) {
                        self.floor(d)
                    } else {
                        self.raw_var(i, d, f)
                    },
                ),
            )
        } else {
            vars_of(self.m, f).rows[i][d]
        }
    }

    /// How many of the first `d` variances of component `i` are raised.
    pub open spec fn floored_in<F: Fn(FloatOp) -> u64>(self, i: int, d: int, f: F) -> int
        decreases d,
    {
        if d <= 0 {
            0
        } else {
            self.floored_in(i, d - 1, f) + if self.is_floored(i, d - 1, f) {
                1int
            } else {
                0
            }
        }
    }

    /// How many variances of the first `i` components are raised.
    pub open spec fn floored_elements<F: Fn(FloatOp) -> u64>(self, i: int, f: F) -> int
        decreases i,
    {
        if i <= 0 {
            0
        } else {
            self.floored_elements(i - 1, f) + self.floored_in(i - 1, self.m.inv_vars.cols, f)
        }
    }

    /// How many of the first `i` components have a variance that is raised.
    pub open spec fn floored_gaussians<F: Fn(FloatOp) -> u64>(self, i: int, f: F) -> int
        decreases i,
    {
        if i <= 0 {
            0
        } else {
            self.floored_gaussians(i - 1, f) + if self.floored_in(
                i - 1,
                self.m.inv_vars.cols,
                f,
            ) > 0 {
                1int
            } else {
                0
            }
        }
    }

    /// The mixture with the new parameters, before components are removed.
    pub open spec fn rewritten<F: Fn(FloatOp) -> u64>(self, f: F) -> Option<GmmView> {
        let n = self.m.weights.len() as int;
        let dim = self.m.inv_vars.cols;
        let weighted = GmmView {
            weights: if holds(self.flags, 4) {
                Seq::new(n as nat, |i: int| self.weight(i, f))
            } else {
                self.m.weights
            },
            ..self.m
        };
        if self.flags & 3 != 0 {
            with_means_and_vars(
                weighted,
                if holds(self.flags, 1) {
                    tabulated(n, dim, |i: int, d: int| self.mean(i, d, f))
                } else {
                    means_of(self.m, f)
                },
                if holds(self.flags, 2) {
                    tabulated(n, dim, |i: int, d: int| self.var(i, d, f))
                } else {
                    vars_of(self.m, f)
                },
                f,
            )
        } else {
            with_constants(weighted, f)
        }
    }

    /// The updated mixture: what is left after components are removed from `m`.
    pub open spec fn reduced<F: Fn(FloatOp) -> u64>(self, m: GmmView, f: F) -> Option<GmmView> {
        let n = self.m.weights.len() as int;
        if self.removals(n, f) > 0 {
            with_constants(retained(m, self.kept(n, f), f), f)
        } else {
            Some(m)
        }
    }
}

/// The update of a mixture, whose constants are recomputed first.
pub open spec fn update_of(
    opts: MleDiagGmmOptions,
    a: AccumView,
    flags: u8,
    m: GmmView,
) -> Update {
    Update {
        m,
        a,
        flags,
        min_weight: opts.min_gaussian_weight,
        min_occupancy: opts.min_gaussian_occupancy,
        min_variance: opts.min_variance,
        remove: opts.remove_low_count_gaussians,
        floors: opts.variance_floor_vector@,
    }
}

/// The updated mixture and what the update did. None where the constants or the new variances are
/// no numbers, or a variance is not positive.
pub open spec fn updated<F: Fn(FloatOp) -> u64>(
    opts: MleDiagGmmOptions,
    a: AccumView,
    flags: u8,
    m: GmmView,
    f: F,
) -> Option<(GmmView, UpdateStats)> {
    match with_constants(m, f) {
        None => None,
        Some(m0) => {
            let u = update_of(opts, a, flags, m0);
            let n = m.weights.len() as int;
            match u.rewritten(f) {
                None => None,
                Some(m1) => match u.reduced(m1, f) {
                    None => None,
                    Some(m2) => Some(
                        (
                            m2,
                            UpdateStats {
                                objf_change: wide_value(
                                    f,
                                    FloatOp::SubWide(objective(m1, a, f), objective(m0, a, f)),
                                ),
                                count: u.frames(f),
                                floored_elements: u.floored_elements(n, f) as usize,
                                floored_gaussians: u.floored_gaussians(n, f) as usize,
                                removed_gaussians: u.removals(n, f) as usize,
                            },
                        ),
                    ),
                },
            }
        },
    }
}

/// What is decided about the components before anything is written.
struct Plan {
    frames: u64,
    shares: Vec<u64>,
    fed: Vec<bool>,
    removed: Vec<bool>,
    keep: Vec<usize>,
    removals: usize,
}

/// The plan is the one for this update.
spec fn is_plan<F: Fn(FloatOp) -> u64>(p: Plan, u: Update, f: F) -> bool {
    let n = u.m.weights.len() as int;
    &&& p.frames == u.frames(f)
    &&& p.shares@ == Seq::new(n as nat, |i: int| u.share(i, f))
    &&& p.fed@ == Seq::new(n as nat, |i: int| u.is_fed(i, f))
    &&& p.removed@ == Seq::new(n as nat, |i: int| u.is_removed(i, u.removals(i, f), f))
    &&& p.keep@ == u.kept(n, f)
    &&& p.removals == u.removals(n, f)
    &&& p.keep@.len() > 0
    &&& forall|k: int| 0 <= k < p.keep@.len() ==> #[trigger] p.keep@[k] < n
}

fn make_plan<F: Fn(FloatOp) -> u64>(
    opts: &MleDiagGmmOptions,
    a: &AccumDiagGmm,
    Ghost(u): Ghost<Update>,
    f: &F,
) -> (r: Plan)
    requires
        is_evaluator(*f),
        u == update_of(*opts, a@, u.flags, u.m),
        0 < u.m.weights.len(),
        u.m.weights.len() == a@.occupancy.len(),
    ensures
        is_plan(r, u, *f),
{
    let n: usize = a.occupancy.len();
    let frames: u64 = a.occupancy_sum(f);
    let some: bool = wide_lt(WIDE_ZERO, frames);
    let mut shares: Vec<u64> = Vec::new();
    let mut fed: Vec<bool> = Vec::new();
    let mut removed: Vec<bool> = Vec::new();
    let mut keep: Vec<usize> = Vec::new();
    let mut removals: usize = 0;
    let mut i: usize = 0;
    while i < n
        invariant
            is_evaluator(*f),
            u == update_of(*opts, a@, u.flags, u.m),
            n == a@.occupancy.len(),
            n == u.m.weights.len(),
            frames == u.frames(*f),
            some == wide_less(WIDE_ZERO, frames),
            i <= n,
            shares@ == Seq::new(i as nat, |k: int| u.share(k, *f)),
            fed@ == Seq::new(i as nat, |k: int| u.is_fed(k, *f)),
            removed@ == Seq::new(i as nat, |k: int| u.is_removed(k, u.removals(k, *f), *f)),
            keep@ == u.kept(i as int, *f),
            removals == u.removals(i as int, *f),
            removals <= i,
            removals < n || i == 0,
            keep@.len() == i - removals,
            i > 0 ==> removals <= n - 1,
            forall|k: int| 0 <= k < keep@.len() ==> #[trigger] keep@[k] < i,
        decreases n - i,
    {
        let occ: u64 = a.occupancy[i];
        let share: u64 = if some {
            eval_wide(f, FloatOp::DivWide(occ, frames))
        } else {
            eval_wide(f, FloatOp::DivWide(WIDE_ONE, eval_wide(f, FloatOp::CountWide(n as u64))))
        };
        let enough: bool = wide_lt(opts.min_gaussian_occupancy, occ) && wide_lt(
            opts.min_gaussian_weight,
            share,
        );
        let goes: bool = !enough && opts.remove_low_count_gaussians && removals < n - 1;
        shares.push(share);
        fed.push(enough);
        removed.push(goes);
        if goes {
            removals += 1;
        } else {
            keep.push(i);
        }
        proof {
            assert(shares@ =~= Seq::new((i + 1) as nat, |k: int| u.share(k, *f)));
            assert(fed@ =~= Seq::new((i + 1) as nat, |k: int| u.is_fed(k, *f)));
            assert(removed@ =~= Seq::new(
                (i + 1) as nat,
                |k: int| u.is_removed(k, u.removals(k, *f), *f),
            ));
        }
        i += 1;
    }
    Plan { frames, shares, fed, removed, keep, removals }
}

fn new_weights<F: Fn(FloatOp) -> u64>(
    opts: &MleDiagGmmOptions,
    m: &DiagGmm,
    p: &Plan,
    Ghost(u): Ghost<Update>,
    f: &F,
) -> (r: Vec<u32>)
    requires
        is_evaluator(*f),
        u == update_of(*opts, u.a, u.flags, m@),
        is_plan(*p, u, *f),
    ensures
        r@ == Seq::new(m@.weights.len(), |i: int| u.weight(i, *f)),
{
    let fg: Ghost<F> = Ghost(*f);
    let ug: Ghost<Update> = Ghost(u);
    let item = |i: usize| -> (v: u32)
        requires
            i < m@.weights.len(),
        ensures
            v == ug@.weight(i as int, fg@),
        {
            let share: u64 = p.shares[i];
            if p.fed[i] {
                eval(f, FloatOp::Narrow(share))
            } else if p.removed[i] {
                m.weights[i]
            } else if !wide_eq(share, share) || wide_lt(share, opts.min_gaussian_weight) {
                eval(f, FloatOp::Narrow(opts.min_gaussian_weight))
            } else {
                eval(f, FloatOp::Narrow(share))
            }
        };
    list_of(m.weights.len(), &item, Ghost(|i: int| u.weight(i, *f)))
}

fn new_means<F: Fn(FloatOp) -> u64>(
    a: &AccumDiagGmm,
    old_means: &Matrix,
    p: &Plan,
    Ghost(u): Ghost<Update>,
    f: &F,
) -> (r: Matrix)
    requires
        is_evaluator(*f),
        u.a == a@,
        u.m.wf(),
        a@.wf(u.m.inv_vars.cols),
        a@.occupancy.len() == u.m.weights.len(),
        old_means@ == means_of(u.m, *f),
        is_plan(*p, u, *f),
    ensures
        r@ == tabulated(
            u.m.weights.len() as int,
            u.m.inv_vars.cols,
            |i: int, d: int| u.mean(i, d, *f),
        ),
        r@.wf(),
{
    let averaged: bool = a.flags.contains(GmmFlags::means());
    let fg: Ghost<F> = Ghost(*f);
    let ug: Ghost<Update> = Ghost(u);
    let item = |i: usize, d: usize| -> (v: u32)
        requires
            i < ug@.m.weights.len(),
            d < ug@.m.inv_vars.cols,
        ensures
            v == ug@.mean(i as int, d as int, fg@),
        {
            if p.fed[i] && averaged {
                assert(a@.means[i as int] == a.mean_accum@[i as int]@);
                eval(
                    f,
                    FloatOp::Narrow(
                        eval_wide(f, FloatOp::DivWide(a.mean_accum[i][d], a.occupancy[i])),
                    ),
                )
            } else {
                old_means.at(i, d)
            }
        };
    assert(old_means@.rows.len() == u.m.weights.len());
    Matrix::tabulate(
        old_means.rows.len(),
        old_means.cols,
        &item,
        Ghost(|i: int, d: int| u.mean(i, d, *f)),
    )
}

/// The variance of the frames of a component.
fn find_raw_var<F: Fn(FloatOp) -> u64>(
    a: &AccumDiagGmm,
    flags: GmmFlags,
    old_means: &Matrix,
    means: &Matrix,
    i: usize,
    d: usize,
    Ghost(u): Ghost<Update>,
    f: &F,
) -> (r: u64)
    requires
        is_evaluator(*f),
        u.a == a@,
        u.flags == flags.0,
        u.m.wf(),
        a@.wf(u.m.inv_vars.cols),
        a@.occupancy.len() == u.m.weights.len(),
        holds(a@.flags, 2),
        old_means@ == means_of(u.m, *f),
        means@ == tabulated(
            u.m.weights.len() as int,
            u.m.inv_vars.cols,
            |i: int, d: int| u.mean(i, d, *f),
        ),
        i < u.m.weights.len(),
        d < u.m.inv_vars.cols,
    ensures
        r == u.raw_var(i as int, d as int, *f),
{
    assert(a@.vars[i as int] == a.var_accum@[i as int]@);
    let mean: u64 = eval_wide(f, FloatOp::Widen(means.at(i, d)));
    let second: u64 = eval_wide(f, FloatOp::DivWide(a.var_accum[i][d], a.occupancy[i]));
    let var: u64 = eval_wide(
        f,
        FloatOp::SubWide(second, eval_wide(f, FloatOp::MulWide(mean, mean))),
    );
    if flags.contains(GmmFlags::means()) {
        var
    } else {
        let old_mean: u64 = eval_wide(f, FloatOp::Widen(old_means.at(i, d)));
        let diff: u64 = eval_wide(f, FloatOp::SubWide(old_mean, mean));
        eval_wide(f, FloatOp::AddWide(var, eval_wide(f, FloatOp::MulWide(diff, diff))))
    }
}

fn find_floor(opts: &MleDiagGmmOptions, d: usize, Ghost(u): Ghost<Update>) -> (r: u64)
    requires
        u == update_of(*opts, u.a, u.flags, u.m),
        u.floors.len() == 0 || d < u.floors.len(),
    ensures
        r == u.floor(d as int),
{
    if opts.variance_floor_vector.len() == 0 {
        opts.min_variance
    } else {
        opts.variance_floor_vector[d]
    }
}

/// The new variances, and how many were raised and in how many components.
fn new_vars<F: Fn(FloatOp) -> u64>(
    opts: &MleDiagGmmOptions,
    a: &AccumDiagGmm,
    flags: GmmFlags,
    old_means: &Matrix,
    old_vars: &Matrix,
    means: &Matrix,
    p: &Plan,
    Ghost(u): Ghost<Update>,
    f: &F,
) -> (r: (Matrix, usize, usize))
    requires
        is_evaluator(*f),
        u == update_of(*opts, a@, flags.0, u.m),
        u.m.wf(),
        a@.wf(u.m.inv_vars.cols),
        a@.occupancy.len() == u.m.weights.len(),
        holds(a@.flags, 2) ==> u.floors.len() == 0 || u.floors.len() >= u.m.inv_vars.cols,
        old_means@ == means_of(u.m, *f),
        old_vars@ == vars_of(u.m, *f),
        means@ == tabulated(
            u.m.weights.len() as int,
            u.m.inv_vars.cols,
            |i: int, d: int| u.mean(i, d, *f),
        ),
        is_plan(*p, u, *f),
        u.m.weights.len() * u.m.inv_vars.cols <= usize::MAX,
    ensures
        r.0@ == tabulated(
            u.m.weights.len() as int,
            u.m.inv_vars.cols,
            |i: int, d: int| u.var(i, d, *f),
        ),
        r.0@.wf(),
        r.1 == u.floored_elements(u.m.weights.len() as int, *f),
        r.2 == u.floored_gaussians(u.m.weights.len() as int, *f),
{
    assert(old_vars@.rows.len() == u.m.weights.len());
    let n: usize = old_vars.rows.len();
    let dim: usize = old_vars.cols;
    let squares: bool = a.flags.contains(GmmFlags::variances());
    let mut rows: Vec<Vec<u32>> = Vec::new();
    let mut elements: usize = 0;
    let mut gaussians: usize = 0;
    let mut i: usize = 0;
    proof {
        assert(0 * dim == 0) by (nonlinear_arith);
    }
    while i < n
        invariant
            is_evaluator(*f),
            u == update_of(*opts, a@, flags.0, u.m),
            u.m.wf(),
            a@.wf(dim as int),
            a@.occupancy.len() == n,
            n == u.m.weights.len(),
            dim == u.m.inv_vars.cols,
            squares == holds(a@.flags, 2),
            squares ==> u.floors.len() == 0 || u.floors.len() >= dim,
            old_means@ == means_of(u.m, *f),
            old_vars@ == vars_of(u.m, *f),
            means@ == tabulated(n as int, dim as int, |i: int, d: int| u.mean(i, d, *f)),
            is_plan(*p, u, *f),
            n * dim <= usize::MAX,
            i <= n,
            rows@.len() == i,
            forall|k: int|
                0 <= k < i ==> (#[trigger] rows@[k])@ == Seq::new(
                    dim as nat,
                    |d: int| u.var(k, d, *f),
                ),
            elements == u.floored_elements(i as int, *f),
            elements <= i * dim,
            gaussians == u.floored_gaussians(i as int, *f),
            gaussians <= i,
        decreases n - i,
    {
        proof {
            assert((i + 1) * dim == i * dim + dim) by (nonlinear_arith);
            assert((i + 1) * dim <= n * dim) by (nonlinear_arith)
                requires
                    i + 1 <= n,
            ;
        }
        let mut row: Vec<u32> = Vec::new();
        let mut floored: usize = 0;
        let mut d: usize = 0;
        while d < dim
            invariant
                is_evaluator(*f),
                u == update_of(*opts, a@, flags.0, u.m),
                u.m.wf(),
                a@.wf(dim as int),
                a@.occupancy.len() == n,
                n == u.m.weights.len(),
                dim == u.m.inv_vars.cols,
                squares == holds(a@.flags, 2),
                squares ==> u.floors.len() == 0 || u.floors.len() >= dim,
                old_means@ == means_of(u.m, *f),
                old_vars@ == vars_of(u.m, *f),
                means@ == tabulated(n as int, dim as int, |i: int, d: int| u.mean(i, d, *f)),
                is_plan(*p, u, *f),
                i < n,
                d <= dim,
                row@ == Seq::new(d as nat, |k: int| u.var(i as int, k, *f)),
                floored == u.floored_in(i as int, d as int, *f),
                floored <= d,
            decreases dim - d,
        {
            if p.fed[i] && squares {
                let raw: u64 = find_raw_var(a, flags, old_means, means, i, d, Ghost(u), f);
                let floor: u64 = find_floor(opts, d, Ghost(u));
                if wide_lt(raw, floor) {
                    row.push(eval(f, FloatOp::Narrow(floor)));
                    floored += 1;
                } else {
                    row.push(eval(f, FloatOp::Narrow(raw)));
                }
            } else {
                row.push(old_vars.at(i, d));
            }
            assert(row@ =~= Seq::new((d + 1) as nat, |k: int| u.var(i as int, k, *f)));
            d += 1;
        }
        rows.push(row);
        elements += floored;
        if floored != 0 {
            gaussians += 1;
        }
        i += 1;
    }
    let m = Matrix { cols: dim, rows };
    proof {
        let want = tabulated(n as int, dim as int, |i: int, d: int| u.var(i, d, *f));
        assert forall|k: int| 0 <= k < n implies m@.rows[k] == want.rows[k] by {
            assert(m.rows@[k]@ == Seq::new(dim as nat, |d: int| u.var(k, d, *f)));
            assert(m@.rows[k] =~= want.rows[k]);
        }
        assert(m@.rows =~= want.rows);
    }
    (m, elements, gaussians)
}

/// The mixture with the new parameters, and the counts of variances that were raised.
fn rewrite<F: Fn(FloatOp) -> u64>(
    opts: &MleDiagGmmOptions,
    a: &AccumDiagGmm,
    flags: GmmFlags,
    m: &DiagGmm,
    p: &Plan,
    f: &F,
) -> (r: Option<(DiagGmm, usize, usize)>)
    requires
        is_evaluator(*f),
        m@.wf(),
        a@.wf(m@.inv_vars.cols),
        a@.occupancy.len() == m@.weights.len(),
        holds(a@.flags, 2) ==> opts.variance_floor_vector@.len() == 0
            || opts.variance_floor_vector@.len() >= m@.inv_vars.cols,
        is_plan(*p, update_of(*opts, a@, flags.0, m@), *f),
        m@.weights.len() * m@.inv_vars.cols <= usize::MAX,
    ensures
        ({
            let u = update_of(*opts, a@, flags.0, m@);
            match u.rewritten(*f) {
                Some(v) => r matches Some(x) && x.0@ == v && v.wf() && v.weights.len()
                    == m@.weights.len() && v.gconsts.len() == v.weights.len() && v.inv_vars.cols
                    == m@.inv_vars.cols && x.1 == u.floored_elements(
                    m@.weights.len() as int,
                    *f,
                ) && x.2 == u.floored_gaussians(m@.weights.len() as int, *f),
                None => r is None,
            }
        }),
{
    let ghost u = update_of(*opts, a@, flags.0, m@);
    let old_means = m.means(f);
    let old_vars = m.vars(f);
    let means = new_means(a, &old_means, p, Ghost(u), f);
    let (vars, elements, gaussians) = new_vars(
        opts,
        a,
        flags,
        &old_means,
        &old_vars,
        &means,
        p,
        Ghost(u),
        f,
    );
    let mut weighted = m.clone();
    if flags.contains(GmmFlags::weights()) {
        weighted.weights = new_weights(opts, m, p, Ghost(u), f);
    }
    assert(weighted@.wf());
    if flags.intersects(GmmFlags(3)) {
        let means = if flags.contains(GmmFlags::means()) {
            means
        } else {
            old_means
        };
        let vars = if flags.contains(GmmFlags::variances()) {
            vars
        } else {
            old_vars
        };
        match weighted.try_with_means_and_vars(&means, &vars, f) {
            Some(v) => Some((v, elements, gaussians)),
            None => None,
        }
    } else {
        match weighted.try_compute_gconsts(f) {
            Some(bad) => Some((weighted, elements, gaussians)),
            None => None,
        }
    }
}

/// Re-estimate a mixture from its statistics. None where the constants or the new variances are no
/// numbers, or a variance is not positive.
pub fn try_mle_update<F: Fn(FloatOp) -> u64>(
    opts: &MleDiagGmmOptions,
    acc: &AccumDiagGmm,
    flags: GmmFlags,
    gmm: &DiagGmm,
    f: &F,
) -> (r: Option<(DiagGmm, UpdateStats)>)
    requires
        is_evaluator(*f),
        gmm@.wf(),
        acc@.wf(gmm@.inv_vars.cols),
        acc@.occupancy.len() == gmm@.weights.len(),
        holds(acc@.flags, flags.0),
        holds(acc@.flags, 2) ==> opts.variance_floor_vector@.len() == 0
            || opts.variance_floor_vector@.len() >= gmm@.inv_vars.cols,
        gmm@.weights.len() * gmm@.inv_vars.cols <= usize::MAX,
    ensures
        match updated(*opts, acc@, flags.0, gmm@, *f) {
            Some(v) => r matches Some(x) && x.0@ == v.0 && x.1 == v.1 && v.0.wf(),
            None => r is None,
        },
{
    let mut m0 = gmm.clone();
    match m0.try_compute_gconsts(f) {
        Some(bad) => {},
        None => {
            return None;
        },
    }
    let before: u64 = find_objective(&m0, acc, f);
    let ghost u = update_of(*opts, acc@, flags.0, m0@);
    let p = make_plan(opts, acc, Ghost(u), f);
    let (mut m, floored_elements, floored_gaussians) = match rewrite(opts, acc, flags, &m0, &p, f) {
        Some(v) => v,
        None => {
            return None;
        },
    };
    let after: u64 = find_objective(&m, acc, f);
    if p.removals > 0 {
        m.retain_components(p.keep.as_slice(), f);
        match m.try_compute_gconsts(f) {
            Some(bad) => {},
            None => {
                return None;
            },
        }
    }
    let stats = UpdateStats {
        objf_change: eval_wide(f, FloatOp::SubWide(after, before)),
        count: p.frames,
        floored_elements,
        floored_gaussians,
        removed_gaussians: p.removals,
    };
    Some((m, stats))
}

/// Re-estimate a mixture from its statistics. Only the parameters that `flags` names are written.
pub fn mle_diag_gmm_update_detailed<F: Fn(FloatOp) -> u64>(
    opts: &MleDiagGmmOptions,
    acc: &AccumDiagGmm,
    flags: GmmFlags,
    gmm: &mut DiagGmm,
    f: &F,
) -> (r: UpdateStats)
    requires
        is_evaluator(*f),
        old(gmm)@.wf(),
        acc@.wf(old(gmm)@.inv_vars.cols),
        acc@.occupancy.len() == old(gmm)@.weights.len(),
        acc@.dim() == old(gmm)@.inv_vars.cols,
        holds(acc@.flags, flags.0),
        holds(acc@.flags, 2) ==> opts.variance_floor_vector@.len() == 0
            || opts.variance_floor_vector@.len() >= old(gmm)@.inv_vars.cols,
        old(gmm)@.weights.len() * old(gmm)@.inv_vars.cols <= usize::MAX,
        updated(*opts, acc@, flags.0, old(gmm)@, *f) is Some,
    ensures
        updated(*opts, acc@, flags.0, old(gmm)@, *f) == Some((final(gmm)@, r)),
        final(gmm)@.wf(),
{
    let (m, stats) = try_mle_update(opts, acc, flags, gmm, f).unwrap();
    *gmm = m;
    stats
}

/// Re-estimate a mixture, and return the change of the objective and the frames.
pub fn mle_diag_gmm_update<F: Fn(FloatOp) -> u64>(
    opts: &MleDiagGmmOptions,
    acc: &AccumDiagGmm,
    flags: GmmFlags,
    gmm: &mut DiagGmm,
    f: &F,
) -> (r: (u64, u64))
    requires
        is_evaluator(*f),
        old(gmm)@.wf(),
        acc@.wf(old(gmm)@.inv_vars.cols),
        acc@.occupancy.len() == old(gmm)@.weights.len(),
        acc@.dim() == old(gmm)@.inv_vars.cols,
        holds(acc@.flags, flags.0),
        holds(acc@.flags, 2) ==> opts.variance_floor_vector@.len() == 0
            || opts.variance_floor_vector@.len() >= old(gmm)@.inv_vars.cols,
        old(gmm)@.weights.len() * old(gmm)@.inv_vars.cols <= usize::MAX,
        updated(*opts, acc@, flags.0, old(gmm)@, *f) is Some,
    ensures
        updated(*opts, acc@, flags.0, old(gmm)@, *f) matches Some(v) && v.0 == final(gmm)@
            && v.1.objf_change == r.0 && v.1.count == r.1,
        final(gmm)@.wf(),
{
    let s = mle_diag_gmm_update_detailed(opts, acc, flags, gmm, f);
    (s.objf_change, s.count)
}

proof fn removals_leave_one<F: Fn(FloatOp) -> u64>(u: Update, i: int, f: F)
    requires
        0 <= i <= u.m.weights.len(),
        u.m.weights.len() > 0,
    ensures
        0 <= u.removals(i, f) <= u.m.weights.len() - 1,
        u.kept(i, f).len() == i - u.removals(i, f),
    decreases i,
{
    if i > 0 {
        removals_leave_one(u, i - 1, f);
    }
}

/// An update removes as many components as it says, and at least one is left.
pub proof fn a_component_is_left<F: Fn(FloatOp) -> u64>(
    opts: MleDiagGmmOptions,
    a: AccumView,
    flags: u8,
    m: GmmView,
    f: F,
)
    requires
        0 < m.weights.len() <= usize::MAX,
    ensures
        updated(opts, a, flags, m, f) matches Some(v) ==> v.0.weights.len() == m.weights.len()
            - v.1.removed_gaussians && v.0.weights.len() > 0,
{
    let n = m.weights.len() as int;
    if let Some(m0) = with_constants(m, f) {
        let u = update_of(opts, a, flags, m0);
        removals_leave_one(u, n, f);
    }
}

/// The first `n` mixtures updated, with the sums of the objective changes and of the frames.
pub open spec fn all_updated<F: Fn(FloatOp) -> u64>(
    opts: MleDiagGmmOptions,
    accs: Seq<AccumView>,
    flags: u8,
    am: Seq<GmmView>,
    n: int,
    f: F,
) -> Option<(Seq<GmmView>, u64, u64)>
    decreases n,
{
    if n <= 0 {
        Some((seq![], WIDE_ZERO, WIDE_ZERO))
    } else {
        match all_updated(opts, accs, flags, am, n - 1, f) {
            None => None,
            Some(v) => match updated(opts, accs[n - 1], flags, am[n - 1], f) {
                None => None,
                Some(w) => Some(
                    (
                        v.0.push(w.0),
                        wide_value(f, FloatOp::AddWide(v.1, w.1.objf_change)),
                        wide_value(f, FloatOp::AddWide(v.2, w.1.count)),
                    ),
                ),
            },
        }
    }
}

proof fn update_failure_stays<F: Fn(FloatOp) -> u64>(
    opts: MleDiagGmmOptions,
    accs: Seq<AccumView>,
    flags: u8,
    am: Seq<GmmView>,
    k: int,
    n: int,
    f: F,
)
    requires
        0 <= k <= n,
        all_updated(opts, accs, flags, am, k, f) is None,
    ensures
        all_updated(opts, accs, flags, am, n, f) is None,
    decreases n,
{
    if k < n {
        update_failure_stays(opts, accs, flags, am, k, n - 1, f);
    }
}

/// The statistics and the mixtures fit together.
pub open spec fn am_fits(opts: MleDiagGmmOptions, accs: Seq<AccumView>, flags: u8, am: Seq<GmmView>) -> bool {
    &&& accs.len() == am.len()
    &&& forall|i: int|
        #![trigger am[i]]
        0 <= i < am.len() ==> am[i].wf() && accs[i].wf(am[i].inv_vars.cols) && accs[i].occupancy.len()
            == am[i].weights.len() && holds(accs[i].flags, flags) && accs[i].dim()
            == am[i].inv_vars.cols && am[i].weights.len() * am[i].inv_vars.cols <= usize::MAX && (
        holds(accs[i].flags, 2) ==> opts.variance_floor_vector@.len() == 0
            || opts.variance_floor_vector@.len() >= am[i].inv_vars.cols)
}

/// Re-estimate all mixtures, and return them with the change of the objective and the frames.
pub fn try_mle_am_update<F: Fn(FloatOp) -> u64>(
    opts: &MleDiagGmmOptions,
    acc: &AccumAmDiagGmm,
    flags: GmmFlags,
    am: &AmDiagGmm,
    f: &F,
) -> (r: Option<(AmDiagGmm, u64, u64)>)
    requires
        is_evaluator(*f),
        am_fits(*opts, acc@.accs, flags.0, am@),
    ensures
        match all_updated(*opts, acc@.accs, flags.0, am@, am@.len() as int, *f) {
            Some(v) => r matches Some(x) && x.0@ == v.0 && x.1 == v.1 && x.2 == v.2,
            None => r is None,
        },
{
    let n: usize = am.pdfs.len();
    let mut out = AmDiagGmm { pdfs: Vec::new() };
    let mut change: u64 = WIDE_ZERO;
    let mut count: u64 = WIDE_ZERO;
    let mut i: usize = 0;
    assert(out@ =~= seq![]);
    while i < n
        invariant
            is_evaluator(*f),
            am_fits(*opts, acc@.accs, flags.0, am@),
            n == am.pdfs@.len(),
            n == am@.len(),
            i <= n,
            all_updated(*opts, acc@.accs, flags.0, am@, i as int, *f) == Some((out@, change, count)),
        decreases n - i,
    {
        assert(am@[i as int] == am.pdfs@[i as int]@);
        assert(acc@.accs[i as int] == acc.accs@[i as int]@);
        match try_mle_update(opts, &acc.accs[i], flags, &am.pdfs[i], f) {
            Some((m, s)) => {
                change = eval_wide(f, FloatOp::AddWide(change, s.objf_change));
                count = eval_wide(f, FloatOp::AddWide(count, s.count));
                let ghost before = out@;
                out.pdfs.push(m);
                assert(out@ =~= before.push(m@));
            },
            None => {
                proof {
                    update_failure_stays(
                        *opts,
                        acc@.accs,
                        flags.0,
                        am@,
                        i + 1,
                        n as int,
                        *f,
                    );
                }
                return None;
            },
        }
        i += 1;
    }
    Some((out, change, count))
}

/// Re-estimate all mixtures, and return the change of the objective and the frames.
pub fn mle_am_diag_gmm_update<F: Fn(FloatOp) -> u64>(
    opts: &MleDiagGmmOptions,
    acc: &AccumAmDiagGmm,
    flags: GmmFlags,
    am: &mut AmDiagGmm,
    f: &F,
) -> (r: (u64, u64))
    requires
        is_evaluator(*f),
        am_fits(*opts, acc@.accs, flags.0, old(am)@),
        all_updated(
            *opts,
            acc@.accs,
            flags.0,
            old(am)@,
            old(am)@.len() as int,
            *f,
        ) is Some,
    ensures
        all_updated(*opts, acc@.accs, flags.0, old(am)@, old(am)@.len() as int, *f) == Some(
            (final(am)@, r.0, r.1),
        ),
{
    let (out, change, count) = try_mle_am_update(opts, acc, flags, am, f).unwrap();
    *am = out;
    (change, count)
}

/// Add `tau` frames of the model itself to every component of all mixtures.
pub fn ismooth_stats_am_diag_gmm_from_model<F: Fn(FloatOp) -> u64>(
    am: &AmDiagGmm,
    tau: u64,
    acc: &mut AccumAmDiagGmm,
    f: &F,
)
    requires
        is_evaluator(*f),
        old(acc)@.accs.len() == am@.len(),
        forall|i: int|
            #![trigger am@[i]]
            0 <= i < am@.len() ==> am@[i].wf() && old(acc)@.accs[i].wf(am@[i].inv_vars.cols)
                && old(acc)@.accs[i].occupancy.len() == am@[i].weights.len() && holds(
                old(acc)@.accs[i].flags,
                1,
            ) && holds(old(acc)@.accs[i].flags, 2),
    ensures
        final(acc)@ == (AccumAmView {
            accs: Seq::new(
                am@.len(),
                |i: int| smoothed_with(old(acc)@.accs[i], tau, am@[i], *f),
            ),
            ..old(acc)@
        }),
{
    let ghost a = acc@;
    let n: usize = am.pdfs.len();
    let mut i: usize = 0;
    while i < n
        invariant
            is_evaluator(*f),
            n == am.pdfs@.len(),
            n == am@.len(),
            n == a.accs.len(),
            acc.accs@.len() == n,
            acc.total_frames == a.frames,
            acc.total_loglike == a.loglike,
            i <= n,
            forall|k: int|
                #![trigger am@[k]]
                0 <= k < n ==> am@[k].wf() && a.accs[k].wf(am@[k].inv_vars.cols)
                    && a.accs[k].occupancy.len() == am@[k].weights.len() && holds(a.accs[k].flags, 1)
                    && holds(a.accs[k].flags, 2),
            forall|k: int|
                0 <= k < i ==> (#[trigger] acc.accs@[k])@ == smoothed_with(
                    a.accs[k],
                    tau,
                    am@[k],
                    *f,
                ),
            forall|k: int| i <= k < n ==> (#[trigger] acc.accs@[k])@ == a.accs[k],
        decreases n - i,
    {
        assert(am@[i as int] == am.pdfs@[i as int]@);
        assert(acc.accs@[i as int]@ == a.accs[i as int]);
        acc.accs[i].smooth_with_model(tau, &am.pdfs[i], f);
        i += 1;
    }
    proof {
        let want = Seq::new(am@.len(), |i: int| smoothed_with(a.accs[i], tau, am@[i], *f));
        assert(acc@.accs =~= want);
    }
}

} // verus!
