//! The acoustic model: one mixture per pdf.

use vstd::prelude::*;
use vstd::slice::slice_subrange;

use crate::float::{is_evaluator, is_nan_bits, FloatOp};
use crate::gmm::diag::{
    bad_constants, log_likes, scaled_mixture, split_mixture, with_constants, DiagGmm, GmmView,
};
use crate::gmm::merge::merged;
use crate::gmm::mixing::log_sum;
use crate::gmm::targets::{as_ints, get_split_targets, split_targets, targets_keep_within};
use crate::types::PdfId;

verus! {

/// One mixture per pdf, all of the same dimension.
#[derive(Debug)]
pub struct AmDiagGmm {
    pub pdfs: Vec<DiagGmm>,
}

impl View for AmDiagGmm {
    type V = Seq<GmmView>;

    open spec fn view(&self) -> Seq<GmmView> {
        Seq::new(self.pdfs@.len(), |i: int| self.pdfs@[i]@)
    }
}

/// The components of the first `n` mixtures together.
pub open spec fn gauss_count(am: Seq<GmmView>, n: int) -> int
    decreases n,
{
    if n <= 0 {
        0
    } else {
        gauss_count(am, n - 1) + am[n - 1].weights.len()
    }
}

/// The dimension of the mixtures, 0 if there is none.
pub open spec fn dim_of(am: Seq<GmmView>) -> int {
    if am.len() > 0 {
        am[0].inv_vars.cols
    } else {
        0
    }
}

proof fn gauss_count_grows(am: Seq<GmmView>, a: int, b: int)
    requires
        0 <= a <= b,
    ensures
        0 <= gauss_count(am, a) <= gauss_count(am, b),
    decreases b,
{
    if b > 0 {
        if a < b {
            gauss_count_grows(am, a, b - 1);
        } else {
            gauss_count_grows(am, a - 1, b - 1);
        }
    }
}

impl AmDiagGmm {
    /// A model without mixtures.
    pub fn new() -> (r: Self)
        ensures
            r@ == Seq::<GmmView>::empty(),
    {
        let r = AmDiagGmm { pdfs: Vec::new() };
        assert(r@ =~= Seq::<GmmView>::empty());
        r
    }

    /// Add a mixture of the model's dimension.
    pub fn add_pdf(&mut self, g: DiagGmm)
        requires
            old(self)@.len() > 0 ==> g@.inv_vars.cols == dim_of(old(self)@),
        ensures
            final(self)@ == old(self)@.push(g@),
    {
        self.pdfs.push(g);
        assert(self@ =~= old(self)@.push(g@));
    }

    pub fn num_pdfs(&self) -> (r: usize)
        ensures
            r == self@.len(),
    {
        self.pdfs.len()
    }

    pub fn dim(&self) -> (r: usize)
        ensures
            r == dim_of(self@),
    {
        if self.pdfs.len() > 0 {
            self.pdfs[0].dim()
        } else {
            0
        }
    }

    pub fn pdf(&self, i: PdfId) -> (r: &DiagGmm)
        requires
            i < self@.len(),
        ensures
            r@ == self@[i as int],
    {
        &self.pdfs[i as usize]
    }

    /// A mixture that can be changed.
    pub fn pdf_mut(&mut self, i: PdfId) -> (r: &mut DiagGmm)
        requires
            i < old(self)@.len(),
        ensures
            *r == old(self).pdfs@[i as int],
            final(self).pdfs@ == old(self).pdfs@.update(i as int, *final(r)),
    {
        &mut self.pdfs[i as usize]
    }

    /// The components of all mixtures together, if a `usize` can hold them.
    pub fn try_num_gauss(&self) -> (r: Option<usize>)
        ensures
            match r {
                Some(n) => n == gauss_count(self@, self@.len() as int),
                None => gauss_count(self@, self@.len() as int) > usize::MAX,
            },
    {
        let mut total: usize = 0;
        let mut i: usize = 0;
        while i < self.pdfs.len()
            invariant
                i <= self.pdfs@.len(),
                total == gauss_count(self@, i as int),
            decreases self.pdfs.len() - i,
        {
            proof {
                gauss_count_grows(self@, i + 1, self@.len() as int);
                assert(self@[i as int] == self.pdfs@[i as int]@);
            }
            let n: usize = self.pdfs[i].num_gauss();
            if n > usize::MAX - total {
                return None;
            }
            total += n;
            i += 1;
        }
        Some(total)
    }

    /// The components of all mixtures together.
    pub fn num_gauss(&self) -> (r: usize)
        requires
            gauss_count(self@, self@.len() as int) <= usize::MAX,
        ensures
            r == gauss_count(self@, self@.len() as int),
    {
        let mut total: usize = 0;
        let mut i: usize = 0;
        while i < self.pdfs.len()
            invariant
                i <= self.pdfs@.len(),
                gauss_count(self@, self@.len() as int) <= usize::MAX,
                total == gauss_count(self@, i as int),
            decreases self.pdfs.len() - i,
        {
            proof {
                gauss_count_grows(self@, i + 1, self@.len() as int);
                assert(self@[i as int] == self.pdfs@[i as int]@);
            }
            total += self.pdfs[i].num_gauss();
            i += 1;
        }
        total
    }
}

/// The first `n` results, if there are all.
pub open spec fn all_of(results: Seq<Option<GmmView>>, n: int) -> Option<Seq<GmmView>>
    decreases n,
{
    if n <= 0 {
        Some(seq![])
    } else {
        match (all_of(results, n - 1), results[n - 1]) {
            (Some(v), Some(m)) => Some(v.push(m)),
            _ => None,
        }
    }
}

proof fn missing_stays(results: Seq<Option<GmmView>>, k: int, n: int)
    requires
        0 <= k <= n,
        all_of(results, k) is None,
    ensures
        all_of(results, n) is None,
    decreases n,
{
    if k < n {
        missing_stays(results, k, n - 1);
    }
}

/// The noise that the mixtures before number `i` take when they are split to these targets: one
/// value per dimension for every new component.
pub open spec fn noise_before(am: Seq<GmmView>, targets: Seq<int>, i: int) -> int
    decreases i,
{
    if i <= 0 {
        0
    } else {
        noise_before(am, targets, i - 1) + noise_for(am[i - 1], targets[i - 1])
    }
}

/// The noise that splitting a mixture to `target` components takes.
pub open spec fn noise_for(m: GmmView, target: int) -> int {
    if m.weights.len() < target {
        (target - m.weights.len()) * m.inv_vars.cols
    } else {
        0
    }
}

/// Mixture `i` split to its target, with its part of the noise.
pub open spec fn split_at<F: Fn(FloatOp) -> u64>(
    am: Seq<GmmView>,
    targets: Seq<int>,
    factor: u32,
    noise: Seq<u32>,
    i: int,
    f: F,
) -> Option<GmmView> {
    if am[i].weights.len() < targets[i] {
        split_mixture(am[i], targets[i], factor, noise.skip(noise_before(am, targets, i)), f)
    } else {
        Some(am[i])
    }
}

/// The mixtures split so that they have `target` components together.
pub open spec fn split_by<F: Fn(FloatOp) -> u64>(
    am: Seq<GmmView>,
    occs: Seq<u64>,
    target: int,
    factor: u32,
    power: u32,
    min_count: u32,
    noise: Seq<u32>,
    f: F,
) -> Option<Seq<GmmView>> {
    let targets = split_targets(occs, target, power, min_count, f);
    all_of(
        Seq::new(am.len(), |i: int| split_at(am, targets, factor, noise, i, f)),
        am.len() as int,
    )
}

/// Mixture `i` merged to its target, of at least one component.
pub open spec fn merge_at<F: Fn(FloatOp) -> u64>(am: Seq<GmmView>, targets: Seq<int>, i: int, f: F) -> Option<
    GmmView,
> {
    let target = if targets[i] == 0 {
        1
    } else {
        targets[i]
    };
    if am[i].weights.len() > target {
        merged(am[i], target, f)
    } else {
        Some(am[i])
    }
}

/// The mixtures merged so that they have `target` components together.
pub open spec fn merge_by<F: Fn(FloatOp) -> u64>(
    am: Seq<GmmView>,
    occs: Seq<u64>,
    target: int,
    power: u32,
    min_count: u32,
    f: F,
) -> Option<Seq<GmmView>> {
    let targets = split_targets(occs, target, power, min_count, f);
    all_of(Seq::new(am.len(), |i: int| merge_at(am, targets, i, f)), am.len() as int)
}

/// The mixtures after the weights of the first `n` listed ones are scaled.
pub open spec fn boosted<F: Fn(FloatOp) -> u64>(
    am: Seq<GmmView>,
    pdfs: Seq<PdfId>,
    n: int,
    boost: u32,
    f: F,
) -> Option<Seq<GmmView>>
    decreases n,
{
    if n <= 0 {
        Some(am)
    } else {
        match boosted(am, pdfs, n - 1, boost, f) {
            Some(v) => match scaled_mixture(v[pdfs[n - 1] as int], boost, f) {
                Some(m) => Some(v.update(pdfs[n - 1] as int, m)),
                None => None,
            },
            None => None,
        }
    }
}

proof fn boost_failure_stays<F: Fn(FloatOp) -> u64>(
    am: Seq<GmmView>,
    pdfs: Seq<PdfId>,
    k: int,
    n: int,
    boost: u32,
    f: F,
)
    requires
        0 <= k <= n,
        boosted(am, pdfs, k, boost, f) is None,
    ensures
        boosted(am, pdfs, n, boost, f) is None,
    decreases n,
{
    if k < n {
        boost_failure_stays(am, pdfs, k, n - 1, boost, f);
    }
}

proof fn noise_grows(am: Seq<GmmView>, targets: Seq<int>, a: int, b: int)
    requires
        0 <= a <= b <= am.len(),
        forall|i: int| 0 <= i < am.len() ==> (#[trigger] am[i]).inv_vars.cols >= 0,
    ensures
        0 <= noise_before(am, targets, a) <= noise_before(am, targets, b),
    decreases b,
{
    if b > 0 {
        let m = am[b - 1];
        let t = targets[b - 1];
        if m.weights.len() < t {
            assert((t - m.weights.len()) * m.inv_vars.cols >= 0) by (nonlinear_arith)
                requires
                    t - m.weights.len() >= 0,
                    m.inv_vars.cols >= 0,
            ;
        }
        if a < b {
            noise_grows(am, targets, a, b - 1);
        } else {
            noise_grows(am, targets, a - 1, b - 1);
        }
    }
}

/// All mixtures are well-formed and not empty.
pub open spec fn all_wf(am: Seq<GmmView>) -> bool {
    forall|i: int| 0 <= i < am.len() ==> (#[trigger] am[i]).wf() && am[i].weights.len() > 0
        && am[i].inv_vars.cols >= 0
}

/// What the result of a function on all mixtures is.
pub open spec fn gives_all(r: Option<AmDiagGmm>, want: Option<Seq<GmmView>>) -> bool {
    match want {
        Some(v) => r matches Some(x) && x@ == v,
        None => r is None,
    }
}

impl Clone for AmDiagGmm {
    fn clone(&self) -> (r: Self)
        ensures
            r@ == self@,
    {
        let mut pdfs: Vec<DiagGmm> = Vec::new();
        let mut i: usize = 0;
        while i < self.pdfs.len()
            invariant
                i <= self.pdfs@.len(),
                pdfs@.len() == i,
                forall|k: int| 0 <= k < i ==> (#[trigger] pdfs@[k])@ == self.pdfs@[k]@,
            decreases self.pdfs.len() - i,
        {
            pdfs.push(self.pdfs[i].clone());
            i += 1;
        }
        let r = AmDiagGmm { pdfs };
        assert(r@ =~= self@);
        r
    }
}

impl AmDiagGmm {
    /// `num_pdfs` copies of a mixture.
    pub fn init(proto: &DiagGmm, num_pdfs: usize) -> (r: Self)
        requires
            num_pdfs > 0,
        ensures
            r@ == Seq::new(num_pdfs as nat, |i: int| proto@),
    {
        let mut r = AmDiagGmm { pdfs: Vec::new() };
        let mut i: usize = 0;
        while i < num_pdfs
            invariant
                i <= num_pdfs,
                r@ == Seq::new(i as nat, |i: int| proto@),
            decreases num_pdfs - i,
        {
            let ghost before = r@;
            r.pdfs.push(proto.clone());
            assert(r@ =~= before.push(proto@));
            assert(r@ =~= Seq::new((i + 1) as nat, |i: int| proto@));
            i += 1;
        }
        r
    }

    /// The log-likelihood of a frame under a mixture.
    pub fn log_likelihood<F: Fn(FloatOp) -> u64>(&self, pdf: PdfId, x: &[u32], f: &F) -> (r: u32)
        requires
            is_evaluator(*f),
            pdf < self@.len(),
            self@[pdf as int].wf(),
            self@[pdf as int].gconsts.len() == self@[pdf as int].weights.len(),
            x@.len() == self@[pdf as int].inv_vars.cols,
            !is_nan_bits(log_sum(log_likes(self@[pdf as int], x@, *f), *f)),
        ensures
            r == log_sum(log_likes(self@[pdf as int], x@, *f), *f),
    {
        self.pdfs[pdf as usize].log_likelihood(x, f)
    }

    /// The mixtures split so that they have `target_components` together, shared out by
    /// [`crate::gmm::targets::get_split_targets`]. The noise is taken in order of the mixtures; None
    /// if a constant is not a number.
    pub fn try_split_by_count<F: Fn(FloatOp) -> u64>(
        &self,
        occs: &[u64],
        target_components: usize,
        perturb_factor: u32,
        power: u32,
        min_count: u32,
        noise: &[u32],
        f: &F,
    ) -> (r: Option<Self>)
        requires
            is_evaluator(*f),
            all_wf(self@),
            occs@.len() == self@.len(),
            noise@.len() >= noise_before(
                self@,
                split_targets(occs@, target_components as int, power, min_count, *f),
                self@.len() as int,
            ),
        ensures
            gives_all(
                r,
                split_by(
                    self@,
                    occs@,
                    target_components as int,
                    perturb_factor,
                    power,
                    min_count,
                    noise@,
                    *f,
                ),
            ),
    {
        let targets = get_split_targets(occs, target_components, power, min_count, f);
        let ghost ts = split_targets(occs@, target_components as int, power, min_count, *f);
        let ghost am = self@;
        let ghost results = Seq::new(
            am.len(),
            |i: int| split_at(am, ts, perturb_factor, noise@, i, *f),
        );
        proof {
            targets_keep_within(occs@, target_components as int, power, min_count, *f);
        }
        let n: usize = self.pdfs.len();
        let total: usize = noise.len();
        let mut start: usize = 0;
        let mut out = AmDiagGmm { pdfs: Vec::new() };
        assert(out@ =~= seq![]);
        let mut i: usize = 0;
        while i < n
            invariant
                is_evaluator(*f),
                am == self@,
                all_wf(am),
                n == am.len(),
                n == self.pdfs@.len(),
                ts == as_ints(targets@),
                ts.len() == n,
                ts == split_targets(occs@, target_components as int, power, min_count, *f),
                total == noise@.len(),
                total >= noise_before(am, ts, n as int),
                i <= n,
                start == noise_before(am, ts, i as int),
                start <= total,
                results == Seq::new(
                    am.len(),
                    |i: int| split_at(am, ts, perturb_factor, noise@, i, *f),
                ),
                all_of(results, i as int) == Some(out@),
            decreases n - i,
        {
            let m = &self.pdfs[i];
            let t: usize = targets[i];
            let ghost before = out@;
            proof {
                assert(am[i as int] == self.pdfs@[i as int]@);
                assert(ts[i as int] == t);
                noise_grows(am, ts, i as int, n as int);
                noise_grows(am, ts, i + 1, n as int);
            }
            if m.num_gauss() < t {
                let ghost needed = (t - m@.weights.len()) * m@.inv_vars.cols;
                proof {
                    assert(noise_for(am[i as int], ts[i as int]) == needed);
                    assert(noise@.subrange(start as int, total as int) =~= noise@.skip(
                        start as int,
                    ));
                    assert(needed >= 0) by (nonlinear_arith)
                        requires
                            needed == (t - m@.weights.len()) * m@.inv_vars.cols,
                            t - m@.weights.len() >= 0,
                            m@.inv_vars.cols >= 0,
                    ;
                }
                match m.try_split(
                    t,
                    perturb_factor,
                    slice_subrange(noise, start, total),
                    f,
                ) {
                    Some(x) => {
                        out.pdfs.push(x);
                        assert(out@ =~= before.push(x@));
                    },
                    None => {
                        proof {
                            assert(all_of(results, i + 1) is None);
                            missing_stays(results, i + 1, n as int);
                        }
                        return None;
                    },
                }
                let extra: usize = t - m.num_gauss();
                let dim: usize = m.dim();
                assert(extra * dim == needed);
                start += extra * dim;
            } else {
                let x = m.clone();
                out.pdfs.push(x);
                assert(out@ =~= before.push(x@));
            }
            i += 1;
        }
        Some(out)
    }

    /// The mixtures merged so that they have `target_components` together, shared out by
    /// [`crate::gmm::targets::get_split_targets`]. None if a mixture cannot be merged.
    pub fn try_merge_by_count<F: Fn(FloatOp) -> u64>(
        &self,
        occs: &[u64],
        target_components: usize,
        power: u32,
        min_count: u32,
        f: &F,
    ) -> (r: Option<Self>)
        requires
            is_evaluator(*f),
            all_wf(self@),
            occs@.len() == self@.len(),
        ensures
            gives_all(
                r,
                merge_by(self@, occs@, target_components as int, power, min_count, *f),
            ),
    {
        let targets = get_split_targets(occs, target_components, power, min_count, f);
        let ghost ts = split_targets(occs@, target_components as int, power, min_count, *f);
        let ghost am = self@;
        let ghost results = Seq::new(am.len(), |i: int| merge_at(am, ts, i, *f));
        proof {
            targets_keep_within(occs@, target_components as int, power, min_count, *f);
        }
        let n: usize = self.pdfs.len();
        let mut out = AmDiagGmm { pdfs: Vec::new() };
        assert(out@ =~= seq![]);
        let mut i: usize = 0;
        while i < n
            invariant
                is_evaluator(*f),
                am == self@,
                all_wf(am),
                n == am.len(),
                n == self.pdfs@.len(),
                ts == as_ints(targets@),
                ts.len() == n,
                ts == split_targets(occs@, target_components as int, power, min_count, *f),
                i <= n,
                results == Seq::new(am.len(), |i: int| merge_at(am, ts, i, *f)),
                all_of(results, i as int) == Some(out@),
            decreases n - i,
        {
            let m = &self.pdfs[i];
            let t: usize = if targets[i] == 0 {
                1
            } else {
                targets[i]
            };
            let ghost before = out@;
            proof {
                assert(am[i as int] == self.pdfs@[i as int]@);
                assert(ts[i as int] == targets@[i as int]);
            }
            if m.num_gauss() > t {
                match m.try_merge(t, f) {
                    Some(x) => {
                        out.pdfs.push(x);
                        assert(out@ =~= before.push(x@));
                    },
                    None => {
                        proof {
                            assert(all_of(results, i + 1) is None);
                            missing_stays(results, i + 1, n as int);
                        }
                        return None;
                    },
                }
            } else {
                let x = m.clone();
                out.pdfs.push(x);
                assert(out@ =~= before.push(x@));
            }
            i += 1;
        }
        Some(out)
    }

    /// Split mixtures so that they have `target_components` together.
    pub fn split_by_count<F: Fn(FloatOp) -> u64>(
        &mut self,
        occs: &[u64],
        target_components: usize,
        perturb_factor: u32,
        power: u32,
        min_count: u32,
        noise: &[u32],
        f: &F,
    )
        requires
            is_evaluator(*f),
            all_wf(old(self)@),
            occs@.len() == old(self)@.len(),
            noise@.len() >= noise_before(
                old(self)@,
                split_targets(occs@, target_components as int, power, min_count, *f),
                old(self)@.len() as int,
            ),
            split_by(
                old(self)@,
                occs@,
                target_components as int,
                perturb_factor,
                power,
                min_count,
                noise@,
                *f,
            ) is Some,
        ensures
            split_by(
                old(self)@,
                occs@,
                target_components as int,
                perturb_factor,
                power,
                min_count,
                noise@,
                *f,
            ) == Some(final(self)@),
    {
        let out = self.try_split_by_count(
            occs,
            target_components,
            perturb_factor,
            power,
            min_count,
            noise,
            f,
        ).unwrap();
        *self = out;
    }

    /// Merge mixtures so that they have `target_components` together.
    pub fn merge_by_count<F: Fn(FloatOp) -> u64>(
        &mut self,
        occs: &[u64],
        target_components: usize,
        power: u32,
        min_count: u32,
        f: &F,
    )
        requires
            is_evaluator(*f),
            all_wf(old(self)@),
            occs@.len() == old(self)@.len(),
            merge_by(
                old(self)@,
                occs@,
                target_components as int,
                power,
                min_count,
                *f,
            ) is Some,
        ensures
            merge_by(
                old(self)@,
                occs@,
                target_components as int,
                power,
                min_count,
                *f,
            ) == Some(final(self)@),
    {
        let out = self.try_merge_by_count(occs, target_components, power, min_count, f).unwrap();
        *self = out;
    }

    /// Scale the weights of the listed mixtures. None if a constant is not a number.
    pub fn try_boost_silence<F: Fn(FloatOp) -> u64>(
        &self,
        silence_pdfs: &[PdfId],
        boost: u32,
        f: &F,
    ) -> (r: Option<Self>)
        requires
            is_evaluator(*f),
            all_wf(self@),
            forall|k: int| 0 <= k < silence_pdfs@.len() ==> #[trigger] silence_pdfs@[k] < self@.len(),
        ensures
            gives_all(
                r,
                boosted(self@, silence_pdfs@, silence_pdfs@.len() as int, boost, *f),
            ),
    {
        let mut out = self.clone();
        let n: usize = silence_pdfs.len();
        let mut i: usize = 0;
        while i < n
            invariant
                is_evaluator(*f),
                n == silence_pdfs@.len(),
                i <= n,
                forall|k: int| 0 <= k < n ==> #[trigger] silence_pdfs@[k] < self@.len(),
                out@.len() == self@.len(),
                all_wf(out@),
                boosted(self@, silence_pdfs@, i as int, boost, *f) == Some(out@),
            decreases n - i,
        {
            let k: usize = silence_pdfs[i] as usize;
            let ghost before = out@;
            assert(before[k as int] == out.pdfs@[k as int]@);
            match out.pdfs[k].try_scale_weights(boost, f) {
                Some(m) => {
                    out.pdfs.set(k, m);
                    assert(out@ =~= before.update(k as int, m@));
                },
                None => {
                    proof {
                        boost_failure_stays(self@, silence_pdfs@, i + 1, n as int, boost, *f);
                    }
                    return None;
                },
            }
            i += 1;
        }
        Some(out)
    }

    /// Scale the weights of the listed mixtures, without bringing their sums back to one.
    pub fn boost_silence<F: Fn(FloatOp) -> u64>(
        &mut self,
        silence_pdfs: &[PdfId],
        boost: u32,
        f: &F,
    )
        requires
            is_evaluator(*f),
            all_wf(old(self)@),
            forall|k: int|
                0 <= k < silence_pdfs@.len() ==> #[trigger] silence_pdfs@[k] < old(self)@.len(),
            boosted(old(self)@, silence_pdfs@, silence_pdfs@.len() as int, boost, *f) is Some,
        ensures
            boosted(old(self)@, silence_pdfs@, silence_pdfs@.len() as int, boost, *f) == Some(
                final(self)@,
            ),
    {
        let out = self.try_boost_silence(silence_pdfs, boost, f).unwrap();
        *self = out;
    }
}

/// The infinite constants of the first `n` mixtures together.
pub open spec fn bad_in<F: Fn(FloatOp) -> u64>(am: Seq<GmmView>, n: int, f: F) -> int
    decreases n,
{
    if n <= 0 {
        0
    } else {
        bad_in(am, n - 1, f) + bad_constants(am[n - 1], am[n - 1].weights.len() as int, f)
    }
}

/// The mixtures with their constants recomputed.
pub open spec fn all_with_constants<F: Fn(FloatOp) -> u64>(am: Seq<GmmView>, f: F) -> Option<
    Seq<GmmView>,
> {
    all_of(Seq::new(am.len(), |i: int| with_constants(am[i], f)), am.len() as int)
}

impl AmDiagGmm {
    /// Recompute the constants of all mixtures, and count the infinite ones.
    pub fn compute_gconsts<F: Fn(FloatOp) -> u64>(&mut self, f: &F) -> (r: usize)
        requires
            is_evaluator(*f),
            all_wf(old(self)@),
            gauss_count(old(self)@, old(self)@.len() as int) <= usize::MAX,
            all_with_constants(old(self)@, *f) is Some,
        ensures
            r == bad_in(old(self)@, old(self)@.len() as int, *f),
            all_with_constants(old(self)@, *f) == Some(final(self)@),
    {
        self.try_compute_gconsts(f).unwrap()
    }

    /// Recompute the constants of all mixtures, and count the infinite ones. None, and the mixtures
    /// stay as they are, if one is not a number.
    pub fn try_compute_gconsts<F: Fn(FloatOp) -> u64>(&mut self, f: &F) -> (r: Option<usize>)
        requires
            is_evaluator(*f),
            all_wf(old(self)@),
            gauss_count(old(self)@, old(self)@.len() as int) <= usize::MAX,
        ensures
            r is Some == all_with_constants(old(self)@, *f) is Some,
            r is None ==> final(self)@ == old(self)@,
            r matches Some(bad) ==> bad == bad_in(old(self)@, old(self)@.len() as int, *f)
                && all_with_constants(old(self)@, *f) == Some(final(self)@),
    {
        let ghost am = self@;
        let ghost results = Seq::new(am.len(), |i: int| with_constants(am[i], *f));
        let n: usize = self.pdfs.len();
        let mut out = AmDiagGmm { pdfs: Vec::new() };
        assert(out@ =~= seq![]);
        let mut bad: usize = 0;
        let mut i: usize = 0;
        while i < n
            invariant
                is_evaluator(*f),
                am == self@,
                *self == *old(self),
                all_wf(am),
                n == am.len(),
                n == self.pdfs@.len(),
                i <= n,
                gauss_count(am, n as int) <= usize::MAX,
                results == Seq::new(am.len(), |i: int| with_constants(am[i], *f)),
                all_of(results, i as int) == Some(out@),
                bad == bad_in(am, i as int, *f),
                bad <= gauss_count(am, i as int),
            decreases n - i,
        {
            let ghost before = out@;
            let mut m = self.pdfs[i].clone();
            proof {
                assert(am[i as int] == self.pdfs@[i as int]@);
                gauss_count_grows(am, i + 1, n as int);
                bad_is_bounded(am[i as int], am[i as int].weights.len() as int, *f);
            }
            match m.try_compute_gconsts(f) {
                Some(b) => {
                    bad += b;
                    out.pdfs.push(m);
                    assert(out@ =~= before.push(m@));
                },
                None => {
                    proof {
                        assert(all_of(results, i + 1) is None);
                        missing_stays(results, i + 1, n as int);
                    }
                    return None;
                },
            }
            i += 1;
        }
        *self = out;
        Some(bad)
    }
}

proof fn bad_is_bounded<F: Fn(FloatOp) -> u64>(m: GmmView, n: int, f: F)
    requires
        0 <= n,
    ensures
        0 <= bad_constants(m, n, f) <= n,
    decreases n,
{
    if n > 0 {
        bad_is_bounded(m, n - 1, f);
    }
}

} // verus!
