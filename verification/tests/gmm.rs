use rand::RngExt;
use rand_xoshiro::rand_core::SeedableRng;
use rand_xoshiro::Xoshiro256PlusPlus;
use viter::float::FloatOp;
use viter::gmm::accum::{AccumAmDiagGmm, AccumDiagGmm};
use viter::gmm::am::AmDiagGmm;
use viter::gmm::diag::DiagGmm;
use viter::gmm::flags::GmmFlags;
use viter::gmm::matrix::Matrix;
use viter::gmm::mixing::{apply_soft_max, log_sum_exp, rand_gauss, sum_of, GmmError};
use viter::gmm::mle::{
    ismooth_stats_am_diag_gmm_from_model, mle_am_diag_gmm_update, mle_diag_gmm_update,
    mle_diag_gmm_update_detailed, try_mle_update, MleDiagGmmOptions,
};
use viter::gmm::packed::PackedGmm;
use viter::gmm::targets::get_split_targets;

fn single(x: f32) -> u64 {
    x.to_bits() as u64
}

fn ieee(op: FloatOp) -> u64 {
    let s = f32::from_bits;
    let d = f64::from_bits;
    match op {
        FloatOp::Add(a, b) => single(s(a) + s(b)),
        FloatOp::Sub(a, b) => single(s(a) - s(b)),
        FloatOp::Mul(a, b) => single(s(a) * s(b)),
        FloatOp::Div(a, b) => single(s(a) / s(b)),
        FloatOp::Ln(a) => single(s(a).ln()),
        FloatOp::Exp(a) => single(s(a).exp()),
        FloatOp::Pow(a, b) => single(s(a).powf(s(b))),
        FloatOp::Sqrt(a) => single(s(a).sqrt()),
        FloatOp::Round(a) => single(s(a).round()),
        FloatOp::Sin(a) => single(s(a).sin()),
        FloatOp::Cos(a) => single(s(a).cos()),
        FloatOp::Trunc(a) => s(a) as u64,
        FloatOp::SqrtWide(a) => d(a).sqrt().to_bits(),
        FloatOp::SinWide(a) => d(a).sin().to_bits(),
        FloatOp::CosWide(a) => d(a).cos().to_bits(),
        FloatOp::PowWide(a, b) => d(a).powf(d(b)).to_bits(),
        FloatOp::RoundWide(a) => d(a).round().to_bits(),
        FloatOp::TruncWide(a) => d(a) as u64,
        FloatOp::TruncSigned(a) => d(a) as i64 as u64,
        FloatOp::Count(n) => single(n as f32),
        FloatOp::Widen(a) => (s(a) as f64).to_bits(),
        FloatOp::Narrow(a) => single(d(a) as f32),
        FloatOp::AddWide(a, b) => (d(a) + d(b)).to_bits(),
        FloatOp::SubWide(a, b) => (d(a) - d(b)).to_bits(),
        FloatOp::MulWide(a, b) => (d(a) * d(b)).to_bits(),
        FloatOp::DivWide(a, b) => (d(a) / d(b)).to_bits(),
        FloatOp::LnWide(a) => d(a).ln().to_bits(),
        FloatOp::ExpWide(a) => d(a).exp().to_bits(),
        FloatOp::CountWide(n) => (n as f64).to_bits(),
    }
}

fn b(v: &[f32]) -> Vec<u32> {
    v.iter().map(|x| x.to_bits()).collect()
}

fn wide(v: &[f64]) -> Vec<u64> {
    v.iter().map(|x| x.to_bits()).collect()
}

fn f(x: u32) -> f32 {
    f32::from_bits(x)
}

fn d(x: u64) -> f64 {
    f64::from_bits(x)
}

fn matrix(rows: &[&[f32]]) -> Matrix {
    Matrix { cols: rows[0].len(), rows: rows.iter().map(|r| b(r)).collect() }
}

fn at(m: &Matrix, i: usize, j: usize) -> f32 {
    f(m.at(i, j))
}

fn mixture(means: &[&[f32]], vars: &[&[f32]], weights: &[f32]) -> DiagGmm {
    let mut g = DiagGmm::new(means.len(), means[0].len(), &ieee);
    g.set_means_and_vars(&matrix(means), &matrix(vars), &ieee);
    g.weights = b(weights);
    g.compute_gconsts(&ieee);
    g
}

fn gmm() -> DiagGmm {
    mixture(&[&[0.0, 0.0], &[4.0, 4.0]], &[&[1.0, 1.0], &[1.0, 1.0]], &[0.5, 0.5])
}

fn proto() -> DiagGmm {
    mixture(
        &[&[0.0, 1.0, 2.0], &[3.0, -1.0, 0.5]],
        &[&[1.0, 2.0, 0.5], &[0.25, 1.0, 4.0]],
        &[0.4, 0.6],
    )
}

fn two_component() -> DiagGmm {
    mixture(
        &[&[0.0, 1.0, 2.0], &[3.0, -1.0, 0.5]],
        &[&[1.0, 2.0, 0.5], &[0.25, 1.0, 4.0]],
        &[0.3, 0.7],
    )
}

fn one(mean: &[f32], var: &[f32]) -> DiagGmm {
    DiagGmm::from_single_gaussian(&b(mean), &b(var), &ieee)
}

fn rng(seed: u64) -> Xoshiro256PlusPlus {
    Xoshiro256PlusPlus::seed_from_u64(seed)
}

fn gauss(rng: &mut Xoshiro256PlusPlus) -> f32 {
    let u1: f64 = rng.random();
    let u2: f64 = rng.random();
    f(rand_gauss(u1.to_bits(), u2.to_bits(), &ieee))
}

fn noise(n: usize, rng: &mut Xoshiro256PlusPlus) -> Vec<u32> {
    (0..n).map(|_| gauss(rng).to_bits()).collect()
}

fn split(g: &mut DiagGmm, target: usize, perturb: f32, rng: &mut Xoshiro256PlusPlus) {
    let n = noise((target - g.num_gauss()) * g.dim(), rng);
    g.split(target, perturb.to_bits(), &n, &ieee);
}

fn loglike(g: &DiagGmm, x: &[f32]) -> f32 {
    f(g.log_likelihood(&b(x), &ieee))
}

fn am_loglike(am: &AmDiagGmm, p: u32, x: &[f32]) -> f32 {
    f(am.log_likelihood(p, &b(x), &ieee))
}

fn post(acc: &mut AccumDiagGmm, x: &[f32], p: &[f32]) {
    acc.accumulate_from_posteriors(&b(x), &b(p), &ieee);
}

#[test]
fn accumulate_from_posteriors_sums_moments() {
    let mut acc = AccumDiagGmm::new(2, 2, GmmFlags::all());
    post(&mut acc, &[1.0, 2.0], &[0.25, 0.75]);
    post(&mut acc, &[3.0, 4.0], &[0.5, 0.5]);
    assert!((d(acc.occupancy[0]) - 0.75).abs() < 1e-12);
    assert!((d(acc.occupancy[1]) - 1.25).abs() < 1e-12);
    assert!((d(acc.mean_accum[0][0]) - 1.75).abs() < 1e-12);
    assert!((d(acc.var_accum[0][0]) - 4.75).abs() < 1e-12);
    assert!((d(acc.occupancy_sum(&ieee)) - 2.0).abs() < 1e-12);
}

#[test]
fn means_only_flags_skip_variance_storage() {
    let acc = AccumDiagGmm::new(3, 4, GmmFlags::means());
    assert_eq!(acc.mean_accum.len(), 3);
    assert!(acc.mean_accum.iter().all(|r| r.len() == 4));
    assert_eq!(acc.var_accum.len(), 0);
    assert_eq!(acc.dim(), 4);
    assert_eq!(acc.num_gauss(), 3);
}

#[test]
fn accumulate_from_diag_returns_loglike_and_weights_posteriors() {
    let g = gmm();
    let mut acc = AccumDiagGmm::new(2, 2, GmmFlags::all());
    let x = [0.0f32, 0.0];
    let ll = f(acc.accumulate_from_diag(&g, &b(&x), 2.0f32.to_bits(), &ieee));
    assert!((ll - loglike(&g, &x)).abs() < 1e-5);
    assert!((d(acc.occupancy_sum(&ieee)) - 2.0).abs() < 1e-4);
    assert!(d(acc.occupancy[0]) > d(acc.occupancy[1]));
}

#[test]
fn add_and_scale_are_linear() {
    let mut a = AccumDiagGmm::new(2, 2, GmmFlags::all());
    post(&mut a, &[1.0, 1.0], &[1.0, 0.0]);
    let c = a.clone();
    a.add(&c, 2.0f64.to_bits(), &ieee);
    assert!((d(a.occupancy[0]) - 3.0).abs() < 1e-12);
    assert!((d(a.mean_accum[0][0]) - 3.0).abs() < 1e-12);
    a.scale(0.5f64.to_bits(), &ieee);
    assert!((d(a.occupancy[0]) - 1.5).abs() < 1e-12);
    assert!((d(a.mean_accum[0][0]) - 1.5).abs() < 1e-12);
}

#[test]
fn set_zero_clears_selected_stats() {
    let mut a = AccumDiagGmm::new(2, 2, GmmFlags::all());
    post(&mut a, &[1.0, 1.0], &[1.0, 1.0]);
    a.set_zero(GmmFlags::variances());
    assert_eq!(d(a.var_accum[0][0]), 0.0);
    assert!(d(a.occupancy[0]) > 0.0);
    assert!(d(a.mean_accum[0][0]) > 0.0);
}

#[test]
fn smooth_with_model_adds_tau_counts_matching_the_model() {
    let g = gmm();
    let mut acc = AccumDiagGmm::new(2, 2, GmmFlags::all());
    acc.smooth_with_model(10.0f64.to_bits(), &g, &ieee);
    let means = g.means(&ieee);
    for c in 0..2 {
        assert!((d(acc.occupancy[c]) - 10.0).abs() < 1e-9);
        let mean = d(acc.mean_accum[c][0]) / d(acc.occupancy[c]);
        let var = d(acc.var_accum[c][0]) / d(acc.occupancy[c]) - mean * mean;
        let want_mean = at(&means, c, 0) as f64;
        assert!((mean - want_mean).abs() < 1e-5, "mean {mean} vs {want_mean}");
        assert!((var - 1.0).abs() < 1e-4, "var {var}");
    }
}

#[test]
fn smooth_stats_scales_to_tau_plus_occ() {
    let mut acc = AccumDiagGmm::new(1, 1, GmmFlags::all());
    post(&mut acc, &[2.0], &[4.0]);
    acc.smooth_stats(4.0f64.to_bits(), &ieee);
    assert!((d(acc.occupancy[0]) - 8.0).abs() < 1e-12);
    assert!((d(acc.mean_accum[0][0]) / d(acc.occupancy[0]) - 2.0).abs() < 1e-12);
}

#[test]
fn am_accum_tracks_totals_and_pdf_occupancies() {
    let am = AmDiagGmm::init(&gmm(), 3);
    let mut acc = AccumAmDiagGmm::new(&am, GmmFlags::all());
    assert_eq!(acc.num_accs(), 3);
    acc.accumulate_for_gmm(&am, 0, &b(&[0.0, 0.0]), 1.0f32.to_bits(), &ieee);
    acc.accumulate_for_gmm(&am, 2, &b(&[4.0, 4.0]), 1.0f32.to_bits(), &ieee);
    let occs: Vec<f64> = acc.pdf_occupancies(&ieee).into_iter().map(d).collect();
    assert!((occs[0] - 1.0).abs() < 1e-4);
    assert!((occs[1]).abs() < 1e-12);
    assert!((occs[2] - 1.0).abs() < 1e-4);
    assert!((d(acc.total_frames) - 2.0).abs() < 1e-12);
    assert!(d(acc.total_loglike) < 0.0);
}

#[test]
fn am_accum_add_is_linear() {
    let am = AmDiagGmm::init(&gmm(), 2);
    let mut a = AccumAmDiagGmm::new(&am, GmmFlags::all());
    a.accumulate_for_gmm(&am, 0, &b(&[0.0, 0.0]), 1.0f32.to_bits(), &ieee);
    let c = a.clone();
    a.add(&c, 1.0f64.to_bits(), &ieee);
    assert!((d(a.total_frames) - 2.0).abs() < 1e-12);
    assert!((d(a.pdf_occupancies(&ieee)[0]) - 2.0).abs() < 1e-4);
}

#[test]
fn twofeats_takes_posteriors_from_first_stream_stats_from_second() {
    let am = AmDiagGmm::init(&gmm(), 1);
    let mut acc = AccumAmDiagGmm::new(&am, GmmFlags::all());
    acc.accumulate_for_gmm_twofeats(
        &am,
        0,
        &b(&[0.0, 0.0]),
        &b(&[7.0, 7.0]),
        1.0f32.to_bits(),
        &ieee,
    );
    let a = &acc.accs[0];
    assert!(d(a.occupancy[0]) > 0.99);
    assert!((d(a.mean_accum[0][0]) / d(a.occupancy[0]) - 7.0).abs() < 1e-3);
}

#[test]
fn init_replicates_proto() {
    let am = AmDiagGmm::init(&proto(), 5);
    assert_eq!(am.num_pdfs(), 5);
    assert_eq!(am.dim(), 3);
    assert_eq!(am.num_gauss(), 10);
    let x = [0.5f32, 0.5, 0.5];
    let ll0 = am_loglike(&am, 0, &x);
    for p in 1..5 {
        assert!((am_loglike(&am, p, &x) - ll0).abs() < 1e-6);
    }
}

#[test]
fn packed_layout_reproduces_component_loglikes() {
    let am = AmDiagGmm::init(&proto(), 3);
    let packed = am.packed(&ieee);
    assert_eq!((packed.rows.nrows(), packed.rows.ncols()), (6, 7));
    assert_eq!(packed.offsets, vec![0, 2, 4, 6]);

    let x = [0.25f32, -1.5, 2.0];
    let frame = PackedGmm::frame_row(&b(&x), &ieee);
    assert_eq!(frame.len(), 7);

    for p in 0..3u32 {
        let (start, end) = packed.pdf_range(p);
        let mut lls = Vec::new();
        for r in start..end {
            let mut acc = 0.0f32;
            for k in 0..7 {
                acc += f(frame[k]) * at(&packed.rows, r, k);
            }
            lls.push(acc);
        }
        let want = am.pdf(p).component_log_likes(&b(&x), &ieee);
        for (a, z) in lls.iter().zip(want.iter()) {
            assert!((a - f(*z)).abs() < 1e-4, "{a} vs {z}");
        }
        let got = f(log_sum_exp(&b(&lls), &ieee));
        assert!((got - am_loglike(&am, p, &x)).abs() < 1e-4);
    }
}

#[test]
fn packed_tracks_ragged_pdfs() {
    let mut r = rng(2);
    let mut am = AmDiagGmm::init(&proto(), 3);
    split(am.pdf_mut(1), 5, 0.01, &mut r);
    let packed = am.packed(&ieee);
    assert_eq!(packed.offsets, vec![0, 2, 7, 9]);
    assert_eq!(packed.rows.nrows(), 9);
    assert_eq!(packed.num_pdfs(), 3);
}

#[test]
fn boost_silence_raises_silence_likelihood_by_log_boost() {
    let mut am = AmDiagGmm::init(&proto(), 3);
    let x = [0.1f32, 0.2, 0.3];
    let before = am_loglike(&am, 0, &x);
    let other_before = am_loglike(&am, 1, &x);
    am.boost_silence(&[0], 1.25f32.to_bits(), &ieee);
    let after = am_loglike(&am, 0, &x);
    assert!((after - (before + 1.25f32.ln())).abs() < 1e-4);
    assert!((am_loglike(&am, 1, &x) - other_before).abs() < 1e-6);
    am.boost_silence(&[0], (1.0f32 / 1.25).to_bits(), &ieee);
    assert!((am_loglike(&am, 0, &x) - before).abs() < 1e-4);
}

fn split_by_count(am: &mut AmDiagGmm, occs: &[f64], target: usize, perturb: f32, r: &mut Xoshiro256PlusPlus) {
    let n = noise(target * am.dim(), r);
    am.split_by_count(
        &wide(occs),
        target,
        perturb.to_bits(),
        0.25f32.to_bits(),
        0.0f32.to_bits(),
        &n,
        &ieee,
    );
}

#[test]
fn split_by_count_hits_the_target() {
    let mut r = rng(9);
    let mut am = AmDiagGmm::init(&one(&[0.0; 3], &[1.0; 3]), 4);
    assert_eq!(am.num_gauss(), 4);
    split_by_count(&mut am, &[100.0, 200.0, 400.0, 800.0], 16, 0.01, &mut r);
    assert_eq!(am.num_gauss(), 16);
    assert!(am.pdf(3).num_gauss() >= am.pdf(0).num_gauss());
}

#[test]
fn merge_by_count_reduces_to_target() {
    let mut r = rng(4);
    let mut am = AmDiagGmm::init(&one(&[0.0; 3], &[1.0; 3]), 4);
    let occs = [100.0, 200.0, 400.0, 800.0];
    split_by_count(&mut am, &occs, 32, 0.05, &mut r);
    assert_eq!(am.num_gauss(), 32);
    am.merge_by_count(&wide(&occs), 12, 0.25f32.to_bits(), 0.0f32.to_bits(), &ieee);
    assert_eq!(am.num_gauss(), 12);
}

#[test]
fn merge_by_count_never_goes_below_one_per_pdf() {
    let mut am = AmDiagGmm::init(&proto(), 4);
    am.merge_by_count(
        &wide(&[1.0, 1.0, 1.0, 1.0]),
        1,
        0.25f32.to_bits(),
        0.0f32.to_bits(),
        &ieee,
    );
    assert_eq!(am.num_gauss(), 4);
    for p in 0..4 {
        assert_eq!(am.pdf(p).num_gauss(), 1);
    }
}

fn naive_loglike(g: &DiagGmm, x: &[f32]) -> f64 {
    let means = g.means(&ieee);
    let vars = g.vars(&ieee);
    let mut total = 0.0f64;
    for i in 0..g.num_gauss() {
        let mut lp = (f(g.weights[i]) as f64).ln();
        for k in 0..g.dim() {
            let v = at(&vars, i, k) as f64;
            let diff = x[k] as f64 - at(&means, i, k) as f64;
            lp += -0.5 * (2.0 * std::f64::consts::PI * v).ln() - 0.5 * diff * diff / v;
        }
        total += lp.exp();
    }
    total.ln()
}

#[test]
fn roundtrip_means_and_vars() {
    let g = two_component();
    let means = g.means(&ieee);
    let vars = g.vars(&ieee);
    assert!((at(&means, 0, 1) - 1.0).abs() < 1e-6);
    assert!((at(&means, 1, 0) - 3.0).abs() < 1e-6);
    assert!((at(&vars, 0, 2) - 0.5).abs() < 1e-6);
    assert!((at(&vars, 1, 2) - 4.0).abs() < 1e-6);
}

#[test]
fn loglike_matches_textbook_formula() {
    let g = two_component();
    for x in [vec![0.0f32, 0.0, 0.0], vec![1.0, 2.0, 3.0], vec![-2.5, 0.75, 1.25]] {
        let got = loglike(&g, &x) as f64;
        let want = naive_loglike(&g, &x);
        assert!((got - want).abs() < 1e-4, "got {got}, want {want}");
    }
}

#[test]
fn gconst_is_loglike_at_zero() {
    let g = two_component();
    let lls = g.component_log_likes(&b(&[0.0, 0.0, 0.0]), &ieee);
    for i in 0..g.num_gauss() {
        assert!((f(lls[i]) - f(g.gconsts[i])).abs() < 1e-6);
    }
}

#[test]
fn zero_weight_gives_bad_gconst() {
    let mut g = two_component();
    g.weights[0] = 0.0f32.to_bits();
    let num_bad = g.compute_gconsts(&ieee);
    assert_eq!(num_bad, 1);
    assert_eq!(f(g.gconsts[0]), f32::NEG_INFINITY);
    assert!(loglike(&g, &[0.0, 0.0, 0.0]).is_finite());
}

#[test]
fn posteriors_sum_to_one_and_return_loglike() {
    let g = two_component();
    let x = [0.5f32, 0.25, -1.0];
    let (post, ll) = g.component_posteriors(&b(&x), &ieee);
    assert_eq!(post.len(), 2);
    assert!((post.iter().map(|p| f(*p)).sum::<f32>() - 1.0).abs() < 1e-5);
    assert!((f(ll) - loglike(&g, &x)).abs() < 1e-5);
}

#[test]
fn single_gaussian_posterior_is_one() {
    let g = one(&[1.0, 2.0], &[1.0, 3.0]);
    let (post, _) = g.component_posteriors(&b(&[0.0, 0.0]), &ieee);
    assert!((f(post[0]) - 1.0).abs() < 1e-6);
}

fn weight_sum(g: &DiagGmm) -> f32 {
    f(g.weight_sum(&ieee))
}

#[test]
fn split_doubles_components_and_preserves_weight_mass() {
    let mut r = rng(11);
    let mut g = two_component();
    let before = weight_sum(&g);
    split(&mut g, 4, 0.01, &mut r);
    assert_eq!(g.num_gauss(), 4);
    assert!((weight_sum(&g) - before).abs() < 1e-5);
    let vars = g.vars(&ieee);
    assert!(
        (at(&vars, 0, 0) - at(&vars, 2, 0)).abs() < 1e-5
            || (at(&vars, 1, 0) - at(&vars, 2, 0)).abs() < 1e-5
    );
}

#[test]
fn split_with_zero_perturb_gives_identical_twins() {
    let mut r = rng(3);
    let mut g = two_component();
    split(&mut g, 3, 0.0, &mut r);
    assert_eq!(g.num_gauss(), 3);
    assert!((f(g.weights[1]) - 0.35).abs() < 1e-6);
    assert!((f(g.weights[2]) - 0.35).abs() < 1e-6);
    let m1 = g.component_mean(1, &ieee);
    let m2 = g.component_mean(2, &ieee);
    for k in 0..3 {
        assert!((f(m1[k]) - f(m2[k])).abs() < 1e-5);
    }
}

#[test]
fn split_to_same_size_is_a_noop() {
    let mut r = rng(1);
    let mut g = two_component();
    let w = g.weights.clone();
    split(&mut g, 2, 0.1, &mut r);
    assert_eq!(g.weights, w);
}

#[test]
fn scale_weights_shifts_gconsts_by_log_factor() {
    let mut g = two_component();
    let before = g.gconsts.clone();
    g.scale_weights(2.0f32.to_bits(), &ieee);
    let shift = 2.0f32.ln();
    for i in 0..g.num_gauss() {
        assert!((f(g.gconsts[i]) - (f(before[i]) + shift)).abs() < 1e-5);
    }
    assert!((weight_sum(&g) - 2.0).abs() < 1e-5);
}

fn global_mean(g: &DiagGmm) -> Vec<f32> {
    let means = g.means(&ieee);
    let mut out = vec![0.0f32; g.dim()];
    for i in 0..g.num_gauss() {
        for k in 0..g.dim() {
            out[k] += f(g.weights[i]) * at(&means, i, k);
        }
    }
    let wsum: f32 = weight_sum(g);
    for v in out.iter_mut() {
        *v /= wsum;
    }
    out
}

#[test]
fn merge_to_one_preserves_global_mean_and_variance() {
    let g = two_component();
    let want_mean = global_mean(&g);
    let means = g.means(&ieee);
    let vars = g.vars(&ieee);
    let mut want_second = vec![0.0f32; g.dim()];
    for i in 0..g.num_gauss() {
        for k in 0..g.dim() {
            let m = at(&means, i, k);
            want_second[k] += f(g.weights[i]) * (at(&vars, i, k) + m * m);
        }
    }
    let mut merged = g.clone();
    merged.merge(1, &ieee);
    assert_eq!(merged.num_gauss(), 1);
    let got_mean = merged.component_mean(0, &ieee);
    let got_var = merged.vars(&ieee);
    for k in 0..3 {
        assert!((f(got_mean[k]) - want_mean[k]).abs() < 1e-4, "mean dim {k}");
        let want_var = want_second[k] - want_mean[k] * want_mean[k];
        assert!((at(&got_var, 0, k) - want_var).abs() < 1e-3, "var dim {k}");
    }
}

#[test]
fn merge_reduces_count_and_conserves_weight() {
    let mut r = rng(5);
    let mut g = two_component();
    split(&mut g, 8, 0.05, &mut r);
    assert_eq!(g.num_gauss(), 8);
    let before = weight_sum(&g);
    g.merge(3, &ieee);
    assert_eq!(g.num_gauss(), 3);
    assert!((weight_sum(&g) - 1.0).abs() < 1e-4);
    assert!((before - 1.0).abs() < 1e-4);
}

#[test]
fn merge_prefers_merging_near_identical_components() {
    let mut g = mixture(
        &[&[0.0], &[0.001], &[50.0]],
        &[&[1.0], &[1.0], &[1.0]],
        &[1.0 / 3.0, 1.0 / 3.0, 1.0 / 3.0],
    );
    g.merge(2, &ieee);
    assert_eq!(g.num_gauss(), 2);
    let mut ms: Vec<f32> = (0..2).map(|i| f(g.component_mean(i, &ieee)[0])).collect();
    ms.sort_by(|a, z| a.partial_cmp(z).unwrap());
    assert!(ms[0].abs() < 0.1, "fused component near 0, got {}", ms[0]);
    assert!((ms[1] - 50.0).abs() < 0.1, "isolated component, got {}", ms[1]);
}

#[test]
fn merge_to_same_size_is_a_noop() {
    let mut g = two_component();
    let w = g.weights.clone();
    g.merge(2, &ieee);
    assert_eq!(g.weights, w);
}

fn start_gmm() -> DiagGmm {
    mixture(&[&[-1.0], &[1.0]], &[&[1.0], &[1.0]], &[0.5, 0.5])
}

fn opts() -> MleDiagGmmOptions {
    MleDiagGmmOptions {
        min_gaussian_occupancy: 1.0f64.to_bits(),
        min_variance: 1e-6f64.to_bits(),
        ..Default::default()
    }
}

#[test]
fn update_recovers_the_generating_gaussian() {
    let mut g = one(&[0.0], &[1.0]);
    let mut acc = AccumDiagGmm::from_gmm(&g, GmmFlags::all());
    let mut r = rng(21);
    let n = 4000;
    let (mut sum, mut sumsq) = (0.0f64, 0.0f64);
    for _ in 0..n {
        let x = 5.0 + 2.0 * gauss(&mut r);
        sum += x as f64;
        sumsq += (x as f64) * (x as f64);
        post(&mut acc, &[x], &[1.0]);
    }
    let (_objf, count) = mle_diag_gmm_update(&opts(), &acc, GmmFlags::all(), &mut g, &ieee);
    assert!((d(count) - n as f64).abs() < 1e-6);
    let want_mean = sum / n as f64;
    let want_var = sumsq / n as f64 - want_mean * want_mean;
    assert!((at(&g.means(&ieee), 0, 0) as f64 - want_mean).abs() < 1e-3);
    assert!((at(&g.vars(&ieee), 0, 0) as f64 - want_var).abs() < 1e-2);
    assert!((f(g.weights[0]) - 1.0).abs() < 1e-5);
}

#[test]
fn update_increases_the_objective() {
    let mut g = start_gmm();
    let mut acc = AccumDiagGmm::from_gmm(&g, GmmFlags::all());
    let mut r = rng(33);
    for _ in 0..2000 {
        let centre = if r.random_bool(0.5) { -4.0 } else { 4.0 };
        let x = centre + gauss(&mut r);
        acc.accumulate_from_diag(&g, &b(&[x]), 1.0f32.to_bits(), &ieee);
    }
    let (objf_change, count) = mle_diag_gmm_update(&opts(), &acc, GmmFlags::all(), &mut g, &ieee);
    assert!(d(count) > 1999.0 && d(count) < 2001.0);
    assert!(d(objf_change) > 0.0);
    let means = g.means(&ieee);
    let mut ms = [at(&means, 0, 0), at(&means, 1, 0)];
    ms.sort_by(|a, z| a.partial_cmp(z).unwrap());
    assert!((ms[0] + 4.0).abs() < 0.3, "{ms:?}");
    assert!((ms[1] - 4.0).abs() < 0.3, "{ms:?}");
}

#[test]
fn weights_become_normalised_occupancies() {
    let mut g = start_gmm();
    let mut acc = AccumDiagGmm::from_gmm(&g, GmmFlags::all());
    for _ in 0..30 {
        post(&mut acc, &[-1.0], &[1.0, 0.0]);
    }
    for _ in 0..10 {
        post(&mut acc, &[1.0], &[0.0, 1.0]);
    }
    mle_diag_gmm_update(&opts(), &acc, GmmFlags::all(), &mut g, &ieee);
    assert!((f(g.weights[0]) - 0.75).abs() < 1e-5);
    assert!((f(g.weights[1]) - 0.25).abs() < 1e-5);
}

#[test]
fn variance_floor_is_applied() {
    let mut g = one(&[0.0], &[1.0]);
    let mut acc = AccumDiagGmm::from_gmm(&g, GmmFlags::all());
    for _ in 0..100 {
        post(&mut acc, &[2.0], &[1.0]);
    }
    let o = MleDiagGmmOptions {
        min_gaussian_occupancy: 1.0f64.to_bits(),
        min_variance: 0.01f64.to_bits(),
        ..Default::default()
    };
    let s = mle_diag_gmm_update_detailed(&o, &acc, GmmFlags::all(), &mut g, &ieee);
    assert_eq!(s.floored_elements, 1);
    assert_eq!(s.floored_gaussians, 1);
    assert!((at(&g.vars(&ieee), 0, 0) - 0.01).abs() < 1e-6);
    assert!((at(&g.means(&ieee), 0, 0) - 2.0).abs() < 1e-5);
}

fn starved() -> (DiagGmm, AccumDiagGmm) {
    let g = start_gmm();
    let mut acc = AccumDiagGmm::from_gmm(&g, GmmFlags::all());
    for _ in 0..100 {
        post(&mut acc, &[-1.0], &[1.0, 0.0]);
    }
    post(&mut acc, &[1.0], &[0.0, 0.001]);
    (g, acc)
}

#[test]
fn low_count_gaussian_is_removed() {
    let (mut g, acc) = starved();
    let s = mle_diag_gmm_update_detailed(&opts(), &acc, GmmFlags::all(), &mut g, &ieee);
    assert_eq!(s.removed_gaussians, 1);
    assert_eq!(g.num_gauss(), 1);
    assert!((f(g.weights[0]) - 1.0).abs() < 1e-5);
}

#[test]
fn low_count_gaussian_is_kept_when_removal_disabled() {
    let (mut g, acc) = starved();
    let o = MleDiagGmmOptions {
        min_gaussian_occupancy: 1.0f64.to_bits(),
        min_variance: 1e-6f64.to_bits(),
        remove_low_count_gaussians: false,
        ..Default::default()
    };
    let s = mle_diag_gmm_update_detailed(&o, &acc, GmmFlags::all(), &mut g, &ieee);
    assert_eq!(s.removed_gaussians, 0);
    assert_eq!(g.num_gauss(), 2);
    assert!(f(g.weights[1]) >= d(o.min_gaussian_weight) as f32);
}

#[test]
fn last_gaussian_is_never_removed() {
    let mut g = one(&[0.0], &[1.0]);
    let mut acc = AccumDiagGmm::from_gmm(&g, GmmFlags::all());
    post(&mut acc, &[1.0], &[0.0001]);
    let s = mle_diag_gmm_update_detailed(&opts(), &acc, GmmFlags::all(), &mut g, &ieee);
    assert_eq!(s.removed_gaussians, 0);
    assert_eq!(g.num_gauss(), 1);
}

#[test]
fn variance_only_update_leaves_means_alone() {
    let mut g = one(&[0.0], &[1.0]);
    let mut acc = AccumDiagGmm::from_gmm(&g, GmmFlags::all());
    let mut r = rng(8);
    for _ in 0..2000 {
        let x = 5.0 + 2.0 * gauss(&mut r);
        post(&mut acc, &[x], &[1.0]);
    }
    let flags = GmmFlags::variances() | GmmFlags::weights();
    mle_diag_gmm_update(&opts(), &acc, flags, &mut g, &ieee);
    assert!(at(&g.means(&ieee), 0, 0).abs() < 1e-5);
    let v = at(&g.vars(&ieee), 0, 0) as f64;
    assert!((v - 29.0).abs() < 1.5, "variance {v}");
}

#[test]
fn am_update_sums_over_pdfs() {
    let mut am = AmDiagGmm::init(&start_gmm(), 3);
    let mut acc = AccumAmDiagGmm::new(&am, GmmFlags::all());
    let mut r = rng(12);
    for p in 0..3u32 {
        let centre = p as f32 * 6.0;
        for _ in 0..500 {
            let x = centre + gauss(&mut r);
            acc.accumulate_for_gmm(&am, p, &b(&[x]), 1.0f32.to_bits(), &ieee);
        }
    }
    let (objf, count) = mle_am_diag_gmm_update(&opts(), &acc, GmmFlags::all(), &mut am, &ieee);
    assert!((d(count) - 1500.0).abs() < 1.0);
    assert!(d(objf) > 0.0);
    for p in 0..3u32 {
        let means = am.pdf(p).means(&ieee);
        let centre = p as f32 * 6.0;
        let close = (0..am.pdf(p).num_gauss()).any(|g| (at(&means, g, 0) - centre).abs() < 1.0);
        assert!(close, "pdf {p} did not move to {centre}");
    }
}

#[test]
fn ismoothing_pulls_a_starved_pdf_back_to_the_model() {
    let am = AmDiagGmm::init(&one(&[3.0], &[2.0]), 2);
    let mut acc = AccumAmDiagGmm::new(&am, GmmFlags::all());
    acc.accumulate_for_gmm(&am, 1, &b(&[-20.0]), 1.0f32.to_bits(), &ieee);
    ismooth_stats_am_diag_gmm_from_model(&am, 100.0f64.to_bits(), &mut acc, &ieee);

    let a0 = &acc.accs[0];
    assert!((d(a0.occupancy[0]) - 100.0).abs() < 1e-9);
    assert!((d(a0.mean_accum[0][0]) / d(a0.occupancy[0]) - 3.0).abs() < 1e-4);

    let a1 = &acc.accs[1];
    let mean1 = d(a1.mean_accum[0][0]) / d(a1.occupancy[0]);
    assert!(mean1 > 2.5 && mean1 < 3.0, "smoothed mean {mean1}");
}

#[test]
fn update_with_no_data_uses_uniform_prob() {
    let mut g = start_gmm();
    let acc = AccumDiagGmm::from_gmm(&g, GmmFlags::all());
    let s = mle_diag_gmm_update_detailed(&opts(), &acc, GmmFlags::all(), &mut g, &ieee);
    assert_eq!(d(s.count), 0.0);
    assert_eq!(g.num_gauss(), 1);
}

#[test]
fn update_without_a_constant_gives_nothing() {
    let g = mixture(&[&[0.0]], &[&[1.0]], &[1.0]);
    let mut acc = AccumDiagGmm::from_gmm(&g, GmmFlags::all());
    post(&mut acc, &[f32::NAN], &[100.0]);
    assert!(try_mle_update(&opts(), &acc, GmmFlags::all(), &g, &ieee).is_none());
}

#[test]
fn log_sum_exp_matches_naive() {
    let x = [-1.0f32, 0.5, 2.25, -3.0];
    let naive = x.iter().map(|&v| (v as f64).exp()).sum::<f64>().ln() as f32;
    assert!((f(log_sum_exp(&b(&x), &ieee)) - naive).abs() < 1e-5);
}

#[test]
fn log_sum_exp_handles_all_neg_inf() {
    assert_eq!(f(log_sum_exp(&b(&[f32::NEG_INFINITY; 3]), &ieee)), f32::NEG_INFINITY);
    assert_eq!(f(log_sum_exp(&[], &ieee)), f32::NEG_INFINITY);
}

#[test]
fn soft_max_normalises_and_returns_logsumexp() {
    let mut x = b(&[1.0f32, 2.0, 3.0]);
    let expected = f(log_sum_exp(&x, &ieee));
    let got = f(apply_soft_max(&mut x, &ieee));
    assert!((got - expected).abs() < 1e-5);
    let x: Vec<f32> = x.into_iter().map(f).collect();
    assert!((x.iter().sum::<f32>() - 1.0).abs() < 1e-5);
    assert!(x[2] > x[1] && x[1] > x[0]);
}

#[test]
fn rand_gauss_is_roughly_standard_normal() {
    let mut r = rng(7);
    let n = 20_000;
    let mut sum = 0.0f64;
    let mut sumsq = 0.0f64;
    for _ in 0..n {
        let g = gauss(&mut r) as f64;
        assert!(g.is_finite());
        sum += g;
        sumsq += g * g;
    }
    let mean = sum / n as f64;
    let var = sumsq / n as f64 - mean * mean;
    assert!(mean.abs() < 0.05, "mean {mean}");
    assert!((var - 1.0).abs() < 0.1, "var {var}");
}

fn targets(occs: &[f64], target: usize, power: f32, min_count: f32) -> Vec<usize> {
    get_split_targets(&wide(occs), target, power.to_bits(), min_count.to_bits(), &ieee)
}

#[test]
fn split_targets_floor_of_one_per_pdf() {
    assert_eq!(targets(&[10.0, 20.0, 30.0], 2, 0.25, 0.0), vec![1, 1, 1]);
}

#[test]
fn split_targets_sum_to_target_and_favour_high_occupancy() {
    let t = targets(&[1.0, 10.0, 100.0], 12, 1.0, 0.0);
    assert_eq!(t.iter().sum::<usize>(), 12);
    assert!(t[2] >= t[1] && t[1] >= t[0]);
}

#[test]
fn split_targets_respect_min_count() {
    assert_eq!(targets(&[100.0, 100.0], 10, 1.0, 50.0), vec![1, 1]);
}

#[test]
fn split_targets_power_zero_spreads_evenly() {
    assert_eq!(targets(&[1.0, 1000.0, 1_000_000.0], 6, 0.0, 0.0), vec![2, 2, 2]);
}

#[test]
fn errors_say_what_is_wrong() {
    let e = GmmError::DimMismatch { expected: 3, got: 4 };
    assert_eq!(e.to_string(), "dimension mismatch: expected 3, got 4");
    let e = GmmError::BadSplit { from: 4, to: 2 };
    assert_eq!(e.to_string(), "cannot split from 4 to 2 components");
    let e = GmmError::BadMerge { target: 4, num_gauss: 2 };
    assert_eq!(e.to_string(), "invalid target number of Gaussians (4), #Gauss = 2");
    assert_eq!(f(sum_of(&b(&[1.0, 2.5]), &ieee)), 3.5);
}

#[test]
fn constants_of_all_mixtures_are_recomputed() {
    let mut am = AmDiagGmm::init(&two_component(), 2);
    am.pdfs[1].weights[0] = 0.0f32.to_bits();
    let before = am.pdfs[0].gconsts.clone();
    assert_eq!(am.compute_gconsts(&ieee), 1);
    assert_eq!(am.pdfs[0].gconsts, before);
    assert_eq!(f(am.pdfs[1].gconsts[0]), f32::NEG_INFINITY);
    assert_eq!(am.pdfs[1].gconsts[1], before[1]);
}

#[test]
fn split_targets_stop_at_the_least_count() {
    let t = targets(&[100.0, 100.0, 0.0], 20, 1.0, 30.0);
    assert_eq!(t, vec![3, 3, 1]);
    for (n, occ) in t.iter().zip([100.0, 100.0, 0.0]) {
        assert!(*n == 1 || *n as f32 * 30.0 < occ);
        assert!((*n as f32 + 1.0) * 30.0 >= occ);
    }
}
