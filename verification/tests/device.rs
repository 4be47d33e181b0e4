use faer::linalg::matmul::matmul;
use faer::{Accum, MatMut, MatRef, Par};
use rand::rngs::StdRng;
use rand::{RngExt, SeedableRng};
use viter::device::accum::{accumulate_batch, add_loglikes, add_totals, fits_device, scatter, Totals};
use viter::device::fmllr::{build_batches, read_sums, weigh_frames};
use viter::device::groups::{
    check_pdfs, chunk_batch, count_frames, div_ceil, group, job_groups, padded_width, ScoreJob,
};
use viter::device::jobs::{
    dispatch, ensure_scratch, lay_out, scratch_capacity, split_scores, Capacity,
};
use viter::device::plan::plan;
use viter::device::score::{
    expand_feats, flatten, gather_pdfs, gemm_abt, logsumexp, pack_single, pad_rows_into, pad_u32,
    score_batch, score_batch_sel, score_components, segmented_logsumexp,
};
use viter::float::FloatOp;
use viter::gmm::accum::AccumAmDiagGmm;
use viter::gmm::am::AmDiagGmm;
use viter::gmm::diag::DiagGmm;
use viter::gmm::flags::GmmFlags;
use viter::gmm::matrix::Matrix;
use viter::types::PdfId;

fn single(x: f32) -> u64 {
    x.to_bits() as u64
}

fn ieee(op: FloatOp) -> u64 {
    let s = f32::from_bits;
    let d = f64::from_bits;
    match op {
        FloatOp::Add(a, b) => single(s(a) + s(b)),
        FloatOp::Sub(a, b) => single(s(a) - s(b)),
        FloatOp::Mul(a, b) => single(s(a) * s(b)),
        FloatOp::Div(a, b) => single(s(a) / s(b)),
        FloatOp::Ln(a) => single(s(a).ln()),
        FloatOp::Exp(a) => single(s(a).exp()),
        FloatOp::Pow(a, b) => single(s(a).powf(s(b))),
        FloatOp::Sqrt(a) => single(s(a).sqrt()),
        FloatOp::Round(a) => single(s(a).round()),
        FloatOp::Sin(a) => single(s(a).sin()),
        FloatOp::Cos(a) => single(s(a).cos()),
        FloatOp::Trunc(a) => s(a) as u64,
        FloatOp::SqrtWide(a) => d(a).sqrt().to_bits(),
        FloatOp::SinWide(a) => d(a).sin().to_bits(),
        FloatOp::CosWide(a) => d(a).cos().to_bits(),
        FloatOp::PowWide(a, b) => d(a).powf(d(b)).to_bits(),
        FloatOp::RoundWide(a) => d(a).round().to_bits(),
        FloatOp::TruncWide(a) => d(a) as u64,
        FloatOp::TruncSigned(a) => d(a) as i64 as u64,
        FloatOp::Count(n) => single(n as f32),
        FloatOp::Widen(a) => (s(a) as f64).to_bits(),
        FloatOp::Narrow(a) => single(d(a) as f32),
        FloatOp::AddWide(a, b) => (d(a) + d(b)).to_bits(),
        FloatOp::SubWide(a, b) => (d(a) - d(b)).to_bits(),
        FloatOp::MulWide(a, b) => (d(a) * d(b)).to_bits(),
        FloatOp::DivWide(a, b) => (d(a) / d(b)).to_bits(),
        FloatOp::LnWide(a) => d(a).ln().to_bits(),
        FloatOp::ExpWide(a) => d(a).exp().to_bits(),
        FloatOp::CountWide(n) => (n as f64).to_bits(),
    }
}

fn b(v: &[f32]) -> Vec<u32> {
    v.iter().map(|x| x.to_bits()).collect()
}

fn f(x: u32) -> f32 {
    f32::from_bits(x)
}

fn d(x: u64) -> f64 {
    f64::from_bits(x)
}

fn floats(v: &[u32]) -> Vec<f32> {
    v.iter().map(|x| f(*x)).collect()
}

fn matrix(cols: usize, rows: &[&[f32]]) -> Matrix {
    Matrix { cols, rows: rows.iter().map(|r| b(r)).collect() }
}

fn at(m: &Matrix, i: usize, j: usize) -> f32 {
    f(m.at(i, j))
}

fn gemm(a: Vec<u32>, m: usize, z: Vec<u32>, n: usize, k: usize) -> Vec<u32> {
    let mut c = vec![0.0f32; m * n];
    if m > 0 && n > 0 && k > 0 {
        let (a, b) = (a.into_iter().map(f).collect::<Vec<f32>>(), z.into_iter().map(f).collect::<Vec<f32>>());
        let a_ref: MatRef<'_, f32> = MatRef::from_row_major_slice(&a, m, k);
        let b_ref: MatRef<'_, f32> = MatRef::from_row_major_slice(&b, n, k);
        let c_mut: MatMut<'_, f32> = MatMut::from_row_major_slice_mut(&mut c, m, n);
        matmul(c_mut, Accum::Replace, a_ref, b_ref.transpose(), 1.0f32, Par::Seq);
    }
    c.into_iter().map(f32::to_bits).collect()
}

fn random_am(pdfs: usize, dim: usize, rng: &mut StdRng) -> AmDiagGmm {
    let mut am = AmDiagGmm::new();
    for p in 0..pdfs {
        let n = 1 + p % 4;
        let weights: Vec<f32> = (0..n).map(|_| rng.random_range(0.2..1.0f32)).collect();
        let sum: f32 = weights.iter().sum();
        let mut rows = |lo: f32, hi: f32| -> Vec<Vec<u32>> {
            (0..n)
                .map(|_| (0..dim).map(|_| rng.random_range(lo..hi).to_bits()).collect())
                .collect()
        };
        let means = rows(-1.0, 1.0);
        let vars = rows(0.5, 2.0);
        let mut g = DiagGmm {
            weights: weights.iter().map(|w| (w / sum).to_bits()).collect(),
            means_invvars: Matrix { cols: dim, rows: means },
            inv_vars: Matrix { cols: dim, rows: vars },
            gconsts: vec![0; n],
        };
        g.compute_gconsts(&ieee);
        am.add_pdf(g);
    }
    am
}

fn close(a: f64, z: f64, tol: f64) -> bool {
    (a - z).abs() <= tol * a.abs().max(z.abs()).max(1.0)
}

fn random_feats(n: usize, dim: usize, rng: &mut StdRng) -> Matrix {
    let rows = (0..n)
        .map(|_| (0..dim).map(|_| rng.random_range(-1.0..1.0f32).to_bits()).collect())
        .collect();
    Matrix { cols: dim, rows }
}

#[test]
fn weights_scale_the_stats() {
    let mut rng = StdRng::seed_from_u64(11);
    let (dim, pdfs) = (5usize, 4usize);
    let am = random_am(pdfs, dim, &mut rng);
    let x = vec![random_feats(10, dim, &mut rng)];
    let ali: Vec<Vec<PdfId>> = vec![(0..10).map(|i| (i % pdfs) as PdfId).collect()];
    let w = Some(vec![vec![0.5f32.to_bits(); 10]]);
    let mut a = AccumAmDiagGmm::new(&am, GmmFlags::all());
    accumulate_batch(&x, &ali, &w, &am, &mut a, &ieee);
    let mut z = AccumAmDiagGmm::new(&am, GmmFlags::all());
    accumulate_batch(&x, &ali, &None, &am, &mut z, &ieee);
    for p in 0..pdfs {
        for g in 0..a.accs[p].num_gauss() {
            assert!(close(d(a.accs[p].occupancy[g]) * 2.0, d(z.accs[p].occupancy[g]), 1e-6));
        }
    }
    assert!(close(d(a.total_frames) * 2.0, d(z.total_frames), 1e-9));
}

#[test]
fn empty_batch_is_a_noop() {
    let mut rng = StdRng::seed_from_u64(3);
    let am = random_am(3, 4, &mut rng);
    let mut a = AccumAmDiagGmm::new(&am, GmmFlags::all());
    let ll = accumulate_batch(&vec![], &vec![], &None, &am, &mut a, &ieee);
    assert_eq!(d(ll), 0.0);
    assert_eq!(d(a.total_frames), 0.0);
}

#[test]
fn expand_builds_one_x_xsq() {
    let e = expand_feats(&matrix(2, &[&[2.0, 3.0]]), &ieee);
    assert_eq!(e, b(&[1.0, 2.0, 3.0, 4.0, 9.0]));
}

#[test]
fn gemm_abt_matches_naive() {
    let a = matrix(3, &[&[1.0, 2.0, 3.0], &[4.0, 5.0, 6.0]]);
    let z = matrix(3, &[&[1.0, 0.0, -1.0], &[2.0, 2.0, 2.0]]);
    let c = flatten(&gemm_abt(&a, &z, &gemm));
    assert!((f(c[0]) + 2.0).abs() < 1e-6);
    assert!((f(c[1]) - 12.0).abs() < 1e-6);
    assert!((f(c[2]) + 2.0).abs() < 1e-6);
    assert!((f(c[3]) - 30.0).abs() < 1e-6);
}

#[test]
fn logsumexp_stable_for_large_values() {
    let r = f(logsumexp(&b(&[1000.0, 1000.0]), &ieee));
    assert!((r - (1000.0 + std::f32::consts::LN_2)).abs() < 1e-2);
}

#[test]
fn logsumexp_empty_is_neg_inf() {
    assert_eq!(f(logsumexp(&[], &ieee)), f32::NEG_INFINITY);
}

#[test]
fn segmented_reduces_ranges() {
    let comp = b(&[0.0, 0.0, 5.0, 1.0, 1.0, 2.0]);
    let out = segmented_logsumexp(&comp, 2, 3, &vec![(0, 2), (2, 3)], &ieee);
    assert_eq!((out.nrows(), out.ncols()), (2, 2));
    assert!((at(&out, 0, 0) - std::f32::consts::LN_2).abs() < 1e-5);
    assert!((at(&out, 0, 1) - 5.0).abs() < 1e-5);
    assert!((at(&out, 1, 0) - (1.0 + std::f32::consts::LN_2)).abs() < 1e-5);
    assert!((at(&out, 1, 1) - 2.0).abs() < 1e-5);
}

#[test]
fn gather_compacts_requested_pdfs_only() {
    let rows = matrix(2, &[&[1.0, 0.0], &[2.0, 0.0], &[3.0, 0.0], &[4.0, 0.0]]);
    let offsets = vec![0u32, 1, 3, 4];
    let (g, w, bounds) = gather_pdfs(&rows, &offsets, &[2, 0]);
    assert_eq!(w, 2);
    assert_eq!(bounds, vec![(0, 1), (1, 2)]);
    assert_eq!(f(g[0]), 4.0);
    assert_eq!(f(g[2]), 1.0);
}

#[test]
fn div_ceil_rounds_up_and_never_zero() {
    assert_eq!(div_ceil(0, 16), 1);
    assert_eq!(div_ceil(1, 16), 1);
    assert_eq!(div_ceil(16, 16), 1);
    assert_eq!(div_ceil(17, 16), 2);
}

#[test]
fn padding_never_yields_empty() {
    assert_eq!(pad_u32(&[]).len(), 1);
    assert_eq!(pad_u32(&b(&[1.0, 2.0])).len(), 2);
}

#[test]
fn pad_rows_zero_fills_to_multiple_of_four() {
    let mut out = Vec::new();
    pad_rows_into(&mut out, &b(&[1.0, 2.0, 3.0, 4.0, 5.0, 6.0]), 2, 3, 4);
    assert_eq!(out, b(&[1.0, 2.0, 3.0, 0.0, 4.0, 5.0, 6.0, 0.0]));
    assert_eq!(padded_width(81), 84);
    assert_eq!(padded_width(80), 80);
}

fn toy_gmm() -> DiagGmm {
    DiagGmm {
        weights: b(&[0.5, 0.5]),
        means_invvars: matrix(2, &[&[1.0, 2.0], &[-1.0, 0.5]]),
        inv_vars: matrix(2, &[&[1.0, 2.0], &[0.5, 0.25]]),
        gconsts: b(&[-2.0, -3.0]),
    }
}

fn reference_component_ll(gmm: &DiagGmm, g: usize, x: &[f32]) -> f32 {
    let mut ll = f(gmm.gconsts[g]);
    for (k, &v) in x.iter().enumerate() {
        ll += at(&gmm.means_invvars, g, k) * v - 0.5 * at(&gmm.inv_vars, g, k) * v * v;
    }
    ll
}

#[test]
fn pack_single_layout_is_gconst_meaninvvar_neg_half_invvar() {
    let p = floats(&pack_single(&toy_gmm(), &ieee));
    assert_eq!(p.len(), 2 * 5);
    assert_eq!(&p[0..5], &[-2.0, 1.0, 2.0, -0.5, -1.0]);
    assert_eq!(&p[5..10], &[-3.0, -1.0, 0.5, -0.25, -0.125]);
}

#[test]
fn score_components_matches_direct_evaluation() {
    let gmm = toy_gmm();
    let frames: [&[f32]; 3] = [&[0.5, -1.0], &[2.0, 3.0], &[0.0, 0.0]];
    let got = score_components(&matrix(2, &frames), &gmm, &ieee, &gemm);
    assert_eq!((got.nrows(), got.ncols()), (3, 2));
    for (t, x) in frames.iter().enumerate() {
        for g in 0..2 {
            let want = reference_component_ll(&gmm, g, x);
            assert!((at(&got, t, g) - want).abs() <= 1e-4 * want.abs().max(1.0));
        }
    }
}

#[test]
fn score_components_empty_frames() {
    let got = score_components(&matrix(2, &[]), &toy_gmm(), &ieee, &gemm);
    assert_eq!((got.nrows(), got.ncols()), (0, 2));
}

#[test]
fn gemm_abt_matches_manual_product() {
    let a = matrix(2, &[&[1.0, 2.0], &[3.0, 4.0]]);
    let z = matrix(2, &[&[1.0, 1.0], &[0.0, -1.0], &[2.0, 0.0]]);
    let c = gemm_abt(&a, &z, &gemm);
    assert_eq!((c.nrows(), c.ncols()), (2, 3));
    assert!((at(&c, 0, 0) - 3.0).abs() < 1e-6);
    assert!((at(&c, 0, 1) + 2.0).abs() < 1e-6);
    assert!((at(&c, 0, 2) - 2.0).abs() < 1e-6);
    assert!((at(&c, 1, 0) - 7.0).abs() < 1e-6);
    assert!((at(&c, 1, 1) + 4.0).abs() < 1e-6);
    assert!((at(&c, 1, 2) - 6.0).abs() < 1e-6);
}

#[test]
fn batches_are_scored_by_utterance() {
    let mut rng = StdRng::seed_from_u64(5);
    let am = random_am(3, 4, &mut rng);
    let x = vec![random_feats(3, 4, &mut rng), random_feats(2, 4, &mut rng)];
    let packed = am.packed(&ieee);
    let sels: Vec<Vec<PdfId>> = vec![vec![2, 0], vec![1]];
    let got = score_batch_sel(&x, &packed, &sels, &ieee, &gemm);
    for (u, m) in got.iter().enumerate() {
        assert_eq!((m.nrows(), m.ncols()), (x[u].nrows(), sels[u].len()));
        for t in 0..m.nrows() {
            for (j, p) in sels[u].iter().enumerate() {
                let want = f(am.log_likelihood(*p, &x[u].rows[t], &ieee));
                assert!((at(m, t, j) - want).abs() < 1e-3);
            }
        }
    }
    let shared = score_batch(&x, &packed, &vec![2, 0], &ieee, &gemm);
    assert_eq!(shared[0].rows, got[0].rows);
    assert_eq!(shared[1].ncols(), 2);
}

#[test]
fn groups_stay_below_their_limit() {
    let g = group(&vec![(3, 1), (3, 1), (9, 1), (1, 1)], 8);
    assert_eq!(g.first().unwrap().0, 0);
    assert_eq!(g.last().unwrap().1, 4);
    assert!(g.windows(2).all(|w| w[0].1 == w[1].0));
    let two = || matrix(1, &[&[0.0], &[0.0]]);
    let feats = vec![two(), two(), two()];
    let c = chunk_batch(&feats, &vec![vec![0; 2], vec![0; 9], vec![0; 2]], 4, 64);
    assert_eq!(c, vec![(0, 1), (1, 2), (2, 3)]);
    let c = chunk_batch(&feats, &vec![vec![0], vec![0; 9], vec![0]], 4, 96);
    assert_eq!(c, vec![(0, 2), (2, 3)]);
    let c = chunk_batch(&feats, &vec![vec![], vec![0; 9], vec![0]], 4, 96);
    assert_eq!(c, vec![(0, 3)]);
    assert_eq!(count_frames(&feats, &vec![vec![], vec![0; 9], vec![0]]), vec![0, 2, 1]);
    assert!(check_pdfs(&[0, 2], 3));
    assert!(!check_pdfs(&[3], 3));
    assert!(fits_device(40));
}

fn job(frames: usize, padded: usize, sel: &[u32]) -> ScoreJob {
    ScoreJob { expanded: vec![7; frames * padded], frames, sel: sel.to_vec() }
}

#[test]
fn jobs_are_laid_out_one_after_the_other() {
    let jobs = vec![job(2, 4, &[5, 6]), job(1, 4, &[7])];
    let l = lay_out(&jobs, 4);
    assert_eq!(l.sel, vec![5, 6, 7]);
    assert_eq!(l.scores, 5);
    assert_eq!(l.records.len(), 2);
    assert_eq!((l.records[1].frames, l.records[1].sel_len), (1, 1));
    assert_eq!(l.records[1].sel_off, 2);
    assert_eq!(l.records[1].out_off, 4);
    let m = split_scores(&jobs, &b(&[1.0, 2.0, 3.0, 4.0, 5.0]));
    assert_eq!(m[0].rows, vec![b(&[1.0, 2.0]), b(&[3.0, 4.0])]);
    assert_eq!(m[1].rows, vec![b(&[5.0])]);
    let g = job_groups(&jobs, 4, 1 << 20, 65535);
    assert_eq!(g, vec![(0, 2)]);
}

#[test]
fn work_is_dispatched_in_blocks() {
    assert_eq!(dispatch(33, 17), Some((2, 2)));
    assert_eq!(dispatch(0, 17), None);
    let need = Capacity { feats: 10, sel: 1, jobs: 1, scores: 4 };
    let got = ensure_scratch(None, need).unwrap();
    assert!(got.feats >= 10 && got.scores >= 4);
    assert!(ensure_scratch(Some(got), need).is_none());
    assert!(scratch_capacity(None, 100).unwrap() >= 100);
    assert_eq!(scratch_capacity(Some(200), 100), None);
}

#[test]
fn plans_bucket_frames_by_pdf() {
    let x = vec![matrix(1, &[&[1.0], &[2.0], &[3.0]])];
    let ali: Vec<Vec<PdfId>> = vec![vec![1, 0, 1]];
    let p = plan(&x, &ali, &None, &vec![0, 1, 3], 1);
    assert_eq!(p.frames, 3);
    assert_eq!(p.frame_pdf, vec![1, 0, 1]);
    assert_eq!(p.post_len, 5);
    assert_eq!(p.active.len(), 3);
}

#[test]
fn sums_go_where_the_plan_says() {
    let mut rng = StdRng::seed_from_u64(1);
    let am = random_am(2, 1, &mut rng);
    let x = vec![matrix(1, &[&[1.0]])];
    let ali: Vec<Vec<PdfId>> = vec![vec![0]];
    let p = plan(&x, &ali, &None, &am.packed(&ieee).offsets, 1);
    let mut acc = AccumAmDiagGmm::new(&am, GmmFlags::all());
    scatter(&mut acc, &p, &b(&[1.0, 2.0, 4.0]), 1, &ieee);
    assert_eq!(d(acc.accs[0].occupancy[0]), 1.0);
    assert_eq!(d(acc.accs[0].mean_accum[0][0]), 2.0);
    assert_eq!(d(acc.accs[0].var_accum[0][0]), 4.0);
    let t = add_loglikes(Totals { loglike: 0, frames: 0 }, &b(&[-3.0]), &b(&[0.5]), &ieee);
    add_totals(&mut acc, t, &ieee);
    assert_eq!(d(acc.total_frames), 0.5);
}

#[test]
fn speaker_frames_are_batched_without_those_of_no_weight() {
    let x = vec![matrix(1, &[&[1.0], &[2.0], &[3.0]])];
    let ali: Vec<Vec<PdfId>> = vec![vec![4, 5, 6]];
    let w = vec![b(&[1.0, 0.0, 0.5])];
    let batches = build_batches(&x, &ali, &w, 1, 4, 4, &ieee);
    assert_eq!(batches.len(), 1);
    assert_eq!(batches[0].frames, 2);
    assert_eq!(batches[0].pdfs, vec![4, 6]);
    assert_eq!(batches[0].weights, b(&[1.0, 0.5]));
}

#[test]
fn speaker_sums_are_symmetric() {
    let dim = 2usize;
    let frames = 1usize;
    let n = frames + dim * (dim + 1) + dim * (dim + 1) * (dim + 1);
    let all: Vec<u32> = (0..n).map(|i| (i as f32).to_bits()).collect();
    let s = read_sums(&all, frames, dim, &ieee);
    for i in 0..dim {
        for r in 0..=dim {
            for c in 0..=dim {
                assert_eq!(s.g[i][r][c], s.g[i][c][r]);
            }
        }
    }
}

#[test]
fn frames_are_weighed_by_their_posteriors() {
    let am = AmDiagGmm { pdfs: vec![toy_gmm(), toy_gmm()] };
    let feats = vec![matrix(2, &[&[0.3, -0.2], &[1.0, 0.5], &[0.0, 0.0]]), matrix(2, &[&[0.3, -0.2]])];
    let pdfs = vec![vec![1, 0, 1], vec![0, 1]];
    let weights = vec![b(&[1.0, 0.0, 0.25]), b(&[0.5, 1.0])];
    let got = weigh_frames(&feats, &pdfs, &weights, &am, 2, &ieee);
    assert_eq!(got.iter().map(|w| w.pdf).collect::<Vec<_>>(), vec![1, 1, 0]);
    assert_eq!(floats(&got[1].x), vec![0.0, 0.0]);
    let sum = |k: usize| floats(&got[k].posteriors).iter().sum::<f32>();
    assert!((sum(0) - 1.0).abs() < 1e-6);
    assert!((sum(1) - 0.25).abs() < 1e-6);
    assert!((sum(2) - 0.5).abs() < 1e-6);
    let (whole, half) = (floats(&got[0].posteriors), floats(&got[2].posteriors));
    assert!(whole.iter().zip(&half).all(|(a, z)| (a * 0.5 - z).abs() < 1e-7));
    let a = reference_component_ll(&toy_gmm(), 0, &[0.3, -0.2]).exp();
    let z = reference_component_ll(&toy_gmm(), 1, &[0.3, -0.2]).exp();
    assert!((whole[0] - a / (a + z)).abs() < 1e-6);
}
