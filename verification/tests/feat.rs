use rand::RngExt;
use rand_xoshiro::rand_core::SeedableRng;
use rand_xoshiro::Xoshiro256PlusPlus;
use realfft::num_complex::Complex;
use realfft::RealFftPlanner;
use viter::feat::mfcc::{compute_power_spectrum, extract_window, MfccComputer};
use viter::feat::options::{
    first_sample_of_frame, num_frames, round_up_to_nearest_power_of_two, DeltaOptions, MfccOptions,
    WindowType,
};
use viter::feat::transform::{
    add_deltas, apply_cmvn, apply_transform, delta_scales, splice, CmvnStats,
};
use viter::feat::window::{
    dct_matrix, gauss, lifter_coeffs, make_window_function, MelBanks, Warp,
};
use viter::float::FloatOp;
use viter::gmm::matrix::Matrix;

fn single(x: f32) -> u64 {
    x.to_bits() as u64
}

fn ieee(op: FloatOp) -> u64 {
    let s = f32::from_bits;
    let d = f64::from_bits;
    match op {
        FloatOp::Add(a, b) => single(s(a) + s(b)),
        FloatOp::Sub(a, b) => single(s(a) - s(b)),
        FloatOp::Mul(a, b) => single(s(a) * s(b)),
        FloatOp::Div(a, b) => single(s(a) / s(b)),
        FloatOp::Ln(a) => single(s(a).ln()),
        FloatOp::Exp(a) => single(s(a).exp()),
        FloatOp::Pow(a, b) => single(s(a).powf(s(b))),
        FloatOp::Sqrt(a) => single(s(a).sqrt()),
        FloatOp::Round(a) => single(s(a).round()),
        FloatOp::Sin(a) => single(s(a).sin()),
        FloatOp::Cos(a) => single(s(a).cos()),
        FloatOp::Trunc(a) => s(a) as u64,
        FloatOp::SqrtWide(a) => d(a).sqrt().to_bits(),
        FloatOp::SinWide(a) => d(a).sin().to_bits(),
        FloatOp::CosWide(a) => d(a).cos().to_bits(),
        FloatOp::PowWide(a, b) => d(a).powf(d(b)).to_bits(),
        FloatOp::RoundWide(a) => d(a).round().to_bits(),
        FloatOp::TruncWide(a) => d(a) as u64,
        FloatOp::TruncSigned(a) => d(a) as i64 as u64,
        FloatOp::Count(n) => single(n as f32),
        FloatOp::Widen(a) => (s(a) as f64).to_bits(),
        FloatOp::Narrow(a) => single(d(a) as f32),
        FloatOp::AddWide(a, b) => (d(a) + d(b)).to_bits(),
        FloatOp::SubWide(a, b) => (d(a) - d(b)).to_bits(),
        FloatOp::MulWide(a, b) => (d(a) * d(b)).to_bits(),
        FloatOp::DivWide(a, b) => (d(a) / d(b)).to_bits(),
        FloatOp::LnWide(a) => d(a).ln().to_bits(),
        FloatOp::ExpWide(a) => d(a).exp().to_bits(),
        FloatOp::CountWide(n) => (n as f64).to_bits(),
    }
}

fn b(v: &[f32]) -> Vec<u32> {
    v.iter().map(|x| x.to_bits()).collect()
}

fn f(x: u32) -> f32 {
    f32::from_bits(x)
}

fn d(x: u64) -> f64 {
    f64::from_bits(x)
}

fn matrix(cols: usize, rows: &[&[f32]]) -> Matrix {
    Matrix { cols, rows: rows.iter().map(|r| b(r)).collect() }
}

fn filled(n: usize, cols: usize, x: f32) -> Matrix {
    Matrix { cols, rows: vec![vec![x.to_bits(); cols]; n] }
}

fn at(m: &Matrix, i: usize, j: usize) -> f32 {
    f(m.at(i, j))
}

fn shape(m: &Matrix) -> (usize, usize) {
    (m.nrows(), m.ncols())
}

fn all_finite(m: &Matrix) -> bool {
    m.rows.iter().all(|r| r.iter().all(|x| f(*x).is_finite()))
}

fn fft(w: Vec<u32>) -> (Vec<u32>, Vec<u32>) {
    let mut input: Vec<f32> = w.into_iter().map(f).collect();
    let plan = RealFftPlanner::<f32>::new().plan_fft_forward(input.len());
    let mut out: Vec<Complex<f32>> = plan.make_output_vec();
    plan.process(&mut input, &mut out).unwrap();
    (out.iter().map(|c| c.re.to_bits()).collect(), out.iter().map(|c| c.im.to_bits()).collect())
}

fn tone(n: usize, freq: f32) -> Vec<f32> {
    (0..n).map(|i| (2.0 * std::f32::consts::PI * freq * i as f32 / 16_000.0).sin() * 0.5).collect()
}

fn opts() -> MfccOptions {
    MfccOptions::default()
}

fn compute(o: MfccOptions, wave: &[f32]) -> Matrix {
    MfccComputer::new(o, &ieee).compute(&b(wave), &[], &ieee, &fft)
}

#[test]
fn mono_pipeline_yields_39_dims() {
    let wave: Vec<f32> = (0..16_000)
        .map(|i| (2.0 * std::f32::consts::PI * 220.0 * i as f32 / 16_000.0).sin() * 0.3)
        .collect();
    let mut feats = compute(opts(), &wave);
    assert_eq!(shape(&feats), (100, 13));
    let mut stats = CmvnStats::new(13);
    stats.accumulate(&feats, &ieee);
    apply_cmvn(&mut feats, &stats, false, &ieee);
    let with_deltas = add_deltas(&feats, &DeltaOptions::default(), &ieee);
    assert_eq!(shape(&with_deltas), (100, 39));
    assert!(all_finite(&with_deltas));
}

#[test]
fn lda_pipeline_yields_40_dims() {
    let wave: Vec<f32> = (0..16_000)
        .map(|i| (2.0 * std::f32::consts::PI * 300.0 * i as f32 / 16_000.0).sin() * 0.3)
        .collect();
    let mut feats = compute(opts(), &wave);
    let mut stats = CmvnStats::new(13);
    stats.accumulate(&feats, &ieee);
    apply_cmvn(&mut feats, &stats, false, &ieee);
    let spliced = splice(&feats, 3, 3);
    assert_eq!(shape(&spliced), (100, 91));
    let rows: Vec<Vec<u32>> = (0..40)
        .map(|o| (0..91).map(|i| (if i == o { 1.0f32 } else { 0.0 }).to_bits()).collect())
        .collect();
    let lda = Matrix { cols: 91, rows };
    let out = apply_transform(&spliced, &lda, &ieee);
    assert_eq!(shape(&out), (100, 40));
    assert!(all_finite(&out));
}

#[test]
fn num_frames_agrees_with_the_computer() {
    let computer = MfccComputer::new(opts(), &ieee);
    assert_eq!(
        computer.num_frames(16_000, &ieee),
        num_frames(16_000, computer.opts(), &ieee)
    );
    assert_eq!(computer.num_frames(16_000, &ieee), 100);
    assert!((f(computer.frame_shift_s(&ieee)) - 0.01).abs() < 1e-7);
    assert_eq!(computer.dim(), 13);
}

fn feats() -> Matrix {
    matrix(3, &[&[1.0, 2.0, 3.0], &[2.0, 4.0, 6.0], &[3.0, 6.0, 9.0], &[4.0, 8.0, 12.0]])
}

#[test]
fn cmvn_stats_accumulate_and_merge() {
    let x = feats();
    let mut a = CmvnStats::new(3);
    a.accumulate(&x, &ieee);
    assert_eq!(d(a.count), 4.0);
    assert_eq!(d(a.sum[0]), 10.0);
    assert_eq!(d(a.sumsq[0]), 1.0 + 4.0 + 9.0 + 16.0);
    assert_eq!(d(a.mean(&ieee)[1]), 5.0);
    let mut c = CmvnStats::new(3);
    c.accumulate(&x, &ieee);
    a.merge(&c, &ieee);
    assert_eq!(d(a.count), 8.0);
    assert_eq!(d(a.sum[0]), 20.0);
    assert_eq!(d(a.mean(&ieee)[0]), 2.5);
}

fn column(m: &Matrix, j: usize) -> Vec<f32> {
    (0..m.nrows()).map(|i| at(m, i, j)).collect()
}

#[test]
fn cmvn_mean_only_zeroes_the_mean() {
    let mut x = feats();
    let mut s = CmvnStats::new(3);
    s.accumulate(&x, &ieee);
    apply_cmvn(&mut x, &s, false, &ieee);
    for k in 0..3 {
        let col_sum: f32 = column(&x, k).iter().sum();
        assert!(col_sum.abs() < 1e-5, "dim {k}: {col_sum}");
    }
    assert_eq!(shape(&x), (4, 3));
    assert!((at(&x, 0, 0) - (-1.5)).abs() < 1e-6);
}

#[test]
fn cmvn_with_variance_normalises_to_unit_variance() {
    let mut x = feats();
    let mut s = CmvnStats::new(3);
    s.accumulate(&x, &ieee);
    apply_cmvn(&mut x, &s, true, &ieee);
    for k in 0..3 {
        let col = column(&x, k);
        let mean: f32 = col.iter().sum::<f32>() / col.len() as f32;
        let var: f32 = col.iter().map(|v| (v - mean) * (v - mean)).sum::<f32>() / col.len() as f32;
        assert!(mean.abs() < 1e-5, "dim {k} mean {mean}");
        assert!((var - 1.0).abs() < 1e-4, "dim {k} var {var}");
    }
}

#[test]
fn cmvn_weighted_frame_accumulation() {
    let mut s = CmvnStats::new(2);
    s.accumulate_frame(&b(&[1.0, 2.0]), 2.0f64.to_bits(), &ieee);
    s.accumulate_frame(&b(&[3.0, 4.0]), 0.0f64.to_bits(), &ieee);
    assert_eq!(d(s.count), 2.0);
    let sum: Vec<f64> = s.sum.iter().map(|x| d(*x)).collect();
    assert_eq!(sum, vec![2.0, 4.0]);
    let mean: Vec<f64> = s.mean(&ieee).into_iter().map(d).collect();
    assert_eq!(mean, vec![1.0, 2.0]);
}

#[test]
fn delta_scales_are_kaldis_regression_filters() {
    let s: Vec<Vec<f32>> = delta_scales(&DeltaOptions::default(), &ieee)
        .into_iter()
        .map(|v| v.into_iter().map(f).collect())
        .collect();
    assert_eq!(s.len(), 3);
    assert_eq!(s[0], vec![1.0]);
    assert_eq!(s[1].len(), 5);
    for (i, v) in s[1].iter().enumerate() {
        let j = i as f32 - 2.0;
        assert!((v - j / 10.0).abs() < 1e-6, "{i}: {v}");
    }
    assert_eq!(s[2].len(), 9);
    let sum: f32 = s[2].iter().sum();
    assert!(sum.abs() < 1e-6);
    for i in 0..4 {
        assert!((s[2][i] - s[2][8 - i]).abs() < 1e-6);
    }
}

#[test]
fn deltas_of_a_linear_ramp_are_constant() {
    let n = 30;
    let x = Matrix { cols: 1, rows: (0..n).map(|t| vec![(t as f32).to_bits()]).collect() };
    let y = add_deltas(&x, &DeltaOptions::default(), &ieee);
    assert_eq!(shape(&y), (n, 3));
    for t in 6..n - 6 {
        assert!((at(&y, t, 0) - t as f32).abs() < 1e-4);
        assert!((at(&y, t, 1) - 1.0).abs() < 1e-4);
        assert!(at(&y, t, 2).abs() < 1e-4);
    }
}

#[test]
fn deltas_replicate_edges() {
    let x = filled(5, 2, 7.0);
    let y = add_deltas(&x, &DeltaOptions::default(), &ieee);
    assert_eq!(shape(&y), (5, 6));
    for t in 0..5 {
        for k in 2..6 {
            assert!(at(&y, t, k).abs() < 1e-5);
        }
        assert!((at(&y, t, 0) - 7.0).abs() < 1e-6);
    }
}

#[test]
fn deltas_order_zero_is_a_copy() {
    let x = feats();
    let y = add_deltas(&x, &DeltaOptions { order: 0, window: 2 }, &ieee);
    assert_eq!(y.rows, x.rows);
}

#[test]
fn deltas_on_empty_input() {
    let y = add_deltas(&filled(0, 13, 0.0), &DeltaOptions::default(), &ieee);
    assert_eq!(shape(&y), (0, 39));
}

#[test]
fn mfcc_deltas_give_39_dims() {
    let y = add_deltas(&filled(20, 13, 0.0), &DeltaOptions::default(), &ieee);
    assert_eq!(y.ncols(), 39);
}

#[test]
fn splice_repeats_edge_frames() {
    let s = splice(&feats(), 1, 1);
    assert_eq!(shape(&s), (4, 9));
    assert_eq!(s.rows[0], b(&[1.0, 2.0, 3.0, 1.0, 2.0, 3.0, 2.0, 4.0, 6.0]));
    assert_eq!(s.rows[3], b(&[3.0, 6.0, 9.0, 4.0, 8.0, 12.0, 4.0, 8.0, 12.0]));
    assert_eq!(s.rows[1], b(&[1.0, 2.0, 3.0, 2.0, 4.0, 6.0, 3.0, 6.0, 9.0]));
}

#[test]
fn splice_3_3_gives_the_lda_input_dim() {
    let s = splice(&filled(10, 13, 0.0), 3, 3);
    assert_eq!(shape(&s), (10, 91));
}

#[test]
fn splice_zero_context_is_a_copy() {
    assert_eq!(splice(&feats(), 0, 0).rows, feats().rows);
}

#[test]
fn apply_linear_transform() {
    let m = matrix(3, &[&[0.0, 1.0, 0.0], &[1.0, 0.0, 1.0]]);
    let out = apply_transform(&feats(), &m, &ieee);
    assert_eq!(shape(&out), (4, 2));
    assert_eq!(out.rows[0], b(&[2.0, 4.0]));
    assert_eq!(out.rows[3], b(&[8.0, 16.0]));
}

#[test]
fn apply_affine_transform_uses_the_last_column_as_offset() {
    let m = matrix(4, &[&[1.0, 0.0, 0.0, 10.0], &[0.0, 0.0, 1.0, -1.0]]);
    let out = apply_transform(&feats(), &m, &ieee);
    assert_eq!(shape(&out), (4, 2));
    assert_eq!(out.rows[0], b(&[11.0, 2.0]));
    assert_eq!(out.rows[1], b(&[12.0, 5.0]));
}

#[test]
fn apply_identity_transform_is_a_copy() {
    let m = matrix(3, &[&[1.0, 0.0, 0.0], &[0.0, 1.0, 0.0], &[0.0, 0.0, 1.0]]);
    assert_eq!(apply_transform(&feats(), &m, &ieee).rows, feats().rows);
}

#[test]
fn compute_shape_and_finiteness() {
    let x = compute(opts(), &tone(16_000, 440.0));
    assert_eq!(shape(&x), (100, 13));
    assert!(all_finite(&x));
}

#[test]
fn compute_on_empty_and_tiny_input() {
    assert_eq!(shape(&compute(opts(), &[])), (0, 13));
    assert_eq!(shape(&compute(opts(), &tone(50, 440.0))), (0, 13));
    let x = compute(opts(), &tone(100, 440.0));
    assert_eq!(shape(&x), (1, 13));
    assert!(all_finite(&x));
}

#[test]
fn silence_hits_the_epsilon_log_floor_not_negative_infinity() {
    let x = compute(opts(), &vec![0.0f32; 16_000]);
    assert_eq!(shape(&x), (100, 13));
    assert!(all_finite(&x));
    let ln_eps = f32::EPSILON.ln();
    let expected_c0 = ln_eps * 23.0 * (1.0f32 / 23.0).sqrt();
    assert!((at(&x, 0, 0) - expected_c0).abs() < 1e-2, "{}", at(&x, 0, 0));
    for k in 1..13 {
        assert!(at(&x, 0, k).abs() < 1e-2, "c{k} = {}", at(&x, 0, k));
    }
}

#[test]
fn use_energy_replaces_c0() {
    let with = || MfccOptions { use_energy: true, raw_energy: true, ..opts() };
    let wave = tone(16_000, 440.0);
    let x = compute(with(), &wave);
    let y = compute(MfccOptions { use_energy: false, ..with() }, &wave);
    assert!((at(&x, 50, 0) - at(&y, 50, 0)).abs() > 1e-3);
    for k in 1..13 {
        assert!((at(&x, 50, k) - at(&y, 50, k)).abs() < 1e-4);
    }
    assert!(at(&x, 50, 0) > 15.0, "{}", at(&x, 50, 0));
}

#[test]
fn energy_floor_clamps_silence_energy() {
    let o = MfccOptions {
        use_energy: true,
        raw_energy: true,
        energy_floor: 1.0f32.to_bits(),
        ..opts()
    };
    let x = compute(o, &vec![0.0f32; 16_000]);
    assert!(at(&x, 0, 0).abs() < 1e-6, "{}", at(&x, 0, 0));
}

#[test]
fn htk_compat_moves_c0_to_the_end() {
    let wave = tone(16_000, 440.0);
    let plain = compute(opts(), &wave);
    let htk = compute(MfccOptions { htk_compat: true, ..opts() }, &wave);
    for k in 0..12 {
        assert!((at(&htk, 10, k) - at(&plain, 10, k + 1)).abs() < 1e-4);
    }
    let expect = at(&plain, 10, 0) * std::f32::consts::SQRT_2;
    assert!((at(&htk, 10, 12) - expect).abs() < 1e-3);
}

#[test]
fn lifter_scales_the_cepstra() {
    let wave = tone(16_000, 440.0);
    let lifted = compute(opts(), &wave);
    let raw = compute(MfccOptions { cepstral_lifter: 0.0f32.to_bits(), ..opts() }, &wave);
    let coeffs = lifter_coeffs(22.0f32.to_bits(), 13, &ieee);
    for k in 0..13 {
        let expect = at(&raw, 10, k) * f(coeffs[k]);
        assert!((at(&lifted, 10, k) - expect).abs() < 1e-3, "k={k}");
    }
}

#[test]
fn a_tone_produces_a_stable_feature_over_time() {
    let harmonics: Vec<f32> = (1..=40).map(|h| h as f32 * 200.0).collect();
    let wave: Vec<f32> = (0..16_000)
        .map(|i| {
            harmonics
                .iter()
                .map(|h| (2.0 * std::f32::consts::PI * h * i as f32 / 16_000.0).sin() * 0.01)
                .sum()
        })
        .collect();
    let x = compute(opts(), &wave);
    for k in 0..13 {
        let (a, z) = (at(&x, 40, k), at(&x, 60, k));
        assert!((a - z).abs() < 0.5, "k={k}: {a} vs {z}");
    }
}

#[test]
fn short_1khz_tone_matches_kaldi_framing_and_is_deterministic() {
    let num_samples = 400usize;
    let wave: Vec<f32> = (0..num_samples)
        .map(|i| (2.0 * std::f32::consts::PI * 1000.0 * i as f32 / 16_000.0).sin())
        .collect();
    let o = MfccOptions { dither: 0.0f32.to_bits(), ..opts() };
    assert!(!o.snip_edges);
    let shift = o.window_shift(&ieee);
    assert_eq!(shift, 160);
    let c = MfccComputer::new(o, &ieee);
    let x = c.compute(&b(&wave), &[], &ieee, &fft);
    let expect_rows = (num_samples + shift / 2) / shift;
    assert_eq!(expect_rows, 3);
    assert_eq!(shape(&x), (expect_rows, 13));
    for r in 0..expect_rows {
        for k in 0..13 {
            assert!(at(&x, r, k).is_finite());
        }
        assert!(at(&x, r, 0) > 0.0 && at(&x, r, 0) < 200.0, "c0 = {}", at(&x, r, 0));
    }
    assert_eq!(x.rows, c.compute(&b(&wave), &[], &ieee, &fft).rows);
}

#[test]
fn snip_edges_true_drops_the_incomplete_tail() {
    let x = compute(MfccOptions { snip_edges: true, ..opts() }, &tone(16_000, 440.0));
    assert_eq!(shape(&x), (1 + (16_000 - 400) / 160, 13));
}

#[test]
fn dither_is_deterministic() {
    let c = MfccComputer::new(MfccOptions { dither: 1.0f32.to_bits(), ..opts() }, &ieee);
    let wave = b(&tone(16_000, 440.0));
    let mut rng = Xoshiro256PlusPlus::seed_from_u64(0);
    let uniforms: Vec<u32> =
        (0..2 * 100 * 400).map(|_| rng.random::<f32>().to_bits()).collect();
    let a = c.compute(&wave, &uniforms, &ieee, &fft);
    let z = c.compute(&wave, &uniforms, &ieee, &fft);
    assert_eq!(a.rows, z.rows);
    assert!(a.rows != compute(opts(), &tone(16_000, 440.0)).rows);
}

#[test]
fn preemphasis_changes_the_spectrum() {
    let wave = tone(16_000, 440.0);
    let with_pre = compute(opts(), &wave);
    let without = compute(MfccOptions { preemph: 0.0f32.to_bits(), ..opts() }, &wave);
    let diff: f32 = (0..13).map(|k| (at(&with_pre, 50, k) - at(&without, 50, k)).abs()).sum();
    assert!(diff > 1e-2, "preemphasis had no effect: {diff}");
}

#[test]
fn windows_are_reflected_at_the_ends() {
    let wave = b(&[1.0, 2.0, 3.0]);
    assert_eq!(extract_window(&wave, -2, 4), b(&[2.0, 1.0, 1.0, 2.0]));
    assert_eq!(extract_window(&wave, 2, 3), b(&[3.0, 3.0, 2.0]));
}

#[test]
fn power_is_the_squared_length() {
    let p = compute_power_spectrum(&b(&[3.0, 1.0]), &b(&[4.0, 0.0]), &ieee);
    assert_eq!(p, b(&[25.0, 1.0]));
}

#[test]
fn mfa_defaults_match_the_cited_sources() {
    let o = opts();
    assert_eq!(o.sample_rate, 16_000);
    assert_eq!(f(o.frame_length_ms), 25.0);
    assert_eq!(f(o.frame_shift_ms), 10.0);
    assert_eq!(f(o.dither), 0.0);
    assert_eq!(f(o.preemph), 0.97);
    assert!(!o.snip_edges);
    assert!(!o.use_energy);
    assert!(!o.raw_energy);
    assert_eq!(o.num_mel_bins, 23);
    assert_eq!(o.num_ceps, 13);
    assert_eq!(f(o.low_freq), 20.0);
    assert_eq!(f(o.high_freq), 7800.0);
    assert_eq!(f(o.cepstral_lifter), 22.0);
    assert_eq!(o.window, WindowType::Povey);
}

#[test]
fn window_and_padding_sizes() {
    let o = opts();
    assert_eq!(o.window_size(&ieee), 400);
    assert_eq!(o.window_shift(&ieee), 160);
    assert_eq!(o.padded_window_size(&ieee), 512);
    assert!((f(o.frame_shift_s(&ieee)) - 0.01).abs() < 1e-7);
    assert_eq!(round_up_to_nearest_power_of_two(400), 512);
    assert_eq!(round_up_to_nearest_power_of_two(512), 512);
}

#[test]
fn num_frames_snip_edges_true_matches_kaldi_formula() {
    let o = MfccOptions { snip_edges: true, ..opts() };
    assert_eq!(num_frames(399, &o, &ieee), 0);
    assert_eq!(num_frames(400, &o, &ieee), 1);
    assert_eq!(num_frames(559, &o, &ieee), 1);
    assert_eq!(num_frames(560, &o, &ieee), 2);
    assert_eq!(num_frames(16_000, &o, &ieee), 1 + (16_000 - 400) / 160);
}

#[test]
fn no_frames_of_a_short_signal_without_a_shift() {
    let o = MfccOptions { snip_edges: true, frame_shift_ms: 0, ..opts() };
    assert_eq!(num_frames(399, &o, &ieee), 0);
}

#[test]
fn num_frames_snip_edges_false_rounds_to_nearest() {
    let o = opts();
    assert_eq!(num_frames(16_000, &o, &ieee), 100);
    assert_eq!(num_frames(79, &o, &ieee), 0);
    assert_eq!(num_frames(80, &o, &ieee), 1);
    assert_eq!(num_frames(240, &o, &ieee), 2);
}

#[test]
fn first_sample_of_frame_centres_frames_when_not_snipping() {
    let o = opts();
    assert_eq!(first_sample_of_frame(0, &o, &ieee), -120);
    assert_eq!(first_sample_of_frame(1, &o, &ieee), 40);
    let snip = MfccOptions { snip_edges: true, ..opts() };
    assert_eq!(first_sample_of_frame(0, &snip, &ieee), 0);
    assert_eq!(first_sample_of_frame(3, &snip, &ieee), 480);
}

#[test]
fn povey_window_goes_to_zero_at_the_edges() {
    let w = make_window_function(&opts(), &ieee);
    assert_eq!(w.len(), 400);
    assert!(f(w[0]).abs() < 1e-6);
    assert!(f(w[399]).abs() < 1e-6);
    assert!((f(w[199]).max(f(w[200])) - 1.0).abs() < 1e-3);
}

#[test]
fn hamming_window_matches_the_definition() {
    let w = make_window_function(&MfccOptions { window: WindowType::Hamming, ..opts() }, &ieee);
    assert!((f(w[0]) - 0.08).abs() < 1e-5);
    assert!((f(w[399]) - 0.08).abs() < 1e-5);
}

#[test]
fn other_windows_match_their_definitions() {
    let at = |window: WindowType, i: usize| {
        f(make_window_function(&MfccOptions { window, ..opts() }, &ieee)[i])
    };
    assert!(at(WindowType::Hanning, 0).abs() < 1e-6);
    assert!(at(WindowType::Sine, 0).abs() < 1e-6);
    assert_eq!(at(WindowType::Rectangular, 7), 1.0);
    assert!((at(WindowType::Blackman, 200) - 1.0).abs() < 1e-3);
}

#[test]
fn dct_matrix_is_orthonormal_dct_ii() {
    let n = 23;
    let m = dct_matrix(n, n, &ieee);
    let row = |k: usize| -> Vec<f32> { m.rows[k].iter().map(|x| f(*x)).collect() };
    for k in 0..n {
        let norm: f32 = row(k).iter().map(|v| v * v).sum();
        assert!((norm - 1.0).abs() < 1e-4, "row {k} norm {norm}");
    }
    for k in 0..4 {
        for l in (k + 1)..5 {
            let dot: f32 = row(k).iter().zip(row(l).iter()).map(|(a, z)| a * z).sum();
            assert!(dot.abs() < 1e-4, "rows {k},{l} dot {dot}");
        }
    }
    let expect = (1.0f32 / n as f32).sqrt();
    assert!((row(0)[0] - expect).abs() < 1e-6);
}

#[test]
fn lifter_coeffs_match_kaldi() {
    let c = lifter_coeffs(22.0f32.to_bits(), 13, &ieee);
    assert!((f(c[0]) - 1.0).abs() < 1e-6);
    for (i, v) in c.iter().enumerate() {
        let expect = 1.0 + 0.5 * 22.0 * (std::f32::consts::PI * i as f32 / 22.0).sin();
        assert!((f(*v) - expect).abs() < 1e-5);
    }
}

#[test]
fn mel_scale_roundtrip() {
    for x in [20.0f32, 100.0, 1000.0, 4000.0, 7800.0] {
        let mel = MelBanks::mel_scale(x.to_bits(), &ieee);
        let back = f(MelBanks::inverse_mel_scale(mel, &ieee));
        assert!((back - x).abs() < 0.05 * x.max(1.0), "{x} -> {back}");
    }
}

#[test]
fn mel_banks_cover_the_band_and_are_triangular() {
    let o = opts();
    let mb = MelBanks::new(&o, 1.0f32.to_bits(), &ieee);
    assert_eq!(mb.num_bins(), 23);
    for bin in &mb.bins {
        assert!(!bin.weights.is_empty());
        let peak = bin.weights.iter().fold(0.0f32, |m, v| m.max(f(*v)));
        assert!(peak > 0.0 && peak <= 1.0 + 1e-6);
        assert!(bin.first + bin.weights.len() <= o.padded_window_size(&ieee) / 2);
    }
    for i in 1..mb.bins.len() {
        assert!(mb.bins[i].first >= mb.bins[i - 1].first);
    }
}

fn warp(factor: f32) -> Warp {
    Warp {
        low_cutoff: 100.0f32.to_bits(),
        high_cutoff: 7500.0f32.to_bits(),
        low_freq: 20.0f32.to_bits(),
        high_freq: 7800.0f32.to_bits(),
        factor: factor.to_bits(),
    }
}

fn warped(factor: f32, x: f32) -> f32 {
    f(MelBanks::vtln_warp_freq(&warp(factor), x.to_bits(), &ieee))
}

#[test]
fn vtln_warp_is_identity_at_factor_one() {
    for x in [50.0f32, 500.0, 3000.0, 7000.0] {
        let w = warped(1.0, x);
        assert!((w - x).abs() < 1e-3, "{x} -> {w}");
    }
}

#[test]
fn vtln_warp_fixes_the_endpoints() {
    for factor in [0.9f32, 1.1] {
        let lo = warped(factor, 20.0);
        let hi = warped(factor, 7800.0);
        assert!((lo - 20.0).abs() < 1e-2, "{factor}: {lo}");
        assert!((hi - 7800.0).abs() < 1e-1, "{factor}: {hi}");
    }
}

#[test]
fn no_filters_for_an_empty_band() {
    let o = MfccOptions { low_freq: 7900.0f32.to_bits(), ..opts() };
    assert!(MelBanks::try_new(&o, 1.0f32.to_bits(), &ieee).is_none());
    let g = f(gauss(0.5f32.to_bits(), 0.25f32.to_bits(), &ieee));
    assert!(g.abs() < 1e-6);
}
