use rubato::audioadapter_buffers::direct::SequentialSliceOfVecs;
use rubato::{
    Async, FixedAsync, Resampler, SincInterpolationParameters, SincInterpolationType,
    WindowFunction,
};
use viter::audio::{
    downmix, next_step, pcm_samples, resample, slice, snap, Audio, AudioError, PacketEvent,
    PacketStep, Track,
};
use viter::float::FloatOp;

fn single(x: f32) -> u64 {
    x.to_bits() as u64
}

fn ieee(op: FloatOp) -> u64 {
    let s = f32::from_bits;
    let d = f64::from_bits;
    match op {
        FloatOp::Add(a, b) => single(s(a) + s(b)),
        FloatOp::Sub(a, b) => single(s(a) - s(b)),
        FloatOp::Mul(a, b) => single(s(a) * s(b)),
        FloatOp::Div(a, b) => single(s(a) / s(b)),
        FloatOp::Ln(a) => single(s(a).ln()),
        FloatOp::Exp(a) => single(s(a).exp()),
        FloatOp::Pow(a, b) => single(s(a).powf(s(b))),
        FloatOp::Sqrt(a) => single(s(a).sqrt()),
        FloatOp::Round(a) => single(s(a).round()),
        FloatOp::Sin(a) => single(s(a).sin()),
        FloatOp::Cos(a) => single(s(a).cos()),
        FloatOp::Trunc(a) => s(a) as u64,
        FloatOp::SqrtWide(a) => d(a).sqrt().to_bits(),
        FloatOp::SinWide(a) => d(a).sin().to_bits(),
        FloatOp::CosWide(a) => d(a).cos().to_bits(),
        FloatOp::PowWide(a, b) => d(a).powf(d(b)).to_bits(),
        FloatOp::RoundWide(a) => d(a).round().to_bits(),
        FloatOp::TruncWide(a) => d(a) as u64,
        FloatOp::TruncSigned(a) => d(a) as i64 as u64,
        FloatOp::Count(n) => single(n as f32),
        FloatOp::Widen(a) => (s(a) as f64).to_bits(),
        FloatOp::Narrow(a) => single(d(a) as f32),
        FloatOp::AddWide(a, b) => (d(a) + d(b)).to_bits(),
        FloatOp::SubWide(a, b) => (d(a) - d(b)).to_bits(),
        FloatOp::MulWide(a, b) => (d(a) * d(b)).to_bits(),
        FloatOp::DivWide(a, b) => (d(a) / d(b)).to_bits(),
        FloatOp::LnWide(a) => d(a).ln().to_bits(),
        FloatOp::ExpWide(a) => d(a).exp().to_bits(),
        FloatOp::CountWide(n) => (n as f64).to_bits(),
    }
}

fn b(v: &[f32]) -> Vec<u32> {
    v.iter().map(|x| x.to_bits()).collect()
}

fn floats(v: &[u32]) -> Vec<f32> {
    v.iter().map(|x| f32::from_bits(*x)).collect()
}

fn sinc(samples: Vec<u32>, from: u32, to: u32) -> Option<Vec<u32>> {
    let params = SincInterpolationParameters {
        sinc_len: 256,
        f_cutoff: None,
        oversampling_factor: 256,
        interpolation: SincInterpolationType::Cubic,
        window: WindowFunction::BlackmanHarris2,
    };
    let ratio = to as f64 / from as f64;
    let mut r = Async::<f32>::new_sinc(ratio, 1.0, &params, 1024, 1, FixedAsync::Input).ok()?;
    let n = samples.len();
    let data = vec![floats(&samples)];
    let input = SequentialSliceOfVecs::new(&data, 1, n).ok()?;
    let needed = r.process_all_needed_output_len(n);
    let mut out = vec![vec![0.0f32; needed]];
    let mut output = SequentialSliceOfVecs::new_mut(&mut out, 1, needed).ok()?;
    let (_, len) = r.process_all_into_buffer(&input, &mut output, n, None).ok()?;
    let mut v = out.pop()?;
    v.truncate(len);
    Some(b(&v))
}

fn tone(rate: u32, secs: f32, freq: f32) -> Audio {
    let n = (rate as f32 * secs) as usize;
    let samples: Vec<f32> = (0..n)
        .map(|i| (2.0 * std::f32::consts::PI * freq * i as f32 / rate as f32).sin() * 0.5)
        .collect();
    Audio { samples: b(&samples), sample_rate: rate }
}

#[test]
fn resample_same_rate_is_identity() {
    let a = tone(16_000, 0.1, 440.0);
    let z = resample(&a, 16_000, &sinc);
    assert_eq!(a.samples, z.samples);
    assert_eq!(z.sample_rate, 16_000);
}

#[test]
fn resample_changes_length_by_ratio() {
    let a = tone(44_100, 0.5, 440.0);
    let z = resample(&a, 16_000, &sinc);
    assert_eq!(z.sample_rate, 16_000);
    let expected = a.samples.len() as f64 * 16_000.0 / 44_100.0;
    let diff = (z.samples.len() as f64 - expected).abs();
    assert!(diff < 64.0, "len {} vs expected {expected}", z.samples.len());
}

#[test]
fn resample_preserves_a_sine_in_band() {
    let a = tone(48_000, 0.25, 440.0);
    let z = floats(&resample(&a, 16_000, &sinc).samples);
    let skip = 400;
    assert!(z.len() > 2 * skip);
    let peak = z[skip..z.len() - skip].iter().fold(0.0f32, |m, v| m.max(v.abs()));
    assert!((peak - 0.5).abs() < 0.05, "peak {peak}");
}

#[test]
fn what_cannot_be_resampled_stays() {
    let fails = |_: Vec<u32>, _: u32, _: u32| -> Option<Vec<u32>> { None };
    let a = tone(8_000, 0.1, 440.0);
    let z = resample(&a, 16_000, &fails);
    assert_eq!(z, a);
    let silent = Audio { samples: vec![], sample_rate: 8_000 };
    assert_eq!(resample(&silent, 16_000, &sinc).sample_rate, 8_000);
    let no_rate = Audio { samples: b(&[0.5]), sample_rate: 0 };
    assert_eq!(resample(&no_rate, 16_000, &sinc).sample_rate, 16_000);
}

#[test]
fn slice_clamps_and_extracts() {
    let samples: Vec<f32> = (0..100).map(|i| i as f32).collect();
    let a = Audio { samples: b(&samples), sample_rate: 100 };
    let cut = |s: f32, e: f32| slice(&a, s.to_bits(), e.to_bits(), &ieee);
    let s = cut(0.1, 0.2);
    assert_eq!(s.samples.len(), 10);
    assert_eq!(f32::from_bits(s.samples[0]), 10.0);
    assert_eq!(s.sample_rate, 100);
    assert_eq!(cut(0.9, 5.0).samples.len(), 10);
    assert!(cut(0.5, 0.2).samples.is_empty());
    assert_eq!(cut(-1.0, f32::NAN).samples.len(), 0);
}

#[test]
fn duration_of_known_length() {
    let a = tone(16_000, 1.0, 100.0);
    assert!((f32::from_bits(a.duration_s(&ieee)) - 1.0).abs() < 1e-6);
    assert!(!a.is_empty());
    let none = Audio { samples: vec![], sample_rate: 0 };
    assert_eq!(f32::from_bits(none.duration_s(&ieee)), 0.0);
    assert!(none.is_empty());
}

#[test]
fn samples_become_16_bit_values() {
    let a = Audio { samples: b(&[0.5, 1.0, -1.0, -2.0, 0.0, f32::NAN]), sample_rate: 1 };
    assert_eq!(pcm_samples(&a, &ieee), vec![16384, 32767, -32768, -32768, 0, 0]);
    let t = tone(16_000, 0.05, 1000.0);
    for (x, y) in floats(&t.samples).iter().zip(pcm_samples(&t, &ieee)) {
        assert!((x - y as f32 / 32768.0).abs() < 1.0 / 32768.0 + 1e-7);
    }
}

#[test]
fn samples_are_put_on_the_16_bit_grid() {
    let mut a = Audio { samples: b(&[0.3, -0.7]), sample_rate: 1 };
    snap(&mut a, &ieee);
    assert_eq!(floats(&a.samples), vec![9830.0 / 32768.0, -22938.0 / 32768.0]);
}

#[test]
fn channels_are_averaged() {
    let v = b(&[1.0, 3.0, -1.0, 0.0]);
    assert_eq!(floats(&downmix(&v, 2, &ieee)), vec![2.0, -0.5]);
    assert_eq!(downmix(&v, 1, &ieee), v);
    assert_eq!(downmix(&v, 4, &ieee).len(), 1);
}

#[test]
fn tracks_take_the_first_known_rate() {
    let mut t = Track::new(None);
    t.push(&b(&[0.5]), 1, 8_000, &ieee);
    t.push(&b(&[1.0, 0.0]), 2, 44_100, &ieee);
    let a = t.finish("x.wav").unwrap();
    assert_eq!(a.sample_rate, 8_000);
    assert_eq!(floats(&a.samples), vec![0.5, 0.5]);
    let e = Track::new(None).finish("x.wav").unwrap_err();
    assert_eq!(e.to_string(), "could not determine the sample rate of x.wav");
}

#[test]
fn packets_lead_to_steps() {
    assert_eq!(next_step(PacketEvent::End), PacketStep::Finish);
    assert_eq!(next_step(PacketEvent::Truncated), PacketStep::Finish);
    assert_eq!(next_step(PacketEvent::ReadFailed), PacketStep::Fail);
    assert_eq!(next_step(PacketEvent::OtherTrack), PacketStep::Skip);
    assert_eq!(next_step(PacketEvent::BadPacket), PacketStep::Skip);
    assert_eq!(next_step(PacketEvent::ResetRequired), PacketStep::Reset);
    assert_eq!(next_step(PacketEvent::DecodeFailed), PacketStep::Fail);
    assert_eq!(next_step(PacketEvent::Decoded), PacketStep::Take);
}

#[test]
fn audio_errors_name_the_file() {
    let (path, source) = ("a.wav".to_string(), "gone".to_string());
    let e = AudioError::Open { path: path.clone(), source: source.clone() };
    assert_eq!(e.to_string(), "failed to open audio file a.wav: gone");
    let e = AudioError::Decode { path: path.clone(), source: source.clone() };
    assert_eq!(e.to_string(), "failed to decode audio file a.wav: gone");
    let e = AudioError::Write { path: path.clone(), source };
    assert_eq!(e.to_string(), "failed to write wav file a.wav: gone");
    assert_eq!(
        AudioError::NoAudioTrack(path.clone()).to_string(),
        "no audio track found in a.wav"
    );
    assert_eq!(
        AudioError::NoCodecParams(path).to_string(),
        "audio track in a.wav has no codec parameters"
    );
}
