//! Waveforms: mixing down, resampling, cutting and 16-bit samples.
//!
//! Samples are single-precision bit patterns in the convention of -1 to 1. Opening files, decoding
//! packets and writing them is left to the caller.

use vstd::prelude::*;
use vstd::slice::slice_subrange;
use vstd::string::StringExecFns;

use crate::float::{
    eval, eval_wide, is_evaluator, is_nan, is_nan_bits, less, lt, value, wide_value, FloatOp, ONE,
    ZERO,
};
use crate::io::textgrid::{signed_of, to_signed};

verus! {

/// The rate that every model works at.
pub const MODEL_RATE: u32 = 16_000;

/// 32768, the size of the 16-bit range on either side of zero.
pub const FULL_SCALE: u32 = 0x4700_0000;

/// The smallest 16-bit value, as a single-precision number.
pub const LOWEST: u32 = 0xc700_0000;

/// The largest 16-bit value, as a single-precision number.
pub const HIGHEST: u32 = 0x46ff_fe00;

/// A waveform of one channel.
#[derive(Debug, PartialEq, Eq)]
pub struct Audio {
    pub samples: Vec<u32>,
    pub sample_rate: u32,
}

impl Audio {
    /// The duration in seconds.
    pub fn duration_s<F: Fn(FloatOp) -> u64>(&self, f: &F) -> (r: u32)
        requires
            is_evaluator(*f),
        ensures
            r == (if self.sample_rate == 0 {
                ZERO
            } else {
                value(
                    *f,
                    FloatOp::Div(
                        value(*f, FloatOp::Count(self.samples@.len() as u64)),
                        value(*f, FloatOp::Count(self.sample_rate as u64)),
                    ),
                )
            }),
    {
        if self.sample_rate == 0 {
            ZERO
        } else {
            let n: u32 = eval(f, FloatOp::Count(self.samples.len() as u64));
            let rate: u32 = eval(f, FloatOp::Count(self.sample_rate as u64));
            eval(f, FloatOp::Div(n, rate))
        }
    }

    /// Whether there are no samples.
    pub fn is_empty(&self) -> (r: bool)
        ensures
            r == (self.samples@.len() == 0),
    {
        self.samples.len() == 0
    }
}

/// Why a waveform cannot be read or written. A `source` is the message of what failed.
#[derive(Debug)]
pub enum AudioError {
    Open { path: String, source: String },
    Decode { path: String, source: String },
    NoAudioTrack(String),
    NoCodecParams(String),
    UnknownSampleRate(String),
    Write { path: String, source: String },
}

/// The message for an error.
pub open spec fn audio_message(e: AudioError) -> Seq<char> {
    match e {
        AudioError::Open { path, source } => "failed to open audio file "@ + path@ + ": "@
            + source@,
        AudioError::Decode { path, source } => "failed to decode audio file "@ + path@ + ": "@
            + source@,
        AudioError::NoAudioTrack(path) => "no audio track found in "@ + path@,
        AudioError::NoCodecParams(path) => "audio track in "@ + path@
            + " has no codec parameters"@,
        AudioError::UnknownSampleRate(path) => "could not determine the sample rate of "@ + path@,
        AudioError::Write { path, source } => "failed to write wav file "@ + path@ + ": "@
            + source@,
    }
}

impl AudioError {
    pub fn to_string(&self) -> (r: String)
        ensures
            r@ == audio_message(*self),
    {
        match self {
            AudioError::Open { path, source } => with_source(
                "failed to open audio file ",
                path,
                source,
            ),
            AudioError::Decode { path, source } => with_source(
                "failed to decode audio file ",
                path,
                source,
            ),
            AudioError::NoAudioTrack(path) => crate::text::joined(
                "no audio track found in ",
                path.as_str(),
            ),
            AudioError::NoCodecParams(path) => {
                let mut s = crate::text::joined("audio track in ", path.as_str());
                s.append(" has no codec parameters");
                s
            },
            AudioError::UnknownSampleRate(path) => crate::text::joined(
                "could not determine the sample rate of ",
                path.as_str(),
            ),
            AudioError::Write { path, source } => with_source(
                "failed to write wav file ",
                path,
                source,
            ),
        }
    }
}

fn with_source(text: &str, path: &String, source: &String) -> (r: String)
    ensures
        r@ == text@ + path@ + ": "@ + source@,
{
    let mut s = crate::text::joined(text, path.as_str());
    s.append(": ");
    s.append(source.as_str());
    s
}

/// What came of reading the next packet of a file.
#[derive(Clone, Copy, Debug, PartialEq, Eq, Structural)]
pub enum PacketEvent {
    /// There is no packet left.
    End,
    /// The file ends inside a packet.
    Truncated,
    /// Reading failed otherwise.
    ReadFailed,
    /// The packet belongs to another track.
    OtherTrack,
    /// The packet cannot be decoded.
    BadPacket,
    /// The decoder has to start over.
    ResetRequired,
    /// Decoding failed otherwise.
    DecodeFailed,
    /// The packet was decoded.
    Decoded,
}

/// What to do next with a file.
#[derive(Clone, Copy, Debug, PartialEq, Eq, Structural)]
pub enum PacketStep {
    /// Keep what was decoded and stop.
    Finish,
    /// Give up with an error.
    Fail,
    /// Go on with the next packet.
    Skip,
    /// Reset the decoder and go on with the next packet.
    Reset,
    /// Take the samples of the packet.
    Take,
}

/// The step that follows an event. A file that ends inside a packet keeps what came before it, and a
/// packet that cannot be decoded is left out.
pub open spec fn step_after(e: PacketEvent) -> PacketStep {
    match e {
        PacketEvent::End | PacketEvent::Truncated => PacketStep::Finish,
        PacketEvent::ReadFailed | PacketEvent::DecodeFailed => PacketStep::Fail,
        PacketEvent::OtherTrack | PacketEvent::BadPacket => PacketStep::Skip,
        PacketEvent::ResetRequired => PacketStep::Reset,
        PacketEvent::Decoded => PacketStep::Take,
    }
}

/// Decide what to do after an event.
pub fn next_step(e: PacketEvent) -> (r: PacketStep)
    ensures
        r == step_after(e),
{
    match e {
        PacketEvent::End => PacketStep::Finish,
        PacketEvent::Truncated => PacketStep::Finish,
        PacketEvent::ReadFailed => PacketStep::Fail,
        PacketEvent::DecodeFailed => PacketStep::Fail,
        PacketEvent::OtherTrack => PacketStep::Skip,
        PacketEvent::BadPacket => PacketStep::Skip,
        PacketEvent::ResetRequired => PacketStep::Reset,
        PacketEvent::Decoded => PacketStep::Take,
    }
}

/// The sum of the first `n` values, from the left.
pub open spec fn sum_of<F: Fn(FloatOp) -> u64>(v: Seq<u32>, n: int, f: F) -> u32
    decreases n,
{
    if n <= 0 {
        ZERO
    } else {
        value(f, FloatOp::Add(sum_of(v, n - 1, f), v[n - 1]))
    }
}

/// The mean of frame `i` over its channels.
pub open spec fn mixed<F: Fn(FloatOp) -> u64>(v: Seq<u32>, channels: int, i: int, f: F) -> u32 {
    value(
        f,
        FloatOp::Mul(
            sum_of(v.subrange(i * channels, i * channels + channels), channels, f),
            value(f, FloatOp::Div(ONE, value(f, FloatOp::Count(channels as u64)))),
        ),
    )
}

/// The frames of interleaved channels as one channel.
pub open spec fn mono<F: Fn(FloatOp) -> u64>(v: Seq<u32>, channels: int, f: F) -> Seq<u32> {
    if channels == 1 {
        v
    } else {
        Seq::new((v.len() as int / channels) as nat, |i: int| mixed(v, channels, i, f))
    }
}

/// Mix interleaved channels down to one by averaging.
pub fn downmix<F: Fn(FloatOp) -> u64>(v: &Vec<u32>, channels: usize, f: &F) -> (r: Vec<u32>)
    requires
        is_evaluator(*f),
        channels > 0,
    ensures
        r@ == mono(v@, channels as int, *f),
{
    let mut out: Vec<u32> = Vec::new();
    if channels == 1 {
        out.extend_from_slice(v.as_slice());
        assert(out@ =~= v@);
        return out;
    }
    let count: u32 = eval(f, FloatOp::Count(channels as u64));
    let scale: u32 = eval(f, FloatOp::Div(ONE, count));
    let n: usize = v.len();
    let frames: usize = n / channels;
    let mut i: usize = 0;
    while i < frames
        invariant
            is_evaluator(*f),
            channels > 1,
            n == v@.len(),
            frames == n / channels,
            i <= frames,
            scale == value(
                *f,
                FloatOp::Div(ONE, value(*f, FloatOp::Count(channels as u64))),
            ),
            out@ == Seq::new(i as nat, |k: int| mixed(v@, channels as int, k, *f)),
        decreases frames - i,
    {
        assert(i * channels + channels <= n) by (nonlinear_arith)
            requires
                i < frames,
                frames as int == n as int / channels as int,
                channels > 1,
        ;
        assert(0 <= i * channels) by (nonlinear_arith);
        let start: usize = i * channels;
        let ghost frame = v@.subrange(start as int, start + channels);
        let mut sum: u32 = ZERO;
        let mut k: usize = 0;
        while k < channels
            invariant
                is_evaluator(*f),
                n == v@.len(),
                start + channels <= n,
                frame == v@.subrange(start as int, start + channels),
                k <= channels,
                sum == sum_of(frame, k as int, *f),
            decreases channels - k,
        {
            assert(frame[k as int] == v@[start + k]);
            sum = eval(f, FloatOp::Add(sum, v[start + k]));
            k += 1;
        }
        let m: u32 = eval(f, FloatOp::Mul(sum, scale));
        out.push(m);
        proof {
            assert(m == mixed(v@, channels as int, i as int, *f));
            assert(out@ =~= Seq::new((i + 1) as nat, |k: int| mixed(v@, channels as int, k, *f)));
        }
        i += 1;
    }
    out
}

/// What has been decoded of a track.
#[derive(Debug)]
pub struct Track {
    pub samples: Vec<u32>,
    pub sample_rate: Option<u32>,
}

impl Track {
    /// A track without samples, with the rate that the file gives, if it does.
    pub fn new(sample_rate: Option<u32>) -> (r: Self)
        ensures
            r.samples@.len() == 0,
            r.sample_rate == sample_rate,
    {
        Track { samples: Vec::new(), sample_rate }
    }

    /// Take the interleaved samples of a packet. Its rate counts if none was known, even if it has no
    /// samples.
    pub fn push<F: Fn(FloatOp) -> u64>(&mut self, interleaved: &Vec<u32>, channels: usize, rate: u32, f: &F)
        requires
            is_evaluator(*f),
        ensures
            final(self).samples@ == old(self).samples@ + mono(
                interleaved@,
                if channels == 0 {
                    1
                } else {
                    channels as int
                },
                *f,
            ),
            final(self).sample_rate == (if old(self).sample_rate is Some {
                old(self).sample_rate
            } else {
                Some(rate)
            }),
    {
        if self.sample_rate.is_none() {
            self.sample_rate = Some(rate);
        }
        let width: usize = if channels == 0 {
            1
        } else {
            channels
        };
        let mixed_down = downmix(interleaved, width, f);
        self.samples.extend_from_slice(mixed_down.as_slice());
        assert(self.samples@ =~= old(self).samples@ + mixed_down@);
    }

    /// The waveform, if its rate is known.
    pub fn finish(self, path: &str) -> (r: Result<Audio, AudioError>)
        ensures
            match r {
                Ok(a) => a.samples@ == self.samples@ && self.sample_rate == Some(a.sample_rate),
                Err(e) => self.sample_rate is None && (e matches AudioError::UnknownSampleRate(p)
                    && p@ == path@),
            },
    {
        match self.sample_rate {
            Some(sample_rate) => Ok(Audio { samples: self.samples, sample_rate }),
            None => Err(AudioError::UnknownSampleRate(String::from_str(path))),
        }
    }
}

/// Whether a waveform stays as it is: the rates agree, there is nothing in it, or it has no rate.
pub open spec fn stays(a: Audio, target_rate: u32) -> bool {
    a.sample_rate == target_rate || a.samples@.len() == 0 || a.sample_rate == 0
}

/// The resampler takes every waveform from a rate that is not zero to any rate.
pub open spec fn is_resampler<R: Fn(Vec<u32>, u32, u32) -> Option<Vec<u32>>>(r: R) -> bool {
    forall|v: Vec<u32>, from: u32, to: u32|
        from > 0 ==> #[trigger] call_requires(r, (v, from, to))
}

/// The resampler can answer so.
pub open spec fn gives<R: Fn(Vec<u32>, u32, u32) -> Option<Vec<u32>>>(
    r: R,
    samples: Seq<u32>,
    from: u32,
    to: u32,
    out: Option<Seq<u32>>,
) -> bool {
    exists|v: Vec<u32>, o: Option<Vec<u32>>|
        v@ == samples && #[trigger] call_ensures(r, (v, from, to), o) && out == (match o {
            Some(w) => Some(w@),
            None => None,
        })
}

/// Resample a waveform. `r` does the work; where it fails, the waveform stays as it is.
pub fn resample<R: Fn(Vec<u32>, u32, u32) -> Option<Vec<u32>>>(a: &Audio, target_rate: u32, r: &R) -> (out:
    Audio)
    requires
        is_resampler(*r),
    ensures
        stays(*a, target_rate) ==> out.samples@ == a.samples@ && out.sample_rate == (
        if a.sample_rate == 0 {
            target_rate
        } else {
            a.sample_rate
        }),
        !stays(*a, target_rate) ==> {
            ||| gives(*r, a.samples@, a.sample_rate, target_rate, Some(out.samples@))
                && out.sample_rate == target_rate
            ||| gives(*r, a.samples@, a.sample_rate, target_rate, None) && out.samples@
                == a.samples@ && out.sample_rate == a.sample_rate
        },
{
    let mut copy: Vec<u32> = Vec::new();
    copy.extend_from_slice(a.samples.as_slice());
    assert(copy@ =~= a.samples@);
    if a.sample_rate == target_rate || a.samples.len() == 0 || a.sample_rate == 0 {
        let sample_rate: u32 = if a.sample_rate == 0 {
            target_rate
        } else {
            a.sample_rate
        };
        return Audio { samples: copy, sample_rate };
    }
    let mut input: Vec<u32> = Vec::new();
    input.extend_from_slice(a.samples.as_slice());
    assert(input@ =~= a.samples@);
    let ghost v = input;
    let o = r(input, a.sample_rate, target_rate);
    assert(call_ensures(*r, (v, a.sample_rate, target_rate), o));
    match o {
        Some(samples) => Audio { samples, sample_rate: target_rate },
        None => Audio { samples: copy, sample_rate: a.sample_rate },
    }
}

/// A sample on the grid of 16-bit values.
pub open spec fn snapped_sample<F: Fn(FloatOp) -> u64>(s: u32, f: F) -> u32 {
    value(
        f,
        FloatOp::Div(
            value(f, FloatOp::Round(value(f, FloatOp::Mul(s, FULL_SCALE)))),
            FULL_SCALE,
        ),
    )
}

/// Put every sample on the grid of 16-bit values.
pub fn snap<F: Fn(FloatOp) -> u64>(a: &mut Audio, f: &F)
    requires
        is_evaluator(*f),
    ensures
        final(a).sample_rate == old(a).sample_rate,
        final(a).samples@ == Seq::new(
            old(a).samples@.len(),
            |i: int| snapped_sample(old(a).samples@[i], *f),
        ),
{
    let ghost before = a.samples@;
    let n: usize = a.samples.len();
    let mut i: usize = 0;
    while i < n
        invariant
            is_evaluator(*f),
            n == before.len(),
            a.samples@.len() == n,
            a.sample_rate == old(a).sample_rate,
            i <= n,
            forall|k: int| 0 <= k < i ==> a.samples@[k] == snapped_sample(#[trigger] before[k], *f),
            forall|k: int| i <= k < n ==> #[trigger] a.samples@[k] == before[k],
        decreases n - i,
    {
        let s: u32 = a.samples[i];
        assert(s == before[i as int]);
        let scaled: u32 = eval(f, FloatOp::Mul(s, FULL_SCALE));
        let whole: u32 = eval(f, FloatOp::Round(scaled));
        a.samples.set(i, eval(f, FloatOp::Div(whole, FULL_SCALE)));
        i += 1;
    }
    assert(a.samples@ =~= Seq::new(before.len(), |i: int| snapped_sample(before[i], *f)));
}

/// A value between two others, or the nearer of them.
pub open spec fn clamped(x: u32, low: u32, high: u32) -> u32 {
    if less(x, low) {
        low
    } else if less(high, x) {
        high
    } else {
        x
    }
}

/// The 16-bit value of a sample: full scale is 32768, and what is beyond the range is its end.
pub open spec fn pcm<F: Fn(FloatOp) -> u64>(s: u32, f: F) -> i16 {
    let whole = value(f, FloatOp::Round(value(f, FloatOp::Mul(s, FULL_SCALE))));
    let v = wide_value(
        f,
        FloatOp::TruncSigned(wide_value(f, FloatOp::Widen(clamped(whole, LOWEST, HIGHEST)))),
    );
    signed_of(v) as i16
}

/// The 16-bit values of a waveform.
pub fn pcm_samples<F: Fn(FloatOp) -> u64>(a: &Audio, f: &F) -> (r: Vec<i16>)
    requires
        is_evaluator(*f),
    ensures
        r@ == Seq::new(a.samples@.len(), |i: int| pcm(a.samples@[i], *f)),
{
    let mut out: Vec<i16> = Vec::new();
    let mut i: usize = 0;
    while i < a.samples.len()
        invariant
            is_evaluator(*f),
            i <= a.samples@.len(),
            out@ == Seq::new(i as nat, |k: int| pcm(a.samples@[k], *f)),
        decreases a.samples.len() - i,
    {
        let scaled: u32 = eval(f, FloatOp::Mul(a.samples[i], FULL_SCALE));
        let whole: u32 = eval(f, FloatOp::Round(scaled));
        let inside: u32 = if lt(whole, LOWEST) {
            LOWEST
        } else if lt(HIGHEST, whole) {
            HIGHEST
        } else {
            whole
        };
        let wide: u64 = eval_wide(f, FloatOp::Widen(inside));
        let v: i64 = to_signed(eval_wide(f, FloatOp::TruncSigned(wide)));
        let sample: i16 = #[verifier::truncate]
        (v as i16);
        out.push(sample);
        assert(out@ =~= Seq::new((i + 1) as nat, |k: int| pcm(a.samples@[k], *f)));
        i += 1;
    }
    out
}

/// The larger of a value and zero; zero where it is no number.
pub open spec fn above_zero(x: u32) -> u32 {
    if is_nan_bits(x) || less(x, ZERO) {
        ZERO
    } else {
        x
    }
}

/// The sample nearest to a time, at most `n`.
pub open spec fn sample_at<F: Fn(FloatOp) -> u64>(t: u32, rate: u32, n: int, f: F) -> int {
    let at = wide_value(
        f,
        FloatOp::TruncWide(
            wide_value(
                f,
                FloatOp::RoundWide(
                    wide_value(
                        f,
                        FloatOp::MulWide(
                            wide_value(f, FloatOp::Widen(above_zero(t))),
                            wide_value(f, FloatOp::CountWide(rate as u64)),
                        ),
                    ),
                ),
            ),
        ),
    ) as int;
    if at < n {
        at
    } else {
        n
    }
}

fn find_sample<F: Fn(FloatOp) -> u64>(t: u32, rate: u32, n: usize, f: &F) -> (r: usize)
    requires
        is_evaluator(*f),
    ensures
        r == sample_at(t, rate, n as int, *f),
        r <= n,
{
    let from_zero: u32 = if is_nan(t) || lt(t, ZERO) {
        ZERO
    } else {
        t
    };
    let wide: u64 = eval_wide(f, FloatOp::Widen(from_zero));
    let wide_rate: u64 = eval_wide(f, FloatOp::CountWide(rate as u64));
    let product: u64 = eval_wide(f, FloatOp::MulWide(wide, wide_rate));
    let whole: u64 = eval_wide(f, FloatOp::RoundWide(product));
    let at: u64 = eval_wide(f, FloatOp::TruncWide(whole));
    if at < n as u64 {
        at as usize
    } else {
        n
    }
}

/// The part of a waveform between two times. Times out of range are moved to its ends; a part that
/// ends before it starts is empty.
pub fn slice<F: Fn(FloatOp) -> u64>(a: &Audio, start_s: u32, end_s: u32, f: &F) -> (r: Audio)
    requires
        is_evaluator(*f),
    ensures
        r.sample_rate == a.sample_rate,
        ({
            let n = a.samples@.len() as int;
            let start = sample_at(start_s, a.sample_rate, n, *f);
            let end = sample_at(end_s, a.sample_rate, n, *f);
            r.samples@ == (if end > start {
                a.samples@.subrange(start, end)
            } else {
                seq![]
            })
        }),
{
    let n: usize = a.samples.len();
    let start: usize = find_sample(start_s, a.sample_rate, n, f);
    let end: usize = find_sample(end_s, a.sample_rate, n, f);
    let mut samples: Vec<u32> = Vec::new();
    if end > start {
        samples.extend_from_slice(slice_subrange(a.samples.as_slice(), start, end));
        assert(samples@ =~= a.samples@.subrange(start as int, end as int));
    }
    Audio { samples, sample_rate: a.sample_rate }
}

/// A part of a waveform is never longer than the waveform, and every sample of it is one of the
/// waveform's, in the same order.
pub proof fn slice_is_part<F: Fn(FloatOp) -> u64>(a: Audio, start_s: u32, end_s: u32, i: int, f: F)
    requires
        0 <= i < sample_at(end_s, a.sample_rate, a.samples@.len() as int, f) - sample_at(
            start_s,
            a.sample_rate,
            a.samples@.len() as int,
            f,
        ),
    ensures
        ({
            let n = a.samples@.len() as int;
            let start = sample_at(start_s, a.sample_rate, n, f);
            let end = sample_at(end_s, a.sample_rate, n, f);
            &&& 0 <= start <= end <= n
            &&& a.samples@.subrange(start, end)[i] == a.samples@[start + i]
        }),
{
}

/// Mixing down keeps the number of frames.
pub proof fn mixing_keeps_frames<F: Fn(FloatOp) -> u64>(v: Seq<u32>, channels: int, frames: int, f: F)
    requires
        channels > 0,
        frames >= 0,
        v.len() == frames * channels,
    ensures
        mono(v, channels, f).len() == frames,
{
    assert(frames * channels / channels == frames) by (nonlinear_arith)
        requires
            channels > 0,
    ;
}

} // verus!
