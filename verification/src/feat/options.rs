//! Settings of the feature pipeline, and the frames that follow from them.

use vstd::arithmetic::power2::{lemma_pow2_strictly_increases, lemma_pow2_unfold, pow2};
use vstd::prelude::*;

use crate::float::{eval, eval_wide, is_evaluator, value, wide_value, FloatOp, ONE, ZERO};

verus! {

/// Single-precision 0.001.
pub const MILLI: u32 = 0x3a83_126f;

/// Single-precision 1000.
pub const THOUSAND: u32 = 0x447a_0000;

/// The shape of an analysis window.
#[derive(Clone, Copy, Debug, PartialEq, Eq, Structural)]
pub enum WindowType {
    Hamming,
    Hanning,
    /// A raised cosine to the power of 0.85.
    Povey,
    Rectangular,
    Blackman,
    Sine,
}

/// How cepstra are computed. Everything that is no count or choice is single-precision bits.
#[derive(Clone, Copy, Debug, PartialEq, Eq, Structural)]
pub struct MfccOptions {
    /// Samples per second.
    pub sample_rate: u32,
    pub frame_length_ms: u32,
    pub frame_shift_ms: u32,
    pub dither: u32,
    pub preemph: u32,
    pub remove_dc_offset: bool,
    pub window: WindowType,
    pub round_to_power_of_two: bool,
    /// Whether frames that do not fit into the signal are left out.
    pub snip_edges: bool,
    pub num_mel_bins: u32,
    pub low_freq: u32,
    /// The upper end of the mel band; where it is not positive, counted from half the sample rate.
    pub high_freq: u32,
    pub num_ceps: u32,
    pub use_energy: bool,
    pub energy_floor: u32,
    pub raw_energy: bool,
    pub cepstral_lifter: u32,
    pub htk_compat: bool,
    pub vtln_warp: u32,
    pub blackman_coeff: u32,
    pub vtln_low: u32,
    /// Where it is negative, counted from half the sample rate.
    pub vtln_high: u32,
}

/// 13 cepstra every 10 ms, from 23 mel bins between 20 and 7800 Hz over windows of 25 ms, at 16 kHz.
pub open spec fn default_mfcc() -> MfccOptions {
    MfccOptions {
        sample_rate: 16000,
        frame_length_ms: 0x41c8_0000,
        frame_shift_ms: 0x4120_0000,
        dither: ZERO,
        preemph: 0x3f78_51ec,
        remove_dc_offset: true,
        window: WindowType::Povey,
        round_to_power_of_two: true,
        snip_edges: false,
        num_mel_bins: 23,
        low_freq: 0x41a0_0000,
        high_freq: 0x45f3_c000,
        num_ceps: 13,
        use_energy: false,
        energy_floor: ZERO,
        raw_energy: false,
        cepstral_lifter: 0x41b0_0000,
        htk_compat: false,
        vtln_warp: ONE,
        blackman_coeff: 0x3ed7_0a3d,
        vtln_low: 0x42c8_0000,
        vtln_high: 0xc3fa_0000,
    }
}

impl Default for MfccOptions {
    fn default() -> (r: Self)
        ensures
            r == default_mfcc(),
    {
        MfccOptions {
            sample_rate: 16000,
            frame_length_ms: 0x41c8_0000,
            frame_shift_ms: 0x4120_0000,
            dither: ZERO,
            preemph: 0x3f78_51ec,
            remove_dc_offset: true,
            window: WindowType::Povey,
            round_to_power_of_two: true,
            snip_edges: false,
            num_mel_bins: 23,
            low_freq: 0x41a0_0000,
            high_freq: 0x45f3_c000,
            num_ceps: 13,
            use_energy: false,
            energy_floor: ZERO,
            raw_energy: false,
            cepstral_lifter: 0x41b0_0000,
            htk_compat: false,
            vtln_warp: ONE,
            blackman_coeff: 0x3ed7_0a3d,
            vtln_low: 0x42c8_0000,
            vtln_high: 0xc3fa_0000,
        }
    }
}

/// A 64-bit count as far as a `usize` goes.
pub open spec fn sized(n: u64) -> usize {
    if n > usize::MAX {
        usize::MAX
    } else {
        n as usize
    }
}

/// The samples in so many milliseconds, rounded down.
pub open spec fn samples_in<F: Fn(FloatOp) -> u64>(sample_rate: u32, ms: u32, f: F) -> usize {
    let rate = value(f, FloatOp::Count(sample_rate as u64));
    sized(wide_value(f, FloatOp::Trunc(value(f, FloatOp::Mul(value(f, FloatOp::Mul(rate, MILLI)), ms)))))
}

/// `p` is the least power of two that is not below `n`.
pub open spec fn is_least_power(p: int, n: int) -> bool {
    exists|k: nat| #[trigger] pow2(k) == p && n <= p && (k > 0 ==> pow2((k - 1) as nat) < n)
}

/// There is only one least power of two.
pub proof fn least_power_is_unique(p: int, q: int, n: int)
    requires
        is_least_power(p, n),
        is_least_power(q, n),
    ensures
        p == q,
{
    let k = choose|k: nat| #[trigger] pow2(k) == p && n <= p && (k > 0 ==> pow2((k - 1) as nat) < n);
    let l = choose|k: nat| #[trigger] pow2(k) == q && n <= q && (k > 0 ==> pow2((k - 1) as nat) < n);
    if k < l {
        if k < l - 1 {
            lemma_pow2_strictly_increases(k, (l - 1) as nat);
        }
    } else if l < k {
        if l < k - 1 {
            lemma_pow2_strictly_increases(l, (k - 1) as nat);
        }
    }
}

/// The least power of two that is not below `n`.
pub fn round_up_to_nearest_power_of_two(n: usize) -> (r: usize)
    requires
        0 < n <= usize::MAX / 2 + 1,
    ensures
        is_least_power(r as int, n as int),
{
    let mut p: usize = 1;
    let ghost mut k: nat = 0;
    proof {
        vstd::arithmetic::power2::lemma2_to64();
    }
    while p < n
        invariant
            p == pow2(k),
            1 <= p,
            n <= usize::MAX / 2 + 1,
            k > 0 ==> pow2((k - 1) as nat) < n,
        decreases 2 * n - p,
    {
        proof {
            lemma_pow2_unfold(k + 1);
            k = k + 1;
        }
        p = p * 2;
    }
    p
}

impl MfccOptions {
    /// The samples from one frame to the next.
    pub open spec fn shift<F: Fn(FloatOp) -> u64>(self, f: F) -> usize {
        samples_in(self.sample_rate, self.frame_shift_ms, f)
    }

    /// The samples of a frame.
    pub open spec fn length<F: Fn(FloatOp) -> u64>(self, f: F) -> usize {
        samples_in(self.sample_rate, self.frame_length_ms, f)
    }

    /// `n` is the number of samples of a frame with its padding.
    pub open spec fn is_padded_length<F: Fn(FloatOp) -> u64>(self, n: int, f: F) -> bool {
        if self.round_to_power_of_two {
            is_least_power(n, self.length(f) as int)
        } else {
            n == self.length(f)
        }
    }

    /// The number of samples of a frame with its padding.
    pub open spec fn padded_length<F: Fn(FloatOp) -> u64>(self, f: F) -> int {
        choose|n: int| self.is_padded_length(n, f)
    }

    pub fn window_shift<F: Fn(FloatOp) -> u64>(&self, f: &F) -> (r: usize)
        requires
            is_evaluator(*f),
        ensures
            r == self.shift(*f),
    {
        count_samples(self.sample_rate, self.frame_shift_ms, f)
    }

    pub fn window_size<F: Fn(FloatOp) -> u64>(&self, f: &F) -> (r: usize)
        requires
            is_evaluator(*f),
        ensures
            r == self.length(*f),
    {
        count_samples(self.sample_rate, self.frame_length_ms, f)
    }

    /// The samples of a frame with its padding.
    pub fn padded_window_size<F: Fn(FloatOp) -> u64>(&self, f: &F) -> (r: usize)
        requires
            is_evaluator(*f),
            self.round_to_power_of_two ==> 0 < self.length(*f) <= usize::MAX / 2 + 1,
        ensures
            self.is_padded_length(r as int, *f),
            r == self.padded_length(*f),
    {
        let n: usize = if self.round_to_power_of_two {
            round_up_to_nearest_power_of_two(self.window_size(f))
        } else {
            self.window_size(f)
        };
        proof {
            let m = self.padded_length(*f);
            assert(self.is_padded_length(n as int, *f));
            if self.round_to_power_of_two {
                least_power_is_unique(n as int, m, self.length(*f) as int);
            }
        }
        n
    }

    /// The time from one frame to the next, in seconds.
    pub fn frame_shift_s<F: Fn(FloatOp) -> u64>(&self, f: &F) -> (r: u32)
        requires
            is_evaluator(*f),
        ensures
            r == value(*f, FloatOp::Div(self.frame_shift_ms, THOUSAND)),
    {
        eval(f, FloatOp::Div(self.frame_shift_ms, THOUSAND))
    }
}

fn count_samples<F: Fn(FloatOp) -> u64>(sample_rate: u32, ms: u32, f: &F) -> (r: usize)
    requires
        is_evaluator(*f),
    ensures
        r == samples_in(sample_rate, ms, *f),
{
    let rate: u32 = eval(f, FloatOp::Count(sample_rate as u64));
    let scaled: u32 = eval(f, FloatOp::Mul(rate, MILLI));
    let n: u64 = eval_wide(f, FloatOp::Trunc(eval(f, FloatOp::Mul(scaled, ms))));
    if n > usize::MAX as u64 {
        usize::MAX
    } else {
        n as usize
    }
}

/// How many frames so many samples have: those that fit, or, where the edges are not snipped, one
/// for every shift, rounded to the nearest.
pub open spec fn frame_count(num_samples: int, snip_edges: bool, shift: int, length: int) -> int {
    if snip_edges {
        if num_samples < length {
            0
        } else {
            1 + (num_samples - length) / shift
        }
    } else {
        (num_samples + shift / 2) / shift
    }
}

/// Where a frame starts; before the signal for the first ones where the edges are not snipped.
pub open spec fn frame_start(frame: int, snip_edges: bool, shift: int, length: int) -> int {
    if snip_edges {
        frame * shift
    } else {
        frame * shift + shift / 2 - length / 2
    }
}

/// The frames of so many samples can be counted: what is computed fits, and nothing is divided by a
/// shift of zero. Where the edges are snipped and the samples are fewer than a frame has, nothing is
/// divided.
pub open spec fn can_count(num_samples: int, snip_edges: bool, shift: int, length: int) -> bool {
    &&& num_samples <= i64::MAX
    &&& shift <= i64::MAX
    &&& length <= i64::MAX
    &&& snip_edges ==> num_samples < length || (shift > 0 && num_samples - length < i64::MAX
        && num_samples - length < usize::MAX)
    &&& !snip_edges ==> shift > 0 && num_samples + shift / 2 <= i64::MAX
}

/// How many frames so many samples have.
pub fn num_frames<F: Fn(FloatOp) -> u64>(num_samples: usize, opts: &MfccOptions, f: &F) -> (r: usize)
    requires
        is_evaluator(*f),
        can_count(
            num_samples as int,
            opts.snip_edges,
            opts.shift(*f) as int,
            opts.length(*f) as int,
        ),
    ensures
        r == frame_count(
            num_samples as int,
            opts.snip_edges,
            opts.shift(*f) as int,
            opts.length(*f) as int,
        ),
{
    let shift: usize = opts.window_shift(f);
    let length: usize = opts.window_size(f);
    if opts.snip_edges {
        if num_samples < length {
            0
        } else {
            proof {
                vstd::arithmetic::div_mod::lemma_div_is_ordered_by_denominator(
                    num_samples - length,
                    1,
                    shift as int,
                );
                vstd::arithmetic::div_mod::lemma_div_basics(num_samples - length);
            }
            1 + (num_samples - length) / shift
        }
    } else {
        let half: u64 = num_samples as u64 + shift as u64 / 2;
        proof {
            halves_fit(num_samples as int, shift as int);
        }
        (half / shift as u64) as usize
    }
}

/// There are no more frames than samples.
proof fn halves_fit(n: int, shift: int)
    requires
        0 <= n,
        0 < shift,
    ensures
        0 <= (n + shift / 2) / shift <= n,
{
    let q = (n + shift / 2) / shift;
    vstd::arithmetic::div_mod::lemma_fundamental_div_mod(n + shift / 2, shift);
    vstd::arithmetic::div_mod::lemma_mod_bound(n + shift / 2, shift);
    assert(0 <= q <= n) by (nonlinear_arith)
        requires
            n + shift / 2 == shift * q + (n + shift / 2) % shift,
            0 <= (n + shift / 2) % shift < shift,
            0 <= n,
            0 < shift,
            0 <= shift / 2 < shift,
    ;
}

/// The sample where a frame starts.
pub fn first_sample_of_frame<F: Fn(FloatOp) -> u64>(frame: usize, opts: &MfccOptions, f: &F) -> (r:
    i64)
    requires
        is_evaluator(*f),
        frame * opts.shift(*f) + opts.shift(*f) <= i64::MAX,
        opts.length(*f) <= i64::MAX,
    ensures
        r == frame_start(
            frame as int,
            opts.snip_edges,
            opts.shift(*f) as int,
            opts.length(*f) as int,
        ),
{
    let shift: usize = opts.window_shift(f);
    let length: usize = opts.window_size(f);
    assert(0 <= frame * shift) by (nonlinear_arith);
    assert(shift <= i64::MAX);
    let start: i64 = (frame as u64 * shift as u64) as i64;
    if opts.snip_edges {
        start
    } else {
        start + (shift / 2) as i64 - (length / 2) as i64
    }
}

/// How deltas are computed: up to which order, and over how many frames to each side.
#[derive(Clone, Copy, Debug, PartialEq, Eq, Structural)]
pub struct DeltaOptions {
    pub order: u32,
    pub window: u32,
}

impl Default for DeltaOptions {
    fn default() -> (r: Self)
        ensures
            r == (DeltaOptions { order: 2, window: 2 }),
    {
        DeltaOptions { order: 2, window: 2 }
    }
}

} // verus!
