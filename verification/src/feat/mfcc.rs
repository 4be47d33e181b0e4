//! Mel-frequency cepstra, frame by frame.
//!
//! The Fourier transform is the caller's: it is handed to [`MfccComputer::compute`] as a function
//! from the samples of a padded window to the real and the imaginary parts of its spectrum.

use vstd::arithmetic::div_mod::{
    lemma_fundamental_div_mod, lemma_fundamental_div_mod_converse, lemma_mod_bound, lemma_small_mod,
};
use vstd::prelude::*;
use vstd::slice::slice_subrange;

use crate::feat::options::{
    can_count, first_sample_of_frame, frame_count, frame_start, num_frames, MfccOptions,
};
use crate::feat::transform::{dot, dot_of};
use crate::feat::window::{
    bank_fits, dct_at, dct_matrix, dither_of, energy_of, gauss, has_filters, is_bank, lifter,
    lifter_coeffs, make_window_function, window_function, MelBanks,
};
use crate::float::{
    eq, eval, is_evaluator, is_nan, is_nan_bits, less, lt, same, value, FloatOp, ZERO,
};
use crate::gmm::matrix::{tabulated, Matrix, MatrixView};
use crate::gmm::mixing::{sum_of, sum_upto};
use crate::table::list_of;

verus! {

/// Single-precision 32768, the scale of the samples.
pub const WAVE_SCALE: u32 = 0x4700_0000;

/// The distance from one to the next single-precision value.
pub const EPSILON: u32 = 0x3400_0000;

/// The square root of two in single precision.
pub const ROOT_TWO: u32 = 0x3fb5_04f3;

/// Where sample `i` of a signal of `n` samples is found, the signal being reflected at its ends
/// again and again.
pub open spec fn reflected(i: int, n: int) -> int {
    let m = i % (2 * n);
    if m < n {
        m
    } else {
        2 * n - 1 - m
    }
}

/// A reflected place is in the signal, and the signal's own places stay.
pub proof fn reflection_is_inside(i: int, n: int)
    requires
        0 < n,
    ensures
        0 <= reflected(i, n) < n,
        0 <= i < n ==> reflected(i, n) == i,
{
    lemma_mod_bound(i, 2 * n);
    if 0 <= i < n {
        lemma_small_mod(i as nat, (2 * n) as nat);
    }
}

/// Reflecting at the start or at the end changes nothing.
pub proof fn reflection_is_symmetric(i: int, n: int)
    requires
        0 < n,
    ensures
        reflected(-i - 1, n) == reflected(i, n),
        reflected(2 * n - 1 - i, n) == reflected(i, n),
{
    let d = 2 * n;
    let q = i / d;
    let m = i % d;
    lemma_fundamental_div_mod(i, d);
    lemma_mod_bound(i, d);
    assert(-i - 1 == (-q - 1) * d + (d - 1 - m)) by (nonlinear_arith)
        requires
            i == d * q + m,
    ;
    assert(d - 1 - i == (-q) * d + (d - 1 - m)) by (nonlinear_arith)
        requires
            i == d * q + m,
    ;
    lemma_fundamental_div_mod_converse(-i - 1, d, -q - 1, d - 1 - m);
    lemma_fundamental_div_mod_converse(d - 1 - i, d, -q, d - 1 - m);
}

pub open spec fn distance(a: int) -> int {
    if a < 0 {
        -a
    } else {
        a
    }
}

fn reflect(i: i64, n: usize) -> (r: usize)
    requires
        0 < n <= i64::MAX,
    ensures
        r == reflected(i as int, n as int),
        r < n,
{
    let end: i64 = n as i64;
    let mut k: i64 = i;
    while k < 0 || k >= end
        invariant
            0 < n <= i64::MAX,
            end == n,
            reflected(k as int, n as int) == reflected(i as int, n as int),
        decreases distance(2 * k - (n - 1)),
    {
        proof {
            reflection_is_symmetric(k as int, n as int);
        }
        if k < 0 {
            k = -(k + 1);
        } else {
            k = end - 1 - (k - end);
        }
    }
    proof {
        reflection_is_inside(k as int, n as int);
    }
    k as usize
}

/// The samples of a frame that starts at `start`.
pub open spec fn frame_samples(wave: Seq<u32>, start: int, length: int) -> Seq<u32> {
    Seq::new(length as nat, |s: int| wave[reflected(s + start, wave.len() as int)])
}

/// The samples with noise: sample `s` gets that of uniform values `2s` and `2s + 1`.
pub open spec fn dithered<F: Fn(FloatOp) -> u64>(
    xs: Seq<u32>,
    dither: u32,
    uniforms: Seq<u32>,
    f: F,
) -> Seq<u32> {
    if same(dither, ZERO) {
        xs
    } else {
        Seq::new(
            xs.len(),
            |s: int|
                value(
                    f,
                    FloatOp::Add(
                        xs[s],
                        value(
                            f,
                            FloatOp::Mul(
                                dither_of(uniforms[2 * s], uniforms[2 * s + 1], f),
                                dither,
                            ),
                        ),
                    ),
                ),
        )
    }
}

/// The samples with their mean taken out.
pub open spec fn centered<F: Fn(FloatOp) -> u64>(xs: Seq<u32>, f: F) -> Seq<u32> {
    let mean = value(
        f,
        FloatOp::Div(
            sum_upto(xs, xs.len() as int, f),
            value(f, FloatOp::Count(xs.len() as u64)),
        ),
    );
    Seq::new(xs.len(), |s: int| value(f, FloatOp::Sub(xs[s], mean)))
}

/// The sum of the squares of the first `n` samples.
pub open spec fn energy_upto<F: Fn(FloatOp) -> u64>(xs: Seq<u32>, n: int, f: F) -> u32
    decreases n,
{
    if n <= 0 {
        ZERO
    } else {
        value(
            f,
            FloatOp::Add(
                energy_upto(xs, n - 1, f),
                value(f, FloatOp::Mul(xs[n - 1], xs[n - 1])),
            ),
        )
    }
}

/// The logarithm of a value, or of [`EPSILON`] if that is larger.
pub open spec fn floored_log<F: Fn(FloatOp) -> u64>(x: u32, f: F) -> u32 {
    value(
        f,
        FloatOp::Ln(
            if is_nan_bits(x) || less(x, EPSILON) {
                EPSILON
            } else {
                x
            },
        ),
    )
}

/// The samples with a share of their predecessors taken out, and of itself for the first one.
pub open spec fn emphasised<F: Fn(FloatOp) -> u64>(xs: Seq<u32>, p: u32, f: F) -> Seq<u32> {
    if same(p, ZERO) {
        xs
    } else {
        Seq::new(
            xs.len(),
            |s: int|
                value(
                    f,
                    FloatOp::Sub(
                        xs[s],
                        value(
                            f,
                            FloatOp::Mul(
                                p,
                                xs[if s > 0 {
                                    s - 1
                                } else {
                                    0
                                }],
                            ),
                        ),
                    ),
                ),
        )
    }
}

/// The values multiplied one by one.
pub open spec fn times<F: Fn(FloatOp) -> u64>(xs: Seq<u32>, ws: Seq<u32>, f: F) -> Seq<u32> {
    Seq::new(xs.len(), |s: int| value(f, FloatOp::Mul(xs[s], ws[s])))
}

/// The samples of a frame after noise and mean.
pub open spec fn prepared<F: Fn(FloatOp) -> u64>(
    o: MfccOptions,
    xs: Seq<u32>,
    uniforms: Seq<u32>,
    f: F,
) -> Seq<u32> {
    let d = dithered(xs, o.dither, uniforms, f);
    if o.remove_dc_offset {
        centered(d, f)
    } else {
        d
    }
}

/// The windowed samples of a frame.
pub open spec fn windowed<F: Fn(FloatOp) -> u64>(
    o: MfccOptions,
    window: Seq<u32>,
    xs: Seq<u32>,
    uniforms: Seq<u32>,
    f: F,
) -> Seq<u32> {
    times(emphasised(prepared(o, xs, uniforms, f), o.preemph, f), window, f)
}

/// The logarithm of a frame's energy: before the window, or after it.
pub open spec fn log_energy<F: Fn(FloatOp) -> u64>(
    o: MfccOptions,
    window: Seq<u32>,
    xs: Seq<u32>,
    uniforms: Seq<u32>,
    f: F,
) -> u32 {
    let ys = if o.raw_energy {
        prepared(o, xs, uniforms, f)
    } else {
        windowed(o, window, xs, uniforms, f)
    };
    floored_log(energy_upto(ys, ys.len() as int, f), f)
}

/// The power spectrum from its real and imaginary parts.
pub open spec fn power_of<F: Fn(FloatOp) -> u64>(re: Seq<u32>, im: Seq<u32>, f: F) -> Seq<u32> {
    Seq::new(
        re.len(),
        |k: int|
            value(
                f,
                FloatOp::Add(
                    value(f, FloatOp::Mul(re[k], re[k])),
                    value(f, FloatOp::Mul(im[k], im[k])),
                ),
            ),
    )
}

/// What computes cepstra.
#[derive(Clone, Debug)]
pub struct MfccComputer {
    pub opts: MfccOptions,
    pub window_function: Vec<u32>,
    pub mel_banks: MelBanks,
    pub dct: Matrix,
    pub lifter: Option<Vec<u32>>,
    pub log_energy_floor: u32,
}

impl MfccComputer {
    /// The computer is the one for the options.
    pub open spec fn is_for<F: Fn(FloatOp) -> u64>(self, o: MfccOptions, f: F) -> bool {
        &&& self.opts == o
        &&& self.window_function@ == window_function(o, f)
        &&& is_bank(self.mel_banks.bins@, o, o.vtln_warp, o.padded_length(f), f)
        &&& self.dct@ == tabulated(
            o.num_ceps as int,
            o.num_mel_bins as int,
            |k: int, j: int| dct_at(o.num_mel_bins as int, k, j, f),
        )
        &&& match self.lifter {
            Some(l) => !same(o.cepstral_lifter, ZERO) && l@ == lifter(
                o.cepstral_lifter,
                o.num_ceps as int,
                f,
            ),
            None => same(o.cepstral_lifter, ZERO),
        }
        &&& self.log_energy_floor == (if less(ZERO, o.energy_floor) {
            value(f, FloatOp::Ln(o.energy_floor))
        } else {
            ZERO
        })
    }

    /// The logarithms of the filters' energies in a power spectrum.
    pub open spec fn log_mels<F: Fn(FloatOp) -> u64>(self, power: Seq<u32>, f: F) -> Seq<u32> {
        Seq::new(
            self.mel_banks.bins@.len(),
            |i: int|
                floored_log(
                    energy_of(
                        self.mel_banks.bins@[i]@,
                        power,
                        self.mel_banks.bins@[i].weights@.len() as int,
                        f,
                    ),
                    f,
                ),
        )
    }

    /// The cepstra of a power spectrum, liftered if there is a lifter.
    pub open spec fn cepstra<F: Fn(FloatOp) -> u64>(self, power: Seq<u32>, f: F) -> Seq<u32> {
        let logs = self.log_mels(power, f);
        let raw = Seq::new(
            self.dct@.rows.len(),
            |k: int| dot(self.dct@.rows[k], logs, logs.len() as int, f),
        );
        match self.lifter {
            Some(l) => times(raw, l@, f),
            None => raw,
        }
    }

    /// The cepstra with the first one replaced by the energy, not below its floor, if asked for.
    pub open spec fn with_energy(self, ceps: Seq<u32>, energy: u32) -> Seq<u32> {
        if self.opts.use_energy {
            ceps.update(
                0,
                if less(ZERO, self.opts.energy_floor) && less(energy, self.log_energy_floor) {
                    self.log_energy_floor
                } else {
                    energy
                },
            )
        } else {
            ceps
        }
    }

    /// The cepstra in their order: as they are, or with the first one at the end, scaled unless it
    /// is the energy.
    pub open spec fn ordered<F: Fn(FloatOp) -> u64>(self, ceps: Seq<u32>, f: F) -> Seq<u32> {
        if self.opts.htk_compat {
            ceps.skip(1).push(
                if self.opts.use_energy {
                    ceps[0]
                } else {
                    value(f, FloatOp::Mul(ceps[0], ROOT_TWO))
                },
            )
        } else {
            ceps
        }
    }

    /// The features of a frame with the samples `xs`, from the parts of its spectrum.
    pub open spec fn row_of<F: Fn(FloatOp) -> u64>(
        self,
        xs: Seq<u32>,
        uniforms: Seq<u32>,
        re: Seq<u32>,
        im: Seq<u32>,
        f: F,
    ) -> Seq<u32> {
        self.ordered(
            self.with_energy(
                self.cepstra(power_of(re, im, f), f),
                log_energy(self.opts, self.window_function@, xs, uniforms, f),
            ),
            f,
        )
    }
}

/// The function gives the parts of the spectrum of any padded window.
pub open spec fn is_fft<T: Fn(Vec<u32>) -> (Vec<u32>, Vec<u32>)>(t: T, padded: int) -> bool {
    &&& forall|w: Vec<u32>| w@.len() == padded ==> #[trigger] call_requires(t, (w,))
    &&& forall|w: Vec<u32>, s: (Vec<u32>, Vec<u32>)|
        w@.len() == padded && #[trigger] call_ensures(t, (w,), s) ==> s.0@.len() == padded / 2 + 1
            && s.1@.len() == padded / 2 + 1
}

/// The function can answer with this spectrum for a window.
pub open spec fn is_spectrum<T: Fn(Vec<u32>) -> (Vec<u32>, Vec<u32>)>(
    t: T,
    window: Seq<u32>,
    re: Seq<u32>,
    im: Seq<u32>,
) -> bool {
    exists|w: Vec<u32>, s: (Vec<u32>, Vec<u32>)|
        w@ == window && s.0@ == re && s.1@ == im && #[trigger] call_ensures(t, (w,), s)
}

/// The wave in the scale of 16-bit samples.
pub open spec fn scaled_wave<F: Fn(FloatOp) -> u64>(samples: Seq<u32>, f: F) -> Seq<u32> {
    Seq::new(samples.len(), |i: int| value(f, FloatOp::Mul(samples[i], WAVE_SCALE)))
}

/// The uniform values for a frame.
pub open spec fn frame_noise(uniforms: Seq<u32>, dither: u32, frame: int, length: int) -> Seq<u32> {
    if same(dither, ZERO) {
        seq![]
    } else {
        uniforms.subrange(2 * (frame * length), 2 * (frame * length + length))
    }
}

fn add_noise<F: Fn(FloatOp) -> u64>(xs: Vec<u32>, dither: u32, uniforms: &[u32], f: &F) -> (r: Vec<u32>)
    requires
        is_evaluator(*f),
        same(dither, ZERO) || uniforms@.len() == 2 * xs@.len(),
    ensures
        r@ == dithered(xs@, dither, uniforms@, *f),
        r@.len() == xs@.len(),
{
    if eq(dither, ZERO) {
        return xs;
    }
    let fg: Ghost<F> = Ghost(*f);
    let total: usize = uniforms.len();
    let x = &xs;
    let item = |s: usize| -> (v: u32)
        requires
            s < x@.len(),
        ensures
            v == value(
                fg@,
                FloatOp::Add(
                    x@[s as int],
                    value(
                        fg@,
                        FloatOp::Mul(
                            dither_of(uniforms@[2 * s], uniforms@[2 * s + 1], fg@),
                            dither,
                        ),
                    ),
                ),
            ),
        {
            assert(2 * s + 1 < total);
            let noise: u32 = gauss(uniforms[2 * s], uniforms[2 * s + 1], f);
            eval(f, FloatOp::Add(x[s], eval(f, FloatOp::Mul(noise, dither))))
        };
    list_of(
        x.len(),
        &item,
        Ghost(
            |s: int|
                value(
                    *f,
                    FloatOp::Add(
                        x@[s],
                        value(
                            *f,
                            FloatOp::Mul(
                                dither_of(uniforms@[2 * s], uniforms@[2 * s + 1], *f),
                                dither,
                            ),
                        ),
                    ),
                ),
        ),
    )
}

fn center<F: Fn(FloatOp) -> u64>(xs: &Vec<u32>, f: &F) -> (r: Vec<u32>)
    requires
        is_evaluator(*f),
    ensures
        r@ == centered(xs@, *f),
        r@.len() == xs@.len(),
{
    let fg: Ghost<F> = Ghost(*f);
    let sum: u32 = sum_of(xs.as_slice(), f);
    let mean: u32 = eval(f, FloatOp::Div(sum, eval(f, FloatOp::Count(xs.len() as u64))));
    let item = |s: usize| -> (v: u32)
        requires
            s < xs@.len(),
        ensures
            v == value(fg@, FloatOp::Sub(xs@[s as int], mean)),
        { eval(f, FloatOp::Sub(xs[s], mean)) };
    list_of(xs.len(), &item, Ghost(|s: int| value(*f, FloatOp::Sub(xs@[s], mean))))
}

fn floor_log<F: Fn(FloatOp) -> u64>(x: u32, f: &F) -> (r: u32)
    requires
        is_evaluator(*f),
    ensures
        r == floored_log(x, *f),
{
    let y: u32 = if is_nan(x) || lt(x, EPSILON) {
        EPSILON
    } else {
        x
    };
    eval(f, FloatOp::Ln(y))
}

fn log_energy_of<F: Fn(FloatOp) -> u64>(xs: &Vec<u32>, f: &F) -> (r: u32)
    requires
        is_evaluator(*f),
    ensures
        r == floored_log(energy_upto(xs@, xs@.len() as int, *f), *f),
{
    let mut e: u32 = ZERO;
    let mut i: usize = 0;
    while i < xs.len()
        invariant
            is_evaluator(*f),
            i <= xs@.len(),
            e == energy_upto(xs@, i as int, *f),
        decreases xs.len() - i,
    {
        e = eval(f, FloatOp::Add(e, eval(f, FloatOp::Mul(xs[i], xs[i]))));
        i += 1;
    }
    floor_log(e, f)
}

fn emphasise<F: Fn(FloatOp) -> u64>(xs: Vec<u32>, p: u32, f: &F) -> (r: Vec<u32>)
    requires
        is_evaluator(*f),
    ensures
        r@ == emphasised(xs@, p, *f),
        r@.len() == xs@.len(),
{
    if eq(p, ZERO) {
        return xs;
    }
    let fg: Ghost<F> = Ghost(*f);
    let x = &xs;
    let item = |s: usize| -> (v: u32)
        requires
            s < x@.len(),
        ensures
            v == value(
                fg@,
                FloatOp::Sub(
                    x@[s as int],
                    value(
                        fg@,
                        FloatOp::Mul(
                            p,
                            x@[if s > 0 {
                                s - 1
                            } else {
                                0
                            }],
                        ),
                    ),
                ),
            ),
        {
            let before: usize = if s > 0 {
                s - 1
            } else {
                0
            };
            eval(f, FloatOp::Sub(x[s], eval(f, FloatOp::Mul(p, x[before]))))
        };
    list_of(
        x.len(),
        &item,
        Ghost(
            |s: int|
                value(
                    *f,
                    FloatOp::Sub(
                        x@[s],
                        value(
                            *f,
                            FloatOp::Mul(
                                p,
                                x@[if s > 0 {
                                    s - 1
                                } else {
                                    0
                                }],
                            ),
                        ),
                    ),
                ),
        ),
    )
}

fn multiply<F: Fn(FloatOp) -> u64>(xs: &Vec<u32>, ws: &Vec<u32>, f: &F) -> (r: Vec<u32>)
    requires
        is_evaluator(*f),
        xs@.len() == ws@.len(),
    ensures
        r@ == times(xs@, ws@, *f),
        r@.len() == xs@.len(),
{
    let fg: Ghost<F> = Ghost(*f);
    let item = |s: usize| -> (v: u32)
        requires
            s < xs@.len(),
        ensures
            v == value(fg@, FloatOp::Mul(xs@[s as int], ws@[s as int])),
        { eval(f, FloatOp::Mul(xs[s], ws[s])) };
    list_of(xs.len(), &item, Ghost(|s: int| value(*f, FloatOp::Mul(xs@[s], ws@[s]))))
}

/// The samples of a frame of a signal, reflected at its ends.
pub fn extract_window(wave: &Vec<u32>, start: i64, length: usize) -> (r: Vec<u32>)
    requires
        0 < wave@.len() <= i64::MAX,
        length <= i64::MAX,
        start + length <= i64::MAX,
    ensures
        r@ == frame_samples(wave@, start as int, length as int),
{
    let n: usize = wave.len();
    let item = |s: usize| -> (v: u32)
        requires
            s < length,
        ensures
            v == wave@[reflected(s + start, n as int)],
        { wave[reflect(s as i64 + start, n)] };
    list_of(length, &item, Ghost(|s: int| wave@[reflected(s + start, n as int)]))
}

/// Process the samples of a frame: its windowed samples, and the logarithm of its energy.
pub fn process_window<F: Fn(FloatOp) -> u64>(
    opts: &MfccOptions,
    window: &Vec<u32>,
    xs: Vec<u32>,
    uniforms: &[u32],
    f: &F,
) -> (r: (Vec<u32>, u32))
    requires
        is_evaluator(*f),
        xs@.len() == window@.len(),
        same(opts.dither, ZERO) || uniforms@.len() == 2 * xs@.len(),
    ensures
        r.0@ == windowed(*opts, window@, xs@, uniforms@, *f),
        r.0@.len() == xs@.len(),
        opts.use_energy ==> r.1 == log_energy(*opts, window@, xs@, uniforms@, *f),
        !opts.use_energy ==> r.1 == ZERO,
{
    let noisy = add_noise(xs, opts.dither, uniforms, f);
    let ready = if opts.remove_dc_offset {
        center(&noisy, f)
    } else {
        noisy
    };
    let mut energy: u32 = ZERO;
    if opts.use_energy && opts.raw_energy {
        energy = log_energy_of(&ready, f);
    }
    let sharp = emphasise(ready, opts.preemph, f);
    let out = multiply(&sharp, window, f);
    if opts.use_energy && !opts.raw_energy {
        energy = log_energy_of(&out, f);
    }
    (out, energy)
}

/// The power spectrum from its real and imaginary parts.
pub fn compute_power_spectrum<F: Fn(FloatOp) -> u64>(re: &Vec<u32>, im: &Vec<u32>, f: &F) -> (r: Vec<
    u32,
>)
    requires
        is_evaluator(*f),
        re@.len() == im@.len(),
    ensures
        r@ == power_of(re@, im@, *f),
{
    let fg: Ghost<F> = Ghost(*f);
    let item = |k: usize| -> (v: u32)
        requires
            k < re@.len(),
        ensures
            v == value(
                fg@,
                FloatOp::Add(
                    value(fg@, FloatOp::Mul(re@[k as int], re@[k as int])),
                    value(fg@, FloatOp::Mul(im@[k as int], im@[k as int])),
                ),
            ),
        {
            let a: u32 = eval(f, FloatOp::Mul(re[k], re[k]));
            eval(f, FloatOp::Add(a, eval(f, FloatOp::Mul(im[k], im[k]))))
        };
    list_of(
        re.len(),
        &item,
        Ghost(
            |k: int|
                value(
                    *f,
                    FloatOp::Add(
                        value(*f, FloatOp::Mul(re@[k], re@[k])),
                        value(*f, FloatOp::Mul(im@[k], im@[k])),
                    ),
                ),
        ),
    )
}

/// The options have a computer: cepstra, at most as many as mel bins, and a filterbank over windows
/// that are not empty and whose length, rounded up, fits in its type.
pub open spec fn can_compute<F: Fn(FloatOp) -> u64>(o: MfccOptions, f: F) -> bool {
    &&& 0 < o.num_ceps <= o.num_mel_bins
    &&& o.num_mel_bins < u32::MAX - 2
    &&& 0 < o.length(f) <= i64::MAX
    &&& o.round_to_power_of_two ==> o.length(f) <= usize::MAX / 2 + 1
    &&& has_filters(o, o.vtln_warp, o.padded_length(f), f)
}

impl MfccComputer {
    /// The computer for the options.
    pub fn new<F: Fn(FloatOp) -> u64>(opts: MfccOptions, f: &F) -> (r: Self)
        requires
            is_evaluator(*f),
            can_compute(opts, *f),
        ensures
            r.is_for(opts, *f),
    {
        let window_function = make_window_function(&opts, f);
        let mel_banks = MelBanks::new(&opts, opts.vtln_warp, f);
        let dct = dct_matrix(opts.num_ceps as usize, opts.num_mel_bins as usize, f);
        let lifter = if !eq(opts.cepstral_lifter, ZERO) {
            Some(lifter_coeffs(opts.cepstral_lifter, opts.num_ceps as usize, f))
        } else {
            None
        };
        let log_energy_floor: u32 = if lt(ZERO, opts.energy_floor) {
            eval(f, FloatOp::Ln(opts.energy_floor))
        } else {
            ZERO
        };
        MfccComputer { opts, window_function, mel_banks, dct, lifter, log_energy_floor }
    }

    pub fn opts(&self) -> (r: &MfccOptions)
        ensures
            *r == self.opts,
    {
        &self.opts
    }

    /// How many features a frame has.
    pub fn dim(&self) -> (r: usize)
        ensures
            r == self.opts.num_ceps,
    {
        self.opts.num_ceps as usize
    }

    pub fn frame_shift_s<F: Fn(FloatOp) -> u64>(&self, f: &F) -> (r: u32)
        requires
            is_evaluator(*f),
        ensures
            r == value(
                *f,
                FloatOp::Div(self.opts.frame_shift_ms, crate::feat::options::THOUSAND),
            ),
    {
        self.opts.frame_shift_s(f)
    }

    /// How many frames so many samples have.
    pub fn num_frames<F: Fn(FloatOp) -> u64>(&self, num_samples: usize, f: &F) -> (r: usize)
        requires
            is_evaluator(*f),
            can_count(
                num_samples as int,
                self.opts.snip_edges,
                self.opts.shift(*f) as int,
                self.opts.length(*f) as int,
            ),
        ensures
            r == frame_count(
                num_samples as int,
                self.opts.snip_edges,
                self.opts.shift(*f) as int,
                self.opts.length(*f) as int,
            ),
    {
        num_frames(num_samples, &self.opts, f)
    }

    /// The features of a frame from the parts of its spectrum and the logarithm of its energy.
    pub fn finish_frame<F: Fn(FloatOp) -> u64>(
        &self,
        re: &Vec<u32>,
        im: &Vec<u32>,
        energy: u32,
        f: &F,
    ) -> (r: Vec<u32>)
        requires
            is_evaluator(*f),
            can_compute(self.opts, *f),
            self.is_for(self.opts, *f),
            re@.len() == self.opts.padded_length(*f) / 2 + 1,
            im@.len() == re@.len(),
        ensures
            r@ == self.ordered(
                self.with_energy(self.cepstra(power_of(re@, im@, *f), *f), energy),
                *f,
            ),
            r@.len() == self.opts.num_ceps,
    {
        let ghost o = self.opts;
        let padded: usize = self.opts.padded_window_size(f);
        let power = compute_power_spectrum(re, im, f);
        proof {
            assert forall|i: int| 0 <= i < self.mel_banks.bins@.len() implies (
            #[trigger] self.mel_banks.bins@[i]).first + self.mel_banks.bins@[i].weights@.len()
                <= power@.len() by {
                bank_fits(self.mel_banks.bins@, o, o.vtln_warp, padded as int, *f, i);
            }
        }
        let mels = self.mel_banks.compute(&power, f);
        let fg: Ghost<F> = Ghost(*f);
        let mel_item = |i: usize| -> (v: u32)
            requires
                i < mels@.len(),
            ensures
                v == floored_log(mels@[i as int], fg@),
            { floor_log(mels[i], f) };
        let logs = list_of(mels.len(), &mel_item, Ghost(|i: int| floored_log(mels@[i], *f)));
        assert(logs@ =~= self.log_mels(power@, *f));
        let bins: usize = logs.len();
        let num_ceps: usize = self.opts.num_ceps as usize;
        let dct = &self.dct;
        proof {
            assert(dct@.rows.len() == num_ceps);
            assert(dct.rows@.len() == num_ceps);
            assert forall|k: int| 0 <= k < num_ceps implies (#[trigger] dct.rows@[k])@.len()
                == bins by {
                assert(dct@.rows[k] == dct.rows@[k]@);
            }
        }
        let cep_item = |k: usize| -> (v: u32)
            requires
                k < num_ceps,
            ensures
                v == dot(dct@.rows[k as int], logs@, bins as int, fg@),
            {
                assert(dct@.rows[k as int] == dct.rows@[k as int]@);
                dot_of(&dct.rows[k], &logs, bins, f)
            };
        let raw = list_of(
            num_ceps,
            &cep_item,
            Ghost(|k: int| dot(dct@.rows[k], logs@, bins as int, *f)),
        );
        let mut row = match &self.lifter {
            Some(l) => multiply(&raw, l, f),
            None => raw,
        };
        assert(row@ =~= self.cepstra(power@, *f));
        if self.opts.use_energy {
            let e: u32 = if lt(ZERO, self.opts.energy_floor) && lt(energy, self.log_energy_floor) {
                self.log_energy_floor
            } else {
                energy
            };
            row.set(0, e);
        }
        if self.opts.htk_compat {
            let last: u32 = if self.opts.use_energy {
                row[0]
            } else {
                eval(f, FloatOp::Mul(row[0], ROOT_TWO))
            };
            let mut turned: Vec<u32> = Vec::new();
            turned.extend_from_slice(slice_subrange(row.as_slice(), 1, row.len()));
            assert(turned@ =~= row@.skip(1));
            turned.push(last);
            return turned;
        }
        row
    }

    /// The features of one frame.
    fn compute_frame<F: Fn(FloatOp) -> u64, T: Fn(Vec<u32>) -> (Vec<u32>, Vec<u32>)>(
        &self,
        wave: &Vec<u32>,
        frame: usize,
        uniforms: &[u32],
        f: &F,
        fft: &T,
    ) -> (r: Vec<u32>)
        requires
            is_evaluator(*f),
            can_compute(self.opts, *f),
            self.is_for(self.opts, *f),
            is_fft(*fft, self.opts.padded_length(*f)),
            0 < wave@.len() <= i64::MAX,
            frame * self.opts.shift(*f) + self.opts.shift(*f) <= i64::MAX,
            frame_start(
                frame as int,
                self.opts.snip_edges,
                self.opts.shift(*f) as int,
                self.opts.length(*f) as int,
            ) + self.opts.length(*f) <= i64::MAX,
            same(self.opts.dither, ZERO) || uniforms@.len() == 2 * self.opts.length(*f),
            same(self.opts.dither, ZERO) ==> uniforms@ == Seq::<u32>::empty(),
        ensures
            self.is_row(r@, wave@, frame as int, uniforms@, *f, *fft),
            r@.len() == self.opts.num_ceps,
    {
        let length: usize = self.opts.window_size(f);
        let padded: usize = self.opts.padded_window_size(f);
        proof {
            let (a, s) = (frame as int, self.opts.shift(*f) as int);
            assert(0 <= a * s) by (nonlinear_arith)
                requires
                    0 <= a,
                    0 <= s,
            ;
            padded_is_enough(self.opts, *f);
        }
        let start: i64 = first_sample_of_frame(frame, &self.opts, f);
        let xs = extract_window(wave, start, length);
        let ghost samples = xs@;
        let (mut window, energy) = process_window(
            &self.opts,
            &self.window_function,
            xs,
            uniforms,
            f,
        );
        let ghost shaped = window@;
        let mut k: usize = length;
        while k < padded
            invariant
                length <= k <= padded,
                shaped.len() == length,
                window@ == shaped + Seq::new((k - length) as nat, |k: int| ZERO),
            decreases padded - k,
        {
            window.push(ZERO);
            assert(window@ =~= shaped + Seq::new((k + 1 - length) as nat, |k: int| ZERO));
            k += 1;
        }
        let ghost input = window;
        let (re, im) = fft(window);
        let row = self.finish_frame(&re, &im, energy, f);
        proof {
            assert(call_ensures(*fft, (input,), (re, im)));
            assert(is_spectrum(*fft, input@, re@, im@));
            if !self.opts.use_energy {
                let c = self.cepstra(power_of(re@, im@, *f), *f);
                assert(self.with_energy(c, energy) == c);
            }
            assert(row@ == self.row_of(samples, uniforms@, re@, im@, *f));
            assert(self.is_row(row@, wave@, frame as int, uniforms@, *f, *fft));
        }
        row
    }

    /// The row can be the features of a frame of the wave: they come from a spectrum of the frame's
    /// windowed samples, padded with zeros.
    pub open spec fn is_row<F: Fn(FloatOp) -> u64, T: Fn(Vec<u32>) -> (Vec<u32>, Vec<u32>)>(
        self,
        row: Seq<u32>,
        wave: Seq<u32>,
        frame: int,
        uniforms: Seq<u32>,
        f: F,
        fft: T,
    ) -> bool {
        let o = self.opts;
        let length = o.length(f) as int;
        let xs = frame_samples(
            wave,
            frame_start(frame, o.snip_edges, o.shift(f) as int, length),
            length,
        );
        let window = windowed(o, self.window_function@, xs, uniforms, f) + Seq::new(
            (o.padded_length(f) - length) as nat,
            |k: int| ZERO,
        );
        exists|re: Seq<u32>, im: Seq<u32>| #[trigger]
            is_spectrum(fft, window, re, im) && row == self.row_of(xs, uniforms, re, im, f)
    }

    /// The matrix can be the features of the samples: one row per frame.
    pub open spec fn are_features<F: Fn(FloatOp) -> u64, T: Fn(Vec<u32>) -> (Vec<u32>, Vec<u32>)>(
        self,
        m: MatrixView,
        samples: Seq<u32>,
        uniforms: Seq<u32>,
        f: F,
        fft: T,
    ) -> bool {
        let o = self.opts;
        let length = o.length(f) as int;
        &&& m.cols == o.num_ceps
        &&& m.wf()
        &&& m.rows.len() == (if samples.len() == 0 {
            0
        } else {
            frame_count(samples.len() as int, o.snip_edges, o.shift(f) as int, length)
        })
        &&& forall|r: int|
            0 <= r < m.rows.len() ==> self.is_row(
                #[trigger] m.rows[r],
                scaled_wave(samples, f),
                r,
                frame_noise(uniforms, o.dither, r, length),
                f,
                fft,
            )
    }

    /// The features of a signal with samples between -1 and 1. If there is noise to add, `uniforms`
    /// holds two uniform values for every sample of every frame.
    pub fn compute<F: Fn(FloatOp) -> u64, T: Fn(Vec<u32>) -> (Vec<u32>, Vec<u32>)>(
        &self,
        samples: &[u32],
        uniforms: &[u32],
        f: &F,
        fft: &T,
    ) -> (r: Matrix)
        requires
            is_evaluator(*f),
            can_compute(self.opts, *f),
            self.is_for(self.opts, *f),
            is_fft(*fft, self.opts.padded_length(*f)),
            can_count(
                samples@.len() as int,
                self.opts.snip_edges,
                self.opts.shift(*f) as int,
                self.opts.length(*f) as int,
            ),
            samples@.len() == 0 || frame_count(
                samples@.len() as int,
                self.opts.snip_edges,
                self.opts.shift(*f) as int,
                self.opts.length(*f) as int,
            ) == 0 || (samples@.len() + self.opts.shift(*f) <= i64::MAX && samples@.len()
                + self.opts.length(*f) <= i64::MAX),
            same(self.opts.dither, ZERO) || uniforms@.len() == 2 * (frame_count(
                samples@.len() as int,
                self.opts.snip_edges,
                self.opts.shift(*f) as int,
                self.opts.length(*f) as int,
            ) * self.opts.length(*f)),
        ensures
            self.are_features(r@, samples@, uniforms@, *f, *fft),
    {
        let fg: Ghost<F> = Ghost(*f);
        let frames: usize = if samples.len() == 0 {
            0
        } else {
            self.num_frames(samples.len(), f)
        };
        let dim: usize = self.dim();
        let length: usize = self.opts.window_size(f);
        let shift: usize = self.opts.window_shift(f);
        let total: usize = uniforms.len();
        let item = |i: usize| -> (v: u32)
            requires
                i < samples@.len(),
            ensures
                v == value(fg@, FloatOp::Mul(samples@[i as int], WAVE_SCALE)),
            { eval(f, FloatOp::Mul(samples[i], WAVE_SCALE)) };
        let wave = list_of(
            samples.len(),
            &item,
            Ghost(|i: int| value(*f, FloatOp::Mul(samples@[i], WAVE_SCALE))),
        );
        assert(wave@ =~= scaled_wave(samples@, *f));
        let quiet: bool = eq(self.opts.dither, ZERO);
        let empty: [u32; 0] = [];
        let mut rows: Vec<Vec<u32>> = Vec::new();
        let mut r: usize = 0;
        while r < frames
            invariant
                is_evaluator(*f),
                can_compute(self.opts, *f),
                self.is_for(self.opts, *f),
                is_fft(*fft, self.opts.padded_length(*f)),
                shift == self.opts.shift(*f),
                length == self.opts.length(*f),
                frames == 0 || 0 < shift,
                wave@ == scaled_wave(samples@, *f),
                frames == 0 || samples@.len() + shift <= i64::MAX,
                frames == 0 || samples@.len() + length <= i64::MAX,
                samples@.len() > 0 || frames == 0,
                frames == 0 || frames == frame_count(
                    samples@.len() as int,
                    self.opts.snip_edges,
                    shift as int,
                    length as int,
                ),
                quiet == same(self.opts.dither, ZERO),
                total == uniforms@.len(),
                quiet || frames == 0 || uniforms@.len() == 2 * (frames * length),
                empty@.len() == 0,
                r <= frames,
                rows@.len() == r,
                forall|k: int|
                    0 <= k < r ==> (#[trigger] rows@[k])@.len() == self.opts.num_ceps
                        && self.is_row(
                        rows@[k]@,
                        wave@,
                        k,
                        frame_noise(uniforms@, self.opts.dither, k, length as int),
                        *f,
                        *fft,
                    ),
            decreases frames - r,
        {
            proof {
                frame_is_near(
                    r as int,
                    samples@.len() as int,
                    self.opts.snip_edges,
                    shift as int,
                    length as int,
                );
                let (a, l) = (r as int, length as int);
                assert((a + 1) * l == a * l + l && 0 <= a * l) by (nonlinear_arith)
                    requires
                        0 <= a,
                        0 <= l,
                ;
                assert((a + 1) * l <= frames * l) by (nonlinear_arith)
                    requires
                        a + 1 <= frames,
                        0 <= l,
                ;
            }
            let noise: &[u32] = if quiet {
                slice_subrange(&empty, 0, 0)
            } else {
                slice_subrange(uniforms, 2 * (r * length), 2 * (r * length + length))
            };
            proof {
                assert(noise@ =~= frame_noise(uniforms@, self.opts.dither, r as int, length as int));
            }
            let row = self.compute_frame(&wave, r, noise, f, fft);
            rows.push(row);
            r += 1;
        }
        let out = Matrix { cols: dim, rows };
        proof {
            assert forall|k: int| 0 <= k < out@.rows.len() implies self.is_row(
                #[trigger] out@.rows[k],
                scaled_wave(samples@, *f),
                k,
                frame_noise(uniforms@, self.opts.dither, k, length as int),
                *f,
                *fft,
            ) by {
                assert(out@.rows[k] == rows@[k]@);
            }
            assert forall|k: int| 0 <= k < out@.rows.len() implies (#[trigger] out@.rows[k]).len()
                == out@.cols by {
                assert(out@.rows[k] == rows@[k]@);
            }
        }
        out
    }
}

proof fn padded_is_enough<F: Fn(FloatOp) -> u64>(o: MfccOptions, f: F)
    requires
        exists|n: int| o.is_padded_length(n, f),
    ensures
        o.length(f) <= o.padded_length(f),
{
}

/// No frame starts far outside the signal.
proof fn frame_is_near(frame: int, samples: int, snip_edges: bool, shift: int, length: int)
    requires
        0 <= samples,
        0 < shift,
        0 < length,
        0 <= frame < frame_count(samples, snip_edges, shift, length),
    ensures
        0 <= frame * shift,
        frame * shift + shift <= samples + shift,
        frame_start(frame, snip_edges, shift, length) + length <= samples + length,
{
    let n = frame_count(samples, snip_edges, shift, length);
    let top = if snip_edges {
        samples - length
    } else {
        samples + shift / 2
    };
    let q = top / shift;
    lemma_fundamental_div_mod(top, shift);
    lemma_mod_bound(top, shift);
    assert(frame <= q);
    assert(0 <= frame * shift <= q * shift) by (nonlinear_arith)
        requires
            0 <= frame <= q,
            0 < shift,
    ;
    if !snip_edges {
        assert(frame * shift + shift <= q * shift) by (nonlinear_arith)
            requires
                0 <= frame <= q - 1,
                0 < shift,
        ;
    }
    assert(q * shift <= top) by (nonlinear_arith)
        requires
            top == shift * q + top % shift,
            0 <= top % shift,
    ;
}

} // verus!
