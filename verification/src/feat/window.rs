//! Analysis windows, mel filterbanks, lifters and the cosine transform.

use vstd::prelude::*;
use vstd::slice::slice_subrange;

use crate::feat::options::{MfccOptions, WindowType};
use crate::float::{
    at_most, eq, eval, eval_wide, is_evaluator, is_nan, is_nan_bits, le, less, lt, same, value,
    wide_value, FloatOp, ONE, WIDE_ONE, ZERO,
};
use crate::gmm::matrix::{tabulated, Matrix};
use crate::gmm::mixing::{WIDE_PI, WIDE_TWO};
use crate::table::list_of;

verus! {

/// Double-precision 2 pi.
pub const WIDE_TURN: u64 = 0x4019_21fb_5444_2d18;

/// Double-precision 0.5.
pub const WIDE_HALF: u64 = 0x3fe0_0000_0000_0000;

/// Double-precision 0.54.
pub const HAMMING_OFFSET: u64 = 0x3fe1_47ae_147a_e148;

/// Double-precision 0.46.
pub const HAMMING_SCALE: u64 = 0x3fdd_70a3_d70a_3d71;

/// Double-precision 0.85.
pub const POVEY_POWER: u64 = 0x3feb_3333_3333_3333;

/// Single-precision 0.5.
pub const HALF: u32 = 0x3f00_0000;

/// Single-precision pi.
pub const PI: u32 = 0x4049_0fdb;

/// Single-precision 2 pi.
pub const TURN: u32 = 0x40c9_0fdb;

/// Single-precision -2.
pub const NEG_TWO: u32 = 0xc000_0000;

/// Single-precision 1127.
pub const MEL_SCALE: u32 = 0x448c_e000;

/// Single-precision 700.
pub const MEL_CORNER: u32 = 0x442f_0000;

/// The least positive normal single-precision value.
pub const MIN_POSITIVE: u32 = 0x0080_0000;

/// `offset - scale * cos(a * i)`.
pub open spec fn cosine_dip<F: Fn(FloatOp) -> u64>(offset: u64, scale: u64, a: u64, i: u64, f: F) -> u64 {
    wide_value(
        f,
        FloatOp::SubWide(
            offset,
            wide_value(
                f,
                FloatOp::MulWide(
                    scale,
                    wide_value(f, FloatOp::CosWide(wide_value(f, FloatOp::MulWide(a, i)))),
                ),
            ),
        ),
    )
}

/// The window at sample `i` of `length`.
pub open spec fn window_at<F: Fn(FloatOp) -> u64>(opts: MfccOptions, length: int, i: int, f: F) -> u32 {
    let a = wide_value(
        f,
        FloatOp::DivWide(WIDE_TURN, wide_value(f, FloatOp::CountWide((length - 1) as u64))),
    );
    let x = wide_value(f, FloatOp::CountWide(i as u64));
    let v = match opts.window {
        WindowType::Hanning => cosine_dip(WIDE_HALF, WIDE_HALF, a, x, f),
        WindowType::Sine => wide_value(
            f,
            FloatOp::SinWide(
                wide_value(
                    f,
                    FloatOp::MulWide(wide_value(f, FloatOp::MulWide(WIDE_HALF, a)), x),
                ),
            ),
        ),
        WindowType::Hamming => cosine_dip(HAMMING_OFFSET, HAMMING_SCALE, a, x, f),
        WindowType::Povey => wide_value(
            f,
            FloatOp::PowWide(cosine_dip(WIDE_HALF, WIDE_HALF, a, x, f), POVEY_POWER),
        ),
        WindowType::Rectangular => WIDE_ONE,
        WindowType::Blackman => {
            let c = wide_value(f, FloatOp::Widen(opts.blackman_coeff));
            wide_value(
                f,
                FloatOp::AddWide(
                    cosine_dip(c, WIDE_HALF, a, x, f),
                    wide_value(
                        f,
                        FloatOp::MulWide(
                            wide_value(f, FloatOp::SubWide(WIDE_HALF, c)),
                            wide_value(
                                f,
                                FloatOp::CosWide(
                                    wide_value(
                                        f,
                                        FloatOp::MulWide(
                                            wide_value(f, FloatOp::MulWide(WIDE_TWO, a)),
                                            x,
                                        ),
                                    ),
                                ),
                            ),
                        ),
                    ),
                ),
            )
        },
    };
    value(f, FloatOp::Narrow(v))
}

fn dip<F: Fn(FloatOp) -> u64>(offset: u64, scale: u64, a: u64, i: u64, f: &F) -> (r: u64)
    requires
        is_evaluator(*f),
    ensures
        r == cosine_dip(offset, scale, a, i, *f),
{
    let cos: u64 = eval_wide(f, FloatOp::CosWide(eval_wide(f, FloatOp::MulWide(a, i))));
    eval_wide(f, FloatOp::SubWide(offset, eval_wide(f, FloatOp::MulWide(scale, cos))))
}

fn window_sample<F: Fn(FloatOp) -> u64>(opts: &MfccOptions, length: usize, i: usize, f: &F) -> (r: u32)
    requires
        is_evaluator(*f),
        length > 0,
    ensures
        r == window_at(*opts, length as int, i as int, *f),
{
    let steps: u64 = eval_wide(f, FloatOp::CountWide((length - 1) as u64));
    let a: u64 = eval_wide(f, FloatOp::DivWide(WIDE_TURN, steps));
    let x: u64 = eval_wide(f, FloatOp::CountWide(i as u64));
    let v: u64 = match opts.window {
        WindowType::Hanning => dip(WIDE_HALF, WIDE_HALF, a, x, f),
        WindowType::Sine => {
            let half: u64 = eval_wide(f, FloatOp::MulWide(WIDE_HALF, a));
            eval_wide(f, FloatOp::SinWide(eval_wide(f, FloatOp::MulWide(half, x))))
        },
        WindowType::Hamming => dip(HAMMING_OFFSET, HAMMING_SCALE, a, x, f),
        WindowType::Povey => eval_wide(
            f,
            FloatOp::PowWide(dip(WIDE_HALF, WIDE_HALF, a, x, f), POVEY_POWER),
        ),
        WindowType::Rectangular => WIDE_ONE,
        WindowType::Blackman => {
            let c: u64 = eval_wide(f, FloatOp::Widen(opts.blackman_coeff));
            let two: u64 = eval_wide(f, FloatOp::MulWide(WIDE_TWO, a));
            let cos: u64 = eval_wide(f, FloatOp::CosWide(eval_wide(f, FloatOp::MulWide(two, x))));
            let rest: u64 = eval_wide(f, FloatOp::SubWide(WIDE_HALF, c));
            let tail: u64 = eval_wide(f, FloatOp::MulWide(rest, cos));
            eval_wide(f, FloatOp::AddWide(dip(c, WIDE_HALF, a, x, f), tail))
        },
    };
    eval(f, FloatOp::Narrow(v))
}

/// The window of the options.
pub open spec fn window_function<F: Fn(FloatOp) -> u64>(opts: MfccOptions, f: F) -> Seq<u32> {
    let length = opts.length(f) as int;
    Seq::new(length as nat, |i: int| window_at(opts, length, i, f))
}

/// The window of the options.
pub fn make_window_function<F: Fn(FloatOp) -> u64>(opts: &MfccOptions, f: &F) -> (r: Vec<u32>)
    requires
        is_evaluator(*f),
        opts.length(*f) > 0,
    ensures
        r@ == window_function(*opts, *f),
{
    let length: usize = opts.window_size(f);
    let fg: Ghost<F> = Ghost(*f);
    let item = |i: usize| -> (v: u32)
        ensures
            v == window_at(*opts, length as int, i as int, fg@),
        { window_sample(opts, length, i, f) };
    list_of(length, &item, Ghost(|i: int| window_at(*opts, length as int, i, *f)))
}

/// The lifter of `dim` cepstra: `1 + q / 2 * sin(pi * i / q)`.
pub open spec fn lifter<F: Fn(FloatOp) -> u64>(q: u32, dim: int, f: F) -> Seq<u32> {
    Seq::new(
        dim as nat,
        |i: int|
            {
                let angle = value(
                    f,
                    FloatOp::Div(
                        value(f, FloatOp::Mul(PI, value(f, FloatOp::Count(i as u64)))),
                        q,
                    ),
                );
                value(
                    f,
                    FloatOp::Add(
                        ONE,
                        value(
                            f,
                            FloatOp::Mul(
                                value(f, FloatOp::Mul(HALF, q)),
                                value(f, FloatOp::Sin(angle)),
                            ),
                        ),
                    ),
                )
            },
    )
}

/// The lifter of `dim` cepstra.
pub fn lifter_coeffs<F: Fn(FloatOp) -> u64>(q: u32, dim: usize, f: &F) -> (r: Vec<u32>)
    requires
        is_evaluator(*f),
    ensures
        r@ == lifter(q, dim as int, *f),
{
    let mut out: Vec<u32> = Vec::new();
    let mut i: usize = 0;
    while i < dim
        invariant
            is_evaluator(*f),
            i <= dim,
            out@ == lifter(q, dim as int, *f).take(i as int),
        decreases dim - i,
    {
        let step: u32 = eval(f, FloatOp::Mul(PI, eval(f, FloatOp::Count(i as u64))));
        let sin: u32 = eval(f, FloatOp::Sin(eval(f, FloatOp::Div(step, q))));
        let half: u32 = eval(f, FloatOp::Mul(HALF, q));
        out.push(eval(f, FloatOp::Add(ONE, eval(f, FloatOp::Mul(half, sin)))));
        assert(out@ =~= lifter(q, dim as int, *f).take(i + 1));
        i += 1;
    }
    assert(out@ =~= lifter(q, dim as int, *f));
    out
}

/// Entry `(k, j)` of the cosine transform of `bins` values.
pub open spec fn dct_at<F: Fn(FloatOp) -> u64>(bins: int, k: int, j: int, f: F) -> u32 {
    let n = wide_value(f, FloatOp::CountWide(bins as u64));
    if k == 0 {
        value(
            f,
            FloatOp::Narrow(
                wide_value(f, FloatOp::SqrtWide(wide_value(f, FloatOp::DivWide(WIDE_ONE, n)))),
            ),
        )
    } else {
        let norm = value(
            f,
            FloatOp::Narrow(
                wide_value(f, FloatOp::SqrtWide(wide_value(f, FloatOp::DivWide(WIDE_TWO, n)))),
            ),
        );
        let middle = wide_value(
            f,
            FloatOp::AddWide(wide_value(f, FloatOp::CountWide(j as u64)), WIDE_HALF),
        );
        let angle = wide_value(
            f,
            FloatOp::MulWide(
                wide_value(
                    f,
                    FloatOp::MulWide(wide_value(f, FloatOp::DivWide(WIDE_PI, n)), middle),
                ),
                wide_value(f, FloatOp::CountWide(k as u64)),
            ),
        );
        value(
            f,
            FloatOp::Mul(
                norm,
                value(f, FloatOp::Narrow(wide_value(f, FloatOp::CosWide(angle)))),
            ),
        )
    }
}

fn dct_entry<F: Fn(FloatOp) -> u64>(bins: usize, k: usize, j: usize, f: &F) -> (r: u32)
    requires
        is_evaluator(*f),
    ensures
        r == dct_at(bins as int, k as int, j as int, *f),
{
    let n: u64 = eval_wide(f, FloatOp::CountWide(bins as u64));
    if k == 0 {
        let one: u64 = eval_wide(f, FloatOp::DivWide(WIDE_ONE, n));
        eval(f, FloatOp::Narrow(eval_wide(f, FloatOp::SqrtWide(one))))
    } else {
        let two: u64 = eval_wide(f, FloatOp::DivWide(WIDE_TWO, n));
        let norm: u32 = eval(f, FloatOp::Narrow(eval_wide(f, FloatOp::SqrtWide(two))));
        let at: u64 = eval_wide(f, FloatOp::CountWide(j as u64));
        let middle: u64 = eval_wide(f, FloatOp::AddWide(at, WIDE_HALF));
        let step: u64 = eval_wide(f, FloatOp::DivWide(WIDE_PI, n));
        let part: u64 = eval_wide(f, FloatOp::MulWide(step, middle));
        let row: u64 = eval_wide(f, FloatOp::CountWide(k as u64));
        let angle: u64 = eval_wide(f, FloatOp::MulWide(part, row));
        let cos: u32 = eval(f, FloatOp::Narrow(eval_wide(f, FloatOp::CosWide(angle))));
        eval(f, FloatOp::Mul(norm, cos))
    }
}

/// The first `num_ceps` rows of the cosine transform of `num_bins` values.
pub fn dct_matrix<F: Fn(FloatOp) -> u64>(num_ceps: usize, num_bins: usize, f: &F) -> (r: Matrix)
    requires
        is_evaluator(*f),
        num_ceps > 0,
        num_bins > 0,
    ensures
        r@ == tabulated(
            num_ceps as int,
            num_bins as int,
            |k: int, j: int| dct_at(num_bins as int, k, j, *f),
        ),
{
    let fg: Ghost<F> = Ghost(*f);
    let entry = |k: usize, j: usize| -> (v: u32)
        ensures
            v == dct_at(num_bins as int, k as int, j as int, fg@),
        { dct_entry(num_bins, k, j, f) };
    Matrix::tabulate(
        num_ceps,
        num_bins,
        &entry,
        Ghost(|k: int, j: int| dct_at(num_bins as int, k, j, *f)),
    )
}

/// A frequency on the mel scale.
pub open spec fn mel_of<F: Fn(FloatOp) -> u64>(freq: u32, f: F) -> u32 {
    value(
        f,
        FloatOp::Mul(
            MEL_SCALE,
            value(
                f,
                FloatOp::Ln(
                    value(f, FloatOp::Add(ONE, value(f, FloatOp::Div(freq, MEL_CORNER)))),
                ),
            ),
        ),
    )
}

/// A frequency from the mel scale.
pub open spec fn freq_of<F: Fn(FloatOp) -> u64>(mel: u32, f: F) -> u32 {
    value(
        f,
        FloatOp::Mul(
            MEL_CORNER,
            value(
                f,
                FloatOp::Sub(
                    value(f, FloatOp::Exp(value(f, FloatOp::Div(mel, MEL_SCALE)))),
                    ONE,
                ),
            ),
        ),
    )
}

/// How frequencies are warped: between two cutoffs by the inverse of a factor, and linearly from
/// there to the ends of the band, which stay.
#[derive(Clone, Copy, Debug, PartialEq, Eq, Structural)]
pub struct Warp {
    pub low_cutoff: u32,
    pub high_cutoff: u32,
    pub low_freq: u32,
    pub high_freq: u32,
    pub factor: u32,
}

/// The larger of one and a value.
pub open spec fn at_least_one(x: u32) -> u32 {
    if !is_nan_bits(x) && less(ONE, x) {
        x
    } else {
        ONE
    }
}

/// The smaller of one and a value.
pub open spec fn at_most_one(x: u32) -> u32 {
    if !is_nan_bits(x) && less(x, ONE) {
        x
    } else {
        ONE
    }
}

/// A warped frequency.
pub open spec fn warped<F: Fn(FloatOp) -> u64>(w: Warp, freq: u32, f: F) -> u32 {
    if less(freq, w.low_freq) || less(w.high_freq, freq) {
        freq
    } else {
        let l = value(f, FloatOp::Mul(w.low_cutoff, at_least_one(w.factor)));
        let h = value(f, FloatOp::Mul(w.high_cutoff, at_most_one(w.factor)));
        let scale = value(f, FloatOp::Div(ONE, w.factor));
        let fl = value(f, FloatOp::Mul(scale, l));
        let fh = value(f, FloatOp::Mul(scale, h));
        let scale_left = value(
            f,
            FloatOp::Div(
                value(f, FloatOp::Sub(fl, w.low_freq)),
                value(f, FloatOp::Sub(l, w.low_freq)),
            ),
        );
        let scale_right = value(
            f,
            FloatOp::Div(
                value(f, FloatOp::Sub(w.high_freq, fh)),
                value(f, FloatOp::Sub(w.high_freq, h)),
            ),
        );
        if less(freq, l) {
            value(
                f,
                FloatOp::Add(
                    w.low_freq,
                    value(
                        f,
                        FloatOp::Mul(scale_left, value(f, FloatOp::Sub(freq, w.low_freq))),
                    ),
                ),
            )
        } else if less(freq, h) {
            value(f, FloatOp::Mul(scale, freq))
        } else {
            value(
                f,
                FloatOp::Add(
                    w.high_freq,
                    value(
                        f,
                        FloatOp::Mul(scale_right, value(f, FloatOp::Sub(freq, w.high_freq))),
                    ),
                ),
            )
        }
    }
}

/// The mel frequency of a warped frequency.
pub open spec fn warped_mel<F: Fn(FloatOp) -> u64>(w: Warp, mel: u32, f: F) -> u32 {
    mel_of(warped(w, freq_of(mel, f), f), f)
}

/// One triangle of a filterbank, in mels.
#[derive(Clone, Copy, Debug, PartialEq, Eq, Structural)]
pub struct Triangle {
    pub left: u32,
    pub center: u32,
    pub right: u32,
}

/// The weight of a mel frequency inside a triangle.
pub open spec fn triangle_weight<F: Fn(FloatOp) -> u64>(t: Triangle, mel: u32, f: F) -> u32 {
    if at_most(mel, t.center) {
        value(
            f,
            FloatOp::Div(
                value(f, FloatOp::Sub(mel, t.left)),
                value(f, FloatOp::Sub(t.center, t.left)),
            ),
        )
    } else {
        value(
            f,
            FloatOp::Div(
                value(f, FloatOp::Sub(t.right, mel)),
                value(f, FloatOp::Sub(t.right, t.center)),
            ),
        )
    }
}

/// The mel frequency of a place in the spectrum.
pub open spec fn place_mel<F: Fn(FloatOp) -> u64>(width: u32, i: int, f: F) -> u32 {
    mel_of(value(f, FloatOp::Mul(width, value(f, FloatOp::Count(i as u64)))), f)
}

/// A place in the spectrum is inside a triangle.
pub open spec fn is_inside<F: Fn(FloatOp) -> u64>(t: Triangle, width: u32, i: int, f: F) -> bool {
    less(t.left, place_mel(width, i, f)) && less(place_mel(width, i, f), t.right)
}

/// The weight of a place in the spectrum: zero outside the triangle.
pub open spec fn place_weight<F: Fn(FloatOp) -> u64>(t: Triangle, width: u32, i: int, f: F) -> u32 {
    if is_inside(t, width, i, f) {
        triangle_weight(t, place_mel(width, i, f), f)
    } else {
        ZERO
    }
}

/// The first of the first `n` places inside a triangle.
pub open spec fn first_inside<F: Fn(FloatOp) -> u64>(t: Triangle, width: u32, n: int, f: F) -> Option<int>
    decreases n,
{
    if n <= 0 {
        None
    } else {
        match first_inside(t, width, n - 1, f) {
            Some(i) => Some(i),
            None => if is_inside(t, width, n - 1, f) {
                Some(n - 1)
            } else {
                None
            },
        }
    }
}

/// The last of the first `n` places inside a triangle.
pub open spec fn last_inside<F: Fn(FloatOp) -> u64>(t: Triangle, width: u32, n: int, f: F) -> int
    decreases n,
{
    if n <= 0 {
        0
    } else if is_inside(t, width, n - 1, f) {
        n - 1
    } else {
        last_inside(t, width, n - 1, f)
    }
}

/// A filter: the place of its first weight, and its weights from there on.
#[derive(Clone, Debug)]
pub struct MelBin {
    pub first: usize,
    pub weights: Vec<u32>,
}

/// What a filter is.
#[verifier::ext_equal]
pub struct BinView {
    pub first: int,
    pub weights: Seq<u32>,
}

impl View for MelBin {
    type V = BinView;

    open spec fn view(&self) -> BinView {
        BinView { first: self.first as int, weights: self.weights@ }
    }
}

/// The filter of a triangle over `n` places; none if no place is inside.
pub open spec fn bin_of<F: Fn(FloatOp) -> u64>(t: Triangle, width: u32, n: int, f: F) -> Option<BinView> {
    match first_inside(t, width, n, f) {
        None => None,
        Some(first) => Some(
            BinView {
                first,
                weights: Seq::new(
                    (last_inside(t, width, n, f) + 1 - first) as nat,
                    |k: int| place_weight(t, width, first + k, f),
                ),
            },
        ),
    }
}

/// Every place that is inside a triangle has its weight in the filter.
pub proof fn filter_holds_the_triangle<F: Fn(FloatOp) -> u64>(t: Triangle, width: u32, n: int, i: int, f: F)
    requires
        0 <= i < n,
        is_inside(t, width, i, f),
    ensures
        bin_of(t, width, n, f) matches Some(b) && b.first <= i < b.first + b.weights.len() && b.first
            + b.weights.len() <= n && b.weights[i - b.first] == triangle_weight(
            t,
            place_mel(width, i, f),
            f,
        ),
{
    ends_are_inside(t, width, n, f);
    first_is_least(t, width, n, i, f);
}

proof fn first_is_least<F: Fn(FloatOp) -> u64>(t: Triangle, width: u32, n: int, i: int, f: F)
    requires
        0 <= i < n,
        is_inside(t, width, i, f),
    ensures
        first_inside(t, width, n, f) matches Some(a) && a <= i,
        i <= last_inside(t, width, n, f),
    decreases n,
{
    if i < n - 1 {
        first_is_least(t, width, n - 1, i, f);
    } else {
        ends_are_inside(t, width, n - 1, f);
    }
}

proof fn ends_are_inside<F: Fn(FloatOp) -> u64>(t: Triangle, width: u32, n: int, f: F)
    requires
        0 <= n,
    ensures
        first_inside(t, width, n, f) matches Some(a) ==> 0 <= a <= last_inside(t, width, n, f) < n,
    decreases n,
{
    if n > 0 {
        ends_are_inside(t, width, n - 1, f);
    }
}

/// The band of a filterbank.
#[derive(Clone, Copy, Debug, PartialEq, Eq, Structural)]
pub struct Band {
    pub low: u32,
    pub high: u32,
    pub vtln_low: u32,
    pub vtln_high: u32,
    pub nyquist: u32,
}

/// The band that the options ask for.
pub open spec fn band_of<F: Fn(FloatOp) -> u64>(o: MfccOptions, f: F) -> Band {
    let nyquist = value(f, FloatOp::Mul(HALF, value(f, FloatOp::Count(o.sample_rate as u64))));
    Band {
        low: o.low_freq,
        high: if less(ZERO, o.high_freq) {
            o.high_freq
        } else {
            value(f, FloatOp::Add(nyquist, o.high_freq))
        },
        vtln_low: o.vtln_low,
        vtln_high: if less(o.vtln_high, ZERO) {
            value(f, FloatOp::Add(o.vtln_high, nyquist))
        } else {
            o.vtln_high
        },
        nyquist,
    }
}

/// The band is inside that of the signal and, if frequencies are warped, so are the cutoffs.
pub open spec fn is_band(b: Band, factor: u32) -> bool {
    &&& at_most(ZERO, b.low)
    &&& less(b.low, b.nyquist)
    &&& less(ZERO, b.high)
    &&& at_most(b.high, b.nyquist)
    &&& less(b.low, b.high)
    &&& same(factor, ONE) || (at_most(ZERO, b.vtln_low) && less(b.low, b.vtln_low) && less(
        b.vtln_low,
        b.high,
    ) && less(ZERO, b.vtln_high) && less(b.vtln_high, b.high) && less(b.vtln_low, b.vtln_high))
}

/// A corner of a triangle: so many steps above the low end of the band, warped unless the factor is
/// one.
pub open spec fn corner<F: Fn(FloatOp) -> u64>(b: Band, bins: int, factor: u32, step: int, f: F) -> u32 {
    let low = mel_of(b.low, f);
    let delta = value(
        f,
        FloatOp::Div(
            value(f, FloatOp::Sub(mel_of(b.high, f), low)),
            value(f, FloatOp::Count((bins + 1) as u64)),
        ),
    );
    let mel = value(
        f,
        FloatOp::Add(low, value(f, FloatOp::Mul(value(f, FloatOp::Count(step as u64)), delta))),
    );
    if same(factor, ONE) {
        mel
    } else {
        warped_mel(
            Warp {
                low_cutoff: b.vtln_low,
                high_cutoff: b.vtln_high,
                low_freq: b.low,
                high_freq: b.high,
                factor,
            },
            mel,
            f,
        )
    }
}

/// Triangle `bin` of a filterbank.
pub open spec fn triangle<F: Fn(FloatOp) -> u64>(b: Band, bins: int, factor: u32, bin: int, f: F) -> Triangle {
    Triangle {
        left: corner(b, bins, factor, bin, f),
        center: corner(b, bins, factor, bin + 1, f),
        right: corner(b, bins, factor, bin + 2, f),
    }
}

/// Filter `bin` of the options' filterbank over a padded window of `padded` samples.
pub open spec fn filter_of<F: Fn(FloatOp) -> u64>(
    o: MfccOptions,
    factor: u32,
    padded: int,
    bin: int,
    f: F,
) -> Option<BinView> {
    let width = value(
        f,
        FloatOp::Div(
            value(f, FloatOp::Count(o.sample_rate as u64)),
            value(f, FloatOp::Count(padded as u64)),
        ),
    );
    bin_of(triangle(band_of(o, f), o.num_mel_bins as int, factor, bin, f), width, padded / 2, f)
}

/// The options have a filterbank: at least three bins, an even padded window, a sound band, and a
/// place inside every triangle.
pub open spec fn has_filters<F: Fn(FloatOp) -> u64>(o: MfccOptions, factor: u32, padded: int, f: F) -> bool {
    &&& o.num_mel_bins >= 3
    &&& padded % 2 == 0
    &&& is_band(band_of(o, f), factor)
    &&& forall|bin: int|
        0 <= bin < o.num_mel_bins ==> #[trigger] filter_of(o, factor, padded, bin, f) is Some
}

/// A bank of mel filters.
#[derive(Clone, Debug)]
pub struct MelBanks {
    pub bins: Vec<MelBin>,
}

/// The bank is that of the options.
pub open spec fn is_bank<F: Fn(FloatOp) -> u64>(
    b: Seq<MelBin>,
    o: MfccOptions,
    factor: u32,
    padded: int,
    f: F,
) -> bool {
    &&& b.len() == o.num_mel_bins
    &&& forall|i: int|
        0 <= i < b.len() ==> filter_of(o, factor, padded, i, f) == Some((#[trigger] b[i])@)
}

/// The energy of the first `n` weights of a filter.
pub open spec fn energy_of<F: Fn(FloatOp) -> u64>(b: BinView, power: Seq<u32>, n: int, f: F) -> u32
    decreases n,
{
    if n <= 0 {
        ZERO
    } else {
        value(
            f,
            FloatOp::Add(
                energy_of(b, power, n - 1, f),
                value(f, FloatOp::Mul(b.weights[n - 1], power[b.first + n - 1])),
            ),
        )
    }
}

fn mel_place<F: Fn(FloatOp) -> u64>(width: u32, i: usize, f: &F) -> (r: u32)
    requires
        is_evaluator(*f),
    ensures
        r == place_mel(width, i as int, *f),
{
    MelBanks::mel_scale(eval(f, FloatOp::Mul(width, eval(f, FloatOp::Count(i as u64)))), f)
}

fn weigh<F: Fn(FloatOp) -> u64>(t: &Triangle, mel: u32, f: &F) -> (r: u32)
    requires
        is_evaluator(*f),
    ensures
        r == triangle_weight(*t, mel, *f),
{
    if le(mel, t.center) {
        let up: u32 = eval(f, FloatOp::Sub(mel, t.left));
        eval(f, FloatOp::Div(up, eval(f, FloatOp::Sub(t.center, t.left))))
    } else {
        let down: u32 = eval(f, FloatOp::Sub(t.right, mel));
        eval(f, FloatOp::Div(down, eval(f, FloatOp::Sub(t.right, t.center))))
    }
}

fn make_bin<F: Fn(FloatOp) -> u64>(t: &Triangle, width: u32, n: usize, f: &F) -> (r: Option<MelBin>)
    requires
        is_evaluator(*f),
    ensures
        (match r {
            Some(b) => Some(b@),
            None => None,
        }) == bin_of(*t, width, n as int, *f),
{
    let mut weights: Vec<u32> = Vec::new();
    let mut first: Option<usize> = None;
    let mut last: usize = 0;
    let mut i: usize = 0;
    while i < n
        invariant
            is_evaluator(*f),
            i <= n,
            weights@ == Seq::new(i as nat, |k: int| place_weight(*t, width, k, *f)),
            (match first {
                Some(a) => Some(a as int),
                None => None,
            }) == first_inside(*t, width, i as int, *f),
            last == last_inside(*t, width, i as int, *f),
        decreases n - i,
    {
        let mel: u32 = mel_place(width, i, f);
        if lt(t.left, mel) && lt(mel, t.right) {
            weights.push(weigh(t, mel, f));
            if first.is_none() {
                first = Some(i);
            }
            last = i;
        } else {
            weights.push(ZERO);
        }
        assert(weights@ =~= Seq::new((i + 1) as nat, |k: int| place_weight(*t, width, k, *f)));
        i += 1;
    }
    proof {
        ends_are_inside(*t, width, n as int, *f);
    }
    match first {
        None => None,
        Some(a) => {
            let mut kept: Vec<u32> = Vec::new();
            kept.extend_from_slice(slice_subrange(weights.as_slice(), a, last + 1));
            let b = MelBin { first: a, weights: kept };
            assert(b@.weights =~= bin_of(*t, width, n as int, *f)->0.weights);
            Some(b)
        },
    }
}

fn make_corner<F: Fn(FloatOp) -> u64>(b: &Band, bins: u32, factor: u32, step: u32, f: &F) -> (r: u32)
    requires
        is_evaluator(*f),
        bins < u32::MAX,
    ensures
        r == corner(*b, bins as int, factor, step as int, *f),
{
    let low: u32 = MelBanks::mel_scale(b.low, f);
    let high: u32 = MelBanks::mel_scale(b.high, f);
    let span: u32 = eval(f, FloatOp::Sub(high, low));
    let delta: u32 = eval(f, FloatOp::Div(span, eval(f, FloatOp::Count(bins as u64 + 1))));
    let up: u32 = eval(f, FloatOp::Mul(eval(f, FloatOp::Count(step as u64)), delta));
    let mel: u32 = eval(f, FloatOp::Add(low, up));
    if eq(factor, ONE) {
        mel
    } else {
        let w = Warp {
            low_cutoff: b.vtln_low,
            high_cutoff: b.vtln_high,
            low_freq: b.low,
            high_freq: b.high,
            factor,
        };
        MelBanks::vtln_warp_mel_freq(&w, mel, f)
    }
}

fn make_band<F: Fn(FloatOp) -> u64>(o: &MfccOptions, f: &F) -> (r: Band)
    requires
        is_evaluator(*f),
    ensures
        r == band_of(*o, *f),
{
    let nyquist: u32 = eval(f, FloatOp::Mul(HALF, eval(f, FloatOp::Count(o.sample_rate as u64))));
    let high: u32 = if lt(ZERO, o.high_freq) {
        o.high_freq
    } else {
        eval(f, FloatOp::Add(nyquist, o.high_freq))
    };
    let vtln_high: u32 = if lt(o.vtln_high, ZERO) {
        eval(f, FloatOp::Add(o.vtln_high, nyquist))
    } else {
        o.vtln_high
    };
    Band { low: o.low_freq, high, vtln_low: o.vtln_low, vtln_high, nyquist }
}

fn check_band(b: &Band, factor: u32) -> (r: bool)
    ensures
        r == is_band(*b, factor),
{
    le(ZERO, b.low) && lt(b.low, b.nyquist) && lt(ZERO, b.high) && le(b.high, b.nyquist) && lt(
        b.low,
        b.high,
    ) && (eq(factor, ONE) || (le(ZERO, b.vtln_low) && lt(b.low, b.vtln_low) && lt(
        b.vtln_low,
        b.high,
    ) && lt(ZERO, b.vtln_high) && lt(b.vtln_high, b.high) && lt(b.vtln_low, b.vtln_high)))
}

impl MelBanks {
    /// A frequency on the mel scale.
    pub fn mel_scale<F: Fn(FloatOp) -> u64>(freq: u32, f: &F) -> (r: u32)
        requires
            is_evaluator(*f),
        ensures
            r == mel_of(freq, *f),
    {
        let ratio: u32 = eval(f, FloatOp::Div(freq, MEL_CORNER));
        let log: u32 = eval(f, FloatOp::Ln(eval(f, FloatOp::Add(ONE, ratio))));
        eval(f, FloatOp::Mul(MEL_SCALE, log))
    }

    /// A frequency from the mel scale.
    pub fn inverse_mel_scale<F: Fn(FloatOp) -> u64>(mel: u32, f: &F) -> (r: u32)
        requires
            is_evaluator(*f),
        ensures
            r == freq_of(mel, *f),
    {
        let e: u32 = eval(f, FloatOp::Exp(eval(f, FloatOp::Div(mel, MEL_SCALE))));
        eval(f, FloatOp::Mul(MEL_CORNER, eval(f, FloatOp::Sub(e, ONE))))
    }

    /// A warped frequency.
    pub fn vtln_warp_freq<F: Fn(FloatOp) -> u64>(w: &Warp, freq: u32, f: &F) -> (r: u32)
        requires
            is_evaluator(*f),
        ensures
            r == warped(*w, freq, *f),
    {
        if lt(freq, w.low_freq) || lt(w.high_freq, freq) {
            return freq;
        }
        let up: u32 = if !is_nan(w.factor) && lt(ONE, w.factor) {
            w.factor
        } else {
            ONE
        };
        let down: u32 = if !is_nan(w.factor) && lt(w.factor, ONE) {
            w.factor
        } else {
            ONE
        };
        let l: u32 = eval(f, FloatOp::Mul(w.low_cutoff, up));
        let h: u32 = eval(f, FloatOp::Mul(w.high_cutoff, down));
        let scale: u32 = eval(f, FloatOp::Div(ONE, w.factor));
        let fl: u32 = eval(f, FloatOp::Mul(scale, l));
        let fh: u32 = eval(f, FloatOp::Mul(scale, h));
        let left_span: u32 = eval(f, FloatOp::Sub(l, w.low_freq));
        let scale_left: u32 = eval(
            f,
            FloatOp::Div(eval(f, FloatOp::Sub(fl, w.low_freq)), left_span),
        );
        let right_span: u32 = eval(f, FloatOp::Sub(w.high_freq, h));
        let scale_right: u32 = eval(
            f,
            FloatOp::Div(eval(f, FloatOp::Sub(w.high_freq, fh)), right_span),
        );
        if lt(freq, l) {
            let off: u32 = eval(f, FloatOp::Sub(freq, w.low_freq));
            eval(f, FloatOp::Add(w.low_freq, eval(f, FloatOp::Mul(scale_left, off))))
        } else if lt(freq, h) {
            eval(f, FloatOp::Mul(scale, freq))
        } else {
            let off: u32 = eval(f, FloatOp::Sub(freq, w.high_freq));
            eval(f, FloatOp::Add(w.high_freq, eval(f, FloatOp::Mul(scale_right, off))))
        }
    }

    /// The mel frequency of a warped frequency.
    pub fn vtln_warp_mel_freq<F: Fn(FloatOp) -> u64>(w: &Warp, mel: u32, f: &F) -> (r: u32)
        requires
            is_evaluator(*f),
        ensures
            r == warped_mel(*w, mel, *f),
    {
        let freq: u32 = Self::inverse_mel_scale(mel, f);
        Self::mel_scale(Self::vtln_warp_freq(w, freq, f), f)
    }

    /// The filterbank of the options; none if they have none.
    #[verifier::loop_isolation(false)]
    pub fn try_new<F: Fn(FloatOp) -> u64>(opts: &MfccOptions, factor: u32, f: &F) -> (r: Option<Self>)
        requires
            is_evaluator(*f),
            opts.round_to_power_of_two ==> 0 < opts.length(*f) <= usize::MAX / 2 + 1,
            opts.num_mel_bins < u32::MAX - 2,
        ensures
            r is Some <==> has_filters(*opts, factor, opts.padded_length(*f), *f),
            r matches Some(b) ==> is_bank(b.bins@, *opts, factor, opts.padded_length(*f), *f),
    {
        let padded: usize = opts.padded_window_size(f);
        if opts.num_mel_bins < 3 || padded % 2 != 0 {
            return None;
        }
        let band = make_band(opts, f);
        if !check_band(&band, factor) {
            return None;
        }
        let rate: u32 = eval(f, FloatOp::Count(opts.sample_rate as u64));
        let width: u32 = eval(f, FloatOp::Div(rate, eval(f, FloatOp::Count(padded as u64))));
        let mut bins: Vec<MelBin> = Vec::new();
        let mut bin: u32 = 0;
        while bin < opts.num_mel_bins
            invariant
                bin <= opts.num_mel_bins,
                bins@.len() == bin,
                forall|i: int|
                    0 <= i < bin ==> filter_of(*opts, factor, padded as int, i, *f) == Some(
                        (#[trigger] bins@[i])@,
                    ),
            decreases opts.num_mel_bins - bin,
        {
            let t = Triangle {
                left: make_corner(&band, opts.num_mel_bins, factor, bin, f),
                center: make_corner(&band, opts.num_mel_bins, factor, bin + 1, f),
                right: make_corner(&band, opts.num_mel_bins, factor, bin + 2, f),
            };
            let made = make_bin(&t, width, padded / 2, f);
            match made {
                None => {
                    assert(filter_of(*opts, factor, padded as int, bin as int, *f) is None);
                    return None;
                },
                Some(b) => {
                    bins.push(b);
                },
            }
            bin += 1;
        }
        assert(has_filters(*opts, factor, padded as int, *f)) by {
            assert forall|i: int| 0 <= i < opts.num_mel_bins implies #[trigger] filter_of(
                *opts,
                factor,
                padded as int,
                i,
                *f,
            ) is Some by {
                assert(filter_of(*opts, factor, padded as int, i, *f) == Some(bins@[i]@));
            }
        }
        Some(MelBanks { bins })
    }

    /// The filterbank of the options.
    pub fn new<F: Fn(FloatOp) -> u64>(opts: &MfccOptions, factor: u32, f: &F) -> (r: Self)
        requires
            is_evaluator(*f),
            opts.round_to_power_of_two ==> 0 < opts.length(*f) <= usize::MAX / 2 + 1,
            opts.num_mel_bins < u32::MAX - 2,
            has_filters(*opts, factor, opts.padded_length(*f), *f),
        ensures
            is_bank(r.bins@, *opts, factor, opts.padded_length(*f), *f),
    {
        Self::try_new(opts, factor, f).unwrap()
    }

    pub fn num_bins(&self) -> (r: usize)
        ensures
            r == self.bins@.len(),
    {
        self.bins.len()
    }

    /// The energies of the filters in a power spectrum.
    pub fn compute<F: Fn(FloatOp) -> u64>(&self, power: &Vec<u32>, f: &F) -> (r: Vec<u32>)
        requires
            is_evaluator(*f),
            forall|i: int|
                0 <= i < self.bins@.len() ==> (#[trigger] self.bins@[i]).first
                    + self.bins@[i].weights@.len() <= power@.len(),
        ensures
            r@ == Seq::new(
                self.bins@.len(),
                |i: int|
                    energy_of(self.bins@[i]@, power@, self.bins@[i].weights@.len() as int, *f),
            ),
    {
        let mut out: Vec<u32> = Vec::new();
        let mut i: usize = 0;
        while i < self.bins.len()
            invariant
                is_evaluator(*f),
                forall|i: int|
                    0 <= i < self.bins@.len() ==> (#[trigger] self.bins@[i]).first
                        + self.bins@[i].weights@.len() <= power@.len(),
                i <= self.bins@.len(),
                out@ == Seq::new(
                    i as nat,
                    |i: int|
                        energy_of(self.bins@[i]@, power@, self.bins@[i].weights@.len() as int, *f),
                ),
            decreases self.bins.len() - i,
        {
            let b = &self.bins[i];
            let total: usize = power.len();
            assert(b.first + b.weights@.len() <= total);
            let mut energy: u32 = ZERO;
            let mut k: usize = 0;
            while k < b.weights.len()
                invariant
                    is_evaluator(*f),
                    total == power@.len(),
                    b.first + b.weights@.len() <= total,
                    k <= b.weights@.len(),
                    energy == energy_of(b@, power@, k as int, *f),
                decreases b.weights.len() - k,
            {
                let part: u32 = eval(f, FloatOp::Mul(b.weights[k], power[b.first + k]));
                energy = eval(f, FloatOp::Add(energy, part));
                k += 1;
            }
            out.push(energy);
            assert(out@ =~= Seq::new(
                (i + 1) as nat,
                |i: int|
                    energy_of(self.bins@[i]@, power@, self.bins@[i].weights@.len() as int, *f),
            ));
            i += 1;
        }
        out
    }
}

/// The filters of a bank lie within half of the padded window.
pub proof fn bank_fits<F: Fn(FloatOp) -> u64>(
    b: Seq<MelBin>,
    o: MfccOptions,
    factor: u32,
    padded: int,
    f: F,
    i: int,
)
    requires
        is_bank(b, o, factor, padded, f),
        0 <= i < b.len(),
        0 <= padded,
    ensures
        b[i].weights@.len() > 0,
        b[i].first + b[i].weights@.len() <= padded / 2,
{
    let width = value(
        f,
        FloatOp::Div(
            value(f, FloatOp::Count(o.sample_rate as u64)),
            value(f, FloatOp::Count(padded as u64)),
        ),
    );
    let t = triangle(band_of(o, f), o.num_mel_bins as int, factor, i, f);
    ends_are_inside(t, width, padded / 2, f);
    assert(filter_of(o, factor, padded, i, f) == Some(b[i]@));
}

/// A sample of the standard normal distribution from two of the uniform one, moved away
/// from zero: `sqrt(-2 ln u1) cos(2 pi u2)`, in single precision.
pub open spec fn dither_of<F: Fn(FloatOp) -> u64>(u1: u32, u2: u32, f: F) -> u32 {
    let a = if at_most(u1, ZERO) {
        MIN_POSITIVE
    } else {
        u1
    };
    let b = if at_most(u2, ZERO) {
        MIN_POSITIVE
    } else {
        u2
    };
    value(
        f,
        FloatOp::Mul(
            value(
                f,
                FloatOp::Sqrt(value(f, FloatOp::Mul(NEG_TWO, value(f, FloatOp::Ln(a))))),
            ),
            value(f, FloatOp::Cos(value(f, FloatOp::Mul(TURN, b)))),
        ),
    )
}

/// A sample of the standard normal distribution from two of the uniform one.
pub fn gauss<F: Fn(FloatOp) -> u64>(u1: u32, u2: u32, f: &F) -> (r: u32)
    requires
        is_evaluator(*f),
    ensures
        r == dither_of(u1, u2, *f),
{
    let a: u32 = if le(u1, ZERO) {
        MIN_POSITIVE
    } else {
        u1
    };
    let b: u32 = if le(u2, ZERO) {
        MIN_POSITIVE
    } else {
        u2
    };
    let log: u32 = eval(f, FloatOp::Ln(a));
    let radius: u32 = eval(f, FloatOp::Sqrt(eval(f, FloatOp::Mul(NEG_TWO, log))));
    eval(f, FloatOp::Mul(radius, eval(f, FloatOp::Cos(eval(f, FloatOp::Mul(TURN, b))))))
}

} // verus!
