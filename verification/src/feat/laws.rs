//! What features mean as numbers, where nothing is rounded.

use vstd::prelude::*;

use crate::exact::{constants_are_exact, finite_is_single, is_exact, is_single, means, real_of};
use crate::feat::mfcc::{
    emphasised, frame_samples, is_spectrum, prepared, reflection_is_inside, windowed, MfccComputer,
};
use crate::feat::options::frame_start;
use crate::float::{is_finite_bits, same, value, FloatOp, ONE, ZERO};

verus! {

/// The numbers of finite patterns.
pub open spec fn reals(xs: Seq<u32>) -> Seq<real> {
    Seq::new(xs.len(), |i: int| real_of(xs[i]))
}

/// All patterns are finite.
pub open spec fn are_finite(xs: Seq<u32>) -> bool {
    forall|i: int| 0 <= i < xs.len() ==> is_finite_bits(#[trigger] xs[i])
}

/// The signal less a share of the sample before; the first sample counts as its own predecessor.
pub open spec fn high_passed(x: Seq<real>, p: real, s: int) -> real {
    if s == 0 {
        (1 as real - p) * x[0]
    } else {
        x[s] - p * x[s - 1]
    }
}

/// The difference to a share of the sample before can be computed without rounding.
pub open spec fn differs_exactly(x: Seq<real>, p: real, s: int) -> bool {
    &&& is_single(
        p * if s == 0 {
            x[0]
        } else {
            x[s - 1]
        },
    )
    &&& is_single(high_passed(x, p, s))
}

/// Pre-emphasis takes a share of the sample before from every sample, and of itself from the first
/// one.
pub proof fn emphasis_is_a_high_pass<F: Fn(FloatOp) -> u64>(xs: Seq<u32>, p: u32, f: F, s: int)
    requires
        is_exact(f),
        are_finite(xs),
        is_finite_bits(p),
        0 <= s < xs.len(),
        differs_exactly(reals(xs), real_of(p), s),
    ensures
        emphasised(xs, p, f).len() == xs.len(),
        means(emphasised(xs, p, f)[s], high_passed(reals(xs), real_of(p), s)),
{
    let before = xs[if s > 0 {
        s - 1
    } else {
        0
    }];
    let (a, b, c) = (real_of(xs[s]), real_of(before), real_of(p));
    assert(is_finite_bits(xs[s]) && is_finite_bits(before));
    if same(p, ZERO) {
        constants_are_exact();
        crate::exact::order_is_exact(p, ZERO);
        assert(c == 0 as real);
        assert(c * b == 0 as real) by (nonlinear_arith)
            requires
                c == 0 as real,
        ;
        assert((1 as real - c) * a == a) by (nonlinear_arith)
            requires
                c == 0 as real,
        ;
    } else {
        let share = value(f, FloatOp::Mul(p, before));
        assert(means(share, c * b));
        assert((1 as real - c) * a == a - c * a) by (nonlinear_arith);
    }
}

/// Of a constant signal nothing is left where all of the sample before is taken.
pub proof fn emphasis_takes_out_constants<F: Fn(FloatOp) -> u64>(xs: Seq<u32>, f: F, s: int)
    requires
        is_exact(f),
        are_finite(xs),
        0 <= s < xs.len(),
        forall|i: int| 0 <= i < xs.len() ==> #[trigger] xs[i] == xs[0],
    ensures
        means(emphasised(xs, ONE, f)[s], 0 as real),
{
    let x = reals(xs);
    constants_are_exact();
    assert(xs[s] == xs[0]);
    if s > 0 {
        assert(xs[s - 1] == xs[0]);
    }
    assert(1 as real * x[0] == x[0]) by (nonlinear_arith);
    assert((1 as real - 1 as real) * x[0] == 0 as real) by (nonlinear_arith);
    finite_is_single(xs[0]);
    finite_is_single(ZERO);
    assert(is_finite_bits(xs[0]));
    emphasis_is_a_high_pass(xs, ONE, f, s);
}

/// What goes into the spectrum of a frame without noise that lies inside the signal: its samples,
/// each less a share of the one before, times the window, and zeros behind them.
pub proof fn frames_are_high_passed_and_windowed<
    F: Fn(FloatOp) -> u64,
    T: Fn(Vec<u32>) -> (Vec<u32>, Vec<u32>),
>(
    c: MfccComputer,
    row: Seq<u32>,
    wave: Seq<u32>,
    frame: int,
    uniforms: Seq<u32>,
    f: F,
    fft: T,
)
    requires
        is_exact(f),
        c.is_row(row, wave, frame, uniforms, f, fft),
        same(c.opts.dither, ZERO),
        !c.opts.remove_dc_offset,
        is_finite_bits(c.opts.preemph),
        are_finite(wave),
        are_finite(c.window_function@),
        c.window_function@.len() == c.opts.length(f),
        c.opts.length(f) <= c.opts.padded_length(f),
        ({
            let o = c.opts;
            let n = o.length(f) as int;
            let start = frame_start(frame, o.snip_edges, o.shift(f) as int, n);
            &&& 0 <= start
            &&& start + n <= wave.len()
            &&& forall|s: int|
                0 <= s < n ==> {
                    let x = reals(wave.subrange(start, start + n));
                    differs_exactly(x, real_of(o.preemph), s) && is_single(
                        high_passed(x, real_of(o.preemph), s) * real_of(
                            #[trigger] c.window_function@[s],
                        ),
                    )
                }
        }),
    ensures
        exists|buffer: Seq<u32>, re: Seq<u32>, im: Seq<u32>|
            {
                let o = c.opts;
                let n = o.length(f) as int;
                let start = frame_start(frame, o.snip_edges, o.shift(f) as int, n);
                let x = reals(wave.subrange(start, start + n));
                &&& #[trigger] is_spectrum(fft, buffer, re, im)
                &&& buffer.len() == o.padded_length(f)
                &&& forall|s: int|
                    0 <= s < n ==> means(
                        #[trigger] buffer[s],
                        high_passed(x, real_of(o.preemph), s) * real_of(c.window_function@[s]),
                    )
                &&& forall|s: int| n <= s < buffer.len() ==> #[trigger] buffer[s] == ZERO
            },
{
    let o = c.opts;
    let n = o.length(f) as int;
    let start = frame_start(frame, o.snip_edges, o.shift(f) as int, n);
    let xs = frame_samples(wave, start, n);
    let part = wave.subrange(start, start + n);
    assert(xs =~= part) by {
        assert forall|s: int| 0 <= s < n implies xs[s] == part[s] by {
            reflection_is_inside(s + start, wave.len() as int);
        }
    }
    let w = windowed(o, c.window_function@, xs, uniforms, f);
    let buffer = w + Seq::new((o.padded_length(f) - n) as nat, |k: int| ZERO);
    let (re, im) = choose|re: Seq<u32>, im: Seq<u32>| #[trigger]
        is_spectrum(fft, buffer, re, im) && row == c.row_of(xs, uniforms, re, im, f);
    assert(prepared(o, xs, uniforms, f) == xs);
    assert(are_finite(part)) by {
        assert forall|i: int| 0 <= i < part.len() implies is_finite_bits(#[trigger] part[i]) by {
            assert(is_finite_bits(wave[start + i]));
        }
    }
    assert forall|s: int| 0 <= s < n implies means(
        #[trigger] buffer[s],
        high_passed(reals(part), real_of(o.preemph), s) * real_of(c.window_function@[s]),
    ) by {
        assert(is_finite_bits(c.window_function@[s]));
        assert(reals(xs) == reals(part));
        assert(differs_exactly(reals(part), real_of(o.preemph), s));
        emphasis_is_a_high_pass(xs, o.preemph, f, s);
        assert(buffer[s] == w[s]);
    }
    assert(is_spectrum(fft, buffer, re, im));
}

} // verus!
