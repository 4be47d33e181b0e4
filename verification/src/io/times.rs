//! What the times of alignments mean as numbers, where nothing is rounded.

use vstd::prelude::*;

use crate::exact::{is_double, is_wide_exact, means, wide_means, wide_product_is_exact};
use crate::float::{wide_value, FloatOp};
use crate::io::ctm::seconds;

verus! {

/// So many frames take so many times the frame shift.
pub proof fn seconds_are_frames_by_shift<F: Fn(FloatOp) -> u64>(
    frames: int,
    n: real,
    shift: u32,
    s: real,
    f: F,
)
    requires
        is_wide_exact(f),
        0 <= frames <= u64::MAX,
        n == frames as real,
        means(shift, s),
        is_double(n),
        is_double(n * s),
    ensures
        wide_means(seconds(frames, shift, f), n * s),
{
    let count = wide_value(f, FloatOp::CountWide(frames as u64));
    assert(wide_means(count, n));
    wide_product_is_exact(f, count, n, wide_value(f, FloatOp::Widen(shift)), s);
}

} // verus!
