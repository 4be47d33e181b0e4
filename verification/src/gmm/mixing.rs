//! Sums of exponentials, and errors of the mixtures.

use vstd::prelude::*;
use vstd::string::StringExecFns;

use crate::float::{
    eval, eval_wide, is_evaluator, less, lt, value, wide_at_most, wide_le, wide_value, FloatOp,
    INFINITY, NEG_INFINITY, WIDE_ZERO, ZERO,
};
use crate::text::{append_decimal, decimal};

verus! {

/// The least positive normal double-precision value.
pub const WIDE_MIN_POSITIVE: u64 = 0x0010_0000_0000_0000;

/// Double-precision -2.
pub const MINUS_TWO: u64 = 0xc000_0000_0000_0000;

/// Double-precision 2.
pub const WIDE_TWO: u64 = 0x4000_0000_0000_0000;

/// Double-precision pi.
pub const WIDE_PI: u64 = 0x4009_21fb_5444_2d18;

/// Why a mixture cannot be changed as asked.
#[derive(Clone, Copy, Debug, PartialEq, Eq)]
#[allow(inconsistent_fields)]
pub enum GmmError {
    DimMismatch { expected: usize, got: usize },
    BadSplit { from: usize, to: usize },
    BadMerge { target: usize, num_gauss: usize },
}

/// The message of an error.
pub open spec fn gmm_message(e: GmmError) -> Seq<char> {
    match e {
        GmmError::DimMismatch { expected, got } => "dimension mismatch: expected "@ + decimal(
            expected as nat,
        ) + ", got "@ + decimal(got as nat),
        GmmError::BadSplit { from, to } => "cannot split from "@ + decimal(from as nat) + " to "@
            + decimal(to as nat) + " components"@,
        GmmError::BadMerge { target, num_gauss } => "invalid target number of Gaussians ("@
            + decimal(target as nat) + "), #Gauss = "@ + decimal(num_gauss as nat),
    }
}

impl GmmError {
    /// The message for the user.
    pub fn to_string(&self) -> (r: String)
        ensures
            r@ == gmm_message(*self),
    {
        let mut out = String::new();
        match self {
            GmmError::DimMismatch { expected, got } => {
                out.append("dimension mismatch: expected ");
                append_decimal(&mut out, *expected as u64);
                out.append(", got ");
                append_decimal(&mut out, *got as u64);
            },
            GmmError::BadSplit { from, to } => {
                out.append("cannot split from ");
                append_decimal(&mut out, *from as u64);
                out.append(" to ");
                append_decimal(&mut out, *to as u64);
                out.append(" components");
            },
            GmmError::BadMerge { target, num_gauss } => {
                out.append("invalid target number of Gaussians (");
                append_decimal(&mut out, *target as u64);
                out.append("), #Gauss = ");
                append_decimal(&mut out, *num_gauss as u64);
            },
        }
        assert(out@ =~= gmm_message(*self));
        out
    }
}

/// The largest of the first `n` values, negative infinity if there is none.
pub open spec fn largest(xs: Seq<u32>, n: int) -> u32
    decreases n,
{
    if n <= 0 {
        NEG_INFINITY
    } else {
        let m = largest(xs, n - 1);
        if less(m, xs[n - 1]) {
            xs[n - 1]
        } else {
            m
        }
    }
}

/// The exponential of a value's distance to the largest one.
pub open spec fn lifted<F: Fn(FloatOp) -> u64>(x: u32, max: u32, f: F) -> u64 {
    wide_value(
        f,
        FloatOp::ExpWide(
            wide_value(
                f,
                FloatOp::SubWide(
                    wide_value(f, FloatOp::Widen(x)),
                    wide_value(f, FloatOp::Widen(max)),
                ),
            ),
        ),
    )
}

/// The sum of the exponentials of the first `n` values.
pub open spec fn lifted_sum<F: Fn(FloatOp) -> u64>(xs: Seq<u32>, n: int, max: u32, f: F) -> u64
    decreases n,
{
    if n <= 0 {
        WIDE_ZERO
    } else {
        wide_value(
            f,
            FloatOp::AddWide(lifted_sum(xs, n - 1, max, f), lifted(xs[n - 1], max, f)),
        )
    }
}

/// The logarithm of a sum of exponentials whose largest was taken out.
pub open spec fn lowered<F: Fn(FloatOp) -> u64>(sum: u64, max: u32, f: F) -> u32 {
    value(
        f,
        FloatOp::Narrow(
            wide_value(
                f,
                FloatOp::AddWide(
                    wide_value(f, FloatOp::Widen(max)),
                    wide_value(f, FloatOp::LnWide(sum)),
                ),
            ),
        ),
    )
}

/// The logarithm of the sum of the exponentials. Infinities are not computed with.
pub open spec fn log_sum<F: Fn(FloatOp) -> u64>(xs: Seq<u32>, f: F) -> u32 {
    let n = xs.len() as int;
    let max = largest(xs, n);
    if max == NEG_INFINITY || max == INFINITY {
        max
    } else {
        lowered(lifted_sum(xs, n, max, f), max, f)
    }
}

pub(crate) fn find_largest(xs: &[u32]) -> (r: u32)
    ensures
        r == largest(xs@, xs@.len() as int),
{
    let mut max: u32 = NEG_INFINITY;
    let mut i: usize = 0;
    while i < xs.len()
        invariant
            i <= xs@.len(),
            max == largest(xs@, i as int),
        decreases xs.len() - i,
    {
        if lt(max, xs[i]) {
            max = xs[i];
        }
        i += 1;
    }
    max
}

fn lift<F: Fn(FloatOp) -> u64>(x: u32, max: u32, f: &F) -> (r: u64)
    requires
        is_evaluator(*f),
    ensures
        r == lifted(x, max, *f),
{
    let wide: u64 = eval_wide(f, FloatOp::Widen(x));
    let shift: u64 = eval_wide(f, FloatOp::Widen(max));
    eval_wide(f, FloatOp::ExpWide(eval_wide(f, FloatOp::SubWide(wide, shift))))
}

fn sum_lifted<F: Fn(FloatOp) -> u64>(xs: &[u32], max: u32, f: &F) -> (r: u64)
    requires
        is_evaluator(*f),
    ensures
        r == lifted_sum(xs@, xs@.len() as int, max, *f),
{
    let mut sum: u64 = WIDE_ZERO;
    let mut i: usize = 0;
    while i < xs.len()
        invariant
            is_evaluator(*f),
            i <= xs@.len(),
            sum == lifted_sum(xs@, i as int, max, *f),
        decreases xs.len() - i,
    {
        sum = eval_wide(f, FloatOp::AddWide(sum, lift(xs[i], max, f)));
        i += 1;
    }
    sum
}

fn lower<F: Fn(FloatOp) -> u64>(sum: u64, max: u32, f: &F) -> (r: u32)
    requires
        is_evaluator(*f),
    ensures
        r == lowered(sum, max, *f),
{
    let shift: u64 = eval_wide(f, FloatOp::Widen(max));
    let log: u64 = eval_wide(f, FloatOp::LnWide(sum));
    eval(f, FloatOp::Narrow(eval_wide(f, FloatOp::AddWide(shift, log))))
}

/// The logarithm of the sum of the exponentials.
pub fn log_sum_exp<F: Fn(FloatOp) -> u64>(x: &[u32], f: &F) -> (r: u32)
    requires
        is_evaluator(*f),
    ensures
        r == log_sum(x@, *f),
{
    let max: u32 = find_largest(x);
    if max == NEG_INFINITY || max == INFINITY {
        return max;
    }
    lower(sum_lifted(x, max, f), max, f)
}

/// The exponentials over their sum, `max` taken out of both.
pub open spec fn soft_max<F: Fn(FloatOp) -> u64>(xs: Seq<u32>, f: F) -> Seq<u32> {
    let max = largest(xs, xs.len() as int);
    let sum = lifted_sum(xs, xs.len() as int, max, f);
    if max == NEG_INFINITY {
        xs
    } else {
        Seq::new(xs.len(), |i: int| soft_max_at(xs[i], max, sum, f))
    }
}

/// One exponential, in single precision, over the sum.
pub open spec fn soft_max_at<F: Fn(FloatOp) -> u64>(x: u32, max: u32, sum: u64, f: F) -> u32 {
    let e = value(f, FloatOp::Narrow(lifted(x, max, f)));
    value(
        f,
        FloatOp::Narrow(wide_value(f, FloatOp::DivWide(wide_value(f, FloatOp::Widen(e)), sum))),
    )
}

/// What [`apply_soft_max`] returns: the logarithm of the sum of the exponentials.
pub open spec fn soft_max_total<F: Fn(FloatOp) -> u64>(xs: Seq<u32>, f: F) -> u32 {
    let max = largest(xs, xs.len() as int);
    if max == NEG_INFINITY {
        NEG_INFINITY
    } else {
        lowered(lifted_sum(xs, xs.len() as int, max, f), max, f)
    }
}

/// Turn values into their exponentials over the sum of these, and return the logarithm of that sum.
/// Where all are negative infinity they stay as they are.
pub fn apply_soft_max<F: Fn(FloatOp) -> u64>(x: &mut Vec<u32>, f: &F) -> (r: u32)
    requires
        is_evaluator(*f),
    ensures
        final(x)@ == soft_max(old(x)@, *f),
        r == soft_max_total(old(x)@, *f),
{
    let max: u32 = find_largest(x.as_slice());
    if max == NEG_INFINITY {
        return NEG_INFINITY;
    }
    let sum: u64 = sum_lifted(x.as_slice(), max, f);
    let ghost xs = x@;
    let n: usize = x.len();
    let mut i: usize = 0;
    while i < n
        invariant
            is_evaluator(*f),
            i <= n,
            n == xs.len(),
            x@.len() == n,
            forall|k: int| 0 <= k < i ==> #[trigger] x@[k] == soft_max_at(xs[k], max, sum, *f),
            forall|k: int| i <= k < n ==> #[trigger] x@[k] == xs[k],
        decreases n - i,
    {
        let e: u32 = eval(f, FloatOp::Narrow(lift(x[i], max, f)));
        let wide: u64 = eval_wide(f, FloatOp::Widen(e));
        let v: u32 = eval(f, FloatOp::Narrow(eval_wide(f, FloatOp::DivWide(wide, sum))));
        x.set(i, v);
        i += 1;
    }
    assert(x@ =~= soft_max(xs, *f));
    lower(sum, max, f)
}

/// A sample of the standard normal distribution from two of the uniform one, with zero moved away:
/// `sqrt(-2 ln u1) cos(2 pi u2)`.
pub open spec fn gauss_of<F: Fn(FloatOp) -> u64>(u1: u64, u2: u64, f: F) -> u32 {
    let u = if wide_at_most(u1, WIDE_ZERO) {
        WIDE_MIN_POSITIVE
    } else {
        u1
    };
    let radius = wide_value(
        f,
        FloatOp::SqrtWide(
            wide_value(f, FloatOp::MulWide(MINUS_TWO, wide_value(f, FloatOp::LnWide(u)))),
        ),
    );
    let angle = wide_value(
        f,
        FloatOp::MulWide(wide_value(f, FloatOp::MulWide(WIDE_TWO, WIDE_PI)), u2),
    );
    value(
        f,
        FloatOp::Narrow(
            wide_value(f, FloatOp::MulWide(radius, wide_value(f, FloatOp::CosWide(angle)))),
        ),
    )
}

/// A sample of the standard normal distribution from two of the uniform one.
pub fn rand_gauss<F: Fn(FloatOp) -> u64>(u1: u64, u2: u64, f: &F) -> (r: u32)
    requires
        is_evaluator(*f),
    ensures
        r == gauss_of(u1, u2, *f),
{
    let u: u64 = if wide_le(u1, WIDE_ZERO) {
        WIDE_MIN_POSITIVE
    } else {
        u1
    };
    let log: u64 = eval_wide(f, FloatOp::LnWide(u));
    let radius: u64 = eval_wide(f, FloatOp::SqrtWide(eval_wide(f, FloatOp::MulWide(MINUS_TWO, log))));
    let turn: u64 = eval_wide(f, FloatOp::MulWide(WIDE_TWO, WIDE_PI));
    let angle: u64 = eval_wide(f, FloatOp::MulWide(turn, u2));
    let cos: u64 = eval_wide(f, FloatOp::CosWide(angle));
    eval(f, FloatOp::Narrow(eval_wide(f, FloatOp::MulWide(radius, cos))))
}

/// The sum of the first `n` values.
pub open spec fn sum_upto<F: Fn(FloatOp) -> u64>(xs: Seq<u32>, n: int, f: F) -> u32
    decreases n,
{
    if n <= 0 {
        ZERO
    } else {
        value(f, FloatOp::Add(sum_upto(xs, n - 1, f), xs[n - 1]))
    }
}

/// The sum of the values, added in order to zero.
pub fn sum_of<F: Fn(FloatOp) -> u64>(xs: &[u32], f: &F) -> (r: u32)
    requires
        is_evaluator(*f),
    ensures
        r == sum_upto(xs@, xs@.len() as int, *f),
{
    let mut sum: u32 = ZERO;
    let mut i: usize = 0;
    while i < xs.len()
        invariant
            is_evaluator(*f),
            i <= xs@.len(),
            sum == sum_upto(xs@, i as int, *f),
        decreases xs.len() - i,
    {
        sum = eval(f, FloatOp::Add(sum, xs[i]));
        i += 1;
    }
    sum
}

} // verus!
