//! Floating-point values as bit patterns.
//!
//! Probabilities, log-likelihoods and costs travel through the library as their IEEE 754 bit
//! patterns: `u32` for single precision, `u64` for double precision. What the library decides
//! about them (order, finiteness, sign) is decided here on the patterns. What has to be computed
//! is handed to an evaluator, a function from a [`FloatOp`] to the bits of its result, so every
//! contract says exactly which operations were applied to which operands, and in which order.

use vstd::prelude::*;

verus! {

/// One floating-point operation. Operands named `u32` are single precision, those named `u64`
/// are double precision, except for the two `Count` conversions, whose operand is an integer. The
/// `Trunc` conversions have an integer as their result.
///
/// An evaluator returns the bits of the result; a single-precision result sits in the low half.
#[derive(Clone, Copy, Debug, PartialEq, Eq, Structural)]
pub enum FloatOp {
    /// Single-precision sum.
    Add(u32, u32),
    /// Single-precision difference.
    Sub(u32, u32),
    /// Single-precision product.
    Mul(u32, u32),
    /// Single-precision quotient.
    Div(u32, u32),
    /// Single-precision natural logarithm.
    Ln(u32),
    /// Single-precision exponential.
    Exp(u32),
    /// Single-precision power, base then exponent.
    Pow(u32, u32),
    /// Single-precision square root.
    Sqrt(u32),
    /// The nearest integer, as a single-precision value; halves away from zero.
    Round(u32),
    /// Single-precision sine.
    Sin(u32),
    /// Single-precision cosine.
    Cos(u32),
    /// The integer as a single-precision value.
    Count(u64),
    /// The integer part of a single-precision value, between 0 and the largest 64-bit integer.
    Trunc(u32),
    /// A single-precision value as a double-precision one.
    Widen(u32),
    /// A double-precision value rounded to single precision.
    Narrow(u64),
    /// Double-precision sum.
    AddWide(u64, u64),
    /// Double-precision difference.
    SubWide(u64, u64),
    /// Double-precision product.
    MulWide(u64, u64),
    /// Double-precision quotient.
    DivWide(u64, u64),
    /// Double-precision natural logarithm.
    LnWide(u64),
    /// Double-precision exponential.
    ExpWide(u64),
    /// Double-precision square root.
    SqrtWide(u64),
    /// Double-precision sine.
    SinWide(u64),
    /// Double-precision cosine.
    CosWide(u64),
    /// Double-precision power, base then exponent.
    PowWide(u64, u64),
    /// The nearest integer, as a double-precision value; halves away from zero.
    RoundWide(u64),
    /// The integer as a double-precision value.
    CountWide(u64),
    /// The integer part of a double-precision value, between 0 and the largest 64-bit integer.
    TruncWide(u64),
    /// The integer part of a double-precision value as a signed 64-bit integer, in two's complement
    /// and as far as it goes.
    TruncSigned(u64),
}

/// `f` evaluates every operation, and always to the same bits.
pub open spec fn is_evaluator<F: Fn(FloatOp) -> u64>(f: F) -> bool {
    &&& forall|op: FloatOp| #[trigger] call_requires(f, (op,))
    &&& forall|op: FloatOp, a: u64, b: u64|
        #[trigger] call_ensures(f, (op,), a) && #[trigger] call_ensures(f, (op,), b) ==> a == b
}

/// The bits that `f` gives for `op`.
pub open spec fn wide_value<F: Fn(FloatOp) -> u64>(f: F, op: FloatOp) -> u64 {
    choose|r: u64| call_ensures(f, (op,), r)
}

/// The single-precision bits that `f` gives for `op`.
pub open spec fn value<F: Fn(FloatOp) -> u64>(f: F, op: FloatOp) -> u32 {
    wide_value(f, op) as u32
}

/// Evaluate an operation with a double-precision result.
pub fn eval_wide<F: Fn(FloatOp) -> u64>(f: &F, op: FloatOp) -> (r: u64)
    requires
        is_evaluator(*f),
    ensures
        r == wide_value(*f, op),
{
    f(op)
}

/// Evaluate an operation with a single-precision result.
pub fn eval<F: Fn(FloatOp) -> u64>(f: &F, op: FloatOp) -> (r: u32)
    requires
        is_evaluator(*f),
    ensures
        r == value(*f, op),
{
    f(op) as u32
}

/// Single-precision zero.
pub const ZERO: u32 = 0;

/// Single-precision one.
pub const ONE: u32 = 0x3f80_0000;

/// Single-precision positive infinity.
pub const INFINITY: u32 = 0x7f80_0000;

/// Single-precision negative infinity.
pub const NEG_INFINITY: u32 = 0xff80_0000;

/// Double-precision zero.
pub const WIDE_ZERO: u64 = 0;

/// Double-precision one.
pub const WIDE_ONE: u64 = 0x3ff0_0000_0000_0000;

/// Double-precision positive infinity.
pub const WIDE_INFINITY: u64 = 0x7ff0_0000_0000_0000;

/// The sign bit of a single-precision pattern.
pub const SIGN: u32 = 0x8000_0000;

/// The sign bit of a double-precision pattern.
pub const WIDE_SIGN: u64 = 0x8000_0000_0000_0000;

/// Where a single-precision pattern lies on the number line: its magnitude bits, negated when the
/// sign bit is set. Both zeros lie at 0.
pub open spec fn position(b: u32) -> int {
    if b < SIGN {
        b as int
    } else {
        SIGN - b
    }
}

/// Where a double-precision pattern lies on the number line.
pub open spec fn wide_position(b: u64) -> int {
    if b < WIDE_SIGN {
        b as int
    } else {
        WIDE_SIGN - b
    }
}

/// `b` is not a number: its magnitude lies beyond infinity.
pub open spec fn is_nan_bits(b: u32) -> bool {
    position(b) > INFINITY || position(b) < -INFINITY
}

/// `b` is not a number, in double precision.
pub open spec fn is_wide_nan_bits(b: u64) -> bool {
    wide_position(b) > WIDE_INFINITY || wide_position(b) < -WIDE_INFINITY
}

/// `b` is neither infinite nor NaN.
pub open spec fn is_finite_bits(b: u32) -> bool {
    -INFINITY < position(b) < INFINITY
}

/// `b` is neither infinite nor NaN, in double precision.
pub open spec fn is_wide_finite_bits(b: u64) -> bool {
    -WIDE_INFINITY < wide_position(b) < WIDE_INFINITY
}

/// IEEE `a < b`: false when either is NaN.
pub open spec fn less(a: u32, b: u32) -> bool {
    !is_nan_bits(a) && !is_nan_bits(b) && position(a) < position(b)
}

/// IEEE `a < b` in double precision.
pub open spec fn wide_less(a: u64, b: u64) -> bool {
    !is_wide_nan_bits(a) && !is_wide_nan_bits(b) && wide_position(a) < wide_position(b)
}

/// IEEE `a <= b` in double precision.
pub open spec fn wide_at_most(a: u64, b: u64) -> bool {
    !is_wide_nan_bits(a) && !is_wide_nan_bits(b) && wide_position(a) <= wide_position(b)
}

/// IEEE `a <= b`.
pub open spec fn at_most(a: u32, b: u32) -> bool {
    !is_nan_bits(a) && !is_nan_bits(b) && position(a) <= position(b)
}

/// IEEE `a == b`: the two zeros are equal, NaN equals nothing.
pub open spec fn same(a: u32, b: u32) -> bool {
    !is_nan_bits(a) && !is_nan_bits(b) && position(a) == position(b)
}

/// IEEE `a == b` in double precision.
pub open spec fn wide_same(a: u64, b: u64) -> bool {
    !is_wide_nan_bits(a) && !is_wide_nan_bits(b) && wide_position(a) == wide_position(b)
}

/// The place of a double-precision pattern in the total order: as on the number line, with the
/// negative zero just below the positive one and the NaNs beyond the infinities.
pub open spec fn total_rank(b: u64) -> int {
    if b < WIDE_SIGN {
        b as int
    } else {
        WIDE_SIGN - b - 1
    }
}

/// The pattern with its sign flipped.
pub open spec fn negated(b: u32) -> u32 {
    if b < SIGN {
        (b + SIGN) as u32
    } else {
        (b - SIGN) as u32
    }
}

/// The double-precision pattern with its sign flipped.
pub open spec fn wide_negated(b: u64) -> u64 {
    if b < WIDE_SIGN {
        (b + WIDE_SIGN) as u64
    } else {
        (b - WIDE_SIGN) as u64
    }
}

/// The pattern with its sign cleared.
pub open spec fn magnitude(b: u32) -> u32 {
    if b < SIGN {
        b
    } else {
        (b - SIGN) as u32
    }
}

/// The double-precision pattern with its sign cleared.
pub open spec fn wide_magnitude(b: u64) -> u64 {
    if b < WIDE_SIGN {
        b
    } else {
        (b - WIDE_SIGN) as u64
    }
}

/// The larger of two double-precision values; where one is not a number, the other one.
pub open spec fn wide_max_of(a: u64, b: u64) -> u64 {
    if is_wide_nan_bits(a) || wide_less(a, b) {
        b
    } else {
        a
    }
}

fn position_of(b: u32) -> (r: i64)
    ensures
        r == position(b),
{
    if b < SIGN {
        b as i64
    } else {
        SIGN as i64 - b as i64
    }
}

fn wide_position_of(b: u64) -> (r: i128)
    ensures
        r == wide_position(b),
{
    if b < WIDE_SIGN {
        b as i128
    } else {
        WIDE_SIGN as i128 - b as i128
    }
}

/// Whether `b` is NaN.
pub fn is_nan(b: u32) -> (r: bool)
    ensures
        r == is_nan_bits(b),
{
    let k: i64 = position_of(b);
    k > INFINITY as i64 || k < -(INFINITY as i64)
}

fn is_wide_nan(b: u64) -> (r: bool)
    ensures
        r == is_wide_nan_bits(b),
{
    let k: i128 = wide_position_of(b);
    k > WIDE_INFINITY as i128 || k < -(WIDE_INFINITY as i128)
}

/// Whether `b` is neither infinite nor NaN.
pub fn is_finite(b: u32) -> (r: bool)
    ensures
        r == is_finite_bits(b),
{
    let k: i64 = position_of(b);
    k < INFINITY as i64 && -(INFINITY as i64) < k
}

/// Whether `b` is neither infinite nor NaN, in double precision.
pub fn is_wide_finite(b: u64) -> (r: bool)
    ensures
        r == is_wide_finite_bits(b),
{
    let k: i128 = wide_position_of(b);
    k < WIDE_INFINITY as i128 && -(WIDE_INFINITY as i128) < k
}

/// IEEE `a < b`.
pub fn lt(a: u32, b: u32) -> (r: bool)
    ensures
        r == less(a, b),
{
    !is_nan(a) && !is_nan(b) && position_of(a) < position_of(b)
}

/// IEEE `a <= b`.
pub fn le(a: u32, b: u32) -> (r: bool)
    ensures
        r == at_most(a, b),
{
    !is_nan(a) && !is_nan(b) && position_of(a) <= position_of(b)
}

/// IEEE `a == b`.
pub fn eq(a: u32, b: u32) -> (r: bool)
    ensures
        r == same(a, b),
{
    !is_nan(a) && !is_nan(b) && position_of(a) == position_of(b)
}

/// IEEE `a < b` in double precision.
pub fn wide_lt(a: u64, b: u64) -> (r: bool)
    ensures
        r == wide_less(a, b),
{
    !is_wide_nan(a) && !is_wide_nan(b) && wide_position_of(a) < wide_position_of(b)
}

/// IEEE `a <= b` in double precision.
pub fn wide_le(a: u64, b: u64) -> (r: bool)
    ensures
        r == wide_at_most(a, b),
{
    !is_wide_nan(a) && !is_wide_nan(b) && wide_position_of(a) <= wide_position_of(b)
}

/// IEEE `a == b` in double precision.
pub fn wide_eq(a: u64, b: u64) -> (r: bool)
    ensures
        r == wide_same(a, b),
{
    !is_wide_nan(a) && !is_wide_nan(b) && wide_position_of(a) == wide_position_of(b)
}

/// Whether `a` comes before `b` in the total order.
pub fn total_lt(a: u64, b: u64) -> (r: bool)
    ensures
        r == (total_rank(a) < total_rank(b)),
{
    let x: i128 = if a < WIDE_SIGN {
        a as i128
    } else {
        WIDE_SIGN as i128 - a as i128 - 1
    };
    let y: i128 = if b < WIDE_SIGN {
        b as i128
    } else {
        WIDE_SIGN as i128 - b as i128 - 1
    };
    x < y
}

/// Flip the sign.
pub fn neg(b: u32) -> (r: u32)
    ensures
        r == negated(b),
{
    if b < SIGN {
        b + SIGN
    } else {
        b - SIGN
    }
}

/// Flip the sign of a double-precision pattern.
pub fn wide_neg(b: u64) -> (r: u64)
    ensures
        r == wide_negated(b),
{
    if b < WIDE_SIGN {
        b + WIDE_SIGN
    } else {
        b - WIDE_SIGN
    }
}

/// Clear the sign.
pub fn abs(b: u32) -> (r: u32)
    ensures
        r == magnitude(b),
{
    if b < SIGN {
        b
    } else {
        b - SIGN
    }
}

/// Clear the sign of a double-precision pattern.
pub fn wide_abs(b: u64) -> (r: u64)
    ensures
        r == wide_magnitude(b),
{
    if b < WIDE_SIGN {
        b
    } else {
        b - WIDE_SIGN
    }
}

/// The larger of two double-precision values.
pub fn wide_max(a: u64, b: u64) -> (r: u64)
    ensures
        r == wide_max_of(a, b),
{
    if is_wide_nan(a) || wide_lt(a, b) {
        b
    } else {
        a
    }
}

/// The total order agrees with IEEE `<` wherever that says anything: a strictly smaller number
/// ranks strictly lower.
pub proof fn total_order_extends_less(a: u64, b: u64)
    requires
        wide_less(a, b),
    ensures
        total_rank(a) < total_rank(b),
{
}

/// The total order tells any two patterns apart.
pub proof fn total_order_is_injective(a: u64, b: u64)
    requires
        total_rank(a) == total_rank(b),
    ensures
        a == b,
{
}

/// Flipping the sign twice changes nothing, and flipping it once reverses every comparison.
pub proof fn negation_reverses_order(a: u32, b: u32)
    ensures
        negated(negated(a)) == a,
        less(a, b) == less(negated(b), negated(a)),
{
}

} // verus!
