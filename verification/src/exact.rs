//! What bit patterns mean as real numbers, and arithmetic that rounds nothing where nothing has to be
//! rounded.

use vstd::prelude::*;

use crate::float::{
    is_finite_bits, is_wide_finite_bits, less, magnitude, negated, position, value, wide_less,
    wide_magnitude, wide_negated, wide_value, FloatOp, ONE, SIGN, WIDE_ONE, WIDE_SIGN,
    WIDE_ZERO, ZERO,
};

verus! {

/// Two to a power.
pub open spec fn two_to(e: int) -> real
    decreases
            if e < 0 {
                -e
            } else {
                e
            },
{
    if e == 0 {
        1 as real
    } else if e > 0 {
        2 as real * two_to(e - 1)
    } else {
        two_to(e + 1) / 2 as real
    }
}

/// The number of a single-precision magnitude.
pub open spec fn size_of(m: int) -> real {
    if m < 0x80_0000 {
        m as real * two_to(-149)
    } else {
        (0x80_0000 + m % 0x80_0000) as real * two_to(m / 0x80_0000 - 150)
    }
}

/// The number of a double-precision magnitude.
pub open spec fn wide_size_of(m: int) -> real {
    if m < 0x10_0000_0000_0000 {
        m as real * two_to(-1074)
    } else {
        (0x10_0000_0000_0000 + m % 0x10_0000_0000_0000) as real * two_to(
            m / 0x10_0000_0000_0000 - 1075,
        )
    }
}

/// The number that a finite single-precision pattern stands for.
pub open spec fn real_of(b: u32) -> real {
    if b < SIGN {
        size_of(magnitude(b) as int)
    } else {
        -size_of(magnitude(b) as int)
    }
}

/// The number that a finite double-precision pattern stands for.
pub open spec fn wide_real_of(b: u64) -> real {
    if b < WIDE_SIGN {
        wide_size_of(wide_magnitude(b) as int)
    } else {
        -wide_size_of(wide_magnitude(b) as int)
    }
}

/// The pattern is finite and stands for the number.
pub open spec fn means(b: u32, x: real) -> bool {
    is_finite_bits(b) && real_of(b) == x
}

/// The double-precision pattern is finite and stands for the number.
pub open spec fn wide_means(b: u64, x: real) -> bool {
    is_wide_finite_bits(b) && wide_real_of(b) == x
}

/// Some single-precision pattern stands for the number.
pub open spec fn is_single(x: real) -> bool {
    exists|b: u32| #[trigger] means(b, x)
}

/// Some double-precision pattern stands for the number.
pub open spec fn is_double(x: real) -> bool {
    exists|b: u64| #[trigger] wide_means(b, x)
}

/// Single-precision arithmetic gives the exact result wherever a pattern stands for it, as IEEE 754
/// says.
pub open spec fn is_exact<F: Fn(FloatOp) -> u64>(f: F) -> bool {
    &&& forall|a: u32, b: u32|
        #![trigger value(f, FloatOp::Add(a, b))]
        is_finite_bits(a) && is_finite_bits(b) && is_single(real_of(a) + real_of(b)) ==> means(
            value(f, FloatOp::Add(a, b)),
            real_of(a) + real_of(b),
        )
    &&& forall|a: u32, b: u32|
        #![trigger value(f, FloatOp::Sub(a, b))]
        is_finite_bits(a) && is_finite_bits(b) && is_single(real_of(a) - real_of(b)) ==> means(
            value(f, FloatOp::Sub(a, b)),
            real_of(a) - real_of(b),
        )
    &&& forall|a: u32, b: u32|
        #![trigger value(f, FloatOp::Mul(a, b))]
        is_finite_bits(a) && is_finite_bits(b) && is_single(real_of(a) * real_of(b)) ==> means(
            value(f, FloatOp::Mul(a, b)),
            real_of(a) * real_of(b),
        )
    &&& forall|a: u32, b: u32|
        #![trigger value(f, FloatOp::Div(a, b))]
        is_finite_bits(a) && is_finite_bits(b) && real_of(b) != 0 as real && is_single(
            real_of(a) / real_of(b),
        ) ==> means(value(f, FloatOp::Div(a, b)), real_of(a) / real_of(b))
    &&& forall|a: u32, x: real|
        #![trigger value(f, FloatOp::Sqrt(a)), is_single(x)]
        is_finite_bits(a) && x >= 0 as real && x * x == real_of(a) && is_single(x) ==> means(
            value(f, FloatOp::Sqrt(a)),
            x,
        )
    &&& forall|n: u64|
        is_single(n as int as real) ==> means(
            #[trigger] value(f, FloatOp::Count(n)),
            n as int as real,
        )
    &&& forall|a: u64|
        is_wide_finite_bits(a) && is_single(wide_real_of(a)) ==> means(
            #[trigger] value(f, FloatOp::Narrow(a)),
            wide_real_of(a),
        )
}

/// Double-precision arithmetic gives the exact result wherever a pattern stands for it.
pub open spec fn is_wide_exact<F: Fn(FloatOp) -> u64>(f: F) -> bool {
    &&& forall|a: u32|
        is_finite_bits(a) ==> wide_means(#[trigger] wide_value(f, FloatOp::Widen(a)), real_of(a))
    &&& forall|a: u64, b: u64|
        #![trigger wide_value(f, FloatOp::AddWide(a, b))]
        is_wide_finite_bits(a) && is_wide_finite_bits(b) && is_double(
            wide_real_of(a) + wide_real_of(b),
        ) ==> wide_means(
            wide_value(f, FloatOp::AddWide(a, b)),
            wide_real_of(a) + wide_real_of(b),
        )
    &&& forall|a: u64, b: u64|
        #![trigger wide_value(f, FloatOp::SubWide(a, b))]
        is_wide_finite_bits(a) && is_wide_finite_bits(b) && is_double(
            wide_real_of(a) - wide_real_of(b),
        ) ==> wide_means(
            wide_value(f, FloatOp::SubWide(a, b)),
            wide_real_of(a) - wide_real_of(b),
        )
    &&& forall|a: u64, b: u64|
        #![trigger wide_value(f, FloatOp::MulWide(a, b))]
        is_wide_finite_bits(a) && is_wide_finite_bits(b) && is_double(
            wide_real_of(a) * wide_real_of(b),
        ) ==> wide_means(
            wide_value(f, FloatOp::MulWide(a, b)),
            wide_real_of(a) * wide_real_of(b),
        )
    &&& forall|a: u64, b: u64|
        #![trigger wide_value(f, FloatOp::DivWide(a, b))]
        is_wide_finite_bits(a) && is_wide_finite_bits(b) && wide_real_of(b) != 0 as real
            && is_double(wide_real_of(a) / wide_real_of(b)) ==> wide_means(
            wide_value(f, FloatOp::DivWide(a, b)),
            wide_real_of(a) / wide_real_of(b),
        )
    &&& forall|n: u64|
        is_double(n as int as real) ==> wide_means(
            #[trigger] wide_value(f, FloatOp::CountWide(n)),
            n as int as real,
        )
}

/// A pattern stands for the opposite number with its sign flipped.
pub proof fn negation_is_exact(b: u32)
    ensures
        real_of(negated(b)) == -real_of(b),
        is_finite_bits(negated(b)) == is_finite_bits(b),
{
    assert(magnitude(negated(b)) == magnitude(b));
}

proof fn powers_are_positive(e: int)
    ensures
        two_to(e) > 0 as real,
        two_to(e + 1) == 2 as real * two_to(e),
    decreases
            if e < 0 {
                -e
            } else {
                e
            },
{
    if e > 0 {
        powers_are_positive(e - 1);
    } else if e < 0 {
        powers_are_positive(e + 1);
    }
}

proof fn sizes_are_not_negative(m: int)
    requires
        0 <= m,
    ensures
        size_of(m) >= 0 as real,
        m > 0 ==> size_of(m) > 0 as real,
        m == 0 ==> size_of(m) == 0 as real,
{
    powers_are_positive(-149);
    powers_are_positive(m / 0x80_0000 - 150);
    let k = if m < 0x80_0000 {
        m
    } else {
        0x80_0000 + m % 0x80_0000
    };
    let p = if m < 0x80_0000 {
        two_to(-149)
    } else {
        two_to(m / 0x80_0000 - 150)
    };
    product_sign(k as real, p);
}

proof fn product_sign(a: real, b: real)
    by (nonlinear_arith)
    requires
        a >= 0 as real,
        b > 0 as real,
    ensures
        a * b >= 0 as real,
        a > 0 as real ==> a * b > 0 as real,
        a == 0 as real ==> a * b == 0 as real,
{
}

/// The constants are what they are called.
pub proof fn constants_are_exact()
    ensures
        means(ZERO, 0 as real),
        means(ONE, 1 as real),
        wide_means(WIDE_ZERO, 0 as real),
        wide_means(WIDE_ONE, 1 as real),
{
    sizes_are_not_negative(0);
    assert(0 as real * two_to(-1074) == 0 as real) by (nonlinear_arith);
    reveal_with_fuel(two_to, 60);
    assert(two_to(-23) * 0x80_0000 as real == 1 as real);
    assert(two_to(-52) * 0x10_0000_0000_0000 as real == 1 as real);
    assert(magnitude(ONE) as int / 0x80_0000 == 127 && magnitude(ONE) as int % 0x80_0000 == 0);
    assert(size_of(0x3f80_0000) == 0x80_0000 as real * two_to(-23));
    assert(wide_magnitude(WIDE_ONE) as int / 0x10_0000_0000_0000 == 1023);
    assert(wide_magnitude(WIDE_ONE) as int % 0x10_0000_0000_0000 == 0);
    assert(wide_size_of(0x3ff0_0000_0000_0000) == 0x10_0000_0000_0000 as real * two_to(-52));
}

proof fn step_is_up(k: real, l: real, p: real)
    by (nonlinear_arith)
    requires
        k < l,
        p > 0 as real,
    ensures
        k * p < l * p,
{
}

proof fn next_size_is_larger(m: int)
    requires
        0 <= m,
    ensures
        size_of(m) < size_of(m + 1),
{
    let w: int = 0x80_0000;
    let e = m / w - 150;
    powers_are_positive(-149);
    powers_are_positive(e);
    if m + 1 < w {
        step_is_up(m as real, (m + 1) as real, two_to(-149));
    } else if m < w {
        assert((m + 1) / w == 1 && (m + 1) % w == 0);
        step_is_up(m as real, w as real, two_to(-149));
    } else if m % w < w - 1 {
        assert((m + 1) / w == m / w && (m + 1) % w == m % w + 1);
        step_is_up((w + m % w) as real, (w + m % w + 1) as real, two_to(e));
    } else {
        assert((m + 1) / w == m / w + 1 && (m + 1) % w == 0);
        step_is_up((w + m % w) as real, (2 * w) as real, two_to(e));
        assert(w as real * (2 as real * two_to(e)) == (2 * w) as real * two_to(e))
            by (nonlinear_arith)
            requires
                w == 0x80_0000,
        ;
    }
}

proof fn sizes_grow(m: int, n: int)
    requires
        0 <= m < n,
    ensures
        size_of(m) < size_of(n),
    decreases n - m,
{
    next_size_is_larger(m);
    if m + 1 < n {
        sizes_grow(m + 1, n);
    }
}

proof fn next_wide_size_is_larger(m: int)
    requires
        0 <= m,
    ensures
        wide_size_of(m) < wide_size_of(m + 1),
{
    let w: int = 0x10_0000_0000_0000;
    let e = m / w - 1075;
    powers_are_positive(-1074);
    powers_are_positive(e);
    if m + 1 < w {
        step_is_up(m as real, (m + 1) as real, two_to(-1074));
    } else if m < w {
        assert((m + 1) / w == 1 && (m + 1) % w == 0);
        step_is_up(m as real, w as real, two_to(-1074));
    } else if m % w < w - 1 {
        assert((m + 1) / w == m / w && (m + 1) % w == m % w + 1);
        step_is_up((w + m % w) as real, (w + m % w + 1) as real, two_to(e));
    } else {
        assert((m + 1) / w == m / w + 1 && (m + 1) % w == 0);
        step_is_up((w + m % w) as real, (2 * w) as real, two_to(e));
        assert(w as real * (2 as real * two_to(e)) == (2 * w) as real * two_to(e))
            by (nonlinear_arith)
            requires
                w == 0x10_0000_0000_0000,
        ;
    }
}

proof fn wide_sizes_grow(m: int, n: int)
    requires
        0 <= m < n,
    ensures
        wide_size_of(m) < wide_size_of(n),
    decreases n - m,
{
    next_wide_size_is_larger(m);
    if m + 1 < n {
        wide_sizes_grow(m + 1, n);
    }
}

/// The order of the patterns is that of their numbers.
pub proof fn order_is_exact(a: u32, b: u32)
    requires
        is_finite_bits(a),
        is_finite_bits(b),
    ensures
        less(a, b) == (real_of(a) < real_of(b)),
        (position(a) == position(b)) == (real_of(a) == real_of(b)),
{
    let (m, n) = (magnitude(a) as int, magnitude(b) as int);
    sizes_are_not_negative(m);
    sizes_are_not_negative(n);
    if m < n {
        sizes_grow(m, n);
    } else if n < m {
        sizes_grow(n, m);
    }
}

/// The order of double-precision patterns is that of their numbers.
pub proof fn wide_order_is_exact(a: u64, b: u64)
    requires
        is_wide_finite_bits(a),
        is_wide_finite_bits(b),
    ensures
        wide_less(a, b) == (wide_real_of(a) < wide_real_of(b)),
{
    let (m, n) = (wide_magnitude(a) as int, wide_magnitude(b) as int);
    assert(wide_size_of(0) == 0 as real) by {
        assert(0 as real * two_to(-1074) == 0 as real) by (nonlinear_arith);
    }
    if 0 < m {
        wide_sizes_grow(0, m);
    }
    if 0 < n {
        wide_sizes_grow(0, n);
    }
    if m < n {
        wide_sizes_grow(m, n);
    } else if n < m {
        wide_sizes_grow(n, m);
    }
}

/// The number of a finite pattern is one that has a pattern.
pub proof fn finite_is_single(b: u32)
    requires
        is_finite_bits(b),
    ensures
        is_single(real_of(b)),
{
    assert(means(b, real_of(b)));
}

/// A sum that has a pattern is that pattern's number.
pub proof fn sum_is_exact<F: Fn(FloatOp) -> u64>(f: F, a: u32, x: real, b: u32, y: real)
    requires
        is_exact(f),
        means(a, x),
        means(b, y),
        is_single(x + y),
    ensures
        means(value(f, FloatOp::Add(a, b)), x + y),
{
}

/// A double-precision sum that has a pattern is that pattern's number.
pub proof fn wide_sum_is_exact<F: Fn(FloatOp) -> u64>(f: F, a: u64, x: real, b: u64, y: real)
    requires
        is_wide_exact(f),
        wide_means(a, x),
        wide_means(b, y),
        is_double(x + y),
    ensures
        wide_means(wide_value(f, FloatOp::AddWide(a, b)), x + y),
{
}

/// A difference that has a pattern is that pattern's number.
pub proof fn difference_is_exact<F: Fn(FloatOp) -> u64>(f: F, a: u32, x: real, b: u32, y: real)
    requires
        is_exact(f),
        means(a, x),
        means(b, y),
        is_single(x - y),
    ensures
        means(value(f, FloatOp::Sub(a, b)), x - y),
{
}

/// A double-precision difference that has a pattern is that pattern's number.
pub proof fn wide_difference_is_exact<F: Fn(FloatOp) -> u64>(f: F, a: u64, x: real, b: u64, y: real)
    requires
        is_wide_exact(f),
        wide_means(a, x),
        wide_means(b, y),
        is_double(x - y),
    ensures
        wide_means(wide_value(f, FloatOp::SubWide(a, b)), x - y),
{
}

/// A product that has a pattern is that pattern's number.
pub proof fn product_is_exact<F: Fn(FloatOp) -> u64>(f: F, a: u32, x: real, b: u32, y: real)
    requires
        is_exact(f),
        means(a, x),
        means(b, y),
        is_single(x * y),
    ensures
        means(value(f, FloatOp::Mul(a, b)), x * y),
{
}

/// A double-precision product that has a pattern is that pattern's number.
pub proof fn wide_product_is_exact<F: Fn(FloatOp) -> u64>(f: F, a: u64, x: real, b: u64, y: real)
    requires
        is_wide_exact(f),
        wide_means(a, x),
        wide_means(b, y),
        is_double(x * y),
    ensures
        wide_means(wide_value(f, FloatOp::MulWide(a, b)), x * y),
{
}

/// A quotient that has a pattern is that pattern's number.
pub proof fn quotient_is_exact<F: Fn(FloatOp) -> u64>(f: F, a: u32, x: real, b: u32, y: real)
    requires
        is_exact(f),
        means(a, x),
        means(b, y),
        y != 0 as real,
        is_single(x / y),
    ensures
        means(value(f, FloatOp::Div(a, b)), x / y),
{
}

/// A double-precision quotient that has a pattern is that pattern's number.
pub proof fn wide_quotient_is_exact<F: Fn(FloatOp) -> u64>(f: F, a: u64, x: real, b: u64, y: real)
    requires
        is_wide_exact(f),
        wide_means(a, x),
        wide_means(b, y),
        y != 0 as real,
        is_double(x / y),
    ensures
        wide_means(wide_value(f, FloatOp::DivWide(a, b)), x / y),
{
}

/// A double-precision pattern stands for the opposite number with its sign flipped.
pub proof fn wide_negation_is_exact(b: u64)
    ensures
        wide_real_of(wide_negated(b)) == -wide_real_of(b),
        is_wide_finite_bits(wide_negated(b)) == is_wide_finite_bits(b),
{
    assert(wide_magnitude(wide_negated(b)) == wide_magnitude(b));
}

/// The patterns of two and of one half stand for these.
pub proof fn halves_are_exact()
    ensures
        means(0x4000_0000, 2 as real),
        means(0x3f00_0000, 1 as real / 2 as real),
        wide_means(0x3fe0_0000_0000_0000, 1 as real / 2 as real),
        wide_means(0xbfe0_0000_0000_0000, -(1 as real / 2 as real)),
{
    reveal_with_fuel(two_to, 60);
    assert(two_to(-22) * 0x80_0000 as real == 2 as real);
    assert(two_to(-24) * 0x80_0000 as real == 1 as real / 2 as real);
    assert(two_to(-53) * 0x10_0000_0000_0000 as real == 1 as real / 2 as real);
    assert(0x4000_0000int / 0x80_0000 == 128 && 0x4000_0000int % 0x80_0000 == 0);
    assert(0x3f00_0000int / 0x80_0000 == 126 && 0x3f00_0000int % 0x80_0000 == 0);
    assert(0x3fe0_0000_0000_0000int / 0x10_0000_0000_0000 == 1022);
    assert(0x3fe0_0000_0000_0000int % 0x10_0000_0000_0000 == 0);
    assert(size_of(0x4000_0000) == 0x80_0000 as real * two_to(-22));
    assert(size_of(0x3f00_0000) == 0x80_0000 as real * two_to(-24));
    assert(wide_size_of(0x3fe0_0000_0000_0000) == 0x10_0000_0000_0000 as real * two_to(-53));
}

/// Multiplying undoes dividing.
pub proof fn quotient_undoes(x: real, y: real)
    by (nonlinear_arith)
    requires
        y != 0 as real,
    ensures
        x / y * y == x,
{
}

/// A factor cancels.
pub proof fn factors_cancel(a: real, b: real, y: real)
    by (nonlinear_arith)
    requires
        y != 0 as real,
        a * y == b * y,
    ensures
        a == b,
{
}

} // verus!
