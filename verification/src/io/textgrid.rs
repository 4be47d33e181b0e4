//! TextGrids: tiers of labelled intervals, and how they are written.

use vstd::prelude::*;
use vstd::slice::slice_subrange;
use vstd::string::StringExecFns;

use crate::float::{
    eval_wide, is_evaluator, is_wide_nan_bits, wide_abs, wide_at_most, wide_eq, wide_le, wide_less,
    wide_lt, wide_magnitude, wide_max, wide_max_of, wide_same, wide_value, FloatOp, WIDE_ZERO,
};
use crate::io::numerals::{is_printer, show, shown, Style};
use crate::scan::{find, has, holds, place_of, replace, replaced};
use crate::text::{append_decimal, append_int, chars_of, decimal, decimal_int, same_text, string_of};
use crate::types::{
    untag_phone, untagged, IntervalAlignment, PhoneInterval, SymbolTable, WordInterval,
};

verus! {

/// Double-precision 1e-14.
pub const CLOSE: u64 = 0x3d06_849b_86a1_2b9b;

/// Double-precision 1e16.
pub const LARGE: u64 = 0x4341_c379_37e0_8000;

/// Double-precision 1e-4.
pub const SMALL: u64 = 0x3f1a_36e2_eb1c_432d;

/// Double-precision 1e6.
pub const MILLION: u64 = 0x412e_8480_0000_0000;

/// Double-precision 0.02: a last interval that ends this close to the end of the file ends there.
pub const SNAP: u64 = 0x3f94_7ae1_47ae_147b;

/// A labelled interval. Times are in seconds, as double-precision bits.
#[derive(Debug, PartialEq, Eq)]
pub struct Interval {
    pub xmin: u64,
    pub xmax: u64,
    pub text: String,
}

/// What an interval is.
#[verifier::ext_equal]
pub struct IntervalView {
    pub xmin: u64,
    pub xmax: u64,
    pub text: Seq<char>,
}

impl View for Interval {
    type V = IntervalView;

    open spec fn view(&self) -> IntervalView {
        IntervalView { xmin: self.xmin, xmax: self.xmax, text: self.text@ }
    }
}

/// What intervals are.
pub open spec fn interval_views(v: Seq<Interval>) -> Seq<IntervalView> {
    Seq::new(v.len(), |i: int| v[i]@)
}

/// A tier of intervals.
#[derive(Debug, PartialEq, Eq)]
pub struct IntervalTier {
    pub name: String,
    pub xmin: u64,
    pub xmax: u64,
    pub intervals: Vec<Interval>,
}

/// What a tier is.
#[verifier::ext_equal]
pub struct TierView {
    pub name: Seq<char>,
    pub xmin: u64,
    pub xmax: u64,
    pub intervals: Seq<IntervalView>,
}

impl View for IntervalTier {
    type V = TierView;

    open spec fn view(&self) -> TierView {
        TierView {
            name: self.name@,
            xmin: self.xmin,
            xmax: self.xmax,
            intervals: interval_views(self.intervals@),
        }
    }
}

/// What tiers are.
pub open spec fn tier_views(v: Seq<IntervalTier>) -> Seq<TierView> {
    Seq::new(v.len(), |i: int| v[i]@)
}

/// Tiers over a stretch of time.
#[derive(Debug, PartialEq, Eq)]
pub struct TextGrid {
    pub xmin: u64,
    pub xmax: u64,
    pub tiers: Vec<IntervalTier>,
}

/// What a TextGrid is.
#[verifier::ext_equal]
pub struct GridView {
    pub xmin: u64,
    pub xmax: u64,
    pub tiers: Seq<TierView>,
}

impl View for TextGrid {
    type V = GridView;

    open spec fn view(&self) -> GridView {
        GridView { xmin: self.xmin, xmax: self.xmax, tiers: tier_views(self.tiers@) }
    }
}

/// Two numbers are equal up to the precision of their larger magnitude.
pub open spec fn is_close_to<F: Fn(FloatOp) -> u64>(a: u64, b: u64, f: F) -> bool {
    wide_at_most(
        wide_magnitude(wide_value(f, FloatOp::SubWide(a, b))),
        wide_value(
            f,
            FloatOp::MulWide(CLOSE, wide_max_of(wide_magnitude(a), wide_magnitude(b))),
        ),
    )
}

/// A 64-bit pattern as a signed integer.
pub open spec fn signed_of(v: u64) -> int {
    if v < 0x8000_0000_0000_0000 {
        v as int
    } else {
        v - 0x1_0000_0000_0000_0000
    }
}

/// Digits with zeros before them, up to two.
pub open spec fn two_digits(s: Seq<char>) -> Seq<char> {
    if s.len() == 0 {
        "00"@
    } else if s.len() == 1 {
        "0"@ + s
    } else {
        s
    }
}

/// A mantissa and an exponent as they are written: with a point and a digit, and with a sign and two
/// digits.
pub open spec fn scientific(s: Seq<char>) -> Seq<char> {
    let k = place_of(s, "e"@, 0);
    if k >= s.len() {
        s
    } else {
        let mant = s.take(k);
        let exp = s.skip(k + 1);
        let mantissa = if holds(mant, "."@) {
            mant
        } else {
            mant + ".0"@
        };
        if exp.len() > 0 && exp[0] == '-' {
            mantissa + "e-"@ + two_digits(exp.skip(1))
        } else {
            mantissa + "e+"@ + two_digits(exp)
        }
    }
}

/// A number that is no integer: with an exponent where it is very large or very small.
pub open spec fn repr_text<P: Fn(u64, Style) -> String>(x: u64, p: P) -> Seq<char> {
    let a = wide_magnitude(x);
    if !wide_same(a, WIDE_ZERO) && (wide_at_most(LARGE, a) || wide_less(a, SMALL)) {
        scientific(shown(p, x, Style::Scientific))
    } else {
        shown(p, x, Style::Plain)
    }
}

/// How a number is written: an integer without a point.
pub open spec fn num_text<F: Fn(FloatOp) -> u64, P: Fn(u64, Style) -> String>(x: u64, f: F, p: P) -> Seq<
    char,
> {
    if is_close_to(x, wide_value(f, FloatOp::RoundWide(x)), f) {
        decimal_int(signed_of(wide_value(f, FloatOp::TruncSigned(x))))
    } else {
        repr_text(x, p)
    }
}

fn is_close<F: Fn(FloatOp) -> u64>(a: u64, b: u64, f: &F) -> (r: bool)
    requires
        is_evaluator(*f),
    ensures
        r == is_close_to(a, b, *f),
{
    let gap: u64 = wide_abs(eval_wide(f, FloatOp::SubWide(a, b)));
    let size: u64 = wide_max(wide_abs(a), wide_abs(b));
    wide_le(gap, eval_wide(f, FloatOp::MulWide(CLOSE, size)))
}

/// Put zeros before digits, up to two.
fn pad_two(s: &[char]) -> (r: Vec<char>)
    ensures
        r@ == two_digits(s@),
{
    proof {
        reveal_strlit("00");
        reveal_strlit("0");
    }
    let mut out: Vec<char> = Vec::new();
    if s.len() == 0 {
        out.push('0');
        out.push('0');
        assert(out@ =~= "00"@);
        return out;
    }
    if s.len() == 1 {
        out.push('0');
    }
    out.extend_from_slice(s);
    assert(out@ =~= two_digits(s@));
    out
}

fn make_scientific(text: &str) -> (r: String)
    ensures
        r@ == scientific(text@),
{
    proof {
        reveal_strlit("e");
        reveal_strlit("-");
    }
    let s = chars_of(text);
    let e = chars_of("e");
    let n: usize = s.len();
    let k: usize = find(s.as_slice(), e.as_slice());
    if k >= n {
        return string_of(s.as_slice());
    }
    let mant = slice_subrange(s.as_slice(), 0, k);
    let exp = slice_subrange(s.as_slice(), k + 1, n);
    proof {
        assert(mant@ =~= s@.take(k as int));
        assert(exp@ =~= s@.skip(k + 1));
    }
    let mut out = string_of(mant);
    let pointed: bool = has(mant, ".");
    if !pointed {
        out.append(".0");
    }
    if exp.len() > 0 && exp[0] == '-' {
        let digits = slice_subrange(exp, 1, exp.len());
        assert(digits@ =~= exp@.skip(1));
        out.append("e-");
        out.append(string_of(pad_two(digits).as_slice()).as_str());
    } else {
        out.append("e+");
        out.append(string_of(pad_two(exp).as_slice()).as_str());
    }
    assert(out@ =~= scientific(text@));
    out
}

/// A number that is no integer.
pub fn format_repr<P: Fn(u64, Style) -> String>(x: u64, p: &P) -> (r: String)
    requires
        is_printer(*p),
    ensures
        r@ == repr_text(x, *p),
{
    let a: u64 = wide_abs(x);
    if !wide_eq(a, WIDE_ZERO) && (wide_le(LARGE, a) || wide_lt(a, SMALL)) {
        let s = show(p, x, Style::Scientific);
        make_scientific(s.as_str())
    } else {
        show(p, x, Style::Plain)
    }
}

pub(crate) fn to_signed(v: u64) -> (r: i64)
    ensures
        r == signed_of(v),
{
    if v < 0x8000_0000_0000_0000 {
        v as i64
    } else {
        (v - 0x8000_0000_0000_0000) as i64 + i64::MIN
    }
}

/// How a number is written.
pub fn num_to_str<F: Fn(FloatOp) -> u64, P: Fn(u64, Style) -> String>(x: u64, f: &F, p: &P) -> (r:
    String)
    requires
        is_evaluator(*f),
        is_printer(*p),
    ensures
        r@ == num_text(x, *f, *p),
{
    if is_close(x, eval_wide(f, FloatOp::RoundWide(x)), f) {
        let n: i64 = to_signed(eval_wide(f, FloatOp::TruncSigned(x)));
        let mut out = String::new();
        append_int(&mut out, n);
        assert(out@ =~= decimal_int(n as int));
        out
    } else {
        format_repr(x, p)
    }
}

/// A text with its quotes doubled.
pub open spec fn escaped(s: Seq<char>) -> Seq<char> {
    replaced(s, "\""@, "\"\""@)
}

/// Double the quotes of a text.
pub fn escape_quotes(s: &str) -> (r: String)
    ensures
        r@ == escaped(s@),
{
    proof {
        reveal_strlit("\"");
    }
    let cs = chars_of(s);
    let out = replace(cs.as_slice(), "\"", "\"\"");
    string_of(out.as_slice())
}

/// Lines, each with a line feed after it.
pub open spec fn unlines(v: Seq<Seq<char>>) -> Seq<char>
    decreases v.len(),
{
    if v.len() == 0 {
        seq![]
    } else {
        unlines(v.drop_last()) + v.last() + "\n"@
    }
}

pub(crate) proof fn unlines_push(v: Seq<Seq<char>>, x: Seq<char>)
    ensures
        unlines(v.push(x)) == unlines(v) + x + "\n"@,
{
    assert(v.push(x).drop_last() =~= v);
}

/// Append a line of three parts.
fn put_line(out: &mut String, a: &str, b: &str, c: &str, Ghost(lines): Ghost<Seq<Seq<char>>>)
    requires
        old(out)@ == unlines(lines),
    ensures
        final(out)@ == unlines(lines.push(a@ + b@ + c@)),
{
    out.append(a);
    out.append(b);
    out.append(c);
    out.append("\n");
    proof {
        unlines_push(lines, a@ + b@ + c@);
        assert(out@ =~= unlines(lines.push(a@ + b@ + c@)));
    }
}

/// A number in decimal.
fn count_text(n: usize) -> (r: String)
    ensures
        r@ == decimal(n as nat),
{
    let mut out = String::new();
    append_decimal(&mut out, n as u64);
    assert(out@ =~= decimal(n as nat));
    out
}

/// The lines of an interval in the long format.
pub open spec fn long_interval<F: Fn(FloatOp) -> u64, P: Fn(u64, Style) -> String>(
    iv: IntervalView,
    j: int,
    f: F,
    p: P,
) -> Seq<Seq<char>> {
    seq![
        "        intervals ["@ + decimal((j + 1) as nat) + "]:"@,
        "            xmin = "@ + num_text(iv.xmin, f, p) + " "@,
        "            xmax = "@ + num_text(iv.xmax, f, p) + " "@,
        "            text = \""@ + escaped(iv.text) + "\" "@,
    ]
}

/// The lines of the first `n` intervals in the long format.
pub open spec fn long_intervals<F: Fn(FloatOp) -> u64, P: Fn(u64, Style) -> String>(
    ivs: Seq<IntervalView>,
    n: int,
    f: F,
    p: P,
) -> Seq<Seq<char>>
    decreases n,
{
    if n <= 0 {
        seq![]
    } else {
        long_intervals(ivs, n - 1, f, p) + long_interval(ivs[n - 1], n - 1, f, p)
    }
}

/// The lines of a tier in the long format.
pub open spec fn long_tier<F: Fn(FloatOp) -> u64, P: Fn(u64, Style) -> String>(
    t: TierView,
    i: int,
    f: F,
    p: P,
) -> Seq<Seq<char>> {
    seq![
        "    item ["@ + decimal((i + 1) as nat) + "]:"@,
        "        class = \"IntervalTier\" "@,
        "        name = \""@ + escaped(t.name) + "\" "@,
        "        xmin = "@ + num_text(t.xmin, f, p) + " "@,
        "        xmax = "@ + num_text(t.xmax, f, p) + " "@,
        "        intervals: size = "@ + decimal(t.intervals.len()) + " "@,
    ] + long_intervals(t.intervals, t.intervals.len() as int, f, p)
}

/// The lines of the first `n` tiers in the long format.
pub open spec fn long_tiers<F: Fn(FloatOp) -> u64, P: Fn(u64, Style) -> String>(
    ts: Seq<TierView>,
    n: int,
    f: F,
    p: P,
) -> Seq<Seq<char>>
    decreases n,
{
    if n <= 0 {
        seq![]
    } else {
        long_tiers(ts, n - 1, f, p) + long_tier(ts[n - 1], n - 1, f, p)
    }
}

/// The lines of a TextGrid in the long format.
pub open spec fn long_lines<F: Fn(FloatOp) -> u64, P: Fn(u64, Style) -> String>(
    g: GridView,
    f: F,
    p: P,
) -> Seq<Seq<char>> {
    seq![
        "File type = \"ooTextFile\""@,
        "Object class = \"TextGrid\""@,
        ""@,
        "xmin = "@ + num_text(g.xmin, f, p) + " "@,
        "xmax = "@ + num_text(g.xmax, f, p) + " "@,
        "tiers? <exists> "@,
        "size = "@ + decimal(g.tiers.len()) + " "@,
        "item []: "@,
    ] + long_tiers(g.tiers, g.tiers.len() as int, f, p)
}

/// The lines of an interval in the short format.
pub open spec fn short_interval<F: Fn(FloatOp) -> u64, P: Fn(u64, Style) -> String>(
    iv: IntervalView,
    f: F,
    p: P,
) -> Seq<Seq<char>> {
    seq![
        num_text(iv.xmin, f, p),
        num_text(iv.xmax, f, p),
        "\""@ + escaped(iv.text) + "\""@,
    ]
}

/// The lines of the first `n` intervals in the short format.
pub open spec fn short_intervals<F: Fn(FloatOp) -> u64, P: Fn(u64, Style) -> String>(
    ivs: Seq<IntervalView>,
    n: int,
    f: F,
    p: P,
) -> Seq<Seq<char>>
    decreases n,
{
    if n <= 0 {
        seq![]
    } else {
        short_intervals(ivs, n - 1, f, p) + short_interval(ivs[n - 1], f, p)
    }
}

/// The lines of a tier in the short format.
pub open spec fn short_tier<F: Fn(FloatOp) -> u64, P: Fn(u64, Style) -> String>(
    t: TierView,
    f: F,
    p: P,
) -> Seq<Seq<char>> {
    seq![
        "\"IntervalTier\""@,
        "\""@ + escaped(t.name) + "\""@,
        num_text(t.xmin, f, p),
        num_text(t.xmax, f, p),
        decimal(t.intervals.len()),
    ] + short_intervals(t.intervals, t.intervals.len() as int, f, p)
}

/// The lines of the first `n` tiers in the short format.
pub open spec fn short_tiers<F: Fn(FloatOp) -> u64, P: Fn(u64, Style) -> String>(
    ts: Seq<TierView>,
    n: int,
    f: F,
    p: P,
) -> Seq<Seq<char>>
    decreases n,
{
    if n <= 0 {
        seq![]
    } else {
        short_tiers(ts, n - 1, f, p) + short_tier(ts[n - 1], f, p)
    }
}

/// The lines of a TextGrid in the short format.
pub open spec fn short_lines<F: Fn(FloatOp) -> u64, P: Fn(u64, Style) -> String>(
    g: GridView,
    f: F,
    p: P,
) -> Seq<Seq<char>> {
    seq![
        "File type = \"ooTextFile\""@,
        "Object class = \"TextGrid\""@,
        ""@,
        num_text(g.xmin, f, p),
        num_text(g.xmax, f, p),
        "<exists>"@,
        decimal(g.tiers.len()),
    ] + short_tiers(g.tiers, g.tiers.len() as int, f, p)
}

proof fn no_text(a: Seq<char>)
    ensures
        a + ""@ + ""@ == a,
        ""@ + a + ""@ == a,
{
    reveal_strlit("");
    assert(a + ""@ + ""@ =~= a);
    assert(""@ + a + ""@ =~= a);
}

impl IntervalTier {
    #[verifier::spinoff_prover]
    fn put_long<F: Fn(FloatOp) -> u64, P: Fn(u64, Style) -> String>(
        &self,
        out: &mut String,
        i: usize,
        f: &F,
        p: &P,
        Ghost(lines): Ghost<Seq<Seq<char>>>,
    )
        requires
            is_evaluator(*f),
            is_printer(*p),
            i < usize::MAX,
            old(out)@ == unlines(lines),
        ensures
            final(out)@ == unlines(lines + long_tier(self@, i as int, *f, *p)),
    {
        let ghost head = seq![
            "    item ["@ + decimal((i + 1) as nat) + "]:"@,
            "        class = \"IntervalTier\" "@,
            "        name = \""@ + escaped(self.name@) + "\" "@,
            "        xmin = "@ + num_text(self.xmin, *f, *p) + " "@,
            "        xmax = "@ + num_text(self.xmax, *f, *p) + " "@,
            "        intervals: size = "@ + decimal(self.intervals@.len()) + " "@,
        ];
        proof {
            no_text("        class = \"IntervalTier\" "@);
        }
        let item = count_text(i + 1);
        put_line(out, "    item [", item.as_str(), "]:", Ghost(lines));
        put_line(out, "        class = \"IntervalTier\" ", "", "", Ghost(lines.push(head[0])));
        let name = escape_quotes(self.name.as_str());
        put_line(
            out,
            "        name = \"",
            name.as_str(),
            "\" ",
            Ghost(lines.push(head[0]).push(head[1])),
        );
        let a = num_to_str(self.xmin, f, p);
        put_line(
            out,
            "        xmin = ",
            a.as_str(),
            " ",
            Ghost(lines.push(head[0]).push(head[1]).push(head[2])),
        );
        let b = num_to_str(self.xmax, f, p);
        put_line(
            out,
            "        xmax = ",
            b.as_str(),
            " ",
            Ghost(lines.push(head[0]).push(head[1]).push(head[2]).push(head[3])),
        );
        let n = count_text(self.intervals.len());
        put_line(
            out,
            "        intervals: size = ",
            n.as_str(),
            " ",
            Ghost(lines.push(head[0]).push(head[1]).push(head[2]).push(head[3]).push(head[4])),
        );
        let ghost ivs = interval_views(self.intervals@);
        let ghost first = lines + head;
        proof {
            assert(first =~= lines.push(head[0]).push(head[1]).push(head[2]).push(head[3]).push(
                head[4],
            ).push(head[5]));
            assert(first + long_intervals(ivs, 0, *f, *p) =~= first);
        }
        let mut j: usize = 0;
        while j < self.intervals.len()
            invariant
                is_evaluator(*f),
                is_printer(*p),
                ivs == interval_views(self.intervals@),
                j <= self.intervals@.len(),
                out@ == unlines(first + long_intervals(ivs, j as int, *f, *p)),
            decreases self.intervals.len() - j,
        {
            let iv = &self.intervals[j];
            let ghost sofar = first + long_intervals(ivs, j as int, *f, *p);
            let ghost more = long_interval(iv@, j as int, *f, *p);
            assert(ivs[j as int] == iv@);
            let total: usize = self.intervals.len();
            assert(j + 1 <= total);
            let number = count_text(j + 1);
            put_line(out, "        intervals [", number.as_str(), "]:", Ghost(sofar));
            let a = num_to_str(iv.xmin, f, p);
            put_line(out, "            xmin = ", a.as_str(), " ", Ghost(sofar.push(more[0])));
            let b = num_to_str(iv.xmax, f, p);
            put_line(
                out,
                "            xmax = ",
                b.as_str(),
                " ",
                Ghost(sofar.push(more[0]).push(more[1])),
            );
            let text = escape_quotes(iv.text.as_str());
            put_line(
                out,
                "            text = \"",
                text.as_str(),
                "\" ",
                Ghost(sofar.push(more[0]).push(more[1]).push(more[2])),
            );
            proof {
                assert(sofar.push(more[0]).push(more[1]).push(more[2]).push(more[3]) =~= first
                    + long_intervals(ivs, j + 1, *f, *p));
            }
            j += 1;
        }
        assert(first + long_intervals(ivs, j as int, *f, *p) =~= lines + long_tier(
            self@,
            i as int,
            *f,
            *p,
        ));
    }

    #[verifier::spinoff_prover]
    fn put_short<F: Fn(FloatOp) -> u64, P: Fn(u64, Style) -> String>(
        &self,
        out: &mut String,
        f: &F,
        p: &P,
        Ghost(lines): Ghost<Seq<Seq<char>>>,
    )
        requires
            is_evaluator(*f),
            is_printer(*p),
            old(out)@ == unlines(lines),
        ensures
            final(out)@ == unlines(lines + short_tier(self@, *f, *p)),
    {
        let ghost head = seq![
            "\"IntervalTier\""@,
            "\""@ + escaped(self.name@) + "\""@,
            num_text(self.xmin, *f, *p),
            num_text(self.xmax, *f, *p),
            decimal(self.intervals@.len()),
        ];
        proof {
            no_text(head[0]);
            no_text(head[2]);
            no_text(head[3]);
            no_text(head[4]);
        }
        put_line(out, "\"IntervalTier\"", "", "", Ghost(lines));
        let name = escape_quotes(self.name.as_str());
        put_line(out, "\"", name.as_str(), "\"", Ghost(lines.push(head[0])));
        let a = num_to_str(self.xmin, f, p);
        put_line(out, a.as_str(), "", "", Ghost(lines.push(head[0]).push(head[1])));
        let b = num_to_str(self.xmax, f, p);
        put_line(out, b.as_str(), "", "", Ghost(lines.push(head[0]).push(head[1]).push(head[2])));
        let n = count_text(self.intervals.len());
        put_line(
            out,
            n.as_str(),
            "",
            "",
            Ghost(lines.push(head[0]).push(head[1]).push(head[2]).push(head[3])),
        );
        let ghost ivs = interval_views(self.intervals@);
        let ghost first = lines + head;
        proof {
            assert(first =~= lines.push(head[0]).push(head[1]).push(head[2]).push(head[3]).push(
                head[4],
            ));
            assert(first + short_intervals(ivs, 0, *f, *p) =~= first);
        }
        let mut j: usize = 0;
        while j < self.intervals.len()
            invariant
                is_evaluator(*f),
                is_printer(*p),
                ivs == interval_views(self.intervals@),
                j <= self.intervals@.len(),
                out@ == unlines(first + short_intervals(ivs, j as int, *f, *p)),
            decreases self.intervals.len() - j,
        {
            let iv = &self.intervals[j];
            let ghost sofar = first + short_intervals(ivs, j as int, *f, *p);
            let ghost more = short_interval(iv@, *f, *p);
            proof {
                assert(ivs[j as int] == iv@);
                no_text(more[0]);
                no_text(more[1]);
            }
            let a = num_to_str(iv.xmin, f, p);
            put_line(out, a.as_str(), "", "", Ghost(sofar));
            let b = num_to_str(iv.xmax, f, p);
            put_line(out, b.as_str(), "", "", Ghost(sofar.push(more[0])));
            let text = escape_quotes(iv.text.as_str());
            put_line(out, "\"", text.as_str(), "\"", Ghost(sofar.push(more[0]).push(more[1])));
            proof {
                assert(sofar.push(more[0]).push(more[1]).push(more[2]) =~= first
                    + short_intervals(ivs, j + 1, *f, *p));
            }
            j += 1;
        }
        assert(first + short_intervals(ivs, j as int, *f, *p) =~= lines + short_tier(
            self@,
            *f,
            *p,
        ));
    }
}

impl TextGrid {
    /// The TextGrid in the long text format.
    #[verifier::spinoff_prover]
    pub fn to_string_long<F: Fn(FloatOp) -> u64, P: Fn(u64, Style) -> String>(
        &self,
        f: &F,
        p: &P,
    ) -> (r: String)
        requires
            is_evaluator(*f),
            is_printer(*p),
        ensures
            r@ == unlines(long_lines(self@, *f, *p)),
    {
        let ghost head = seq![
            "File type = \"ooTextFile\""@,
            "Object class = \"TextGrid\""@,
            ""@,
            "xmin = "@ + num_text(self.xmin, *f, *p) + " "@,
            "xmax = "@ + num_text(self.xmax, *f, *p) + " "@,
            "tiers? <exists> "@,
            "size = "@ + decimal(self.tiers@.len()) + " "@,
            "item []: "@,
        ];
        proof {
            no_text(head[0]);
            no_text(head[1]);
            no_text(head[2]);
            no_text(head[5]);
            no_text(head[7]);
        }
        let mut out = String::new();
        let ghost l0: Seq<Seq<char>> = seq![];
        assert(out@ =~= unlines(l0));
        put_line(&mut out, "File type = \"ooTextFile\"", "", "", Ghost(l0));
        let ghost l1 = l0.push(head[0]);
        put_line(&mut out, "Object class = \"TextGrid\"", "", "", Ghost(l1));
        let ghost l2 = l1.push(head[1]);
        put_line(&mut out, "", "", "", Ghost(l2));
        let ghost l3 = l2.push(head[2]);
        let a = num_to_str(self.xmin, f, p);
        put_line(&mut out, "xmin = ", a.as_str(), " ", Ghost(l3));
        let ghost l4 = l3.push(head[3]);
        let b = num_to_str(self.xmax, f, p);
        put_line(&mut out, "xmax = ", b.as_str(), " ", Ghost(l4));
        let ghost l5 = l4.push(head[4]);
        put_line(&mut out, "tiers? <exists> ", "", "", Ghost(l5));
        let ghost l6 = l5.push(head[5]);
        let n = count_text(self.tiers.len());
        put_line(&mut out, "size = ", n.as_str(), " ", Ghost(l6));
        let ghost l7 = l6.push(head[6]);
        put_line(&mut out, "item []: ", "", "", Ghost(l7));
        let ghost first = l7.push(head[7]);
        let ghost ts = tier_views(self.tiers@);
        proof {
            assert(first =~= head);
            assert(first + long_tiers(ts, 0, *f, *p) =~= first);
        }
        let mut i: usize = 0;
        while i < self.tiers.len()
            invariant
                is_evaluator(*f),
                is_printer(*p),
                ts == tier_views(self.tiers@),
                i <= self.tiers@.len(),
                out@ == unlines(first + long_tiers(ts, i as int, *f, *p)),
            decreases self.tiers.len() - i,
        {
            assert(ts[i as int] == self.tiers@[i as int]@);
            let total: usize = self.tiers.len();
            assert(i < total);
            self.tiers[i].put_long(
                &mut out,
                i,
                f,
                p,
                Ghost(first + long_tiers(ts, i as int, *f, *p)),
            );
            assert((first + long_tiers(ts, i as int, *f, *p)) + long_tier(
                ts[i as int],
                i as int,
                *f,
                *p,
            ) =~= first + long_tiers(ts, i + 1, *f, *p));
            i += 1;
        }
        assert(first + long_tiers(ts, i as int, *f, *p) =~= long_lines(self@, *f, *p));
        out
    }

    /// The TextGrid in the short text format.
    #[verifier::spinoff_prover]
    pub fn to_string_short<F: Fn(FloatOp) -> u64, P: Fn(u64, Style) -> String>(
        &self,
        f: &F,
        p: &P,
    ) -> (r: String)
        requires
            is_evaluator(*f),
            is_printer(*p),
        ensures
            r@ == unlines(short_lines(self@, *f, *p)),
    {
        let ghost head = seq![
            "File type = \"ooTextFile\""@,
            "Object class = \"TextGrid\""@,
            ""@,
            num_text(self.xmin, *f, *p),
            num_text(self.xmax, *f, *p),
            "<exists>"@,
            decimal(self.tiers@.len()),
        ];
        proof {
            no_text(head[0]);
            no_text(head[1]);
            no_text(head[2]);
            no_text(head[3]);
            no_text(head[4]);
            no_text(head[5]);
            no_text(head[6]);
        }
        let mut out = String::new();
        let ghost l0: Seq<Seq<char>> = seq![];
        assert(out@ =~= unlines(l0));
        put_line(&mut out, "File type = \"ooTextFile\"", "", "", Ghost(l0));
        let ghost l1 = l0.push(head[0]);
        put_line(&mut out, "Object class = \"TextGrid\"", "", "", Ghost(l1));
        let ghost l2 = l1.push(head[1]);
        put_line(&mut out, "", "", "", Ghost(l2));
        let ghost l3 = l2.push(head[2]);
        let a = num_to_str(self.xmin, f, p);
        put_line(&mut out, a.as_str(), "", "", Ghost(l3));
        let ghost l4 = l3.push(head[3]);
        let b = num_to_str(self.xmax, f, p);
        put_line(&mut out, b.as_str(), "", "", Ghost(l4));
        let ghost l5 = l4.push(head[4]);
        put_line(&mut out, "<exists>", "", "", Ghost(l5));
        let ghost l6 = l5.push(head[5]);
        let n = count_text(self.tiers.len());
        put_line(&mut out, n.as_str(), "", "", Ghost(l6));
        let ghost first = l6.push(head[6]);
        let ghost ts = tier_views(self.tiers@);
        proof {
            assert(first =~= head);
            assert(first + short_tiers(ts, 0, *f, *p) =~= first);
        }
        let mut i: usize = 0;
        while i < self.tiers.len()
            invariant
                is_evaluator(*f),
                is_printer(*p),
                ts == tier_views(self.tiers@),
                i <= self.tiers@.len(),
                out@ == unlines(first + short_tiers(ts, i as int, *f, *p)),
            decreases self.tiers.len() - i,
        {
            assert(ts[i as int] == self.tiers@[i as int]@);
            self.tiers[i].put_short(
                &mut out,
                f,
                p,
                Ghost(first + short_tiers(ts, i as int, *f, *p)),
            );
            assert((first + short_tiers(ts, i as int, *f, *p)) + short_tier(
                ts[i as int],
                *f,
                *p,
            ) =~= first + short_tiers(ts, i + 1, *f, *p));
            i += 1;
        }
        assert(first + short_tiers(ts, i as int, *f, *p) =~= short_lines(self@, *f, *p));
        out
    }

    /// The first tier with a name.
    pub fn tier(&self, name: &str) -> (r: Option<&IntervalTier>)
        ensures
            match r {
                Some(t) => exists|i: int|
                    0 <= i < self.tiers@.len() && self.tiers@[i] == *t && t.name@ == name@ && forall|
                        k: int,
                    |
                        0 <= k < i ==> (#[trigger] self.tiers@[k]).name@ != name@,
                None => forall|i: int|
                    0 <= i < self.tiers@.len() ==> (#[trigger] self.tiers@[i]).name@ != name@,
            },
    {
        let mut i: usize = 0;
        while i < self.tiers.len()
            invariant
                i <= self.tiers@.len(),
                forall|k: int| 0 <= k < i ==> (#[trigger] self.tiers@[k]).name@ != name@,
            decreases self.tiers.len() - i,
        {
            if same_text(self.tiers[i].name.as_str(), name) {
                assert(self.tiers@[i as int].name@ == name@);
                return Some(&self.tiers[i]);
            }
            i += 1;
        }
        None
    }
}

/// A time rounded to six decimals.
pub open spec fn rounded<F: Fn(FloatOp) -> u64>(x: u64, f: F) -> u64 {
    wide_value(
        f,
        FloatOp::DivWide(
            wide_value(
                f,
                FloatOp::RoundWide(wide_value(f, FloatOp::MulWide(x, MILLION))),
            ),
            MILLION,
        ),
    )
}

/// Round a time to six decimals.
pub fn round6<F: Fn(FloatOp) -> u64>(x: u64, f: &F) -> (r: u64)
    requires
        is_evaluator(*f),
    ensures
        r == rounded(x, *f),
{
    let scaled: u64 = eval_wide(f, FloatOp::MulWide(x, MILLION));
    eval_wide(f, FloatOp::DivWide(eval_wide(f, FloatOp::RoundWide(scaled)), MILLION))
}

/// An interval kept between the end of the one before it and the end of the file.
pub open spec fn clamped_interval(iv: IntervalView, prev_end: u64, duration: u64) -> IntervalView {
    IntervalView {
        xmin: if wide_less(iv.xmin, prev_end) {
            prev_end
        } else {
            iv.xmin
        },
        xmax: if wide_less(duration, iv.xmax) {
            duration
        } else {
            iv.xmax
        },
        text: iv.text,
    }
}

/// An interval without a label.
pub open spec fn blank(xmin: u64, xmax: u64) -> IntervalView {
    IntervalView { xmin, xmax, text: seq![] }
}

/// The first `n` intervals, clamped, with blanks before those that start later than the one before
/// them ends, and the end of the last one. Intervals with nothing left are dropped.
pub open spec fn filled(ivs: Seq<IntervalView>, duration: u64, n: int) -> (Seq<IntervalView>, u64)
    decreases n,
{
    if n <= 0 {
        (seq![], WIDE_ZERO)
    } else {
        let (out, prev_end) = filled(ivs, duration, n - 1);
        let iv = clamped_interval(ivs[n - 1], prev_end, duration);
        if wide_at_most(iv.xmax, iv.xmin) {
            (out, prev_end)
        } else if wide_less(prev_end, iv.xmin) {
            (out.push(blank(prev_end, iv.xmin)).push(iv), iv.xmax)
        } else {
            (out.push(iv), iv.xmax)
        }
    }
}

/// The intervals of a tier: those of the list, with blanks in between, up to the end of the file.
pub open spec fn tier_intervals(ivs: Seq<IntervalView>, duration: u64) -> Seq<IntervalView> {
    let (out, prev_end) = filled(ivs, duration, ivs.len() as int);
    if wide_less(prev_end, duration) {
        out.push(blank(prev_end, duration))
    } else if out.len() == 0 {
        seq![blank(WIDE_ZERO, duration)]
    } else {
        out
    }
}

/// The times of the intervals are numbers.
pub open spec fn are_times(ivs: Seq<IntervalView>) -> bool {
    forall|i: int|
        0 <= i < ivs.len() ==> !is_wide_nan_bits((#[trigger] ivs[i]).xmin) && !is_wide_nan_bits(
            ivs[i].xmax,
        )
}

/// Every interval starts where the one before it ends, and the first one at zero.
pub open spec fn is_contiguous(v: Seq<IntervalView>) -> bool {
    &&& v.len() > 0 ==> wide_same(v[0].xmin, WIDE_ZERO)
    &&& forall|i: int|
        0 <= i < v.len() - 1 ==> wide_same(
            (#[trigger] v[i]).xmax,
            v[i + 1].xmin,
        )
}

proof fn filled_is_contiguous(ivs: Seq<IntervalView>, duration: u64, n: int)
    requires
        0 <= n <= ivs.len(),
        are_times(ivs),
        !is_wide_nan_bits(duration),
        wide_at_most(WIDE_ZERO, duration),
    ensures
        is_contiguous(filled(ivs, duration, n).0),
        !is_wide_nan_bits(filled(ivs, duration, n).1),
        wide_at_most(WIDE_ZERO, filled(ivs, duration, n).1),
        wide_at_most(filled(ivs, duration, n).1, duration),
        filled(ivs, duration, n).0.len() == 0 ==> filled(ivs, duration, n).1 == WIDE_ZERO,
        filled(ivs, duration, n).0.len() > 0 ==> filled(ivs, duration, n).0.last().xmax == filled(
            ivs,
            duration,
            n,
        ).1,
        forall|i: int|
            0 <= i < filled(ivs, duration, n).0.len() ==> wide_less(
                (#[trigger] filled(ivs, duration, n).0[i]).xmin,
                filled(ivs, duration, n).0[i].xmax,
            ),
    decreases n,
{
    if n > 0 {
        filled_is_contiguous(ivs, duration, n - 1);
        let (out, prev_end) = filled(ivs, duration, n - 1);
        assert(!is_wide_nan_bits(ivs[n - 1].xmin));
        let iv = clamped_interval(ivs[n - 1], prev_end, duration);
        let (now, end) = filled(ivs, duration, n);
        assert forall|i: int| 0 <= i < now.len() implies wide_less(
            (#[trigger] now[i]).xmin,
            now[i].xmax,
        ) by {
            if i < out.len() {
                assert(now[i] == out[i]);
                assert(filled(ivs, duration, n - 1).0[i] == out[i]);
            }
        }
        assert forall|i: int| 0 <= i < now.len() - 1 implies wide_same(
            (#[trigger] now[i]).xmax,
            now[i + 1].xmin,
        ) by {
            if i < out.len() - 1 {
                assert(now[i] == out[i]);
                assert(now[i + 1] == out[i + 1]);
                assert(wide_same(out[i].xmax, out[i + 1].xmin));
            } else if i < out.len() {
                assert(now[i] == out.last());
            }
        }
    }
}

/// A tier runs from zero to the end of the file without a gap, and no interval of it is empty unless
/// the file is.
pub proof fn tier_is_contiguous(ivs: Seq<IntervalView>, duration: u64)
    requires
        are_times(ivs),
        !is_wide_nan_bits(duration),
        wide_at_most(WIDE_ZERO, duration),
    ensures
        tier_intervals(ivs, duration).len() > 0,
        is_contiguous(tier_intervals(ivs, duration)),
        wide_same(tier_intervals(ivs, duration).last().xmax, duration),
        wide_less(WIDE_ZERO, duration) ==> forall|i: int|
            0 <= i < tier_intervals(ivs, duration).len() ==> wide_less(
                (#[trigger] tier_intervals(ivs, duration)[i]).xmin,
                tier_intervals(ivs, duration)[i].xmax,
            ),
{
    let n = ivs.len() as int;
    filled_is_contiguous(ivs, duration, n);
    let (out, prev_end) = filled(ivs, duration, n);
    let all = tier_intervals(ivs, duration);
    assert forall|i: int| 0 <= i < all.len() - 1 implies wide_same(
        (#[trigger] all[i]).xmax,
        all[i + 1].xmin,
    ) by {
        if i < out.len() - 1 {
            assert(all[i] == out[i]);
            assert(all[i + 1] == out[i + 1]);
            assert(wide_same(out[i].xmax, out[i + 1].xmin));
        } else {
            assert(all[i] == out.last());
        }
    }
    if wide_less(WIDE_ZERO, duration) {
        assert forall|i: int| 0 <= i < all.len() implies wide_less(
            (#[trigger] all[i]).xmin,
            all[i].xmax,
        ) by {
            if i < out.len() {
                assert(all[i] == out[i]);
                assert(filled(ivs, duration, n).0[i] == out[i]);
            }
        }
    }
}

/// An interval's label stays on it: a clamped interval that is not dropped is in the tier.
pub proof fn labels_are_kept(ivs: Seq<IntervalView>, duration: u64, n: int)
    requires
        0 < n <= ivs.len(),
        ({
            let iv = clamped_interval(ivs[n - 1], filled(ivs, duration, n - 1).1, duration);
            !wide_at_most(iv.xmax, iv.xmin)
        }),
    ensures
        filled(ivs, duration, n).0.last() == clamped_interval(
            ivs[n - 1],
            filled(ivs, duration, n - 1).1,
            duration,
        ),
{
}

/// A tier of intervals: clamped to the file, with blanks in between.
pub fn make_tier(name: &str, ivs: Vec<Interval>, duration: u64) -> (r: IntervalTier)
    ensures
        r@ == (TierView {
            name: name@,
            xmin: WIDE_ZERO,
            xmax: duration,
            intervals: tier_intervals(interval_views(ivs@), duration),
        }),
{
    let ghost all = interval_views(ivs@);
    let mut out: Vec<Interval> = Vec::new();
    let mut prev_end: u64 = WIDE_ZERO;
    assert(interval_views(out@) =~= seq![]);
    let mut i: usize = 0;
    while i < ivs.len()
        invariant
            all == interval_views(ivs@),
            i <= ivs@.len(),
            (interval_views(out@), prev_end) == filled(all, duration, i as int),
        decreases ivs.len() - i,
    {
        assert(all[i as int] == ivs@[i as int]@);
        let xmax: u64 = if wide_lt(duration, ivs[i].xmax) {
            duration
        } else {
            ivs[i].xmax
        };
        let xmin: u64 = if wide_lt(ivs[i].xmin, prev_end) {
            prev_end
        } else {
            ivs[i].xmin
        };
        let ghost before = interval_views(out@);
        if !wide_le(xmax, xmin) {
            if wide_lt(prev_end, xmin) {
                out.push(Interval { xmin: prev_end, xmax: xmin, text: String::new() });
                proof {
                    assert(out@.last()@ =~= blank(prev_end, xmin));
                    assert(interval_views(out@) =~= before.push(blank(prev_end, xmin)));
                }
            }
            let ghost had = interval_views(out@);
            out.push(Interval { xmin, xmax, text: String::from_str(ivs[i].text.as_str()) });
            proof {
                let iv = clamped_interval(all[i as int], prev_end, duration);
                assert(out@.last()@ =~= iv);
                assert(interval_views(out@) =~= had.push(iv));
            }
            prev_end = xmax;
        }
        i += 1;
    }
    let ghost had = interval_views(out@);
    if wide_lt(prev_end, duration) {
        out.push(Interval { xmin: prev_end, xmax: duration, text: String::new() });
        proof {
            assert(out@.last()@ =~= blank(prev_end, duration));
            assert(interval_views(out@) =~= had.push(blank(prev_end, duration)));
        }
    }
    if out.len() == 0 {
        assert(had.len() == 0);
        out.push(Interval { xmin: WIDE_ZERO, xmax: duration, text: String::new() });
        proof {
            assert(out@.last()@ =~= blank(WIDE_ZERO, duration));
            assert(interval_views(out@) =~= seq![blank(WIDE_ZERO, duration)]);
        }
    } else {
        assert(interval_views(out@).len() > 0);
    }
    IntervalTier {
        name: String::from_str(name),
        xmin: WIDE_ZERO,
        xmax: duration,
        intervals: out,
    }
}

/// The time of a frame.
pub open spec fn frame_time<F: Fn(FloatOp) -> u64>(frame: u32, shift: u64, f: F) -> u64 {
    rounded(
        wide_value(
            f,
            FloatOp::MulWide(wide_value(f, FloatOp::CountWide(frame as u64)), shift),
        ),
        f,
    )
}

/// Intervals with the last one ending with the file if it ends close to it.
pub open spec fn snapped<F: Fn(FloatOp) -> u64>(ivs: Seq<IntervalView>, duration: u64, f: F) -> Seq<
    IntervalView,
> {
    if ivs.len() > 0 && wide_less(
        wide_value(f, FloatOp::SubWide(duration, ivs.last().xmax)),
        SNAP,
    ) {
        ivs.update(ivs.len() - 1, IntervalView { xmax: duration, ..ivs.last() })
    } else {
        ivs
    }
}

/// The intervals of phones.
pub open spec fn phone_intervals<F: Fn(FloatOp) -> u64>(
    phones: Seq<PhoneInterval>,
    table: Seq<Seq<char>>,
    shift: u64,
    f: F,
) -> Seq<IntervalView> {
    Seq::new(
        phones.len(),
        |i: int|
            IntervalView {
                xmin: frame_time(phones[i].start_frame, shift, f),
                xmax: frame_time(phones[i].end_frame, shift, f),
                text: untagged(table[phones[i].phone as int]),
            },
    )
}

/// The intervals of words.
pub open spec fn word_intervals<F: Fn(FloatOp) -> u64>(
    ivs: Seq<WordInterval>,
    words: Seq<String>,
    shift: u64,
    f: F,
) -> Seq<IntervalView> {
    Seq::new(
        ivs.len(),
        |i: int|
            IntervalView {
                xmin: frame_time(ivs[i].start_frame, shift, f),
                xmax: frame_time(ivs[i].end_frame, shift, f),
                text: if ivs[i].word < words.len() {
                    words[ivs[i].word as int]@
                } else {
                    seq![]
                },
            },
    )
}

/// The TextGrid of an alignment: a tier of words and a tier of phones.
pub open spec fn grid_of_alignment<F: Fn(FloatOp) -> u64>(
    a: IntervalAlignment,
    table: Seq<Seq<char>>,
    words: Seq<String>,
    duration_s: u64,
    f: F,
) -> GridView {
    let shift = rounded(wide_value(f, FloatOp::Widen(a.frame_shift_s)), f);
    let duration = rounded(wide_max_of(duration_s, WIDE_ZERO), f);
    GridView {
        xmin: WIDE_ZERO,
        xmax: duration,
        tiers: seq![
            TierView {
                name: "words"@,
                xmin: WIDE_ZERO,
                xmax: duration,
                intervals: tier_intervals(
                    snapped(word_intervals(a.words@, words, shift, f), duration, f),
                    duration,
                ),
            },
            TierView {
                name: "phones"@,
                xmin: WIDE_ZERO,
                xmax: duration,
                intervals: tier_intervals(
                    snapped(phone_intervals(a.phones@, table, shift, f), duration, f),
                    duration,
                ),
            },
        ],
    }
}

fn time_of_frame<F: Fn(FloatOp) -> u64>(frame: u32, shift: u64, f: &F) -> (r: u64)
    requires
        is_evaluator(*f),
    ensures
        r == frame_time(frame, shift, *f),
{
    let n: u64 = eval_wide(f, FloatOp::CountWide(frame as u64));
    round6(eval_wide(f, FloatOp::MulWide(n, shift)), f)
}

fn snap_last<F: Fn(FloatOp) -> u64>(ivs: &mut Vec<Interval>, duration: u64, f: &F)
    requires
        is_evaluator(*f),
    ensures
        interval_views(final(ivs)@) == snapped(interval_views(old(ivs)@), duration, *f),
{
    let ghost before = interval_views(ivs@);
    let n: usize = ivs.len();
    if n > 0 {
        assert(before.last() == ivs@[n - 1]@);
        let gap: u64 = eval_wide(f, FloatOp::SubWide(duration, ivs[n - 1].xmax));
        if wide_lt(gap, SNAP) {
            ivs[n - 1].xmax = duration;
            assert(interval_views(ivs@) =~= snapped(before, duration, *f));
        }
    }
}

/// The TextGrid of an alignment. Phones have no positions on their labels; what is no word is blank
/// on the tier of words; both tiers run from zero to the end of the file.
pub fn from_alignment<F: Fn(FloatOp) -> u64>(
    a: &IntervalAlignment,
    phones: &SymbolTable,
    words: &Vec<String>,
    duration_s: u64,
    f: &F,
) -> (r: TextGrid)
    requires
        is_evaluator(*f),
        forall|i: int|
            0 <= i < a.phones@.len() ==> (#[trigger] a.phones@[i]).phone < phones@.len(),
    ensures
        r@ == grid_of_alignment(*a, phones@, words@, duration_s, *f),
{
    let shift: u64 = round6(eval_wide(f, FloatOp::Widen(a.frame_shift_s)), f);
    let duration: u64 = round6(wide_max(duration_s, WIDE_ZERO), f);
    let ghost want_phones = phone_intervals(a.phones@, phones@, shift, *f);
    let mut phone_ivs: Vec<Interval> = Vec::new();
    let mut i: usize = 0;
    while i < a.phones.len()
        invariant
            is_evaluator(*f),
            forall|i: int|
                0 <= i < a.phones@.len() ==> (#[trigger] a.phones@[i]).phone < phones@.len(),
            want_phones == phone_intervals(a.phones@, phones@, shift, *f),
            i <= a.phones@.len(),
            phone_ivs@.len() == i,
            forall|k: int| 0 <= k < i ==> (#[trigger] phone_ivs@[k])@ == want_phones[k],
        decreases a.phones.len() - i,
    {
        let p: PhoneInterval = a.phones[i];
        assert(a.phones@[i as int].phone < phones@.len());
        let iv = Interval {
            xmin: time_of_frame(p.start_frame, shift, f),
            xmax: time_of_frame(p.end_frame, shift, f),
            text: untag_phone(phones.sym(p.phone)),
        };
        assert(iv@ =~= want_phones[i as int]);
        phone_ivs.push(iv);
        i += 1;
    }
    assert(interval_views(phone_ivs@) =~= want_phones);
    let ghost want_words = word_intervals(a.words@, words@, shift, *f);
    let mut word_ivs: Vec<Interval> = Vec::new();
    let mut i: usize = 0;
    while i < a.words.len()
        invariant
            is_evaluator(*f),
            want_words == word_intervals(a.words@, words@, shift, *f),
            i <= a.words@.len(),
            word_ivs@.len() == i,
            forall|k: int| 0 <= k < i ==> (#[trigger] word_ivs@[k])@ == want_words[k],
        decreases a.words.len() - i,
    {
        let w: WordInterval = a.words[i];
        let text = if (w.word as usize) < words.len() {
            String::from_str(words[w.word as usize].as_str())
        } else {
            String::new()
        };
        let iv = Interval {
            xmin: time_of_frame(w.start_frame, shift, f),
            xmax: time_of_frame(w.end_frame, shift, f),
            text,
        };
        assert(iv@ =~= want_words[i as int]);
        word_ivs.push(iv);
        i += 1;
    }
    assert(interval_views(word_ivs@) =~= want_words);
    snap_last(&mut phone_ivs, duration, f);
    snap_last(&mut word_ivs, duration, f);
    let phones_tier = make_tier("phones", phone_ivs, duration);
    let words_tier = make_tier("words", word_ivs, duration);
    let mut tiers: Vec<IntervalTier> = Vec::new();
    tiers.push(words_tier);
    tiers.push(phones_tier);
    let g = TextGrid { xmin: WIDE_ZERO, xmax: duration, tiers };
    assert(g@.tiers =~= grid_of_alignment(*a, phones@, words@, duration_s, *f).tiers);
    g
}

} // verus!
