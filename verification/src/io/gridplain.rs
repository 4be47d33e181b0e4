//! Plain TextGrids are the same after they are written and read again, in either format.

use vstd::prelude::*;

use crate::float::{
    is_wide_finite_bits, wide_at_most, wide_magnitude, wide_value, FloatOp, WIDE_SIGN,
};
use crate::io::gridlaws::{
    ascii_is_no_space, decimal_is_read, escaped_nothing, escaped_step, grid_is_kept,
    interval_is_kept, is_kept, is_label, is_row, label_is_long_label, long_grid_is_kept,
    long_interval_is_kept, long_roundtrip, long_tier_is_kept, not_a_head, short_roundtrip,
    tier_is_kept,
};
use crate::io::gridtext::{grid_in, is_short, GridFault};
use crate::io::numerals::{read_in, shown, Style};
use crate::io::textgrid::{
    escaped, is_close_to, long_interval, long_intervals, long_lines, long_tier, long_tiers,
    num_text, repr_text, scientific, short_interval, short_intervals, short_lines, short_tier,
    short_tiers, signed_of, unlines, GridView, IntervalView, TierView,
};
use crate::scan::{holds, is_digit, occurs_at, starts_with, trimmed};
use crate::text::{decimal, decimal_int};

verus! {

/// Double-precision 2 to the power of 63: up to it the digits of an integer are written.
pub const LARGEST: u64 = 0x43e0_0000_0000_0000;

/// A character of a number.
pub open spec fn is_number_char(c: char) -> bool {
    is_digit(c) || c == '.' || c == '-' || c == '+' || c == 'e'
}

/// A text that can stand for a number.
pub open spec fn is_number_text(s: Seq<char>) -> bool {
    s.len() > 0 && forall|i: int| 0 <= i < s.len() ==> is_number_char(#[trigger] s[i])
}

/// An integer that is told apart from all others by its digits. The negative zero is not: it is
/// written as zero.
pub open spec fn is_whole<F: Fn(FloatOp) -> u64>(x: u64, f: F) -> bool {
    wide_value(f, FloatOp::RoundWide(x)) == x && x != WIDE_SIGN && wide_at_most(
        wide_magnitude(x),
        LARGEST,
    )
}

/// Arithmetic, printing and reading go together as they do for double precision. An integer is close
/// to itself, and its digits are read as it. The shortest digits of a number, with an exponent or
/// without, are read as the number.
pub open spec fn go_together<
    F: Fn(FloatOp) -> u64,
    P: Fn(u64, Style) -> String,
    Q: Fn(String) -> Option<u64>,
>(f: F, p: P, q: Q) -> bool {
    &&& forall|x: u64| #[trigger]
        is_whole(x, f) ==> is_close_to(x, x, f) && read_in(
            q,
            decimal_int(signed_of(wide_value(f, FloatOp::TruncSigned(x)))),
        ) == Some(x)
    &&& forall|x: u64| #[trigger]
        is_wide_finite_bits(x) ==> {
            let a = shown(p, x, Style::Plain);
            let b = scientific(shown(p, x, Style::Scientific));
            &&& is_number_text(a) && read_in(q, a) == Some(x)
            &&& is_number_text(b) && read_in(q, b) == Some(x)
        }
}

/// A number that is written exactly: finite, and an integer or not close to one.
pub open spec fn is_plain_number<F: Fn(FloatOp) -> u64>(x: u64, f: F) -> bool {
    is_wide_finite_bits(x) && (is_whole(x, f) || !is_close_to(
        x,
        wide_value(f, FloatOp::RoundWide(x)),
        f,
    ))
}

/// A label or a name without line breaks, spaces around it, or what the formats are told apart by.
pub open spec fn is_plain_label(t: Seq<char>) -> bool {
    is_label(t) && !holds(t, "item ["@) && !holds(t, "ooTextFile short"@)
}

/// A plain interval.
pub open spec fn is_plain_interval<F: Fn(FloatOp) -> u64>(iv: IntervalView, f: F) -> bool {
    is_plain_number(iv.xmin, f) && is_plain_number(iv.xmax, f) && is_plain_label(iv.text)
}

/// A plain tier.
pub open spec fn is_plain_tier<F: Fn(FloatOp) -> u64>(t: TierView, f: F) -> bool {
    &&& is_plain_number(t.xmin, f)
    &&& is_plain_number(t.xmax, f)
    &&& is_plain_label(t.name)
    &&& t.intervals.len() <= usize::MAX
    &&& forall|i: int| 0 <= i < t.intervals.len() ==> is_plain_interval(#[trigger] t.intervals[i], f)
}

/// A plain TextGrid.
pub open spec fn is_plain_grid<F: Fn(FloatOp) -> u64>(g: GridView, f: F) -> bool {
    &&& is_plain_number(g.xmin, f)
    &&& is_plain_number(g.xmax, f)
    &&& g.tiers.len() <= usize::MAX
    &&& forall|i: int| 0 <= i < g.tiers.len() ==> is_plain_tier(#[trigger] g.tiers[i], f)
}

proof fn number_text_is_row(s: Seq<char>)
    requires
        is_number_text(s),
    ensures
        is_row(s),
        trimmed(s, seq!['"']) == s,
        !s.contains('['),
        !s.contains('h'),
{
    ascii_is_no_space();
    assert(is_number_char(s[0]));
    assert(is_number_char(s.last()));
    not_a_head(s);
    let set = seq!['"'];
    assert(!set.contains(s[0]));
    assert(!set.contains(s.last()));
    if s.contains('\n') {
        let j = choose|j: int| 0 <= j < s.len() && s[j] == '\n';
        assert(is_number_char(s[j]));
    }
    if s.contains('[') {
        let j = choose|j: int| 0 <= j < s.len() && s[j] == '[';
        assert(is_number_char(s[j]));
    }
    if s.contains('h') {
        let j = choose|j: int| 0 <= j < s.len() && s[j] == 'h';
        assert(is_number_char(s[j]));
    }
}

proof fn decimal_is_number_text(n: nat)
    ensures
        is_number_text(decimal(n)),
{
    decimal_is_read(n);
    let s = decimal(n);
    assert forall|i: int| 0 <= i < s.len() implies is_number_char(#[trigger] s[i]) by {
        assert(is_digit(s[i]));
    }
}

proof fn integer_is_number_text(n: int)
    ensures
        is_number_text(decimal_int(n)),
{
    if n < 0 {
        let d = decimal((-n) as nat);
        decimal_is_number_text((-n) as nat);
        let s = decimal_int(n);
        assert forall|i: int| 0 <= i < s.len() implies is_number_char(#[trigger] s[i]) by {
            if i > 0 {
                assert(s[i] == d[i - 1]);
            }
        }
    } else {
        decimal_is_number_text(n as nat);
    }
}

proof fn plain_number_is_kept<
    F: Fn(FloatOp) -> u64,
    P: Fn(u64, Style) -> String,
    Q: Fn(String) -> Option<u64>,
>(x: u64, f: F, p: P, q: Q)
    requires
        go_together(f, p, q),
        is_plain_number(x, f),
    ensures
        is_kept(x, f, p, q),
        is_number_text(num_text(x, f, p)),
{
    let s = num_text(x, f, p);
    if is_whole(x, f) {
        integer_is_number_text(signed_of(wide_value(f, FloatOp::TruncSigned(x))));
    } else {
        assert(is_wide_finite_bits(x));
        assert(s == repr_text(x, p));
    }
    number_text_is_row(s);
}

/// A text that lacks a character of `w` does not hold `w`.
proof fn character_is_missing(s: Seq<char>, w: Seq<char>, c: char)
    requires
        w.contains(c),
        !s.contains(c),
    ensures
        !holds(s, w),
{
    let k = choose|k: int| 0 <= k < w.len() && w[k] == c;
    assert forall|i: int| !(#[trigger] occurs_at(s, w, i)) by {
        if occurs_at(s, w, i) {
            assert(s.subrange(i, i + w.len())[k] == s[i + k]);
            assert(s.contains(c));
        }
    }
}

proof fn unlines_ends(v: Seq<Seq<char>>)
    ensures
        unlines(v).len() > 0 ==> unlines(v).last() == '\n',
{
    reveal_strlit("\n");
}

/// What lines hold that were put together, and that has no line feed in it, one of them holds.
proof fn line_holds(v: Seq<Seq<char>>, w: Seq<char>)
    requires
        w.len() > 0,
        !w.contains('\n'),
        forall|i: int| 0 <= i < v.len() ==> !holds(#[trigger] v[i], w),
    ensures
        !holds(unlines(v), w),
    decreases v.len(),
{
    reveal_strlit("\n");
    let s = unlines(v);
    if v.len() > 0 {
        let front = v.drop_last();
        let a = unlines(front);
        let l = v.last();
        assert forall|i: int| 0 <= i < front.len() implies !holds(#[trigger] front[i], w) by {
            assert(front[i] == v[i]);
        }
        line_holds(front, w);
        unlines_ends(front);
        assert(s == a + l + "\n"@);
        assert(!holds(v[v.len() - 1], w));
        assert forall|j: int| !(#[trigger] occurs_at(s, w, j)) by {
            if occurs_at(s, w, j) {
                let n = w.len() as int;
                let part = s.subrange(j, j + n);
                if j + n <= a.len() {
                    assert(a.subrange(j, j + n) =~= part);
                    assert(occurs_at(a, w, j));
                } else if j < a.len() {
                    assert(part[a.len() - 1 - j] == s[a.len() - 1]);
                    assert(s[a.len() - 1] == '\n');
                    assert(w.contains('\n'));
                } else if j + n == s.len() {
                    assert(part[n - 1] == s[s.len() - 1]);
                    assert(w.contains('\n'));
                } else {
                    let i = j - a.len();
                    assert(l.subrange(i, i + n) =~= part);
                    assert(occurs_at(l, w, i));
                }
            }
        }
    } else {
        assert forall|j: int| !(#[trigger] occurs_at(s, w, j)) by {}
    }
}

/// What stands at the start of a text whose quotes are doubled stands at the start of the text.
proof fn start_is_no_quote(t: Seq<char>, w: Seq<char>)
    requires
        !w.contains('"'),
        starts_with(escaped(t), w),
    ensures
        starts_with(t, w),
    decreases w.len(),
{
    if w.len() == 0 {
        assert(t.subrange(0, 0) =~= w);
    } else {
        let e = escaped(t);
        assert(e.subrange(0, w.len() as int)[0] == e[0]);
        assert(w.contains(w[0]));
        if t.len() == 0 {
            escaped_nothing(t);
        } else {
            escaped_step(t);
            let rest = w.skip(1);
            assert(e[0] == t[0]);
            assert(e.skip(1) =~= escaped(t.skip(1)));
            assert(e.skip(1).subrange(0, rest.len() as int) =~= e.subrange(
                0,
                w.len() as int,
            ).skip(1));
            if rest.contains('"') {
                let j = choose|j: int| 0 <= j < rest.len() && rest[j] == '"';
                assert(w[j + 1] == '"');
            }
            start_is_no_quote(t.skip(1), rest);
            assert(t.skip(1).subrange(0, rest.len() as int) == rest);
            assert(t.subrange(0, w.len() as int) =~= w) by {
                assert forall|i: int| 0 <= i < w.len() implies t[i] == w[i] by {
                    if i > 0 {
                        assert(t.skip(1).subrange(0, rest.len() as int)[i - 1] == t[i]);
                        assert(rest[i - 1] == w[i]);
                    }
                }
            }
        }
    }
}

/// What a text holds whose quotes are doubled, and that has no quote in it, the text holds.
proof fn doubling_adds_nothing(t: Seq<char>, w: Seq<char>)
    requires
        w.len() > 0,
        !w.contains('"'),
        !holds(t, w),
    ensures
        !holds(escaped(t), w),
    decreases t.len(),
{
    let e = escaped(t);
    if t.len() == 0 {
        escaped_nothing(t);
    } else {
        escaped_step(t);
        let rest = t.skip(1);
        let n: int = if t[0] == '"' {
            2
        } else {
            1
        };
        assert forall|i: int| !(#[trigger] occurs_at(rest, w, i)) by {
            if occurs_at(rest, w, i) {
                assert(t.subrange(i + 1, i + 1 + w.len()) =~= rest.subrange(i, i + w.len()));
                assert(occurs_at(t, w, i + 1));
            }
        }
        doubling_adds_nothing(rest, w);
        assert forall|i: int| !(#[trigger] occurs_at(e, w, i)) by {
            if occurs_at(e, w, i) {
                if i >= n {
                    assert(escaped(rest).subrange(i - n, i - n + w.len()) =~= e.subrange(
                        i,
                        i + w.len(),
                    ));
                    assert(occurs_at(escaped(rest), w, i - n));
                } else if n == 2 {
                    assert(e.subrange(i, i + w.len())[0] == e[i]);
                    assert(e[i] == '"');
                    assert(w.contains('"'));
                } else {
                    start_is_no_quote(t, w);
                    assert(occurs_at(t, w, 0));
                }
            }
        }
    }
}

/// What a line with a label in quotes holds, and that has no quote in it, stands in the label or
/// outside of the quotes.
proof fn quoted_line_holds(pre: Seq<char>, t: Seq<char>, post: Seq<char>, w: Seq<char>)
    requires
        w.len() > 0,
        !w.contains('"'),
        pre.len() > 0,
        pre.last() == '"',
        post.len() > 0,
        post[0] == '"',
        !holds(pre, w),
        !holds(post, w),
        !holds(t, w),
    ensures
        !holds(pre + escaped(t) + post, w),
{
    let e = escaped(t);
    let s = pre + e + post;
    let a = pre.len() as int;
    let b = a + e.len();
    let n = w.len() as int;
    doubling_adds_nothing(t, w);
    assert forall|i: int| !(#[trigger] occurs_at(s, w, i)) by {
        if occurs_at(s, w, i) {
            let part = s.subrange(i, i + n);
            if i + n <= a {
                assert(pre.subrange(i, i + n) =~= part);
                assert(occurs_at(pre, w, i));
            } else if i < a {
                assert(part[a - 1 - i] == s[a - 1]);
                assert(w.contains('"'));
            } else if i + n <= b {
                assert(e.subrange(i - a, i - a + n) =~= part);
                assert(occurs_at(e, w, i - a));
            } else if i <= b {
                assert(part[b - i] == s[b]);
                assert(w.contains('"'));
            } else {
                assert(post.subrange(i - b, i - b + n) =~= part);
                assert(occurs_at(post, w, i - b));
            }
        }
    }
}

proof fn item_mark()
    ensures
        "item ["@.len() > 0,
        "item ["@.contains('['),
        !"item ["@.contains('"'),
        !"item ["@.contains('\n'),
{
    reveal_strlit("item [");
    assert("item ["@[5] == '[');
}

proof fn short_mark()
    ensures
        "ooTextFile short"@.len() > 0,
        "ooTextFile short"@.contains('h'),
        !"ooTextFile short"@.contains('"'),
        !"ooTextFile short"@.contains('\n'),
{
    reveal_strlit("ooTextFile short");
    assert("ooTextFile short"@[12] == 'h');
}

/// A label in quotes, as a row of the short format, has no item.
proof fn short_label_has_no_item(t: Seq<char>)
    requires
        is_plain_label(t),
    ensures
        !holds("\""@ + escaped(t) + "\""@, "item ["@),
{
    reveal_strlit("\"");
    item_mark();
    character_is_missing("\""@, "item ["@, '[');
    quoted_line_holds("\""@, t, "\""@, "item ["@);
}

proof fn short_words_have_no_item()
    ensures
        !holds("File type = \"ooTextFile\""@, "item ["@),
        !holds("Object class = \"TextGrid\""@, "item ["@),
        !holds(""@, "item ["@),
        !holds("<exists>"@, "item ["@),
        !holds("\"IntervalTier\""@, "item ["@),
{
    reveal_strlit("File type = \"ooTextFile\"");
    reveal_strlit("Object class = \"TextGrid\"");
    reveal_strlit("");
    reveal_strlit("<exists>");
    reveal_strlit("\"IntervalTier\"");
    item_mark();
    character_is_missing("File type = \"ooTextFile\""@, "item ["@, '[');
    character_is_missing("Object class = \"TextGrid\""@, "item ["@, '[');
    character_is_missing(""@, "item ["@, '[');
    character_is_missing("<exists>"@, "item ["@, '[');
    character_is_missing("\"IntervalTier\""@, "item ["@, '[');
}

proof fn number_has_no_item(s: Seq<char>)
    requires
        is_number_text(s),
    ensures
        !holds(s, "item ["@),
{
    item_mark();
    number_text_is_row(s);
    character_is_missing(s, "item ["@, '[');
}

/// None of the lines holds `w`.
pub open spec fn are_free_of(v: Seq<Seq<char>>, w: Seq<char>) -> bool {
    forall|i: int| 0 <= i < v.len() ==> !holds(#[trigger] v[i], w)
}

proof fn free_together(a: Seq<Seq<char>>, b: Seq<Seq<char>>, w: Seq<char>)
    requires
        are_free_of(a, w),
        are_free_of(b, w),
    ensures
        are_free_of(a + b, w),
{
    assert forall|i: int| 0 <= i < (a + b).len() implies !holds(#[trigger] (a + b)[i], w) by {
        if i < a.len() {
            assert((a + b)[i] == a[i]);
        } else {
            assert((a + b)[i] == b[i - a.len()]);
        }
    }
}

proof fn short_intervals_have_no_item<
    F: Fn(FloatOp) -> u64,
    P: Fn(u64, Style) -> String,
    Q: Fn(String) -> Option<u64>,
>(ivs: Seq<IntervalView>, n: int, f: F, p: P, q: Q)
    requires
        go_together(f, p, q),
        0 <= n <= ivs.len(),
        forall|i: int| 0 <= i < ivs.len() ==> is_plain_interval(#[trigger] ivs[i], f),
    ensures
        are_free_of(short_intervals(ivs, n, f, p), "item ["@),
    decreases n,
{
    if n > 0 {
        short_intervals_have_no_item(ivs, n - 1, f, p, q);
        let iv = ivs[n - 1];
        assert(is_plain_interval(iv, f));
        plain_number_is_kept(iv.xmin, f, p, q);
        plain_number_is_kept(iv.xmax, f, p, q);
        number_has_no_item(num_text(iv.xmin, f, p));
        number_has_no_item(num_text(iv.xmax, f, p));
        short_label_has_no_item(iv.text);
        let one = short_interval(iv, f, p);
        assert(are_free_of(one, "item ["@));
        free_together(short_intervals(ivs, n - 1, f, p), one, "item ["@);
    }
}

proof fn short_tiers_have_no_item<
    F: Fn(FloatOp) -> u64,
    P: Fn(u64, Style) -> String,
    Q: Fn(String) -> Option<u64>,
>(ts: Seq<TierView>, n: int, f: F, p: P, q: Q)
    requires
        go_together(f, p, q),
        0 <= n <= ts.len(),
        forall|i: int| 0 <= i < ts.len() ==> is_plain_tier(#[trigger] ts[i], f),
    ensures
        are_free_of(short_tiers(ts, n, f, p), "item ["@),
    decreases n,
{
    if n > 0 {
        short_tiers_have_no_item(ts, n - 1, f, p, q);
        let t = ts[n - 1];
        assert(is_plain_tier(t, f));
        let m = t.intervals.len() as int;
        plain_number_is_kept(t.xmin, f, p, q);
        plain_number_is_kept(t.xmax, f, p, q);
        number_has_no_item(num_text(t.xmin, f, p));
        number_has_no_item(num_text(t.xmax, f, p));
        decimal_is_number_text(t.intervals.len());
        number_has_no_item(decimal(t.intervals.len()));
        short_label_has_no_item(t.name);
        short_words_have_no_item();
        short_intervals_have_no_item(t.intervals, m, f, p, q);
        let head = seq![
            "\"IntervalTier\""@,
            "\""@ + escaped(t.name) + "\""@,
            num_text(t.xmin, f, p),
            num_text(t.xmax, f, p),
            decimal(t.intervals.len()),
        ];
        assert(are_free_of(head, "item ["@));
        free_together(head, short_intervals(t.intervals, m, f, p), "item ["@);
        free_together(short_tiers(ts, n - 1, f, p), short_tier(t, f, p), "item ["@);
    }
}

/// A plain TextGrid is not taken for one in the long format when it is in the short one.
proof fn short_text_is_short<
    F: Fn(FloatOp) -> u64,
    P: Fn(u64, Style) -> String,
    Q: Fn(String) -> Option<u64>,
>(g: GridView, f: F, p: P, q: Q)
    requires
        go_together(f, p, q),
        is_plain_grid(g, f),
    ensures
        is_short(unlines(short_lines(g, f, p))),
{
    let n = g.tiers.len() as int;
    plain_number_is_kept(g.xmin, f, p, q);
    plain_number_is_kept(g.xmax, f, p, q);
    number_has_no_item(num_text(g.xmin, f, p));
    number_has_no_item(num_text(g.xmax, f, p));
    decimal_is_number_text(g.tiers.len());
    number_has_no_item(decimal(g.tiers.len()));
    short_words_have_no_item();
    short_tiers_have_no_item(g.tiers, n, f, p, q);
    let head = seq![
        "File type = \"ooTextFile\""@,
        "Object class = \"TextGrid\""@,
        ""@,
        num_text(g.xmin, f, p),
        num_text(g.xmax, f, p),
        "<exists>"@,
        decimal(g.tiers.len()),
    ];
    assert(are_free_of(head, "item ["@));
    free_together(head, short_tiers(g.tiers, n, f, p), "item ["@);
    item_mark();
    line_holds(short_lines(g, f, p), "item ["@);
}

/// A line around a number says nothing of the short format.
proof fn number_line_is_free(pre: Seq<char>, s: Seq<char>, post: Seq<char>)
    requires
        is_number_text(s),
        !pre.contains('h'),
        !post.contains('h'),
    ensures
        !holds(pre + s + post, "ooTextFile short"@),
{
    short_mark();
    number_text_is_row(s);
    let line = pre + s + post;
    if line.contains('h') {
        let j = choose|j: int| 0 <= j < line.len() && line[j] == 'h';
        if j < pre.len() {
            assert(pre[j] == 'h');
        } else if j < pre.len() + s.len() {
            assert(s[j - pre.len()] == 'h');
        } else {
            assert(post[j - pre.len() - s.len()] == 'h');
        }
    }
    character_is_missing(line, "ooTextFile short"@, 'h');
}

/// A line around a label says nothing of the short format.
proof fn label_line_is_free(pre: Seq<char>, t: Seq<char>, post: Seq<char>)
    requires
        is_plain_label(t),
        pre.len() > 0,
        pre.last() == '"',
        !pre.contains('h'),
        post.len() > 0,
        post[0] == '"',
        !post.contains('h'),
    ensures
        !holds(pre + escaped(t) + post, "ooTextFile short"@),
{
    short_mark();
    character_is_missing(pre, "ooTextFile short"@, 'h');
    character_is_missing(post, "ooTextFile short"@, 'h');
    quoted_line_holds(pre, t, post, "ooTextFile short"@);
}

proof fn long_intervals_are_free<
    F: Fn(FloatOp) -> u64,
    P: Fn(u64, Style) -> String,
    Q: Fn(String) -> Option<u64>,
>(ivs: Seq<IntervalView>, n: int, f: F, p: P, q: Q)
    requires
        go_together(f, p, q),
        0 <= n <= ivs.len(),
        forall|i: int| 0 <= i < ivs.len() ==> is_plain_interval(#[trigger] ivs[i], f),
    ensures
        are_free_of(long_intervals(ivs, n, f, p), "ooTextFile short"@),
    decreases n,
{
    if n > 0 {
        long_intervals_are_free(ivs, n - 1, f, p, q);
        let iv = ivs[n - 1];
        let one = long_interval(iv, n - 1, f, p);
        assert(is_plain_interval(iv, f));
        plain_number_is_kept(iv.xmin, f, p, q);
        plain_number_is_kept(iv.xmax, f, p, q);
        decimal_is_number_text(n as nat);
        reveal_strlit("        intervals [");
        reveal_strlit("]:");
        reveal_strlit("            xmin = ");
        reveal_strlit("            xmax = ");
        reveal_strlit("            text = \"");
        reveal_strlit("\" ");
        reveal_strlit(" ");
        number_line_is_free("        intervals ["@, decimal(n as nat), "]:"@);
        number_line_is_free("            xmin = "@, num_text(iv.xmin, f, p), " "@);
        number_line_is_free("            xmax = "@, num_text(iv.xmax, f, p), " "@);
        label_line_is_free("            text = \""@, iv.text, "\" "@);
        assert(are_free_of(one, "ooTextFile short"@));
        free_together(long_intervals(ivs, n - 1, f, p), one, "ooTextFile short"@);
    }
}

/// The first lines of a tier say nothing of the short format.
proof fn tier_head_is_free<
    F: Fn(FloatOp) -> u64,
    P: Fn(u64, Style) -> String,
    Q: Fn(String) -> Option<u64>,
>(t: TierView, i: int, f: F, p: P, q: Q)
    requires
        go_together(f, p, q),
        0 <= i,
        is_plain_tier(t, f),
    ensures
        are_free_of(long_tier(t, i, f, p).take(6), "ooTextFile short"@),
{
    let head = long_tier(t, i, f, p).take(6);
    plain_number_is_kept(t.xmin, f, p, q);
    plain_number_is_kept(t.xmax, f, p, q);
    decimal_is_number_text((i + 1) as nat);
    decimal_is_number_text(t.intervals.len());
    reveal_strlit("    item [");
    reveal_strlit("]:");
    reveal_strlit("        class = \"IntervalTier\" ");
    reveal_strlit("        name = \"");
    reveal_strlit("\" ");
    reveal_strlit("        xmin = ");
    reveal_strlit("        xmax = ");
    reveal_strlit("        intervals: size = ");
    reveal_strlit(" ");
    short_mark();
    number_line_is_free("    item ["@, decimal((i + 1) as nat), "]:"@);
    character_is_missing("        class = \"IntervalTier\" "@, "ooTextFile short"@, 'h');
    label_line_is_free("        name = \""@, t.name, "\" "@);
    number_line_is_free("        xmin = "@, num_text(t.xmin, f, p), " "@);
    number_line_is_free("        xmax = "@, num_text(t.xmax, f, p), " "@);
    number_line_is_free("        intervals: size = "@, decimal(t.intervals.len()), " "@);
    assert forall|k: int| 0 <= k < head.len() implies !holds(
        #[trigger] head[k],
        "ooTextFile short"@,
    ) by {
        assert(k == 0 || k == 1 || k == 2 || k == 3 || k == 4 || k == 5);
    }
}

proof fn long_tiers_are_free<
    F: Fn(FloatOp) -> u64,
    P: Fn(u64, Style) -> String,
    Q: Fn(String) -> Option<u64>,
>(ts: Seq<TierView>, n: int, f: F, p: P, q: Q)
    requires
        go_together(f, p, q),
        0 <= n <= ts.len(),
        forall|i: int| 0 <= i < ts.len() ==> is_plain_tier(#[trigger] ts[i], f),
    ensures
        are_free_of(long_tiers(ts, n, f, p), "ooTextFile short"@),
    decreases n,
{
    if n > 0 {
        long_tiers_are_free(ts, n - 1, f, p, q);
        let t = ts[n - 1];
        assert(is_plain_tier(t, f));
        let m = t.intervals.len() as int;
        let one = long_tier(t, n - 1, f, p);
        tier_head_is_free(t, n - 1, f, p, q);
        long_intervals_are_free(t.intervals, m, f, p, q);
        free_together(one.take(6), long_intervals(t.intervals, m, f, p), "ooTextFile short"@);
        assert(one =~= one.take(6) + long_intervals(t.intervals, m, f, p));
        free_together(long_tiers(ts, n - 1, f, p), one, "ooTextFile short"@);
    }
}

/// A plain TextGrid in the long format says nothing of the short one.
proof fn long_text_is_long<
    F: Fn(FloatOp) -> u64,
    P: Fn(u64, Style) -> String,
    Q: Fn(String) -> Option<u64>,
>(g: GridView, f: F, p: P, q: Q)
    requires
        go_together(f, p, q),
        is_plain_grid(g, f),
    ensures
        !holds(unlines(long_lines(g, f, p)), "ooTextFile short"@),
{
    let n = g.tiers.len() as int;
    let w = "ooTextFile short"@;
    let v = long_lines(g, f, p);
    let head = v.take(8);
    plain_number_is_kept(g.xmin, f, p, q);
    plain_number_is_kept(g.xmax, f, p, q);
    decimal_is_number_text(g.tiers.len());
    reveal_strlit("File type = \"ooTextFile\"");
    reveal_strlit("Object class = \"TextGrid\"");
    reveal_strlit("");
    reveal_strlit("xmin = ");
    reveal_strlit("xmax = ");
    reveal_strlit("tiers? <exists> ");
    reveal_strlit("size = ");
    reveal_strlit("item []: ");
    reveal_strlit(" ");
    short_mark();
    character_is_missing("File type = \"ooTextFile\""@, w, 'h');
    character_is_missing("Object class = \"TextGrid\""@, w, 'h');
    character_is_missing(""@, w, 'h');
    number_line_is_free("xmin = "@, num_text(g.xmin, f, p), " "@);
    number_line_is_free("xmax = "@, num_text(g.xmax, f, p), " "@);
    character_is_missing("tiers? <exists> "@, w, 'h');
    number_line_is_free("size = "@, decimal(g.tiers.len()), " "@);
    character_is_missing("item []: "@, w, 'h');
    assert forall|k: int| 0 <= k < head.len() implies !holds(#[trigger] head[k], w) by {
        assert(k == 0 || k == 1 || k == 2 || k == 3 || k == 4 || k == 5 || k == 6 || k == 7);
    }
    long_tiers_are_free(g.tiers, n, f, p, q);
    free_together(head, long_tiers(g.tiers, n, f, p), w);
    assert(v =~= head + long_tiers(g.tiers, n, f, p));
    line_holds(v, w);
}

proof fn plain_grid_is_kept<
    F: Fn(FloatOp) -> u64,
    P: Fn(u64, Style) -> String,
    Q: Fn(String) -> Option<u64>,
>(g: GridView, f: F, p: P, q: Q)
    requires
        go_together(f, p, q),
        is_plain_grid(g, f),
    ensures
        grid_is_kept(g, f, p, q),
        long_grid_is_kept(g, f, p, q),
{
    plain_number_is_kept(g.xmin, f, p, q);
    plain_number_is_kept(g.xmax, f, p, q);
    assert forall|i: int| 0 <= i < g.tiers.len() implies tier_is_kept(#[trigger] g.tiers[i], f, p, q)
        && long_tier_is_kept(g.tiers[i], f, p, q) by {
        let t = g.tiers[i];
        assert(is_plain_tier(t, f));
        plain_number_is_kept(t.xmin, f, p, q);
        plain_number_is_kept(t.xmax, f, p, q);
        assert forall|k: int| 0 <= k < t.intervals.len() implies interval_is_kept(
            #[trigger] t.intervals[k],
            f,
            p,
            q,
        ) && long_interval_is_kept(t.intervals[k], f, p, q) by {
            let iv = t.intervals[k];
            assert(is_plain_interval(iv, f));
            plain_number_is_kept(iv.xmin, f, p, q);
            plain_number_is_kept(iv.xmax, f, p, q);
            label_is_long_label(iv.text);
        }
    }
}

/// A plain TextGrid is the same after it is written and read again, in the long format and in the
/// short one. Its numbers are finite, and integers up to 2 to the power of 63 or not within the
/// precision of one; its names and labels are on one line, without spaces around them and without
/// what the formats are told apart by; they may have quotes in them.
pub proof fn plain_roundtrip<
    F: Fn(FloatOp) -> u64,
    P: Fn(u64, Style) -> String,
    Q: Fn(String) -> Option<u64>,
>(g: GridView, f: F, p: P, q: Q)
    requires
        go_together(f, p, q),
        is_plain_grid(g, f),
    ensures
        grid_in(unlines(long_lines(g, f, p)), q) == Ok::<GridView, GridFault>(g),
        grid_in(unlines(short_lines(g, f, p)), q) == Ok::<GridView, GridFault>(g),
{
    plain_grid_is_kept(g, f, p, q);
    long_text_is_long(g, f, p, q);
    long_roundtrip(g, f, p, q);
    short_text_is_short(g, f, p, q);
    short_roundtrip(g, f, p, q);
}

} // verus!
