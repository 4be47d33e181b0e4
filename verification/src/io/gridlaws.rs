//! A TextGrid that is written and read again is the same.

use vstd::prelude::*;

use crate::float::FloatOp;
use crate::io::gridtext::{
    closing_quote, field_from, grid_in, grid_number, intervals_from, is_short, label_from, next_tier,
    one_interval, opens_interval, opens_tier, plain_text, row_intervals, row_tiers, short_rows,
    text_field, tier_in, tiers_from, unquoted, value_in, GridFault,
};
use crate::io::numerals::{read_in, Style};
use crate::io::textgrid::{
    escaped, long_interval, long_intervals, long_lines, long_tier, long_tiers, num_text,
    short_interval, short_intervals, short_lines, short_tier, short_tiers, unlines, GridView,
    IntervalView, TierView,
};
use crate::scan::{
    all_digits, digits_value, holds, is_digit, lines_of, number_in, occurs_at, replaced, run,
    run_fits, starts_with, trimmed, trimmed_end, trimmed_start, unsigned_digits, SPACES,
};
use crate::text::{decimal, digit};

verus! {

/// Visible ASCII characters are no spaces, and the blank is one.
pub(crate) proof fn ascii_is_no_space()
    ensures
        SPACES@.contains(' '),
        SPACES@.contains('\r'),
        SPACES@.contains('\n'),
        forall|c: char| '!' <= c && c <= '~' ==> !(#[trigger] SPACES@.contains(c)),
{
    reveal_strlit(
        "\t\n\u{b}\u{c}\r \u{85}\u{a0}\u{1680}\u{2000}\u{2001}\u{2002}\u{2003}\u{2004}\u{2005}\u{2006}\u{2007}\u{2008}\u{2009}\u{200a}\u{2028}\u{2029}\u{202f}\u{205f}\u{3000}",
    );
    assert(SPACES@[5] == ' ');
    assert(SPACES@[4] == '\r');
    assert(SPACES@[1] == '\n');
}

/// A text that has no space at either end.
pub open spec fn is_trimmed(s: Seq<char>) -> bool {
    s.len() > 0 ==> !SPACES@.contains(s[0]) && !SPACES@.contains(s.last())
}

proof fn trimmed_stays(s: Seq<char>)
    requires
        is_trimmed(s),
    ensures
        trimmed(s, SPACES@) == s,
        trimmed_start(s, SPACES@) == s,
{
}

/// Doubling the quotes of a text goes character by character.
pub(crate) proof fn escaped_step(t: Seq<char>)
    requires
        t.len() > 0,
    ensures
        escaped(t) == (if t[0] == '"' {
            seq!['"', '"']
        } else {
            seq![t[0]]
        }) + escaped(t.skip(1)),
{
    reveal_strlit("\"");
    reveal_strlit("\"\"");
    assert("\""@ =~= seq!['"']);
    assert("\"\""@ =~= seq!['"', '"']);
    assert(t.subrange(0, 1) =~= seq![t[0]]);
    if t[0] == '"' {
        assert(starts_with(t, "\""@));
    } else {
        if starts_with(t, "\""@) {
            assert(t.subrange(0, 1)[0] == '"');
        }
    }
}

pub(crate) proof fn escaped_nothing(t: Seq<char>)
    requires
        t.len() == 0,
    ensures
        escaped(t) == t,
{
}

/// Undoing doubled quotes gives back the text whose quotes were doubled.
pub proof fn unescape_undoes_escape(t: Seq<char>)
    ensures
        replaced(escaped(t), "\"\""@, "\""@) == t,
    decreases t.len(),
{
    reveal_strlit("\"");
    reveal_strlit("\"\"");
    assert("\""@ =~= seq!['"']);
    assert("\"\""@ =~= seq!['"', '"']);
    let e = escaped(t);
    if t.len() > 0 {
        let rest = t.skip(1);
        escaped_step(t);
        unescape_undoes_escape(rest);
        if t[0] == '"' {
            assert(e.subrange(0, 2) =~= "\"\""@);
            assert(starts_with(e, "\"\""@));
            assert(e.skip(2) =~= escaped(rest));
            assert("\""@ + rest =~= t);
        } else {
            assert(e[0] == t[0]);
            if starts_with(e, "\"\""@) {
                assert(e.subrange(0, 2)[0] == '"');
            }
            assert(e.skip(1) =~= escaped(rest));
            assert(seq![t[0]] + rest =~= t);
        }
    } else {
        escaped_nothing(t);
        assert(replaced(e, "\"\""@, "\""@) =~= t);
    }
}

/// The quote after a text whose quotes are doubled is the first that is not doubled.
proof fn closing_is_found(s: Seq<char>, i: int, t: Seq<char>)
    requires
        0 <= i <= s.len(),
        s.skip(i) == escaped(t).push('"'),
    ensures
        closing_quote(s, i) == Some(s.len() - 1),
    decreases t.len(),
{
    let e = escaped(t);
    assert(s.skip(i).len() == s.len() - i);
    if t.len() == 0 {
        escaped_nothing(t);
        assert(s.skip(i)[0] == '"');
        assert(s[i] == '"');
    } else {
        escaped_step(t);
        let rest = t.skip(1);
        assert(s[i] == s.skip(i)[0]);
        assert(e[0] == t[0]);
        if t[0] == '"' {
            assert(s[i + 1] == s.skip(i)[1]);
            assert(e[1] == '"');
            assert(s.skip(i + 2) =~= s.skip(i).skip(2));
            assert(e.push('"').skip(2) =~= escaped(rest).push('"'));
            closing_is_found(s, i + 2, rest);
        } else {
            assert(s.skip(i + 1) =~= s.skip(i).skip(1));
            assert(e.push('"').skip(1) =~= escaped(rest).push('"'));
            closing_is_found(s, i + 1, rest);
        }
    }
}

/// Doubling quotes brings in no other character.
proof fn escaped_keeps_out(t: Seq<char>, c: char)
    requires
        c != '"',
        !t.contains(c),
    ensures
        !escaped(t).contains(c),
    decreases t.len(),
{
    if t.len() > 0 {
        escaped_step(t);
        let rest = t.skip(1);
        if rest.contains(c) {
            let j = choose|j: int| 0 <= j < rest.len() && rest[j] == c;
            assert(t[j + 1] == c);
        }
        escaped_keeps_out(rest, c);
        let e = escaped(t);
        let n: int = if t[0] == '"' {
            2
        } else {
            1
        };
        if e.contains(c) {
            let j = choose|j: int| 0 <= j < e.len() && e[j] == c;
            if j >= n {
                assert(escaped(rest)[j - n] == c);
            } else {
                assert(t[0] == c || e[j] == '"');
            }
        }
    } else {
        escaped_nothing(t);
    }
}

/// A text in quotes, its own quotes doubled.
pub open spec fn in_quotes(t: Seq<char>) -> Seq<char> {
    "\""@ + escaped(t) + "\""@
}

proof fn quotes_are_ends(t: Seq<char>)
    ensures
        in_quotes(t).len() >= 2,
        in_quotes(t)[0] == '"',
        in_quotes(t).last() == '"',
        is_trimmed(in_quotes(t)),
        !t.contains('\n') ==> !in_quotes(t).contains('\n'),
        is_trimmed(t) ==> unquoted(in_quotes(t)) == t,
{
    reveal_strlit("\"");
    ascii_is_no_space();
    let q = in_quotes(t);
    trimmed_stays(q);
    assert(q.subrange(1, q.len() - 1) =~= escaped(t));
    unescape_undoes_escape(t);
    if is_trimmed(t) {
        trimmed_stays(t);
    }
    if !t.contains('\n') {
        escaped_keeps_out(t, '\n');
        if q.contains('\n') {
            let j = choose|j: int| 0 <= j < q.len() && q[j] == '\n';
            assert(escaped(t)[j - 1] == '\n');
        }
    }
}

proof fn digit_is_digit(d: int)
    requires
        0 <= d < 10,
    ensures
        is_digit(digit(d)),
        digit(d) as int - '0' as int == d,
{
    assert((48 + d) as u8 as int == 48 + d);
}

/// A number in decimal is all digits, and they stand for the number.
pub proof fn decimal_is_read(n: nat)
    ensures
        decimal(n).len() > 0,
        all_digits(decimal(n)),
        digits_value(decimal(n)) == n,
    decreases n,
{
    let s = decimal(n);
    if n < 10 {
        digit_is_digit(n as int);
        assert(s.drop_last() =~= seq![]);
        assert(digits_value(s.drop_last()) == 0);
    } else {
        decimal_is_read(n / 10);
        digit_is_digit((n % 10) as int);
        assert(s.drop_last() =~= decimal(n / 10));
        assert forall|i: int| 0 <= i < s.len() implies is_digit(#[trigger] s[i]) by {
            if i < s.len() - 1 {
                assert(s[i] == decimal(n / 10)[i]);
            }
        }
    }
}

proof fn decimal_is_row(n: nat)
    requires
        n <= usize::MAX,
    ensures
        number_in(decimal(n), usize::MAX as int) == Some(n as int),
        is_row(decimal(n)),
{
    decimal_is_read(n);
    ascii_is_no_space();
    let s = decimal(n);
    assert(is_digit(s[0]));
    assert(is_digit(s.last()));
    assert(s[0] != '+');
    assert(unsigned_digits(s) == s);
    if s.contains('\n') {
        let j = choose|j: int| 0 <= j < s.len() && s[j] == '\n';
        assert(is_digit(s[j]));
    }
    not_a_head(s);
}

/// A line that is a row of the short format: not blank, without a line feed or spaces around it, and
/// no head.
pub open spec fn is_row(s: Seq<char>) -> bool {
    &&& s.len() > 0
    &&& is_trimmed(s)
    &&& !s.contains('\n')
    &&& !starts_with(s, "File type"@)
    &&& !starts_with(s, "Object class"@)
}

pub(crate) proof fn not_a_head(s: Seq<char>)
    requires
        s.len() > 0,
        s[0] != 'F',
        s[0] != 'O',
    ensures
        !starts_with(s, "File type"@),
        !starts_with(s, "Object class"@),
{
    reveal_strlit("File type");
    reveal_strlit("Object class");
    if starts_with(s, "File type"@) {
        assert(s.subrange(0, 9)[0] == 'F');
    }
    if starts_with(s, "Object class"@) {
        assert(s.subrange(0, 12)[0] == 'O');
    }
}

/// A label or a name that the formats hold: on one line, without spaces around it.
pub open spec fn is_label(t: Seq<char>) -> bool {
    is_trimmed(t) && !t.contains('\n')
}

/// A number that is read as it is written: its text is a row, and the reader knows it.
pub open spec fn is_kept<F: Fn(FloatOp) -> u64, P: Fn(u64, Style) -> String, Q: Fn(String) -> Option<u64>>(
    x: u64,
    f: F,
    p: P,
    q: Q,
) -> bool {
    let s = num_text(x, f, p);
    is_row(s) && read_in(q, trimmed(s, seq!['"'])) == Some(x)
}

proof fn kept_is_read<F: Fn(FloatOp) -> u64, P: Fn(u64, Style) -> String, Q: Fn(String) -> Option<u64>>(
    x: u64,
    f: F,
    p: P,
    q: Q,
)
    requires
        is_kept(x, f, p, q),
    ensures
        grid_number(num_text(x, f, p), q) == Ok::<u64, GridFault>(x),
{
    trimmed_stays(num_text(x, f, p));
}

/// An interval with kept numbers and a label.
pub open spec fn interval_is_kept<
    F: Fn(FloatOp) -> u64,
    P: Fn(u64, Style) -> String,
    Q: Fn(String) -> Option<u64>,
>(iv: IntervalView, f: F, p: P, q: Q) -> bool {
    is_kept(iv.xmin, f, p, q) && is_kept(iv.xmax, f, p, q) && is_label(iv.text)
}

/// A tier with kept numbers, a name and such intervals.
pub open spec fn tier_is_kept<
    F: Fn(FloatOp) -> u64,
    P: Fn(u64, Style) -> String,
    Q: Fn(String) -> Option<u64>,
>(t: TierView, f: F, p: P, q: Q) -> bool {
    &&& is_kept(t.xmin, f, p, q)
    &&& is_kept(t.xmax, f, p, q)
    &&& is_label(t.name)
    &&& t.intervals.len() <= usize::MAX
    &&& forall|i: int|
        0 <= i < t.intervals.len() ==> interval_is_kept(#[trigger] t.intervals[i], f, p, q)
}

/// A TextGrid with kept numbers and such tiers.
pub open spec fn grid_is_kept<
    F: Fn(FloatOp) -> u64,
    P: Fn(u64, Style) -> String,
    Q: Fn(String) -> Option<u64>,
>(g: GridView, f: F, p: P, q: Q) -> bool {
    &&& is_kept(g.xmin, f, p, q)
    &&& is_kept(g.xmax, f, p, q)
    &&& g.tiers.len() <= usize::MAX
    &&& forall|i: int| 0 <= i < g.tiers.len() ==> tier_is_kept(#[trigger] g.tiers[i], f, p, q)
}

/// A line without a line feed in it or a carriage return at its end.
pub open spec fn is_line(s: Seq<char>) -> bool {
    !s.contains('\n') && (s.len() > 0 ==> s.last() != '\r')
}

proof fn row_is_line(s: Seq<char>)
    requires
        is_row(s),
    ensures
        is_line(s),
{
    ascii_is_no_space();
}

proof fn unlines_front(v: Seq<Seq<char>>)
    requires
        v.len() > 0,
    ensures
        unlines(v) == v[0] + "\n"@ + unlines(v.skip(1)),
    decreases v.len(),
{
    reveal_strlit("\n");
    if v.len() == 1 {
        assert(v.drop_last() =~= seq![]);
        assert(v.skip(1) =~= seq![]);
        assert(unlines(v.drop_last()) =~= seq![]);
        assert(unlines(v.skip(1)) =~= seq![]);
        assert(unlines(v) =~= v[0] + "\n"@ + unlines(v.skip(1)));
    } else {
        unlines_front(v.drop_last());
        assert(v.drop_last()[0] == v[0]);
        assert(v.skip(1).drop_last() =~= v.drop_last().skip(1));
        assert(v.skip(1).last() == v.last());
        assert(unlines(v) =~= v[0] + "\n"@ + unlines(v.skip(1)));
    }
}

proof fn run_to_end(a: Seq<char>, rest: Seq<char>)
    requires
        !a.contains('\n'),
    ensures
        run(a + seq!['\n'] + rest, seq!['\n']) == a.len(),
{
    let s = a + seq!['\n'] + rest;
    let set = seq!['\n'];
    run_fits(s, set);
    let k = run(s, set) as int;
    assert(set.contains('\n')) by {
        assert(set[0] == '\n');
    }
    assert(s[a.len() as int] == '\n');
    if k < a.len() {
        assert(set.contains(s[k]));
        assert(s[k] == a[k]);
        assert(a.contains('\n'));
    }
    if k > a.len() {
        assert(!set.contains(s[a.len() as int]));
    }
}

/// The lines of lines that were put together are those lines.
pub proof fn lines_are_kept(v: Seq<Seq<char>>)
    requires
        forall|i: int| 0 <= i < v.len() ==> is_line(#[trigger] v[i]),
    ensures
        lines_of(unlines(v)) == v,
    decreases v.len(),
{
    reveal_strlit("\n");
    if v.len() == 0 {
        assert(lines_of(unlines(v)) =~= v);
    } else {
        unlines_front(v);
        let s = unlines(v);
        let rest = unlines(v.skip(1));
        assert("\n"@ =~= seq!['\n']);
        run_to_end(v[0], rest);
        assert(s == v[0] + seq!['\n'] + rest);
        let k = v[0].len() as int;
        assert(s.take(k) =~= v[0]);
        assert(s.skip(k + 1) =~= rest);
        assert(is_line(v[0]));
        assert forall|i: int| 0 <= i < v.skip(1).len() implies is_line(#[trigger] v.skip(1)[i]) by {
            assert(v.skip(1)[i] == v[i + 1]);
        }
        lines_are_kept(v.skip(1));
        assert(seq![v[0]] + v.skip(1) =~= v);
    }
}

proof fn no_returns(v: Seq<Seq<char>>)
    requires
        forall|i: int| 0 <= i < v.len() ==> is_line(#[trigger] v[i]),
    ensures
        unlines(v).len() > 0 ==> unlines(v).last() == '\n',
        forall|i: int|
            0 < i < unlines(v).len() && #[trigger] unlines(v)[i] == '\n' ==> unlines(v)[i - 1]
                != '\r',
    decreases v.len(),
{
    reveal_strlit("\n");
    if v.len() > 0 {
        let a = unlines(v.drop_last());
        let l = v.last();
        assert(is_line(l));
        assert forall|i: int| 0 <= i < v.drop_last().len() implies is_line(
            #[trigger] v.drop_last()[i],
        ) by {
            assert(v.drop_last()[i] == v[i]);
        }
        no_returns(v.drop_last());
        let s = unlines(v);
        assert(s == a + l + "\n"@);
        assert forall|i: int| 0 < i < s.len() && #[trigger] s[i] == '\n' implies s[i - 1]
            != '\r' by {
            if i < a.len() {
                assert(a[i] == s[i]);
                assert(a[i - 1] == s[i - 1]);
            } else if i < a.len() + l.len() {
                assert(l[i - a.len()] == s[i]);
                assert(l.contains('\n'));
            } else if l.len() > 0 {
                assert(s[i - 1] == l.last());
            } else {
                assert(s[i - 1] == a.last());
            }
        }
    }
}

proof fn nothing_to_replace(s: Seq<char>, from: Seq<char>, to: Seq<char>)
    requires
        forall|i: int| !(#[trigger] occurs_at(s, from, i)),
    ensures
        replaced(s, from, to) == s,
    decreases s.len(),
{
    if s.len() > 0 && from.len() > 0 {
        let rest = s.skip(1);
        assert forall|i: int| !(#[trigger] occurs_at(rest, from, i)) by {
            if occurs_at(rest, from, i) {
                assert(s.subrange(i + 1, i + 1 + from.len()) =~= rest.subrange(i, i + from.len()));
                assert(occurs_at(s, from, i + 1));
            }
        }
        nothing_to_replace(rest, from, to);
        assert(!occurs_at(s, from, 0));
        assert(seq![s[0]] + rest =~= s);
    }
}

/// Lines that were put together are plain text, unless they start with a mark.
proof fn unlines_is_plain(v: Seq<Seq<char>>)
    requires
        forall|i: int| 0 <= i < v.len() ==> is_line(#[trigger] v[i]),
        unlines(v).len() > 0 ==> unlines(v)[0] != '\u{feff}',
    ensures
        plain_text(unlines(v)) == unlines(v),
{
    reveal_strlit("\r\n");
    let s = unlines(v);
    no_returns(v);
    assert forall|i: int| !(#[trigger] occurs_at(s, "\r\n"@, i)) by {
        if occurs_at(s, "\r\n"@, i) {
            assert(s.subrange(i, i + 2)[0] == s[i]);
            assert(s.subrange(i, i + 2)[1] == s[i + 1]);
        }
    }
    nothing_to_replace(s, "\r\n"@, "\n"@);
}

proof fn short_interval_place<F: Fn(FloatOp) -> u64, P: Fn(u64, Style) -> String>(
    ivs: Seq<IntervalView>,
    n: int,
    f: F,
    p: P,
)
    requires
        0 <= n <= ivs.len(),
    ensures
        short_intervals(ivs, n, f, p).len() == 3 * n,
        forall|k: int|
            0 <= k < n ==> short_intervals(ivs, n, f, p).subrange(3 * k, 3 * k + 3)
                == short_interval(#[trigger] ivs[k], f, p),
    decreases n,
{
    if n > 0 {
        short_interval_place(ivs, n - 1, f, p);
        let all = short_intervals(ivs, n, f, p);
        let before = short_intervals(ivs, n - 1, f, p);
        assert forall|k: int| 0 <= k < n implies all.subrange(3 * k, 3 * k + 3) == short_interval(
            #[trigger] ivs[k],
            f,
            p,
        ) by {
            if k < n - 1 {
                assert(all.subrange(3 * k, 3 * k + 3) =~= before.subrange(3 * k, 3 * k + 3));
            } else {
                assert(all.subrange(3 * k, 3 * k + 3) =~= short_interval(ivs[k], f, p));
            }
        }
    }
}

proof fn intervals_are_read<
    F: Fn(FloatOp) -> u64,
    P: Fn(u64, Style) -> String,
    Q: Fn(String) -> Option<u64>,
>(rows: Seq<Seq<char>>, at: int, ivs: Seq<IntervalView>, k: int, f: F, p: P, q: Q)
    requires
        0 <= k <= ivs.len(),
        0 <= at,
        at + 3 * ivs.len() <= rows.len(),
        rows.subrange(at, at + 3 * ivs.len()) == short_intervals(ivs, ivs.len() as int, f, p),
        forall|i: int| 0 <= i < ivs.len() ==> interval_is_kept(#[trigger] ivs[i], f, p, q),
    ensures
        row_intervals(rows, at + 3 * k, ivs.len() - k, q) == Ok::<Seq<IntervalView>, GridFault>(
            ivs.skip(k),
        ),
    decreases ivs.len() - k,
{
    let n = ivs.len() as int;
    if k == n {
        assert(ivs.skip(k) =~= seq![]);
    } else {
        intervals_are_read(rows, at, ivs, k + 1, f, p, q);
        short_interval_place(ivs, n, f, p);
        let all = short_intervals(ivs, n, f, p);
        let one = short_interval(ivs[k], f, p);
        let i = at + 3 * k;
        assert(all.subrange(3 * k, 3 * k + 3) == one);
        let part = rows.subrange(at, at + 3 * n);
        assert(one[0] == part[3 * k] && part[3 * k] == rows[i]);
        assert(one[1] == part[3 * k + 1] && part[3 * k + 1] == rows[i + 1]);
        assert(one[2] == part[3 * k + 2] && part[3 * k + 2] == rows[i + 2]);
        assert(interval_is_kept(ivs[k], f, p, q));
        kept_is_read(ivs[k].xmin, f, p, q);
        kept_is_read(ivs[k].xmax, f, p, q);
        assert(one[2] == in_quotes(ivs[k].text));
        quotes_are_ends(ivs[k].text);
        assert(at + 3 * (k + 1) == i + 3);
        assert(seq![ivs[k]] + ivs.skip(k + 1) =~= ivs.skip(k));
    }
}

proof fn short_tier_place<F: Fn(FloatOp) -> u64, P: Fn(u64, Style) -> String>(
    ts: Seq<TierView>,
    n: int,
    k: int,
    f: F,
    p: P,
)
    requires
        0 <= k < n <= ts.len(),
    ensures
        short_tiers(ts, k + 1, f, p).len() == short_tiers(ts, k, f, p).len() + short_tier(
            ts[k],
            f,
            p,
        ).len(),
        short_tiers(ts, k + 1, f, p).len() <= short_tiers(ts, n, f, p).len(),
        short_tiers(ts, n, f, p).subrange(
            short_tiers(ts, k, f, p).len() as int,
            short_tiers(ts, k + 1, f, p).len() as int,
        ) == short_tier(ts[k], f, p),
    decreases n,
{
    let all = short_tiers(ts, n, f, p);
    let before = short_tiers(ts, n - 1, f, p);
    let a = short_tiers(ts, k, f, p).len() as int;
    let b = short_tiers(ts, k + 1, f, p).len() as int;
    if k < n - 1 {
        short_tier_place(ts, n - 1, k, f, p);
        assert(all.subrange(a, b) =~= before.subrange(a, b));
    } else {
        assert(all.subrange(a, b) =~= short_tier(ts[k], f, p));
    }
}

proof fn tiers_are_read<
    F: Fn(FloatOp) -> u64,
    P: Fn(u64, Style) -> String,
    Q: Fn(String) -> Option<u64>,
>(rows: Seq<Seq<char>>, at: int, ts: Seq<TierView>, k: int, f: F, p: P, q: Q)
    requires
        0 <= k <= ts.len(),
        0 <= at,
        rows.skip(at) == short_tiers(ts, ts.len() as int, f, p),
        at <= rows.len(),
        forall|i: int| 0 <= i < ts.len() ==> tier_is_kept(#[trigger] ts[i], f, p, q),
    ensures
        row_tiers(rows, at + short_tiers(ts, k, f, p).len(), ts.len() - k, q) == Ok::<
            Seq<TierView>,
            GridFault,
        >(ts.skip(k)),
    decreases ts.len() - k,
{
    let n = ts.len() as int;
    let i = at + short_tiers(ts, k, f, p).len();
    if k == n {
        assert(ts.skip(k) =~= seq![]);
    } else {
        tiers_are_read(rows, at, ts, k + 1, f, p, q);
        short_tier_place(ts, n, k, f, p);
        let t = ts[k];
        let m = t.intervals.len() as int;
        let one = short_tier(t, f, p);
        let all = short_tiers(ts, n, f, p);
        assert(tier_is_kept(t, f, p, q));
        short_interval_place(t.intervals, m, f, p);
        assert(one.len() == 5 + 3 * m);
        let a = short_tiers(ts, k, f, p).len() as int;
        assert(rows.subrange(i, i + one.len()) =~= one) by {
            assert(rows.subrange(i, i + one.len()) =~= rows.skip(at).subrange(a, a + one.len()));
        }
        let part = rows.subrange(i, i + one.len());
        assert(part[0] == rows[i]);
        assert(part[1] == rows[i + 1]);
        assert(part[2] == rows[i + 2]);
        assert(part[3] == rows[i + 3]);
        assert(part[4] == rows[i + 4]);
        assert(one[1] == in_quotes(t.name));
        quotes_are_ends(t.name);
        kept_is_read(t.xmin, f, p, q);
        kept_is_read(t.xmax, f, p, q);
        decimal_is_row(t.intervals.len());
        class_is_read();
        assert(rows.subrange(i + 5, i + 5 + 3 * m) =~= short_intervals(t.intervals, m, f, p)) by {
            assert(rows.subrange(i + 5, i + 5 + 3 * m) =~= part.subrange(5, 5 + 3 * m));
            assert(one.subrange(5, 5 + 3 * m) =~= short_intervals(t.intervals, m, f, p));
        }
        intervals_are_read(rows, i + 5, t.intervals, 0, f, p, q);
        assert(t.intervals.skip(0) =~= t.intervals);
        assert(i + 5 + m * 3 == at + short_tiers(ts, k + 1, f, p).len());
        assert(seq![t] + ts.skip(k + 1) =~= ts.skip(k));
    }
}

proof fn class_is_read()
    ensures
        unquoted("\"IntervalTier\""@) == "IntervalTier"@,
        is_row("\"IntervalTier\""@),
{
    reveal_strlit("\"IntervalTier\"");
    reveal_strlit("IntervalTier");
    reveal_strlit("\"");
    let t = "IntervalTier"@;
    ascii_is_no_space();
    assert(!t.contains('"'));
    plain_is_escaped(t);
    assert(in_quotes(t) =~= "\"IntervalTier\""@);
    quotes_are_ends(t);
    not_a_head(in_quotes(t));
}

proof fn plain_is_escaped(t: Seq<char>)
    requires
        !t.contains('"'),
    ensures
        escaped(t) == t,
    decreases t.len(),
{
    if t.len() > 0 {
        escaped_step(t);
        assert(t[0] != '"') by {
            if t[0] == '"' {
                assert(t.contains('"'));
            }
        }
        let rest = t.skip(1);
        if rest.contains('"') {
            let j = choose|j: int| 0 <= j < rest.len() && rest[j] == '"';
            assert(t[j + 1] == '"');
        }
        plain_is_escaped(rest);
        assert(seq![t[0]] + rest =~= t);
    } else {
        escaped_nothing(t);
    }
}

proof fn short_intervals_are_rows<
    F: Fn(FloatOp) -> u64,
    P: Fn(u64, Style) -> String,
    Q: Fn(String) -> Option<u64>,
>(ivs: Seq<IntervalView>, n: int, f: F, p: P, q: Q)
    requires
        0 <= n <= ivs.len(),
        forall|i: int| 0 <= i < ivs.len() ==> interval_is_kept(#[trigger] ivs[i], f, p, q),
    ensures
        forall|i: int|
            0 <= i < short_intervals(ivs, n, f, p).len() ==> is_row(
                #[trigger] short_intervals(ivs, n, f, p)[i],
            ),
    decreases n,
{
    if n > 0 {
        short_intervals_are_rows(ivs, n - 1, f, p, q);
        let iv = ivs[n - 1];
        assert(interval_is_kept(iv, f, p, q));
        quotes_are_ends(iv.text);
        not_a_head(in_quotes(iv.text));
        let one = short_interval(iv, f, p);
        assert(one[2] == in_quotes(iv.text));
        assert(is_row(one[0]) && is_row(one[1]) && is_row(one[2]));
        let before = short_intervals(ivs, n - 1, f, p);
        let all = short_intervals(ivs, n, f, p);
        assert forall|i: int| 0 <= i < all.len() implies is_row(#[trigger] all[i]) by {
            if i < before.len() {
                assert(all[i] == before[i]);
            } else {
                assert(all[i] == one[i - before.len()]);
            }
        }
    }
}

proof fn short_tiers_are_rows<
    F: Fn(FloatOp) -> u64,
    P: Fn(u64, Style) -> String,
    Q: Fn(String) -> Option<u64>,
>(ts: Seq<TierView>, n: int, f: F, p: P, q: Q)
    requires
        0 <= n <= ts.len(),
        forall|i: int| 0 <= i < ts.len() ==> tier_is_kept(#[trigger] ts[i], f, p, q),
    ensures
        forall|i: int|
            0 <= i < short_tiers(ts, n, f, p).len() ==> is_row(
                #[trigger] short_tiers(ts, n, f, p)[i],
            ),
    decreases n,
{
    if n > 0 {
        short_tiers_are_rows(ts, n - 1, f, p, q);
        let t = ts[n - 1];
        assert(tier_is_kept(t, f, p, q));
        let m = t.intervals.len() as int;
        short_intervals_are_rows(t.intervals, m, f, p, q);
        quotes_are_ends(t.name);
        not_a_head(in_quotes(t.name));
        class_is_read();
        decimal_is_row(t.intervals.len());
        let one = short_tier(t, f, p);
        let before = short_tiers(ts, n - 1, f, p);
        let all = short_tiers(ts, n, f, p);
        assert(one[1] == in_quotes(t.name));
        assert forall|i: int| 0 <= i < one.len() implies is_row(#[trigger] one[i]) by {
            if i >= 5 {
                assert(one[i] == short_intervals(t.intervals, m, f, p)[i - 5]);
            }
        }
        assert forall|i: int| 0 <= i < all.len() implies is_row(#[trigger] all[i]) by {
            if i < before.len() {
                assert(all[i] == before[i]);
            } else {
                assert(all[i] == one[i - before.len()]);
            }
        }
    }
}

proof fn rows_are_kept(v: Seq<Seq<char>>, from: int, n: int)
    requires
        0 <= from <= n <= v.len(),
        short_rows(v, from) == Seq::<Seq<char>>::empty(),
        forall|i: int| from <= i < v.len() ==> is_row(#[trigger] v[i]),
    ensures
        short_rows(v, n) == v.subrange(from, n),
    decreases n,
{
    if n == from {
        assert(v.subrange(from, n) =~= seq![]);
    } else {
        rows_are_kept(v, from, n - 1);
        assert(is_row(v[n - 1]));
        trimmed_stays(v[n - 1]);
        assert(v.subrange(from, n - 1).push(v[n - 1]) =~= v.subrange(from, n));
    }
}

/// The two lines of the head and the blank line after them.
pub open spec fn has_head(v: Seq<Seq<char>>) -> bool {
    &&& v.len() >= 3
    &&& v[0] == "File type = \"ooTextFile\""@
    &&& v[1] == "Object class = \"TextGrid\""@
    &&& v[2] == ""@
}

proof fn head_is_left_out(v: Seq<Seq<char>>)
    requires
        has_head(v),
    ensures
        short_rows(v, 3) == Seq::<Seq<char>>::empty(),
        is_line(v[0]),
        is_line(v[1]),
        is_line(v[2]),
        v[0][0] == 'F',
        v[0].len() > 0,
{
    reveal_strlit("File type = \"ooTextFile\"");
    reveal_strlit("Object class = \"TextGrid\"");
    reveal_strlit("File type");
    reveal_strlit("Object class");
    reveal_strlit("");
    ascii_is_no_space();
    trimmed_stays(v[0]);
    trimmed_stays(v[1]);
    trimmed_stays(v[2]);
    assert(v[0].subrange(0, 9) =~= "File type"@);
    assert(v[1].subrange(0, 12) =~= "Object class"@);
    reveal_with_fuel(short_rows, 4);
}

proof fn exists_is_row()
    ensures
        is_row("<exists>"@),
        holds("<exists>"@, "exists"@),
{
    reveal_strlit("<exists>");
    reveal_strlit("exists");
    ascii_is_no_space();
    not_a_head("<exists>"@);
    assert("<exists>"@.subrange(1, 7) =~= "exists"@);
    assert(occurs_at("<exists>"@, "exists"@, 1));
}

/// A text that starts with a line starts as the line does.
proof fn starts_as_line(v: Seq<Seq<char>>)
    requires
        v.len() > 0,
        v[0].len() > 0,
    ensures
        unlines(v).len() > 0,
        unlines(v)[0] == v[0][0],
{
    unlines_front(v);
}

/// A TextGrid that is written in the short format and read again is the same. Its labels and names
/// are on one line and have no spaces around them, its numbers are read as they are written, and
/// nothing in it makes the text look like the long format.
pub proof fn short_roundtrip<
    F: Fn(FloatOp) -> u64,
    P: Fn(u64, Style) -> String,
    Q: Fn(String) -> Option<u64>,
>(g: GridView, f: F, p: P, q: Q)
    requires
        grid_is_kept(g, f, p, q),
        is_short(unlines(short_lines(g, f, p))),
    ensures
        grid_in(unlines(short_lines(g, f, p)), q) == Ok::<GridView, GridFault>(g),
{
    let v = short_lines(g, f, p);
    let ts = g.tiers;
    let n = ts.len() as int;
    let rest = short_tiers(ts, n, f, p);
    assert(has_head(v));
    head_is_left_out(v);
    exists_is_row();
    short_tiers_are_rows(ts, n, f, p, q);
    decimal_is_row(ts.len());
    assert forall|i: int| 3 <= i < v.len() implies is_row(#[trigger] v[i]) by {
        if i >= 7 {
            assert(v[i] == rest[i - 7]);
        }
    }
    assert forall|i: int| 0 <= i < v.len() implies is_line(#[trigger] v[i]) by {
        if i >= 3 {
            row_is_line(v[i]);
        }
    }
    starts_as_line(v);
    unlines_is_plain(v);
    lines_are_kept(v);
    rows_are_kept(v, 3, v.len() as int);
    let rows = v.subrange(3, v.len() as int);
    assert(rows[0] == v[3] && rows[1] == v[4] && rows[2] == v[5] && rows[3] == v[6]);
    kept_is_read(g.xmin, f, p, q);
    kept_is_read(g.xmax, f, p, q);
    assert(rows.skip(4) =~= rest);
    tiers_are_read(rows, 4, ts, 0, f, p, q);
    assert(short_tiers(ts, 0, f, p).len() == 0);
    assert(ts.skip(0) =~= ts);
}

proof fn spaces_in_front(a: Seq<char>, b: Seq<char>)
    requires
        forall|i: int| 0 <= i < a.len() ==> SPACES@.contains(#[trigger] a[i]),
        b.len() > 0,
        !SPACES@.contains(b[0]),
    ensures
        trimmed_start(a + b, SPACES@) == b,
    decreases a.len(),
{
    let s = a + b;
    if a.len() == 0 {
        assert(s =~= b);
    } else {
        assert(s[0] == a[0]);
        assert(s.skip(1) =~= a.skip(1) + b);
        assert forall|i: int| 0 <= i < a.skip(1).len() implies SPACES@.contains(
            #[trigger] a.skip(1)[i],
        ) by {
            assert(a.skip(1)[i] == a[i + 1]);
        }
        spaces_in_front(a.skip(1), b);
    }
}

/// A line that is `body` between blanks.
proof fn line_is_trimmed(pad: Seq<char>, body: Seq<char>, end: Seq<char>)
    requires
        forall|i: int| 0 <= i < pad.len() ==> #[trigger] pad[i] == ' ',
        end.len() == 0 || end == " "@,
        body.len() > 0,
        is_trimmed(body),
    ensures
        trimmed(pad + body + end, SPACES@) == body,
        trimmed_start(pad + body + end, SPACES@) == body + end,
{
    reveal_strlit(" ");
    ascii_is_no_space();
    assert(pad + body + end =~= pad + (body + end));
    spaces_in_front(pad, body + end);
    let s = body + end;
    if end.len() > 0 {
        assert(s.last() == ' ');
        assert(s.drop_last() =~= body);
        assert(trimmed_end(s, SPACES@) == trimmed_end(body, SPACES@));
    } else {
        assert(s =~= body);
    }
    assert(trimmed_end(body, SPACES@) == body);
}

/// The line, without the blanks around it, starts with these characters.
pub open spec fn begins(line: Seq<char>, word: Seq<char>) -> bool {
    starts_with(trimmed(line, SPACES@), word) && starts_with(trimmed_start(line, SPACES@), word)
}

/// Two texts differ in a character that both have.
pub open spec fn differ(a: Seq<char>, b: Seq<char>) -> bool {
    exists|j: int| 0 <= j < a.len() && j < b.len() && #[trigger] a[j] != b[j]
}

proof fn begins_is_one(s: Seq<char>, a: Seq<char>, b: Seq<char>)
    requires
        starts_with(s, a),
        differ(a, b),
    ensures
        !starts_with(s, b),
{
    let j = choose|j: int| 0 <= j < a.len() && j < b.len() && #[trigger] a[j] != b[j];
    assert(s.subrange(0, a.len() as int)[j] == s[j]);
    if starts_with(s, b) {
        assert(s.subrange(0, b.len() as int)[j] == s[j]);
    }
}

proof fn keys_differ()
    ensures
        differ("item ["@, "class"@),
        differ("item ["@, "name"@),
        differ("item ["@, "xmin"@),
        differ("item ["@, "xmax"@),
        differ("class"@, "name"@),
        differ("class"@, "xmin"@),
        differ("name"@, "xmin"@),
        differ("xmin"@, "xmax"@),
        differ("class"@, "item ["@),
        differ("name"@, "item ["@),
        differ("xmin"@, "item ["@),
        differ("xmax"@, "item ["@),
        differ("intervals: "@, "item ["@),
        differ("intervals ["@, "item ["@),
        differ("text"@, "item ["@),
        differ("intervals: "@, "intervals ["@),
{
    reveal_strlit("item [");
    reveal_strlit("class");
    reveal_strlit("name");
    reveal_strlit("xmin");
    reveal_strlit("xmax");
    reveal_strlit("text");
    reveal_strlit("intervals: ");
    reveal_strlit("intervals [");
    assert("item ["@[0] != "class"@[0]);
    assert("item ["@[0] != "name"@[0]);
    assert("item ["@[0] != "xmin"@[0]);
    assert("item ["@[0] != "xmax"@[0]);
    assert("class"@[0] != "name"@[0]);
    assert("class"@[0] != "xmin"@[0]);
    assert("name"@[0] != "xmin"@[0]);
    assert("xmin"@[2] != "xmax"@[2]);
    assert("class"@[0] != "item ["@[0]);
    assert("name"@[0] != "item ["@[0]);
    assert("xmin"@[0] != "item ["@[0]);
    assert("xmax"@[0] != "item ["@[0]);
    assert("intervals: "@[1] != "item ["@[1]);
    assert("intervals ["@[1] != "item ["@[1]);
    assert("text"@[0] != "item ["@[0]);
    assert("intervals: "@[9] != "intervals ["@[9]);
}

/// A line with a key and a value.
pub open spec fn field_line(pad: Seq<char>, key: Seq<char>, value: Seq<char>) -> Seq<char> {
    pad + (key + " = "@ + value) + " "@
}

/// A key: visible ASCII characters.
pub open spec fn is_key(key: Seq<char>) -> bool {
    key.len() > 0 && forall|i: int| 0 <= i < key.len() ==> '!' <= #[trigger] key[i] && key[i] <= '~'
}

/// A key and a value, with or without a blank after them.
proof fn open_field_is_read(pad: Seq<char>, key: Seq<char>, value: Seq<char>, end: Seq<char>)
    requires
        forall|i: int| 0 <= i < pad.len() ==> #[trigger] pad[i] == ' ',
        is_key(key),
        value.len() > 0,
        is_trimmed(value),
        !value.contains('\n'),
        end.len() == 0 || end == " "@,
    ensures
        value_in(pad + (key + " = "@ + value) + end, key) == Some(value),
        begins(pad + (key + " = "@ + value) + end, key),
        is_line(pad + (key + " = "@ + value) + end),
{
    reveal_strlit(" ");
    reveal_strlit(" = ");
    ascii_is_no_space();
    let body = key + " = "@ + value;
    let line = pad + body + end;
    assert(!SPACES@.contains(key[0]));
    assert(body[0] == key[0]);
    assert(body.last() == value.last());
    line_is_trimmed(pad, body, end);
    assert(body.subrange(0, key.len() as int) =~= key);
    assert((body + end).subrange(0, key.len() as int) =~= key);
    let rest = seq!['=', ' '] + value;
    assert(body.skip(key.len() as int) =~= seq![' '] + rest);
    spaces_in_front(seq![' '], rest);
    let set = seq!['='];
    assert(set.contains('=')) by {
        assert(set[0] == '=');
    }
    assert(rest.skip(1) =~= seq![' '] + value);
    assert(rest.skip(1)[0] == ' ');
    assert(!set.contains(' '));
    assert(trimmed_start(rest.skip(1), set) == rest.skip(1));
    assert(rest[0] == '=');
    assert(trimmed_start(rest, set) == rest.skip(1));
    spaces_in_front(seq![' '], value);
    trimmed_stays(value);
    if end.len() > 0 {
        assert(line.last() == ' ');
    } else {
        assert(line.last() == value.last());
    }
    if line.contains('\n') {
        let j = choose|j: int| 0 <= j < line.len() && line[j] == '\n';
        if j >= pad.len() + body.len() {
            assert(end[j - pad.len() - body.len()] == '\n');
        } else if j >= pad.len() + key.len() + 3 {
            assert(value[j - pad.len() - key.len() - 3] == '\n');
        } else if j >= pad.len() && j < pad.len() + key.len() {
            assert(key[j - pad.len()] == '\n');
        } else if j < pad.len() {
            assert(pad[j] == '\n');
        }
    }
}

proof fn field_is_read(pad: Seq<char>, key: Seq<char>, value: Seq<char>)
    requires
        forall|i: int| 0 <= i < pad.len() ==> #[trigger] pad[i] == ' ',
        is_key(key),
        value.len() > 0,
        is_trimmed(value),
        !value.contains('\n'),
    ensures
        value_in(field_line(pad, key, value), key) == Some(value),
        begins(field_line(pad, key, value), key),
        is_line(field_line(pad, key, value)),
{
    open_field_is_read(pad, key, value, " "@);
}

proof fn other_key(line: Seq<char>, word: Seq<char>, key: Seq<char>)
    requires
        begins(line, word),
        differ(word, key),
    ensures
        value_in(line, key) is None,
{
    begins_is_one(trimmed(line, SPACES@), word, key);
}

proof fn no_tier_opened(line: Seq<char>, word: Seq<char>)
    requires
        begins(line, word),
        differ(word, "item ["@),
    ensures
        !opens_tier(line),
{
    begins_is_one(trimmed(line, SPACES@), word, "item ["@);
}

proof fn value_at<A>(s: Seq<A>, a: int, one: Seq<A>, k: int)
    requires
        0 <= a,
        a + one.len() <= s.len(),
        s.subrange(a, a + one.len()) == one,
        0 <= k < one.len(),
    ensures
        s[a + k] == one[k],
{
    assert(s.subrange(a, a + one.len())[k] == s[a + k]);
}

/// A line with a number in brackets that opens an interval or a tier.
proof fn bracket_is_read(pad: Seq<char>, word: Seq<char>, n: nat)
    requires
        forall|i: int| 0 <= i < pad.len() ==> #[trigger] pad[i] == ' ',
        word == "item ["@ || word == "intervals ["@,
    ensures
        begins(pad + word + decimal(n) + "]:"@, word),
        is_line(pad + word + decimal(n) + "]:"@),
        word == "item ["@ ==> opens_tier(pad + word + decimal(n) + "]:"@),
        word == "intervals ["@ ==> opens_interval(pad + word + decimal(n) + "]:"@),
{
    reveal_strlit("item [");
    reveal_strlit("item []");
    reveal_strlit("intervals [");
    reveal_strlit("]:");
    ascii_is_no_space();
    decimal_is_read(n);
    let d = decimal(n);
    let line = pad + word + d + "]:"@;
    let body = word + d + "]:"@;
    assert(line =~= pad + body + seq![]);
    line_is_trimmed(pad, body, seq![]);
    assert(body + seq![] =~= body);
    assert(body.subrange(0, word.len() as int) =~= word);
    assert(starts_with(body, word));
    if word == "item ["@ {
        assert(body[6] == d[0]);
        assert(is_digit(d[0]));
        if starts_with(body, "item []"@) {
            assert(body.subrange(0, 7)[6] == ']');
        }
    }
    assert(line.last() == ':');
    if line.contains('\n') {
        let j = choose|j: int| 0 <= j < line.len() && line[j] == '\n';
        let a = pad.len() + word.len();
        if j < pad.len() {
            assert(pad[j] == '\n');
        } else if j < a {
            assert(word[j - pad.len()] == '\n');
        } else if j < a + d.len() {
            assert(is_digit(d[j - a]));
        }
    }
}

proof fn key_texts()
    ensures
        is_key("xmin"@),
        is_key("xmax"@),
        is_key("text"@),
        is_key("class"@),
        is_key("name"@),
        is_key("size"@),
{
    reveal_strlit("xmin");
    reveal_strlit("xmax");
    reveal_strlit("text");
    reveal_strlit("class");
    reveal_strlit("name");
    reveal_strlit("size");
}

/// Where the first line of a text ends.
proof fn first_break(t: Seq<char>)
    ensures
        run(t, seq!['\n']) <= t.len(),
        !t.take(run(t, seq!['\n']) as int).contains('\n'),
        run(t, seq!['\n']) < t.len() ==> {
            let k = run(t, seq!['\n']) as int;
            t == t.take(k) + "\n"@ + t.skip(k + 1)
        },
{
    reveal_strlit("\n");
    let set = seq!['\n'];
    run_fits(t, set);
    let k = run(t, set) as int;
    assert(set[0] == '\n');
    let a = t.take(k);
    if a.contains('\n') {
        let j = choose|j: int| 0 <= j < a.len() && a[j] == '\n';
        assert(t[j] == '\n');
        assert(set.contains(t[j]));
    }
    if k < t.len() {
        assert(set.contains(t[k]));
        assert(t[k] == '\n');
        assert(t =~= a + "\n"@ + t.skip(k + 1));
    }
}

/// Doubling quotes goes part by part.
proof fn escaped_add(a: Seq<char>, b: Seq<char>)
    ensures
        escaped(a + b) == escaped(a) + escaped(b),
    decreases a.len(),
{
    if a.len() == 0 {
        escaped_nothing(a);
        assert(a + b =~= b);
        assert(escaped(a) + escaped(b) =~= escaped(b));
    } else {
        escaped_step(a + b);
        escaped_step(a);
        assert((a + b).skip(1) =~= a.skip(1) + b);
        escaped_add(a.skip(1), b);
        assert((a + b)[0] == a[0]);
        assert(escaped(a + b) =~= escaped(a) + escaped(b));
    }
}

proof fn escaped_break(a: Seq<char>, b: Seq<char>)
    ensures
        escaped(a + "\n"@ + b) == escaped(a) + "\n"@ + escaped(b),
{
    reveal_strlit("\n");
    let n = "\n"@;
    assert(n =~= seq!['\n']);
    escaped_step(n);
    escaped_nothing(n.skip(1));
    assert(escaped(n) =~= n);
    escaped_add(a, n);
    escaped_add(a + n, b);
}

/// A text whose quotes are doubled has no other quote.
proof fn nothing_closes(s: Seq<char>, i: int, t: Seq<char>)
    requires
        0 <= i <= s.len(),
        s.skip(i) == escaped(t),
    ensures
        closing_quote(s, i) is None,
    decreases t.len(),
{
    let e = escaped(t);
    assert(s.skip(i).len() == s.len() - i);
    if t.len() == 0 {
        escaped_nothing(t);
    } else {
        escaped_step(t);
        let rest = t.skip(1);
        assert(s[i] == s.skip(i)[0]);
        assert(e[0] == t[0]);
        if t[0] == '"' {
            assert(s[i + 1] == s.skip(i)[1]);
            assert(e[1] == '"');
            assert(s.skip(i + 2) =~= s.skip(i).skip(2));
            assert(e.skip(2) =~= escaped(rest));
            nothing_closes(s, i + 2, rest);
        } else {
            assert(s.skip(i + 1) =~= s.skip(i).skip(1));
            assert(e.skip(1) =~= escaped(rest));
            nothing_closes(s, i + 1, rest);
        }
    }
}

/// The quote after a text whose quotes are doubled is found before a blank too.
proof fn closing_before_blank(s: Seq<char>, i: int, t: Seq<char>)
    requires
        0 <= i <= s.len(),
        s.skip(i) == escaped(t) + seq!['"', ' '],
    ensures
        closing_quote(s, i) == Some(s.len() - 2),
    decreases t.len(),
{
    let e = escaped(t);
    let end = seq!['"', ' '];
    assert(s.skip(i).len() == s.len() - i);
    if t.len() == 0 {
        escaped_nothing(t);
        assert(s.skip(i)[0] == '"');
        assert(s.skip(i)[1] == ' ');
        assert(s[i] == '"');
        assert(s[i + 1] == ' ');
    } else {
        escaped_step(t);
        let rest = t.skip(1);
        assert(s[i] == s.skip(i)[0]);
        assert(e[0] == t[0]);
        if t[0] == '"' {
            assert(s[i + 1] == s.skip(i)[1]);
            assert(e[1] == '"');
            assert(s.skip(i + 2) =~= s.skip(i).skip(2));
            assert((e + end).skip(2) =~= escaped(rest) + end);
            closing_before_blank(s, i + 2, rest);
        } else {
            assert(s.skip(i + 1) =~= s.skip(i).skip(1));
            assert((e + end).skip(1) =~= escaped(rest) + end);
            closing_before_blank(s, i + 1, rest);
        }
    }
}

/// The lines of a label in the long format, from after its first quote on.
pub open spec fn label_lines(t: Seq<char>) -> Seq<Seq<char>>
    decreases t.len(),
{
    let k = run(t, seq!['\n']) as int;
    if k >= t.len() {
        seq![escaped(t) + "\" "@]
    } else {
        seq![escaped(t.take(k))] + label_lines(t.skip(k + 1))
    }
}

/// A label that the long format holds. It has no spaces around it and none at the end of its first
/// line, no carriage return before a line feed, and no later line that opens a tier.
pub open spec fn is_long_label(t: Seq<char>) -> bool {
    let w = label_lines(t);
    &&& is_trimmed(t)
    &&& w.len() > 1 ==> !SPACES@.contains(("\""@ + w[0]).last())
    &&& forall|i: int| 0 <= i < w.len() ==> (#[trigger] w[i]).len() > 0 ==> w[i].last() != '\r'
    &&& forall|i: int| 1 <= i < w.len() ==> !opens_tier(#[trigger] w[i])
}

/// A label on one line is held by the long format as by the short one.
pub proof fn label_is_long_label(t: Seq<char>)
    requires
        is_label(t),
    ensures
        is_long_label(t),
{
    reveal_strlit("\" ");
    first_break(t);
    let k = run(t, seq!['\n']) as int;
    if k < t.len() {
        reveal_strlit("\n");
        assert(t[k] == '\n');
    }
    assert(label_lines(t).len() == 1);
}

/// The lines of a label have no line feed in them, and put together they are the label.
proof fn label_text(t: Seq<char>)
    ensures
        label_lines(t).len() > 0,
        unlines(label_lines(t)) == escaped(t) + "\" "@ + "\n"@,
        forall|i: int|
            0 <= i < label_lines(t).len() ==> !(#[trigger] label_lines(t)[i]).contains('\n'),
    decreases t.len(),
{
    reveal_strlit("\n");
    reveal_strlit("\" ");
    let w = label_lines(t);
    first_break(t);
    let k = run(t, seq!['\n']) as int;
    if k >= t.len() {
        assert(t.take(k) =~= t);
        escaped_keeps_out(t, '\n');
        let l = escaped(t) + "\" "@;
        if l.contains('\n') {
            let j = choose|j: int| 0 <= j < l.len() && l[j] == '\n';
            assert(escaped(t)[j] == '\n');
        }
        unlines_front(w);
        assert(w.skip(1) =~= seq![]);
        assert(unlines(w.skip(1)) =~= seq![]);
        assert(unlines(w) =~= l + "\n"@);
    } else {
        let a = t.take(k);
        let b = t.skip(k + 1);
        label_text(b);
        escaped_break(a, b);
        escaped_keeps_out(a, '\n');
        unlines_front(w);
        assert(w.skip(1) =~= label_lines(b));
        assert(unlines(w) =~= escaped(t) + "\" "@ + "\n"@);
        assert forall|i: int| 0 <= i < w.len() implies !(#[trigger] w[i]).contains('\n') by {
            if i > 0 {
                assert(w[i] == label_lines(b)[i - 1]);
            }
        }
    }
}

/// A label that starts with `a`, and goes on with `b` on the lines after line `idx`, is read.
proof fn label_is_read(block: Seq<Seq<char>>, idx: int, a: Seq<char>, b: Seq<char>)
    requires
        0 <= idx,
        idx + 1 + label_lines(b).len() <= block.len(),
        block.subrange(idx + 1, idx + 1 + label_lines(b).len()) == label_lines(b),
    ensures
        label_from(block, idx, escaped(a)) == Ok::<(int, Seq<char>), GridFault>(
            (idx + label_lines(b).len(), trimmed(a + "\n"@ + b, SPACES@)),
        ),
    decreases b.len(),
{
    reveal_strlit("\" ");
    let w = label_lines(b);
    label_text(b);
    assert(escaped(a).skip(0) =~= escaped(a));
    nothing_closes(escaped(a), 0, a);
    value_at(block, idx + 1, w, 0);
    first_break(b);
    let k = run(b, seq!['\n']) as int;
    let buf = escaped(a) + "\n"@ + w[0];
    assert(label_from(block, idx, escaped(a)) == label_from(block, idx + 1, buf));
    if k >= b.len() {
        let t = a + "\n"@ + b;
        let end = seq!['"', ' '];
        assert("\" "@ =~= end);
        escaped_break(a, b);
        assert(buf =~= escaped(t) + end);
        assert(buf.skip(0) =~= buf);
        closing_before_blank(buf, 0, t);
        assert(buf.take(buf.len() - 2) =~= escaped(t));
        unescape_undoes_escape(t);
    } else {
        let b1 = b.take(k);
        let b2 = b.skip(k + 1);
        escaped_break(a, b1);
        assert(w.skip(1) =~= label_lines(b2));
        let m = label_lines(b2).len() as int;
        assert(block.subrange(idx + 2, idx + 2 + m) =~= block.subrange(
            idx + 1,
            idx + 1 + w.len(),
        ).skip(1));
        label_is_read(block, idx + 1, a + "\n"@ + b1, b2);
        assert(a + "\n"@ + b1 + "\n"@ + b2 =~= a + "\n"@ + b);
    }
}

/// An interval with kept numbers and a label of the long format.
pub open spec fn long_interval_is_kept<
    F: Fn(FloatOp) -> u64,
    P: Fn(u64, Style) -> String,
    Q: Fn(String) -> Option<u64>,
>(iv: IntervalView, f: F, p: P, q: Q) -> bool {
    is_kept(iv.xmin, f, p, q) && is_kept(iv.xmax, f, p, q) && is_long_label(iv.text)
}

/// A tier with kept numbers, a name on one line, and such intervals.
pub open spec fn long_tier_is_kept<
    F: Fn(FloatOp) -> u64,
    P: Fn(u64, Style) -> String,
    Q: Fn(String) -> Option<u64>,
>(t: TierView, f: F, p: P, q: Q) -> bool {
    &&& is_kept(t.xmin, f, p, q)
    &&& is_kept(t.xmax, f, p, q)
    &&& is_label(t.name)
    &&& forall|i: int|
        0 <= i < t.intervals.len() ==> long_interval_is_kept(#[trigger] t.intervals[i], f, p, q)
}

/// A TextGrid with kept numbers and such tiers.
pub open spec fn long_grid_is_kept<
    F: Fn(FloatOp) -> u64,
    P: Fn(u64, Style) -> String,
    Q: Fn(String) -> Option<u64>,
>(g: GridView, f: F, p: P, q: Q) -> bool {
    &&& is_kept(g.xmin, f, p, q)
    &&& is_kept(g.xmax, f, p, q)
    &&& g.tiers.len() <= usize::MAX
    &&& forall|i: int|
        0 <= i < g.tiers.len() ==> long_tier_is_kept(#[trigger] g.tiers[i], f, p, q)
}

/// The lines of an interval as they are read: those of its label apart.
pub open spec fn spread_interval<F: Fn(FloatOp) -> u64, P: Fn(u64, Style) -> String>(
    iv: IntervalView,
    j: int,
    f: F,
    p: P,
) -> Seq<Seq<char>> {
    let w = label_lines(iv.text);
    long_interval(iv, j, f, p).take(3) + seq!["            text = \""@ + w[0]] + w.skip(1)
}

/// The lines of the first `n` intervals as they are read.
pub open spec fn spread_intervals<F: Fn(FloatOp) -> u64, P: Fn(u64, Style) -> String>(
    ivs: Seq<IntervalView>,
    n: int,
    f: F,
    p: P,
) -> Seq<Seq<char>>
    decreases n,
{
    if n <= 0 {
        seq![]
    } else {
        spread_intervals(ivs, n - 1, f, p) + spread_interval(ivs[n - 1], n - 1, f, p)
    }
}

/// The lines of a tier as they are read.
pub open spec fn spread_tier<F: Fn(FloatOp) -> u64, P: Fn(u64, Style) -> String>(
    t: TierView,
    i: int,
    f: F,
    p: P,
) -> Seq<Seq<char>> {
    long_tier(t, i, f, p).take(6) + spread_intervals(t.intervals, t.intervals.len() as int, f, p)
}

/// The lines of the first `n` tiers as they are read.
pub open spec fn spread_tiers<F: Fn(FloatOp) -> u64, P: Fn(u64, Style) -> String>(
    ts: Seq<TierView>,
    n: int,
    f: F,
    p: P,
) -> Seq<Seq<char>>
    decreases n,
{
    if n <= 0 {
        seq![]
    } else {
        spread_tiers(ts, n - 1, f, p) + spread_tier(ts[n - 1], n - 1, f, p)
    }
}

/// The lines of a TextGrid as they are read.
pub open spec fn spread_lines<F: Fn(FloatOp) -> u64, P: Fn(u64, Style) -> String>(
    g: GridView,
    f: F,
    p: P,
) -> Seq<Seq<char>> {
    long_lines(g, f, p).take(8) + spread_tiers(g.tiers, g.tiers.len() as int, f, p)
}

proof fn unlines_add(a: Seq<Seq<char>>, b: Seq<Seq<char>>)
    ensures
        unlines(a + b) == unlines(a) + unlines(b),
    decreases b.len(),
{
    if b.len() == 0 {
        assert(a + b =~= a);
        assert(unlines(a) + unlines(b) =~= unlines(a));
    } else {
        unlines_add(a, b.drop_last());
        assert((a + b).drop_last() =~= a + b.drop_last());
        assert((a + b).last() == b.last());
        assert(unlines(a + b) =~= unlines(a) + unlines(b));
    }
}

proof fn interval_text<F: Fn(FloatOp) -> u64, P: Fn(u64, Style) -> String>(
    iv: IntervalView,
    j: int,
    f: F,
    p: P,
)
    ensures
        unlines(spread_interval(iv, j, f, p)) == unlines(long_interval(iv, j, f, p)),
{
    let head = long_interval(iv, j, f, p).take(3);
    let pre = "            text = \""@;
    let w = label_lines(iv.text);
    label_text(iv.text);
    let v = seq![pre + w[0]] + w.skip(1);
    unlines_front(w);
    unlines_front(v);
    assert(v.skip(1) =~= w.skip(1));
    assert(unlines(v) =~= pre + unlines(w));
    let l = pre + escaped(iv.text) + "\" "@;
    let one = seq![l];
    unlines_front(one);
    assert(one.skip(1) =~= seq![]);
    assert(unlines(one.skip(1)) =~= seq![]);
    assert(unlines(one) =~= l + "\n"@);
    assert(unlines(v) =~= unlines(one));
    assert(long_interval(iv, j, f, p) =~= head + one);
    assert(spread_interval(iv, j, f, p) =~= head + v);
    unlines_add(head, one);
    unlines_add(head, v);
}

proof fn intervals_text<F: Fn(FloatOp) -> u64, P: Fn(u64, Style) -> String>(
    ivs: Seq<IntervalView>,
    n: int,
    f: F,
    p: P,
)
    requires
        0 <= n <= ivs.len(),
    ensures
        unlines(spread_intervals(ivs, n, f, p)) == unlines(long_intervals(ivs, n, f, p)),
    decreases n,
{
    if n > 0 {
        intervals_text(ivs, n - 1, f, p);
        interval_text(ivs[n - 1], n - 1, f, p);
        unlines_add(spread_intervals(ivs, n - 1, f, p), spread_interval(ivs[n - 1], n - 1, f, p));
        unlines_add(long_intervals(ivs, n - 1, f, p), long_interval(ivs[n - 1], n - 1, f, p));
    }
}

proof fn tiers_text<F: Fn(FloatOp) -> u64, P: Fn(u64, Style) -> String>(
    ts: Seq<TierView>,
    n: int,
    f: F,
    p: P,
)
    requires
        0 <= n <= ts.len(),
    ensures
        unlines(spread_tiers(ts, n, f, p)) == unlines(long_tiers(ts, n, f, p)),
    decreases n,
{
    if n > 0 {
        tiers_text(ts, n - 1, f, p);
        let t = ts[n - 1];
        let m = t.intervals.len() as int;
        let one = long_tier(t, n - 1, f, p);
        let head = one.take(6);
        intervals_text(t.intervals, m, f, p);
        assert(one =~= head + long_intervals(t.intervals, m, f, p));
        unlines_add(head, long_intervals(t.intervals, m, f, p));
        unlines_add(head, spread_intervals(t.intervals, m, f, p));
        unlines_add(spread_tiers(ts, n - 1, f, p), spread_tier(t, n - 1, f, p));
        unlines_add(long_tiers(ts, n - 1, f, p), one);
    }
}

/// The lines that are read are those of the text that is written.
proof fn grid_text<F: Fn(FloatOp) -> u64, P: Fn(u64, Style) -> String>(g: GridView, f: F, p: P)
    ensures
        unlines(spread_lines(g, f, p)) == unlines(long_lines(g, f, p)),
{
    let n = g.tiers.len() as int;
    let head = long_lines(g, f, p).take(8);
    tiers_text(g.tiers, n, f, p);
    assert(long_lines(g, f, p) =~= head + long_tiers(g.tiers, n, f, p));
    unlines_add(head, long_tiers(g.tiers, n, f, p));
    unlines_add(head, spread_tiers(g.tiers, n, f, p));
}

/// The lines of an interval in the long format, each with what it says.
pub open spec fn is_interval_lines<F: Fn(FloatOp) -> u64, P: Fn(u64, Style) -> String>(
    one: Seq<Seq<char>>,
    iv: IntervalView,
    f: F,
    p: P,
) -> bool {
    let w = label_lines(iv.text);
    &&& w.len() > 0
    &&& one.len() == 3 + w.len()
    &&& begins(one[0], "intervals ["@)
    &&& opens_interval(one[0])
    &&& begins(one[1], "xmin"@)
    &&& value_in(one[1], "xmin"@) == Some(num_text(iv.xmin, f, p))
    &&& begins(one[2], "xmax"@)
    &&& value_in(one[2], "xmax"@) == Some(num_text(iv.xmax, f, p))
    &&& begins(one[3], "text"@)
    &&& value_in(one[3], "text"@) == Some(
        if w.len() == 1 {
            in_quotes(iv.text)
        } else {
            "\""@ + w[0]
        },
    )
    &&& one.skip(4) == w.skip(1)
    &&& forall|i: int| 0 <= i < one.len() ==> is_line(#[trigger] one[i])
    &&& forall|i: int| 0 <= i < one.len() ==> !opens_tier(#[trigger] one[i])
}

/// The line on which a label starts.
proof fn text_line_is_read(t: Seq<char>, pad: Seq<char>)
    requires
        forall|i: int| 0 <= i < pad.len() ==> #[trigger] pad[i] == ' ',
        is_long_label(t),
    ensures
        ({
            let w = label_lines(t);
            let line = pad + ("text"@ + " = "@ + ("\""@ + w[0]));
            &&& begins(line, "text"@)
            &&& is_line(line)
            &&& value_in(line, "text"@) == Some(
                if w.len() == 1 {
                    in_quotes(t)
                } else {
                    "\""@ + w[0]
                },
            )
        }),
{
    reveal_strlit("\"");
    reveal_strlit("\" ");
    reveal_strlit(" ");
    ascii_is_no_space();
    key_texts();
    let w = label_lines(t);
    let v = "\""@ + w[0];
    let line = pad + ("text"@ + " = "@ + v);
    label_text(t);
    first_break(t);
    let k = run(t, seq!['\n']) as int;
    if w.len() == 1 {
        if k < t.len() {
            label_text(t.skip(k + 1));
        }
        assert(t.take(k) =~= t);
        quotes_are_ends(t);
        field_is_read(pad, "text"@, in_quotes(t));
        assert(line =~= field_line(pad, "text"@, in_quotes(t)));
    } else {
        if v.contains('\n') {
            let j = choose|j: int| 0 <= j < v.len() && v[j] == '\n';
            assert(w[0][j - 1] == '\n');
        }
        let none: Seq<char> = seq![];
        open_field_is_read(pad, "text"@, v, none);
        assert(line =~= line + none);
    }
}

proof fn interval_lines<
    F: Fn(FloatOp) -> u64,
    P: Fn(u64, Style) -> String,
    Q: Fn(String) -> Option<u64>,
>(iv: IntervalView, j: int, f: F, p: P, q: Q)
    requires
        0 <= j,
        long_interval_is_kept(iv, f, p, q),
    ensures
        is_interval_lines(spread_interval(iv, j, f, p), iv, f, p),
{
    let one = spread_interval(iv, j, f, p);
    let w = label_lines(iv.text);
    let pad8 = "        "@;
    let pad = "            "@;
    key_texts();
    assert("        intervals ["@ =~= pad8 + "intervals ["@) by {
        reveal_strlit("        intervals [");
        reveal_strlit("        ");
        reveal_strlit("intervals [");
    }
    assert("            xmin = "@ =~= pad + "xmin"@ + " = "@) by {
        reveal_strlit("            xmin = ");
        reveal_strlit("            ");
        reveal_strlit("xmin");
        reveal_strlit(" = ");
    }
    assert("            xmax = "@ =~= pad + "xmax"@ + " = "@) by {
        reveal_strlit("            xmax = ");
        reveal_strlit("            ");
        reveal_strlit("xmax");
        reveal_strlit(" = ");
    }
    assert("            text = \""@ =~= pad + "text"@ + " = "@ + "\""@) by {
        reveal_strlit("            text = \"");
        reveal_strlit("            ");
        reveal_strlit("text");
        reveal_strlit(" = ");
        reveal_strlit("\"");
    }
    assert("\" "@ =~= "\""@ + " "@) by {
        reveal_strlit("\" ");
        reveal_strlit("\"");
        reveal_strlit(" ");
    }
    assert forall|i: int| 0 <= i < pad.len() implies #[trigger] pad[i] == ' ' by {
        reveal_strlit("            ");
    }
    assert forall|i: int| 0 <= i < pad8.len() implies #[trigger] pad8[i] == ' ' by {
        reveal_strlit("        ");
    }
    let a = num_text(iv.xmin, f, p);
    let b = num_text(iv.xmax, f, p);
    bracket_is_read(pad8, "intervals ["@, (j + 1) as nat);
    assert(one[1] =~= field_line(pad, "xmin"@, a));
    field_is_read(pad, "xmin"@, a);
    assert(one[2] =~= field_line(pad, "xmax"@, b));
    field_is_read(pad, "xmax"@, b);
    label_text(iv.text);
    text_line_is_read(iv.text, pad);
    assert(one[3] =~= pad + ("text"@ + " = "@ + ("\""@ + w[0])));
    assert(one.skip(4) =~= w.skip(1));
    keys_differ();
    no_tier_opened(one[0], "intervals ["@);
    no_tier_opened(one[1], "xmin"@);
    no_tier_opened(one[2], "xmax"@);
    no_tier_opened(one[3], "text"@);
    assert forall|i: int| 0 <= i < one.len() implies is_line(#[trigger] one[i]) && !opens_tier(
        one[i],
    ) by {
        if i >= 4 {
            assert(one[i] == w[i - 3]);
        }
    }
}

proof fn interval_is_read<
    F: Fn(FloatOp) -> u64,
    P: Fn(u64, Style) -> String,
    Q: Fn(String) -> Option<u64>,
>(block: Seq<Seq<char>>, i: int, iv: IntervalView, j: int, f: F, p: P, q: Q)
    requires
        0 <= i,
        0 <= j,
        i + spread_interval(iv, j, f, p).len() <= block.len(),
        block.subrange(i, i + spread_interval(iv, j, f, p).len()) == spread_interval(iv, j, f, p),
        long_interval_is_kept(iv, f, p, q),
    ensures
        spread_interval(iv, j, f, p).len() >= 4,
        opens_interval(block[i]),
        one_interval(block, i, q) == Ok::<(int, IntervalView), GridFault>(
            (i + spread_interval(iv, j, f, p).len() - 1, iv),
        ),
{
    let one = spread_interval(iv, j, f, p);
    let w = label_lines(iv.text);
    let last = i + one.len() - 1;
    interval_lines(iv, j, f, p, q);
    value_at(block, i, one, 0);
    value_at(block, i, one, 1);
    value_at(block, i, one, 2);
    value_at(block, i, one, 3);
    kept_is_read(iv.xmin, f, p, q);
    kept_is_read(iv.xmax, f, p, q);
    trimmed_stays(iv.text);
    first_break(iv.text);
    let k = run(iv.text, seq!['\n']) as int;
    let v = value_in(block[i + 3], "text"@)->0;
    assert(field_from(block, i + 3, "text"@) == Some((i + 3, v)));
    if w.len() == 1 {
        quotes_are_ends(iv.text);
        trimmed_stays(v);
        let buf = v.skip(1);
        assert(buf =~= escaped(iv.text).push('"')) by {
            reveal_strlit("\"");
        }
        assert(buf.skip(0) =~= buf);
        closing_is_found(buf, 0, iv.text);
        assert(buf.take(buf.len() - 1) =~= escaped(iv.text));
        unescape_undoes_escape(iv.text);
    } else {
        let a = iv.text.take(k);
        let b = iv.text.skip(k + 1);
        assert(v[0] == '"' && v.skip(1) =~= escaped(a) && v.len() > 0) by {
            reveal_strlit("\"");
        }
        assert(!SPACES@.contains('"')) by {
            ascii_is_no_space();
        }
        assert(trimmed_start(v, SPACES@) == v);
        assert(w.skip(1) =~= label_lines(b));
        let m = label_lines(b).len() as int;
        assert(block.subrange(i + 4, i + 4 + m) =~= block.subrange(i, i + one.len()).skip(4));
        label_is_read(block, i + 3, a, b);
    }
    assert(text_field(block, i + 3) == Ok::<(int, Seq<char>), GridFault>((last, iv.text)));
}

proof fn spread_interval_place<F: Fn(FloatOp) -> u64, P: Fn(u64, Style) -> String>(
    ivs: Seq<IntervalView>,
    n: int,
    k: int,
    f: F,
    p: P,
)
    requires
        0 <= k < n <= ivs.len(),
    ensures
        spread_intervals(ivs, k + 1, f, p).len() == spread_intervals(ivs, k, f, p).len()
            + spread_interval(ivs[k], k, f, p).len(),
        spread_intervals(ivs, k + 1, f, p).len() <= spread_intervals(ivs, n, f, p).len(),
        spread_intervals(ivs, n, f, p).subrange(
            spread_intervals(ivs, k, f, p).len() as int,
            spread_intervals(ivs, k + 1, f, p).len() as int,
        ) == spread_interval(ivs[k], k, f, p),
    decreases n,
{
    let all = spread_intervals(ivs, n, f, p);
    let before = spread_intervals(ivs, n - 1, f, p);
    let a = spread_intervals(ivs, k, f, p).len() as int;
    let b = spread_intervals(ivs, k + 1, f, p).len() as int;
    if k < n - 1 {
        spread_interval_place(ivs, n - 1, k, f, p);
        assert(all.subrange(a, b) =~= before.subrange(a, b));
    } else {
        assert(all.subrange(a, b) =~= spread_interval(ivs[k], k, f, p));
    }
}

proof fn interval_step<Q: Fn(String) -> Option<u64>>(
    block: Seq<Seq<char>>,
    i: int,
    last: int,
    iv: IntervalView,
    rest: Seq<IntervalView>,
    q: Q,
)
    requires
        0 <= i < block.len(),
        i < last,
        opens_interval(block[i]),
        one_interval(block, i, q) == Ok::<(int, IntervalView), GridFault>((last, iv)),
        intervals_from(block, last + 1, q) == Ok::<Seq<IntervalView>, GridFault>(rest),
    ensures
        intervals_from(block, i, q) == Ok::<Seq<IntervalView>, GridFault>(seq![iv] + rest),
{
}

proof fn tier_step<Q: Fn(String) -> Option<u64>>(
    lines: Seq<Seq<char>>,
    i: int,
    end: int,
    t: TierView,
    rest: Seq<TierView>,
    q: Q,
)
    requires
        0 <= i < lines.len(),
        next_tier(lines, i + 1) == end,
        tier_in(lines.subrange(i, end), q) == Ok::<Option<TierView>, GridFault>(Some(t)),
        tiers_from(lines, end, q) == Ok::<Seq<TierView>, GridFault>(rest),
    ensures
        tiers_from(lines, i, q) == Ok::<Seq<TierView>, GridFault>(seq![t] + rest),
{
}

proof fn long_intervals_are_read<
    F: Fn(FloatOp) -> u64,
    P: Fn(u64, Style) -> String,
    Q: Fn(String) -> Option<u64>,
>(block: Seq<Seq<char>>, at: int, ivs: Seq<IntervalView>, k: int, f: F, p: P, q: Q)
    requires
        0 <= k <= ivs.len(),
        0 <= at <= block.len(),
        block.skip(at) == spread_intervals(ivs, ivs.len() as int, f, p),
        forall|i: int| 0 <= i < ivs.len() ==> long_interval_is_kept(#[trigger] ivs[i], f, p, q),
    ensures
        intervals_from(block, at + spread_intervals(ivs, k, f, p).len(), q) == Ok::<
            Seq<IntervalView>,
            GridFault,
        >(ivs.skip(k)),
    decreases ivs.len() - k,
{
    let n = ivs.len() as int;
    let all = spread_intervals(ivs, n, f, p);
    let a = spread_intervals(ivs, k, f, p).len() as int;
    let i = at + a;
    if k == n {
        assert(block.skip(at).len() == block.len() - at);
        assert(ivs.skip(k) =~= seq![]);
    } else {
        long_intervals_are_read(block, at, ivs, k + 1, f, p, q);
        spread_interval_place(ivs, n, k, f, p);
        let one = spread_interval(ivs[k], k, f, p);
        let end = i + one.len();
        assert(block.skip(at).len() == block.len() - at);
        assert(block.subrange(i, end) =~= one) by {
            assert(block.subrange(i, end) =~= block.skip(at).subrange(a, a + one.len()));
        }
        assert(long_interval_is_kept(ivs[k], f, p, q));
        interval_is_read(block, i, ivs[k], k, f, p, q);
        interval_step(block, i, end - 1, ivs[k], ivs.skip(k + 1), q);
        assert(seq![ivs[k]] + ivs.skip(k + 1) =~= ivs.skip(k));
    }
}

/// The lines of intervals open no tier.
proof fn intervals_open_no_tier<
    F: Fn(FloatOp) -> u64,
    P: Fn(u64, Style) -> String,
    Q: Fn(String) -> Option<u64>,
>(ivs: Seq<IntervalView>, n: int, f: F, p: P, q: Q)
    requires
        0 <= n <= ivs.len(),
        forall|i: int| 0 <= i < ivs.len() ==> long_interval_is_kept(#[trigger] ivs[i], f, p, q),
    ensures
        forall|j: int|
            0 <= j < spread_intervals(ivs, n, f, p).len() ==> is_line(
                #[trigger] spread_intervals(ivs, n, f, p)[j],
            ) && !opens_tier(spread_intervals(ivs, n, f, p)[j]),
    decreases n,
{
    if n > 0 {
        intervals_open_no_tier(ivs, n - 1, f, p, q);
        let all = spread_intervals(ivs, n, f, p);
        let before = spread_intervals(ivs, n - 1, f, p);
        let one = spread_interval(ivs[n - 1], n - 1, f, p);
        assert(long_interval_is_kept(ivs[n - 1], f, p, q));
        interval_lines(ivs[n - 1], n - 1, f, p, q);
        assert forall|j: int| 0 <= j < all.len() implies is_line(#[trigger] all[j]) && !opens_tier(
            all[j],
        ) by {
            if j < before.len() {
                assert(all[j] == before[j]);
            } else {
                assert(all[j] == one[j - before.len()]);
            }
        }
    }
}

proof fn tier_heads()
    ensures
        "    item ["@ == "    "@ + "item ["@,
        "        class = \"IntervalTier\" "@ == field_line(
            "        "@,
            "class"@,
            "\"IntervalTier\""@,
        ),
        "        name = \""@ == "        "@ + "name"@ + " = "@ + "\""@,
        "\" "@ == "\""@ + " "@,
        "        xmin = "@ == "        "@ + "xmin"@ + " = "@,
        "        xmax = "@ == "        "@ + "xmax"@ + " = "@,
        "        intervals: size = "@ == "        "@ + "intervals: size"@ + " = "@,
        forall|i: int| 0 <= i < "        "@.len() ==> #[trigger] "        "@[i] == ' ',
        forall|i: int| 0 <= i < "    "@.len() ==> #[trigger] "    "@[i] == ' ',
{
    reveal_strlit("        ");
    reveal_strlit("    ");
    reveal_strlit(" = ");
    reveal_strlit("\"");
    reveal_strlit(" ");
    assert("    item ["@ =~= "    "@ + "item ["@) by {
        reveal_strlit("    item [");
        reveal_strlit("item [");
    }
    assert("        class = \"IntervalTier\" "@ =~= field_line(
        "        "@,
        "class"@,
        "\"IntervalTier\""@,
    )) by {
        reveal_strlit("        class = \"IntervalTier\" ");
        reveal_strlit("class");
        reveal_strlit("\"IntervalTier\"");
    }
    assert("        name = \""@ =~= "        "@ + "name"@ + " = "@ + "\""@) by {
        reveal_strlit("        name = \"");
        reveal_strlit("name");
    }
    assert("\" "@ =~= "\""@ + " "@) by {
        reveal_strlit("\" ");
    }
    assert("        xmin = "@ =~= "        "@ + "xmin"@ + " = "@) by {
        reveal_strlit("        xmin = ");
        reveal_strlit("xmin");
    }
    assert("        xmax = "@ =~= "        "@ + "xmax"@ + " = "@) by {
        reveal_strlit("        xmax = ");
        reveal_strlit("xmax");
    }
    assert("        intervals: size = "@ =~= "        "@ + "intervals: size"@ + " = "@) by {
        reveal_strlit("        intervals: size = ");
        reveal_strlit("intervals: size");
    }
}

proof fn size_is_line(n: nat)
    ensures
        begins("        intervals: size = "@ + decimal(n) + " "@, "intervals: "@),
        is_line("        intervals: size = "@ + decimal(n) + " "@),
{
    tier_heads();
    decimal_is_read(n);
    ascii_is_no_space();
    reveal_strlit("intervals: size");
    reveal_strlit("intervals: ");
    reveal_strlit(" = ");
    reveal_strlit(" ");
    let d = decimal(n);
    assert(is_digit(d[0]));
    assert(is_digit(d.last()));
    let pad = "        "@;
    let body = "intervals: size"@ + " = "@ + d;
    let line = "        intervals: size = "@ + d + " "@;
    assert(line =~= pad + body + " "@);
    assert(body.last() == d.last());
    line_is_trimmed(pad, body, " "@);
    assert(body.subrange(0, 11) =~= "intervals: "@);
    assert((body + " "@).subrange(0, 11) =~= "intervals: "@);
    if line.contains('\n') {
        let j = choose|j: int| 0 <= j < line.len() && line[j] == '\n';
        if j < pad.len() {
            assert(pad[j] == '\n');
        } else if j >= pad.len() + 18 && j < line.len() - 1 {
            assert(is_digit(d[j - pad.len() - 18]));
        }
    }
}

/// The first lines of a tier in the long format, each with what it says.
pub open spec fn is_tier_head<F: Fn(FloatOp) -> u64, P: Fn(u64, Style) -> String>(
    one: Seq<Seq<char>>,
    t: TierView,
    f: F,
    p: P,
) -> bool {
    &&& one.len() >= 6
    &&& begins(one[0], "item ["@)
    &&& opens_tier(one[0])
    &&& begins(one[1], "class"@)
    &&& value_in(one[1], "class"@) == Some("\"IntervalTier\""@)
    &&& begins(one[2], "name"@)
    &&& value_in(one[2], "name"@) == Some(in_quotes(t.name))
    &&& begins(one[3], "xmin"@)
    &&& value_in(one[3], "xmin"@) == Some(num_text(t.xmin, f, p))
    &&& begins(one[4], "xmax"@)
    &&& value_in(one[4], "xmax"@) == Some(num_text(t.xmax, f, p))
    &&& begins(one[5], "intervals: "@)
    &&& forall|i: int| 0 <= i < 6 ==> is_line(#[trigger] one[i])
}

proof fn tier_head_lines<
    F: Fn(FloatOp) -> u64,
    P: Fn(u64, Style) -> String,
    Q: Fn(String) -> Option<u64>,
>(t: TierView, i: int, f: F, p: P, q: Q)
    requires
        0 <= i,
        long_tier_is_kept(t, f, p, q),
    ensures
        is_tier_head(spread_tier(t, i, f, p), t, f, p),
{
    let one = spread_tier(t, i, f, p);
    let pad = "        "@;
    tier_heads();
    key_texts();
    bracket_is_read("    "@, "item ["@, (i + 1) as nat);
    class_is_read();
    field_is_read(pad, "class"@, "\"IntervalTier\""@);
    quotes_are_ends(t.name);
    assert(one[2] =~= field_line(pad, "name"@, in_quotes(t.name)));
    field_is_read(pad, "name"@, in_quotes(t.name));
    let a = num_text(t.xmin, f, p);
    let b = num_text(t.xmax, f, p);
    assert(one[3] =~= field_line(pad, "xmin"@, a));
    field_is_read(pad, "xmin"@, a);
    assert(one[4] =~= field_line(pad, "xmax"@, b));
    field_is_read(pad, "xmax"@, b);
    size_is_line(t.intervals.len());
}

proof fn found_later(lines: Seq<Seq<char>>, i: int, j: int, key: Seq<char>)
    requires
        0 <= i <= j < lines.len(),
        forall|k: int| i <= k < j ==> value_in(#[trigger] lines[k], key) is None,
        value_in(lines[j], key) is Some,
    ensures
        field_from(lines, i, key) == Some((j, value_in(lines[j], key)->0)),
    decreases j - i,
{
    if i < j {
        assert(value_in(lines[i], key) is None);
        found_later(lines, i + 1, j, key);
    }
}

proof fn tier_is_read<
    F: Fn(FloatOp) -> u64,
    P: Fn(u64, Style) -> String,
    Q: Fn(String) -> Option<u64>,
>(t: TierView, i: int, f: F, p: P, q: Q)
    requires
        0 <= i,
        long_tier_is_kept(t, f, p, q),
    ensures
        tier_in(spread_tier(t, i, f, p), q) == Ok::<Option<TierView>, GridFault>(Some(t)),
{
    let b = spread_tier(t, i, f, p);
    let n = t.intervals.len() as int;
    tier_head_lines(t, i, f, p, q);
    keys_differ();
    class_is_read();
    other_key(b[0], "item ["@, "class"@);
    found_later(b, 0, 1, "class"@);
    other_key(b[0], "item ["@, "name"@);
    other_key(b[1], "class"@, "name"@);
    found_later(b, 0, 2, "name"@);
    quotes_are_ends(t.name);
    other_key(b[0], "item ["@, "xmin"@);
    other_key(b[1], "class"@, "xmin"@);
    other_key(b[2], "name"@, "xmin"@);
    found_later(b, 0, 3, "xmin"@);
    other_key(b[3], "xmin"@, "xmax"@);
    found_later(b, 3, 4, "xmax"@);
    kept_is_read(t.xmin, f, p, q);
    kept_is_read(t.xmax, f, p, q);
    begins_is_one(trimmed_start(b[5], SPACES@), "intervals: "@, "intervals ["@);
    assert(b.skip(6) =~= spread_intervals(t.intervals, n, f, p));
    long_intervals_are_read(b, 6, t.intervals, 0, f, p, q);
    assert(t.intervals.skip(0) =~= t.intervals);
    assert(intervals_from(b, 5, q) == intervals_from(b, 6, q));
}

/// Every line of the tier but the first is one that opens no tier.
proof fn tier_opens_once<
    F: Fn(FloatOp) -> u64,
    P: Fn(u64, Style) -> String,
    Q: Fn(String) -> Option<u64>,
>(t: TierView, i: int, f: F, p: P, q: Q)
    requires
        0 <= i,
        long_tier_is_kept(t, f, p, q),
    ensures
        spread_tier(t, i, f, p).len() >= 6,
        opens_tier(spread_tier(t, i, f, p)[0]),
        forall|j: int|
            1 <= j < spread_tier(t, i, f, p).len() ==> !opens_tier(
                #[trigger] spread_tier(t, i, f, p)[j],
            ),
        forall|j: int|
            0 <= j < spread_tier(t, i, f, p).len() ==> is_line(#[trigger] spread_tier(t, i, f, p)[j]),
{
    let b = spread_tier(t, i, f, p);
    let n = t.intervals.len() as int;
    tier_head_lines(t, i, f, p, q);
    keys_differ();
    let ivs = spread_intervals(t.intervals, n, f, p);
    intervals_open_no_tier(t.intervals, n, f, p, q);
    assert forall|j: int| 6 <= j < b.len() implies is_line(b[j]) && !opens_tier(#[trigger] b[j]) by {
        assert(b[j] == ivs[j - 6]);
    }
    no_tier_opened(b[1], "class"@);
    no_tier_opened(b[2], "name"@);
    no_tier_opened(b[3], "xmin"@);
    no_tier_opened(b[4], "xmax"@);
    no_tier_opened(b[5], "intervals: "@);
}

proof fn tier_ends_at(lines: Seq<Seq<char>>, i: int, j: int)
    requires
        0 <= i <= j <= lines.len(),
        forall|k: int| i <= k < j ==> !opens_tier(#[trigger] lines[k]),
        j < lines.len() ==> opens_tier(lines[j]),
    ensures
        next_tier(lines, i) == j,
    decreases j - i,
{
    if i < j {
        assert(!opens_tier(lines[i]));
        tier_ends_at(lines, i + 1, j);
    }
}

proof fn spread_tier_place<F: Fn(FloatOp) -> u64, P: Fn(u64, Style) -> String>(
    ts: Seq<TierView>,
    n: int,
    k: int,
    f: F,
    p: P,
)
    requires
        0 <= k < n <= ts.len(),
    ensures
        spread_tiers(ts, k + 1, f, p).len() == spread_tiers(ts, k, f, p).len() + spread_tier(
            ts[k],
            k,
            f,
            p,
        ).len(),
        spread_tiers(ts, k + 1, f, p).len() <= spread_tiers(ts, n, f, p).len(),
        spread_tiers(ts, n, f, p).subrange(
            spread_tiers(ts, k, f, p).len() as int,
            spread_tiers(ts, k + 1, f, p).len() as int,
        ) == spread_tier(ts[k], k, f, p),
    decreases n,
{
    let all = spread_tiers(ts, n, f, p);
    let before = spread_tiers(ts, n - 1, f, p);
    let a = spread_tiers(ts, k, f, p).len() as int;
    let b = spread_tiers(ts, k + 1, f, p).len() as int;
    if k < n - 1 {
        spread_tier_place(ts, n - 1, k, f, p);
        assert(all.subrange(a, b) =~= before.subrange(a, b));
    } else {
        assert(all.subrange(a, b) =~= spread_tier(ts[k], k, f, p));
    }
}

/// Lines that open one tier, at their start, are a block of their own.
proof fn block_is_one_tier(lines: Seq<Seq<char>>, i: int, one: Seq<Seq<char>>)
    requires
        0 <= i,
        0 < one.len(),
        i + one.len() <= lines.len(),
        lines.subrange(i, i + one.len()) == one,
        opens_tier(one[0]),
        forall|j: int| 1 <= j < one.len() ==> !opens_tier(#[trigger] one[j]),
        i + one.len() < lines.len() ==> opens_tier(lines[i + one.len()]),
    ensures
        opens_tier(lines[i]),
        next_tier(lines, i + 1) == i + one.len(),
{
    let end = i + one.len();
    value_at(lines, i, one, 0);
    assert forall|j: int| i + 1 <= j < end implies !opens_tier(#[trigger] lines[j]) by {
        value_at(lines, i, one, j - i);
        assert(!opens_tier(one[j - i]));
    }
    tier_ends_at(lines, i + 1, end);
}

#[verifier::rlimit(40)]
#[verifier::spinoff_prover]
proof fn long_tiers_are_read<
    F: Fn(FloatOp) -> u64,
    P: Fn(u64, Style) -> String,
    Q: Fn(String) -> Option<u64>,
>(lines: Seq<Seq<char>>, at: int, ts: Seq<TierView>, k: int, f: F, p: P, q: Q)
    requires
        0 <= k <= ts.len(),
        0 <= at <= lines.len(),
        lines.skip(at) == spread_tiers(ts, ts.len() as int, f, p),
        forall|i: int| 0 <= i < ts.len() ==> long_tier_is_kept(#[trigger] ts[i], f, p, q),
    ensures
        tiers_from(lines, at + spread_tiers(ts, k, f, p).len(), q) == Ok::<Seq<TierView>, GridFault>(
            ts.skip(k),
        ),
        at + spread_tiers(ts, k, f, p).len() < lines.len() ==> opens_tier(
            lines[at + spread_tiers(ts, k, f, p).len()],
        ),
        at + spread_tiers(ts, k, f, p).len() <= lines.len(),
    decreases ts.len() - k,
{
    let n = ts.len() as int;
    let a = spread_tiers(ts, k, f, p).len() as int;
    let i = at + a;
    if k == n {
        assert(ts.skip(k) =~= seq![]);
    } else {
        long_tiers_are_read(lines, at, ts, k + 1, f, p, q);
        spread_tier_place(ts, n, k, f, p);
        let t = ts[k];
        let one = spread_tier(t, k, f, p);
        let end = i + one.len();
        assert(long_tier_is_kept(t, f, p, q));
        tier_opens_once(t, k, f, p, q);
        assert(lines.subrange(i, end) =~= one) by {
            assert(lines.subrange(i, end) =~= lines.skip(at).subrange(a, a + one.len()));
        }
        block_is_one_tier(lines, i, one);
        tier_is_read(t, k, f, p, q);
        tier_step(lines, i, end, t, ts.skip(k + 1), q);
        assert(seq![t] + ts.skip(k + 1) =~= ts.skip(k));
    }
}

/// The first lines of the long format, each with what it says.
pub open spec fn is_grid_head<F: Fn(FloatOp) -> u64, P: Fn(u64, Style) -> String>(
    v: Seq<Seq<char>>,
    g: GridView,
    f: F,
    p: P,
) -> bool {
    &&& v.len() >= 8
    &&& forall|i: int| 0 <= i < 3 ==> value_in(#[trigger] v[i], "xmin"@) is None
    &&& forall|i: int| 0 <= i < 4 ==> value_in(#[trigger] v[i], "xmax"@) is None
    &&& value_in(v[3], "xmin"@) == Some(num_text(g.xmin, f, p))
    &&& value_in(v[4], "xmax"@) == Some(num_text(g.xmax, f, p))
    &&& forall|i: int| 4 <= i < 8 ==> !opens_tier(#[trigger] v[i])
    &&& forall|i: int| 0 <= i < 8 ==> is_line(#[trigger] v[i])
}

proof fn head_has_no_fields(s: Seq<char>)
    requires
        s == "File type = \"ooTextFile\""@ || s == "Object class = \"TextGrid\""@ || s == ""@,
    ensures
        value_in(s, "xmin"@) is None,
        value_in(s, "xmax"@) is None,
{
    reveal_strlit("File type = \"ooTextFile\"");
    reveal_strlit("Object class = \"TextGrid\"");
    reveal_strlit("");
    reveal_strlit("xmin");
    reveal_strlit("xmax");
    ascii_is_no_space();
    trimmed_stays(s);
    if starts_with(s, "xmin"@) || starts_with(s, "xmax"@) {
        assert(s.subrange(0, 4)[0] == 'x');
    }
}

/// The lines that say that there are tiers, and that they follow.
proof fn notes_open_nothing()
    ensures
        !opens_tier("tiers? <exists> "@),
        is_line("tiers? <exists> "@),
        !opens_tier("item []: "@),
        is_line("item []: "@),
        holds("item []: "@, "item ["@),
{
    reveal_strlit("tiers? <exists> ");
    reveal_strlit("tiers? <exists>");
    reveal_strlit("item []: ");
    reveal_strlit("item []:");
    reveal_strlit("item []");
    reveal_strlit("item [");
    reveal_strlit(" ");
    ascii_is_no_space();
    assert("tiers? <exists> "@ =~= seq![] + "tiers? <exists>"@ + " "@);
    line_is_trimmed(seq![], "tiers? <exists>"@, " "@);
    if starts_with("tiers? <exists>"@, "item ["@) {
        assert("tiers? <exists>"@.subrange(0, 6)[0] == 'i');
    }
    assert("item []: "@ =~= seq![] + "item []:"@ + " "@);
    line_is_trimmed(seq![], "item []:"@, " "@);
    assert("item []:"@.subrange(0, 7) =~= "item []"@);
    assert("item []: "@.subrange(0, 6) =~= "item ["@);
    assert(occurs_at("item []: "@, "item ["@, 0));
}

proof fn grid_head_lines<
    F: Fn(FloatOp) -> u64,
    P: Fn(u64, Style) -> String,
    Q: Fn(String) -> Option<u64>,
>(g: GridView, f: F, p: P, q: Q)
    requires
        long_grid_is_kept(g, f, p, q),
    ensures
        is_grid_head(spread_lines(g, f, p), g, f, p),
{
    let v = spread_lines(g, f, p);
    key_texts();
    keys_differ();
    head_has_no_fields(v[0]);
    head_has_no_fields(v[1]);
    head_has_no_fields(v[2]);
    assert(has_head(v));
    head_is_left_out(v);
    let none: Seq<char> = seq![];
    assert("xmin = "@ =~= none + "xmin"@ + " = "@) by {
        reveal_strlit("xmin = ");
        reveal_strlit("xmin");
        reveal_strlit(" = ");
    }
    assert("xmax = "@ =~= none + "xmax"@ + " = "@) by {
        reveal_strlit("xmax = ");
        reveal_strlit("xmax");
        reveal_strlit(" = ");
    }
    assert("size = "@ =~= none + "size"@ + " = "@) by {
        reveal_strlit("size = ");
        reveal_strlit("size");
        reveal_strlit(" = ");
    }
    let a = num_text(g.xmin, f, p);
    let b = num_text(g.xmax, f, p);
    let d = decimal(g.tiers.len());
    assert(v[3] =~= field_line(none, "xmin"@, a));
    field_is_read(none, "xmin"@, a);
    other_key(v[3], "xmin"@, "xmax"@);
    assert(v[4] =~= field_line(none, "xmax"@, b));
    field_is_read(none, "xmax"@, b);
    no_tier_opened(v[4], "xmax"@);
    notes_open_nothing();
    decimal_is_row(g.tiers.len());
    assert(v[6] =~= field_line(none, "size"@, d));
    field_is_read(none, "size"@, d);
    assert(differ("size"@, "item ["@)) by {
        reveal_strlit("size");
        reveal_strlit("item [");
        assert("size"@[0] != "item ["@[0]);
    }
    no_tier_opened(v[6], "size"@);
    assert(v[5] == "tiers? <exists> "@);
    assert(v[7] == "item []: "@);
}

/// A line of a text is held by the text.
proof fn line_is_held(v: Seq<Seq<char>>, i: int, w: Seq<char>)
    requires
        0 <= i < v.len(),
        holds(v[i], w),
    ensures
        holds(unlines(v), w),
    decreases v.len(),
{
    let s = unlines(v);
    let a = unlines(v.drop_last());
    if i == v.len() - 1 {
        let j = choose|j: int| occurs_at(v[i], w, j);
        assert(s.subrange(a.len() + j, a.len() + j + w.len()) =~= v[i].subrange(j, j + w.len()));
        assert(occurs_at(s, w, a.len() + j));
    } else {
        line_is_held(v.drop_last(), i, w);
        let j = choose|j: int| occurs_at(a, w, j);
        assert(s.subrange(j, j + w.len()) =~= a.subrange(j, j + w.len()));
        assert(occurs_at(s, w, j));
    }
}

/// A TextGrid that is written in the long format and read again is the same. Its labels may span
/// several lines, but have no space around them or at the end of their first line, no carriage
/// return before a line feed, and no later line that opens a tier. Its names are on one line and
/// have no spaces around them, its numbers are read as they are written, and nothing in it says that
/// the text is in the short format.
pub proof fn long_roundtrip<
    F: Fn(FloatOp) -> u64,
    P: Fn(u64, Style) -> String,
    Q: Fn(String) -> Option<u64>,
>(g: GridView, f: F, p: P, q: Q)
    requires
        long_grid_is_kept(g, f, p, q),
        !holds(unlines(long_lines(g, f, p)), "ooTextFile short"@),
    ensures
        grid_in(unlines(long_lines(g, f, p)), q) == Ok::<GridView, GridFault>(g),
{
    let v = spread_lines(g, f, p);
    let ts = g.tiers;
    let n = ts.len() as int;
    let rest = spread_tiers(ts, n, f, p);
    grid_text(g, f, p);
    assert(has_head(v));
    head_is_left_out(v);
    grid_head_lines(g, f, p, q);
    notes_open_nothing();
    assert(v[7] == "item []: "@);
    line_is_held(v, 7, "item ["@);
    long_lines_are_lines(ts, n, f, p, q);
    assert forall|i: int| 0 <= i < v.len() implies is_line(#[trigger] v[i]) by {
        if i >= 8 {
            assert(v[i] == rest[i - 8]);
        }
    }
    starts_as_line(v);
    unlines_is_plain(v);
    lines_are_kept(v);
    found_later(v, 0, 3, "xmin"@);
    found_later(v, 0, 4, "xmax"@);
    kept_is_read(g.xmin, f, p, q);
    kept_is_read(g.xmax, f, p, q);
    assert(v.skip(8) =~= rest);
    long_tiers_are_read(v, 8, ts, 0, f, p, q);
    assert(spread_tiers(ts, 0, f, p).len() == 0);
    assert(ts.skip(0) =~= ts);
    tier_ends_at(v, 4, 8);
}

proof fn long_lines_are_lines<
    F: Fn(FloatOp) -> u64,
    P: Fn(u64, Style) -> String,
    Q: Fn(String) -> Option<u64>,
>(ts: Seq<TierView>, n: int, f: F, p: P, q: Q)
    requires
        0 <= n <= ts.len(),
        forall|i: int| 0 <= i < ts.len() ==> long_tier_is_kept(#[trigger] ts[i], f, p, q),
    ensures
        forall|i: int|
            0 <= i < spread_tiers(ts, n, f, p).len() ==> is_line(
                #[trigger] spread_tiers(ts, n, f, p)[i],
            ),
    decreases n,
{
    if n > 0 {
        long_lines_are_lines(ts, n - 1, f, p, q);
        let t = ts[n - 1];
        assert(long_tier_is_kept(t, f, p, q));
        tier_opens_once(t, n - 1, f, p, q);
        let one = spread_tier(t, n - 1, f, p);
        let before = spread_tiers(ts, n - 1, f, p);
        let all = spread_tiers(ts, n, f, p);
        assert forall|i: int| 0 <= i < all.len() implies is_line(#[trigger] all[i]) by {
            if i < before.len() {
                assert(all[i] == before[i]);
            } else {
                assert(all[i] == one[i - before.len()]);
            }
        }
    }
}

} // verus!
