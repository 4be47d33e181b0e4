//! Reading TextGrids in their long and their short text format.

use vstd::prelude::*;
use vstd::slice::slice_subrange;
use vstd::string::StringExecFns;

use crate::io::numerals::{is_reader, read, read_in};
use crate::io::textgrid::{
    interval_views, tier_views, GridView, Interval, IntervalTier, IntervalView, TextGrid, TierView,
};
use crate::scan::{
    has, has_prefix, holds, lines_of, number_in, parse_number, replace, replaced, split_lines,
    starts_with, trim, trim_start, trimmed, trimmed_start, views, SPACES,
};
use crate::text::{
    chars_of, decode_text, decoded, is_marked, is_utf8_marked, quote, quoted, same_text, string_of,
};

verus! {

/// Why a text is no TextGrid.
#[derive(Debug)]
pub enum GridError {
    MissingXmin,
    MissingXmax,
    TierXmin,
    TierXmax,
    IntervalXmin,
    IntervalXmax,
    MissingText,
    Unterminated,
    NotANumber(String),
    Truncated,
    TierCount(String),
    EntryCount(String),
}

/// What such a reason is.
#[verifier::ext_equal]
pub enum GridFault {
    MissingXmin,
    MissingXmax,
    TierXmin,
    TierXmax,
    IntervalXmin,
    IntervalXmax,
    MissingText,
    Unterminated,
    NotANumber(Seq<char>),
    Truncated,
    TierCount(Seq<char>),
    EntryCount(Seq<char>),
}

impl View for GridError {
    type V = GridFault;

    open spec fn view(&self) -> GridFault {
        match self {
            GridError::MissingXmin => GridFault::MissingXmin,
            GridError::MissingXmax => GridFault::MissingXmax,
            GridError::TierXmin => GridFault::TierXmin,
            GridError::TierXmax => GridFault::TierXmax,
            GridError::IntervalXmin => GridFault::IntervalXmin,
            GridError::IntervalXmax => GridFault::IntervalXmax,
            GridError::MissingText => GridFault::MissingText,
            GridError::Unterminated => GridFault::Unterminated,
            GridError::NotANumber(s) => GridFault::NotANumber(s@),
            GridError::Truncated => GridFault::Truncated,
            GridError::TierCount(s) => GridFault::TierCount(s@),
            GridError::EntryCount(s) => GridFault::EntryCount(s@),
        }
    }
}

/// The message for a reason.
pub open spec fn grid_message(e: GridFault) -> Seq<char> {
    match e {
        GridFault::MissingXmin => "missing xmin"@,
        GridFault::MissingXmax => "missing xmax"@,
        GridFault::TierXmin => "tier missing xmin"@,
        GridFault::TierXmax => "tier missing xmax"@,
        GridFault::IntervalXmin => "interval missing xmin"@,
        GridFault::IntervalXmax => "interval missing xmax"@,
        GridFault::MissingText => "missing text"@,
        GridFault::Unterminated => "unterminated text field in TextGrid"@,
        GridFault::NotANumber(s) => "expected a number, got "@ + quoted(s),
        GridFault::Truncated => "short TextGrid is truncated"@,
        GridFault::TierCount(s) => "expected tier count, got "@ + quoted(s),
        GridFault::EntryCount(s) => "expected entry count, got "@ + quoted(s),
    }
}

impl GridError {
    pub fn to_string(&self) -> (r: String)
        ensures
            r@ == grid_message(self@),
    {
        match self {
            GridError::MissingXmin => String::from_str("missing xmin"),
            GridError::MissingXmax => String::from_str("missing xmax"),
            GridError::TierXmin => String::from_str("tier missing xmin"),
            GridError::TierXmax => String::from_str("tier missing xmax"),
            GridError::IntervalXmin => String::from_str("interval missing xmin"),
            GridError::IntervalXmax => String::from_str("interval missing xmax"),
            GridError::MissingText => String::from_str("missing text"),
            GridError::Unterminated => String::from_str("unterminated text field in TextGrid"),
            GridError::NotANumber(s) => crate::text::joined(
                "expected a number, got ",
                quote(s.as_str()).as_str(),
            ),
            GridError::Truncated => String::from_str("short TextGrid is truncated"),
            GridError::TierCount(s) => crate::text::joined(
                "expected tier count, got ",
                quote(s.as_str()).as_str(),
            ),
            GridError::EntryCount(s) => crate::text::joined(
                "expected entry count, got ",
                quote(s.as_str()).as_str(),
            ),
        }
    }
}

/// What is left of a line after a key, if the line has it and an equals sign follows.
pub open spec fn value_in(line: Seq<char>, key: Seq<char>) -> Option<Seq<char>> {
    let t = trimmed(line, SPACES@);
    let rest = trimmed_start(t.skip(key.len() as int), SPACES@);
    if starts_with(t, key) && rest.len() > 0 && rest[0] == '=' {
        Some(trimmed(trimmed_start(rest, seq!['=']), SPACES@))
    } else {
        None
    }
}

/// The first line from `i` on that has a key, and what follows it.
pub open spec fn field_from(lines: Seq<Seq<char>>, i: int, key: Seq<char>) -> Option<(int, Seq<char>)>
    decreases lines.len() - i,
{
    if i < 0 || i >= lines.len() {
        None
    } else {
        match value_in(lines[i], key) {
            Some(v) => Some((i, v)),
            None => field_from(lines, i + 1, key),
        }
    }
}

/// The number in a field, without the quotes around it.
pub open spec fn grid_number<Q: Fn(String) -> Option<u64>>(v: Seq<char>, q: Q) -> Result<u64, GridFault> {
    match read_in(q, trimmed(trimmed(v, SPACES@), seq!['"'])) {
        Some(x) => Ok(x),
        None => Err(GridFault::NotANumber(v)),
    }
}

/// A text without the quotes around it, with its doubled quotes undone, and without the spaces around
/// it.
pub open spec fn unquoted(v: Seq<char>) -> Seq<char> {
    let t = trimmed(v, SPACES@);
    let inner = if t.len() >= 2 && t[0] == '"' && t.last() == '"' {
        t.subrange(1, t.len() - 1)
    } else {
        t
    };
    trimmed(replaced(inner, "\"\""@, "\""@), SPACES@)
}

/// The first quote from `i` on that is not doubled.
pub open spec fn closing_quote(s: Seq<char>, i: int) -> Option<int>
    decreases s.len() - i,
{
    if i < 0 || i >= s.len() {
        None
    } else if s[i] == '"' {
        if i + 1 < s.len() && s[i + 1] == '"' {
            closing_quote(s, i + 2)
        } else {
            Some(i)
        }
    } else {
        closing_quote(s, i + 1)
    }
}

/// A label that starts with `buf` and goes on in the lines after line `idx`.
pub open spec fn label_from(block: Seq<Seq<char>>, idx: int, buf: Seq<char>) -> Result<
    (int, Seq<char>),
    GridFault,
>
    decreases block.len() - idx,
{
    match closing_quote(buf, 0) {
        Some(end) => Ok(
            (idx, trimmed(replaced(buf.take(end), "\"\""@, "\""@), SPACES@)),
        ),
        None => if idx + 1 >= block.len() {
            Err(GridFault::Unterminated)
        } else {
            label_from(block, idx + 1, buf + "\n"@ + block[idx + 1])
        },
    }
}

/// The text field from line `from` on, and its last line.
pub open spec fn text_field(block: Seq<Seq<char>>, from: int) -> Result<(int, Seq<char>), GridFault> {
    match field_from(block, from, "text"@) {
        None => Err(GridFault::MissingText),
        Some((i, v)) => {
            let raw = trimmed_start(v, SPACES@);
            if raw.len() > 0 && raw[0] == '"' {
                label_from(block, i, raw.skip(1))
            } else {
                Ok((i, unquoted(raw)))
            }
        },
    }
}

/// The line opens an interval.
pub open spec fn opens_interval(line: Seq<char>) -> bool {
    starts_with(trimmed_start(line, SPACES@), "intervals ["@)
}

proof fn field_is_later(lines: Seq<Seq<char>>, i: int, key: Seq<char>)
    requires
        0 <= i,
    ensures
        field_from(lines, i, key) matches Some(r) ==> i <= r.0 < lines.len(),
    decreases lines.len() - i,
{
    if i < lines.len() && value_in(lines[i], key) is None {
        field_is_later(lines, i + 1, key);
    }
}

proof fn label_is_later(block: Seq<Seq<char>>, idx: int, buf: Seq<char>)
    requires
        0 <= idx < block.len(),
    ensures
        label_from(block, idx, buf) matches Ok(r) ==> idx <= r.0 < block.len(),
    decreases block.len() - idx,
{
    if closing_quote(buf, 0) is None && idx + 1 < block.len() {
        label_is_later(block, idx + 1, buf + "\n"@ + block[idx + 1]);
    }
}

pub proof fn text_is_later(block: Seq<Seq<char>>, from: int)
    requires
        0 <= from,
    ensures
        text_field(block, from) matches Ok(r) ==> from <= r.0 < block.len(),
{
    field_is_later(block, from, "text"@);
    match field_from(block, from, "text"@) {
        None => {},
        Some((i, v)) => {
            let raw = trimmed_start(v, SPACES@);
            if raw.len() > 0 && raw[0] == '"' {
                label_is_later(block, i, raw.skip(1));
            }
        },
    }
}

/// One interval whose opening line is line `i`, and its last line.
pub open spec fn one_interval<Q: Fn(String) -> Option<u64>>(block: Seq<Seq<char>>, i: int, q: Q) -> Result<
    (int, IntervalView),
    GridFault,
> {
    match field_from(block, i + 1, "xmin"@) {
        None => Err(GridFault::IntervalXmin),
        Some((a, s)) => match field_from(block, a + 1, "xmax"@) {
            None => Err(GridFault::IntervalXmax),
            Some((b, e)) => match text_field(block, b + 1) {
                Err(x) => Err(x),
                Ok((c, text)) => match grid_number(s, q) {
                    Err(x) => Err(x),
                    Ok(xmin) => match grid_number(e, q) {
                        Err(x) => Err(x),
                        Ok(xmax) => Ok((c, IntervalView { xmin, xmax, text })),
                    },
                },
            },
        },
    }
}

pub proof fn interval_is_later<Q: Fn(String) -> Option<u64>>(block: Seq<Seq<char>>, i: int, q: Q)
    requires
        0 <= i,
    ensures
        one_interval(block, i, q) matches Ok(r) ==> i < r.0 < block.len(),
{
    field_is_later(block, i + 1, "xmin"@);
    match field_from(block, i + 1, "xmin"@) {
        None => {},
        Some((a, s)) => {
            field_is_later(block, a + 1, "xmax"@);
            match field_from(block, a + 1, "xmax"@) {
                None => {},
                Some((b, e)) => {
                    text_is_later(block, b + 1);
                },
            }
        },
    }
}

/// The intervals from line `i` on.
pub open spec fn intervals_from<Q: Fn(String) -> Option<u64>>(block: Seq<Seq<char>>, i: int, q: Q) -> Result<
    Seq<IntervalView>,
    GridFault,
>
    decreases block.len() - i,
{
    if i < 0 || i >= block.len() {
        Ok(seq![])
    } else if !opens_interval(block[i]) {
        intervals_from(block, i + 1, q)
    } else {
        proof {
            interval_is_later(block, i, q);
        }
        match one_interval(block, i, q) {
            Err(x) => Err(x),
            Ok((c, iv)) => if c <= i {
                Ok(seq![])
            } else {
                match intervals_from(block, c + 1, q) {
                    Err(x) => Err(x),
                    Ok(rest) => Ok(seq![iv] + rest),
                }
            },
        }
    }
}

/// The text of a field, nothing if it is not there.
pub open spec fn text_or_nothing(v: Option<(int, Seq<char>)>) -> Seq<char> {
    match v {
        Some((i, s)) => unquoted(s),
        None => seq![],
    }
}

/// The tier in a block of lines; none if it is no tier of intervals.
pub open spec fn tier_in<Q: Fn(String) -> Option<u64>>(block: Seq<Seq<char>>, q: Q) -> Result<
    Option<TierView>,
    GridFault,
> {
    let class = field_from(block, 0, "class"@);
    if class is None || text_or_nothing(class) != "IntervalTier"@ {
        Ok(None)
    } else {
        match field_from(block, 0, "xmin"@) {
            None => Err(GridFault::TierXmin),
            Some((a, s)) => match grid_number(s, q) {
                Err(x) => Err(x),
                Ok(xmin) => match field_from(block, a, "xmax"@) {
                    None => Err(GridFault::TierXmax),
                    Some((b, e)) => match grid_number(e, q) {
                        Err(x) => Err(x),
                        Ok(xmax) => match intervals_from(block, b + 1, q) {
                            Err(x) => Err(x),
                            Ok(intervals) => Ok(
                                Some(
                                    TierView {
                                        name: text_or_nothing(field_from(block, 0, "name"@)),
                                        xmin,
                                        xmax,
                                        intervals,
                                    },
                                ),
                            ),
                        },
                    },
                },
            },
        }
    }
}

/// The line opens a tier.
pub open spec fn opens_tier(line: Seq<char>) -> bool {
    let t = trimmed(line, SPACES@);
    starts_with(t, "item ["@) && !starts_with(t, "item []"@)
}

/// The first line from `i` on that opens a tier, the number of lines if there is none.
pub open spec fn next_tier(lines: Seq<Seq<char>>, i: int) -> int
    decreases lines.len() - i,
{
    if i >= lines.len() || opens_tier(lines[i]) {
        i
    } else {
        next_tier(lines, i + 1)
    }
}

pub proof fn next_tier_is_later(lines: Seq<Seq<char>>, i: int)
    requires
        0 <= i <= lines.len(),
    ensures
        i <= next_tier(lines, i) <= lines.len(),
        next_tier(lines, i) < lines.len() ==> opens_tier(lines[next_tier(lines, i)]),
    decreases lines.len() - i,
{
    if i < lines.len() && !opens_tier(lines[i]) {
        next_tier_is_later(lines, i + 1);
    }
}

/// The tiers from line `i` on, which opens one or is past the end.
pub open spec fn tiers_from<Q: Fn(String) -> Option<u64>>(lines: Seq<Seq<char>>, i: int, q: Q) -> Result<
    Seq<TierView>,
    GridFault,
>
    decreases lines.len() - i,
{
    if i < 0 || i >= lines.len() {
        Ok(seq![])
    } else {
        proof {
            next_tier_is_later(lines, i + 1);
        }
        let end = next_tier(lines, i + 1);
        match tier_in(lines.subrange(i, end), q) {
            Err(x) => Err(x),
            Ok(t) => match tiers_from(lines, end, q) {
                Err(x) => Err(x),
                Ok(rest) => match t {
                    Some(tier) => Ok(seq![tier] + rest),
                    None => Ok(rest),
                },
            },
        }
    }
}

/// The TextGrid in the lines of a text in the long format.
pub open spec fn long_grid<Q: Fn(String) -> Option<u64>>(lines: Seq<Seq<char>>, q: Q) -> Result<
    GridView,
    GridFault,
> {
    match field_from(lines, 0, "xmin"@) {
        None => Err(GridFault::MissingXmin),
        Some((a, s)) => match grid_number(s, q) {
            Err(x) => Err(x),
            Ok(xmin) => match field_from(lines, 0, "xmax"@) {
                None => Err(GridFault::MissingXmax),
                Some((b, e)) => match grid_number(e, q) {
                    Err(x) => Err(x),
                    Ok(xmax) => match tiers_from(lines, next_tier(lines, b), q) {
                        Err(x) => Err(x),
                        Ok(tiers) => Ok(GridView { xmin, xmax, tiers }),
                    },
                },
            },
        },
    }
}

/// The first `n` lines, trimmed, without blank ones and the two of the head.
pub open spec fn short_rows(lines: Seq<Seq<char>>, n: int) -> Seq<Seq<char>>
    decreases n,
{
    if n <= 0 {
        seq![]
    } else {
        let before = short_rows(lines, n - 1);
        let t = trimmed(lines[n - 1], SPACES@);
        if t.len() == 0 || starts_with(t, "File type"@) || starts_with(t, "Object class"@) {
            before
        } else {
            before.push(t)
        }
    }
}

/// The intervals in the rows from `i` on, up to `count`.
pub open spec fn row_intervals<Q: Fn(String) -> Option<u64>>(
    rows: Seq<Seq<char>>,
    i: int,
    count: int,
    q: Q,
) -> Result<Seq<IntervalView>, GridFault>
    decreases count,
{
    if count <= 0 || i + 3 > rows.len() {
        Ok(seq![])
    } else {
        match grid_number(rows[i], q) {
            Err(x) => Err(x),
            Ok(xmin) => match grid_number(rows[i + 1], q) {
                Err(x) => Err(x),
                Ok(xmax) => match row_intervals(rows, i + 3, count - 1, q) {
                    Err(x) => Err(x),
                    Ok(rest) => Ok(
                        seq![IntervalView { xmin, xmax, text: unquoted(rows[i + 2]) }] + rest,
                    ),
                },
            },
        }
    }
}

/// The tiers in the rows from `i` on, up to `n`. A tier whose rows end before its count is an error;
/// with less than that the tiers end.
pub open spec fn row_tiers<Q: Fn(String) -> Option<u64>>(rows: Seq<Seq<char>>, i: int, n: int, q: Q) -> Result<
    Seq<TierView>,
    GridFault,
>
    decreases n,
{
    if n <= 0 || i + 4 > rows.len() {
        Ok(seq![])
    } else {
        match grid_number(rows[i + 2], q) {
            Err(x) => Err(x),
            Ok(xmin) => match grid_number(rows[i + 3], q) {
                Err(x) => Err(x),
                Ok(xmax) => if i + 4 == rows.len() {
                    Err(GridFault::Truncated)
                } else {
                    match number_in(rows[i + 4], usize::MAX as int) {
                        None => Err(GridFault::EntryCount(rows[i + 4])),
                        Some(count) => if unquoted(rows[i]) == "IntervalTier"@ {
                            match row_intervals(rows, i + 5, count, q) {
                                Err(x) => Err(x),
                                Ok(intervals) => match row_tiers(
                                    rows,
                                    i + 5 + count * 3,
                                    n - 1,
                                    q,
                                ) {
                                    Err(x) => Err(x),
                                    Ok(rest) => Ok(
                                        seq![
                                            TierView {
                                                name: unquoted(rows[i + 1]),
                                                xmin,
                                                xmax,
                                                intervals,
                                            },
                                        ] + rest,
                                    ),
                                },
                            }
                        } else {
                            row_tiers(rows, i + 5 + count * 2, n - 1, q)
                        },
                    }
                },
            },
        }
    }
}

/// The TextGrid in the rows of a text in the short format.
pub open spec fn short_grid<Q: Fn(String) -> Option<u64>>(rows: Seq<Seq<char>>, q: Q) -> Result<
    GridView,
    GridFault,
> {
    if rows.len() < 4 {
        Err(GridFault::Truncated)
    } else {
        match grid_number(rows[0], q) {
            Err(x) => Err(x),
            Ok(xmin) => match grid_number(rows[1], q) {
                Err(x) => Err(x),
                Ok(xmax) => {
                    let at: int = if holds(rows[2], "exists"@) {
                        3
                    } else {
                        2
                    };
                    match number_in(rows[at], usize::MAX as int) {
                        None => Err(GridFault::TierCount(rows[at])),
                        Some(n) => match row_tiers(rows, at + 1, n, q) {
                            Err(x) => Err(x),
                            Ok(tiers) => Ok(GridView { xmin, xmax, tiers }),
                        },
                    }
                },
            },
        }
    }
}

/// A text without carriage returns at its line ends and without a mark at its start.
pub open spec fn plain_text(s: Seq<char>) -> Seq<char> {
    trimmed_start(replaced(s, "\r\n"@, "\n"@), seq!['\u{feff}'])
}

/// The text is in the short format: it says so, or it has no items.
pub open spec fn is_short(s: Seq<char>) -> bool {
    holds(s, "ooTextFile short"@) || !holds(s, "item ["@)
}

/// The TextGrid in a text.
pub open spec fn grid_in<Q: Fn(String) -> Option<u64>>(s: Seq<char>, q: Q) -> Result<GridView, GridFault> {
    let data = plain_text(s);
    let lines = lines_of(data);
    if is_short(data) {
        short_grid(short_rows(lines, lines.len() as int), q)
    } else {
        long_grid(lines, q)
    }
}

fn one_char(c: char) -> (r: Vec<char>)
    ensures
        r@ == seq![c],
{
    let mut v: Vec<char> = Vec::new();
    v.push(c);
    assert(v@ =~= seq![c]);
    v
}

fn find_value<'a>(line: &'a [char], key: &str, spaces: &[char]) -> (r: Option<&'a [char]>)
    requires
        spaces@ == SPACES@,
    ensures
        (match r {
            Some(v) => Some(v@),
            None => None,
        }) == value_in(line@, key@),
{
    let t = trim(line, spaces);
    if !has_prefix(t, key) {
        return None;
    }
    let k = chars_of(key);
    assert(t@.subrange(k@.len() as int, t@.len() as int) =~= t@.skip(key@.len() as int));
    let rest = trim_start(slice_subrange(t, k.len(), t.len()), spaces);
    if rest.len() == 0 || rest[0] != '=' {
        return None;
    }
    let equals = one_char('=');
    Some(trim(trim_start(rest, equals.as_slice()), spaces))
}

/// The first line from `from` on that has a key, and what follows its equals sign.
pub fn field_after<'a>(lines: &Vec<&'a [char]>, from: usize, key: &str, spaces: &[char]) -> (r: Option<
    (usize, &'a [char]),
>)
    requires
        spaces@ == SPACES@,
    ensures
        (match r {
            Some(x) => Some((x.0 as int, x.1@)),
            None => None,
        }) == field_from(views(lines@), from as int, key@),
        r matches Some(x) ==> from <= x.0 < lines@.len(),
{
    let ghost all = views(lines@);
    let mut i: usize = from;
    while i < lines.len()
        invariant
            spaces@ == SPACES@,
            all == views(lines@),
            from <= i,
            field_from(all, from as int, key@) == field_from(all, i as int, key@),
        decreases lines.len() - i,
    {
        assert(all[i as int] == lines@[i as int]@);
        match find_value(lines[i], key, spaces) {
            Some(v) => {
                return Some((i, v));
            },
            None => {},
        }
        i += 1;
    }
    None
}

fn parse_num<Q: Fn(String) -> Option<u64>>(v: &[char], spaces: &[char], q: &Q) -> (r: Result<u64, GridError>)
    requires
        is_reader(*q),
        spaces@ == SPACES@,
    ensures
        (match r {
            Ok(x) => Ok(x),
            Err(e) => Err(e@),
        }) == grid_number(v@, *q),
{
    let quotes = one_char('"');
    let inner = trim(trim(v, spaces), quotes.as_slice());
    match read(q, string_of(inner)) {
        Some(x) => Ok(x),
        None => Err(GridError::NotANumber(string_of(v))),
    }
}

/// A text without the quotes around it.
pub fn unquote(v: &[char], spaces: &[char]) -> (r: String)
    requires
        spaces@ == SPACES@,
    ensures
        r@ == unquoted(v@),
{
    proof {
        reveal_strlit("\"\"");
    }
    let t = trim(v, spaces);
    let n: usize = t.len();
    let inner = if n >= 2 && t[0] == '"' && t[n - 1] == '"' {
        slice_subrange(t, 1, n - 1)
    } else {
        t
    };
    let plain = replace(inner, "\"\"", "\"");
    string_of(trim(plain.as_slice(), spaces))
}

/// The first quote that is not doubled.
pub fn find_closing_quote(s: &[char]) -> (r: Option<usize>)
    ensures
        (match r {
            Some(i) => Some(i as int),
            None => None,
        }) == closing_quote(s@, 0),
        r matches Some(i) ==> i < s@.len(),
{
    let n: usize = s.len();
    let mut i: usize = 0;
    while i < n
        invariant
            n == s@.len(),
            closing_quote(s@, 0) == closing_quote(s@, i as int),
        decreases n - i,
    {
        if s[i] == '"' {
            if n - i > 1 && s[i + 1] == '"' {
                if n - i == 2 {
                    assert(closing_quote(s@, i + 2) is None);
                    return None;
                }
                i += 2;
            } else {
                return Some(i);
            }
        } else {
            i += 1;
        }
    }
    None
}

/// What reading a text field leads to.
pub open spec fn label_view(r: Result<(usize, String), GridError>) -> Result<(int, Seq<char>), GridFault> {
    match r {
        Ok(x) => Ok((x.0 as int, x.1@)),
        Err(e) => Err(e@),
    }
}

/// The text field from line `from` on, which may span several lines, and its last line.
pub fn read_text_field(block: &Vec<&[char]>, from: usize, spaces: &[char]) -> (r: Result<
    (usize, String),
    GridError,
>)
    requires
        spaces@ == SPACES@,
    ensures
        label_view(r) == text_field(views(block@), from as int),
{
    let ghost all = views(block@);
    let n: usize = block.len();
    match field_after(block, from, "text", spaces) {
        None => Err(GridError::MissingText),
        Some((i, v)) => {
            let raw = trim_start(v, spaces);
            if raw.len() == 0 || raw[0] != '"' {
                return Ok((i, unquote(raw, spaces)));
            }
            proof {
                reveal_strlit("\"\"");
                reveal_strlit("\n");
            }
            let mut buf: Vec<char> = Vec::new();
            buf.extend_from_slice(slice_subrange(raw, 1, raw.len()));
            assert(buf@ =~= raw@.skip(1));
            let mut idx: usize = i;
            loop
                invariant
                    spaces@ == SPACES@,
                    all == views(block@),
                    n == block@.len(),
                    idx < n,
                    "\"\""@.len() > 0,
                    "\n"@ == seq!['\n'],
                    text_field(all, from as int) == label_from(all, idx as int, buf@),
                decreases n - idx,
            {
                match find_closing_quote(buf.as_slice()) {
                    Some(end) => {
                        assert(buf@.subrange(0, end as int) =~= buf@.take(end as int));
                        let inner = replace(
                            slice_subrange(buf.as_slice(), 0, end),
                            "\"\"",
                            "\"",
                        );
                        return Ok((idx, string_of(trim(inner.as_slice(), spaces))));
                    },
                    None => {},
                }
                if n - idx <= 1 {
                    return Err(GridError::Unterminated);
                }
                let ghost before = buf@;
                buf.push('\n');
                buf.extend_from_slice(block[idx + 1]);
                proof {
                    assert(all[idx + 1] == block@[idx + 1]@);
                    assert(buf@ =~= before + "\n"@ + all[idx + 1]);
                }
                idx += 1;
            }
        },
    }
}

fn parse_interval<Q: Fn(String) -> Option<u64>>(block: &Vec<&[char]>, i: usize, spaces: &[char], q: &Q) -> (r:
    Result<(usize, Interval), GridError>)
    requires
        is_reader(*q),
        spaces@ == SPACES@,
        i < block@.len(),
    ensures
        (match r {
            Ok(x) => Ok((x.0 as int, x.1@)),
            Err(e) => Err(e@),
        }) == one_interval(views(block@), i as int, *q),
        r matches Ok(x) ==> i < x.0 < block@.len(),
{
    let ghost all = views(block@);
    let n: usize = block.len();
    assert(i + 1 <= n);
    proof {
        interval_is_later(all, i as int, *q);
    }
    match field_after(block, i + 1, "xmin", spaces) {
        None => Err(GridError::IntervalXmin),
        Some((a, s)) => {
            assert(a + 1 <= n);
            match field_after(block, a + 1, "xmax", spaces) {
                None => Err(GridError::IntervalXmax),
                Some((b, e)) => {
                    assert(b + 1 <= n);
                    let (c, text) = match read_text_field(block, b + 1, spaces) {
                        Ok(x) => x,
                        Err(x) => {
                            return Err(x);
                        },
                    };
                    let xmin: u64 = match parse_num(s, spaces, q) {
                        Ok(x) => x,
                        Err(x) => {
                            return Err(x);
                        },
                    };
                    let xmax: u64 = match parse_num(e, spaces, q) {
                        Ok(x) => x,
                        Err(x) => {
                            return Err(x);
                        },
                    };
                    let iv = Interval { xmin, xmax, text };
                    Ok((c, iv))
                },
            }
        },
    }
}

/// What reading intervals leads to.
pub open spec fn intervals_view(r: Result<Vec<Interval>, GridError>) -> Result<Seq<IntervalView>, GridFault> {
    match r {
        Ok(v) => Ok(interval_views(v@)),
        Err(e) => Err(e@),
    }
}

/// Intervals before others.
pub open spec fn before_intervals(
    done: Seq<IntervalView>,
    rest: Result<Seq<IntervalView>, GridFault>,
) -> Result<Seq<IntervalView>, GridFault> {
    match rest {
        Ok(v) => Ok(done + v),
        Err(x) => Err(x),
    }
}

fn parse_intervals<Q: Fn(String) -> Option<u64>>(
    block: &Vec<&[char]>,
    from: usize,
    spaces: &[char],
    q: &Q,
) -> (r: Result<Vec<Interval>, GridError>)
    requires
        is_reader(*q),
        spaces@ == SPACES@,
    ensures
        intervals_view(r) == intervals_from(views(block@), from as int, *q),
{
    let ghost all = views(block@);
    let n: usize = block.len();
    let mut out: Vec<Interval> = Vec::new();
    let ghost want = intervals_from(all, from as int, *q);
    proof {
        assert(interval_views(out@) =~= seq![]);
        if want is Ok {
            assert(Seq::<IntervalView>::empty() + want->Ok_0 =~= want->Ok_0);
        }
        assert(before_intervals(interval_views(out@), want) == want);
    }
    let mut i: usize = from;
    while i < n
        invariant
            is_reader(*q),
            spaces@ == SPACES@,
            all == views(block@),
            n == block@.len(),
            want == before_intervals(interval_views(out@), intervals_from(all, i as int, *q)),
            intervals_from(all, from as int, *q) == want,
        decreases n - i,
    {
        assert(all[i as int] == block@[i as int]@);
        if !has_prefix(trim_start(block[i], spaces), "intervals [") {
            i += 1;
        } else {
            match parse_interval(block, i, spaces, q) {
                Err(x) => {
                    return Err(x);
                },
                Ok((c, iv)) => {
                    let ghost had = out@;
                    let ghost ivv = iv@;
                    out.push(iv);
                    proof {
                        assert(interval_views(out@) =~= interval_views(had).push(ivv));
                        let rest = intervals_from(all, c + 1, *q);
                        if rest is Ok {
                            assert(interval_views(had) + (seq![ivv] + rest->Ok_0) =~= interval_views(
                                out@,
                            ) + rest->Ok_0);
                        }
                    }
                    i = c + 1;
                },
            }
        }
    }
    proof {
        assert(intervals_from(all, i as int, *q) == Ok::<Seq<IntervalView>, GridFault>(seq![]));
        assert(interval_views(out@) + Seq::<IntervalView>::empty() =~= interval_views(out@));
    }
    Ok(out)
}

/// What reading a tier leads to.
pub open spec fn tier_view(r: Result<Option<IntervalTier>, GridError>) -> Result<Option<TierView>, GridFault> {
    match r {
        Ok(Some(t)) => Ok(Some(t@)),
        Ok(None) => Ok(None),
        Err(e) => Err(e@),
    }
}

fn parse_long_tier<Q: Fn(String) -> Option<u64>>(block: &Vec<&[char]>, spaces: &[char], q: &Q) -> (r: Result<
    Option<IntervalTier>,
    GridError,
>)
    requires
        is_reader(*q),
        spaces@ == SPACES@,
    ensures
        tier_view(r) == tier_in(views(block@), *q),
{
    let n: usize = block.len();
    match field_after(block, 0, "class", spaces) {
        None => {
            return Ok(None);
        },
        Some((i, v)) => {
            if !same_text(unquote(v, spaces).as_str(), "IntervalTier") {
                return Ok(None);
            }
        },
    }
    let name = match field_after(block, 0, "name", spaces) {
        Some((i, v)) => unquote(v, spaces),
        None => {
            let s = String::new();
            assert(s@ =~= seq![]);
            s
        },
    };
    let (a, s) = match field_after(block, 0, "xmin", spaces) {
        Some(x) => x,
        None => {
            return Err(GridError::TierXmin);
        },
    };
    let xmin: u64 = match parse_num(s, spaces, q) {
        Ok(x) => x,
        Err(x) => {
            return Err(x);
        },
    };
    let (b, e) = match field_after(block, a, "xmax", spaces) {
        Some(x) => x,
        None => {
            return Err(GridError::TierXmax);
        },
    };
    let xmax: u64 = match parse_num(e, spaces, q) {
        Ok(x) => x,
        Err(x) => {
            return Err(x);
        },
    };
    assert(b + 1 <= n);
    match parse_intervals(block, b + 1, spaces, q) {
        Err(x) => Err(x),
        Ok(intervals) => Ok(Some(IntervalTier { name, xmin, xmax, intervals })),
    }
}

fn find_tier(lines: &Vec<&[char]>, from: usize, spaces: &[char]) -> (r: usize)
    requires
        spaces@ == SPACES@,
        from <= lines@.len(),
    ensures
        r == next_tier(views(lines@), from as int),
        from <= r <= lines@.len(),
{
    let ghost all = views(lines@);
    let mut i: usize = from;
    while i < lines.len()
        invariant
            spaces@ == SPACES@,
            all == views(lines@),
            from <= i <= lines@.len(),
            next_tier(all, from as int) == next_tier(all, i as int),
        decreases lines.len() - i,
    {
        assert(all[i as int] == lines@[i as int]@);
        let t = trim(lines[i], spaces);
        if has_prefix(t, "item [") {
            let header: bool = has_prefix(t, "item []");
            if !header {
                return i;
            }
        }
        i += 1;
    }
    i
}

/// What reading tiers leads to.
pub open spec fn tiers_view(r: Result<Vec<IntervalTier>, GridError>) -> Result<Seq<TierView>, GridFault> {
    match r {
        Ok(v) => Ok(tier_views(v@)),
        Err(e) => Err(e@),
    }
}

/// Tiers before others.
pub open spec fn before_tiers(done: Seq<TierView>, rest: Result<Seq<TierView>, GridFault>) -> Result<
    Seq<TierView>,
    GridFault,
> {
    match rest {
        Ok(v) => Ok(done + v),
        Err(x) => Err(x),
    }
}

fn parse_tiers<Q: Fn(String) -> Option<u64>>(lines: &Vec<&[char]>, from: usize, spaces: &[char], q: &Q) -> (r:
    Result<Vec<IntervalTier>, GridError>)
    requires
        is_reader(*q),
        spaces@ == SPACES@,
        from <= lines@.len(),
    ensures
        tiers_view(r) == tiers_from(views(lines@), from as int, *q),
{
    let ghost all = views(lines@);
    let n: usize = lines.len();
    let mut out: Vec<IntervalTier> = Vec::new();
    let ghost want = tiers_from(all, from as int, *q);
    proof {
        assert(tier_views(out@) =~= seq![]);
        if want is Ok {
            assert(Seq::<TierView>::empty() + want->Ok_0 =~= want->Ok_0);
        }
        assert(before_tiers(tier_views(out@), want) == want);
    }
    let mut i: usize = from;
    while i < n
        invariant
            is_reader(*q),
            spaces@ == SPACES@,
            all == views(lines@),
            n == lines@.len(),
            i <= n,
            want == before_tiers(tier_views(out@), tiers_from(all, i as int, *q)),
            tiers_from(all, from as int, *q) == want,
        decreases n - i,
    {
        let end: usize = find_tier(lines, i + 1, spaces);
        let mut block: Vec<&[char]> = Vec::new();
        let mut k: usize = i;
        while k < end
            invariant
                n == lines@.len(),
                i <= k <= end <= n,
                block@ == lines@.subrange(i as int, k as int),
            decreases end - k,
        {
            block.push(lines[k]);
            assert(block@ =~= lines@.subrange(i as int, k + 1));
            k += 1;
        }
        assert(views(block@) =~= all.subrange(i as int, end as int));
        match parse_long_tier(&block, spaces, q) {
            Err(x) => {
                return Err(x);
            },
            Ok(None) => {},
            Ok(Some(t)) => {
                let ghost had = out@;
                let ghost tv = t@;
                out.push(t);
                proof {
                    assert(tier_views(out@) =~= tier_views(had).push(tv));
                    let rest = tiers_from(all, end as int, *q);
                    if rest is Ok {
                        assert(tier_views(had) + (seq![tv] + rest->Ok_0) =~= tier_views(out@)
                            + rest->Ok_0);
                    }
                }
            },
        }
        i = end;
    }
    proof {
        assert(tiers_from(all, i as int, *q) == Ok::<Seq<TierView>, GridFault>(seq![]));
        assert(tier_views(out@) + Seq::<TierView>::empty() =~= tier_views(out@));
    }
    Ok(out)
}

/// What reading a TextGrid leads to.
pub open spec fn grid_view(r: Result<TextGrid, GridError>) -> Result<GridView, GridFault> {
    match r {
        Ok(g) => Ok(g@),
        Err(e) => Err(e@),
    }
}

/// The TextGrid in the lines of a text in the long format.
pub fn parse_long<Q: Fn(String) -> Option<u64>>(lines: &Vec<&[char]>, q: &Q) -> (r: Result<
    TextGrid,
    GridError,
>)
    requires
        is_reader(*q),
    ensures
        grid_view(r) == long_grid(views(lines@), *q),
{
    let sp = chars_of(SPACES);
    let spaces = sp.as_slice();
    let (a, s) = match field_after(lines, 0, "xmin", spaces) {
        Some(x) => x,
        None => {
            return Err(GridError::MissingXmin);
        },
    };
    let xmin: u64 = match parse_num(s, spaces, q) {
        Ok(x) => x,
        Err(x) => {
            return Err(x);
        },
    };
    let (b, e) = match field_after(lines, 0, "xmax", spaces) {
        Some(x) => x,
        None => {
            return Err(GridError::MissingXmax);
        },
    };
    let xmax: u64 = match parse_num(e, spaces, q) {
        Ok(x) => x,
        Err(x) => {
            return Err(x);
        },
    };
    let start: usize = find_tier(lines, b, spaces);
    match parse_tiers(lines, start, spaces, q) {
        Err(x) => Err(x),
        Ok(tiers) => Ok(TextGrid { xmin, xmax, tiers }),
    }
}

fn find_rows<'a>(lines: &Vec<&'a [char]>, spaces: &[char]) -> (r: Vec<&'a [char]>)
    requires
        spaces@ == SPACES@,
    ensures
        views(r@) == short_rows(views(lines@), lines@.len() as int),
{
    let ghost all = views(lines@);
    let mut rows: Vec<&'a [char]> = Vec::new();
    assert(views(rows@) =~= seq![]);
    let mut i: usize = 0;
    while i < lines.len()
        invariant
            spaces@ == SPACES@,
            all == views(lines@),
            i <= lines@.len(),
            views(rows@) == short_rows(all, i as int),
        decreases lines.len() - i,
    {
        assert(all[i as int] == lines@[i as int]@);
        let t = trim(lines[i], spaces);
        let head: bool = has_prefix(t, "File type") || has_prefix(t, "Object class");
        if t.len() > 0 && !head {
            let ghost had = rows@;
            rows.push(t);
            assert(views(rows@) =~= views(had).push(t@));
        }
        i += 1;
    }
    rows
}

fn parse_row_intervals<Q: Fn(String) -> Option<u64>>(
    rows: &Vec<&[char]>,
    from: usize,
    count: usize,
    spaces: &[char],
    q: &Q,
) -> (r: Result<Vec<Interval>, GridError>)
    requires
        is_reader(*q),
        spaces@ == SPACES@,
        from <= rows@.len(),
    ensures
        intervals_view(r) == row_intervals(views(rows@), from as int, count as int, *q),
{
    let ghost all = views(rows@);
    let n: usize = rows.len();
    let mut out: Vec<Interval> = Vec::new();
    let ghost want = row_intervals(all, from as int, count as int, *q);
    proof {
        assert(interval_views(out@) =~= seq![]);
        if want is Ok {
            assert(Seq::<IntervalView>::empty() + want->Ok_0 =~= want->Ok_0);
        }
        assert(before_intervals(interval_views(out@), want) == want);
    }
    let mut i: usize = from;
    let mut left: usize = count;
    while left > 0 && n - i >= 3
        invariant
            is_reader(*q),
            spaces@ == SPACES@,
            all == views(rows@),
            n == rows@.len(),
            i <= n,
            want == before_intervals(
                interval_views(out@),
                row_intervals(all, i as int, left as int, *q),
            ),
            row_intervals(all, from as int, count as int, *q) == want,
        decreases left,
    {
        proof {
            assert(all[i as int] == rows@[i as int]@);
            assert(all[i + 1] == rows@[i + 1]@);
            assert(all[i + 2] == rows@[i + 2]@);
        }
        let xmin: u64 = match parse_num(rows[i], spaces, q) {
            Ok(x) => x,
            Err(x) => {
                return Err(x);
            },
        };
        let xmax: u64 = match parse_num(rows[i + 1], spaces, q) {
            Ok(x) => x,
            Err(x) => {
                return Err(x);
            },
        };
        let iv = Interval { xmin, xmax, text: unquote(rows[i + 2], spaces) };
        let ghost had = out@;
        let ghost ivv = iv@;
        out.push(iv);
        proof {
            assert(interval_views(out@) =~= interval_views(had).push(ivv));
            let rest = row_intervals(all, i + 3, left - 1, *q);
            if rest is Ok {
                assert(interval_views(had) + (seq![ivv] + rest->Ok_0) =~= interval_views(out@)
                    + rest->Ok_0);
            }
        }
        i += 3;
        left -= 1;
    }
    proof {
        assert(row_intervals(all, i as int, left as int, *q) == Ok::<Seq<IntervalView>, GridFault>(
            seq![],
        ));
        assert(interval_views(out@) + Seq::<IntervalView>::empty() =~= interval_views(out@));
    }
    Ok(out)
}

proof fn no_rows_left<Q: Fn(String) -> Option<u64>>(rows: Seq<Seq<char>>, i: int, n: int, q: Q)
    requires
        i + 4 > rows.len(),
    ensures
        row_tiers(rows, i, n, q) == Ok::<Seq<TierView>, GridFault>(seq![]),
{
}

fn parse_row_tiers<Q: Fn(String) -> Option<u64>>(
    rows: &Vec<&[char]>,
    from: usize,
    count: usize,
    spaces: &[char],
    q: &Q,
) -> (r: Result<Vec<IntervalTier>, GridError>)
    requires
        is_reader(*q),
        spaces@ == SPACES@,
        from <= rows@.len(),
    ensures
        tiers_view(r) == row_tiers(views(rows@), from as int, count as int, *q),
{
    let ghost all = views(rows@);
    let n: usize = rows.len();
    let mut out: Vec<IntervalTier> = Vec::new();
    let ghost want = row_tiers(all, from as int, count as int, *q);
    proof {
        assert(tier_views(out@) =~= seq![]);
        if want is Ok {
            assert(Seq::<TierView>::empty() + want->Ok_0 =~= want->Ok_0);
        }
        assert(before_tiers(tier_views(out@), want) == want);
    }
    let mut i: usize = from;
    let mut left: usize = count;
    while left > 0 && n - i >= 4
        invariant
            is_reader(*q),
            spaces@ == SPACES@,
            all == views(rows@),
            n == rows@.len(),
            i <= n,
            want == before_tiers(tier_views(out@), row_tiers(all, i as int, left as int, *q)),
            row_tiers(all, from as int, count as int, *q) == want,
        decreases left,
    {
        proof {
            assert(all[i as int] == rows@[i as int]@);
            assert(all[i + 1] == rows@[i + 1]@);
            assert(all[i + 2] == rows@[i + 2]@);
            assert(all[i + 3] == rows@[i + 3]@);
        }
        let class = unquote(rows[i], spaces);
        let name = unquote(rows[i + 1], spaces);
        let xmin: u64 = match parse_num(rows[i + 2], spaces, q) {
            Ok(x) => x,
            Err(x) => {
                return Err(x);
            },
        };
        let xmax: u64 = match parse_num(rows[i + 3], spaces, q) {
            Ok(x) => x,
            Err(x) => {
                return Err(x);
            },
        };
        if n - i == 4 {
            return Err(GridError::Truncated);
        }
        assert(all[i + 4] == rows@[i + 4]@);
        let entries: usize = match parse_number(rows[i + 4], usize::MAX as u64) {
            Some(x) => x as usize,
            None => {
                return Err(GridError::EntryCount(string_of(rows[i + 4])));
            },
        };
        let start: usize = i + 5;
        let is_interval: bool = same_text(class.as_str(), "IntervalTier");
        let stride: usize = if is_interval {
            3
        } else {
            2
        };
        let ghost after = start + entries * stride;
        let next: usize = if entries > (n - start) / stride {
            n
        } else {
            assert(entries * stride <= n - start) by (nonlinear_arith)
                requires
                    entries as int <= (n - start) as int / stride as int,
                    stride == 3 || stride == 2,
                    n - start >= 0,
            ;
            start + entries * stride
        };
        proof {
            if entries > (n - start) as int / stride as int {
                assert(entries * stride > n - start - stride) by (nonlinear_arith)
                    requires
                        entries as int > (n - start) as int / stride as int,
                        stride == 3 || stride == 2,
                        n - start >= 0,
                ;
                no_rows_left(all, after, left - 1, *q);
                no_rows_left(all, n as int, left - 1, *q);
            }
        }
        if is_interval {
            match parse_row_intervals(rows, start, entries, spaces, q) {
                Err(x) => {
                    return Err(x);
                },
                Ok(intervals) => {
                    let t = IntervalTier { name, xmin, xmax, intervals };
                    let ghost had = out@;
                    let ghost tv = t@;
                    out.push(t);
                    proof {
                        assert(tier_views(out@) =~= tier_views(had).push(tv));
                        let rest = row_tiers(all, after, left - 1, *q);
                        if rest is Ok {
                            assert(tier_views(had) + (seq![tv] + rest->Ok_0) =~= tier_views(out@)
                                + rest->Ok_0);
                        }
                    }
                },
            }
        }
        i = next;
        left -= 1;
    }
    proof {
        assert(row_tiers(all, i as int, left as int, *q) == Ok::<Seq<TierView>, GridFault>(seq![]));
        assert(tier_views(out@) + Seq::<TierView>::empty() =~= tier_views(out@));
    }
    Ok(out)
}

/// The TextGrid in the lines of a text in the short format.
pub fn parse_short<Q: Fn(String) -> Option<u64>>(lines: &Vec<&[char]>, q: &Q) -> (r: Result<
    TextGrid,
    GridError,
>)
    requires
        is_reader(*q),
    ensures
        grid_view(r) == short_grid(short_rows(views(lines@), lines@.len() as int), *q),
{
    let sp = chars_of(SPACES);
    let spaces = sp.as_slice();
    let rows = find_rows(lines, spaces);
    let ghost all = views(rows@);
    if rows.len() < 4 {
        return Err(GridError::Truncated);
    }
    proof {
        assert(all[0] == rows@[0]@);
        assert(all[1] == rows@[1]@);
        assert(all[2] == rows@[2]@);
        assert(all[3] == rows@[3]@);
    }
    let xmin: u64 = match parse_num(rows[0], spaces, q) {
        Ok(x) => x,
        Err(x) => {
            return Err(x);
        },
    };
    let xmax: u64 = match parse_num(rows[1], spaces, q) {
        Ok(x) => x,
        Err(x) => {
            return Err(x);
        },
    };
    let at: usize = if has(rows[2], "exists") {
        3
    } else {
        2
    };
    let count: usize = match parse_number(rows[at], usize::MAX as u64) {
        Some(x) => x as usize,
        None => {
            return Err(GridError::TierCount(string_of(rows[at])));
        },
    };
    match parse_row_tiers(&rows, at + 1, count, spaces, q) {
        Err(x) => Err(x),
        Ok(tiers) => Ok(TextGrid { xmin, xmax, tiers }),
    }
}

impl TextGrid {
    /// The TextGrid in a text, in either format. `q` reads double-precision numbers.
    pub fn from_str<Q: Fn(String) -> Option<u64>>(s: &str, q: &Q) -> (r: Result<Self, GridError>)
        requires
            is_reader(*q),
        ensures
            grid_view(r) == grid_in(s@, *q),
    {
        proof {
            reveal_strlit("\r\n");
        }
        let cs = chars_of(s);
        let unix = replace(cs.as_slice(), "\r\n", "\n");
        let mark = one_char('\u{feff}');
        let data = trim_start(unix.as_slice(), mark.as_slice());
        let lines = split_lines(data);
        let named: bool = has(data, "ooTextFile short");
        let items: bool = has(data, "item [");
        if named || !items {
            parse_short(&lines, q)
        } else {
            parse_long(&lines, q)
        }
    }

    /// The TextGrid in the bytes of a file.
    pub fn read<Q: Fn(String) -> Option<u64>>(bytes: &[u8], q: &Q) -> (r: Result<Self, GridError>)
        requires
            is_reader(*q),
            bytes@.len() <= usize::MAX / 8,
        ensures
            grid_view(r) == grid_in(decoded(bytes@), *q),
    {
        Self::from_str(decode_bytes(bytes).as_str(), q)
    }
}

/// The text in the bytes of a file: UTF-16 or UTF-8 by the mark that they start with, UTF-8 without
/// one.
pub fn decode_bytes(bytes: &[u8]) -> (r: String)
    requires
        bytes@.len() <= usize::MAX / 8,
    ensures
        r@ == decoded(bytes@),
        !is_marked(bytes@) && vstd::utf8::valid_utf8(bytes@) ==> r@ == vstd::utf8::decode_utf8(
            bytes@,
        ),
        is_utf8_marked(bytes@) && vstd::utf8::valid_utf8(bytes@.skip(3)) ==> r@
            == vstd::utf8::decode_utf8(bytes@.skip(3)),
{
    decode_text(bytes)
}

} // verus!
