//! Taking text apart: trimming, lines, words, pieces between separators, numbers.

use vstd::prelude::*;
use vstd::slice::slice_subrange;

use crate::text::chars_of;

verus! {

/// The characters that Unicode calls white space.
pub const SPACES: &'static str =
    "\t\n\u{b}\u{c}\r \u{85}\u{a0}\u{1680}\u{2000}\u{2001}\u{2002}\u{2003}\u{2004}\u{2005}\u{2006}\u{2007}\u{2008}\u{2009}\u{200a}\u{2028}\u{2029}\u{202f}\u{205f}\u{3000}";

/// Whether a character is among some.
pub fn is_one_of(c: char, set: &[char]) -> (r: bool)
    ensures
        r == set@.contains(c),
{
    let mut i: usize = 0;
    while i < set.len()
        invariant
            i <= set@.len(),
            forall|k: int| 0 <= k < i ==> set@[k] != c,
        decreases set.len() - i,
    {
        if set[i] == c {
            assert(set@.contains(c));
            return true;
        }
        i += 1;
    }
    false
}

/// A text without the characters of `set` that it starts with.
pub open spec fn trimmed_start(s: Seq<char>, set: Seq<char>) -> Seq<char>
    decreases s.len(),
{
    if s.len() > 0 && set.contains(s[0]) {
        trimmed_start(s.skip(1), set)
    } else {
        s
    }
}

/// A text without the characters of `set` that it ends in.
pub open spec fn trimmed_end(s: Seq<char>, set: Seq<char>) -> Seq<char>
    decreases s.len(),
{
    if s.len() > 0 && set.contains(s.last()) {
        trimmed_end(s.drop_last(), set)
    } else {
        s
    }
}

/// A text without the characters of `set` at both ends.
pub open spec fn trimmed(s: Seq<char>, set: Seq<char>) -> Seq<char> {
    trimmed_end(trimmed_start(s, set), set)
}

/// Take characters off the start.
pub fn trim_start<'a>(s: &'a [char], set: &[char]) -> (r: &'a [char])
    ensures
        r@ == trimmed_start(s@, set@),
{
    let n: usize = s.len();
    let mut i: usize = 0;
    assert(s@.skip(0) =~= s@);
    while i < n && is_one_of(s[i], set)
        invariant
            i <= n,
            n == s@.len(),
            trimmed_start(s@, set@) == trimmed_start(s@.skip(i as int), set@),
        decreases n - i,
    {
        assert(s@.skip(i as int).skip(1) =~= s@.skip(i + 1));
        i += 1;
    }
    assert(s@.subrange(i as int, n as int) =~= s@.skip(i as int));
    slice_subrange(s, i, n)
}

/// Take characters off the end.
pub fn trim_end<'a>(s: &'a [char], set: &[char]) -> (r: &'a [char])
    ensures
        r@ == trimmed_end(s@, set@),
{
    let mut n: usize = s.len();
    assert(s@.take(n as int) =~= s@);
    while n > 0 && is_one_of(s[n - 1], set)
        invariant
            n <= s@.len(),
            trimmed_end(s@, set@) == trimmed_end(s@.take(n as int), set@),
        decreases n,
    {
        assert(s@.take(n as int).drop_last() =~= s@.take(n - 1));
        n -= 1;
    }
    assert(s@.subrange(0, n as int) =~= s@.take(n as int));
    slice_subrange(s, 0, n)
}

/// Take characters off both ends.
pub fn trim<'a>(s: &'a [char], set: &[char]) -> (r: &'a [char])
    ensures
        r@ == trimmed(s@, set@),
{
    trim_end(trim_start(s, set), set)
}

/// How many characters at the start are none of `set`.
pub open spec fn run(s: Seq<char>, set: Seq<char>) -> nat
    decreases s.len(),
{
    if s.len() == 0 || set.contains(s[0]) {
        0
    } else {
        1 + run(s.skip(1), set)
    }
}

/// A run does not reach beyond the text.
pub proof fn run_fits(s: Seq<char>, set: Seq<char>)
    ensures
        run(s, set) <= s.len(),
        run(s, set) < s.len() ==> set.contains(s[run(s, set) as int]),
        forall|i: int| 0 <= i < run(s, set) ==> !set.contains(#[trigger] s[i]),
    decreases s.len(),
{
    if s.len() > 0 && !set.contains(s[0]) {
        run_fits(s.skip(1), set);
        let k = run(s.skip(1), set);
        assert forall|i: int| 0 <= i < 1 + k implies !set.contains(#[trigger] s[i]) by {
            if i > 0 {
                assert(s.skip(1)[i - 1] == s[i]);
            }
        }
    }
}

/// How many characters at the start are none of `set`.
pub fn run_len(s: &[char], set: &[char]) -> (r: usize)
    ensures
        r == run(s@, set@),
        r <= s@.len(),
{
    let n: usize = s.len();
    let mut i: usize = 0;
    assert(s@.skip(0) =~= s@);
    while i < n && !is_one_of(s[i], set)
        invariant
            i <= n,
            n == s@.len(),
            run(s@, set@) == i + run(s@.skip(i as int), set@),
        decreases n - i,
    {
        assert(s@.skip(i as int).skip(1) =~= s@.skip(i + 1));
        i += 1;
    }
    i
}

/// The words of a text: the longest pieces without a character of `set`.
pub open spec fn words_of(s: Seq<char>, set: Seq<char>) -> Seq<Seq<char>>
    decreases s.len(),
{
    proof {
        run_fits(s, set);
    }
    if s.len() == 0 {
        seq![]
    } else if set.contains(s[0]) {
        words_of(s.skip(1), set)
    } else {
        seq![s.take(run(s, set) as int)] + words_of(s.skip(run(s, set) as int), set)
    }
}

/// The texts of a list of character slices.
pub open spec fn views(v: Seq<&[char]>) -> Seq<Seq<char>> {
    Seq::new(v.len(), |i: int| v[i]@)
}

/// Adding to a list adds to its texts.
pub proof fn views_push(v: Seq<&[char]>, x: &[char])
    ensures
        views(v.push(x)) == views(v).push(x@),
{
    assert(views(v.push(x)) =~= views(v).push(x@));
}

/// The words of a text.
pub fn split_words<'a>(s: &'a [char], set: &[char]) -> (r: Vec<&'a [char]>)
    ensures
        views(r@) == words_of(s@, set@),
{
    let n: usize = s.len();
    let mut out: Vec<&'a [char]> = Vec::new();
    let mut i: usize = 0;
    proof {
        assert(s@.skip(0) =~= s@);
        assert(views(out@) + words_of(s@, set@) =~= words_of(s@, set@));
    }
    while i < n
        invariant
            i <= n,
            n == s@.len(),
            words_of(s@, set@) == views(out@) + words_of(s@.skip(i as int), set@),
        decreases n - i,
    {
        let ghost rest = s@.skip(i as int);
        assert(rest[0] == s@[i as int]);
        if is_one_of(s[i], set) {
            assert(rest.skip(1) =~= s@.skip(i + 1));
            i += 1;
        } else {
            assert(s@.subrange(i as int, n as int) =~= rest);
            let k: usize = run_len(slice_subrange(s, i, n), set);
            proof {
                run_fits(rest, set@);
                assert(k > 0);
                assert(rest.take(k as int) =~= s@.subrange(i as int, i + k));
                assert(rest.skip(k as int) =~= s@.skip(i + k));
            }
            let word = slice_subrange(s, i, i + k);
            let ghost before = out@;
            out.push(word);
            proof {
                views_push(before, word);
                assert(views(before) + (seq![word@] + words_of(s@.skip(i + k), set@)) =~= views(
                    before,
                ).push(word@) + words_of(s@.skip(i + k), set@));
            }
            i += k;
        }
    }
    assert(words_of(s@.skip(n as int), set@) =~= seq![]);
    assert(views(out@) + Seq::<Seq<char>>::empty() =~= views(out@));
    out
}

/// A line without the carriage return that it may end in.
pub open spec fn without_return(s: Seq<char>) -> Seq<char> {
    if s.len() > 0 && s.last() == '\r' {
        s.drop_last()
    } else {
        s
    }
}

/// The lines of a text. A line ends with a line feed, which may follow a carriage return; the last
/// one may lack it.
pub open spec fn lines_of(s: Seq<char>) -> Seq<Seq<char>>
    decreases s.len(),
{
    proof {
        run_fits(s, seq!['\n']);
    }
    let k = run(s, seq!['\n']);
    if s.len() == 0 {
        seq![]
    } else if k >= s.len() {
        seq![s]
    } else {
        seq![without_return(s.take(k as int))] + lines_of(s.skip(k as int + 1))
    }
}

/// The lines of a text.
pub fn split_lines<'a>(s: &'a [char]) -> (r: Vec<&'a [char]>)
    ensures
        views(r@) == lines_of(s@),
{
    let n: usize = s.len();
    let feed: [char; 1] = ['\n'];
    assert(feed@ =~= seq!['\n']);
    let mut out: Vec<&'a [char]> = Vec::new();
    let mut i: usize = 0;
    proof {
        assert(s@.skip(0) =~= s@);
        assert(views(out@) + lines_of(s@) =~= lines_of(s@));
    }
    while i < n
        invariant
            i <= n,
            n == s@.len(),
            feed@ == seq!['\n'],
            lines_of(s@) == views(out@) + lines_of(s@.skip(i as int)),
        decreases n - i,
    {
        let ghost rest = s@.skip(i as int);
        assert(s@.subrange(i as int, n as int) =~= rest);
        let k: usize = run_len(slice_subrange(s, i, n), &feed);
        proof {
            run_fits(rest, seq!['\n']);
        }
        let ghost before = out@;
        if k == n - i {
            let line = slice_subrange(s, i, n);
            out.push(line);
            proof {
                views_push(before, line);
                assert(views(before) + seq![line@] =~= views(before).push(line@));
                assert(lines_of(s@.skip(n as int)) =~= seq![]);
                assert(views(out@) + lines_of(s@.skip(n as int)) =~= views(out@));
            }
            i = n;
        } else {
            let mut end: usize = i + k;
            if k > 0 && s[end - 1] == '\r' {
                end -= 1;
            }
            let line = slice_subrange(s, i, end);
            out.push(line);
            proof {
                assert(rest.take(k as int) =~= s@.subrange(i as int, i + k));
                assert(line@ =~= without_return(rest.take(k as int)));
                assert(rest.skip(k as int + 1) =~= s@.skip(i + k + 1));
                views_push(before, line);
                assert(views(before) + (seq![line@] + lines_of(s@.skip(i + k + 1))) =~= views(
                    before,
                ).push(line@) + lines_of(s@.skip(i + k + 1)));
            }
            i = i + k + 1;
        }
    }
    assert(lines_of(s@.skip(n as int)) =~= seq![]);
    assert(views(out@) + Seq::<Seq<char>>::empty() =~= views(out@));
    out
}

/// The text has `p` at place `i`.
pub open spec fn occurs_at(s: Seq<char>, p: Seq<char>, i: int) -> bool {
    0 <= i && i + p.len() <= s.len() && s.subrange(i, i + p.len()) == p
}

/// The text starts with `p`.
pub open spec fn starts_with(s: Seq<char>, p: Seq<char>) -> bool {
    occurs_at(s, p, 0)
}

/// The text holds `p` somewhere.
pub open spec fn holds(s: Seq<char>, p: Seq<char>) -> bool {
    exists|i: int| occurs_at(s, p, i)
}

/// Whether the text has `p` at place `i`.
pub fn has_at(s: &[char], p: &[char], i: usize) -> (r: bool)
    ensures
        r == occurs_at(s@, p@, i as int),
{
    let n: usize = s.len();
    let m: usize = p.len();
    if m > n || i > n - m {
        return false;
    }
    let mut k: usize = 0;
    while k < m
        invariant
            k <= m,
            m == p@.len(),
            n == s@.len(),
            i + m <= n,
            forall|j: int| 0 <= j < k ==> s@[i + j] == p@[j],
        decreases m - k,
    {
        if s[i + k] != p[k] {
            assert(s@.subrange(i as int, i + m)[k as int] != p@[k as int]);
            return false;
        }
        k += 1;
    }
    assert(s@.subrange(i as int, i + m) =~= p@);
    true
}

/// Whether the text starts with `p`.
pub fn has_prefix(s: &[char], p: &str) -> (r: bool)
    ensures
        r == starts_with(s@, p@),
{
    let p = chars_of(p);
    has_at(s, p.as_slice(), 0)
}

/// Whether the text holds `p` somewhere.
pub fn has(s: &[char], p: &str) -> (r: bool)
    ensures
        r == holds(s@, p@),
{
    let pat = chars_of(p);
    let n: usize = s.len();
    let mut i: usize = 0;
    while i < n
        invariant
            i <= n,
            n == s@.len(),
            pat@ == p@,
            forall|k: int| 0 <= k < i ==> !occurs_at(s@, p@, k),
        decreases n - i,
    {
        if has_at(s, pat.as_slice(), i) {
            return true;
        }
        i += 1;
    }
    has_at(s, pat.as_slice(), n)
}

/// The first place of `p` in the text, the length of the text where there is none.
pub open spec fn place_of(s: Seq<char>, p: Seq<char>, from: int) -> int
    decreases s.len() - from,
{
    if from >= s.len() || occurs_at(s, p, from) {
        from
    } else {
        place_of(s, p, from + 1)
    }
}

/// What lies between the occurrences of `p`, from the left.
pub open spec fn pieces_of(s: Seq<char>, p: Seq<char>) -> Seq<Seq<char>>
    decreases s.len(),
{
    proof {
        place_fits(s, p, 0);
    }
    let k = place_of(s, p, 0);
    if p.len() == 0 || k >= s.len() {
        seq![s]
    } else {
        seq![s.take(k)] + pieces_of(s.skip(k + p.len()), p)
    }
}

/// A place found is one.
pub proof fn place_fits(s: Seq<char>, p: Seq<char>, from: int)
    requires
        0 <= from,
    ensures
        from <= place_of(s, p, from),
        from <= s.len() ==> place_of(s, p, from) <= s.len(),
        place_of(s, p, from) < s.len() ==> occurs_at(s, p, place_of(s, p, from)),
    decreases s.len() - from,
{
    if from < s.len() && !occurs_at(s, p, from) {
        place_fits(s, p, from + 1);
    }
}

/// The first place of `p` in the text.
pub fn find(s: &[char], p: &[char]) -> (r: usize)
    ensures
        r == place_of(s@, p@, 0),
        r <= s@.len(),
{
    let n: usize = s.len();
    let mut i: usize = 0;
    while i < n
        invariant
            i <= n,
            n == s@.len(),
            place_of(s@, p@, 0) == place_of(s@, p@, i as int),
        decreases n - i,
    {
        if has_at(s, p, i) {
            return i;
        }
        i += 1;
    }
    n
}

/// What lies between the occurrences of `p`.
pub fn split_at_each<'a>(s: &'a [char], p: &str) -> (r: Vec<&'a [char]>)
    requires
        p@.len() > 0,
    ensures
        views(r@) == pieces_of(s@, p@),
{
    let p = chars_of(p);
    let mut out: Vec<&'a [char]> = Vec::new();
    let mut rest: &'a [char] = s;
    assert(views(out@) + pieces_of(s@, p@) =~= pieces_of(s@, p@));
    let mut k: usize = find(rest, p.as_slice());
    while k < rest.len()
        invariant
            p@.len() > 0,
            k == place_of(rest@, p@, 0),
            k <= rest@.len(),
            pieces_of(s@, p@) == views(out@) + pieces_of(rest@, p@),
        decreases rest@.len(),
    {
        let n: usize = rest.len();
        proof {
            place_fits(rest@, p@, 0);
        }
        let piece = slice_subrange(rest, 0, k);
        let ghost before = out@;
        let ghost old_rest = rest@;
        out.push(piece);
        rest = slice_subrange(rest, k + p.len(), n);
        proof {
            assert(piece@ =~= old_rest.take(k as int));
            assert(rest@ =~= old_rest.skip(k + p@.len()));
            views_push(before, piece);
            assert(views(before) + (seq![piece@] + pieces_of(rest@, p@)) =~= views(before).push(
                piece@,
            ) + pieces_of(rest@, p@));
        }
        k = find(rest, p.as_slice());
    }
    let ghost before = out@;
    out.push(rest);
    proof {
        views_push(before, rest);
        assert(pieces_of(rest@, p@) =~= seq![rest@]);
        assert(views(before) + seq![rest@] =~= views(before).push(rest@));
    }
    out
}

/// The text with `to` in place of every `from`, from the left.
pub open spec fn replaced(s: Seq<char>, from: Seq<char>, to: Seq<char>) -> Seq<char>
    decreases s.len(),
{
    if s.len() == 0 || from.len() == 0 {
        s
    } else if starts_with(s, from) {
        to + replaced(s.skip(from.len() as int), from, to)
    } else {
        seq![s[0]] + replaced(s.skip(1), from, to)
    }
}

/// The text with `to` in place of every `from`.
pub fn replace(s: &[char], from: &str, to: &str) -> (r: Vec<char>)
    requires
        from@.len() > 0,
    ensures
        r@ == replaced(s@, from@, to@),
{
    let from = chars_of(from);
    let to = chars_of(to);
    let n: usize = s.len();
    let mut out: Vec<char> = Vec::new();
    let mut i: usize = 0;
    proof {
        assert(s@.skip(0) =~= s@);
        assert(out@ + replaced(s@, from@, to@) =~= replaced(s@, from@, to@));
    }
    while i < n
        invariant
            i <= n,
            n == s@.len(),
            from@.len() > 0,
            replaced(s@, from@, to@) == out@ + replaced(s@.skip(i as int), from@, to@),
        decreases n - i,
    {
        let ghost rest = s@.skip(i as int);
        let ghost before = out@;
        proof {
            assert(occurs_at(s@, from@, i as int) == starts_with(rest, from@)) by {
                if i + from@.len() <= n {
                    assert(rest.subrange(0, from@.len() as int) =~= s@.subrange(
                        i as int,
                        i + from@.len(),
                    ));
                }
            }
        }
        if has_at(s, from.as_slice(), i) {
            let mut k: usize = 0;
            while k < to.len()
                invariant
                    k <= to@.len(),
                    out@ == before + to@.take(k as int),
                decreases to.len() - k,
            {
                out.push(to[k]);
                assert(to@.take(k + 1) =~= to@.take(k as int).push(to@[k as int]));
                assert(before + to@.take(k + 1) =~= (before + to@.take(k as int)).push(
                    to@[k as int],
                ));
                k += 1;
            }
            proof {
                assert(to@.take(k as int) =~= to@);
                assert(rest.skip(from@.len() as int) =~= s@.skip(i + from@.len()));
                assert(before + (to@ + replaced(s@.skip(i + from@.len()), from@, to@)) =~= (before
                    + to@) + replaced(s@.skip(i + from@.len()), from@, to@));
            }
            i += from.len();
        } else {
            out.push(s[i]);
            proof {
                assert(rest.skip(1) =~= s@.skip(i + 1));
                assert(before + (seq![rest[0]] + replaced(s@.skip(i + 1), from@, to@))
                    =~= before.push(rest[0]) + replaced(s@.skip(i + 1), from@, to@));
            }
            i += 1;
        }
    }
    assert(out@ + Seq::<char>::empty() =~= out@);
    assert(s@.skip(n as int) =~= Seq::<char>::empty());
    out
}

/// The last place of a character of `set`, -1 where there is none.
pub open spec fn last_in(s: Seq<char>, set: Seq<char>) -> int
    decreases s.len(),
{
    if s.len() == 0 || set.contains(s.last()) {
        s.len() - 1
    } else {
        last_in(s.drop_last(), set)
    }
}

/// The last place of a character of `set`.
pub fn find_last(s: &[char], set: &[char]) -> (r: Option<usize>)
    ensures
        match r {
            Some(k) => k == last_in(s@, set@) && k < s@.len(),
            None => last_in(s@, set@) == -1,
        },
{
    let mut n: usize = s.len();
    assert(s@.take(n as int) =~= s@);
    while n > 0
        invariant
            n <= s@.len(),
            last_in(s@, set@) == last_in(s@.take(n as int), set@),
        decreases n,
    {
        assert(s@.take(n as int).last() == s@[n - 1]);
        assert(s@.take(n as int).drop_last() =~= s@.take(n - 1));
        if is_one_of(s[n - 1], set) {
            return Some(n - 1);
        }
        n -= 1;
    }
    None
}

/// A decimal digit.
pub open spec fn is_digit(c: char) -> bool {
    '0' <= c && c <= '9'
}

/// Whether a character is a decimal digit.
pub fn digit_char(c: char) -> (r: bool)
    ensures
        r == is_digit(c),
{
    '0' <= c && c <= '9'
}

/// Every character is a decimal digit.
pub open spec fn all_digits(s: Seq<char>) -> bool {
    forall|i: int| 0 <= i < s.len() ==> is_digit(#[trigger] s[i])
}

/// Whether every character is a decimal digit.
pub fn are_digits(s: &[char]) -> (r: bool)
    ensures
        r == all_digits(s@),
{
    let mut i: usize = 0;
    while i < s.len()
        invariant
            i <= s@.len(),
            forall|k: int| 0 <= k < i ==> is_digit(#[trigger] s@[k]),
        decreases s.len() - i,
    {
        if !digit_char(s[i]) {
            return false;
        }
        i += 1;
    }
    true
}

/// The number that decimal digits stand for.
pub open spec fn digits_value(s: Seq<char>) -> int
    decreases s.len(),
{
    if s.len() == 0 {
        0
    } else {
        digits_value(s.drop_last()) * 10 + (s.last() as int - '0' as int)
    }
}

/// The digits of a number: after a plus sign, if there is one.
pub open spec fn unsigned_digits(s: Seq<char>) -> Seq<char> {
    if s.len() > 0 && s[0] == '+' {
        s.skip(1)
    } else {
        s
    }
}

/// The number up to `max` that a text stands for: decimal digits, which a plus sign may precede.
pub open spec fn number_in(s: Seq<char>, max: int) -> Option<int> {
    let digits = unsigned_digits(s);
    if digits.len() > 0 && all_digits(digits) && digits_value(digits) <= max {
        Some(digits_value(digits))
    } else {
        None
    }
}

/// Digits stand for no negative number, and more digits for no smaller one.
proof fn value_grows(s: Seq<char>, i: int)
    requires
        all_digits(s),
        0 <= i <= s.len(),
    ensures
        0 <= digits_value(s.take(i)) <= digits_value(s),
    decreases s.len(),
{
    if s.len() == 0 {
        assert(s.take(i) =~= s);
    } else if i == s.len() {
        assert(s.take(i) =~= s);
        value_grows(s.drop_last(), s.len() - 1);
        assert(s.drop_last().take(s.len() - 1) =~= s.drop_last());
    } else {
        value_grows(s.drop_last(), i);
        assert(s.drop_last().take(i) =~= s.take(i));
    }
}

/// Read a number up to `max`.
pub fn parse_number(s: &[char], max: u64) -> (r: Option<u64>)
    ensures
        match number_in(s@, max as int) {
            Some(n) => r == Some(n as u64) && 0 <= n <= max,
            None => r is None,
        },
{
    let n: usize = s.len();
    let start: usize = if n > 0 && s[0] == '+' {
        1
    } else {
        0
    };
    let digits = slice_subrange(s, start, n);
    assert(digits@ =~= unsigned_digits(s@));
    if digits.len() == 0 || !are_digits(digits) {
        return None;
    }
    let mut total: u64 = 0;
    let mut i: usize = 0;
    assert(digits@.take(0) =~= Seq::empty());
    while i < digits.len()
        invariant
            i <= digits@.len(),
            digits@.len() > 0,
            all_digits(digits@),
            digits@ == unsigned_digits(s@),
            total == digits_value(digits@.take(i as int)),
            total <= max,
        decreases digits.len() - i,
    {
        let d: u64 = (digits[i] as u32 - '0' as u32) as u64;
        proof {
            assert(is_digit(digits@[i as int]));
            assert(digits@.take(i + 1).drop_last() =~= digits@.take(i as int));
            assert(digits@.take(i + 1).last() == digits@[i as int]);
            value_grows(digits@, i + 1);
        }
        if total > (0xffff_ffff_ffff_ffff - d) / 10 || total * 10 + d > max {
            return None;
        }
        total = total * 10 + d;
        i += 1;
    }
    assert(digits@.take(i as int) =~= digits@);
    Some(total)
}

} // verus!
