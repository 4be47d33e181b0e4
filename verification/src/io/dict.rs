//! Pronunciation dictionaries.
//!
//! Every line has a word, up to four probabilities and the phones of one pronunciation. All
//! pronunciations of a word are kept in the order of the lines; of those with the same phones only
//! the first one is.

use vstd::prelude::*;
use vstd::slice::slice_subrange;
use vstd::string::StringExecFns;

use crate::io::names::{add_name, in_order, name_is_added, with_name};
use crate::io::numerals::{is_reader, read, read_in};
use crate::io::words::{is_prob, normal, normal_key, normalize_dict_key, normalize_word};
use crate::scan::{
    are_digits, find, lines_of, split_lines, split_words, trim, trimmed, views, words_of, SPACES,
};
use crate::text::{chars_of, decode_text, decoded, same_text, string_of};
use crate::types::texts;

verus! {

/// A pronunciation: its phones, and its probabilities as single-precision bits.
#[derive(Debug, PartialEq, Eq)]
pub struct DictEntry {
    pub phones: Vec<String>,
    pub prob: Option<u32>,
    pub silence_after_prob: Option<u32>,
    pub silence_before_correction: Option<u32>,
    pub non_silence_before_correction: Option<u32>,
}

/// What a pronunciation is.
#[verifier::ext_equal]
pub struct EntryView {
    pub phones: Seq<Seq<char>>,
    pub prob: Option<u32>,
    pub silence_after_prob: Option<u32>,
    pub silence_before_correction: Option<u32>,
    pub non_silence_before_correction: Option<u32>,
}

impl View for DictEntry {
    type V = EntryView;

    open spec fn view(&self) -> EntryView {
        EntryView {
            phones: texts(self.phones@),
            prob: self.prob,
            silence_after_prob: self.silence_after_prob,
            silence_before_correction: self.silence_before_correction,
            non_silence_before_correction: self.non_silence_before_correction,
        }
    }
}

/// What a list of pronunciations is.
pub open spec fn entry_views(v: Seq<DictEntry>) -> Seq<EntryView> {
    Seq::new(v.len(), |i: int| v[i]@)
}

/// A pronunciation without probabilities.
pub open spec fn plain_entry(phones: Seq<Seq<char>>) -> EntryView {
    EntryView {
        phones,
        prob: None,
        silence_after_prob: None,
        silence_before_correction: None,
        non_silence_before_correction: None,
    }
}

impl DictEntry {
    /// A pronunciation without probabilities.
    pub fn plain(phones: Vec<String>) -> (r: Self)
        ensures
            r@ == plain_entry(texts(phones@)),
    {
        DictEntry {
            phones,
            prob: None,
            silence_after_prob: None,
            silence_before_correction: None,
            non_silence_before_correction: None,
        }
    }
}

/// Whether a field is a probability. A number without a point is not one.
pub fn is_prob_field(f: &[char]) -> (r: bool)
    ensures
        r == is_prob(f@),
{
    let mut point: Vec<char> = Vec::new();
    point.push('.');
    assert(point@ =~= seq!['.']);
    let n: usize = f.len();
    let k: usize = find(f, point.as_slice());
    if k == 0 || k >= n || k + 1 >= n {
        return false;
    }
    assert(f@.subrange(0, k as int) =~= f@.take(k as int));
    assert(f@.subrange(k + 1, n as int) =~= f@.skip(k + 1));
    are_digits(slice_subrange(f, 0, k)) && are_digits(slice_subrange(f, k + 1, n))
}

/// How many of the first fields, up to four, are probabilities.
pub open spec fn leading_probs(fields: Seq<Seq<char>>, n: int) -> int
    decreases 4 - n,
{
    if 0 <= n < 4 && n < fields.len() && is_prob(fields[n]) {
        leading_probs(fields, n + 1)
    } else {
        n
    }
}

/// How many probabilities an entry has: four, two, one or none, the most that stand in front and
/// leave a field for the phones.
pub open spec fn prob_columns(fields: Seq<Seq<char>>) -> int {
    let n = leading_probs(fields, 0);
    if n == 4 && fields.len() > 4 {
        4
    } else if n >= 2 && fields.len() > 2 {
        2
    } else if n >= 1 && fields.len() > 1 {
        1
    } else {
        0
    }
}

/// An entry has no, one, two or four probabilities, never three; those are probabilities, and a field
/// is left for the phones.
pub proof fn columns_leave_phones(fields: Seq<Seq<char>>)
    requires
        fields.len() > 0,
    ensures
        ({
            let n = prob_columns(fields);
            &&& n == 0 || n == 1 || n == 2 || n == 4
            &&& n < fields.len()
            &&& forall|i: int| 0 <= i < n ==> is_prob(#[trigger] fields[i])
        }),
{
    leading_are_probs(fields, 0);
}

proof fn leading_are_probs(fields: Seq<Seq<char>>, n: int)
    requires
        0 <= n <= 4,
    ensures
        n <= leading_probs(fields, n) <= 4,
        forall|i: int| n <= i < leading_probs(fields, n) ==> is_prob(#[trigger] fields[i]),
    decreases 4 - n,
{
    if n < 4 && n < fields.len() && is_prob(fields[n]) {
        leading_are_probs(fields, n + 1);
    }
}

/// The numbers that the first `n` fields hold.
pub open spec fn numbers_in<Q: Fn(String) -> Option<u32>>(fields: Seq<Seq<char>>, n: int, q: Q) -> Seq<u32>
    decreases n,
{
    if n <= 0 {
        seq![]
    } else {
        let before = numbers_in(fields, n - 1, q);
        match read_in(q, fields[n - 1]) {
            Some(x) => before.push(x),
            None => before,
        }
    }
}

/// The number at a place, if there is one.
pub open spec fn nth(v: Seq<u32>, i: int) -> Option<u32> {
    if i < v.len() {
        Some(v[i])
    } else {
        None
    }
}

/// The pronunciation that the fields after a word stand for; none without phones.
pub open spec fn entry_in<Q: Fn(String) -> Option<u32>>(fields: Seq<Seq<char>>, q: Q) -> Option<EntryView> {
    if fields.len() == 0 {
        None
    } else {
        let n = prob_columns(fields);
        let nums = numbers_in(fields, n, q);
        Some(
            EntryView {
                phones: fields.skip(n),
                prob: nth(nums, 0),
                silence_after_prob: nth(nums, 1),
                silence_before_correction: nth(nums, 2),
                non_silence_before_correction: nth(nums, 3),
            },
        )
    }
}

fn get(v: &Vec<u32>, i: usize) -> (r: Option<u32>)
    ensures
        r == nth(v@, i as int),
{
    if i < v.len() {
        Some(v[i])
    } else {
        None
    }
}

/// The pronunciation in the fields from `from` on.
pub fn parse_entry<Q: Fn(String) -> Option<u32>>(fields: &Vec<&[char]>, from: usize, q: &Q) -> (r: Option<
    DictEntry,
>)
    requires
        is_reader(*q),
        from <= fields@.len(),
    ensures
        (match r {
            Some(e) => Some(e@),
            None => None,
        }) == entry_in(views(fields@).skip(from as int), *q),
{
    let ghost all = views(fields@).skip(from as int);
    let total: usize = fields.len();
    let len: usize = total - from;
    if len == 0 {
        return None;
    }
    let mut n: usize = 0;
    let mut more: bool = true;
    while more
        invariant
            len == all.len(),
            from + len == total,
            total == fields@.len(),
            all == views(fields@).skip(from as int),
            n <= 4,
            n <= len,
            leading_probs(all, 0) == leading_probs(all, n as int),
            !more ==> leading_probs(all, 0) == n,
        decreases 4 - n + (if more {
            1int
        } else {
            0int
        }),
    {
        if n < 4 && n < len {
            assert(all[n as int] == fields@[from + n]@);
            if is_prob_field(fields[from + n]) {
                n += 1;
            } else {
                more = false;
            }
        } else {
            more = false;
        }
    }
    let n: usize = if n == 4 && len > 4 {
        4
    } else if n >= 2 && len > 2 {
        2
    } else if n >= 1 && len > 1 {
        1
    } else {
        0
    };
    assert(n == prob_columns(all));
    let mut nums: Vec<u32> = Vec::new();
    let mut i: usize = 0;
    while i < n
        invariant
            is_reader(*q),
            len == all.len(),
            from + len == total,
            total == fields@.len(),
            all == views(fields@).skip(from as int),
            i <= n,
            n <= len,
            nums@ == numbers_in(all, i as int, *q),
        decreases n - i,
    {
        assert(all[i as int] == fields@[from + i]@);
        match read(q, string_of(fields[from + i])) {
            Some(x) => {
                nums.push(x);
            },
            None => {},
        }
        i += 1;
    }
    let mut phones: Vec<String> = Vec::new();
    let mut k: usize = n;
    while k < len
        invariant
            len == all.len(),
            from + len == total,
            total == fields@.len(),
            all == views(fields@).skip(from as int),
            n <= k <= len,
            texts(phones@) == all.subrange(n as int, k as int),
        decreases len - k,
    {
        assert(all[k as int] == fields@[from + k]@);
        let ghost before = phones@;
        phones.push(string_of(fields[from + k]));
        assert(texts(phones@) =~= texts(before).push(all[k as int]));
        assert(all.subrange(n as int, k + 1) =~= all.subrange(n as int, k as int).push(
            all[k as int],
        ));
        k += 1;
    }
    assert(all.subrange(n as int, len as int) =~= all.skip(n as int));
    Some(
        DictEntry {
            phones,
            prob: get(&nums, 0),
            silence_after_prob: get(&nums, 1),
            silence_before_correction: get(&nums, 2),
            non_silence_before_correction: get(&nums, 3),
        },
    )
}

/// A word and its pronunciations.
#[derive(Debug)]
pub struct WordEntries {
    pub word: String,
    pub entries: Vec<DictEntry>,
}

/// The pronunciations of words.
#[derive(Debug)]
pub struct Dictionary {
    words: Vec<WordEntries>,
}

/// What words and their pronunciations are.
pub open spec fn word_views(v: Seq<WordEntries>) -> Seq<(Seq<char>, Seq<EntryView>)> {
    Seq::new(v.len(), |i: int| (v[i].word@, entry_views(v[i].entries@)))
}

impl View for Dictionary {
    type V = Seq<(Seq<char>, Seq<EntryView>)>;

    closed spec fn view(&self) -> Seq<(Seq<char>, Seq<EntryView>)> {
        word_views(self.words@)
    }
}

/// The place of a word from place `i` on, the number of words if it is not there.
pub open spec fn word_place(d: Seq<(Seq<char>, Seq<EntryView>)>, word: Seq<char>, i: int) -> int
    decreases d.len() - i,
{
    if i < 0 || i >= d.len() || d[i].0 == word {
        i
    } else {
        word_place(d, word, i + 1)
    }
}

/// The pronunciations of a word.
pub open spec fn prons_of(d: Seq<(Seq<char>, Seq<EntryView>)>, word: Seq<char>) -> Option<Seq<EntryView>> {
    let i = word_place(d, word, 0);
    if i < d.len() {
        Some(d[i].1)
    } else {
        None
    }
}

/// There is a pronunciation with these phones.
pub open spec fn has_phones(v: Seq<EntryView>, phones: Seq<Seq<char>>) -> bool {
    exists|k: int| 0 <= k < v.len() && (#[trigger] v[k]).phones == phones
}

/// Pronunciations with one added, unless there is one with the same phones.
pub open spec fn with_pron(v: Seq<EntryView>, e: EntryView) -> Seq<EntryView> {
    if has_phones(v, e.phones) {
        v
    } else {
        v.push(e)
    }
}

/// The dictionary with a pronunciation added to a word.
pub open spec fn with_entry(d: Seq<(Seq<char>, Seq<EntryView>)>, word: Seq<char>, e: EntryView) -> Seq<
    (Seq<char>, Seq<EntryView>),
> {
    let i = word_place(d, word, 0);
    if i < d.len() {
        d.update(i, (word, with_pron(d[i].1, e)))
    } else {
        d.push((word, seq![e]))
    }
}

/// No word is there twice, every word has pronunciations, and no two of them have the same phones.
pub open spec fn is_dictionary(d: Seq<(Seq<char>, Seq<EntryView>)>) -> bool {
    &&& forall|i: int, j: int| 0 <= i < j < d.len() ==> (#[trigger] d[i]).0 != (#[trigger] d[j]).0
    &&& forall|i: int| 0 <= i < d.len() ==> (#[trigger] d[i]).1.len() > 0
    &&& forall|i: int, j: int, k: int|
        0 <= i < d.len() && 0 <= j < k < d[i].1.len() ==> (#[trigger] d[i].1[j]).phones != (
        #[trigger] d[i].1[k]).phones
}

proof fn place_is_found(d: Seq<(Seq<char>, Seq<EntryView>)>, word: Seq<char>, i: int)
    requires
        0 <= i <= d.len(),
    ensures
        i <= word_place(d, word, i) <= d.len(),
        word_place(d, word, i) < d.len() ==> d[word_place(d, word, i)].0 == word,
        forall|k: int| i <= k < word_place(d, word, i) ==> (#[trigger] d[k]).0 != word,
    decreases d.len() - i,
{
    if i < d.len() && d[i].0 != word {
        place_is_found(d, word, i + 1);
    }
}

/// Adding a pronunciation keeps a dictionary sound. The word has the pronunciation afterwards, or
/// had one with the same phones; what the word had before stays, in its order.
pub proof fn entry_is_added(d: Seq<(Seq<char>, Seq<EntryView>)>, word: Seq<char>, e: EntryView)
    requires
        is_dictionary(d),
    ensures
        is_dictionary(with_entry(d, word, e)),
        prons_of(with_entry(d, word, e), word) == Some(
            match prons_of(d, word) {
                Some(v) => with_pron(v, e),
                None => seq![e],
            },
        ),
        has_phones(prons_of(with_entry(d, word, e), word)->0, e.phones),
{
    place_is_found(d, word, 0);
    let i = word_place(d, word, 0);
    let after = with_entry(d, word, e);
    place_is_found(after, word, 0);
    let j = word_place(after, word, 0);
    assert(i == j) by {
        if i < d.len() {
            assert(after[i].0 == word);
            if j < i {
                assert(after[j].0 == d[j].0);
            }
            if i < j {
                assert(after[i].0 != word);
            }
        } else {
            assert(after[i].0 == word);
            if j < i {
                assert(after[j].0 == d[j].0);
            }
        }
    }
    let v = after[i].1;
    if i < d.len() {
        if has_phones(d[i].1, e.phones) {
            assert(v == d[i].1);
        } else {
            assert(v[d[i].1.len() as int].phones == e.phones);
        }
    } else {
        assert(v[0].phones == e.phones);
    }
    assert forall|a: int, b: int| 0 <= a < b < after.len() implies (#[trigger] after[a]).0 != (
    #[trigger] after[b]).0 by {
        if b < d.len() {
            assert(d[a].0 != d[b].0);
        } else {
            assert(d[a].0 != word);
        }
    }
    assert forall|a: int, b: int, c: int| 0 <= a < after.len() && 0 <= b < c < after[a].1.len() implies (
    #[trigger] after[a].1[b]).phones != (#[trigger] after[a].1[c]).phones by {
        if a < d.len() {
            if a != i {
                assert(after[a] == d[a]);
                assert(d[a].1[b].phones != d[a].1[c].phones);
            } else if c < d[a].1.len() {
                assert(d[a].1[b].phones != d[a].1[c].phones);
            } else {
                assert(d[a].1[b].phones != e.phones);
            }
        }
    }
}

/// Adding a pronunciation to a word changes no other word.
pub proof fn other_words_stay(
    d: Seq<(Seq<char>, Seq<EntryView>)>,
    word: Seq<char>,
    e: EntryView,
    other: Seq<char>,
)
    requires
        word != other,
    ensures
        prons_of(with_entry(d, word, e), other) == prons_of(d, other),
{
    place_is_found(d, word, 0);
    place_is_found(d, other, 0);
    let after = with_entry(d, word, e);
    place_is_found(after, other, 0);
    let i = word_place(d, other, 0);
    let j = word_place(after, other, 0);
    if i < d.len() {
        assert(after[i].0 == other);
        if j < i {
            assert(after[j].0 == d[j].0);
        }
    } else if j < after.len() {
        if j < d.len() {
            assert(after[j].0 == d[j].0);
            assert(d[j].0 != other);
        }
    }
}

/// The dictionary with a line added: nothing for an empty line or one that starts with `;` or `#`.
pub open spec fn with_line<Q: Fn(String) -> Option<u32>>(
    d: Seq<(Seq<char>, Seq<EntryView>)>,
    line: Seq<char>,
    q: Q,
) -> Seq<(Seq<char>, Seq<EntryView>)> {
    let s = trimmed(line, SPACES@);
    let fields = words_of(s, SPACES@);
    if s.len() == 0 || s[0] == ';' || s[0] == '#' || fields.len() == 0 {
        d
    } else {
        let word = normal_key(fields[0]);
        match entry_in(fields.skip(1), q) {
            Some(e) => if word.len() > 0 {
                with_entry(d, word, e)
            } else {
                d
            },
            None => d,
        }
    }
}

/// The dictionary of the first `n` lines.
pub open spec fn lines_added<Q: Fn(String) -> Option<u32>>(lines: Seq<Seq<char>>, n: int, q: Q) -> Seq<
    (Seq<char>, Seq<EntryView>),
>
    decreases n,
{
    if n <= 0 {
        seq![]
    } else {
        with_line(lines_added(lines, n - 1, q), lines[n - 1], q)
    }
}

/// The dictionary in a text.
pub open spec fn dictionary_in<Q: Fn(String) -> Option<u32>>(text: Seq<char>, q: Q) -> Seq<
    (Seq<char>, Seq<EntryView>),
> {
    lines_added(lines_of(text), lines_of(text).len() as int, q)
}

/// A dictionary without any entry.
#[derive(Debug)]
pub struct EmptyDictionary {
    pub path: String,
}

impl EmptyDictionary {
    pub fn to_string(&self) -> (r: String)
        ensures
            r@ == "dictionary "@ + self.path@ + " contained no entries"@,
    {
        let mut out = String::from_str("dictionary ");
        out.append(self.path.as_str());
        out.append(" contained no entries");
        out
    }
}

/// The phones of the first `n` names, added to a sorted list.
pub open spec fn names_added(v: Seq<Seq<char>>, names: Seq<Seq<char>>, n: int) -> Seq<Seq<char>>
    decreases n,
{
    if n <= 0 {
        v
    } else {
        with_name(names_added(v, names, n - 1), names[n - 1])
    }
}

/// The phones of the first `n` pronunciations, added to a sorted list.
pub open spec fn prons_added(v: Seq<Seq<char>>, prons: Seq<EntryView>, n: int) -> Seq<Seq<char>>
    decreases n,
{
    if n <= 0 {
        v
    } else {
        let p = prons[n - 1].phones;
        names_added(prons_added(v, prons, n - 1), p, p.len() as int)
    }
}

/// The phones of the first `n` words, sorted.
pub open spec fn phones_upto(d: Seq<(Seq<char>, Seq<EntryView>)>, n: int) -> Seq<Seq<char>>
    decreases n,
{
    if n <= 0 {
        seq![]
    } else {
        prons_added(phones_upto(d, n - 1), d[n - 1].1, d[n - 1].1.len() as int)
    }
}

proof fn names_stay_in_order(v: Seq<Seq<char>>, names: Seq<Seq<char>>, n: int, x: Seq<char>)
    requires
        in_order(v),
    ensures
        in_order(names_added(v, names, n)),
        names_added(v, names, n).contains(x) <==> v.contains(x) || exists|k: int|
            0 <= k < n && names[k] == x,
    decreases n,
{
    if n > 0 {
        names_stay_in_order(v, names, n - 1, x);
        name_is_added(names_added(v, names, n - 1), names[n - 1]);
        if exists|k: int| 0 <= k < n && names[k] == x {
            let k = choose|k: int| 0 <= k < n && names[k] == x;
            if k < n - 1 {
                assert(0 <= k < n - 1 && names[k] == x);
            }
        }
        if names[n - 1] == x {
            assert(0 <= n - 1 < n && names[n - 1] == x);
        }
    }
}

proof fn prons_stay_in_order(v: Seq<Seq<char>>, prons: Seq<EntryView>, n: int, x: Seq<char>)
    requires
        in_order(v),
    ensures
        in_order(prons_added(v, prons, n)),
        prons_added(v, prons, n).contains(x) <==> v.contains(x) || exists|k: int, p: int|
            0 <= k < n && 0 <= p < prons[k].phones.len() && #[trigger] prons[k].phones[p] == x,
    decreases n,
{
    if n > 0 {
        prons_stay_in_order(v, prons, n - 1, x);
        let ph = prons[n - 1].phones;
        names_stay_in_order(prons_added(v, prons, n - 1), ph, ph.len() as int, x);
        if exists|k: int, p: int|
            0 <= k < n && 0 <= p < prons[k].phones.len() && #[trigger] prons[k].phones[p] == x {
            let (k, p) = choose|k: int, p: int|
                0 <= k < n && 0 <= p < prons[k].phones.len() && #[trigger] prons[k].phones[p] == x;
            if k == n - 1 {
                assert(0 <= p < ph.len() && ph[p] == x);
            }
        }
        if exists|p: int| 0 <= p < ph.len() && ph[p] == x {
            let p = choose|p: int| 0 <= p < ph.len() && ph[p] == x;
            assert(prons[n - 1].phones[p] == x);
        }
    }
}

/// The phones of a dictionary are sorted, and are those of its pronunciations.
pub proof fn phones_are_those_used(d: Seq<(Seq<char>, Seq<EntryView>)>, n: int, x: Seq<char>)
    ensures
        in_order(phones_upto(d, n)),
        phones_upto(d, n).contains(x) <==> exists|i: int, k: int, p: int|
            0 <= i < n && 0 <= k < d[i].1.len() && 0 <= p < d[i].1[k].phones.len()
                && #[trigger] d[i].1[k].phones[p] == x,
    decreases n,
{
    if n > 0 {
        phones_are_those_used(d, n - 1, x);
        let v = d[n - 1].1;
        prons_stay_in_order(phones_upto(d, n - 1), v, v.len() as int, x);
        if exists|i: int, k: int, p: int|
            0 <= i < n && 0 <= k < d[i].1.len() && 0 <= p < d[i].1[k].phones.len()
                && #[trigger] d[i].1[k].phones[p] == x {
            let (i, k, p) = choose|i: int, k: int, p: int|
                0 <= i < n && 0 <= k < d[i].1.len() && 0 <= p < d[i].1[k].phones.len()
                    && #[trigger] d[i].1[k].phones[p] == x;
            if i == n - 1 {
                assert(v[k].phones[p] == x);
            }
        }
        if exists|k: int, p: int|
            0 <= k < v.len() && 0 <= p < v[k].phones.len() && #[trigger] v[k].phones[p] == x {
            let (k, p) = choose|k: int, p: int|
                0 <= k < v.len() && 0 <= p < v[k].phones.len() && #[trigger] v[k].phones[p] == x;
            assert(d[n - 1].1[k].phones[p] == x);
        }
    }
}

fn same_phones(a: &Vec<String>, b: &Vec<String>) -> (r: bool)
    ensures
        r == (texts(a@) == texts(b@)),
{
    if a.len() != b.len() {
        assert(texts(a@).len() != texts(b@).len());
        return false;
    }
    let mut i: usize = 0;
    while i < a.len()
        invariant
            i <= a@.len(),
            a@.len() == b@.len(),
            forall|k: int| 0 <= k < i ==> (#[trigger] a@[k])@ == b@[k]@,
        decreases a.len() - i,
    {
        if !same_text(a[i].as_str(), b[i].as_str()) {
            assert(texts(a@)[i as int] != texts(b@)[i as int]);
            return false;
        }
        i += 1;
    }
    assert(texts(a@) =~= texts(b@));
    true
}

impl Dictionary {
    fn empty() -> (r: Self)
        ensures
            r@ == Seq::<(Seq<char>, Seq<EntryView>)>::empty(),
    {
        let words: Vec<WordEntries> = Vec::new();
        assert(word_views(words@) =~= seq![]);
        Dictionary { words }
    }

    /// The place of a word.
    fn place(&self, word: &str) -> (r: usize)
        ensures
            r == word_place(self@, word@, 0),
            r <= self.words@.len(),
    {
        let mut i: usize = 0;
        while i < self.words.len()
            invariant
                i <= self.words@.len(),
                word_place(self@, word@, 0) == word_place(self@, word@, i as int),
            decreases self.words.len() - i,
        {
            assert(self@[i as int].0 == self.words@[i as int].word@);
            if same_text(self.words[i].word.as_str(), word) {
                return i;
            }
            i += 1;
        }
        i
    }

    /// Add a pronunciation to a word, unless it has one with the same phones.
    fn push_entry(&mut self, word: String, entry: DictEntry)
        ensures
            final(self)@ == with_entry(old(self)@, word@, entry@),
    {
        let ghost d = self@;
        let i: usize = self.place(word.as_str());
        if i < self.words.len() {
            let ghost v = entry_views(self.words@[i as int].entries@);
            assert(d[i as int].1 == v);
            proof {
                place_is_found(d, word@, 0);
                assert(d[i as int].0 == word@);
            }
            let n: usize = self.words[i].entries.len();
            let mut k: usize = 0;
            while k < n
                invariant
                    i < self.words@.len(),
                    d == self@,
                    v == entry_views(self.words@[i as int].entries@),
                    n == v.len(),
                    d[i as int] == (word@, v),
                    i == word_place(d, word@, 0),
                    *self == *old(self),
                    k <= n,
                    forall|m: int| 0 <= m < k ==> (#[trigger] v[m]).phones != entry@.phones,
                decreases n - k,
            {
                assert(v[k as int] == self.words@[i as int].entries@[k as int]@);
                if same_phones(&self.words[i].entries[k].phones, &entry.phones) {
                    assert(v[k as int].phones == entry@.phones);
                    assert(has_phones(v, entry@.phones));
                    assert(d.update(i as int, (word@, v)) =~= d);
                    return;
                }
                k += 1;
            }
            assert(!has_phones(v, entry@.phones));
            let ghost words0 = self.words@;
            self.words[i].entries.push(entry);
            proof {
                assert(entry_views(self.words@[i as int].entries@) =~= v.push(entry@));
                assert(self@ =~= d.update(i as int, (word@, v.push(entry@))));
            }
        } else {
            let mut entries: Vec<DictEntry> = Vec::new();
            entries.push(entry);
            assert(entry_views(entries@) =~= seq![entry@]);
            self.words.push(WordEntries { word, entries });
            assert(self@ =~= d.push((word@, seq![entry@])));
        }
    }

    /// The dictionary in a text.
    fn parse<Q: Fn(String) -> Option<u32>>(text: &str, q: &Q) -> (r: Self)
        requires
            is_reader(*q),
        ensures
            r@ == dictionary_in(text@, *q),
    {
        let cs = chars_of(text);
        let spaces = chars_of(SPACES);
        let lines = split_lines(cs.as_slice());
        let ghost all = lines_of(text@);
        let mut d = Self::empty();
        let mut i: usize = 0;
        while i < lines.len()
            invariant
                is_reader(*q),
                spaces@ == SPACES@,
                views(lines@) == all,
                i <= lines@.len(),
                d@ == lines_added(all, i as int, *q),
            decreases lines.len() - i,
        {
            assert(all[i as int] == lines@[i as int]@);
            let line = trim(lines[i], spaces.as_slice());
            if line.len() > 0 && line[0] != ';' && line[0] != '#' {
                let fields = split_words(line, spaces.as_slice());
                if fields.len() > 0 {
                    assert(views(fields@)[0] == fields@[0]@);
                    let word = normalize_dict_key(string_of(fields[0]).as_str());
                    match parse_entry(&fields, 1, q) {
                        Some(e) => {
                            if word.as_str().unicode_len() > 0 {
                                d.push_entry(word, e);
                            }
                        },
                        None => {},
                    }
                }
            }
            i += 1;
        }
        d
    }

    /// The dictionary in a text; an error if there is no entry in it.
    pub fn from_text<Q: Fn(String) -> Option<u32>>(path: &str, text: &str, q: &Q) -> (r: Result<
        Self,
        EmptyDictionary,
    >)
        requires
            is_reader(*q),
        ensures
            match r {
                Ok(d) => d@ == dictionary_in(text@, *q) && d@.len() > 0,
                Err(e) => e.path@ == path@ && dictionary_in(text@, *q).len() == 0,
            },
    {
        let d = Self::parse(text, q);
        if d.words.len() == 0 {
            assert(d@.len() == 0);
            return Err(EmptyDictionary { path: String::from_str(path) });
        }
        Ok(d)
    }

    /// The dictionary in the bytes of a file; an error if there is no entry in it. `q` reads
    /// single-precision numbers.
    pub fn load<Q: Fn(String) -> Option<u32>>(path: &str, bytes: &[u8], q: &Q) -> (r: Result<
        Self,
        EmptyDictionary,
    >)
        requires
            is_reader(*q),
            bytes@.len() <= usize::MAX / 8,
        ensures
            match r {
                Ok(d) => d@ == dictionary_in(decoded(bytes@), *q) && d@.len() > 0,
                Err(e) => e.path@ == path@ && dictionary_in(decoded(bytes@), *q).len() == 0,
            },
    {
        let text = decode_text(bytes);
        Self::from_text(path, text.as_str(), q)
    }

    /// A dictionary from words and phones. Words that are empty, and words without phones, are left
    /// out.
    pub fn from_entries(entries: Vec<(String, Vec<String>)>) -> (r: Self)
        ensures
            r@ == entries_added(entries@, entries@.len() as int),
    {
        let mut d = Self::empty();
        let mut i: usize = 0;
        while i < entries.len()
            invariant
                i <= entries@.len(),
                d@ == entries_added(entries@, i as int),
            decreases entries.len() - i,
        {
            let key = normalize_dict_key(entries[i].0.as_str());
            if key.as_str().unicode_len() > 0 && entries[i].1.len() > 0 {
                let phones = copy_texts(&entries[i].1);
                let e = DictEntry::plain(phones);
                d.push_entry(key, e);
            }
            i += 1;
        }
        d
    }

    /// The pronunciations of a word, in their order.
    pub fn lookup(&self, w: &str) -> (r: Option<&Vec<DictEntry>>)
        ensures
            (match r {
                Some(v) => Some(entry_views(v@)),
                None => None,
            }) == (if normal(w@).len() == 0 {
                None
            } else {
                prons_of(self@, normal(w@))
            }),
    {
        let key = normalize_word(w);
        if key.as_str().unicode_len() == 0 {
            return None;
        }
        self.lookup_key(key.as_str())
    }

    /// The pronunciations of a word as it is looked up.
    pub fn lookup_key(&self, key: &str) -> (r: Option<&Vec<DictEntry>>)
        ensures
            (match r {
                Some(v) => Some(entry_views(v@)),
                None => None,
            }) == prons_of(self@, key@),
    {
        let i: usize = self.place(key);
        if i < self.words.len() {
            assert(self@[i as int].1 == entry_views(self.words@[i as int].entries@));
            Some(&self.words[i].entries)
        } else {
            None
        }
    }

    /// All phones, sorted.
    pub fn phones(&self) -> (r: Vec<String>)
        ensures
            texts(r@) == phones_upto(self@, self@.len() as int),
            in_order(texts(r@)),
    {
        let ghost d = self@;
        let mut out: Vec<String> = Vec::new();
        assert(texts(out@) =~= seq![]);
        let mut i: usize = 0;
        while i < self.words.len()
            invariant
                d == self@,
                i <= self.words@.len(),
                texts(out@) == phones_upto(d, i as int),
                in_order(texts(out@)),
            decreases self.words.len() - i,
        {
            let entries = &self.words[i].entries;
            let ghost prons = entry_views(entries@);
            assert(d[i as int].1 == prons);
            let ghost first = texts(out@);
            let mut k: usize = 0;
            while k < entries.len()
                invariant
                    prons == entry_views(entries@),
                    k <= entries@.len(),
                    texts(out@) == prons_added(first, prons, k as int),
                    in_order(texts(out@)),
                decreases entries.len() - k,
            {
                let phones = &entries[k].phones;
                assert(prons[k as int].phones == texts(phones@));
                let ghost second = texts(out@);
                let mut p: usize = 0;
                while p < phones.len()
                    invariant
                        p <= phones@.len(),
                        texts(out@) == names_added(second, texts(phones@), p as int),
                        in_order(texts(out@)),
                    decreases phones.len() - p,
                {
                    assert(texts(phones@)[p as int] == phones@[p as int]@);
                    add_name(&mut out, phones[p].as_str());
                    p += 1;
                }
                k += 1;
            }
            i += 1;
        }
        out
    }

    /// How many words there are.
    pub fn len(&self) -> (r: usize)
        ensures
            r == self@.len(),
    {
        self.words.len()
    }

    pub fn is_empty(&self) -> (r: bool)
        ensures
            r == (self@.len() == 0),
    {
        self.words.len() == 0
    }
}

/// The dictionary of the first `n` words with their phones.
pub open spec fn entries_added(entries: Seq<(String, Vec<String>)>, n: int) -> Seq<
    (Seq<char>, Seq<EntryView>),
>
    decreases n,
{
    if n <= 0 {
        seq![]
    } else {
        let d = entries_added(entries, n - 1);
        let key = normal_key(entries[n - 1].0@);
        let phones = texts(entries[n - 1].1@);
        if key.len() > 0 && phones.len() > 0 {
            with_entry(d, key, plain_entry(phones))
        } else {
            d
        }
    }
}

/// The same texts.
pub(crate) fn copy_texts(v: &Vec<String>) -> (r: Vec<String>)
    ensures
        texts(r@) == texts(v@),
{
    let mut out: Vec<String> = Vec::new();
    let mut i: usize = 0;
    while i < v.len()
        invariant
            i <= v@.len(),
            out@.len() == i,
            forall|k: int| 0 <= k < i ==> (#[trigger] out@[k])@ == v@[k]@,
        decreases v.len() - i,
    {
        out.push(String::from_str(v[i].as_str()));
        i += 1;
    }
    assert(texts(out@) =~= texts(v@));
    out
}

} // verus!
