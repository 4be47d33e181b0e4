//! Words as they are written and as they are looked up.

use vstd::prelude::*;
use vstd::slice::slice_subrange;
use vstd::string::StringExecFns;

use crate::scan::{all_digits, are_digits, find_last, is_one_of, last_in, place_of, trim, trimmed};
use crate::text::{chars_of, string_of};

verus! {

/// What is taken off the ends of a word.
pub const DEFAULT_PUNCTUATION: &'static str =
    "\u{3001}\u{3002}\u{964}\u{ff0c}\u{ff1f}\u{ff01}!@<>\u{2192}\"\u{201d}()\u{201c}\u{201e}\u{2013},.:;\u{2014}\u{bf}?\u{a1}\u{ff1a}\u{ff09}|\u{61f}\\&%#*\u{60c}~\u{3010}\u{3011}\u{ff0c}\u{2026}\u{2025}\u{300c}\u{300d}\u{300e}\u{300f}\u{301d}\u{301f}\u{2033}\u{27e8}\u{27e9}\u{266a}\u{30fb}\u{201a}\u{2018}\u{2039}\u{203a}\u{ab}\u{bb}\u{ff5e}\u{2032}$+=\u{2018}\u{6d4}\u{2015}";

/// What joins the parts of a word.
pub const CLITIC_MARKERS: &'static str = "'\u{2019}\u{2018}";

/// A text in lower case, as `str::to_lowercase` has it.
pub uninterp spec fn lowered(text: Seq<char>) -> Seq<char>;

/// Calls `str::to_lowercase`: the claim is that the result depends on the text alone.
#[verifier::external_body]
fn to_lower(text: &str) -> (r: String)
    ensures
        r@ == lowered(text@),
{
    text.to_lowercase()
}

/// A text in lower case.
pub fn lower(text: &str) -> (r: String)
    ensures
        r@ == lowered(text@),
{
    to_lower(text)
}

/// Every character is among some.
pub open spec fn all_among(s: Seq<char>, set: Seq<char>) -> bool {
    forall|i: int| 0 <= i < s.len() ==> set.contains(#[trigger] s[i])
}

fn are_among(s: &[char], set: &[char]) -> (r: bool)
    ensures
        r == all_among(s@, set@),
{
    let mut i: usize = 0;
    while i < s.len()
        invariant
            i <= s@.len(),
            forall|k: int| 0 <= k < i ==> set@.contains(#[trigger] s@[k]),
        decreases s.len() - i,
    {
        if !is_one_of(s[i], set) {
            return false;
        }
        i += 1;
    }
    true
}

/// A lower-case word without the punctuation at its ends; nothing if only clitic markers are left.
pub open spec fn stripped(lower: Seq<char>) -> Seq<char> {
    let s = trimmed(lower, DEFAULT_PUNCTUATION@);
    if all_among(s, CLITIC_MARKERS@) {
        seq![]
    } else {
        s
    }
}

/// Take the punctuation off the ends of a lower-case word.
pub fn strip_word(lower: &str) -> (r: String)
    ensures
        r@ == stripped(lower@),
{
    let cs = chars_of(lower);
    let marks = chars_of(DEFAULT_PUNCTUATION);
    let s = trim(cs.as_slice(), marks.as_slice());
    let clitics = chars_of(CLITIC_MARKERS);
    if are_among(s, clitics.as_slice()) {
        let r = String::new();
        assert(r@ =~= seq![]);
        return r;
    }
    string_of(s)
}

/// A word as it is looked up.
pub open spec fn normal(w: Seq<char>) -> Seq<char> {
    stripped(lowered(w))
}

/// A word as it is looked up: in lower case, without the punctuation at its ends.
pub fn normalize_word(w: &str) -> (r: String)
    ensures
        r@ == normal(w@),
{
    let lower = to_lower(w);
    strip_word(lower.as_str())
}

/// A headword without the number of its variant, as in `WORD(2)`.
pub open spec fn base_of(w: Seq<char>) -> Seq<char> {
    let open = last_in(w, seq!['(']);
    if open >= 0 && w.last() == ')' && open + 1 < w.len() - 1 && all_digits(
        w.subrange(open + 1, w.len() - 1),
    ) {
        w.take(open)
    } else {
        w
    }
}

/// Take the number of its variant off a headword.
pub fn strip_variant_suffix(w: &str) -> (r: String)
    ensures
        r@ == base_of(w@),
{
    let cs = chars_of(w);
    let n: usize = cs.len();
    let mut set: Vec<char> = Vec::new();
    set.push('(');
    assert(set@ =~= seq!['(']);
    match find_last(cs.as_slice(), set.as_slice()) {
        None => {},
        Some(open) => {
            if cs[n - 1] == ')' && open + 1 < n - 1 {
                if are_digits(slice_subrange(cs.as_slice(), open + 1, n - 1)) {
                    assert(cs@.subrange(0, open as int) =~= cs@.take(open as int));
                    return string_of(slice_subrange(cs.as_slice(), 0, open));
                }
            }
        },
    }
    string_of(cs.as_slice())
}

/// A headword as its word is looked up.
pub open spec fn normal_key(w: Seq<char>) -> Seq<char> {
    normal(base_of(w))
}

/// A headword as its word is looked up.
pub fn normalize_dict_key(raw: &str) -> (r: String)
    ensures
        r@ == normal_key(raw@),
{
    let base = strip_variant_suffix(raw);
    normalize_word(base.as_str())
}

/// Putting the number of a variant behind a word and taking it off gives the word back.
pub proof fn variants_share_their_word(w: Seq<char>, digits: Seq<char>)
    requires
        digits.len() > 0,
        all_digits(digits),
    ensures
        base_of(w + seq!['('] + digits + seq![')']) == w,
{
    let s = w + seq!['('] + digits + seq![')'];
    let n = s.len() as int;
    assert(s.last() == ')');
    last_open(s, w.len() as int);
    assert(s.subrange(w.len() as int + 1, n - 1) =~= digits);
    assert(s.take(w.len() as int) =~= w);
}

proof fn last_open(s: Seq<char>, at: int)
    requires
        0 <= at < s.len(),
        s[at] == '(',
        forall|k: int| at < k < s.len() ==> #[trigger] s[k] != '(',
    ensures
        last_in(s, seq!['(']) == at,
    decreases s.len(),
{
    let set = seq!['('];
    assert(set[0] == '(');
    assert(set.contains('('));
    if at < s.len() - 1 {
        assert(s.last() != '(');
        last_open(s.drop_last(), at);
    }
}

/// A field that is a probability: digits, a point, and digits.
pub open spec fn is_prob(s: Seq<char>) -> bool {
    let k = place_of(s, seq!['.'], 0);
    0 < k < s.len() - 1 && all_digits(s.take(k)) && all_digits(s.skip(k + 1))
}

} // verus!
