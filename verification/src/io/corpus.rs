//! Corpora: transcripts as words with their pronunciations, and phones with their numbers.

use vstd::prelude::*;
use vstd::string::StringExecFns;

use crate::io::dict::{
    copy_texts, entry_views, phones_upto, plain_entry, prons_of, DictEntry, Dictionary, EntryView,
};
use crate::io::names::{
    add_name, count_name, counts, counts_in_order, in_order, name_is_added, one_more, with_name,
    Counted,
};
use crate::io::words::{normal, normalize_word};
use crate::scan::{
    has, holds, lines_of, pieces_of, split_at_each, split_lines, split_words, trim, trimmed, views, words_of,
    SPACES,
};
use crate::text::{chars_of, same_text, string_of};
use crate::types::{
    is_table, number_of, numbers_are_kept, texts, untag_phone, untagged, with_symbol, PhoneId,
    PronView, Pronunciation, SymbolTable, Utterance, POS_BEGIN, POS_END, POS_INTERNAL,
    POS_SINGLETON,
};

verus! {

/// Where the name of a speaker comes from.
#[derive(Clone, Debug, PartialEq, Eq, Structural)]
pub enum SpeakerSource {
    /// The directory of the audio file.
    ParentDir,
    /// So many characters at the start of the file's name.
    Prefix(usize),
    /// One speaker for all files.
    Single,
}

/// How a corpus is read.
#[derive(Clone, Debug)]
pub struct CorpusOptions {
    pub dictionary: Option<String>,
    /// The phone of unknown words.
    pub oov_phone: String,
    pub silence_phone: String,
    /// Whether phones carry their position in the word.
    pub position_dependent: bool,
    pub speaker_from: SpeakerSource,
}

impl Default for CorpusOptions {
    fn default() -> (r: Self)
        ensures
            r.dictionary is None,
            r.oov_phone@ == "spn"@,
            r.silence_phone@ == "sil"@,
            r.position_dependent,
            r.speaker_from == SpeakerSource::ParentDir,
    {
        CorpusOptions {
            dictionary: None,
            oov_phone: String::from_str("spn"),
            silence_phone: String::from_str("sil"),
            position_dependent: true,
            speaker_from: SpeakerSource::ParentDir,
        }
    }
}

/// What the phones of a corpus go by.
#[verifier::ext_equal]
pub struct PhoneRules {
    pub oov: Seq<char>,
    pub silence: Seq<char>,
    pub position_dependent: bool,
}

impl CorpusOptions {
    pub open spec fn rules(self) -> PhoneRules {
        PhoneRules {
            oov: self.oov_phone@,
            silence: self.silence_phone@,
            position_dependent: self.position_dependent,
        }
    }
}

impl PhoneRules {
    /// Silence and the phone of unknown words have no position.
    pub open spec fn is_special(self, base: Seq<char>) -> bool {
        base == self.silence || base == self.oov
    }

    /// The symbol of phone `i` of a pronunciation of `n` phones.
    pub open spec fn symbol(self, phone: Seq<char>, i: int, n: int) -> Seq<char> {
        let base = untagged(phone);
        if !self.position_dependent || self.is_special(base) {
            base
        } else if n == 1 {
            base + POS_SINGLETON@
        } else if i == 0 {
            base + POS_BEGIN@
        } else if i + 1 == n {
            base + POS_END@
        } else {
            base + POS_INTERNAL@
        }
    }

    /// The symbols of the phones of a pronunciation.
    pub open spec fn symbols(self, phones: Seq<Seq<char>>) -> Seq<Seq<char>> {
        Seq::new(phones.len(), |i: int| self.symbol(phones[i], i, phones.len() as int))
    }

    /// The symbols of a phone in all its positions.
    pub open spec fn variants(self, phone: Seq<char>) -> Seq<Seq<char>> {
        let base = untagged(phone);
        if self.is_special(base) || !self.position_dependent {
            seq![base]
        } else {
            seq![
                base + POS_BEGIN@,
                base + POS_END@,
                base + POS_INTERNAL@,
                base + POS_SINGLETON@,
            ]
        }
    }
}

/// The table with the first `n` symbols added.
pub open spec fn with_symbols(table: Seq<Seq<char>>, syms: Seq<Seq<char>>, n: int) -> Seq<Seq<char>>
    decreases n,
{
    if n <= 0 {
        table
    } else {
        with_symbol(with_symbols(table, syms, n - 1), syms[n - 1])
    }
}

/// The number of a symbol that is in the table.
pub open spec fn id_of(table: Seq<Seq<char>>, sym: Seq<char>) -> u32 {
    number_of(table, sym)->0 as u32
}

pub(crate) proof fn table_grows(table: Seq<Seq<char>>, syms: Seq<Seq<char>>, a: int, b: int)
    requires
        0 <= a <= b,
    ensures
        table.len() <= with_symbols(table, syms, a).len() <= with_symbols(table, syms, b).len(),
    decreases b,
{
    if a < b {
        table_grows(table, syms, a, b - 1);
    } else if b > 0 {
        table_grows(table, syms, b - 1, b - 1);
    }
}

pub(crate) proof fn symbol_keeps_table(table: Seq<Seq<char>>, sym: Seq<char>)
    requires
        is_table(table),
        with_symbol(table, sym).len() <= u32::MAX + 1,
    ensures
        is_table(with_symbol(table, sym)),
        with_symbol(table, sym).contains(sym),
{
    let t = with_symbol(table, sym);
    if !table.contains(sym) {
        assert(t[table.len() as int] == sym);
    }
}

/// Adding symbols keeps the table sound and the numbers that it has given.
pub proof fn symbols_keep_numbers(table: Seq<Seq<char>>, syms: Seq<Seq<char>>, n: int, x: Seq<char>)
    requires
        is_table(table),
        with_symbols(table, syms, n).len() <= u32::MAX + 1,
    ensures
        is_table(with_symbols(table, syms, n)),
        table.contains(x) ==> number_of(with_symbols(table, syms, n), x) == number_of(table, x),
    decreases n,
{
    if n > 0 {
        table_grows(table, syms, n - 1, n);
        symbols_keep_numbers(table, syms, n - 1, x);
        let before = with_symbols(table, syms, n - 1);
        symbol_keeps_table(before, syms[n - 1]);
        if table.contains(x) {
            assert(before.contains(x));
            numbers_are_kept(before, syms[n - 1], x);
        }
    }
}

/// A symbol that has been added has the number that it got then.
pub(crate) proof fn added_symbol_stays(table: Seq<Seq<char>>, syms: Seq<Seq<char>>, k: int, n: int)
    requires
        is_table(table),
        0 <= k < n,
        with_symbols(table, syms, n).len() <= u32::MAX + 1,
    ensures
        with_symbols(table, syms, n).contains(syms[k]),
        number_of(with_symbols(table, syms, n), syms[k]) == number_of(
            with_symbols(table, syms, k + 1),
            syms[k],
        ),
    decreases n,
{
    table_grows(table, syms, n - 1, n);
    symbols_keep_numbers(table, syms, n - 1, syms[k]);
    let before = with_symbols(table, syms, n - 1);
    symbol_keeps_table(before, syms[n - 1]);
    if k < n - 1 {
        added_symbol_stays(table, syms, k, n - 1);
        numbers_are_kept(before, syms[n - 1], syms[k]);
    }
}

/// A pronunciation with the numbers of its symbols.
pub open spec fn numbered(table: Seq<Seq<char>>, e: EntryView, rules: PhoneRules) -> PronView {
    let syms = rules.symbols(e.phones);
    PronView {
        phones: Seq::new(syms.len(), |k: int| id_of(table, syms[k])),
        prob: e.prob,
        silence_after_prob: e.silence_after_prob,
        silence_before_correction: e.silence_before_correction,
        non_silence_before_correction: e.non_silence_before_correction,
    }
}

/// The table after the symbols of the first `n` pronunciations.
pub open spec fn prons_table(table: Seq<Seq<char>>, es: Seq<EntryView>, n: int, rules: PhoneRules) -> Seq<
    Seq<char>,
>
    decreases n,
{
    if n <= 0 {
        table
    } else {
        let before = prons_table(table, es, n - 1, rules);
        let syms = rules.symbols(es[n - 1].phones);
        with_symbols(before, syms, syms.len() as int)
    }
}

/// The first `n` pronunciations with the numbers of their symbols.
pub open spec fn prons_numbered(
    table: Seq<Seq<char>>,
    es: Seq<EntryView>,
    n: int,
    rules: PhoneRules,
) -> Seq<PronView>
    decreases n,
{
    if n <= 0 {
        seq![]
    } else {
        prons_numbered(table, es, n - 1, rules).push(
            numbered(prons_table(table, es, n, rules), es[n - 1], rules),
        )
    }
}

pub(crate) proof fn prons_table_grows(
    table: Seq<Seq<char>>,
    es: Seq<EntryView>,
    a: int,
    b: int,
    rules: PhoneRules,
)
    requires
        0 <= a <= b,
    ensures
        table.len() <= prons_table(table, es, a, rules).len() <= prons_table(table, es, b, rules).len(),
    decreases b,
{
    if b > 0 {
        let syms = rules.symbols(es[b - 1].phones);
        table_grows(prons_table(table, es, b - 1, rules), syms, 0, syms.len() as int);
        if a < b {
            prons_table_grows(table, es, a, b - 1, rules);
        } else {
            prons_table_grows(table, es, b - 1, b - 1, rules);
        }
    }
}

/// The words of a text of phones: groups of phones.
pub open spec fn groups_view(v: Seq<Vec<String>>) -> Seq<Seq<Seq<char>>> {
    Seq::new(v.len(), |i: int| texts(v[i]@))
}

/// The pieces of the first `n` pieces between tabs.
pub open spec fn tab_pieces(pieces: Seq<Seq<char>>, n: int) -> Seq<Seq<char>>
    decreases n,
{
    if n <= 0 {
        seq![]
    } else {
        tab_pieces(pieces, n - 1) + pieces_of(pieces[n - 1], "\t"@)
    }
}

/// Those of the first `n` pieces that are not blank.
pub open spec fn not_blank(pieces: Seq<Seq<char>>, n: int) -> Seq<Seq<char>>
    decreases n,
{
    if n <= 0 {
        seq![]
    } else {
        let before = not_blank(pieces, n - 1);
        if trimmed(pieces[n - 1], SPACES@).len() > 0 {
            before.push(pieces[n - 1])
        } else {
            before
        }
    }
}

/// The pieces of a line between double spaces and tabs.
pub open spec fn wide_pieces(line: Seq<char>) -> Seq<Seq<char>> {
    let pieces = pieces_of(line, "  "@);
    tab_pieces(pieces, pieces.len() as int)
}

/// The chunks of the first `n` lines.
pub open spec fn chunks_upto(lines: Seq<Seq<char>>, n: int) -> Seq<Seq<char>>
    decreases n,
{
    if n <= 0 {
        seq![]
    } else {
        let pieces = wide_pieces(lines[n - 1]);
        chunks_upto(lines, n - 1) + not_blank(pieces, pieces.len() as int)
    }
}

/// The groups of tokens that a bar ends, and the tokens after the last bar.
pub open spec fn bar_groups(toks: Seq<Seq<char>>, n: int) -> (Seq<Seq<Seq<char>>>, Seq<Seq<char>>)
    decreases n,
{
    if n <= 0 {
        (seq![], seq![])
    } else {
        let (done, cur) = bar_groups(toks, n - 1);
        if toks[n - 1] == "|"@ {
            if cur.len() > 0 {
                (done.push(cur), seq![])
            } else {
                (done, cur)
            }
        } else {
            (done, cur.push(toks[n - 1]))
        }
    }
}

/// The groups of a chunk.
pub open spec fn chunk_groups(chunk: Seq<char>) -> Seq<Seq<Seq<char>>> {
    let toks = words_of(chunk, SPACES@);
    let (done, cur) = bar_groups(toks, toks.len() as int);
    if cur.len() > 0 {
        done.push(cur)
    } else {
        done
    }
}

/// The groups of the first `n` chunks.
pub open spec fn groups_upto(chunks: Seq<Seq<char>>, n: int) -> Seq<Seq<Seq<char>>>
    decreases n,
{
    if n <= 0 {
        seq![]
    } else {
        groups_upto(chunks, n - 1) + chunk_groups(chunks[n - 1])
    }
}

/// Every token of the first `n` groups by itself.
pub open spec fn singles(groups: Seq<Seq<Seq<char>>>, n: int) -> Seq<Seq<Seq<char>>>
    decreases n,
{
    if n <= 0 {
        seq![]
    } else {
        singles(groups, n - 1) + Seq::new(
            groups[n - 1].len(),
            |k: int| seq![groups[n - 1][k]],
        )
    }
}

/// A transcript of phones says where its words end: it has a bar by itself, two blanks in a row, or a
/// tab.
pub open spec fn has_separator(text: Seq<char>) -> bool {
    ||| words_of(text, SPACES@).contains("|"@)
    ||| holds(text, "  "@)
    ||| holds(text, "\t"@)
}

/// The words of a transcript of phones. A bar, two or more blanks and a tab end a word. In a
/// transcript that has one of them a line end does so too; in one that has none of them every phone
/// is a word of its own.
pub open spec fn phone_words(text: Seq<char>) -> Seq<Seq<Seq<char>>> {
    let lines = lines_of(text);
    let chunks = chunks_upto(lines, lines.len() as int);
    let groups = groups_upto(chunks, chunks.len() as int);
    if has_separator(text) {
        groups
    } else {
        singles(groups, groups.len() as int)
    }
}

/// The chunks of a text.
fn find_chunks<'a>(cs: &'a [char], spaces: &[char]) -> (r: Vec<&'a [char]>)
    requires
        spaces@ == SPACES@,
    ensures
        views(r@) == chunks_upto(lines_of(cs@), lines_of(cs@).len() as int),
{
    let lines = split_lines(cs);
    let ghost all = lines_of(cs@);
    let mut out: Vec<&'a [char]> = Vec::new();
    assert(views(out@) =~= seq![]);
    let mut i: usize = 0;
    while i < lines.len()
        invariant
            spaces@ == SPACES@,
            views(lines@) == all,
            i <= lines@.len(),
            views(out@) == chunks_upto(all, i as int),
        decreases lines.len() - i,
    {
        proof {
            assert(all[i as int] == lines@[i as int]@);
            reveal_strlit("  ");
            reveal_strlit("\t");
        }
        let pieces = split_at_each(lines[i], "  ");
        let ghost ps = pieces_of(all[i as int], "  "@);
        let mut wide: Vec<&'a [char]> = Vec::new();
        assert(views(wide@) =~= seq![]);
        let mut k: usize = 0;
        while k < pieces.len()
            invariant
                "\t"@.len() > 0,
                views(pieces@) == ps,
                k <= pieces@.len(),
                views(wide@) == tab_pieces(ps, k as int),
            decreases pieces.len() - k,
        {
            assert(ps[k as int] == pieces@[k as int]@);
            let subs = split_at_each(pieces[k], "\t");
            let ghost before = views(wide@);
            let mut m: usize = 0;
            assert(before + views(subs@).take(0) =~= before);
            while m < subs.len()
                invariant
                    m <= subs@.len(),
                    views(wide@) == before + views(subs@).take(m as int),
                decreases subs.len() - m,
            {
                let ghost had = wide@;
                wide.push(subs[m]);
                proof {
                    assert(views(wide@) =~= views(had).push(subs@[m as int]@));
                    assert(views(subs@).take(m + 1) =~= views(subs@).take(m as int).push(
                        subs@[m as int]@,
                    ));
                    assert(views(wide@) =~= before + views(subs@).take(m + 1));
                }
                m += 1;
            }
            assert(views(subs@).take(m as int) =~= views(subs@));
            k += 1;
        }
        let ghost ws = wide_pieces(all[i as int]);
        let ghost before = views(out@);
        let mut k: usize = 0;
        assert(before + not_blank(ws, 0) =~= before);
        while k < wide.len()
            invariant
                spaces@ == SPACES@,
                views(wide@) == ws,
                k <= wide@.len(),
                views(out@) == before + not_blank(ws, k as int),
            decreases wide.len() - k,
        {
            assert(ws[k as int] == wide@[k as int]@);
            if trim(wide[k], spaces).len() > 0 {
                let ghost had = out@;
                out.push(wide[k]);
                proof {
                    assert(views(out@) =~= views(had).push(ws[k as int]));
                    assert(views(out@) =~= before + not_blank(ws, k + 1));
                }
            }
            k += 1;
        }
        i += 1;
    }
    out
}

fn split_groups(chunks: &Vec<&[char]>, spaces: &[char]) -> (r: Vec<Vec<String>>)
    requires
        spaces@ == SPACES@,
    ensures
        groups_view(r@) == groups_upto(views(chunks@), chunks@.len() as int),
{
    let ghost cv = views(chunks@);
    let mut words: Vec<Vec<String>> = Vec::new();
    assert(groups_view(words@) =~= seq![]);
    let mut i: usize = 0;
    while i < chunks.len()
        invariant
            spaces@ == SPACES@,
            cv == views(chunks@),
            i <= chunks@.len(),
            groups_view(words@) == groups_upto(cv, i as int),
        decreases chunks.len() - i,
    {
        assert(cv[i as int] == chunks@[i as int]@);
        let toks = split_words(chunks[i], spaces);
        let ghost tv = views(toks@);
        let ghost before = groups_view(words@);
        let mut cur: Vec<String> = Vec::new();
        proof {
            assert(texts(cur@) =~= seq![]);
            assert(before + bar_groups(tv, 0).0 =~= before);
        }
        let mut k: usize = 0;
        while k < toks.len()
            invariant
                tv == views(toks@),
                k <= toks@.len(),
                groups_view(words@) == before + bar_groups(tv, k as int).0,
                texts(cur@) == bar_groups(tv, k as int).1,
            decreases toks.len() - k,
        {
            assert(tv[k as int] == toks@[k as int]@);
            let tok = string_of(toks[k]);
            if same_text(tok.as_str(), "|") {
                if cur.len() > 0 {
                    let ghost had = words@;
                    let ghost cur0 = texts(cur@);
                    words.push(cur);
                    cur = Vec::new();
                    proof {
                        assert(texts(cur@) =~= seq![]);
                        assert(groups_view(words@) =~= groups_view(had).push(cur0));
                        assert(groups_view(words@) =~= before + bar_groups(tv, k + 1).0);
                    }
                }
            } else {
                let ghost cur0 = cur@;
                cur.push(tok);
                assert(texts(cur@) =~= texts(cur0).push(tv[k as int]));
            }
            k += 1;
        }
        if cur.len() > 0 {
            let ghost had = words@;
            let ghost cur0 = texts(cur@);
            words.push(cur);
            assert(groups_view(words@) =~= groups_view(had).push(cur0));
        }
        assert(groups_view(words@) =~= before + chunk_groups(cv[i as int]));
        i += 1;
    }
    words
}

/// Whether a transcript of phones says where its words end.
fn find_separator(cs: &[char], spaces: &[char]) -> (r: bool)
    requires
        spaces@ == SPACES@,
    ensures
        r == has_separator(cs@),
{
    if has(cs, "  ") || has(cs, "\t") {
        return true;
    }
    let toks = split_words(cs, spaces);
    let ghost tv = views(toks@);
    let mut k: usize = 0;
    while k < toks.len()
        invariant
            tv == views(toks@),
            tv == words_of(cs@, SPACES@),
            k <= toks@.len(),
            forall|m: int| 0 <= m < k ==> tv[m] != "|"@,
        decreases toks.len() - k,
    {
        assert(tv[k as int] == toks@[k as int]@);
        let tok = string_of(toks[k]);
        if same_text(tok.as_str(), "|") {
            assert(tv[k as int] == "|"@);
            return true;
        }
        k += 1;
    }
    false
}

/// Split a transcript of phones into words.
pub fn split_phone_words(text: &str) -> (r: Vec<Vec<String>>)
    ensures
        groups_view(r@) == phone_words(text@),
{
    let cs = chars_of(text);
    let spaces = chars_of(SPACES);
    let chunks = find_chunks(cs.as_slice(), spaces.as_slice());
    let words = split_groups(&chunks, spaces.as_slice());
    if find_separator(cs.as_slice(), spaces.as_slice()) {
        return words;
    }
    let ghost gv = groups_view(words@);
    let mut out: Vec<Vec<String>> = Vec::new();
    assert(groups_view(out@) =~= seq![]);
    let mut i: usize = 0;
    while i < words.len()
        invariant
            gv == groups_view(words@),
            i <= words@.len(),
            groups_view(out@) == singles(gv, i as int),
        decreases words.len() - i,
    {
        let ghost before = groups_view(out@);
        let ghost g = gv[i as int];
        assert(g == texts(words@[i as int]@));
        let mut k: usize = 0;
        assert(before + Seq::new(0, |k: int| seq![g[k]]) =~= before);
        while k < words[i].len()
            invariant
                i < words@.len(),
                g == texts(words@[i as int]@),
                k <= words@[i as int]@.len(),
                groups_view(out@) == before + Seq::new(k as nat, |k: int| seq![g[k]]),
            decreases words@[i as int]@.len() - k,
        {
            let mut one: Vec<String> = Vec::new();
            one.push(String::from_str(words[i][k].as_str()));
            proof {
                assert(texts(one@) =~= seq![g[k as int]]);
            }
            let ghost had = out@;
            out.push(one);
            proof {
                assert(groups_view(out@) =~= groups_view(had).push(seq![g[k as int]]));
                assert(groups_view(out@) =~= before + Seq::new((k + 1) as nat, |k: int| seq![g[k]]));
            }
            k += 1;
        }
        i += 1;
    }
    out
}

/// Every token of a text of words.
pub open spec fn token_groups(text: Seq<char>) -> Seq<Seq<Seq<char>>> {
    let toks = words_of(text, SPACES@);
    Seq::new(toks.len(), |i: int| seq![toks[i]])
}

fn split_tokens(text: &str) -> (r: Vec<Vec<String>>)
    ensures
        groups_view(r@) == token_groups(text@),
{
    let cs = chars_of(text);
    let spaces = chars_of(SPACES);
    let toks = split_words(cs.as_slice(), spaces.as_slice());
    let ghost tv = words_of(text@, SPACES@);
    let mut out: Vec<Vec<String>> = Vec::new();
    let mut i: usize = 0;
    while i < toks.len()
        invariant
            views(toks@) == tv,
            i <= toks@.len(),
            out@.len() == i,
            forall|k: int| 0 <= k < i ==> texts((#[trigger] out@[k])@) == seq![tv[k]],
        decreases toks.len() - i,
    {
        assert(tv[i as int] == toks@[i as int]@);
        let mut one: Vec<String> = Vec::new();
        one.push(string_of(toks[i]));
        assert(texts(one@) =~= seq![tv[i as int]]);
        out.push(one);
        i += 1;
    }
    assert(groups_view(out@) =~= token_groups(text@));
    out
}

/// Texts with a space between them.
pub open spec fn spaced(v: Seq<Seq<char>>) -> Seq<char>
    decreases v.len(),
{
    if v.len() == 0 {
        seq![]
    } else if v.len() == 1 {
        v[0]
    } else {
        spaced(v.drop_last()) + " "@ + v.last()
    }
}

/// Put spaces between texts.
pub(crate) fn join_spaced(v: &Vec<String>) -> (r: String)
    ensures
        r@ == spaced(texts(v@)),
{
    let ghost tv = texts(v@);
    let mut out = String::new();
    let mut i: usize = 0;
    assert(out@ =~= spaced(tv.take(0)));
    while i < v.len()
        invariant
            tv == texts(v@),
            i <= v@.len(),
            out@ == spaced(tv.take(i as int)),
        decreases v.len() - i,
    {
        proof {
            assert(tv[i as int] == v@[i as int]@);
            assert(tv.take(i + 1).drop_last() =~= tv.take(i as int));
            assert(tv.take(i + 1).last() == tv[i as int]);
        }
        if i > 0 {
            out.append(" ");
        }
        let ghost before = out@;
        out.append(v[i].as_str());
        proof {
            if i == 0 {
                assert(spaced(tv.take(0)) =~= seq![]);
                assert(out@ =~= tv[0]);
            }
        }
        i += 1;
    }
    assert(tv.take(i as int) =~= tv);
    out
}

/// What a corpus has so far, and the words and pronunciations of an utterance.
#[verifier::ext_equal]
pub struct PushState {
    pub table: Seq<Seq<char>>,
    pub oov: Seq<(Seq<char>, int)>,
    pub words: Seq<Seq<char>>,
    pub prons: Seq<Seq<PronView>>,
}

/// The pronunciations of a group: those of its word in a dictionary, the phone of unknown words for
/// a word that is not there, none for mere punctuation; without a dictionary its own phones.
pub open spec fn group_entries(
    group: Seq<Seq<char>>,
    dict: Option<Seq<(Seq<char>, Seq<EntryView>)>>,
    rules: PhoneRules,
) -> Option<Seq<EntryView>> {
    match dict {
        Some(d) => {
            let key = normal(group[0]);
            if key.len() == 0 {
                None
            } else {
                match prons_of(d, key) {
                    Some(es) => Some(es),
                    None => Some(seq![plain_entry(seq![rules.oov])]),
                }
            }
        },
        None => Some(
            seq![plain_entry(Seq::new(group.len(), |k: int| untagged(group[k])))],
        ),
    }
}

/// The word of the group is not in the dictionary.
pub open spec fn is_unknown(group: Seq<Seq<char>>, dict: Option<Seq<(Seq<char>, Seq<EntryView>)>>) -> bool {
    dict is Some && normal(group[0]).len() > 0 && prons_of(dict->0, normal(group[0])) is None
}

/// The state after a group.
pub open spec fn after_group(
    s: PushState,
    group: Seq<Seq<char>>,
    dict: Option<Seq<(Seq<char>, Seq<EntryView>)>>,
    rules: PhoneRules,
) -> PushState {
    match group_entries(group, dict, rules) {
        None => s,
        Some(es) => PushState {
            table: prons_table(s.table, es, es.len() as int, rules),
            oov: if is_unknown(group, dict) {
                one_more(s.oov, normal(group[0]))
            } else {
                s.oov
            },
            words: s.words.push(spaced(group)),
            prons: s.prons.push(prons_numbered(s.table, es, es.len() as int, rules)),
        },
    }
}

/// The state after the first `n` groups.
pub open spec fn after_groups(
    s: PushState,
    groups: Seq<Seq<Seq<char>>>,
    n: int,
    dict: Option<Seq<(Seq<char>, Seq<EntryView>)>>,
    rules: PhoneRules,
) -> PushState
    decreases n,
{
    if n <= 0 {
        s
    } else {
        after_group(after_groups(s, groups, n - 1, dict, rules), groups[n - 1], dict, rules)
    }
}

pub(crate) proof fn groups_table_grows(
    s: PushState,
    groups: Seq<Seq<Seq<char>>>,
    a: int,
    b: int,
    dict: Option<Seq<(Seq<char>, Seq<EntryView>)>>,
    rules: PhoneRules,
)
    requires
        0 <= a <= b,
    ensures
        after_groups(s, groups, a, dict, rules).table.len() <= after_groups(
            s,
            groups,
            b,
            dict,
            rules,
        ).table.len(),
    decreases b,
{
    if a < b {
        let before = after_groups(s, groups, b - 1, dict, rules);
        match group_entries(groups[b - 1], dict, rules) {
            None => {},
            Some(es) => {
                prons_table_grows(before.table, es, 0, es.len() as int, rules);
            },
        }
        groups_table_grows(s, groups, a, b - 1, dict, rules);
    }
}

/// No count is above a limit.
pub open spec fn counts_below(v: Seq<(Seq<char>, int)>, limit: int) -> bool {
    forall|i: int| 0 <= i < v.len() ==> (#[trigger] v[i]).1 <= limit
}

proof fn counts_rise_by_one(v: Seq<(Seq<char>, int)>, name: Seq<char>, limit: int)
    requires
        counts_below(v, limit),
        0 <= limit,
    ensures
        counts_below(one_more(v, name), limit + 1),
    decreases v.len(),
{
    let w = one_more(v, name);
    if v.len() > 0 && v[0].0 != name && !crate::io::names::before(name, v[0].0) {
        let rest = v.skip(1);
        assert forall|i: int| 0 <= i < rest.len() implies (#[trigger] rest[i]).1 <= limit by {
            assert(rest[i] == v[i + 1]);
        }
        counts_rise_by_one(rest, name, limit);
        assert forall|i: int| 0 <= i < w.len() implies (#[trigger] w[i]).1 <= limit + 1 by {
            if i > 0 {
                assert(w[i] == one_more(rest, name)[i - 1]);
            } else {
                assert(w[0] == v[0]);
            }
        }
    } else if v.len() > 0 && v[0].0 == name {
        assert forall|i: int| 0 <= i < w.len() implies (#[trigger] w[i]).1 <= limit + 1 by {
            assert(v[i].1 <= limit);
        }
    } else if v.len() > 0 {
        assert forall|i: int| 0 <= i < w.len() implies (#[trigger] w[i]).1 <= limit + 1 by {
            if i > 0 {
                assert(w[i] == v[i - 1]);
            }
        }
    }
}

/// What an utterance is.
#[verifier::ext_equal]
pub struct UttView {
    pub id: Seq<char>,
    pub speaker: Seq<char>,
    pub audio: Seq<char>,
    pub words: Seq<Seq<char>>,
    pub prons: Seq<Seq<PronView>>,
    pub text: Seq<char>,
}

/// What pronunciations are.
pub open spec fn pron_views(v: Seq<Pronunciation>) -> Seq<PronView> {
    Seq::new(v.len(), |i: int| v[i]@)
}

/// What the pronunciations of words are.
pub open spec fn word_prons(v: Seq<Vec<Pronunciation>>) -> Seq<Seq<PronView>> {
    Seq::new(v.len(), |i: int| pron_views(v[i]@))
}

impl View for Utterance {
    type V = UttView;

    open spec fn view(&self) -> UttView {
        UttView {
            id: self.id@,
            speaker: self.speaker@,
            audio: self.audio@,
            words: texts(self.words@),
            prons: word_prons(self.prons@),
            text: self.text@,
        }
    }
}

/// What utterances are.
pub open spec fn utt_views(v: Seq<Utterance>) -> Seq<UttView> {
    Seq::new(v.len(), |i: int| v[i]@)
}

/// Utterances with their speakers, the table of their phones, and the words that no pronunciation was
/// found for.
#[derive(Debug)]
pub struct Corpus {
    pub utts: Vec<Utterance>,
    pub speakers: Vec<String>,
    pub phones: SymbolTable,
    pub silence_phones: Vec<PhoneId>,
    pub oov_words: Vec<Counted>,
}

/// What a corpus is.
#[verifier::ext_equal]
pub struct CorpusView {
    pub utts: Seq<UttView>,
    pub speakers: Seq<Seq<char>>,
    pub phones: Seq<Seq<char>>,
    pub silence_phones: Seq<PhoneId>,
    pub oov_words: Seq<(Seq<char>, int)>,
}

impl View for Corpus {
    type V = CorpusView;

    open spec fn view(&self) -> CorpusView {
        CorpusView {
            utts: utt_views(self.utts@),
            speakers: texts(self.speakers@),
            phones: self.phones@,
            silence_phones: self.silence_phones@,
            oov_words: counts(self.oov_words@),
        }
    }
}

/// The names with one added at the end, unless it is there already.
pub open spec fn with_speaker(v: Seq<Seq<char>>, name: Seq<char>) -> Seq<Seq<char>> {
    if v.contains(name) {
        v
    } else {
        v.push(name)
    }
}

/// The corpus with an utterance added; only words count, so a transcript without any adds nothing.
pub open spec fn with_utterance(
    c: CorpusView,
    id: Seq<char>,
    speaker: Seq<char>,
    audio: Seq<char>,
    text: Seq<char>,
    dict: Option<Seq<(Seq<char>, Seq<EntryView>)>>,
    rules: PhoneRules,
) -> CorpusView {
    let groups = if dict is Some {
        token_groups(text)
    } else {
        phone_words(text)
    };
    let s = after_groups(
        PushState { table: c.phones, oov: c.oov_words, words: seq![], prons: seq![] },
        groups,
        groups.len() as int,
        dict,
        rules,
    );
    if s.words.len() == 0 {
        CorpusView { phones: s.table, oov_words: s.oov, ..c }
    } else {
        CorpusView {
            utts: c.utts.push(
                UttView {
                    id,
                    speaker,
                    audio,
                    words: s.words,
                    prons: s.prons,
                    text: trimmed(text, SPACES@),
                },
            ),
            speakers: with_speaker(c.speakers, speaker),
            phones: s.table,
            silence_phones: c.silence_phones,
            oov_words: s.oov,
        }
    }
}

/// The table with the variants of the first `n` phones added.
pub open spec fn variants_added(
    table: Seq<Seq<char>>,
    phones: Seq<Seq<char>>,
    n: int,
    rules: PhoneRules,
) -> Seq<Seq<char>>
    decreases n,
{
    if n <= 0 {
        table
    } else {
        let v = rules.variants(phones[n - 1]);
        with_symbols(variants_added(table, phones, n - 1, rules), v, v.len() as int)
    }
}

pub(crate) proof fn variants_grow(table: Seq<Seq<char>>, phones: Seq<Seq<char>>, a: int, b: int, rules: PhoneRules)
    requires
        0 <= a <= b,
    ensures
        table.len() <= variants_added(table, phones, a, rules).len() <= variants_added(
            table,
            phones,
            b,
            rules,
        ).len(),
    decreases b,
{
    if b > 0 {
        let v = rules.variants(phones[b - 1]);
        table_grows(variants_added(table, phones, b - 1, rules), v, 0, v.len() as int);
        if a < b {
            variants_grow(table, phones, a, b - 1, rules);
        } else {
            variants_grow(table, phones, b - 1, b - 1, rules);
        }
    }
}

/// The table of a corpus without utterances: epsilon, silence, the phone of unknown words, and the
/// variants of the dictionary's phones.
pub open spec fn first_table(
    dict: Option<Seq<(Seq<char>, Seq<EntryView>)>>,
    rules: PhoneRules,
) -> Seq<Seq<char>> {
    let base = with_symbol(
        with_symbol(seq![crate::types::EPSILON@], rules.silence),
        rules.oov,
    );
    match dict {
        Some(d) => {
            let phones = phones_upto(d, d.len() as int);
            variants_added(base, phones, phones.len() as int, rules)
        },
        None => base,
    }
}

/// A corpus without utterances.
pub open spec fn first_corpus(
    dict: Option<Seq<(Seq<char>, Seq<EntryView>)>>,
    rules: PhoneRules,
) -> CorpusView {
    let base = with_symbol(
        with_symbol(seq![crate::types::EPSILON@], rules.silence),
        rules.oov,
    );
    CorpusView {
        utts: seq![],
        speakers: seq![],
        phones: first_table(dict, rules),
        silence_phones: seq![id_of(base, rules.silence), id_of(base, rules.oov)],
        oov_words: seq![],
    }
}

/// Add symbols to a table.
fn add_symbols(table: &mut SymbolTable, syms: &Vec<String>) -> (r: Vec<PhoneId>)
    requires
        is_table(old(table)@),
        with_symbols(old(table)@, texts(syms@), syms@.len() as int).len() <= u32::MAX + 1,
    ensures
        final(table)@ == with_symbols(old(table)@, texts(syms@), syms@.len() as int),
        is_table(final(table)@),
        r@ == Seq::new(syms@.len(), |k: int| id_of(final(table)@, syms@[k]@)),
{
    let ghost t0 = table@;
    let ghost sv = texts(syms@);
    let mut out: Vec<PhoneId> = Vec::new();
    let mut i: usize = 0;
    while i < syms.len()
        invariant
            is_table(t0),
            sv == texts(syms@),
            with_symbols(t0, sv, syms@.len() as int).len() <= u32::MAX + 1,
            i <= syms@.len(),
            table@ == with_symbols(t0, sv, i as int),
            is_table(table@),
            out@.len() == i,
            forall|k: int|
                0 <= k < i ==> number_of(with_symbols(t0, sv, k + 1), sv[k]) == Some(
                    #[trigger] out@[k] as int,
                ),
        decreases syms.len() - i,
    {
        proof {
            assert(sv[i as int] == syms@[i as int]@);
            table_grows(t0, sv, i + 1, syms@.len() as int);
        }
        let n: PhoneId = table.add(syms[i].as_str());
        out.push(n);
        i += 1;
    }
    proof {
        assert forall|k: int| 0 <= k < syms@.len() implies out@[k] == id_of(table@, syms@[k]@) by {
            assert(sv[k] == syms@[k]@);
            assert(number_of(with_symbols(t0, sv, k + 1), sv[k]) == Some(out@[k] as int));
            added_symbol_stays(t0, sv, k, syms@.len() as int);
        }
        assert(out@ =~= Seq::new(syms@.len(), |k: int| id_of(table@, syms@[k]@)));
    }
    out
}

/// Builds a corpus, utterance by utterance.
#[derive(Debug)]
pub struct CorpusBuilder {
    opts: CorpusOptions,
    dict: Option<Dictionary>,
    phones: SymbolTable,
    silence_phones: Vec<PhoneId>,
    speakers: Vec<String>,
    utts: Vec<Utterance>,
    oov_words: Vec<Counted>,
}

/// The dictionary, if there is one.
pub open spec fn dict_view(d: Option<Dictionary>) -> Option<Seq<(Seq<char>, Seq<EntryView>)>> {
    match d {
        Some(d) => Some(d@),
        None => None,
    }
}

impl CorpusBuilder {
    /// The corpus so far.
    pub closed spec fn corpus(&self) -> CorpusView {
        CorpusView {
            utts: utt_views(self.utts@),
            speakers: texts(self.speakers@),
            phones: self.phones@,
            silence_phones: self.silence_phones@,
            oov_words: counts(self.oov_words@),
        }
    }

    pub closed spec fn dictionary(&self) -> Option<Seq<(Seq<char>, Seq<EntryView>)>> {
        dict_view(self.dict)
    }

    pub closed spec fn rules(&self) -> PhoneRules {
        self.opts.rules()
    }

    /// The phones are a table, and the unknown words are sorted.
    pub open spec fn wf(&self) -> bool {
        is_table(self.corpus().phones) && counts_in_order(self.corpus().oov_words)
    }

    fn is_special(&self, base: &str) -> (r: bool)
        ensures
            r == self.opts.rules().is_special(base@),
    {
        same_text(base, self.opts.silence_phone.as_str()) || same_text(
            base,
            self.opts.oov_phone.as_str(),
        )
    }

    /// The symbols of a phone in all its positions.
    fn list_variants(&self, phone: &str) -> (r: Vec<String>)
        ensures
            texts(r@) == self.opts.rules().variants(phone@),
    {
        let base = untag_phone(phone);
        let mut out: Vec<String> = Vec::new();
        if self.is_special(base.as_str()) || !self.opts.position_dependent {
            out.push(base);
        } else {
            out.push(crate::text::joined(base.as_str(), POS_BEGIN));
            out.push(crate::text::joined(base.as_str(), POS_END));
            out.push(crate::text::joined(base.as_str(), POS_INTERNAL));
            out.push(crate::text::joined(base.as_str(), POS_SINGLETON));
        }
        assert(texts(out@) =~= self.opts.rules().variants(phone@));
        out
    }

    /// Add a phone in all its positions to the table.
    fn add_phone_variants(&mut self, phone: &str)
        requires
            is_table(old(self).phones@),
            ({
                let v = old(self).opts.rules().variants(phone@);
                with_symbols(old(self).phones@, v, v.len() as int).len() <= u32::MAX + 1
            }),
        ensures
            final(self).phones@ == ({
                let v = old(self).opts.rules().variants(phone@);
                with_symbols(old(self).phones@, v, v.len() as int)
            }),
            is_table(final(self).phones@),
            final(self).opts == old(self).opts,
            final(self).dict == old(self).dict,
            final(self).silence_phones == old(self).silence_phones,
            final(self).speakers == old(self).speakers,
            final(self).utts == old(self).utts,
            final(self).oov_words == old(self).oov_words,
    {
        let syms = self.list_variants(phone);
        let _ids = add_symbols(&mut self.phones, &syms);
    }

    /// A builder of a corpus without utterances.
    pub fn new(opts: CorpusOptions, dict: Option<Dictionary>) -> (r: Self)
        requires
            first_table(dict_view(dict), opts.rules()).len() <= u32::MAX + 1,
        ensures
            r.corpus() == first_corpus(dict_view(dict), opts.rules()),
            r.dictionary() == dict_view(dict),
            r.rules() == opts.rules(),
            r.wf(),
    {
        let ghost rules = opts.rules();
        let ghost dv = dict_view(dict);
        let mut phones = SymbolTable::new();
        let ghost t0 = phones@;
        let ghost base = with_symbol(with_symbol(t0, rules.silence), rules.oov);
        proof {
            if dict is Some {
                let ps = phones_upto(dv->0, dv->0.len() as int);
                variants_grow(base, ps, 0, ps.len() as int, rules);
            }
        }
        let sil: PhoneId = phones.add(opts.silence_phone.as_str());
        let ghost t1 = phones@;
        let spn: PhoneId = phones.add(opts.oov_phone.as_str());
        proof {
            assert(t1.contains(rules.silence));
            numbers_are_kept(t1, rules.oov, rules.silence);
            assert(phones@ == base);
        }
        let names = match &dict {
            Some(d) => Some(d.phones()),
            None => None,
        };
        let mut silence_phones: Vec<PhoneId> = Vec::new();
        silence_phones.push(sil);
        silence_phones.push(spn);
        assert(silence_phones@ =~= seq![id_of(base, rules.silence), id_of(base, rules.oov)]);
        let mut b = CorpusBuilder {
            opts,
            dict,
            phones,
            silence_phones,
            speakers: Vec::new(),
            utts: Vec::new(),
            oov_words: Vec::new(),
        };
        proof {
            assert(utt_views(b.utts@) =~= seq![]);
            assert(texts(b.speakers@) =~= seq![]);
            assert(counts(b.oov_words@) =~= seq![]);
        }
        match names {
            None => {},
            Some(v) => {
                let ghost ps = texts(v@);
                let ghost first = b;
                let mut i: usize = 0;
                while i < v.len()
                    invariant
                        ps == texts(v@),
                        rules == b.opts.rules(),
                        b.opts == first.opts,
                        b.dict == first.dict,
                        b.silence_phones == first.silence_phones,
                        b.speakers == first.speakers,
                        b.utts == first.utts,
                        b.oov_words == first.oov_words,
                        variants_added(base, ps, ps.len() as int, rules).len() <= u32::MAX + 1,
                        i <= v@.len(),
                        b.phones@ == variants_added(base, ps, i as int, rules),
                        is_table(b.phones@),
                    decreases v.len() - i,
                {
                    proof {
                        assert(ps[i as int] == v@[i as int]@);
                        variants_grow(base, ps, i + 1, ps.len() as int, rules);
                    }
                    b.add_phone_variants(v[i].as_str());
                    i += 1;
                }
            },
        }
        b
    }

    /// The symbol of phone `i` of a pronunciation of `n` phones.
    fn make_symbol(&self, phone: &str, i: usize, n: usize) -> (r: String)
        requires
            i < n,
        ensures
            r@ == self.opts.rules().symbol(phone@, i as int, n as int),
    {
        let base = untag_phone(phone);
        if !self.opts.position_dependent || self.is_special(base.as_str()) {
            base
        } else if n == 1 {
            crate::text::joined(base.as_str(), POS_SINGLETON)
        } else if i == 0 {
            crate::text::joined(base.as_str(), POS_BEGIN)
        } else if i + 1 == n {
            crate::text::joined(base.as_str(), POS_END)
        } else {
            crate::text::joined(base.as_str(), POS_INTERNAL)
        }
    }

    /// Number the phones of a pronunciation.
    fn resolve_pron(&mut self, entry: &DictEntry) -> (r: Pronunciation)
        requires
            is_table(old(self).phones@),
            ({
                let syms = old(self).opts.rules().symbols(entry@.phones);
                with_symbols(old(self).phones@, syms, syms.len() as int).len() <= u32::MAX + 1
            }),
        ensures
            final(self).phones@ == ({
                let syms = old(self).opts.rules().symbols(entry@.phones);
                with_symbols(old(self).phones@, syms, syms.len() as int)
            }),
            is_table(final(self).phones@),
            r@ == numbered(final(self).phones@, entry@, old(self).opts.rules()),
            final(self).opts == old(self).opts,
            final(self).dict == old(self).dict,
            final(self).silence_phones == old(self).silence_phones,
            final(self).speakers == old(self).speakers,
            final(self).utts == old(self).utts,
            final(self).oov_words == old(self).oov_words,
    {
        let n: usize = entry.phones.len();
        let ghost want = self.opts.rules().symbols(entry@.phones);
        let mut syms: Vec<String> = Vec::new();
        let mut i: usize = 0;
        while i < n
            invariant
                n == entry.phones@.len(),
                want == self.opts.rules().symbols(entry@.phones),
                i <= n,
                syms@.len() == i,
                forall|k: int| 0 <= k < i ==> (#[trigger] syms@[k])@ == want[k],
            decreases n - i,
        {
            assert(entry@.phones[i as int] == entry.phones@[i as int]@);
            syms.push(self.make_symbol(entry.phones[i].as_str(), i, n));
            i += 1;
        }
        assert(texts(syms@) =~= want);
        let phones = add_symbols(&mut self.phones, &syms);
        let p = Pronunciation {
            phones,
            prob: entry.prob,
            silence_after_prob: entry.silence_after_prob,
            silence_before_correction: entry.silence_before_correction,
            non_silence_before_correction: entry.non_silence_before_correction,
        };
        assert(p@ =~= numbered(self.phones@, entry@, self.opts.rules()));
        p
    }

    /// Number the phones of pronunciations.
    fn resolve_all(&mut self, entries: &Vec<DictEntry>) -> (r: Vec<Pronunciation>)
        requires
            is_table(old(self).phones@),
            prons_table(
                old(self).phones@,
                entry_views(entries@),
                entries@.len() as int,
                old(self).opts.rules(),
            ).len() <= u32::MAX + 1,
        ensures
            final(self).phones@ == prons_table(
                old(self).phones@,
                entry_views(entries@),
                entries@.len() as int,
                old(self).opts.rules(),
            ),
            is_table(final(self).phones@),
            pron_views(r@) == prons_numbered(
                old(self).phones@,
                entry_views(entries@),
                entries@.len() as int,
                old(self).opts.rules(),
            ),
            final(self).opts == old(self).opts,
            final(self).dict == old(self).dict,
            final(self).silence_phones == old(self).silence_phones,
            final(self).speakers == old(self).speakers,
            final(self).utts == old(self).utts,
            final(self).oov_words == old(self).oov_words,
    {
        let ghost t0 = self.phones@;
        let ghost es = entry_views(entries@);
        let ghost rules = self.opts.rules();
        let mut out: Vec<Pronunciation> = Vec::new();
        assert(pron_views(out@) =~= seq![]);
        let mut i: usize = 0;
        while i < entries.len()
            invariant
                es == entry_views(entries@),
                rules == self.opts.rules(),
                self.opts == old(self).opts,
                self.dict == old(self).dict,
                self.silence_phones == old(self).silence_phones,
                self.speakers == old(self).speakers,
                self.utts == old(self).utts,
                self.oov_words == old(self).oov_words,
                prons_table(t0, es, es.len() as int, rules).len() <= u32::MAX + 1,
                i <= entries@.len(),
                self.phones@ == prons_table(t0, es, i as int, rules),
                is_table(self.phones@),
                pron_views(out@) == prons_numbered(t0, es, i as int, rules),
            decreases entries.len() - i,
        {
            proof {
                assert(es[i as int] == entries@[i as int]@);
                prons_table_grows(t0, es, i + 1, es.len() as int, rules);
            }
            let p = self.resolve_pron(&entries[i]);
            let ghost had = out@;
            out.push(p);
            assert(pron_views(out@) =~= pron_views(had).push(p@));
            i += 1;
        }
        out
    }

    /// The pronunciations of a group.
    fn find_entries(&self, group: &Vec<String>) -> (r: Option<Vec<DictEntry>>)
        requires
            group@.len() > 0,
        ensures
            (match r {
                Some(v) => Some(entry_views(v@)),
                None => None,
            }) == group_entries(texts(group@), dict_view(self.dict), self.opts.rules()),
    {
        let ghost g = texts(group@);
        assert(g[0] == group@[0]@);
        match &self.dict {
            Some(d) => {
                let key = normalize_word(group[0].as_str());
                if key.as_str().unicode_len() == 0 {
                    return None;
                }
                match d.lookup_key(key.as_str()) {
                    Some(es) => Some(copy_entries(es)),
                    None => {
                        let mut phones: Vec<String> = Vec::new();
                        phones.push(String::from_str(self.opts.oov_phone.as_str()));
                        assert(texts(phones@) =~= seq![self.opts.rules().oov]);
                        let mut es: Vec<DictEntry> = Vec::new();
                        es.push(DictEntry::plain(phones));
                        assert(entry_views(es@) =~= seq![
                            plain_entry(seq![self.opts.rules().oov]),
                        ]);
                        Some(es)
                    },
                }
            },
            None => {
                let mut phones: Vec<String> = Vec::new();
                let mut i: usize = 0;
                while i < group.len()
                    invariant
                        g == texts(group@),
                        i <= group@.len(),
                        phones@.len() == i,
                        forall|k: int| 0 <= k < i ==> (#[trigger] phones@[k])@ == untagged(g[k]),
                    decreases group.len() - i,
                {
                    phones.push(untag_phone(group[i].as_str()));
                    i += 1;
                }
                assert(texts(phones@) =~= Seq::new(g.len(), |k: int| untagged(g[k])));
                let mut es: Vec<DictEntry> = Vec::new();
                es.push(DictEntry::plain(phones));
                assert(entry_views(es@) =~= seq![
                    plain_entry(Seq::new(g.len(), |k: int| untagged(g[k]))),
                ]);
                Some(es)
            },
        }
    }

    /// Whether the word of a group is not in the dictionary.
    fn check_unknown(&self, group: &Vec<String>) -> (r: bool)
        requires
            group@.len() > 0,
        ensures
            r == is_unknown(texts(group@), dict_view(self.dict)),
    {
        assert(texts(group@)[0] == group@[0]@);
        match &self.dict {
            Some(d) => {
                let key = normalize_word(group[0].as_str());
                key.as_str().unicode_len() > 0 && d.lookup_key(key.as_str()).is_none()
            },
            None => false,
        }
    }

    /// How many groups a transcript has, with this dictionary.
    pub open spec fn groups(&self, text: Seq<char>) -> Seq<Seq<Seq<char>>> {
        if self.dictionary() is Some {
            token_groups(text)
        } else {
            phone_words(text)
        }
    }

    /// Add an utterance. Nothing is added for a transcript without words.
    pub fn push(&mut self, id: String, speaker: String, audio: String, text: &str)
        requires
            old(self).wf(),
            with_utterance(
                old(self).corpus(),
                id@,
                speaker@,
                audio@,
                text@,
                old(self).dictionary(),
                old(self).rules(),
            ).phones.len() <= u32::MAX + 1,
            counts_below(
                old(self).corpus().oov_words,
                usize::MAX - 1 - old(self).groups(text@).len(),
            ),
            old(self).groups(text@).len() < usize::MAX,
        ensures
            final(self).corpus() == with_utterance(
                old(self).corpus(),
                id@,
                speaker@,
                audio@,
                text@,
                old(self).dictionary(),
                old(self).rules(),
            ),
            final(self).dictionary() == old(self).dictionary(),
            final(self).rules() == old(self).rules(),
            final(self).wf(),
    {
        let ghost c0 = self.corpus();
        let ghost dv = dict_view(self.dict);
        let ghost rules = self.opts.rules();
        let groups = if self.dict.is_some() {
            split_tokens(text)
        } else {
            split_phone_words(text)
        };
        let ghost gv = groups_view(groups@);
        proof {
            groups_are_not_empty(text@);
        }
        let ghost s0 = PushState {
            table: c0.phones,
            oov: c0.oov_words,
            words: seq![],
            prons: seq![],
        };
        let ghost room = usize::MAX - 1 - gv.len();
        let mut words: Vec<String> = Vec::new();
        let mut prons: Vec<Vec<Pronunciation>> = Vec::new();
        proof {
            assert(texts(words@) =~= seq![]);
            assert(word_prons(prons@) =~= seq![]);
        }
        let mut i: usize = 0;
        while i < groups.len()
            invariant
                gv == groups_view(groups@),
                forall|k: int| 0 <= k < gv.len() ==> (#[trigger] gv[k]).len() > 0,
                dv == dict_view(self.dict),
                rules == self.opts.rules(),
                self.opts == old(self).opts,
                self.dict == old(self).dict,
                self.silence_phones == old(self).silence_phones,
                self.speakers == old(self).speakers,
                self.utts == old(self).utts,
                s0 == (PushState {
                    table: c0.phones,
                    oov: c0.oov_words,
                    words: seq![],
                    prons: seq![],
                }),
                after_groups(s0, gv, gv.len() as int, dv, rules).table.len() <= u32::MAX + 1,
                room == usize::MAX - 1 - gv.len(),
                0 <= room,
                i <= groups@.len(),
                is_table(self.phones@),
                counts_in_order(counts(self.oov_words@)),
                counts_below(counts(self.oov_words@), room + i),
                self.phones@ == after_groups(s0, gv, i as int, dv, rules).table,
                counts(self.oov_words@) == after_groups(s0, gv, i as int, dv, rules).oov,
                texts(words@) == after_groups(s0, gv, i as int, dv, rules).words,
                word_prons(prons@) == after_groups(s0, gv, i as int, dv, rules).prons,
            decreases groups.len() - i,
        {
            let group = &groups[i];
            let ghost g = gv[i as int];
            let ghost before = after_groups(s0, gv, i as int, dv, rules);
            proof {
                assert(g == texts(group@));
                groups_table_grows(s0, gv, i + 1, gv.len() as int, dv, rules);
            }
            match self.find_entries(group) {
                None => {
                    assert forall|k: int| 0 <= k < counts(self.oov_words@).len() implies (
                    #[trigger] counts(self.oov_words@)[k]).1 <= room + i + 1 by {}
                },
                Some(es) => {
                    if self.check_unknown(group) {
                        let key = normalize_word(group[0].as_str());
                        proof {
                            counts_rise_by_one(counts(self.oov_words@), key@, room + i);
                            assert forall|k: int| 0 <= k < self.oov_words@.len() implies (
                            #[trigger] self.oov_words@[k]).count < usize::MAX by {
                                assert(counts(self.oov_words@)[k].1 <= room + i);
                            }
                        }
                        count_name(&mut self.oov_words, key.as_str());
                    }
                    let ps = self.resolve_all(&es);
                    let ghost had_words = words@;
                    let ghost had_prons = prons@;
                    words.push(join_spaced(group));
                    prons.push(ps);
                    proof {
                        assert(texts(words@) =~= texts(had_words).push(spaced(g)));
                        assert(word_prons(prons@) =~= word_prons(had_prons).push(pron_views(ps@)));
                    }
                },
            }
            i += 1;
        }
        if words.len() == 0 {
            assert(texts(words@).len() == 0);
            return;
        }
        assert(texts(words@).len() > 0);
        let mut known: bool = false;
        let mut k: usize = 0;
        let ghost sp = texts(self.speakers@);
        while k < self.speakers.len()
            invariant
                sp == texts(self.speakers@),
                k <= self.speakers@.len(),
                known == exists|m: int| 0 <= m < k && sp[m] == speaker@,
            decreases self.speakers.len() - k,
        {
            assert(sp[k as int] == self.speakers@[k as int]@);
            if same_text(self.speakers[k].as_str(), speaker.as_str()) {
                assert(sp[k as int] == speaker@);
                known = true;
            }
            k += 1;
        }
        assert(known == sp.contains(speaker@));
        if !known {
            self.speakers.push(String::from_str(speaker.as_str()));
        }
        assert(texts(self.speakers@) =~= with_speaker(sp, speaker@));
        let cs = chars_of(text);
        let spaces = chars_of(SPACES);
        let trimmed_text = string_of(trim(cs.as_slice(), spaces.as_slice()));
        let ghost had = self.utts@;
        let u = Utterance { id, speaker, audio, words, prons, text: trimmed_text };
        let ghost uv = u@;
        self.utts.push(u);
        assert(utt_views(self.utts@) =~= utt_views(had).push(uv));
    }

    /// How many utterances there are so far.
    pub fn len(&self) -> (r: usize)
        ensures
            r == self.corpus().utts.len(),
    {
        self.utts.len()
    }

    /// The corpus.
    pub fn finish(self) -> (r: Corpus)
        ensures
            r@ == self.corpus(),
    {
        Corpus {
            utts: self.utts,
            speakers: self.speakers,
            phones: self.phones,
            silence_phones: self.silence_phones,
            oov_words: self.oov_words,
        }
    }
}

/// No group of a transcript is empty.
proof fn groups_are_not_empty(text: Seq<char>)
    ensures
        forall|k: int| 0 <= k < token_groups(text).len() ==> (#[trigger] token_groups(text)[k]).len() > 0,
        forall|k: int| 0 <= k < phone_words(text).len() ==> (#[trigger] phone_words(text)[k]).len() > 0,
{
    let lines = lines_of(text);
    let chunks = chunks_upto(lines, lines.len() as int);
    chunk_groups_are_not_empty(chunks, chunks.len() as int);
    let groups = groups_upto(chunks, chunks.len() as int);
    singles_are_not_empty(groups, groups.len() as int);
}

proof fn bar_groups_are_not_empty(toks: Seq<Seq<char>>, n: int)
    ensures
        forall|k: int|
            0 <= k < bar_groups(toks, n).0.len() ==> (#[trigger] bar_groups(toks, n).0[k]).len() > 0,
    decreases n,
{
    if n > 0 {
        bar_groups_are_not_empty(toks, n - 1);
        let (done, cur) = bar_groups(toks, n - 1);
        let now = bar_groups(toks, n).0;
        assert forall|k: int| 0 <= k < now.len() implies (#[trigger] now[k]).len() > 0 by {
            if k < done.len() {
                assert(now[k] == done[k]);
                assert(bar_groups(toks, n - 1).0[k].len() > 0);
            }
        }
    }
}

proof fn chunk_groups_are_not_empty(chunks: Seq<Seq<char>>, n: int)
    ensures
        forall|k: int|
            0 <= k < groups_upto(chunks, n).len() ==> (#[trigger] groups_upto(chunks, n)[k]).len() > 0,
    decreases n,
{
    if n > 0 {
        chunk_groups_are_not_empty(chunks, n - 1);
        let toks = words_of(chunks[n - 1], SPACES@);
        bar_groups_are_not_empty(toks, toks.len() as int);
        let before = groups_upto(chunks, n - 1);
        let more = chunk_groups(chunks[n - 1]);
        let done = bar_groups(toks, toks.len() as int).0;
        let now = groups_upto(chunks, n);
        assert forall|k: int| 0 <= k < now.len() implies (#[trigger] now[k]).len() > 0 by {
            if k < before.len() {
                assert(now[k] == before[k]);
            } else {
                assert(now[k] == more[k - before.len()]);
                if k - before.len() < done.len() {
                    assert(more[k - before.len()] == done[k - before.len()]);
                }
            }
        }
    }
}

proof fn singles_are_not_empty(groups: Seq<Seq<Seq<char>>>, n: int)
    ensures
        forall|k: int|
            0 <= k < singles(groups, n).len() ==> (#[trigger] singles(groups, n)[k]).len() > 0,
    decreases n,
{
    if n > 0 {
        singles_are_not_empty(groups, n - 1);
        let before = singles(groups, n - 1);
        let now = singles(groups, n);
        assert forall|k: int| 0 <= k < now.len() implies (#[trigger] now[k]).len() > 0 by {
            if k < before.len() {
                assert(now[k] == before[k]);
            }
        }
    }
}

fn copy_entries(v: &Vec<DictEntry>) -> (r: Vec<DictEntry>)
    ensures
        entry_views(r@) == entry_views(v@),
{
    let mut out: Vec<DictEntry> = Vec::new();
    let mut i: usize = 0;
    while i < v.len()
        invariant
            i <= v@.len(),
            out@.len() == i,
            forall|k: int| 0 <= k < i ==> (#[trigger] out@[k])@ == v@[k]@,
        decreases v.len() - i,
    {
        let e = &v[i];
        let c = DictEntry {
            phones: copy_texts(&e.phones),
            prob: e.prob,
            silence_after_prob: e.silence_after_prob,
            silence_before_correction: e.silence_before_correction,
            non_silence_before_correction: e.non_silence_before_correction,
        };
        assert(c@ =~= e@);
        out.push(c);
        i += 1;
    }
    assert(entry_views(out@) =~= entry_views(v@));
    out
}

/// The phone of a symbol without its position.
pub fn untag(phone: &str) -> (r: String)
    ensures
        r@ == untagged(phone@),
{
    untag_phone(phone)
}

/// The symbols among the first `n` that a table does not have, sorted.
pub open spec fn missing_upto(table: Seq<Seq<char>>, model: Seq<Seq<char>>, n: int) -> Seq<Seq<char>>
    decreases n,
{
    if n <= 0 {
        seq![]
    } else {
        let before = missing_upto(table, model, n - 1);
        if model.contains(table[n - 1]) {
            before
        } else {
            with_name(before, table[n - 1])
        }
    }
}

/// The missing symbols are sorted, and are those that the table does not have.
pub proof fn missing_are_those_not_there(
    table: Seq<Seq<char>>,
    model: Seq<Seq<char>>,
    n: int,
    x: Seq<char>,
)
    ensures
        in_order(missing_upto(table, model, n)),
        missing_upto(table, model, n).contains(x) <==> !model.contains(x) && exists|k: int|
            0 <= k < n && table[k] == x,
    decreases n,
{
    if n > 0 {
        missing_are_those_not_there(table, model, n - 1, x);
        name_is_added(missing_upto(table, model, n - 1), table[n - 1]);
        if exists|k: int| 0 <= k < n && table[k] == x {
            let k = choose|k: int| 0 <= k < n && table[k] == x;
            if k < n - 1 {
                assert(0 <= k < n - 1 && table[k] == x);
            }
        }
        if table[n - 1] == x {
            assert(0 <= n - 1 < n && table[n - 1] == x);
        }
    }
}

/// Phones that a model does not have.
#[derive(Debug)]
pub struct MissingPhones {
    pub phones: Vec<String>,
}

/// Texts with a comma and a space between them.
pub open spec fn listed(v: Seq<Seq<char>>) -> Seq<char>
    decreases v.len(),
{
    if v.len() == 0 {
        seq![]
    } else if v.len() == 1 {
        v[0]
    } else {
        listed(v.drop_last()) + ", "@ + v.last()
    }
}

impl MissingPhones {
    pub fn to_string(&self) -> (r: String)
        ensures
            r@ == "phones missing from the model's symbol table: "@ + listed(texts(self.phones@)),
    {
        let ghost tv = texts(self.phones@);
        let mut out = String::new();
        let mut i: usize = 0;
        assert(out@ =~= listed(tv.take(0)));
        while i < self.phones.len()
            invariant
                tv == texts(self.phones@),
                i <= self.phones@.len(),
                out@ == listed(tv.take(i as int)),
            decreases self.phones.len() - i,
        {
            proof {
                assert(tv[i as int] == self.phones@[i as int]@);
                assert(tv.take(i + 1).drop_last() =~= tv.take(i as int));
                assert(tv.take(i + 1).last() == tv[i as int]);
            }
            if i > 0 {
                out.append(", ");
            }
            out.append(self.phones[i].as_str());
            proof {
                if i == 0 {
                    assert(listed(tv.take(0)) =~= seq![]);
                    assert(out@ =~= tv[0]);
                }
            }
            i += 1;
        }
        assert(tv.take(i as int) =~= tv);
        crate::text::joined("phones missing from the model's symbol table: ", out.as_str())
    }
}

/// A phone's number in another table.
pub open spec fn moved(p: PhoneId, table: Seq<Seq<char>>, model: Seq<Seq<char>>) -> PhoneId {
    id_of(model, table[p as int])
}

/// The corpus with its phones numbered by another table.
pub open spec fn remapped(c: CorpusView, model: Seq<Seq<char>>) -> CorpusView {
    CorpusView {
        utts: Seq::new(
            c.utts.len(),
            |u: int|
                UttView {
                    prons: Seq::new(
                        c.utts[u].prons.len(),
                        |w: int|
                            Seq::new(
                                c.utts[u].prons[w].len(),
                                |k: int|
                                    PronView {
                                        phones: Seq::new(
                                            c.utts[u].prons[w][k].phones.len(),
                                            |p: int|
                                                moved(
                                                    c.utts[u].prons[w][k].phones[p],
                                                    c.phones,
                                                    model,
                                                ),
                                        ),
                                        ..c.utts[u].prons[w][k]
                                    },
                            ),
                    ),
                    ..c.utts[u]
                },
        ),
        phones: model,
        silence_phones: Seq::new(
            c.silence_phones.len(),
            |k: int| moved(c.silence_phones[k], c.phones, model),
        ),
        ..c
    }
}

/// All phones of the corpus are in its table.
pub open spec fn phones_are_numbered(c: CorpusView) -> bool {
    &&& forall|k: int| 0 <= k < c.silence_phones.len() ==> #[trigger] c.silence_phones[k] < c.phones.len()
    &&& forall|u: int, w: int, k: int, p: int|
        0 <= u < c.utts.len() && 0 <= w < c.utts[u].prons.len() && 0 <= k < c.utts[u].prons[w].len()
            && 0 <= p < c.utts[u].prons[w][k].phones.len()
            ==> #[trigger] c.utts[u].prons[w][k].phones[p] < c.phones.len()
}

fn map_phones(v: &Vec<PhoneId>, mapping: &Vec<PhoneId>) -> (r: Vec<PhoneId>)
    requires
        forall|k: int| 0 <= k < v@.len() ==> #[trigger] v@[k] < mapping@.len(),
    ensures
        r@ == Seq::new(v@.len(), |k: int| mapping@[v@[k] as int]),
{
    let mut out: Vec<PhoneId> = Vec::new();
    let mut i: usize = 0;
    while i < v.len()
        invariant
            forall|k: int| 0 <= k < v@.len() ==> #[trigger] v@[k] < mapping@.len(),
            i <= v@.len(),
            out@ == Seq::new(i as nat, |k: int| mapping@[v@[k] as int]),
        decreases v.len() - i,
    {
        out.push(mapping[v[i] as usize]);
        assert(out@ =~= Seq::new((i + 1) as nat, |k: int| mapping@[v@[k] as int]));
        i += 1;
    }
    out
}

/// Pronunciations with their phones mapped.
pub open spec fn prons_mapped(v: Seq<PronView>, mapping: Seq<PhoneId>) -> Seq<PronView> {
    Seq::new(
        v.len(),
        |k: int|
            PronView {
                phones: Seq::new(v[k].phones.len(), |p: int| mapping[v[k].phones[p] as int]),
                ..v[k]
            },
    )
}

fn map_prons(v: &Vec<Pronunciation>, mapping: &Vec<PhoneId>) -> (r: Vec<Pronunciation>)
    requires
        forall|k: int, p: int|
            0 <= k < v@.len() && 0 <= p < v@[k].phones@.len() ==> #[trigger] v@[k].phones@[p]
                < mapping@.len(),
    ensures
        pron_views(r@) == prons_mapped(pron_views(v@), mapping@),
{
    let ghost want = prons_mapped(pron_views(v@), mapping@);
    let mut out: Vec<Pronunciation> = Vec::new();
    let mut i: usize = 0;
    while i < v.len()
        invariant
            forall|k: int, p: int|
                0 <= k < v@.len() && 0 <= p < v@[k].phones@.len() ==> #[trigger] v@[k].phones@[p]
                    < mapping@.len(),
            want == prons_mapped(pron_views(v@), mapping@),
            i <= v@.len(),
            out@.len() == i,
            forall|k: int| 0 <= k < i ==> (#[trigger] out@[k])@ == want[k],
        decreases v.len() - i,
    {
        let e = &v[i];
        assert(pron_views(v@)[i as int] == e@);
        let p = Pronunciation {
            phones: map_phones(&e.phones, mapping),
            prob: e.prob,
            silence_after_prob: e.silence_after_prob,
            silence_before_correction: e.silence_before_correction,
            non_silence_before_correction: e.non_silence_before_correction,
        };
        assert(p@ =~= want[i as int]);
        out.push(p);
        i += 1;
    }
    assert(pron_views(out@) =~= want);
    out
}

fn map_words(v: &Vec<Vec<Pronunciation>>, mapping: &Vec<PhoneId>) -> (r: Vec<Vec<Pronunciation>>)
    requires
        forall|w: int, k: int, p: int|
            0 <= w < v@.len() && 0 <= k < v@[w]@.len() && 0 <= p < v@[w]@[k].phones@.len()
                ==> #[trigger] v@[w]@[k].phones@[p] < mapping@.len(),
    ensures
        word_prons(r@) == Seq::new(
            v@.len(),
            |w: int| prons_mapped(word_prons(v@)[w], mapping@),
        ),
{
    let ghost want = Seq::new(v@.len(), |w: int| prons_mapped(word_prons(v@)[w], mapping@));
    let mut out: Vec<Vec<Pronunciation>> = Vec::new();
    let mut i: usize = 0;
    while i < v.len()
        invariant
            forall|w: int, k: int, p: int|
                0 <= w < v@.len() && 0 <= k < v@[w]@.len() && 0 <= p < v@[w]@[k].phones@.len()
                    ==> #[trigger] v@[w]@[k].phones@[p] < mapping@.len(),
            want == Seq::new(v@.len(), |w: int| prons_mapped(word_prons(v@)[w], mapping@)),
            i <= v@.len(),
            out@.len() == i,
            forall|w: int| 0 <= w < i ==> pron_views((#[trigger] out@[w])@) == want[w],
        decreases v.len() - i,
    {
        assert(word_prons(v@)[i as int] == pron_views(v@[i as int]@));
        out.push(map_prons(&v[i], mapping));
        i += 1;
    }
    assert(word_prons(out@) =~= want);
    out
}

/// Number the phones of a corpus by the table of a model. An error, and the corpus stays as it is, if
/// the model lacks phones.
pub fn remap(corpus: &mut Corpus, model_phones: &SymbolTable) -> (r: Result<(), MissingPhones>)
    requires
        is_table(old(corpus)@.phones),
        is_table(model_phones@),
        missing_upto(
            old(corpus)@.phones,
            model_phones@,
            old(corpus)@.phones.len() as int,
        ).len() == 0 ==> phones_are_numbered(old(corpus)@),
    ensures
        match r {
            Ok(_) => missing_upto(
                old(corpus)@.phones,
                model_phones@,
                old(corpus)@.phones.len() as int,
            ).len() == 0 && final(corpus)@ == remapped(old(corpus)@, model_phones@),
            Err(e) => texts(e.phones@) == missing_upto(
                old(corpus)@.phones,
                model_phones@,
                old(corpus)@.phones.len() as int,
            ) && e.phones@.len() > 0 && final(corpus)@ == old(corpus)@,
        },
{
    let ghost c = corpus@;
    let ghost model = model_phones@;
    let n: usize = corpus.phones.len();
    let mut missing: Vec<String> = Vec::new();
    let mut mapping: Vec<PhoneId> = Vec::new();
    assert(texts(missing@) =~= seq![]);
    let mut i: usize = 0;
    while i < n
        invariant
            c == corpus@,
            *corpus == *old(corpus),
            model == model_phones@,
            is_table(c.phones),
            is_table(model),
            n == c.phones.len(),
            i <= n,
            in_order(texts(missing@)),
            texts(missing@) == missing_upto(c.phones, model, i as int),
            mapping@.len() == i,
            forall|k: int|
                0 <= k < i && model.contains(c.phones[k]) ==> #[trigger] mapping@[k] == id_of(
                    model,
                    c.phones[k],
                ),
            missing@.len() == 0 ==> forall|k: int|
                0 <= k < i ==> model.contains(#[trigger] c.phones[k]),
        decreases n - i,
    {
        let sym = corpus.phones.sym(i as PhoneId);
        match model_phones.id(sym) {
            Some(new) => {
                mapping.push(new);
            },
            None => {
                let ghost before = texts(missing@);
                add_name(&mut missing, sym);
                proof {
                    name_is_added(before, sym@);
                    assert(with_name(before, sym@).contains(sym@));
                    assert(texts(missing@).len() > 0);
                }
                mapping.push(0);
            },
        }
        i += 1;
    }
    if missing.len() > 0 {
        return Err(MissingPhones { phones: missing });
    }
    assert(texts(missing@).len() == 0);
    assert forall|k: int| 0 <= k < n implies #[trigger] mapping@[k] == moved(
        k as u32,
        c.phones,
        model,
    ) by {
        assert(model.contains(c.phones[k]));
    }
    assert forall|k: int| 0 <= k < corpus.silence_phones@.len() implies
        #[trigger] corpus.silence_phones@[k] < mapping@.len() by {
        assert(c.silence_phones[k] < c.phones.len());
    }
    let silence = map_phones(&corpus.silence_phones, &mapping);
    let count: usize = corpus.utts.len();
    let ghost want = remapped(c, model);
    let mut u: usize = 0;
    while u < count
        invariant
            n == c.phones.len(),
            mapping@.len() == n,
            n <= u32::MAX + 1,
            forall|k: int|
                0 <= k < n ==> #[trigger] mapping@[k] == moved(k as u32, c.phones, model),
            phones_are_numbered(c),
            want == remapped(c, model),
            count == c.utts.len(),
            corpus.utts@.len() == count,
            u <= count,
            texts(corpus.speakers@) == c.speakers,
            corpus.phones@ == c.phones,
            counts(corpus.oov_words@) == c.oov_words,
            forall|k: int| 0 <= k < u ==> (#[trigger] corpus.utts@[k])@ == want.utts[k],
            forall|k: int| u <= k < count ==> (#[trigger] corpus.utts@[k])@ == c.utts[k],
        decreases count - u,
    {
        let ghost ut = corpus.utts@[u as int];
        proof {
            assert(ut@ == c.utts[u as int]);
            assert forall|w: int, k: int, p: int|
                0 <= w < ut.prons@.len() && 0 <= k < ut.prons@[w]@.len() && 0 <= p
                    < ut.prons@[w]@[k].phones@.len() implies #[trigger] ut.prons@[w]@[k].phones@[p]
                < mapping@.len() by {
                assert(c.utts[u as int].prons[w][k].phones[p] == ut.prons@[w]@[k].phones@[p]);
            }
        }
        let prons = map_words(&corpus.utts[u].prons, &mapping);
        corpus.utts[u].prons = prons;
        proof {
            let cu = c.utts[u as int];
            let wu = want.utts[u as int];
            let got = corpus.utts@[u as int]@;
            assert forall|w: int| 0 <= w < cu.prons.len() implies #[trigger] got.prons[w]
                == wu.prons[w] by {
                assert forall|k: int| 0 <= k < cu.prons[w].len() implies #[trigger] got.prons[w][k]
                    == wu.prons[w][k] by {
                    let a = got.prons[w][k];
                    let b = wu.prons[w][k];
                    assert forall|p: int| 0 <= p < cu.prons[w][k].phones.len() implies
                        #[trigger] a.phones[p] == b.phones[p] by {
                        let x = cu.prons[w][k].phones[p];
                        assert(x < n);
                        assert(mapping@[x as int] == moved(x, c.phones, model));
                    }
                    assert(a.phones =~= b.phones);
                    assert(a =~= b);
                }
                assert(got.prons[w] =~= wu.prons[w]);
            }
            assert(got.prons =~= wu.prons);
            assert(got =~= wu);
        }
        u += 1;
    }
    corpus.silence_phones = silence;
    corpus.phones = model_phones.clone();
    proof {
        assert(corpus@.utts =~= want.utts);
        assert forall|k: int| 0 <= k < c.silence_phones.len() implies #[trigger] silence@[k]
            == want.silence_phones[k] by {
            assert(c.silence_phones[k] < n);
        }
        assert(corpus@.silence_phones =~= want.silence_phones);
        assert(corpus@ =~= want);
    }
    Ok(())
}

} // verus!
