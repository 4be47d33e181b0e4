//! Corpora from the files of a directory, or from one file.

use vstd::prelude::*;
use vstd::string::StringExecFns;

use crate::io::corpus::{
    added_symbol_stays, after_groups, counts_below, dict_view, first_corpus, first_table,
    group_entries, groups_table_grows, id_of, missing_upto, numbered, phones_are_numbered,
    phone_words, prons_numbered, prons_table, prons_table_grows, remap, remapped,
    symbols_keep_numbers, token_groups, with_symbols, with_utterance, Corpus, CorpusBuilder,
    CorpusOptions, CorpusView, MissingPhones, PhoneRules, PushState, SpeakerSource,
};
use crate::io::dict::{Dictionary, EntryView};
use crate::io::files::{
    dir_of, directory, id_for, speaker_name, speaker_of, stem_or, stem_or_else, tidied, tidy, utt_id,
};
use crate::text::chars_of;
use crate::types::{is_table, PronView, SymbolTable};

verus! {

/// An audio file and its transcript, if one was found.
#[derive(Debug)]
pub struct Recording {
    pub audio: String,
    pub text: Option<String>,
}

/// The groups of a transcript.
pub open spec fn groups_in(text: Seq<char>, with_dict: bool) -> Seq<Seq<Seq<char>>> {
    if with_dict {
        token_groups(text)
    } else {
        phone_words(text)
    }
}

/// The corpus after the first `n` files. A file without a transcript is left out.
pub open spec fn after_files(
    root: Seq<char>,
    files: Seq<Recording>,
    n: int,
    source: SpeakerSource,
    dict: Option<Seq<(Seq<char>, Seq<EntryView>)>>,
    rules: PhoneRules,
) -> CorpusView
    decreases n,
{
    if n <= 0 {
        first_corpus(dict, rules)
    } else {
        let before = after_files(root, files, n - 1, source, dict, rules);
        match files[n - 1].text {
            None => before,
            Some(text) => with_utterance(
                before,
                id_for(root, files[n - 1].audio@),
                speaker_of(root, files[n - 1].audio@, source),
                files[n - 1].audio@,
                text@,
                dict,
                rules,
            ),
        }
    }
}

/// The tables and counts of the corpus fit in their types, whatever files are left out.
pub open spec fn files_fit(
    root: Seq<char>,
    files: Seq<Recording>,
    source: SpeakerSource,
    dict: Option<Seq<(Seq<char>, Seq<EntryView>)>>,
    rules: PhoneRules,
) -> bool {
    &&& first_table(dict, rules).len() <= u32::MAX + 1
    &&& forall|n: int|
        0 < n <= files.len() ==> (#[trigger] after_files(
            root,
            files,
            n,
            source,
            dict,
            rules,
        )).phones.len() <= u32::MAX + 1
    &&& forall|n: int|
        #![trigger files[n]]
        0 <= n < files.len() && files[n].text is Some ==> {
            let groups = groups_in(files[n].text->0@, dict is Some);
            &&& groups.len() < usize::MAX
            &&& counts_below(
                after_files(root, files, n, source, dict, rules).oov_words,
                usize::MAX - 1 - groups.len(),
            )
        }
}

/// No audio file with a transcript was found under a directory.
#[derive(Debug)]
pub struct NoPairs {
    pub root: String,
}

impl NoPairs {
    pub fn to_string(&self) -> (r: String)
        ensures
            r@ == "no audio/transcript pairs found under "@ + self.root@
                + " (looked for [\"wav\", \"flac\", \"mp3\", \"ogg\", \"opus\", \"m4a\", \"aiff\", \"aif\"] with [\"lab\", \"txt\", \"textgrid\"])"@,
    {
        let mut s = crate::text::joined("no audio/transcript pairs found under ", self.root.as_str());
        s.append(" (looked for [\"wav\", \"flac\", \"mp3\", \"ogg\", \"opus\", \"m4a\", \"aiff\", \"aif\"] with [\"lab\", \"txt\", \"textgrid\"])");
        s
    }
}

/// The corpus of the files under a directory, in the order given. An error if there is no utterance
/// in it.
pub fn scan(root: &str, files: &Vec<Recording>, opts: CorpusOptions, dict: Option<Dictionary>) -> (r: Result<
    Corpus,
    NoPairs,
>)
    requires
        files_fit(root@, files@, opts.speaker_from, dict_view(dict), opts.rules()),
    ensures
        ({
            let all = after_files(
                root@,
                files@,
                files@.len() as int,
                opts.speaker_from,
                dict_view(dict),
                opts.rules(),
            );
            match r {
                Ok(c) => c@ == all && all.utts.len() > 0,
                Err(e) => e.root@ == root@ && all.utts.len() == 0,
            }
        }),
{
    let ghost dv = dict_view(dict);
    let ghost rules = opts.rules();
    let source: SpeakerSource = match &opts.speaker_from {
        SpeakerSource::ParentDir => SpeakerSource::ParentDir,
        SpeakerSource::Prefix(n) => SpeakerSource::Prefix(*n),
        SpeakerSource::Single => SpeakerSource::Single,
    };
    let mut b = CorpusBuilder::new(opts, dict);
    let mut i: usize = 0;
    while i < files.len()
        invariant
            files_fit(root@, files@, source, dv, rules),
            i <= files@.len(),
            b.wf(),
            b.dictionary() == dv,
            b.rules() == rules,
            b.corpus() == after_files(root@, files@, i as int, source, dv, rules),
        decreases files.len() - i,
    {
        let file = &files[i];
        assert(after_files(root@, files@, i + 1, source, dv, rules).phones.len() <= u32::MAX + 1);
        match &file.text {
            None => {},
            Some(text) => {
                let id = utt_id(root, file.audio.as_str());
                let speaker = speaker_name(root, file.audio.as_str(), &source);
                let audio = String::from_str(file.audio.as_str());
                b.push(id, speaker, audio, text.as_str());
            },
        }
        i += 1;
    }
    if b.len() == 0 {
        return Err(NoPairs { root: String::from_str(root) });
    }
    Ok(b.finish())
}

/// The corpus of one file.
pub open spec fn one_file(
    audio: Seq<char>,
    text: Seq<char>,
    source: SpeakerSource,
    dict: Option<Seq<(Seq<char>, Seq<EntryView>)>>,
    rules: PhoneRules,
) -> CorpusView {
    with_utterance(
        first_corpus(dict, rules),
        stem_or(audio, "utt"@),
        speaker_of(dir_of(tidied(audio)), audio, source),
        audio,
        text,
        dict,
        rules,
    )
}

/// The corpus of one audio file and its transcript. With the table of a model its phones are
/// numbered by that; then it is an error if the model lacks phones.
pub fn single(
    audio: &str,
    text: &str,
    opts: CorpusOptions,
    dict: Option<Dictionary>,
    phones: Option<&SymbolTable>,
) -> (r: Result<Corpus, MissingPhones>)
    requires
        first_table(dict_view(dict), opts.rules()).len() <= u32::MAX + 1,
        one_file(audio@, text@, opts.speaker_from, dict_view(dict), opts.rules()).phones.len()
            <= u32::MAX + 1,
        groups_in(text@, dict is Some).len() < usize::MAX,
        phones matches Some(t) ==> is_table(t@),
    ensures
        ({
            let c = one_file(audio@, text@, opts.speaker_from, dict_view(dict), opts.rules());
            match phones {
                None => r matches Ok(got) && got@ == c,
                Some(t) => {
                    let missing = missing_upto(c.phones, t@, c.phones.len() as int);
                    match r {
                        Ok(got) => missing.len() == 0 && got@ == remapped(c, t@),
                        Err(e) => crate::types::texts(e.phones@) == missing && missing.len() > 0,
                    }
                },
            }
        }),
{
    let ghost dv = dict_view(dict);
    let ghost rules = opts.rules();
    let cs = chars_of(audio);
    let id = stem_or_else(audio, "utt");
    let dir = directory(tidy(cs.as_slice()).as_slice());
    let speaker = speaker_name(dir.as_str(), audio, &opts.speaker_from);
    let mut b = CorpusBuilder::new(opts, dict);
    proof {
        first_is_numbered(dv, rules);
        utterance_is_numbered(b.corpus(), id@, speaker@, audio@, text@, dv, rules);
    }
    b.push(id, speaker, String::from_str(audio), text);
    let mut corpus = b.finish();
    match phones {
        None => Ok(corpus),
        Some(t) => match remap(&mut corpus, t) {
            Ok(_) => Ok(corpus),
            Err(e) => Err(e),
        },
    }
}

/// Every phone of the pronunciations has a number below `n`.
pub open spec fn prons_below(prons: Seq<Seq<PronView>>, n: int) -> bool {
    forall|w: int, k: int, p: int|
        0 <= w < prons.len() && 0 <= k < prons[w].len() && 0 <= p < prons[w][k].phones.len()
            ==> #[trigger] prons[w][k].phones[p] < n
}

/// The phones of numbered pronunciations are in the table.
proof fn prons_fit(table: Seq<Seq<char>>, es: Seq<EntryView>, n: int, rules: PhoneRules)
    requires
        is_table(table),
        0 <= n <= es.len(),
        prons_table(table, es, n, rules).len() <= u32::MAX + 1,
    ensures
        is_table(prons_table(table, es, n, rules)),
        prons_numbered(table, es, n, rules).len() == n,
        forall|k: int, p: int|
            0 <= k < n && 0 <= p < prons_numbered(table, es, n, rules)[k].phones.len()
                ==> #[trigger] prons_numbered(table, es, n, rules)[k].phones[p] < prons_table(
                table,
                es,
                n,
                rules,
            ).len(),
    decreases n,
{
    if n > 0 {
        prons_table_grows(table, es, n - 1, n, rules);
        prons_fit(table, es, n - 1, rules);
        let before = prons_table(table, es, n - 1, rules);
        let syms = rules.symbols(es[n - 1].phones);
        let t = with_symbols(before, syms, syms.len() as int);
        symbols_keep_numbers(before, syms, syms.len() as int, seq![]);
        let prons = prons_numbered(table, es, n, rules);
        let had = prons_numbered(table, es, n - 1, rules);
        assert forall|k: int, p: int|
            0 <= k < n && 0 <= p < prons[k].phones.len() implies #[trigger] prons[k].phones[p]
            < t.len() by {
            if k < n - 1 {
                assert(prons[k] == had[k]);
                assert(had[k].phones[p] < before.len());
            } else {
                assert(prons[k] == numbered(t, es[n - 1], rules));
                added_symbol_stays(before, syms, p, syms.len() as int);
                assert(prons[k].phones[p] == id_of(t, syms[p]));
            }
        }
    }
}

/// The phones of a transcript's words are in the table.
proof fn groups_fit(
    s: PushState,
    groups: Seq<Seq<Seq<char>>>,
    n: int,
    dict: Option<Seq<(Seq<char>, Seq<EntryView>)>>,
    rules: PhoneRules,
)
    requires
        is_table(s.table),
        prons_below(s.prons, s.table.len() as int),
        0 <= n <= groups.len(),
        after_groups(s, groups, n, dict, rules).table.len() <= u32::MAX + 1,
    ensures
        is_table(after_groups(s, groups, n, dict, rules).table),
        prons_below(
            after_groups(s, groups, n, dict, rules).prons,
            after_groups(s, groups, n, dict, rules).table.len() as int,
        ),
    decreases n,
{
    if n > 0 {
        groups_table_grows(s, groups, n - 1, n, dict, rules);
        groups_fit(s, groups, n - 1, dict, rules);
        let before = after_groups(s, groups, n - 1, dict, rules);
        let now = after_groups(s, groups, n, dict, rules);
        match group_entries(groups[n - 1], dict, rules) {
            None => {},
            Some(es) => {
                prons_fit(before.table, es, es.len() as int, rules);
                let last = prons_numbered(before.table, es, es.len() as int, rules);
                assert forall|w: int, k: int, p: int|
                    0 <= w < now.prons.len() && 0 <= k < now.prons[w].len() && 0 <= p
                        < now.prons[w][k].phones.len() implies #[trigger] now.prons[w][k].phones[p]
                    < now.table.len() by {
                    if w < before.prons.len() {
                        assert(now.prons[w] == before.prons[w]);
                        assert(before.prons[w][k].phones[p] < before.table.len());
                    } else {
                        assert(now.prons[w] == last);
                        assert(last[k].phones[p] < now.table.len());
                    }
                }
            },
        }
    }
}

/// Adding an utterance keeps the table sound and every phone of the corpus in it.
pub proof fn utterance_is_numbered(
    c: CorpusView,
    id: Seq<char>,
    speaker: Seq<char>,
    audio: Seq<char>,
    text: Seq<char>,
    dict: Option<Seq<(Seq<char>, Seq<EntryView>)>>,
    rules: PhoneRules,
)
    requires
        is_table(c.phones),
        phones_are_numbered(c),
        with_utterance(c, id, speaker, audio, text, dict, rules).phones.len() <= u32::MAX + 1,
    ensures
        is_table(with_utterance(c, id, speaker, audio, text, dict, rules).phones),
        phones_are_numbered(with_utterance(c, id, speaker, audio, text, dict, rules)),
{
    let groups = groups_in(text, dict is Some);
    let s0 = PushState { table: c.phones, oov: c.oov_words, words: seq![], prons: seq![] };
    let n = groups.len() as int;
    let s = after_groups(s0, groups, n, dict, rules);
    let d = with_utterance(c, id, speaker, audio, text, dict, rules);
    groups_table_grows(s0, groups, 0, n, dict, rules);
    groups_fit(s0, groups, n, dict, rules);
    assert(d.phones == s.table);
    assert forall|u: int, w: int, k: int, p: int|
        0 <= u < d.utts.len() && 0 <= w < d.utts[u].prons.len() && 0 <= k < d.utts[u].prons[w].len()
            && 0 <= p < d.utts[u].prons[w][k].phones.len() implies #[trigger] d.utts[u].prons[w][k].phones[p]
        < d.phones.len() by {
        if u < c.utts.len() {
            assert(d.utts[u] == c.utts[u]);
            assert(c.utts[u].prons[w][k].phones[p] < c.phones.len());
        } else {
            assert(d.utts[u].prons == s.prons);
            assert(s.prons[w][k].phones[p] < s.table.len());
        }
    }
    assert forall|k: int| 0 <= k < d.silence_phones.len() implies #[trigger] d.silence_phones[k]
        < d.phones.len() by {
        assert(d.silence_phones == c.silence_phones);
    }
}

/// A corpus without utterances has the silence phones in its table.
pub proof fn first_is_numbered(
    dict: Option<Seq<(Seq<char>, Seq<EntryView>)>>,
    rules: PhoneRules,
)
    requires
        first_table(dict, rules).len() <= u32::MAX + 1,
    ensures
        phones_are_numbered(first_corpus(dict, rules)),
{
    let c = first_corpus(dict, rules);
    let t0 = seq![crate::types::EPSILON@];
    let t1 = crate::types::with_symbol(t0, rules.silence);
    let base = crate::types::with_symbol(t1, rules.oov);
    assert(t1.contains(rules.silence)) by {
        if !t0.contains(rules.silence) {
            assert(t1[1] == rules.silence);
        }
    }
    let i = t1.index_of(rules.silence);
    assert(base.contains(rules.silence)) by {
        assert(base[i] == rules.silence);
    }
    assert(base.contains(rules.oov)) by {
        if !t1.contains(rules.oov) {
            assert(base[t1.len() as int] == rules.oov);
        }
    }
    if dict is Some {
        let ps = crate::io::dict::phones_upto(dict->0, dict->0.len() as int);
        crate::io::corpus::variants_grow(base, ps, 0, ps.len() as int, rules);
    }
    assert(base.len() <= c.phones.len());
    assert(id_of(base, rules.silence) < base.len());
    assert(id_of(base, rules.oov) < base.len());
}

} // verus!
