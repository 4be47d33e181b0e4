//! Ids and the plain records that pass between the modules.

use vstd::prelude::*;
use vstd::string::StringExecFns;

use crate::text::{chars_of, same_text, string_of};

verus! {

/// A phone; 0 stands for "outside the utterance".
pub type PhoneId = u32;

/// A probability density function, the tied HMM state that scores a frame.
pub type PdfId = u32;

/// A transition of the HMM set; 0 stands for "no transition" (epsilon).
pub type TransitionId = u32;

/// A word of the utterance.
pub type WordId = u32;

/// One way to pronounce a word. The probabilities are single-precision bits.
#[derive(Debug, PartialEq, Eq)]
pub struct Pronunciation {
    pub phones: Vec<PhoneId>,
    /// How likely the word is pronounced like this.
    pub prob: Option<u32>,
    /// How likely silence follows.
    pub silence_after_prob: Option<u32>,
    /// Correction factor where silence precedes.
    pub silence_before_correction: Option<u32>,
    /// Correction factor where no silence precedes.
    pub non_silence_before_correction: Option<u32>,
}

/// What a pronunciation is.
#[verifier::ext_equal]
pub struct PronView {
    pub phones: Seq<PhoneId>,
    pub prob: Option<u32>,
    pub silence_after_prob: Option<u32>,
    pub silence_before_correction: Option<u32>,
    pub non_silence_before_correction: Option<u32>,
}

impl View for Pronunciation {
    type V = PronView;

    open spec fn view(&self) -> PronView {
        PronView {
            phones: self.phones@,
            prob: self.prob,
            silence_after_prob: self.silence_after_prob,
            silence_before_correction: self.silence_before_correction,
            non_silence_before_correction: self.non_silence_before_correction,
        }
    }
}

impl Clone for Pronunciation {
    fn clone(&self) -> (r: Self)
        ensures
            r@ == self@,
    {
        Pronunciation {
            phones: self.phones.clone(),
            prob: self.prob,
            silence_after_prob: self.silence_after_prob,
            silence_before_correction: self.silence_before_correction,
            non_silence_before_correction: self.non_silence_before_correction,
        }
    }
}

impl Pronunciation {
    /// A pronunciation without probabilities.
    pub fn plain(phones: Vec<PhoneId>) -> (r: Self)
        ensures
            r@ == (PronView {
                phones: phones@,
                prob: None,
                silence_after_prob: None,
                silence_before_correction: None,
                non_silence_before_correction: None,
            }),
    {
        Pronunciation {
            phones,
            prob: None,
            silence_after_prob: None,
            silence_before_correction: None,
            non_silence_before_correction: None,
        }
    }
}

/// A frame-level alignment of an utterance.
#[derive(Debug)]
pub struct Alignment {
    pub utt: String,
    /// The transition id of each frame.
    pub tids: Vec<TransitionId>,
    /// The words along the path.
    pub words: Vec<WordId>,
    /// The pronunciation of each word along the path.
    pub prons: Vec<u32>,
    /// The log-likelihood, as single-precision bits.
    pub loglike: u32,
}

/// A phone and the frames that it covers, the end excluded.
#[derive(Clone, Copy, Debug, PartialEq, Eq, Structural)]
pub struct PhoneInterval {
    pub phone: PhoneId,
    pub start_frame: u32,
    pub end_frame: u32,
}

/// A word, its pronunciation, and the frames that it covers, the end excluded.
#[derive(Clone, Copy, Debug, PartialEq, Eq, Structural)]
pub struct WordInterval {
    pub word: WordId,
    pub pron: u32,
    pub start_frame: u32,
    pub end_frame: u32,
}

/// The phones and words of an utterance with their frames.
#[derive(Debug)]
pub struct IntervalAlignment {
    pub utt: String,
    /// How long a frame is in seconds, as single-precision bits.
    pub frame_shift_s: u32,
    pub phones: Vec<PhoneInterval>,
    pub words: Vec<WordInterval>,
}

impl IntervalAlignment {
    /// The frame after the last phone.
    pub fn num_frames(&self) -> (r: u32)
        ensures
            r == (if self.phones@.len() > 0 {
                self.phones@.last().end_frame
            } else {
                0
            }),
    {
        if self.phones.len() > 0 {
            self.phones[self.phones.len() - 1].end_frame
        } else {
            0
        }
    }
}

/// The tag of a phone that begins a word of several phones.
pub const POS_BEGIN: &'static str = "_B";

/// The tag of a phone inside of a word.
pub const POS_INTERNAL: &'static str = "_I";

/// The tag of a phone that ends a word of several phones.
pub const POS_END: &'static str = "_E";

/// The tag of a word's only phone.
pub const POS_SINGLETON: &'static str = "_S";

/// The symbol of the phone id 0, which stands for no phone.
pub const EPSILON: &'static str = "<eps>";

/// The text ends in a word-position tag.
pub open spec fn is_tagged(s: Seq<char>) -> bool {
    s.len() >= 2 && s[s.len() - 2] == '_' && (s.last() == 'B' || s.last() == 'I' || s.last() == 'E'
        || s.last() == 'S')
}

/// A phone without its word-position tag.
pub open spec fn untagged(s: Seq<char>) -> Seq<char> {
    if is_tagged(s) {
        s.subrange(0, s.len() - 2)
    } else {
        s
    }
}

/// `AH_B` becomes `AH`; a phone without a tag stays as it is.
pub fn untag_phone(s: &str) -> (r: String)
    ensures
        r@ == untagged(s@),
{
    let cs = chars_of(s);
    let n: usize = cs.len();
    if n >= 2 && cs[n - 2] == '_' && (cs[n - 1] == 'B' || cs[n - 1] == 'I' || cs[n - 1] == 'E'
        || cs[n - 1] == 'S') {
        string_of(vstd::slice::slice_subrange(cs.as_slice(), 0, n - 2))
    } else {
        String::from_str(s)
    }
}

/// Taking any of the four tags off gives back the phone that it was put on.
pub proof fn tagging_can_be_undone(s: Seq<char>)
    ensures
        untagged(s + POS_BEGIN@) == s,
        untagged(s + POS_INTERNAL@) == s,
        untagged(s + POS_END@) == s,
        untagged(s + POS_SINGLETON@) == s,
{
    reveal_strlit("_B");
    reveal_strlit("_I");
    reveal_strlit("_E");
    reveal_strlit("_S");
    assert((s + POS_BEGIN@).subrange(0, s.len() as int) =~= s);
    assert((s + POS_INTERNAL@).subrange(0, s.len() as int) =~= s);
    assert((s + POS_END@).subrange(0, s.len() as int) =~= s);
    assert((s + POS_SINGLETON@).subrange(0, s.len() as int) =~= s);
}

/// The texts of a list of strings.
pub open spec fn texts(v: Seq<String>) -> Seq<Seq<char>> {
    Seq::new(v.len(), |i: int| v[i]@)
}

/// Numbered symbols: the first has number 0, and none occurs twice.
#[derive(Debug)]
pub struct SymbolTable {
    syms: Vec<String>,
}

impl View for SymbolTable {
    type V = Seq<Seq<char>>;

    closed spec fn view(&self) -> Seq<Seq<char>> {
        texts(self.syms@)
    }
}

/// The number of a symbol in a table.
pub open spec fn number_of(table: Seq<Seq<char>>, sym: Seq<char>) -> Option<int> {
    if table.contains(sym) {
        Some(table.index_of(sym))
    } else {
        None
    }
}

/// A table with a symbol added, unless it is there already.
pub open spec fn with_symbol(table: Seq<Seq<char>>, sym: Seq<char>) -> Seq<Seq<char>> {
    if table.contains(sym) {
        table
    } else {
        table.push(sym)
    }
}

/// A valid table starts with epsilon, has no symbol twice, and its numbers fit in 32 bits.
pub open spec fn is_table(table: Seq<Seq<char>>) -> bool {
    &&& 0 < table.len() <= u32::MAX + 1
    &&& table[0] == EPSILON@
    &&& table.no_duplicates()
}

impl Clone for SymbolTable {
    fn clone(&self) -> (r: Self)
        ensures
            r@ == self@,
    {
        let mut syms: Vec<String> = Vec::new();
        let mut i: usize = 0;
        while i < self.syms.len()
            invariant
                i <= self.syms@.len(),
                syms@.len() == i,
                forall|k: int| 0 <= k < i ==> (#[trigger] syms@[k])@ == self.syms@[k]@,
            decreases self.syms.len() - i,
        {
            syms.push(String::from_str(self.syms[i].as_str()));
            i += 1;
        }
        assert(texts(syms@) =~= texts(self.syms@));
        SymbolTable { syms }
    }
}

impl SymbolTable {
    /// The table of epsilon alone.
    pub fn new() -> (r: Self)
        ensures
            r@ == seq![EPSILON@],
            is_table(r@),
    {
        let mut syms: Vec<String> = Vec::new();
        syms.push(String::from_str(EPSILON));
        assert(texts(syms@) =~= seq![EPSILON@]);
        SymbolTable { syms }
    }

    pub fn len(&self) -> (r: usize)
        ensures
            r == self@.len(),
    {
        self.syms.len()
    }

    pub fn is_empty(&self) -> (r: bool)
        ensures
            r == (self@.len() == 0),
    {
        self.syms.len() == 0
    }

    /// The number of a symbol, if it is in the table.
    pub fn id(&self, sym: &str) -> (r: Option<PhoneId>)
        requires
            is_table(self@),
        ensures
            match number_of(self@, sym@) {
                Some(n) => r == Some(n as u32) && 0 <= n < self@.len(),
                None => r is None,
            },
    {
        let mut i: usize = 0;
        while i < self.syms.len()
            invariant
                i <= self.syms@.len(),
                is_table(self@),
                forall|k: int| 0 <= k < i ==> self@[k] != sym@,
            decreases self.syms.len() - i,
        {
            if same_text(self.syms[i].as_str(), sym) {
                proof {
                    assert(self@[i as int] == sym@);
                    assert(self@.contains(sym@));
                }
                return Some(i as u32);
            }
            i += 1;
        }
        None
    }

    /// The symbol with a number.
    pub fn sym(&self, id: PhoneId) -> (r: &str)
        requires
            id < self@.len(),
        ensures
            r@ == self@[id as int],
    {
        self.syms[id as usize].as_str()
    }

    /// Number a symbol: with the next number, unless it has one already.
    pub fn add(&mut self, sym: &str) -> (r: PhoneId)
        requires
            is_table(old(self)@),
            with_symbol(old(self)@, sym@).len() <= u32::MAX + 1,
        ensures
            final(self)@ == with_symbol(old(self)@, sym@),
            is_table(final(self)@),
            number_of(final(self)@, sym@) == Some(r as int),
            r < final(self)@.len(),
    {
        match self.id(sym) {
            Some(n) => n,
            None => {
                let n: usize = self.syms.len();
                self.syms.push(String::from_str(sym));
                proof {
                    assert(self@ =~= old(self)@.push(sym@));
                    assert(self@[n as int] == sym@);
                    assert(self@.contains(sym@));
                }
                n as u32
            },
        }
    }
}

/// A symbol's number leads back to the symbol.
pub proof fn number_names_its_symbol(table: Seq<Seq<char>>, sym: Seq<char>)
    ensures
        number_of(table, sym) matches Some(n) ==> 0 <= n < table.len() && table[n] == sym,
{
}

/// The symbol with a number has that number.
pub proof fn symbol_has_its_number(table: Seq<Seq<char>>, n: int)
    requires
        is_table(table),
        0 <= n < table.len(),
    ensures
        number_of(table, table[n]) == Some(n),
{
    assert(table.contains(table[n]));
}

/// Adding a symbol changes no number, and adding it again changes nothing.
pub proof fn numbers_are_kept(table: Seq<Seq<char>>, sym: Seq<char>, other: Seq<char>)
    requires
        is_table(table),
        table.contains(other),
    ensures
        number_of(with_symbol(table, sym), other) == number_of(table, other),
        with_symbol(with_symbol(table, sym), sym) == with_symbol(table, sym),
{
    let after = with_symbol(table, sym);
    let n = table.index_of(other);
    assert(after[n] == other);
    if !table.contains(sym) {
        assert(after[table.len() as int] == sym);
        assert(after.no_duplicates());
    }
}

/// An utterance: where its audio is, and what is said in it.
#[derive(Debug)]
pub struct Utterance {
    pub id: String,
    pub speaker: String,
    pub audio: String,
    pub words: Vec<String>,
    /// The pronunciations of each word.
    pub prons: Vec<Vec<Pronunciation>>,
    pub text: String,
}

} // verus!
