//! Where the words of an alignment lie.

use vstd::prelude::*;

use crate::hmm::construct::word_views;
use crate::hmm::graph::NO_PRON;
use crate::hmm::transition::ModelView;
use crate::hmm::utils::{
    phone_intervals, phone_intervals_cover_the_alignment, runs_of, seek, word_intervals, words_over,
};
use crate::types::{
    Alignment, PhoneId, PhoneInterval, PronView, Pronunciation, WordId, WordInterval,
};

verus! {

/// The phones follow each other without gaps, and none is empty.
pub open spec fn are_adjacent(phones: Seq<PhoneInterval>) -> bool {
    &&& forall|j: int|
        0 <= j < phones.len() ==> (#[trigger] phones[j]).start_frame < phones[j].end_frame
    &&& forall|i: int, j: int|
        0 <= i && i + 1 == j && j < phones.len() ==> (#[trigger] phones[i]).end_frame == (
        #[trigger] phones[j]).start_frame
}

/// How many frames the phones of a range take together.
pub open spec fn frames_of(phones: Seq<PhoneInterval>, from: int, to: int) -> int
    decreases to - from,
{
    if from >= to {
        0
    } else {
        frames_of(phones, from, to - 1) + phones[to - 1].end_frame - phones[to - 1].start_frame
    }
}

/// A frame lies in a phone.
pub open spec fn lies_in(phone: PhoneInterval, frame: int) -> bool {
    phone.start_frame <= frame < phone.end_frame
}

/// A frame lies in one of the phones of a range.
pub open spec fn lies_in_one(phones: Seq<PhoneInterval>, from: int, to: int, frame: int) -> bool {
    exists|j: int| from <= j < to && #[trigger] lies_in(phones[j], frame)
}

/// A word takes the phones of a range: a frame is one of the word's exactly if it is one of such a
/// phone, and the word is as long as these phones together.
pub open spec fn takes(
    phones: Seq<PhoneInterval>,
    word: WordInterval,
    from: int,
    to: int,
) -> bool {
    &&& word.end_frame - word.start_frame == frames_of(phones, from, to)
    &&& forall|frame: int|
        #[trigger] lies_in_one(phones, from, to, frame) <==> word.start_frame <= frame
            < word.end_frame
}

/// A word of a path on the phones that it takes.
pub struct Laid {
    /// Its number on the path.
    pub word: int,
    /// Its first phone.
    pub from: int,
    /// The phone behind its last one.
    pub to: int,
}

/// The number of the pronunciation that word `k` of a path was found with, zero where none is kept.
pub open spec fn kept_pron(prons: Seq<u32>, k: int) -> int {
    if 0 <= k < prons.len() && prons[k] != NO_PRON {
        prons[k] as int
    } else {
        0
    }
}

/// The phones that word `k` of a path is made of: those of its pronunciation, or of its first one
/// where it has none of that number. A word that has no pronunciation at all is made of nothing.
pub open spec fn made_of(
    words_prons: Seq<Seq<PronView>>,
    words: Seq<WordId>,
    prons: Seq<u32>,
    k: int,
) -> Option<Seq<PhoneId>> {
    let w = words[k] as int;
    if w < words_prons.len() && words_prons[w].len() > 0 {
        let all = words_prons[w];
        let v = kept_pron(prons, k);
        Some(
            all[if v < all.len() {
                v
            } else {
                0
            }].phones,
        )
    } else {
        None
    }
}

/// The first word and the first phone that come after the first `n` laid words.
pub open spec fn after(laid: Seq<Laid>, n: int, k: int, i: int) -> (int, int) {
    if n <= 0 {
        (k, i)
    } else {
        (laid[n - 1].word + 1, laid[n - 1].to)
    }
}

/// Interval `n` is that of the word that is laid there. It starts at the first phone behind the word
/// before that starts its pronunciation, and takes as many phones as that has, or all that are left.
pub open spec fn is_laid(
    phones: Seq<PhoneInterval>,
    words_prons: Seq<Seq<PronView>>,
    words: Seq<WordId>,
    prons: Seq<u32>,
    out: Seq<WordInterval>,
    laid: Seq<Laid>,
    n: int,
    k: int,
    i: int,
) -> bool {
    let l = laid[n];
    let (next, free) = after(laid, n, k, i);
    &&& next <= l.word < words.len()
    &&& free <= l.from <= l.to <= phones.len()
    &&& l.from < phones.len()
    &&& out[n].word == words[l.word]
    &&& out[n].pron == kept_pron(prons, l.word)
    &&& made_of(words_prons, words, prons, l.word) matches Some(p) && {
        &&& l.to == (if l.from + p.len() <= phones.len() {
            l.from + p.len()
        } else {
            phones.len() as int
        })
        &&& p.len() > 0 ==> phones[l.from].phone == p[0]
        &&& p.len() > 0 ==> forall|j: int|
            free <= j < l.from ==> (#[trigger] phones[j]).phone != p[0]
        &&& p.len() == 0 ==> l.from == free
    }
    &&& takes(phones, out[n], l.from, l.to)
    &&& forall|w: int|
        next <= w < l.word ==> #[trigger] made_of(words_prons, words, prons, w) is None
}

/// The intervals are those of words that are laid one behind the other.
pub open spec fn are_laid(
    phones: Seq<PhoneInterval>,
    words_prons: Seq<Seq<PronView>>,
    words: Seq<WordId>,
    prons: Seq<u32>,
    out: Seq<WordInterval>,
    laid: Seq<Laid>,
    k: int,
    i: int,
) -> bool {
    &&& laid.len() == out.len()
    &&& forall|n: int|
        0 <= n < out.len() ==> #[trigger] is_laid(
            phones,
            words_prons,
            words,
            prons,
            out,
            laid,
            n,
            k,
            i,
        )
}

proof fn seeking_finds(phones: Seq<PhoneInterval>, first: PhoneId, i: int)
    requires
        0 <= i <= phones.len(),
    ensures
        i <= seek(phones, first, i) <= phones.len(),
        forall|j: int| i <= j < seek(phones, first, i) ==> (#[trigger] phones[j]).phone != first,
        seek(phones, first, i) < phones.len() ==> phones[seek(phones, first, i)].phone == first,
    decreases phones.len() - i,
{
    if i < phones.len() && phones[i].phone != first {
        seeking_finds(phones, first, i + 1);
    }
}

/// From the first frame of the first phone of a range to the last one of its last phone it is as
/// many frames as the phones have, and these are theirs.
proof fn ranges_are_whole(phones: Seq<PhoneInterval>, from: int, to: int)
    requires
        are_adjacent(phones),
        0 <= from < to <= phones.len(),
    ensures
        phones[to - 1].end_frame - phones[from].start_frame == frames_of(phones, from, to),
        forall|frame: int|
            #[trigger] lies_in_one(phones, from, to, frame) <==> phones[from].start_frame <= frame
                < phones[to - 1].end_frame,
    decreases to,
{
    assert(phones[from].start_frame < phones[from].end_frame);
    assert(phones[to - 1].start_frame < phones[to - 1].end_frame);
    if from + 1 < to {
        ranges_are_whole(phones, from, to - 1);
        assert(phones[to - 1 - 1].end_frame == phones[to - 1].start_frame);
        assert(phones[to - 2].start_frame < phones[to - 2].end_frame);
        starts_are_ordered(phones, from, to - 2);
        assert forall|frame: int|
            phones[from].start_frame <= frame < phones[to - 1].end_frame implies #[trigger] lies_in_one(
            phones,
            from,
            to,
            frame,
        ) by {
            if frame < phones[to - 2].end_frame {
                assert(lies_in_one(phones, from, to - 1, frame));
            } else {
                assert(lies_in(phones[to - 1], frame));
            }
        }
        assert forall|frame: int| #[trigger] lies_in_one(phones, from, to, frame) implies
            phones[from].start_frame <= frame < phones[to - 1].end_frame by {
            let j = choose|j: int| from <= j < to && #[trigger] lies_in(phones[j], frame);
            if j < to - 1 {
                assert(lies_in_one(phones, from, to - 1, frame));
            }
        }
    } else {
        assert(frames_of(phones, from, to - 1) == 0);
        assert forall|frame: int|
            phones[from].start_frame <= frame < phones[to - 1].end_frame implies #[trigger] lies_in_one(
            phones,
            from,
            to,
            frame,
        ) by {
            assert(lies_in(phones[from], frame));
        }
    }
}

proof fn starts_are_ordered(phones: Seq<PhoneInterval>, from: int, to: int)
    requires
        are_adjacent(phones),
        0 <= from <= to < phones.len(),
    ensures
        phones[from].start_frame <= phones[to].start_frame,
    decreases to - from,
{
    if from < to {
        starts_are_ordered(phones, from, to - 1);
        assert(phones[to - 1].end_frame == phones[to].start_frame);
        assert(phones[to - 1].start_frame < phones[to - 1].end_frame);
    }
}

proof fn laying(
    phones: Seq<PhoneInterval>,
    words_prons: Seq<Seq<PronView>>,
    words: Seq<WordId>,
    prons: Seq<u32>,
    k: int,
    i: int,
) -> (laid: Seq<Laid>)
    requires
        are_adjacent(phones),
        0 <= k <= words.len(),
        0 <= i <= phones.len(),
        words_over(phones, words_prons, words, prons, k, i) is Some,
    ensures
        are_laid(
            phones,
            words_prons,
            words,
            prons,
            words_over(phones, words_prons, words, prons, k, i)->0,
            laid,
            k,
            i,
        ),
    decreases words.len() - k,
{
    let out = words_over(phones, words_prons, words, prons, k, i)->0;
    if k >= words.len() {
        Seq::empty()
    } else {
        match made_of(words_prons, words, prons, k) {
            None => {
                let laid = laying(phones, words_prons, words, prons, k + 1, i);
                assert forall|n: int| 0 <= n < out.len() implies #[trigger] is_laid(
                    phones,
                    words_prons,
                    words,
                    prons,
                    out,
                    laid,
                    n,
                    k,
                    i,
                ) by {
                    assert(is_laid(phones, words_prons, words, prons, out, laid, n, k + 1, i));
                }
                laid
            },
            Some(p) => {
                let at = if p.len() > 0 {
                    seek(phones, p[0], i)
                } else {
                    i
                };
                if p.len() > 0 {
                    seeking_finds(phones, p[0], i);
                }
                if at >= phones.len() {
                    Seq::empty()
                } else {
                    let take = if p.len() < phones.len() - at {
                        p.len() as int
                    } else {
                        phones.len() - at
                    };
                    let rest = laying(phones, words_prons, words, prons, k + 1, at + take);
                    let tail = words_over(phones, words_prons, words, prons, k + 1, at + take)->0;
                    let laid = seq![Laid { word: k, from: at, to: at + take }] + rest;
                    assert(out =~= seq![out[0]] + tail);
                    if take > 0 {
                        ranges_are_whole(phones, at, at + take);
                    } else {
                        assert(phones[at - 1].end_frame == phones[at].start_frame);
                    }
                    assert forall|n: int| 0 <= n < out.len() implies #[trigger] is_laid(
                        phones,
                        words_prons,
                        words,
                        prons,
                        out,
                        laid,
                        n,
                        k,
                        i,
                    ) by {
                        if n > 0 {
                            assert(is_laid(
                                phones,
                                words_prons,
                                words,
                                prons,
                                tail,
                                rest,
                                n - 1,
                                k + 1,
                                at + take,
                            ));
                            assert(laid[n] == rest[n - 1]);
                            assert(out[n] == tail[n - 1]);
                            if n > 1 {
                                assert(laid[n - 1] == rest[n - 2]);
                            }
                        }
                    }
                    laid
                }
            },
        }
    }
}

proof fn phones_are_adjacent(m: ModelView, ali: Alignment)
    requires
        ali.tids@.len() <= u32::MAX,
    ensures
        are_adjacent(phone_intervals(m, runs_of(m, ali.tids@))),
{
    let phones = phone_intervals(m, runs_of(m, ali.tids@));
    assert forall|j: int| 0 <= j < phones.len() implies (#[trigger] phones[j]).start_frame
        < phones[j].end_frame by {
        phone_intervals_cover_the_alignment(m, ali.tids@, j);
    }
    assert forall|i: int, j: int| 0 <= i && i + 1 == j && j < phones.len() implies (
    #[trigger] phones[i]).end_frame == (#[trigger] phones[j]).start_frame by {
        phone_intervals_cover_the_alignment(m, ali.tids@, j);
    }
}

/// A word interval holds exactly the frames of the phones of the word's pronunciation: it is as long
/// as they are together, starts with the first and ends with the last of them. The words follow each
/// other in the order of the path, none takes a phone of another, and only words without a
/// pronunciation are left out between them.
pub proof fn words_take_whole_pronunciations(
    m: ModelView,
    ali: Alignment,
    words_prons: Seq<Vec<Pronunciation>>,
) -> (laid: Seq<Laid>)
    requires
        ali.tids@.len() <= u32::MAX,
        word_intervals(m, ali, words_prons) is Some,
    ensures
        are_laid(
            phone_intervals(m, runs_of(m, ali.tids@)),
            word_views(words_prons),
            ali.words@,
            ali.prons@,
            word_intervals(m, ali, words_prons)->0,
            laid,
            0,
            0,
        ),
{
    phones_are_adjacent(m, ali);
    laying(
        phone_intervals(m, runs_of(m, ali.tids@)),
        word_views(words_prons),
        ali.words@,
        ali.prons@,
        0,
        0,
    )
}

/// Word `k` is spoken in full: its phones stand from number `start` on, and none of those between
/// the word before and it could start it.
pub open spec fn is_spoken(
    phones: Seq<PhoneInterval>,
    p: Seq<PhoneId>,
    free: int,
    start: int,
) -> bool {
    &&& p.len() > 0
    &&& free <= start
    &&& start + p.len() <= phones.len()
    &&& forall|j: int| 0 <= j < p.len() ==> phones[start + j].phone == #[trigger] p[j]
    &&& forall|j: int| free <= j < start ==> (#[trigger] phones[j]).phone != p[0]
}

/// All words from number `k` on are spoken in full, each from the phone that `starts` says.
pub open spec fn are_spoken(
    phones: Seq<PhoneInterval>,
    words_prons: Seq<Seq<PronView>>,
    words: Seq<WordId>,
    prons: Seq<u32>,
    starts: Seq<int>,
    k: int,
    free: int,
) -> bool
    decreases words.len() - k,
{
    k >= words.len() || {
        &&& made_of(words_prons, words, prons, k) matches Some(p) && is_spoken(
            phones,
            p,
            free,
            starts[k],
        ) && are_spoken(
            phones,
            words_prons,
            words,
            prons,
            starts,
            k + 1,
            starts[k] + p.len(),
        )
    }
}

proof fn spoken_words_are_laid(
    phones: Seq<PhoneInterval>,
    words_prons: Seq<Seq<PronView>>,
    words: Seq<WordId>,
    prons: Seq<u32>,
    starts: Seq<int>,
    k: int,
    i: int,
)
    requires
        are_adjacent(phones),
        0 <= k <= words.len(),
        0 <= i <= phones.len(),
        are_spoken(phones, words_prons, words, prons, starts, k, i),
    ensures
        words_over(phones, words_prons, words, prons, k, i) matches Some(out) && out.len()
            == words.len() - k && forall|n: int|
            #![trigger made_of(words_prons, words, prons, n)]
            k <= n < words.len() ==> {
                let p = made_of(words_prons, words, prons, n)->0;
                &&& out[n - k].word == words[n]
                &&& out[n - k].pron == kept_pron(prons, n)
                &&& takes(phones, out[n - k], starts[n], starts[n] + p.len())
            },
    decreases words.len() - k,
{
    if k < words.len() {
        let p = made_of(words_prons, words, prons, k)->0;
        let at = seek(phones, p[0], i);
        seeking_finds(phones, p[0], i);
        assert(phones[starts[k] + 0].phone == p[0]);
        assert(at == starts[k]);
        ranges_are_whole(phones, at, at + p.len());
        spoken_words_are_laid(phones, words_prons, words, prons, starts, k + 1, at + p.len());
        let rest = words_over(phones, words_prons, words, prons, k + 1, at + p.len())->0;
        let out = words_over(phones, words_prons, words, prons, k, i)->0;
        assert(out =~= seq![out[0]] + rest);
        assert forall|n: int|
            #![trigger made_of(words_prons, words, prons, n)]
            k <= n < words.len() implies ({
            let p = made_of(words_prons, words, prons, n)->0;
            &&& out[n - k].word == words[n]
            &&& out[n - k].pron == kept_pron(prons, n)
            &&& takes(phones, out[n - k], starts[n], starts[n] + p.len())
        }) by {
            if n > k {
                assert(out[n - k] == rest[n - k - 1]);
            }
        }
    }
}

/// Where every word of the path is spoken in full, with nothing but silence between the words, each
/// has an interval, and that holds the frames of the word's own phones and no others.
pub proof fn spoken_words_are_found(
    m: ModelView,
    ali: Alignment,
    words_prons: Seq<Vec<Pronunciation>>,
    starts: Seq<int>,
)
    requires
        ali.tids@.len() <= u32::MAX,
        are_spoken(
            phone_intervals(m, runs_of(m, ali.tids@)),
            word_views(words_prons),
            ali.words@,
            ali.prons@,
            starts,
            0,
            0,
        ),
    ensures
        word_intervals(m, ali, words_prons) matches Some(out) && out.len() == ali.words@.len()
            && forall|n: int|
            #![trigger made_of(word_views(words_prons), ali.words@, ali.prons@, n)]
            0 <= n < out.len() ==> {
                let p = made_of(word_views(words_prons), ali.words@, ali.prons@, n)->0;
                &&& out[n].word == ali.words@[n]
                &&& out[n].pron == kept_pron(ali.prons@, n)
                &&& takes(
                    phone_intervals(m, runs_of(m, ali.tids@)),
                    out[n],
                    starts[n],
                    starts[n] + p.len(),
                )
            },
{
    phones_are_adjacent(m, ali);
    spoken_words_are_laid(
        phone_intervals(m, runs_of(m, ali.tids@)),
        word_views(words_prons),
        ali.words@,
        ali.prons@,
        starts,
        0,
        0,
    );
}

} // verus!
