//! What decoding graphs speak: every emitting arc has the pdf of a phone between the phones that are
//! spoken before and after it.

use vstd::prelude::*;

use crate::float::{less, value, FloatOp, ZERO};
use crate::hmm::construct::{
    after_costs_of, before_cost, complement, corr_cost_of, draft_of, emittable, epsilon, exits_of,
    first_phones_of, graph_of, grown, hmm_arc, hmm_arcs, inner_states, label, leading,
    leading_phones, live_words, neg_log_of, placed, pron_cost_of, roomy, state_tuple,
    transition_ready, usable, window_of, with_arc, with_entries, with_fan, with_fans, with_hmm,
    with_hubs, with_inner_phones, with_phone, with_phone_from_all, with_pron, with_prons,
    with_start, with_words, Branch, Entry, Exit, Hub, Setup, Spot,
};
use crate::hmm::context::{window_event, PDF_CLASS_KEY};
use crate::hmm::endings::sorting_exists;
use crate::hmm::graph::{arc_fits, arcs_fit, Arc, GraphView, NO_PRON, NO_WORD};
use crate::hmm::selfloops::{
    class_of, entered, loop_arc, recorded_class_enters, redirected_all, self_looped, source,
    sources_exist, split,
};
use crate::hmm::topology::{covers, max_class, states_of, StateView};
use crate::hmm::transition::{
    hmm_state_of, id_count, ids_and_pairs_agree, pairs_and_ids_agree, self_loops_loop, state_number,
    ModelView,
};
use crate::order::is_ascending;
use crate::tree::{answer, lookup};
use crate::types::{PhoneId, PronView, WordId};

verus! {

/// A phone with the one before and the one after it.
pub struct Triple {
    pub before: PhoneId,
    pub phone: PhoneId,
    pub after: PhoneId,
}

/// None of the words from `a` to `b` can be pronounced.
pub open spec fn are_mute(words: Seq<Seq<PronView>>, a: int, b: int) -> bool {
    forall|w: int| a <= w < b ==> !usable(#[trigger] words[w])
}

/// Word `w` has a pronunciation that starts with `x`.
pub open spec fn starts_with(words: Seq<Seq<PronView>>, w: int, x: PhoneId) -> bool {
    exists|v: int|
        0 <= v < words[w].len() && (#[trigger] words[w][v]).phones.len() > 0
            && words[w][v].phones.first() == x
}

/// Word `w` has a pronunciation that ends with `x`.
pub open spec fn ends_with(words: Seq<Seq<PronView>>, w: int, x: PhoneId) -> bool {
    exists|v: int|
        0 <= v < words[w].len() && (#[trigger] words[w][v]).phones.len() > 0
            && words[w][v].phones.last() == x
}

/// `x` ends what is spoken before word `w`: it is the last phone of the word before, or 0 where there
/// is none.
pub open spec fn ends_before(words: Seq<Seq<PronView>>, w: int, x: PhoneId) -> bool {
    ||| x == 0 && are_mute(words, 0, w)
    ||| exists|u: int| 0 <= u < w && are_mute(words, u + 1, w) && #[trigger] ends_with(words, u, x)
}

/// `x` starts what is spoken from word `w` on: it is the first phone of that word, or of the first
/// one behind it that has any, or 0 where there is none.
pub open spec fn starts_from(words: Seq<Seq<PronView>>, w: int, x: PhoneId) -> bool {
    ||| x == 0 && are_mute(words, w, words.len() as int)
    ||| exists|u: int|
        w <= u < words.len() && are_mute(words, w, u) && #[trigger] starts_with(words, u, x)
}

/// Phone `j` of pronunciation `v` of word `w` in the order in which the phones are spoken: the phones
/// next to it are those of the pronunciation, beyond its ends silence or those of the neighbouring
/// words.
pub open spec fn is_in_word(
    silence: PhoneId,
    words: Seq<Seq<PronView>>,
    t: Triple,
    w: int,
    v: int,
    j: int,
) -> bool {
    let phones = words[w][v].phones;
    &&& 0 <= w < words.len()
    &&& 0 <= v < words[w].len()
    &&& 0 <= j < phones.len()
    &&& t.phone == phones[j]
    &&& if j > 0 {
        t.before == phones[j - 1]
    } else {
        t.before == silence || ends_before(words, w, t.before)
    }
    &&& if j + 1 < phones.len() {
        t.after == phones[j + 1]
    } else {
        t.after == silence || starts_from(words, w + 1, t.after)
    }
}

/// Silence before word `w`, or behind the last one, between what is spoken before and after it.
pub open spec fn is_silence(silence: PhoneId, words: Seq<Seq<PronView>>, t: Triple, w: int) -> bool {
    &&& t.phone == silence
    &&& 0 <= w <= words.len()
    &&& ends_before(words, w, t.before)
    &&& starts_from(words, w, t.after)
}

/// The phones follow each other like this when the words are spoken one after the other, or when all
/// is silent.
pub open spec fn is_spoken(silence: PhoneId, words: Seq<Seq<PronView>>, t: Triple) -> bool {
    ||| exists|w: int, v: int, j: int| #[trigger] is_in_word(silence, words, t, w, v, j)
    ||| exists|w: int| #[trigger] is_silence(silence, words, t, w)
    ||| t == (Triple { before: 0, phone: silence, after: 0 })
}

/// The event that asks a tree for the pdf-class of a phone between its neighbours: at the central
/// position stands the phone, at the position before it the phone before, at the position after it
/// the phone after, and nothing is known further out.
pub open spec fn asks_for(su: Setup, event: Seq<(i32, i32)>, t: Triple, class: i32) -> bool {
    &&& lookup(event, PDF_CLASS_KEY) == Some(class)
    &&& lookup(event, su.p as i32) == Some(t.phone as i32)
    &&& su.p > 0 ==> lookup(event, (su.p - 1) as i32) == Some(t.before as i32)
    &&& su.p + 1 < su.n ==> lookup(event, (su.p + 1) as i32) == Some(t.after as i32)
    &&& forall|i: int|
        0 <= i < su.n && (i < su.p - 1 || su.p + 1 < i) ==> #[trigger] lookup(event, i as i32)
            == Some(0i32)
}

/// The transition belongs to the phone, and to the pdf that the tree has for it between its
/// neighbours.
pub open spec fn speaks(su: Setup, tid: u32, t: Triple) -> bool {
    let tuple = su.m.tuple_of(tid as int);
    &&& tuple.phone == t.phone
    &&& tuple.forward_pdf == tuple.self_loop_pdf
    &&& exists|event: Seq<(i32, i32)>| #[trigger]
        asks_for(
            su,
            event,
            t,
            states_of(su.m.topo, t.phone)[tuple.hmm_state as int].pdf_class,
        ) && answer(su.tree, event) == Some(tuple.forward_pdf)
}

/// An arc that emits speaks a phone between phones that can be spoken before and after it. One with a
/// label speaks the first phone of the labelled word and pronunciation.
pub open spec fn is_voiced(su: Setup, words: Seq<Seq<PronView>>, a: Arc) -> bool {
    a.tid != 0 ==> exists|t: Triple| #[trigger]
        speaks(su, a.tid, t) && is_spoken(su.opts.silence_phone, words, t) && (a.word != NO_WORD
            ==> is_in_word(su.opts.silence_phone, words, t, a.word as int, a.pron as int, 0))
}

/// Every arc fits, and is voiced.
pub open spec fn are_voiced(su: Setup, words: Seq<Seq<PronView>>, g: Seq<Seq<Arc>>) -> bool {
    forall|s: int, k: int|
        0 <= s < g.len() && 0 <= k < g[s].len() ==> arc_fits(
            #[trigger] g[s][k],
            g.len() as int,
            su.m,
        ) && is_voiced(su, words, g[s][k])
}

/// The setup and the words are of sizes that the numbers of arcs can hold.
pub open spec fn are_numbered(su: Setup, words: Seq<Seq<PronView>>) -> bool {
    &&& 0 <= su.p < su.n <= i32::MAX
    &&& su.m.tuples.len() < u32::MAX
    &&& id_count(su.m.topo, su.m.tuples) < u32::MAX
    &&& forall|p: PhoneId| #[trigger]
        covers(su.m.topo, p) ==> states_of(su.m.topo, p).len() <= usize::MAX
    &&& words.len() < NO_WORD
    &&& forall|w: int| 0 <= w < words.len() ==> (#[trigger] words[w]).len() < NO_PRON
}

proof fn lookup_finds(event: Seq<(i32, i32)>, key: i32, i: int)
    requires
        0 <= i < event.len(),
        event[i].0 == key,
        forall|j: int| 0 <= j < i ==> (#[trigger] event[j]).0 != key,
    ensures
        lookup(event, key) == Some(event[i].1),
    decreases i,
{
    if i > 0 {
        assert(event[0].0 != key);
        let rest = event.drop_first();
        assert forall|j: int| 0 <= j < i - 1 implies (#[trigger] rest[j]).0 != key by {
            assert(rest[j] == event[j + 1]);
        }
        lookup_finds(rest, key, i - 1);
    }
}

/// A window lists the phones in the order in which they are spoken.
pub proof fn windows_are_in_spoken_order(su: Setup, t: Triple, class: i32)
    requires
        0 <= su.p < su.n <= i32::MAX,
    ensures
        window_of(su.n, su.p, t.before, t.phone, t.after).len() == su.n,
        asks_for(
            su,
            window_event(window_of(su.n, su.p, t.before, t.phone, t.after), class),
            t,
            class,
        ),
{
    let window = window_of(su.n, su.p, t.before, t.phone, t.after);
    let event = window_event(window, class);
    lookup_finds(event, PDF_CLASS_KEY, 0);
    assert forall|i: int| 0 <= i < su.n implies #[trigger] lookup(event, i as i32) == Some(
        window[i] as i32,
    ) by {
        assert(event[i + 1] == (i as i32, window[i] as i32));
        assert forall|j: int| 0 <= j < i + 1 implies (#[trigger] event[j]).0 != i as i32 by {
            if j > 0 {
                assert(event[j] == ((j - 1) as i32, window[j - 1] as i32));
            }
        }
        lookup_finds(event, i as i32, i + 1);
    }
    assert(lookup(event, su.p as i32) == Some(window[su.p] as i32));
    if su.p > 0 {
        assert(lookup(event, (su.p - 1) as i32) == Some(window[su.p - 1] as i32));
    }
    if su.p + 1 < su.n {
        assert(lookup(event, (su.p + 1) as i32) == Some(window[su.p + 1] as i32));
    }
}

proof fn growing_keeps_voices(su: Setup, words: Seq<Seq<PronView>>, g: Seq<Seq<Arc>>, n: nat)
    requires
        are_voiced(su, words, g),
    ensures
        are_voiced(su, words, grown(g, n)),
        grown(g, n).len() == g.len() + n,
{
    let h = grown(g, n);
    assert forall|s: int, k: int| 0 <= s < h.len() && 0 <= k < h[s].len() implies arc_fits(
        #[trigger] h[s][k],
        h.len() as int,
        su.m,
    ) && is_voiced(su, words, h[s][k]) by {
        assert(s < g.len());
        assert(h[s] == g[s]);
        assert(arc_fits(g[s][k], g.len() as int, su.m));
    }
}

proof fn adding_keeps_voices(
    su: Setup,
    words: Seq<Seq<PronView>>,
    g: Seq<Seq<Arc>>,
    at: int,
    added: Seq<Arc>,
)
    requires
        are_voiced(su, words, g),
        0 <= at < g.len(),
        forall|k: int|
            0 <= k < added.len() ==> arc_fits(#[trigger] added[k], g.len() as int, su.m)
                && is_voiced(su, words, added[k]),
    ensures
        are_voiced(su, words, g.update(at, g[at] + added)),
{
    let h = g.update(at, g[at] + added);
    assert forall|s: int, k: int| 0 <= s < h.len() && 0 <= k < h[s].len() implies arc_fits(
        #[trigger] h[s][k],
        h.len() as int,
        su.m,
    ) && is_voiced(su, words, h[s][k]) by {
        if s == at && k >= g[at].len() {
            assert(h[s][k] == added[k - g[at].len()]);
        } else {
            assert(h[s][k] == g[s][k]);
        }
    }
}

proof fn epsilon_keeps_voices(
    su: Setup,
    words: Seq<Seq<PronView>>,
    g: Seq<Seq<Arc>>,
    from: u32,
    next: u32,
    cost: u32,
)
    requires
        are_voiced(su, words, g),
        from < g.len(),
        next < g.len(),
    ensures
        are_voiced(su, words, with_arc(g, from, epsilon(next, cost))),
        with_arc(g, from, epsilon(next, cost)).len() == g.len(),
{
    let a = epsilon(next, cost);
    assert(arc_fits(a, g.len() as int, su.m));
    adding_keeps_voices(su, words, g, from as int, seq![a]);
    assert(g[from as int] + seq![a] =~= g[from as int].push(a));
}

/// The spot is one for a phone that can be spoken there, and its label that of its word.
spec fn is_spot(su: Setup, words: Seq<Seq<PronView>>, spot: Spot, t: Triple) -> bool {
    &&& spot.window == window_of(su.n, su.p, t.before, t.phone, t.after)
    &&& is_spoken(su.opts.silence_phone, words, t)
    &&& spot.word != NO_WORD ==> is_in_word(
        su.opts.silence_phone,
        words,
        t,
        spot.word as int,
        spot.pron as int,
        0,
    )
}

proof fn hmm_arc_is_voiced<F: Fn(FloatOp) -> u64>(
    su: Setup,
    words: Seq<Seq<PronView>>,
    spot: Spot,
    t: Triple,
    s: int,
    k: int,
    len: int,
    f: F,
)
    requires
        are_numbered(su, words),
        is_spot(su, words, spot, t),
        emittable(su, spot.window),
        0 <= s < states_of(su.m.topo, spot.window[su.p]).len(),
        0 <= k < states_of(su.m.topo, spot.window[su.p])[s].transitions.len(),
        states_of(su.m.topo, spot.window[su.p])[s].transitions[k].0 != s,
        0 <= spot.base,
        spot.from < len,
        spot.to < len,
        len <= u32::MAX,
        spot.base + inner_states(su, spot.window) <= len,
    ensures
        arc_fits(hmm_arc(su, spot, s, k, f), len, su.m),
        is_voiced(su, words, hmm_arc(su, spot, s, k, f)),
{
    let m = su.m;
    let states = states_of(m.topo, spot.window[su.p]);
    let a = hmm_arc(su, spot, s, k, f);
    assert(covers(m.topo, spot.window[su.p]));
    assert(transition_ready(su, spot.window, s, k));
    if states[s].emits() {
        let tuple = state_tuple(su, spot.window, s);
        assert(m.tuples.contains(tuple));
        let n = state_number(m, tuple);
        assert(m.tuples[n - 1] == tuple);
        assert(tuple.hmm_state == s);
        assert(hmm_state_of(m.topo, tuple) == states[s]);
        pairs_and_ids_agree(m, n, k);
        assert(m.tuple_of(a.tid as int) == tuple);
        let class = states[s].pdf_class;
        windows_are_in_spoken_order(su, t, class);
        assert(spot.window[su.p] == t.phone);
        let event = window_event(spot.window, class);
        class_is_answered(su, spot.window, s);
        assert(asks_for(su, event, t, class));
        assert(speaks(su, a.tid, t));
    }
}

proof fn classes_are_counted(states: Seq<StateView>, s: int)
    requires
        0 <= s < states.len(),
    ensures
        states[s].pdf_class <= max_class(states),
    decreases states.len(),
{
    if s < states.len() - 1 {
        classes_are_counted(states.drop_last(), s);
    }
}

/// The tree answers for the pdf-class of a state that the window can emit.
proof fn class_is_answered(su: Setup, window: Seq<PhoneId>, s: int)
    requires
        emittable(su, window),
        0 <= s < states_of(su.m.topo, window[su.p]).len(),
        states_of(su.m.topo, window[su.p])[s].pdf_class >= 0,
    ensures
        answer(
            su.tree,
            window_event(window, states_of(su.m.topo, window[su.p])[s].pdf_class),
        ) is Some,
{
    let class = states_of(su.m.topo, window[su.p])[s].pdf_class;
    classes_are_counted(states_of(su.m.topo, window[su.p]), s);
    assert(answer(su.tree, window_event(window, (class as int) as i32)) is Some);
}

proof fn hmm_arcs_are_voiced<F: Fn(FloatOp) -> u64>(
    su: Setup,
    words: Seq<Seq<PronView>>,
    spot: Spot,
    t: Triple,
    s: int,
    n: int,
    len: int,
    f: F,
)
    requires
        are_numbered(su, words),
        is_spot(su, words, spot, t),
        emittable(su, spot.window),
        0 <= s < states_of(su.m.topo, spot.window[su.p]).len(),
        0 <= n <= states_of(su.m.topo, spot.window[su.p])[s].transitions.len(),
        0 <= spot.base,
        spot.from < len,
        spot.to < len,
        len <= u32::MAX,
        spot.base + inner_states(su, spot.window) <= len,
    ensures
        forall|j: int|
            0 <= j < hmm_arcs(su, spot, s, n, f).len() ==> arc_fits(
                #[trigger] hmm_arcs(su, spot, s, n, f)[j],
                len,
                su.m,
            ) && is_voiced(su, words, hmm_arcs(su, spot, s, n, f)[j]),
    decreases n,
{
    if n > 0 {
        hmm_arcs_are_voiced(su, words, spot, t, s, n - 1, len, f);
        let rest = hmm_arcs(su, spot, s, n - 1, f);
        let all = hmm_arcs(su, spot, s, n, f);
        if states_of(su.m.topo, spot.window[su.p])[s].transitions[n - 1].0 != s {
            hmm_arc_is_voiced(su, words, spot, t, s, n - 1, len, f);
        }
        assert forall|j: int| 0 <= j < all.len() implies arc_fits(#[trigger] all[j], len, su.m)
            && is_voiced(su, words, all[j]) by {
            if j < rest.len() {
                assert(all[j] == rest[j]);
            }
        }
    }
}

proof fn hmm_is_voiced<F: Fn(FloatOp) -> u64>(
    g: Seq<Seq<Arc>>,
    su: Setup,
    words: Seq<Seq<PronView>>,
    spot: Spot,
    t: Triple,
    s: int,
    f: F,
)
    requires
        are_numbered(su, words),
        is_spot(su, words, spot, t),
        emittable(su, spot.window),
        are_voiced(su, words, g),
        0 <= s <= states_of(su.m.topo, spot.window[su.p]).len(),
        0 <= spot.base,
        spot.from < g.len(),
        spot.to < g.len(),
        g.len() <= u32::MAX,
        spot.base + inner_states(su, spot.window) <= g.len(),
    ensures
        with_hmm(g, su, spot, s, f).len() == g.len(),
        are_voiced(su, words, with_hmm(g, su, spot, s, f)),
    decreases s,
{
    if s > 0 {
        hmm_is_voiced(g, su, words, spot, t, s - 1, f);
        let states = states_of(su.m.topo, spot.window[su.p]);
        let rest = with_hmm(g, su, spot, s - 1, f);
        let at = placed(spot.base, states.len() as int, spot.from, spot.to, s - 1) as int;
        let count = states[s - 1].transitions.len() as int;
        hmm_arcs_are_voiced(su, words, spot, t, s - 1, count, rest.len() as int, f);
        adding_keeps_voices(su, words, rest, at, hmm_arcs(su, spot, s - 1, count, f));
    }
}

/// The result of a step: what was voiced still is, and no state is lost.
spec fn goes_on(su: Setup, words: Seq<Seq<PronView>>, g: Seq<Seq<Arc>>, h: Seq<Seq<Arc>>) -> bool {
    are_voiced(su, words, h) && g.len() <= h.len()
}

proof fn phone_is_voiced<F: Fn(FloatOp) -> u64>(
    g: Seq<Seq<Arc>>,
    su: Setup,
    words: Seq<Seq<PronView>>,
    t: Triple,
    from: u32,
    to: u32,
    word: WordId,
    pron: u32,
    f: F,
)
    requires
        are_numbered(su, words),
        are_voiced(su, words, g),
        is_spoken(su.opts.silence_phone, words, t),
        word != NO_WORD ==> is_in_word(
            su.opts.silence_phone,
            words,
            t,
            word as int,
            pron as int,
            0,
        ),
        from < g.len(),
        to < g.len(),
    ensures
        with_phone(
            g,
            su,
            window_of(su.n, su.p, t.before, t.phone, t.after),
            from,
            to,
            word,
            pron,
            f,
        ) matches Some(h) ==> goes_on(su, words, g, h),
{
    let window = window_of(su.n, su.p, t.before, t.phone, t.after);
    if with_phone(g, su, window, from, to, word, pron, f) is Some {
        let spot = Spot { window, base: g.len() as int, from, to, word, pron };
        growing_keeps_voices(su, words, g, inner_states(su, window));
        hmm_is_voiced(
            grown(g, inner_states(su, window)),
            su,
            words,
            spot,
            t,
            states_of(su.m.topo, window[su.p]).len() as int,
            f,
        );
    }
}

/// The entries lie in the graph, and what is spoken before each of them can be spoken before phone
/// `j` of the pronunciation.
spec fn lead_to(
    su: Setup,
    words: Seq<Seq<PronView>>,
    g: Seq<Seq<Arc>>,
    cur: Seq<Entry>,
    w: int,
    phones: Seq<PhoneId>,
    j: int,
) -> bool {
    forall|i: int|
        0 <= i < cur.len() ==> (#[trigger] cur[i]).state < g.len() && if j > 0 {
            cur[i].left == phones[j - 1]
        } else {
            cur[i].left == su.opts.silence_phone || ends_before(words, w, cur[i].left)
        }
}

/// The phone comes after phone `j` of the pronunciation.
spec fn may_follow(
    su: Setup,
    words: Seq<Seq<PronView>>,
    w: int,
    phones: Seq<PhoneId>,
    j: int,
    right: PhoneId,
) -> bool {
    if j + 1 < phones.len() {
        right == phones[j + 1]
    } else {
        right == su.opts.silence_phone || starts_from(words, w + 1, right)
    }
}

/// The label is that of the word, or none, and behind the first phone it is none.
spec fn is_label_of(word: WordId, pron: u32, w: int, v: int, j: int) -> bool {
    word != NO_WORD ==> word == w && pron == v && j == 0
}

proof fn places_are_voiced<F: Fn(FloatOp) -> u64>(
    g: Seq<Seq<Arc>>,
    su: Setup,
    words: Seq<Seq<PronView>>,
    w: int,
    v: int,
    j: int,
    cur: Seq<Entry>,
    i: int,
    right: PhoneId,
    exit: u32,
    word: WordId,
    pron: u32,
    f: F,
)
    requires
        are_numbered(su, words),
        are_voiced(su, words, g),
        0 <= w < words.len(),
        0 <= v < words[w].len(),
        0 <= j < words[w][v].phones.len(),
        lead_to(su, words, g, cur, w, words[w][v].phones, j),
        may_follow(su, words, w, words[w][v].phones, j, right),
        is_label_of(word, pron, w, v, j),
        0 <= i <= cur.len(),
        exit < g.len(),
    ensures
        with_phone_from_all(
            g,
            su,
            cur,
            i,
            words[w][v].phones[j],
            right,
            exit,
            word,
            pron,
            f,
        ) matches Some(h) ==> goes_on(su, words, g, h),
    decreases cur.len() - i,
{
    if i < cur.len() {
        let t = Triple { before: cur[i].left, phone: words[w][v].phones[j], after: right };
        assert(is_in_word(su.opts.silence_phone, words, t, w, v, j));
        phone_is_voiced(g, su, words, t, cur[i].state, exit, word, pron, f);
        match with_phone(
            g,
            su,
            window_of(su.n, su.p, t.before, t.phone, t.after),
            cur[i].state,
            exit,
            word,
            pron,
            f,
        ) {
            Some(g1) => {
                assert(lead_to(su, words, g1, cur, w, words[w][v].phones, j));
                places_are_voiced(
                    g1,
                    su,
                    words,
                    w,
                    v,
                    j,
                    cur,
                    i + 1,
                    right,
                    exit,
                    word,
                    pron,
                    f,
                );
            },
            None => {},
        }
    }
}

proof fn inner_phones_are_voiced<F: Fn(FloatOp) -> u64>(
    g: Seq<Seq<Arc>>,
    su: Setup,
    words: Seq<Seq<PronView>>,
    w: int,
    v: int,
    cur: Seq<Entry>,
    k: int,
    f: F,
)
    requires
        are_numbered(su, words),
        are_voiced(su, words, g),
        0 <= w < words.len(),
        0 <= v < words[w].len(),
        0 <= k < words[w][v].phones.len(),
        lead_to(su, words, g, cur, w, words[w][v].phones, k),
    ensures
        with_inner_phones(
            g,
            su,
            cur,
            words[w][v].phones,
            k,
            w as u32,
            v as u32,
            f,
        ) matches Some((h, next)) ==> goes_on(su, words, g, h) && lead_to(
            su,
            words,
            h,
            next,
            w,
            words[w][v].phones,
            words[w][v].phones.len() - 1,
        ),
    decreases words[w][v].phones.len() - k,
{
    let phones = words[w][v].phones;
    assert(words[w].len() < NO_PRON);
    if k + 1 < phones.len() {
        let exit = g.len() as u32;
        if roomy(g, 1) {
            growing_keeps_voices(su, words, g, 1);
            let g0 = grown(g, 1);
            assert(lead_to(su, words, g0, cur, w, phones, k));
            places_are_voiced(
                g0,
                su,
                words,
                w,
                v,
                k,
                cur,
                0,
                phones[k + 1],
                exit,
                label(k, w as u32),
                label(k, v as u32),
                f,
            );
            match with_phone_from_all(
                g0,
                su,
                cur,
                0,
                phones[k],
                phones[k + 1],
                exit,
                label(k, w as u32),
                label(k, v as u32),
                f,
            ) {
                Some(g1) => {
                    let next = seq![Entry { state: exit, left: phones[k] }];
                    assert(lead_to(su, words, g1, next, w, phones, k + 1));
                    inner_phones_are_voiced(g1, su, words, w, v, next, k + 1, f);
                },
                None => {},
            }
        }
    }
}

/// Everything behind the exits can be spoken after word `w`.
spec fn may_end(su: Setup, words: Seq<Seq<PronView>>, exits: Seq<Exit>, w: int) -> bool {
    forall|i: int|
        0 <= i < exits.len() ==> (#[trigger] exits[i]).right == su.opts.silence_phone
            || starts_from(words, w + 1, exits[i].right)
}

proof fn fan_is_voiced<F: Fn(FloatOp) -> u64>(
    g: Seq<Seq<Arc>>,
    su: Setup,
    words: Seq<Seq<PronView>>,
    w: int,
    v: int,
    cur: Seq<Entry>,
    at: int,
    exits: Seq<Exit>,
    i: int,
    base: int,
    word: WordId,
    pron: u32,
    f: F,
)
    requires
        are_numbered(su, words),
        are_voiced(su, words, g),
        0 <= w < words.len(),
        0 <= v < words[w].len(),
        words[w][v].phones.len() > 0,
        lead_to(su, words, g, cur, w, words[w][v].phones, words[w][v].phones.len() - 1),
        0 <= at < cur.len(),
        may_end(su, words, exits, w),
        is_label_of(word, pron, w, v, words[w][v].phones.len() - 1),
        0 <= i <= exits.len(),
        0 <= base,
        base + exits.len() <= g.len(),
        base + exits.len() <= u32::MAX,
    ensures
        with_fan(
            g,
            su,
            cur[at],
            exits,
            i,
            base,
            words[w][v].phones.last(),
            word,
            pron,
            f,
        ) matches Some(h) ==> goes_on(su, words, g, h),
    decreases exits.len() - i,
{
    if i < exits.len() {
        let from = cur[at];
        let phones = words[w][v].phones;
        let j = phones.len() - 1;
        let t = Triple { before: from.left, phone: phones.last(), after: exits[i].right };
        assert(is_in_word(su.opts.silence_phone, words, t, w, v, j));
        phone_is_voiced(g, su, words, t, from.state, (base + i) as u32, word, pron, f);
        match with_phone(
            g,
            su,
            window_of(su.n, su.p, t.before, t.phone, t.after),
            from.state,
            (base + i) as u32,
            word,
            pron,
            f,
        ) {
            Some(g1) => {
                assert(lead_to(su, words, g1, cur, w, phones, j));
                fan_is_voiced(g1, su, words, w, v, cur, at, exits, i + 1, base, word, pron, f);
            },
            None => {},
        }
    }
}

proof fn fans_are_voiced<F: Fn(FloatOp) -> u64>(
    g: Seq<Seq<Arc>>,
    su: Setup,
    words: Seq<Seq<PronView>>,
    w: int,
    v: int,
    cur: Seq<Entry>,
    i: int,
    exits: Seq<Exit>,
    base: int,
    word: WordId,
    pron: u32,
    f: F,
)
    requires
        are_numbered(su, words),
        are_voiced(su, words, g),
        0 <= w < words.len(),
        0 <= v < words[w].len(),
        words[w][v].phones.len() > 0,
        lead_to(su, words, g, cur, w, words[w][v].phones, words[w][v].phones.len() - 1),
        may_end(su, words, exits, w),
        is_label_of(word, pron, w, v, words[w][v].phones.len() - 1),
        0 <= i <= cur.len(),
        0 <= base,
        base + exits.len() <= g.len(),
        base + exits.len() <= u32::MAX,
    ensures
        with_fans(
            g,
            su,
            cur,
            i,
            exits,
            base,
            words[w][v].phones.last(),
            word,
            pron,
            f,
        ) matches Some(h) ==> goes_on(su, words, g, h),
    decreases cur.len() - i,
{
    if i < cur.len() {
        let phones = words[w][v].phones;
        fan_is_voiced(g, su, words, w, v, cur, i, exits, 0, base, word, pron, f);
        match with_fan(g, su, cur[i], exits, 0, base, phones.last(), word, pron, f) {
            Some(g1) => {
                assert(lead_to(su, words, g1, cur, w, phones, phones.len() - 1));
                fans_are_voiced(g1, su, words, w, v, cur, i + 1, exits, base, word, pron, f);
            },
            None => {},
        }
    }
}

/// The hubs lie in the graph, and what is spoken before each of them is silence or can be spoken
/// before word `w`.
spec fn hubs_lead_to(
    su: Setup,
    words: Seq<Seq<PronView>>,
    g: Seq<Seq<Arc>>,
    hubs: Seq<Hub>,
    w: int,
) -> bool {
    forall|i: int|
        0 <= i < hubs.len() ==> (#[trigger] hubs[i]).state < g.len() && (hubs[i].left
            == su.opts.silence_phone || ends_before(words, w, hubs[i].left))
}

proof fn entries_are_voiced<F: Fn(FloatOp) -> u64>(
    g: Seq<Seq<Arc>>,
    su: Setup,
    words: Seq<Seq<PronView>>,
    entries: Seq<Entry>,
    hubs: Seq<Hub>,
    i: int,
    costs: (u32, u32, u32),
    w: int,
    phones: Seq<PhoneId>,
    f: F,
)
    requires
        are_voiced(su, words, g),
        hubs_lead_to(su, words, g, hubs, w),
        lead_to(su, words, g, entries, w, phones, 0),
        0 <= i <= hubs.len(),
    ensures
        with_entries(g, entries, hubs, i, costs.0, costs.1, costs.2, f) matches Some((h, more))
            ==> goes_on(su, words, g, h) && lead_to(su, words, h, more, w, phones, 0),
    decreases hubs.len() - i,
{
    if i < hubs.len() {
        let hub = hubs[i];
        entries_are_voiced(g, su, words, entries, hubs, i + 1, costs, w, phones, f);
        if roomy(g, 1) {
            let e = g.len() as u32;
            let cost = value(
                f,
                FloatOp::Add(
                    costs.0,
                    before_cost(hub.branch, costs.1, costs.2),
                ),
            );
            growing_keeps_voices(su, words, g, 1);
            epsilon_keeps_voices(su, words, grown(g, 1), hub.state, e, cost);
            let h = with_arc(grown(g, 1), hub.state, epsilon(e, cost));
            let more = entries.push(Entry { state: e, left: hub.left });
            assert(hubs_lead_to(su, words, h, hubs, w));
            assert(lead_to(su, words, h, more, w, phones, 0));
            entries_are_voiced(h, su, words, more, hubs, i + 1, costs, w, phones, f);
        }
    }
}

proof fn exits_are_voiced<F: Fn(FloatOp) -> u64>(
    g: Seq<Seq<Arc>>,
    hubs: Seq<Hub>,
    su: Setup,
    words: Seq<Seq<PronView>>,
    w: int,
    exits: Seq<Exit>,
    i: int,
    base: int,
    phone: PhoneId,
    costs: (u32, u32),
    after_silence: PhoneId,
    f: F,
)
    requires
        are_numbered(su, words),
        are_voiced(su, words, g),
        0 <= w < words.len(),
        ends_with(words, w, phone),
        starts_from(words, w + 1, after_silence),
        hubs_lead_to(su, words, g, hubs, w + 1),
        0 <= i <= exits.len(),
        0 <= base,
        base + exits.len() <= g.len(),
        base + exits.len() <= u32::MAX,
    ensures
        with_hubs(
            g,
            hubs,
            su,
            exits,
            i,
            base,
            phone,
            costs,
            after_silence,
            f,
        ) matches Some((h, more)) ==> goes_on(su, words, g, h) && hubs_lead_to(
            su,
            words,
            h,
            more,
            w + 1,
        ),
    decreases exits.len() - i,
{
    if i < exits.len() {
        let from = (base + i) as u32;
        let s = g.len() as u32;
        assert(are_mute(words, w + 1, w + 1));
        assert(ends_before(words, w + 1, phone));
        match exits[i].branch {
            Branch::Direct => {
                if roomy(g, 1) {
                    growing_keeps_voices(su, words, g, 1);
                    epsilon_keeps_voices(su, words, grown(g, 1), from, s, costs.1);
                    let h = with_arc(grown(g, 1), from, epsilon(s, costs.1));
                    let more = hubs.push(Hub { branch: Branch::Direct, state: s, left: phone });
                    assert(hubs_lead_to(su, words, h, more, w + 1));
                    exits_are_voiced(
                        h,
                        more,
                        su,
                        words,
                        w,
                        exits,
                        i + 1,
                        base,
                        phone,
                        costs,
                        after_silence,
                        f,
                    );
                }
            },
            Branch::Silence => {
                if roomy(g, 2) {
                    let sil = su.opts.silence_phone;
                    let end = (s + 1) as u32;
                    growing_keeps_voices(su, words, g, 1);
                    epsilon_keeps_voices(su, words, grown(g, 1), from, s, costs.0);
                    let h = with_arc(grown(g, 1), from, epsilon(s, costs.0));
                    growing_keeps_voices(su, words, h, 1);
                    let t = Triple { before: phone, phone: sil, after: after_silence };
                    assert(is_silence(sil, words, t, w + 1));
                    phone_is_voiced(grown(h, 1), su, words, t, s, end, NO_WORD, NO_PRON, f);
                    match with_phone(
                        grown(h, 1),
                        su,
                        window_of(su.n, su.p, phone, sil, after_silence),
                        s,
                        end,
                        NO_WORD,
                        NO_PRON,
                        f,
                    ) {
                        Some(g1) => {
                            let more = hubs.push(
                                Hub { branch: Branch::Silence, state: end, left: sil },
                            );
                            assert(hubs_lead_to(su, words, g1, more, w + 1));
                            exits_are_voiced(
                                g1,
                                more,
                                su,
                                words,
                                w,
                                exits,
                                i + 1,
                                base,
                                phone,
                                costs,
                                after_silence,
                                f,
                            );
                        },
                        None => {},
                    }
                }
            },
        }
    }
}

/// The phones can start what is spoken from word `w` on.
spec fn may_start(words: Seq<Seq<PronView>>, firsts: Seq<PhoneId>, w: int) -> bool {
    forall|i: int| 0 <= i < firsts.len() ==> starts_from(words, w, #[trigger] firsts[i])
}

proof fn pron_is_voiced<F: Fn(FloatOp) -> u64>(
    g: Seq<Seq<Arc>>,
    next_hubs: Seq<Hub>,
    su: Setup,
    words: Seq<Seq<PronView>>,
    hubs: Seq<Hub>,
    w: int,
    v: int,
    firsts: Seq<PhoneId>,
    f: F,
)
    requires
        are_numbered(su, words),
        are_voiced(su, words, g),
        0 <= w < words.len(),
        0 <= v < words[w].len(),
        hubs_lead_to(su, words, g, hubs, w),
        hubs_lead_to(su, words, g, next_hubs, w + 1),
        firsts.len() > 0,
        may_start(words, firsts, w + 1),
    ensures
        with_pron(
            g,
            next_hubs,
            su,
            hubs,
            words[w][v],
            w as u32,
            v as u32,
            firsts,
            leading(firsts),
            f,
        ) matches Some((h, more)) ==> goes_on(su, words, g, h) && hubs_lead_to(
            su,
            words,
            h,
            more,
            w + 1,
        ),
{
    let pron = words[w][v];
    let phones = pron.phones;
    let costs = after_costs_of(pron.silence_after_prob, su.opts.silence_prob, f);
    let exits = exits_of(costs.0, costs.1, su.opts.silence_phone, firsts);
    let last = phones.len() - 1;
    assert(words[w].len() < NO_PRON);
    if phones.len() > 0 {
        assert(ends_with(words, w, phones.last()));
        assert(starts_from(words, w + 1, firsts[0]));
        assert(may_end(su, words, exits, w)) by {
            assert forall|i: int| 0 <= i < exits.len() implies (#[trigger] exits[i]).right
                == su.opts.silence_phone || starts_from(words, w + 1, exits[i].right) by {
                if exits[i].branch is Direct {
                    assert(firsts.contains(exits[i].right));
                    let k = choose|k: int| 0 <= k < firsts.len() && firsts[k] == exits[i].right;
                    assert(starts_from(words, w + 1, firsts[k]));
                }
            }
        }
        let entering = (
            pron_cost_of(pron.prob, f),
            corr_cost_of(pron.silence_before_correction, f),
            corr_cost_of(pron.non_silence_before_correction, f),
        );
        let none = Seq::<Entry>::empty();
        assert(lead_to(su, words, g, none, w, phones, 0));
        entries_are_voiced(g, su, words, none, hubs, 0, entering, w, phones, f);
        match with_entries(g, none, hubs, 0, entering.0, entering.1, entering.2, f) {
            Some((g1, entries)) => {
                assert(hubs_lead_to(su, words, g1, next_hubs, w + 1));
                if entries.len() > 0 && exits.len() > 0 {
                    inner_phones_are_voiced(g1, su, words, w, v, entries, 0, f);
                    match with_inner_phones(g1, su, entries, phones, 0, w as u32, v as u32, f) {
                        Some((g2, cur)) => {
                            if roomy(g2, exits.len() as int) {
                                let g0 = grown(g2, exits.len());
                                growing_keeps_voices(su, words, g2, exits.len());
                                assert(lead_to(su, words, g0, cur, w, phones, last));
                                fans_are_voiced(
                                    g0,
                                    su,
                                    words,
                                    w,
                                    v,
                                    cur,
                                    0,
                                    exits,
                                    g2.len() as int,
                                    label(last, w as u32),
                                    label(last, v as u32),
                                    f,
                                );
                                match with_fans(
                                    g0,
                                    su,
                                    cur,
                                    0,
                                    exits,
                                    g2.len() as int,
                                    phones[last],
                                    label(last, w as u32),
                                    label(last, v as u32),
                                    f,
                                ) {
                                    Some(g3) => {
                                        assert(hubs_lead_to(su, words, g3, next_hubs, w + 1));
                                        exits_are_voiced(
                                            g3,
                                            next_hubs,
                                            su,
                                            words,
                                            w,
                                            exits,
                                            0,
                                            g2.len() as int,
                                            phones[last],
                                            costs,
                                            leading(firsts),
                                            f,
                                        );
                                    },
                                    None => {},
                                }
                            }
                        },
                        None => {},
                    }
                }
            },
            None => {},
        }
    }
}

proof fn prons_are_voiced<F: Fn(FloatOp) -> u64>(
    g: Seq<Seq<Arc>>,
    next_hubs: Seq<Hub>,
    su: Setup,
    words: Seq<Seq<PronView>>,
    hubs: Seq<Hub>,
    w: int,
    i: int,
    firsts: Seq<PhoneId>,
    f: F,
)
    requires
        are_numbered(su, words),
        are_voiced(su, words, g),
        0 <= w < words.len(),
        0 <= i <= words[w].len(),
        hubs_lead_to(su, words, g, hubs, w),
        hubs_lead_to(su, words, g, next_hubs, w + 1),
        firsts.len() > 0,
        may_start(words, firsts, w + 1),
    ensures
        with_prons(g, next_hubs, su, hubs, words[w], i, w as u32, firsts, f) matches Some((h, more))
            ==> goes_on(su, words, g, h) && hubs_lead_to(su, words, h, more, w + 1),
    decreases words[w].len() - i,
{
    if i < words[w].len() {
        pron_is_voiced(g, next_hubs, su, words, hubs, w, i, firsts, f);
        match with_pron(
            g,
            next_hubs,
            su,
            hubs,
            words[w][i],
            w as u32,
            i as u32,
            firsts,
            leading(firsts),
            f,
        ) {
            Some((g1, more)) => {
                assert(hubs_lead_to(su, words, g1, hubs, w));
                prons_are_voiced(g1, more, su, words, hubs, w, i + 1, firsts, f);
            },
            None => {},
        }
    }
}

/// Where the `k`-th word that can be pronounced stands, or the end.
spec fn place_of(words: Seq<Seq<PronView>>, live: Seq<int>, k: int) -> int {
    if k < live.len() {
        live[k]
    } else {
        words.len() as int
    }
}

/// The live words are all that can be pronounced.
spec fn are_live(words: Seq<Seq<PronView>>, live: Seq<int>, n: int) -> bool {
    &&& forall|k: int| 0 <= k < live.len() ==> 0 <= #[trigger] live[k] < n && usable(words[live[k]])
    &&& forall|k: int|
        0 < k < live.len() ==> live[k - 1] < #[trigger] live[k] && are_mute(
            words,
            live[k - 1] + 1,
            live[k],
        )
    &&& live.len() > 0 ==> are_mute(words, 0, live[0]) && are_mute(words, live.last() + 1, n)
    &&& live.len() == 0 ==> are_mute(words, 0, n)
}

proof fn live_words_are_live(words: Seq<Seq<PronView>>, n: int)
    requires
        0 <= n <= words.len(),
    ensures
        are_live(words, live_words(words, n), n),
    decreases n,
{
    if n > 0 {
        live_words_are_live(words, n - 1);
        let rest = live_words(words, n - 1);
        let all = live_words(words, n);
        if usable(words[n - 1]) {
            assert forall|k: int| 0 <= k < all.len() implies 0 <= #[trigger] all[k] < n && usable(
                words[all[k]],
            ) by {
                if k < rest.len() {
                    assert(all[k] == rest[k]);
                }
            }
            assert forall|k: int| 0 < k < all.len() implies all[k - 1] < #[trigger] all[k]
                && are_mute(words, all[k - 1] + 1, all[k]) by {
                assert(all[k - 1] == rest[k - 1]);
                if k < rest.len() {
                    assert(all[k] == rest[k]);
                }
            }
            if rest.len() > 0 {
                assert(all[0] == rest[0]);
            }
        }
    }
}

proof fn leading_phones_lead(words: Seq<Seq<PronView>>, w: int, n: int)
    requires
        0 <= w < words.len(),
        0 <= n <= words[w].len(),
    ensures
        forall|i: int|
            0 <= i < leading_phones(words[w], n).len() ==> starts_with(
                words,
                w,
                #[trigger] leading_phones(words[w], n)[i],
            ),
        (exists|v: int| 0 <= v < n && (#[trigger] words[w][v]).phones.len() > 0)
            ==> leading_phones(words[w], n).len() > 0,
    decreases n,
{
    if n > 0 {
        leading_phones_lead(words, w, n - 1);
        let rest = leading_phones(words[w], n - 1);
        let all = leading_phones(words[w], n);
        assert forall|i: int| 0 <= i < all.len() implies starts_with(words, w, #[trigger] all[i]) by {
            if i < rest.len() {
                assert(all[i] == rest[i]);
            } else {
                assert(words[w][n - 1].phones.len() > 0);
            }
        }
    }
}

/// The first phones of the `k`-th word that can be pronounced start what is spoken from any place
/// behind the word before it.
proof fn first_phones_start(words: Seq<Seq<PronView>>, live: Seq<int>, k: int, w: int)
    requires
        are_live(words, live, words.len() as int),
        0 <= k <= live.len(),
        0 <= w <= place_of(words, live, k),
        are_mute(words, w, place_of(words, live, k)),
    ensures
        first_phones_of(words, live, k).len() > 0,
        may_start(words, first_phones_of(words, live, k), w),
{
    let firsts = first_phones_of(words, live, k);
    if k < live.len() {
        let u = live[k];
        let all = leading_phones(words[u], words[u].len() as int);
        let r = sorting_exists(all);
        is_ascending(r, all);
        leading_phones_lead(words, u, words[u].len() as int);
        assert(usable(words[u]));
        assert(all.contains(all[0]));
        assert(r.contains(all[0]));
        assert forall|i: int| 0 <= i < firsts.len() implies starts_from(
            words,
            w,
            #[trigger] firsts[i],
        ) by {
            assert(r.contains(firsts[i]));
            let j = choose|j: int| 0 <= j < all.len() && all[j] == firsts[i];
            assert(starts_with(words, u, all[j]));
        }
    }
}

proof fn words_are_voiced<F: Fn(FloatOp) -> u64>(
    g: Seq<Seq<Arc>>,
    hubs: Seq<Hub>,
    su: Setup,
    words: Seq<Seq<PronView>>,
    live: Seq<int>,
    k: int,
    f: F,
)
    requires
        are_numbered(su, words),
        are_voiced(su, words, g),
        are_live(words, live, words.len() as int),
        0 <= k <= live.len(),
        hubs_lead_to(su, words, g, hubs, place_of(words, live, k)),
    ensures
        with_words(g, hubs, su, words, live, k, f) matches Some(Some((h, ends))) ==> are_voiced(
            su,
            words,
            h,
        ),
    decreases live.len() - k,
{
    if k < live.len() {
        let w = live[k];
        let end = place_of(words, live, k + 1);
        let none = Seq::<Hub>::empty();
        assert(are_mute(words, w + 1, end)) by {
            if k + 1 < live.len() {
                assert(live[k + 1 - 1] < live[k + 1]);
            }
        }
        assert(w < end) by {
            if k + 1 < live.len() {
                assert(live[k + 1 - 1] < live[k + 1]);
            }
        }
        let firsts = first_phones_of(words, live, k + 1);
        first_phones_start(words, live, k + 1, w + 1);
        assert(hubs_lead_to(su, words, g, none, w + 1));
        prons_are_voiced(g, none, su, words, hubs, w, 0, firsts, f);
        match with_prons(g, none, su, hubs, words[w], 0, w as u32, firsts, f) {
            Some((g1, next)) => {
                assert(hubs_lead_to(su, words, g1, next, end)) by {
                    assert forall|i: int| 0 <= i < next.len() implies (#[trigger] next[i]).state
                        < g1.len() && (next[i].left == su.opts.silence_phone || ends_before(
                        words,
                        end,
                        next[i].left,
                    )) by {
                        if ends_before(words, w + 1, next[i].left) {
                            ends_further(words, w, end, next[i].left);
                        }
                    }
                }
                words_are_voiced(g1, next, su, words, live, k + 1, f);
            },
            None => {},
        }
    }
}

/// What is spoken before a place is spoken before any later one, if no word between can be
/// pronounced.
proof fn ends_further(words: Seq<Seq<PronView>>, w: int, end: int, x: PhoneId)
    requires
        0 <= w < end,
        usable(words[w]),
        are_mute(words, w + 1, end),
        ends_before(words, w + 1, x),
    ensures
        ends_before(words, end, x),
{
    if are_mute(words, 0, w + 1) {
        assert(!usable(words[w]));
    } else {
        let u = choose|u: int|
            0 <= u < w + 1 && are_mute(words, u + 1, w + 1) && #[trigger] ends_with(words, u, x);
        if u < w {
            assert(!usable(words[w]));
        }
        assert(are_mute(words, u + 1, end));
    }
}

proof fn start_is_voiced<F: Fn(FloatOp) -> u64>(
    su: Setup,
    words: Seq<Seq<PronView>>,
    firsts: Seq<PhoneId>,
    w: int,
    f: F,
)
    requires
        are_numbered(su, words),
        0 <= w <= words.len(),
        are_mute(words, 0, w),
        firsts.len() > 0,
        may_start(words, firsts, w),
    ensures
        with_start(su, firsts, f) matches Some((g, hubs)) ==> are_voiced(su, words, g)
            && hubs_lead_to(su, words, g, hubs, w),
{
    let none = Seq::<Seq<Arc>>::empty();
    let start = grown(none, 1);
    let p = su.opts.initial_silence_prob;
    let sil = su.opts.silence_phone;
    assert(are_voiced(su, words, none));
    growing_keeps_voices(su, words, none, 1);
    assert(ends_before(words, w, 0));
    assert(starts_from(words, w, firsts[0]));
    if less(ZERO, p) {
        let c = neg_log_of(complement(p, f), f);
        growing_keeps_voices(su, words, start, 1);
        epsilon_keeps_voices(su, words, grown(start, 1), 0, 1, c);
        let direct = with_arc(grown(start, 1), 0, epsilon(1, c));
        growing_keeps_voices(su, words, direct, 1);
        epsilon_keeps_voices(su, words, grown(direct, 1), 0, 2, neg_log_of(p, f));
        let silent = with_arc(grown(direct, 1), 0, epsilon(2, neg_log_of(p, f)));
        growing_keeps_voices(su, words, silent, 1);
        let t = Triple { before: 0, phone: sil, after: firsts[0] };
        assert(is_silence(sil, words, t, w));
        phone_is_voiced(grown(silent, 1), su, words, t, 2, 3, NO_WORD, NO_PRON, f);
    }
}

proof fn draft_is_voiced<F: Fn(FloatOp) -> u64>(su: Setup, words: Seq<Seq<PronView>>, f: F)
    requires
        are_numbered(su, words),
    ensures
        draft_of(su, words, f) matches Some((g, _)) ==> are_voiced(su, words, g),
{
    let n = words.len() as int;
    let live = live_words(words, n);
    live_words_are_live(words, n);
    let none = Seq::<Seq<Arc>>::empty();
    assert(are_voiced(su, words, none));
    growing_keeps_voices(su, words, none, 1);
    growing_keeps_voices(su, words, grown(none, 1), 1);
    phone_is_voiced(
        grown(grown(none, 1), 1),
        su,
        words,
        Triple { before: 0, phone: su.opts.silence_phone, after: 0 },
        0,
        1,
        NO_WORD,
        NO_PRON,
        f,
    );
    if live.len() > 0 {
        let firsts = first_phones_of(words, live, 0);
        first_phones_start(words, live, 0, live[0]);
        start_is_voiced(su, words, firsts, live[0], f);
        match with_start(su, firsts, f) {
            Some((g, hubs)) => {
                words_are_voiced(g, hubs, su, words, live, 0, f);
            },
            None => {},
        }
    }
}

/// Every emitting arc of a graph, self-loops included, has the pdf that the tree gives for a phone
/// between the phones that are spoken before and after it, in that order. Inside of a word these are
/// its neighbours in the pronunciation, and an arc with a label speaks the first phone of what the
/// label says.
pub proof fn graphs_speak_the_words<F: Fn(FloatOp) -> u64>(
    su: Setup,
    words: Seq<Seq<PronView>>,
    f: F,
)
    requires
        are_numbered(su, words),
        graph_of(su, words, f) is Some,
    ensures
        forall|s: int, k: int|
            0 <= s < (graph_of(su, words, f)->0).states.len() && 0 <= k < (graph_of(
                su,
                words,
                f,
            )->0).states[s].len() ==> is_voiced(
                su,
                words,
                #[trigger] (graph_of(su, words, f)->0).states[s][k],
            ),
{
    let m = su.m;
    let g = graph_of(su, words, f)->0;
    let (states, finals) = draft_of(su, words, f)->0;
    draft_is_voiced(su, words, f);
    let d = GraphView { states, finals, finals_lm: Seq::empty(), state_in: Seq::empty() };
    let cut = split(states, m);
    let looped = self_looped(d, m);
    let n = states.len() as int;
    sources_exist(states, m, n);
    assert(arcs_fit(states, m));
    assert forall|s: int, k: int|
        0 <= s < cut.len() && 0 <= k < cut[s].len() implies is_voiced(su, words, #[trigger] cut[s][k])
        && arc_fits_id(m, cut[s][k]) by {
        let from = source(states, m, s);
        assert(cut[s] == redirected_all(states, m, states[from]));
        let a = states[from][k];
        assert(cut[s][k].tid == a.tid && cut[s][k].word == a.word && cut[s][k].pron == a.pron);
    }
    assert forall|s: int, k: int| 0 <= s < g.states.len() && 0 <= k < g.states[s].len() implies is_voiced(
        su,
        words,
        #[trigger] g.states[s][k],
    ) by {
        let a = g.states[s][k];
        assert(looped.states[s] == cut[s] + loop_arc(looped.state_in[s], s, m));
        if k < cut[s].len() {
            assert(is_voiced(su, words, cut[s][k]));
            assert(a.tid == cut[s][k].tid && a.word == cut[s][k].word && a.pron == cut[s][k].pron);
        } else {
            let ts = entered(states, m)[s]->0;
            recorded_class_enters(states, m, s);
            let (i, j) = choose|i: int, j: int|
                0 <= i < cut.len() && 0 <= j < cut[i].len() && (#[trigger] cut[i][j]).next == s
                    && class_of(m, cut[i][j].tid) == entered(states, m)[s];
            let b = cut[i][j];
            assert(is_voiced(su, words, b));
            assert(arc_fits_id(m, b));
            ids_and_pairs_agree(m, b.tid as int);
            self_loops_loop(m, ts as int);
            assert(m.owner(a.tid as int) == m.owner(b.tid as int));
            let t = choose|t: Triple| #[trigger]
                speaks(su, b.tid, t) && is_spoken(su.opts.silence_phone, words, t);
            assert(m.tuple_of(a.tid as int) == m.tuple_of(b.tid as int));
            assert(speaks(su, a.tid, t));
        }
    }
}

/// The id of the arc is one of the model's, if it emits.
spec fn arc_fits_id(m: ModelView, a: Arc) -> bool {
    a.tid != 0 ==> m.has_id(a.tid as int)
}

} // verus!
