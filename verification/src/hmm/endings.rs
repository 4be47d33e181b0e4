//! Where decoding graphs lead: every state to a final one, at finite costs.

use vstd::prelude::*;

use crate::float::{
    at_most, is_finite_bits, less, magnitude, negated, same, value, FloatOp, ONE, ZERO,
};
use crate::hmm::construct::{
    after_costs_of, before_cost, complement, corr_cost_of, draft_of, emittable, epsilon, exits_of,
    finals_of, first_phones_of, graph_of, grown, hmm_arc, hmm_arcs, inner_states, label, leading,
    leading_phones, live_words, neg_log_of, placed, pron_cost_of, roomy, silent_draft, state_tuple,
    transition_ready, usable, window_of, with_arc, with_entries, with_fan, with_fans, with_hmm,
    with_hubs, with_inner_phones, with_phone, with_phone_from_all, with_pron, with_prons,
    with_start, with_words, Branch, Entry, Exit, GraphOptions, Hub, Setup, Spot, PRON_FLOOR,
};
use crate::hmm::graph::{
    arc_cost, arc_fits, arcs_fit, final_cost_of, forward_log_prob, leaving_cost, Arc, GraphView,
    NO_PRON, NO_WORD,
};
use crate::hmm::selfloops::{
    class_of, entered, loop_arc, recorded_class_enters, redirected, redirected_all, self_looped,
    source, sources_exist, split, split_finals, split_finals_facts, split_len,
    splitting_keeps_final_costs, target_is_of_the_class,
};
use crate::hmm::topology::{
    bakis_prototype, covers, silence_prototype, states_of, EntryView, StateView,
};
use crate::hmm::transition::{
    hmm_state_of, id_count, ids_and_pairs_agree, pairs_and_ids_agree, self_loops_loop, state_number,
    ModelView,
};
use crate::order::{increasing, is_ascending, Key};
use crate::types::{PhoneId, PronView, WordId};

verus! {

/// The value is a number of at most 2 to the power of `k`, whatever its sign.
pub open spec fn sized(x: u32, k: int) -> bool {
    magnitude(x) <= (k + 127) * 0x80_0000
}

/// A number above zero.
pub open spec fn is_positive(x: u32) -> bool {
    less(ZERO, x) && is_finite_bits(x)
}

/// Arithmetic keeps to the sizes that IEEE single precision has: a sum or a difference is at most
/// twice as large as its larger part, a product at most as large as the product of the bounds, and a
/// logarithm of a number above zero small. One less a number is a number, and above zero if the
/// number is below one.
pub open spec fn keeps_sizes<F: Fn(FloatOp) -> u64>(f: F) -> bool {
    &&& forall|a: u32, b: u32, k: int|
        #![trigger value(f, FloatOp::Add(a, b)), sized(a, k)]
        0 <= k < 127 && sized(a, k) && sized(b, k) ==> sized(value(f, FloatOp::Add(a, b)), k + 1)
    &&& forall|a: u32, b: u32, k: int|
        #![trigger value(f, FloatOp::Sub(a, b)), sized(a, k)]
        0 <= k < 127 && sized(a, k) && sized(b, k) ==> sized(value(f, FloatOp::Sub(a, b)), k + 1)
    &&& forall|a: u32, b: u32, j: int, k: int|
        #![trigger value(f, FloatOp::Mul(a, b)), sized(a, j), sized(b, k)]
        0 <= j && 0 <= k && j + k <= 127 && sized(a, j) && sized(b, k) ==> sized(
            value(f, FloatOp::Mul(a, b)),
            j + k,
        )
    &&& forall|p: u32| is_positive(p) ==> sized(#[trigger] value(f, FloatOp::Ln(p)), 7)
    &&& forall|p: u32|
        is_finite_bits(p) ==> is_finite_bits(#[trigger] value(f, FloatOp::Sub(ONE, p))) && (less(
            p,
            ONE,
        ) ==> less(ZERO, value(f, FloatOp::Sub(ONE, p))))
}

/// The options are proper: probabilities and scales are numbers, the utterance does not always start
/// with silence, and the correction factors for the end are above zero.
pub open spec fn is_proper(o: GraphOptions) -> bool {
    &&& less(ZERO, o.silence_prob) ==> is_finite_bits(o.silence_prob)
    &&& less(ZERO, o.initial_silence_prob) ==> less(o.initial_silence_prob, ONE)
    &&& is_positive(o.final_silence_correction)
    &&& is_positive(o.final_non_silence_correction)
    &&& sized(o.transition_scale, 20)
    &&& sized(o.self_loop_scale, 20)
}

/// The pronunciation is proper: what it has is a number, and its corrections are not below zero.
pub open spec fn is_proper_pron(p: PronView) -> bool {
    &&& p.prob matches Some(x) ==> is_finite_bits(x)
    &&& p.silence_after_prob matches Some(x) ==> is_finite_bits(x)
    &&& p.silence_before_correction matches Some(x) ==> is_finite_bits(x) && !less(x, ZERO)
    &&& p.non_silence_before_correction matches Some(x) ==> is_finite_bits(x) && !less(x, ZERO)
}

/// At most `n` transitions, none of them a self-loop, lead from HMM state `s` to the last one.
pub open spec fn walks_out(states: Seq<StateView>, s: int, n: nat) -> bool
    decreases n,
{
    s == states.len() - 1 || (n > 0 && exists|k: int|
        0 <= k < states[s].transitions.len() && (#[trigger] states[s].transitions[k]).0 != s
            && states[s].transitions[k].0 < states.len() && walks_out(
            states,
            states[s].transitions[k].0 as int,
            (n - 1) as nat,
        ))
}

/// Some transitions lead from HMM state `s` to the last one.
pub open spec fn gets_out(states: Seq<StateView>, s: int) -> bool {
    exists|n: nat| #[trigger] walks_out(states, s, n)
}

/// Every HMM state leads to the last one, and the transitions have probabilities above zero.
pub open spec fn is_passable(states: Seq<StateView>) -> bool {
    &&& 2 <= states.len() <= usize::MAX
    &&& forall|s: int| 0 <= s < states.len() ==> #[trigger] gets_out(states, s)
    &&& forall|s: int, k: int|
        0 <= s < states.len() && 0 <= k < states[s].transitions.len() ==> is_positive(
            (#[trigger] states[s].transitions[k]).1,
        )
}

/// Every phone of the topology can be passed.
pub open spec fn phones_are_passable(topo: Seq<EntryView>) -> bool {
    forall|p: PhoneId| #[trigger] covers(topo, p) ==> is_passable(states_of(topo, p))
}

/// What the construction goes by is proper.
pub open spec fn is_proper_setup<F: Fn(FloatOp) -> u64>(su: Setup, f: F) -> bool {
    &&& keeps_sizes(f)
    &&& is_proper(su.opts)
    &&& phones_are_passable(su.m.topo)
    &&& id_count(su.m.topo, su.m.tuples) < u32::MAX
    &&& 0 <= su.p < su.n
}

/// At most `n` arcs lead from state `s` to one of the targets.
pub open spec fn reaches_in(g: Seq<Seq<Arc>>, t: Seq<u32>, s: u32, n: nat) -> bool
    decreases n,
{
    t.contains(s) || (n > 0 && exists|k: int|
        0 <= k < g[s as int].len() && reaches_in(
            g,
            t,
            (#[trigger] g[s as int][k]).next,
            (n - 1) as nat,
        ))
}

/// Arcs lead from state `s` to one of the targets.
pub open spec fn reaches(g: Seq<Seq<Arc>>, t: Seq<u32>, s: u32) -> bool {
    exists|n: nat| #[trigger] reaches_in(g, t, s, n)
}

/// The arcs of `g` lead where they did in `h`, which may have more states and arcs.
spec fn extends(g: Seq<Seq<Arc>>, h: Seq<Seq<Arc>>) -> bool {
    &&& g.len() <= h.len()
    &&& forall|s: int|
        0 <= s < g.len() ==> (#[trigger] g[s]).len() <= h[s].len() && forall|k: int|
            0 <= k < g[s].len() ==> (#[trigger] g[s][k]).next == h[s][k].next
}

/// The arcs fit, and their costs are small.
spec fn is_fine(g: Seq<Seq<Arc>>, m: ModelView) -> bool {
    arcs_fit(g, m) && forall|s: int, k: int|
        0 <= s < g.len() && 0 <= k < g[s].len() ==> sized((#[trigger] g[s][k]).lm, 27)
}

/// The targets are all among others.
spec fn within(t: Seq<u32>, u: Seq<u32>) -> bool {
    forall|x: u32| #[trigger] t.contains(x) ==> u.contains(x)
}

/// `h` has the arcs of `g`, is fine, and its new states reach the targets.
spec fn grows_to(g: Seq<Seq<Arc>>, h: Seq<Seq<Arc>>, m: ModelView, t: Seq<u32>) -> bool {
    &&& extends(g, h)
    &&& is_fine(h, m)
    &&& forall|s: int| g.len() <= s < h.len() ==> #[trigger] reaches(h, t, s as u32)
}

proof fn reach_is_kept(
    g: Seq<Seq<Arc>>,
    h: Seq<Seq<Arc>>,
    m: ModelView,
    t: Seq<u32>,
    u: Seq<u32>,
    s: u32,
    n: nat,
)
    requires
        extends(g, h),
        arcs_fit(g, m),
        within(t, u),
        s < g.len(),
        reaches_in(g, t, s, n),
    ensures
        reaches_in(h, u, s, n),
    decreases n,
{
    if !t.contains(s) {
        let k = choose|k: int|
            0 <= k < g[s as int].len() && reaches_in(
                g,
                t,
                (#[trigger] g[s as int][k]).next,
                (n - 1) as nat,
            );
        assert(arc_fits(g[s as int][k], g.len() as int, m));
        reach_is_kept(g, h, m, t, u, g[s as int][k].next, (n - 1) as nat);
        assert(g[s as int][k].next == h[s as int][k].next);
    }
}

proof fn still_reaches(
    g: Seq<Seq<Arc>>,
    h: Seq<Seq<Arc>>,
    m: ModelView,
    t: Seq<u32>,
    u: Seq<u32>,
    s: u32,
)
    requires
        extends(g, h),
        arcs_fit(g, m),
        within(t, u),
        s < g.len(),
        reaches(g, t, s),
    ensures
        reaches(h, u, s),
{
    let n = choose|n: nat| #[trigger] reaches_in(g, t, s, n);
    reach_is_kept(g, h, m, t, u, s, n);
}

proof fn reach_goes_on(g: Seq<Seq<Arc>>, t: Seq<u32>, u: Seq<u32>, s: u32, n: nat)
    requires
        reaches_in(g, t, s, n),
        forall|x: u32| #[trigger] t.contains(x) ==> reaches(g, u, x),
    ensures
        reaches(g, u, s),
    decreases n,
{
    if !t.contains(s) {
        let k = choose|k: int|
            0 <= k < g[s as int].len() && reaches_in(
                g,
                t,
                (#[trigger] g[s as int][k]).next,
                (n - 1) as nat,
            );
        reach_goes_on(g, t, u, g[s as int][k].next, (n - 1) as nat);
        arc_reaches(g, u, s, k);
    }
}

/// A state with an arc to one that reaches the targets reaches them.
proof fn arc_reaches(g: Seq<Seq<Arc>>, t: Seq<u32>, s: u32, k: int)
    requires
        0 <= k < g[s as int].len(),
        reaches(g, t, g[s as int][k].next),
    ensures
        reaches(g, t, s),
{
    let n = choose|n: nat| #[trigger] reaches_in(g, t, g[s as int][k].next, n);
    assert(reaches_in(g, t, g[s as int][k].next, (n + 1 - 1) as nat));
    assert(reaches_in(g, t, s, n + 1));
}

proof fn target_reaches(g: Seq<Seq<Arc>>, t: Seq<u32>, s: u32)
    requires
        t.contains(s),
    ensures
        reaches(g, t, s),
{
    assert(reaches_in(g, t, s, 0));
}

/// What reaches targets that all reach others reaches the others.
proof fn reaches_on(g: Seq<Seq<Arc>>, t: Seq<u32>, u: Seq<u32>, s: u32)
    requires
        reaches(g, t, s),
        forall|x: u32| #[trigger] t.contains(x) ==> reaches(g, u, x),
    ensures
        reaches(g, u, s),
{
    let n = choose|n: nat| #[trigger] reaches_in(g, t, s, n);
    reach_goes_on(g, t, u, s, n);
}

proof fn extending_is_transitive(g: Seq<Seq<Arc>>, h: Seq<Seq<Arc>>, i: Seq<Seq<Arc>>)
    requires
        extends(g, h),
        extends(h, i),
    ensures
        extends(g, i),
{
    assert forall|s: int| 0 <= s < g.len() implies (#[trigger] g[s]).len() <= i[s].len() && forall|
        k: int,
    |
        0 <= k < g[s].len() ==> (#[trigger] g[s][k]).next == i[s][k].next by {
        assert(h[s].len() <= i[s].len());
        assert forall|k: int| 0 <= k < g[s].len() implies (#[trigger] g[s][k]).next == i[s][k].next by {
            assert(h[s][k].next == i[s][k].next);
        }
    }
}

/// Growing to targets, and on to others that the first ones reach, is growing to the others.
proof fn growing_goes_on(
    g: Seq<Seq<Arc>>,
    h: Seq<Seq<Arc>>,
    i: Seq<Seq<Arc>>,
    m: ModelView,
    t: Seq<u32>,
    u: Seq<u32>,
)
    requires
        grows_to(g, h, m, t),
        grows_to(h, i, m, u),
        forall|x: u32| #[trigger] t.contains(x) ==> reaches(i, u, x),
    ensures
        grows_to(g, i, m, u),
{
    extending_is_transitive(g, h, i);
    assert forall|s: int| g.len() <= s < i.len() implies #[trigger] reaches(i, u, s as u32) by {
        if s < h.len() {
            assert(reaches(h, t, s as u32));
            still_reaches(h, i, m, t, t, s as u32);
            reaches_on(i, t, u, s as u32);
        }
    }
}

proof fn growing_by_nothing(g: Seq<Seq<Arc>>, m: ModelView, t: Seq<u32>)
    requires
        is_fine(g, m),
    ensures
        grows_to(g, g, m, t),
{
}

/// New states without arcs are fine.
proof fn growing_keeps_fine(g: Seq<Seq<Arc>>, n: nat, m: ModelView)
    requires
        is_fine(g, m),
    ensures
        is_fine(grown(g, n), m),
        extends(g, grown(g, n)),
        grown(g, n).len() == g.len() + n,
{
    let h = grown(g, n);
    assert forall|s: int, k: int| 0 <= s < h.len() && 0 <= k < h[s].len() implies arc_fits(
        #[trigger] h[s][k],
        h.len() as int,
        m,
    ) && sized(h[s][k].lm, 27) by {
        assert(s < g.len());
        assert(h[s][k] == g[s][k]);
        assert(arc_fits(g[s][k], g.len() as int, m));
    }
}

proof fn adding_keeps_fine(g: Seq<Seq<Arc>>, at: int, added: Seq<Arc>, m: ModelView)
    requires
        is_fine(g, m),
        0 <= at < g.len(),
        forall|j: int|
            0 <= j < added.len() ==> arc_fits(#[trigger] added[j], g.len() as int, m) && sized(
                added[j].lm,
                27,
            ),
    ensures
        is_fine(g.update(at, g[at] + added), m),
        extends(g, g.update(at, g[at] + added)),
{
    let h = g.update(at, g[at] + added);
    assert forall|s: int, k: int| 0 <= s < h.len() && 0 <= k < h[s].len() implies arc_fits(
        #[trigger] h[s][k],
        h.len() as int,
        m,
    ) && sized(h[s][k].lm, 27) by {
        if s == at && k >= g[at].len() {
            assert(h[s][k] == added[k - g[at].len()]);
        } else {
            assert(h[s][k] == g[s][k]);
            assert(arc_fits(g[s][k], g.len() as int, m));
        }
    }
}

/// An arc leads from one state to another.
spec fn has_arc(g: Seq<Seq<Arc>>, from: int, to: u32) -> bool {
    exists|j: int| 0 <= j < g[from].len() && (#[trigger] g[from][j]).next == to
}

proof fn arc_is_kept(g: Seq<Seq<Arc>>, h: Seq<Seq<Arc>>, from: int, to: u32)
    requires
        extends(g, h),
        0 <= from < g.len(),
        has_arc(g, from, to),
    ensures
        has_arc(h, from, to),
{
    let j = choose|j: int| 0 <= j < g[from].len() && (#[trigger] g[from][j]).next == to;
    assert(g[from][j].next == h[from][j].next);
    assert(g[from].len() <= h[from].len());
}

/// The arc of a transition that is no self-loop fits and costs little.
proof fn hmm_arc_is_fine<F: Fn(FloatOp) -> u64>(su: Setup, spot: Spot, s: int, k: int, len: int, f: F)
    requires
        is_proper_setup(su, f),
        emittable(su, spot.window),
        0 <= s < states_of(su.m.topo, spot.window[su.p]).len(),
        0 <= k < states_of(su.m.topo, spot.window[su.p])[s].transitions.len(),
        states_of(su.m.topo, spot.window[su.p])[s].transitions[k].0 != s,
        0 <= spot.base,
        spot.from < len,
        spot.to < len,
        len <= u32::MAX,
        spot.base + inner_states(su, spot.window) <= len,
    ensures
        arc_fits(hmm_arc(su, spot, s, k, f), len, su.m),
        sized(hmm_arc(su, spot, s, k, f).lm, 27),
{
    let m = su.m;
    let states = states_of(m.topo, spot.window[su.p]);
    let a = hmm_arc(su, spot, s, k, f);
    assert(covers(m.topo, spot.window[su.p]));
    assert(is_passable(states));
    assert(transition_ready(su, spot.window, s, k));
    let (dest, prob) = states[s].transitions[k];
    if states[s].emits() {
        let t = state_tuple(su, spot.window, s);
        assert(m.tuples.contains(t));
        let n = state_number(m, t);
        assert(m.tuples[n - 1] == t);
        assert(t.hmm_state == s);
        assert(hmm_state_of(m.topo, t) == states[s]);
        pairs_and_ids_agree(m, n, k);
    } else {
        assert(is_positive(prob));
        let l = value(f, FloatOp::Ln(prob));
        let scale = negated(su.opts.transition_scale);
        assert(sized(l, 7));
        assert(sized(scale, 20));
    }
}

proof fn hmm_arcs_are_fine<F: Fn(FloatOp) -> u64>(su: Setup, spot: Spot, s: int, n: int, len: int, f: F)
    requires
        is_proper_setup(su, f),
        emittable(su, spot.window),
        0 <= s < states_of(su.m.topo, spot.window[su.p]).len(),
        0 <= n <= states_of(su.m.topo, spot.window[su.p])[s].transitions.len(),
        0 <= spot.base,
        spot.from < len,
        spot.to < len,
        len <= u32::MAX,
        spot.base + inner_states(su, spot.window) <= len,
    ensures
        forall|j: int|
            0 <= j < hmm_arcs(su, spot, s, n, f).len() ==> arc_fits(
                #[trigger] hmm_arcs(su, spot, s, n, f)[j],
                len,
                su.m,
            ) && sized(hmm_arcs(su, spot, s, n, f)[j].lm, 27),
        forall|k: int|
            0 <= k < n && (#[trigger] states_of(su.m.topo, spot.window[su.p])[s].transitions[k]).0
                != s ==> hmm_arcs(su, spot, s, n, f).contains(hmm_arc(su, spot, s, k, f)),
    decreases n,
{
    if n > 0 {
        hmm_arcs_are_fine(su, spot, s, n - 1, len, f);
        let states = states_of(su.m.topo, spot.window[su.p]);
        let rest = hmm_arcs(su, spot, s, n - 1, f);
        let all = hmm_arcs(su, spot, s, n, f);
        if states[s].transitions[n - 1].0 != s {
            hmm_arc_is_fine(su, spot, s, n - 1, len, f);
            let a = hmm_arc(su, spot, s, n - 1, f);
            assert(all[rest.len() as int] == a);
            assert forall|k: int|
                0 <= k < n && (#[trigger] states[s].transitions[k]).0 != s implies all.contains(
                hmm_arc(su, spot, s, k, f),
            ) by {
                if k < n - 1 {
                    let i = choose|i: int| 0 <= i < rest.len() && rest[i] == hmm_arc(su, spot, s, k, f);
                    assert(all[i] == rest[i]);
                }
            }
        }
    }
}

/// The HMM of a phone: what is there stays, everything fits, and every transition that is no
/// self-loop has its arc.
proof fn hmm_is_fine<F: Fn(FloatOp) -> u64>(g: Seq<Seq<Arc>>, su: Setup, spot: Spot, s: int, f: F)
    requires
        is_proper_setup(su, f),
        emittable(su, spot.window),
        is_fine(g, su.m),
        0 <= s <= states_of(su.m.topo, spot.window[su.p]).len(),
        0 <= spot.base,
        spot.from < spot.base,
        spot.to < spot.base,
        g.len() <= u32::MAX,
        spot.base + inner_states(su, spot.window) <= g.len(),
    ensures
        ({
            let r = with_hmm(g, su, spot, s, f);
            let states = states_of(su.m.topo, spot.window[su.p]);
            let n = states.len() as int;
            &&& r.len() == g.len()
            &&& extends(g, r)
            &&& is_fine(r, su.m)
            &&& forall|i: int, k: int|
                0 <= i < s && 0 <= k < states[i].transitions.len() && (
                #[trigger] states[i].transitions[k]).0 != i ==> has_arc(
                    r,
                    placed(spot.base, n, spot.from, spot.to, i) as int,
                    placed(
                        spot.base,
                        n,
                        spot.from,
                        spot.to,
                        states[i].transitions[k].0 as int,
                    ),
                )
        }),
    decreases s,
{
    if s > 0 {
        hmm_is_fine(g, su, spot, s - 1, f);
        let states = states_of(su.m.topo, spot.window[su.p]);
        let n = states.len() as int;
        let rest = with_hmm(g, su, spot, s - 1, f);
        let r = with_hmm(g, su, spot, s, f);
        let at = placed(spot.base, n, spot.from, spot.to, s - 1) as int;
        let count = states[s - 1].transitions.len() as int;
        let added = hmm_arcs(su, spot, s - 1, count, f);
        hmm_arcs_are_fine(su, spot, s - 1, count, rest.len() as int, f);
        adding_keeps_fine(rest, at, added, su.m);
        extending_is_transitive(g, rest, r);
        assert forall|i: int, k: int|
            0 <= i < s && 0 <= k < states[i].transitions.len() && (
            #[trigger] states[i].transitions[k]).0 != i implies has_arc(
            r,
            placed(spot.base, n, spot.from, spot.to, i) as int,
            placed(spot.base, n, spot.from, spot.to, states[i].transitions[k].0 as int),
        ) by {
            let from = placed(spot.base, n, spot.from, spot.to, i) as int;
            let to = placed(spot.base, n, spot.from, spot.to, states[i].transitions[k].0 as int);
            if i < s - 1 {
                arc_is_kept(rest, r, from, to);
            } else {
                let a = hmm_arc(su, spot, i, k, f);
                let j = choose|j: int| 0 <= j < added.len() && added[j] == a;
                assert(r[from][rest[from].len() + j] == a);
                assert(a.next == to);
            }
        }
    }
}

/// The graph state of an HMM state that leads to the last one leads to where the phone ends.
proof fn walk_is_kept(
    g: Seq<Seq<Arc>>,
    states: Seq<StateView>,
    spot: Spot,
    s: int,
    n: nat,
)
    requires
        0 <= s < states.len(),
        walks_out(states, s, n),
        forall|i: int, k: int|
            0 <= i < states.len() && 0 <= k < states[i].transitions.len() && (
            #[trigger] states[i].transitions[k]).0 != i ==> has_arc(
                g,
                placed(spot.base, states.len() as int, spot.from, spot.to, i) as int,
                placed(
                    spot.base,
                    states.len() as int,
                    spot.from,
                    spot.to,
                    states[i].transitions[k].0 as int,
                ),
            ),
    ensures
        reaches(
            g,
            seq![spot.to],
            placed(spot.base, states.len() as int, spot.from, spot.to, s),
        ),
    decreases n,
{
    let len = states.len() as int;
    let here = placed(spot.base, len, spot.from, spot.to, s);
    let t = seq![spot.to];
    if s == len - 1 {
        assert(t[0] == here);
        target_reaches(g, t, here);
    } else {
        let k = choose|k: int|
            0 <= k < states[s].transitions.len() && (#[trigger] states[s].transitions[k]).0 != s
                && states[s].transitions[k].0 < states.len() && walks_out(
                states,
                states[s].transitions[k].0 as int,
                (n - 1) as nat,
            );
        let dest = states[s].transitions[k].0 as int;
        walk_is_kept(g, states, spot, dest, (n - 1) as nat);
        let there = placed(spot.base, len, spot.from, spot.to, dest);
        assert(has_arc(g, here as int, there));
        let j = choose|j: int|
            0 <= j < g[here as int].len() && (#[trigger] g[here as int][j]).next == there;
        arc_reaches(g, t, here, j);
    }
}

/// A phone leads from where it starts to where it ends, and so do its inner states.
proof fn phone_leads_on<F: Fn(FloatOp) -> u64>(
    g: Seq<Seq<Arc>>,
    su: Setup,
    window: Seq<PhoneId>,
    from: u32,
    to: u32,
    word: WordId,
    pron: u32,
    f: F,
)
    requires
        is_proper_setup(su, f),
        is_fine(g, su.m),
        from < g.len(),
        to < g.len(),
        with_phone(g, su, window, from, to, word, pron, f) is Some,
    ensures
        ({
            let h = with_phone(g, su, window, from, to, word, pron, f)->0;
            grows_to(g, h, su.m, seq![to]) && reaches(h, seq![to], from) && h.len() <= u32::MAX
        }),
{
    let states = states_of(su.m.topo, window[su.p]);
    let n = states.len() as int;
    let inner = inner_states(su, window);
    let h0 = grown(g, inner);
    let spot = Spot { window, base: g.len() as int, from, to, word, pron };
    let h = with_hmm(h0, su, spot, n, f);
    assert(covers(su.m.topo, window[su.p]));
    growing_keeps_fine(g, inner, su.m);
    hmm_is_fine(h0, su, spot, n, f);
    extending_is_transitive(g, h0, h);
    assert(gets_out(states, 0));
    let steps = choose|k: nat| #[trigger] walks_out(states, 0, k);
    walk_is_kept(h, states, spot, 0, steps);
    assert forall|x: int| g.len() <= x < h.len() implies #[trigger] reaches(h, seq![to], x as u32) by {
        let s = x - g.len() + 1;
        assert(gets_out(states, s));
        let more = choose|k: nat| #[trigger] walks_out(states, s, k);
        walk_is_kept(h, states, spot, s, more);
        assert(placed(spot.base, n, from, to, s) == x as u32);
    }
}

/// The states that phones can start from.
spec fn places(cur: Seq<Entry>) -> Seq<u32> {
    Seq::new(cur.len(), |i: int| cur[i].state)
}

/// The states of hubs.
spec fn hub_places(hubs: Seq<Hub>) -> Seq<u32> {
    Seq::new(hubs.len(), |i: int| hubs[i].state)
}

/// The targets lie in the graph.
spec fn lie_in(t: Seq<u32>, g: Seq<Seq<Arc>>) -> bool {
    forall|i: int| 0 <= i < t.len() ==> #[trigger] t[i] < g.len()
}

/// Every target of one list reaches one of another.
spec fn all_reach(g: Seq<Seq<Arc>>, t: Seq<u32>, u: Seq<u32>) -> bool {
    forall|x: u32| #[trigger] t.contains(x) ==> reaches(g, u, x)
}

proof fn all_still_reach(
    g: Seq<Seq<Arc>>,
    h: Seq<Seq<Arc>>,
    m: ModelView,
    t: Seq<u32>,
    u: Seq<u32>,
    v: Seq<u32>,
)
    requires
        extends(g, h),
        arcs_fit(g, m),
        lie_in(t, g),
        within(u, v),
        all_reach(g, t, u),
    ensures
        all_reach(h, t, v),
{
    assert forall|x: u32| #[trigger] t.contains(x) implies reaches(h, v, x) by {
        let i = choose|i: int| 0 <= i < t.len() && t[i] == x;
        assert(t[i] < g.len());
        still_reaches(g, h, m, u, v, x);
    }
}

proof fn all_reach_on(g: Seq<Seq<Arc>>, t: Seq<u32>, u: Seq<u32>, v: Seq<u32>)
    requires
        all_reach(g, t, u),
        all_reach(g, u, v),
    ensures
        all_reach(g, t, v),
{
    assert forall|x: u32| #[trigger] t.contains(x) implies reaches(g, v, x) by {
        reaches_on(g, u, v, x);
    }
}

/// Growing to some targets is growing to more.
proof fn growing_to_more(g: Seq<Seq<Arc>>, h: Seq<Seq<Arc>>, m: ModelView, t: Seq<u32>, u: Seq<u32>)
    requires
        grows_to(g, h, m, t),
        within(t, u),
    ensures
        grows_to(g, h, m, u),
{
    assert forall|s: int| g.len() <= s < h.len() implies #[trigger] reaches(h, u, s as u32) by {
        assert(reaches(h, t, s as u32));
        still_reaches(h, h, m, t, u, s as u32);
    }
}

/// A phone from all places to one exit.
proof fn places_lead_on<F: Fn(FloatOp) -> u64>(
    g: Seq<Seq<Arc>>,
    su: Setup,
    cur: Seq<Entry>,
    i: int,
    phone: PhoneId,
    right: PhoneId,
    exit: u32,
    word: WordId,
    pron: u32,
    f: F,
)
    requires
        is_proper_setup(su, f),
        is_fine(g, su.m),
        0 <= i <= cur.len(),
        lie_in(places(cur), g),
        exit < g.len(),
        with_phone_from_all(g, su, cur, i, phone, right, exit, word, pron, f) is Some,
    ensures
        ({
            let h = with_phone_from_all(g, su, cur, i, phone, right, exit, word, pron, f)->0;
            &&& grows_to(g, h, su.m, seq![exit])
            &&& all_reach(h, places(cur.skip(i)), seq![exit])
        }),
    decreases cur.len() - i,
{
    let t = seq![exit];
    let h = with_phone_from_all(g, su, cur, i, phone, right, exit, word, pron, f)->0;
    if i < cur.len() {
        let window = window_of(su.n, su.p, cur[i].left, phone, right);
        let g1 = with_phone(g, su, window, cur[i].state, exit, word, pron, f)->0;
        assert(places(cur)[i] < g.len());
        phone_leads_on(g, su, window, cur[i].state, exit, word, pron, f);
        assert(lie_in(places(cur), g1)) by {
            assert forall|k: int| 0 <= k < cur.len() implies #[trigger] places(cur)[k] < g1.len() by {
                assert(places(cur)[k] < g.len());
            }
        }
        places_lead_on(g1, su, cur, i + 1, phone, right, exit, word, pron, f);
        target_reaches(h, t, t[0]);
        growing_goes_on(g, g1, h, su.m, t, t);
        still_reaches(g1, h, su.m, t, t, cur[i].state);
        assert forall|x: u32| #[trigger] places(cur.skip(i)).contains(x) implies reaches(h, t, x) by {
            let k = choose|k: int| 0 <= k < cur.skip(i).len() && places(cur.skip(i))[k] == x;
            if k > 0 {
                assert(places(cur.skip(i + 1))[k - 1] == x);
                assert(places(cur.skip(i + 1)).contains(x));
            }
        }
    } else {
        growing_by_nothing(g, su.m, t);
    }
}

/// The phones of a pronunciation but for its last one.
proof fn inner_phones_lead_on<F: Fn(FloatOp) -> u64>(
    g: Seq<Seq<Arc>>,
    su: Setup,
    cur: Seq<Entry>,
    phones: Seq<PhoneId>,
    k: int,
    word: WordId,
    pron: u32,
    f: F,
)
    requires
        is_proper_setup(su, f),
        is_fine(g, su.m),
        0 <= k,
        lie_in(places(cur), g),
        with_inner_phones(g, su, cur, phones, k, word, pron, f) is Some,
    ensures
        ({
            let (h, ends) = with_inner_phones(g, su, cur, phones, k, word, pron, f)->0;
            &&& grows_to(g, h, su.m, places(ends))
            &&& all_reach(h, places(cur), places(ends))
            &&& lie_in(places(ends), h)
            &&& cur.len() > 0 ==> ends.len() > 0
        }),
    decreases phones.len() - k,
{
    let (h, ends) = with_inner_phones(g, su, cur, phones, k, word, pron, f)->0;
    if k + 1 >= phones.len() {
        growing_by_nothing(g, su.m, places(cur));
        assert forall|x: u32| #[trigger] places(cur).contains(x) implies reaches(h, places(cur), x) by {
            target_reaches(h, places(cur), x);
        }
    } else {
        let exit = g.len() as u32;
        let t = seq![exit];
        let g0 = grown(g, 1);
        growing_keeps_fine(g, 1, su.m);
        let (w, p) = (
            label(k, word),
            label(k, pron),
        );
        let g1 = with_phone_from_all(g0, su, cur, 0, phones[k], phones[k + 1], exit, w, p, f)->0;
        assert(lie_in(places(cur), g0)) by {
            assert forall|i: int| 0 <= i < cur.len() implies #[trigger] places(cur)[i] < g0.len() by {
                assert(places(cur)[i] < g.len());
            }
        }
        places_lead_on(g0, su, cur, 0, phones[k], phones[k + 1], exit, w, p, f);
        assert(cur.skip(0) =~= cur);
        assert(t[0] == exit);
        assert(grows_to(g, g1, su.m, t)) by {
            extending_is_transitive(g, g0, g1);
            target_reaches(g1, t, exit);
        }
        let next = seq![Entry { state: exit, left: phones[k] }];
        assert(places(next) =~= t);
        inner_phones_lead_on(g1, su, next, phones, k + 1, word, pron, f);
        growing_goes_on(g, g1, h, su.m, t, places(ends));
        assert(lie_in(places(cur), g1)) by {
            assert forall|i: int| 0 <= i < cur.len() implies #[trigger] places(cur)[i] < g1.len() by {
                assert(places(cur)[i] < g.len());
            }
        }
        all_still_reach(g1, h, su.m, places(cur), t, t);
        all_reach_on(h, places(cur), t, places(ends));
    }
}

/// The states behind exits.
spec fn exit_places(base: int, n: nat) -> Seq<u32> {
    Seq::new(n, |i: int| (base + i) as u32)
}

/// The last phone of a pronunciation from one place towards every exit.
proof fn fan_leads_on<F: Fn(FloatOp) -> u64>(
    g: Seq<Seq<Arc>>,
    su: Setup,
    from: Entry,
    exits: Seq<Exit>,
    i: int,
    base: int,
    phone: PhoneId,
    word: WordId,
    pron: u32,
    f: F,
)
    requires
        is_proper_setup(su, f),
        is_fine(g, su.m),
        0 <= i <= exits.len(),
        from.state < g.len(),
        0 <= base,
        lie_in(exit_places(base, exits.len()), g),
        with_fan(g, su, from, exits, i, base, phone, word, pron, f) is Some,
    ensures
        ({
            let h = with_fan(g, su, from, exits, i, base, phone, word, pron, f)->0;
            let t = exit_places(base, exits.len());
            &&& grows_to(g, h, su.m, t)
            &&& i < exits.len() ==> reaches(h, t, from.state)
        }),
    decreases exits.len() - i,
{
    let t = exit_places(base, exits.len());
    let h = with_fan(g, su, from, exits, i, base, phone, word, pron, f)->0;
    if i < exits.len() {
        let to = (base + i) as u32;
        let window = window_of(su.n, su.p, from.left, phone, exits[i].right);
        let g1 = with_phone(g, su, window, from.state, to, word, pron, f)->0;
        assert(t[i] == to);
        assert(t[i] < g.len());
        phone_leads_on(g, su, window, from.state, to, word, pron, f);
        assert(within(seq![to], t));
        growing_to_more(g, g1, su.m, seq![to], t);
        still_reaches(g1, g1, su.m, seq![to], t, from.state);
        assert(lie_in(t, g1)) by {
            assert forall|k: int| 0 <= k < t.len() implies #[trigger] t[k] < g1.len() by {
                assert(t[k] < g.len());
            }
        }
        fan_leads_on(g1, su, from, exits, i + 1, base, phone, word, pron, f);
        assert forall|x: u32| #[trigger] t.contains(x) implies reaches(h, t, x) by {
            target_reaches(h, t, x);
        }
        growing_goes_on(g, g1, h, su.m, t, t);
        still_reaches(g1, h, su.m, t, t, from.state);
    } else {
        growing_by_nothing(g, su.m, t);
    }
}

/// The last phone of a pronunciation from all places towards every exit.
proof fn fans_lead_on<F: Fn(FloatOp) -> u64>(
    g: Seq<Seq<Arc>>,
    su: Setup,
    cur: Seq<Entry>,
    i: int,
    exits: Seq<Exit>,
    base: int,
    phone: PhoneId,
    word: WordId,
    pron: u32,
    f: F,
)
    requires
        is_proper_setup(su, f),
        is_fine(g, su.m),
        0 <= i <= cur.len(),
        lie_in(places(cur), g),
        0 <= base,
        exits.len() > 0,
        lie_in(exit_places(base, exits.len()), g),
        with_fans(g, su, cur, i, exits, base, phone, word, pron, f) is Some,
    ensures
        ({
            let h = with_fans(g, su, cur, i, exits, base, phone, word, pron, f)->0;
            let t = exit_places(base, exits.len());
            &&& grows_to(g, h, su.m, t)
            &&& all_reach(h, places(cur.skip(i)), t)
        }),
    decreases cur.len() - i,
{
    let t = exit_places(base, exits.len());
    let h = with_fans(g, su, cur, i, exits, base, phone, word, pron, f)->0;
    if i < cur.len() {
        let g1 = with_fan(g, su, cur[i], exits, 0, base, phone, word, pron, f)->0;
        assert(places(cur)[i] < g.len());
        fan_leads_on(g, su, cur[i], exits, 0, base, phone, word, pron, f);
        assert(lie_in(places(cur), g1)) by {
            assert forall|k: int| 0 <= k < cur.len() implies #[trigger] places(cur)[k] < g1.len() by {
                assert(places(cur)[k] < g.len());
            }
        }
        assert(lie_in(t, g1)) by {
            assert forall|k: int| 0 <= k < t.len() implies #[trigger] t[k] < g1.len() by {
                assert(t[k] < g.len());
            }
        }
        fans_lead_on(g1, su, cur, i + 1, exits, base, phone, word, pron, f);
        assert forall|x: u32| #[trigger] t.contains(x) implies reaches(h, t, x) by {
            target_reaches(h, t, x);
        }
        growing_goes_on(g, g1, h, su.m, t, t);
        still_reaches(g1, h, su.m, t, t, cur[i].state);
        assert forall|x: u32| #[trigger] places(cur.skip(i)).contains(x) implies reaches(h, t, x) by {
            let k = choose|k: int| 0 <= k < cur.skip(i).len() && places(cur.skip(i))[k] == x;
            if k > 0 {
                assert(places(cur.skip(i + 1))[k - 1] == x);
                assert(places(cur.skip(i + 1)).contains(x));
            }
        }
    } else {
        growing_by_nothing(g, su.m, t);
    }
}

/// An epsilon arc to a new state.
proof fn epsilon_leads_on(g: Seq<Seq<Arc>>, from: u32, cost: u32, m: ModelView, t: Seq<u32>)
    requires
        is_fine(g, m),
        from < g.len(),
        roomy(g, 1),
        sized(cost, 27),
        t.contains(g.len() as u32),
    ensures
        ({
            let h = with_arc(grown(g, 1), from, epsilon(g.len() as u32, cost));
            &&& grows_to(g, h, m, t)
            &&& reaches(h, t, from)
            &&& h.len() == g.len() + 1
        }),
{
    let to = g.len() as u32;
    let g0 = grown(g, 1);
    let a = epsilon(to, cost);
    growing_keeps_fine(g, 1, m);
    adding_keeps_fine(g0, from as int, seq![a], m);
    let h = with_arc(g0, from, a);
    assert(g0[from as int] + seq![a] =~= g0[from as int].push(a));
    extending_is_transitive(g, g0, h);
    target_reaches(h, t, to);
    let k = g0[from as int].len() as int;
    assert(h[from as int][k] == a);
    arc_reaches(h, t, from, k);
    assert forall|s: int| g.len() <= s < h.len() implies #[trigger] reaches(h, t, s as u32) by {
        assert(s == g.len());
    }
}

/// What follows the exits: a hub behind each.
proof fn exits_lead_on<F: Fn(FloatOp) -> u64>(
    g: Seq<Seq<Arc>>,
    hubs: Seq<Hub>,
    su: Setup,
    exits: Seq<Exit>,
    i: int,
    base: int,
    phone: PhoneId,
    costs: (u32, u32),
    after_silence: PhoneId,
    f: F,
)
    requires
        is_proper_setup(su, f),
        is_fine(g, su.m),
        0 <= i <= exits.len(),
        0 <= base,
        lie_in(exit_places(base, exits.len()), g),
        lie_in(hub_places(hubs), g),
        forall|k: int|
            0 <= k < exits.len() ==> match (#[trigger] exits[k]).branch {
                Branch::Silence => sized(costs.0, 27),
                Branch::Direct => sized(costs.1, 27),
            },
        with_hubs(g, hubs, su, exits, i, base, phone, costs, after_silence, f) is Some,
    ensures
        ({
            let (h, more) = with_hubs(
                g,
                hubs,
                su,
                exits,
                i,
                base,
                phone,
                costs,
                after_silence,
                f,
            )->0;
            let t = hub_places(more);
            &&& grows_to(g, h, su.m, t)
            &&& within(hub_places(hubs), t)
            &&& lie_in(t, h)
            &&& more.len() == hubs.len() + exits.len() - i
            &&& forall|k: int|
                i <= k < exits.len() ==> reaches(h, t, #[trigger] exit_places(base, exits.len())[k])
        }),
    decreases exits.len() - i,
{
    let (h, more) = with_hubs(g, hubs, su, exits, i, base, phone, costs, after_silence, f)->0;
    let t = hub_places(more);
    let all = exit_places(base, exits.len());
    let m = su.m;
    if i < exits.len() {
        let from = (base + i) as u32;
        assert(all[i] == from && all[i] < g.len());
        let s = g.len() as u32;
        let cost = match exits[i].branch {
            Branch::Silence => costs.0,
            Branch::Direct => costs.1,
        };
        let g1 = with_arc(grown(g, 1), from, epsilon(s, cost));
        let (g2, last) = match exits[i].branch {
            Branch::Direct => (g1, Hub { branch: Branch::Direct, state: s, left: phone }),
            Branch::Silence => (
                with_phone(
                    grown(g1, 1),
                    su,
                    window_of(su.n, su.p, phone, su.opts.silence_phone, after_silence),
                    s,
                    (s + 1) as u32,
                    NO_WORD,
                    NO_PRON,
                    f,
                )->0,
                Hub {
                    branch: Branch::Silence,
                    state: (s + 1) as u32,
                    left: su.opts.silence_phone,
                },
            ),
        };
        let mid = seq![last.state];
        assert(mid[0] == last.state);
        assert(seq![s][0] == s);
        epsilon_leads_on(g, from, cost, m, seq![s]);
        assert(grows_to(g, g2, m, mid) && reaches(g2, mid, from) && last.state < g2.len()) by {
            if exits[i].branch == Branch::Silence {
                let end = (s + 1) as u32;
                let g0 = grown(g1, 1);
                growing_keeps_fine(g1, 1, m);
                phone_leads_on(
                    g0,
                    su,
                    window_of(su.n, su.p, phone, su.opts.silence_phone, after_silence),
                    s,
                    end,
                    NO_WORD,
                    NO_PRON,
                    f,
                );
                assert(grows_to(g1, g2, m, mid)) by {
                    extending_is_transitive(g1, g0, g2);
                    target_reaches(g2, mid, end);
                }
                growing_goes_on(g, g1, g2, m, seq![s], mid);
                still_reaches(g1, g2, m, seq![s], seq![s], from);
                reaches_on(g2, seq![s], mid, from);
            }
        }
        let next = hubs.push(last);
        assert(lie_in(hub_places(next), g2)) by {
            assert forall|k: int| 0 <= k < next.len() implies #[trigger] hub_places(next)[k] < g2.len() by {
                if k < hubs.len() {
                    assert(hub_places(hubs)[k] < g.len());
                    assert(next[k] == hubs[k]);
                }
            }
        }
        assert(lie_in(all, g2)) by {
            assert forall|k: int| 0 <= k < all.len() implies #[trigger] all[k] < g2.len() by {
                assert(all[k] < g.len());
            }
        }
        exits_lead_on(g2, next, su, exits, i + 1, base, phone, costs, after_silence, f);
        assert(hub_places(next)[hubs.len() as int] == last.state);
        assert(hub_places(next).contains(last.state));
        assert(within(mid, t)) by {
            assert(t.contains(last.state));
        }
        assert(within(hub_places(hubs), t)) by {
            assert forall|x: u32| #[trigger] hub_places(hubs).contains(x) implies t.contains(x) by {
                let k = choose|k: int| 0 <= k < hubs.len() && hub_places(hubs)[k] == x;
                assert(hub_places(next)[k] == x);
                assert(hub_places(next).contains(x));
            }
        }
        growing_to_more(g, g2, m, mid, t);
        assert forall|x: u32| #[trigger] t.contains(x) implies reaches(h, t, x) by {
            target_reaches(h, t, x);
        }
        growing_goes_on(g, g2, h, m, t, t);
        still_reaches(g2, h, m, mid, t, from);
    } else {
        growing_by_nothing(g, m, t);
    }
}

proof fn sized_is_finite(x: u32, k: int)
    requires
        sized(x, k),
        k <= 27,
    ensures
        is_finite_bits(x),
        sized(x, 27),
{
}

/// The logarithm of a number above zero is a small cost.
proof fn log_is_small<F: Fn(FloatOp) -> u64>(p: u32, f: F)
    requires
        keeps_sizes(f),
        is_positive(p),
    ensures
        sized(neg_log_of(p, f), 7),
        sized(neg_log_of(p, f), 27),
        is_finite_bits(neg_log_of(p, f)),
{
    let l = value(f, FloatOp::Ln(p));
    assert(sized(l, 7));
    assert(magnitude(negated(l)) == magnitude(l));
}

/// A negative logarithm of a number is infinite or small.
proof fn log_is_small_if_any<F: Fn(FloatOp) -> u64>(p: u32, f: F)
    requires
        keeps_sizes(f),
        is_finite_bits(p),
    ensures
        is_finite_bits(neg_log_of(p, f)) ==> sized(neg_log_of(p, f), 27),
{
    if !at_most(p, ZERO) {
        log_is_small(p, f);
    }
}

/// Entering a proper pronunciation costs little.
proof fn entering_is_cheap<F: Fn(FloatOp) -> u64>(pron: PronView, branch: Branch, f: F)
    requires
        keeps_sizes(f),
        is_proper_pron(pron),
    ensures
        ({
            let cost = value(
                f,
                FloatOp::Add(
                    pron_cost_of(pron.prob, f),
                    before_cost(
                        branch,
                        corr_cost_of(pron.silence_before_correction, f),
                        corr_cost_of(pron.non_silence_before_correction, f),
                    ),
                ),
            );
            is_finite_bits(cost) && sized(cost, 27)
        }),
{
    let own = pron_cost_of(pron.prob, f);
    assert(sized(own, 7)) by {
        if pron.prob is Some {
            let p = pron.prob->0;
            let floored = if less(p, PRON_FLOOR) {
                PRON_FLOOR
            } else {
                p
            };
            assert(is_positive(floored));
            let l = value(f, FloatOp::Ln(floored));
            assert(sized(l, 7));
            assert(magnitude(magnitude(l)) == magnitude(l));
        }
    }
    correction_is_cheap(pron.silence_before_correction, f);
    correction_is_cheap(pron.non_silence_before_correction, f);
    let before = before_cost(
        branch,
        corr_cost_of(pron.silence_before_correction, f),
        corr_cost_of(pron.non_silence_before_correction, f),
    );
    assert(sized(before, 7));
    sized_is_finite(value(f, FloatOp::Add(own, before)), 8);
}

proof fn correction_is_cheap<F: Fn(FloatOp) -> u64>(c: Option<u32>, f: F)
    requires
        keeps_sizes(f),
        c matches Some(x) ==> is_finite_bits(x) && !less(x, ZERO),
    ensures
        sized(corr_cost_of(c, f), 7),
{
    if c is Some && !same(c->0, ZERO) {
        log_is_small(c->0, f);
    }
}

/// Leaving a proper pronunciation costs little, through silence or past it, and one of the two is
/// possible.
proof fn leaving_is_cheap<F: Fn(FloatOp) -> u64>(pron: PronView, silence_prob: u32, f: F)
    requires
        keeps_sizes(f),
        is_proper_pron(pron),
        less(ZERO, silence_prob) ==> is_finite_bits(silence_prob),
    ensures
        ({
            let c = after_costs_of(pron.silence_after_prob, silence_prob, f);
            &&& is_finite_bits(c.0) ==> sized(c.0, 27)
            &&& is_finite_bits(c.1) ==> sized(c.1, 27)
            &&& is_finite_bits(c.0) || is_finite_bits(c.1)
        }),
{
    let after = pron.silence_after_prob;
    if after is Some && !same(after->0, ZERO) {
        let x = after->0;
        log_is_small_if_any(x, f);
        log_is_small_if_any(complement(x, f), f);
        if less(ZERO, x) {
            log_is_small(x, f);
        } else {
            assert(less(x, ONE));
            log_is_small(complement(x, f), f);
        }
    } else if less(ZERO, silence_prob) {
        log_is_small(silence_prob, f);
        log_is_small_if_any(complement(silence_prob, f), f);
    }
}

/// A new state behind each hub.
proof fn hubs_lead_on<F: Fn(FloatOp) -> u64>(
    g: Seq<Seq<Arc>>,
    entries: Seq<Entry>,
    su: Setup,
    hubs: Seq<Hub>,
    i: int,
    pron: PronView,
    f: F,
)
    requires
        is_proper_setup(su, f),
        is_proper_pron(pron),
        is_fine(g, su.m),
        0 <= i <= hubs.len(),
        lie_in(hub_places(hubs), g),
        lie_in(places(entries), g),
        with_entries(
            g,
            entries,
            hubs,
            i,
            pron_cost_of(pron.prob, f),
            corr_cost_of(pron.silence_before_correction, f),
            corr_cost_of(pron.non_silence_before_correction, f),
            f,
        ) is Some,
    ensures
        ({
            let (h, all) = with_entries(
                g,
                entries,
                hubs,
                i,
                pron_cost_of(pron.prob, f),
                corr_cost_of(pron.silence_before_correction, f),
                corr_cost_of(pron.non_silence_before_correction, f),
                f,
            )->0;
            let t = places(all);
            &&& grows_to(g, h, su.m, t)
            &&& within(places(entries), t)
            &&& lie_in(t, h)
            &&& all.len() == entries.len() + hubs.len() - i
            &&& forall|k: int|
                i <= k < hubs.len() ==> reaches(h, t, #[trigger] hub_places(hubs)[k])
        }),
    decreases hubs.len() - i,
{
    let own = pron_cost_of(pron.prob, f);
    let sil = corr_cost_of(pron.silence_before_correction, f);
    let nonsil = corr_cost_of(pron.non_silence_before_correction, f);
    let (h, all) = with_entries(g, entries, hubs, i, own, sil, nonsil, f)->0;
    let t = places(all);
    let m = su.m;
    if i < hubs.len() {
        let hub = hubs[i];
        let cost = value(f, FloatOp::Add(own, before_cost(hub.branch, sil, nonsil)));
        entering_is_cheap(pron, hub.branch, f);
        assert(hub_places(hubs)[i] < g.len());
        let e = g.len() as u32;
        let g1 = with_arc(grown(g, 1), hub.state, epsilon(e, cost));
        assert(seq![e][0] == e);
        epsilon_leads_on(g, hub.state, cost, m, seq![e]);
        let next = entries.push(Entry { state: e, left: hub.left });
        assert(lie_in(places(next), g1)) by {
            assert forall|k: int| 0 <= k < next.len() implies #[trigger] places(next)[k] < g1.len() by {
                if k < entries.len() {
                    assert(places(entries)[k] < g.len());
                    assert(next[k] == entries[k]);
                }
            }
        }
        assert(lie_in(hub_places(hubs), g1)) by {
            assert forall|k: int| 0 <= k < hubs.len() implies #[trigger] hub_places(hubs)[k]
                < g1.len() by {
                assert(hub_places(hubs)[k] < g.len());
            }
        }
        hubs_lead_on(g1, next, su, hubs, i + 1, pron, f);
        assert(places(next)[entries.len() as int] == e);
        assert(places(next).contains(e));
        assert(within(seq![e], t));
        assert(within(places(entries), t)) by {
            assert forall|x: u32| #[trigger] places(entries).contains(x) implies t.contains(x) by {
                let k = choose|k: int| 0 <= k < entries.len() && places(entries)[k] == x;
                assert(places(next)[k] == x);
                assert(places(next).contains(x));
            }
        }
        growing_to_more(g, g1, m, seq![e], t);
        assert forall|x: u32| #[trigger] t.contains(x) implies reaches(h, t, x) by {
            target_reaches(h, t, x);
        }
        growing_goes_on(g, g1, h, m, t, t);
        still_reaches(g1, h, m, seq![e], t, hub.state);
    } else {
        growing_by_nothing(g, m, t);
    }
}

/// A pronunciation leads from the hubs before it to those behind it.
proof fn pron_leads_on<F: Fn(FloatOp) -> u64>(
    g: Seq<Seq<Arc>>,
    next_hubs: Seq<Hub>,
    su: Setup,
    hubs: Seq<Hub>,
    pron: PronView,
    word: WordId,
    index: u32,
    next_firsts: Seq<PhoneId>,
    after_silence: PhoneId,
    f: F,
)
    requires
        is_proper_setup(su, f),
        is_proper_pron(pron),
        is_fine(g, su.m),
        hubs.len() > 0,
        next_firsts.len() > 0,
        lie_in(hub_places(hubs), g),
        lie_in(hub_places(next_hubs), g),
        with_pron(
            g,
            next_hubs,
            su,
            hubs,
            pron,
            word,
            index,
            next_firsts,
            after_silence,
            f,
        ) is Some,
    ensures
        ({
            let (h, more) = with_pron(
                g,
                next_hubs,
                su,
                hubs,
                pron,
                word,
                index,
                next_firsts,
                after_silence,
                f,
            )->0;
            let t = hub_places(more);
            &&& grows_to(g, h, su.m, t)
            &&& within(hub_places(next_hubs), t)
            &&& lie_in(t, h)
            &&& more.len() >= next_hubs.len()
            &&& pron.phones.len() > 0 ==> more.len() > 0 && all_reach(h, hub_places(hubs), t)
        }),
{
    let m = su.m;
    let (h, more) = with_pron(
        g,
        next_hubs,
        su,
        hubs,
        pron,
        word,
        index,
        next_firsts,
        after_silence,
        f,
    )->0;
    let t = hub_places(more);
    if pron.phones.len() == 0 {
        growing_by_nothing(g, m, t);
    } else {
        let costs = after_costs_of(pron.silence_after_prob, su.opts.silence_prob, f);
        let exits = exits_of(costs.0, costs.1, su.opts.silence_phone, next_firsts);
        let last = pron.phones.len() - 1;
        leaving_is_cheap(pron, su.opts.silence_prob, f);
        assert(exits.len() > 0);
        let none = Seq::<Entry>::empty();
        hubs_lead_on(g, none, su, hubs, 0, pron, f);
        let (g1, entries) = with_entries(
            g,
            none,
            hubs,
            0,
            pron_cost_of(pron.prob, f),
            corr_cost_of(pron.silence_before_correction, f),
            corr_cost_of(pron.non_silence_before_correction, f),
            f,
        )->0;
        let te = places(entries);
        assert(all_reach(g1, hub_places(hubs), te)) by {
            assert forall|x: u32| #[trigger] hub_places(hubs).contains(x) implies reaches(g1, te, x) by {
                let k = choose|k: int| 0 <= k < hubs.len() && hub_places(hubs)[k] == x;
                assert(reaches(g1, te, hub_places(hubs)[k]));
            }
        }
        inner_phones_lead_on(g1, su, entries, pron.phones, 0, word, index, f);
        let (g2, cur) = with_inner_phones(g1, su, entries, pron.phones, 0, word, index, f)->0;
        let tc = places(cur);
        let base = g2.len() as int;
        let g2b = grown(g2, exits.len());
        growing_keeps_fine(g2, exits.len(), m);
        let tx = exit_places(base, exits.len());
        assert(lie_in(tx, g2b));
        assert(lie_in(tc, g2b)) by {
            assert forall|k: int| 0 <= k < tc.len() implies #[trigger] tc[k] < g2b.len() by {
                assert(tc[k] < g2.len());
            }
        }
        let (w, p) = (
            label(last, word),
            label(last, index),
        );
        fans_lead_on(g2b, su, cur, 0, exits, base, pron.phones[last], w, p, f);
        let g3 = with_fans(g2b, su, cur, 0, exits, base, pron.phones[last], w, p, f)->0;
        assert(cur.skip(0) =~= cur);
        assert(grows_to(g2, g3, m, tx)) by {
            extending_is_transitive(g2, g2b, g3);
            assert forall|s: int| g2.len() <= s < g3.len() implies #[trigger] reaches(
                g3,
                tx,
                s as u32,
            ) by {
                if s < g2b.len() {
                    assert(tx[s - base] == s as u32);
                    target_reaches(g3, tx, s as u32);
                }
            }
        }
        assert(lie_in(tx, g3)) by {
            assert forall|k: int| 0 <= k < tx.len() implies #[trigger] tx[k] < g3.len() by {
                assert(tx[k] < g2b.len());
            }
        }
        let th = hub_places(next_hubs);
        assert(lie_in(th, g3)) by {
            assert forall|k: int| 0 <= k < th.len() implies #[trigger] th[k] < g3.len() by {
                assert(th[k] < g.len());
            }
        }
        exits_lead_on(
            g3,
            next_hubs,
            su,
            exits,
            0,
            base,
            pron.phones[last],
            costs,
            after_silence,
            f,
        );
        assert(all_reach(h, tx, t)) by {
            assert forall|x: u32| #[trigger] tx.contains(x) implies reaches(h, t, x) by {
                let k = choose|k: int| 0 <= k < tx.len() && tx[k] == x;
                assert(reaches(h, t, tx[k]));
            }
        }
        pron_steps_join(g, g1, g2, g3, h, m, hub_places(hubs), te, tc, tx, t);
    }
}

/// Steps that lead on one after the other lead on together.
proof fn pron_steps_join(
    g: Seq<Seq<Arc>>,
    g1: Seq<Seq<Arc>>,
    g2: Seq<Seq<Arc>>,
    g3: Seq<Seq<Arc>>,
    h: Seq<Seq<Arc>>,
    m: ModelView,
    th: Seq<u32>,
    te: Seq<u32>,
    tc: Seq<u32>,
    tx: Seq<u32>,
    t: Seq<u32>,
)
    requires
        lie_in(th, g),
        lie_in(te, g1),
        lie_in(tc, g2),
        grows_to(g, g1, m, te),
        grows_to(g1, g2, m, tc),
        grows_to(g2, g3, m, tx),
        grows_to(g3, h, m, t),
        all_reach(g1, th, te),
        all_reach(g2, te, tc),
        all_reach(g3, tc, tx),
        all_reach(h, tx, t),
    ensures
        grows_to(g, h, m, t),
        all_reach(h, th, t),
{
    growing_goes_on(g2, g3, h, m, tx, t);
    all_still_reach(g3, h, m, tc, tx, tx);
    all_reach_on(h, tc, tx, t);
    growing_goes_on(g1, g2, h, m, tc, t);
    all_still_reach(g2, h, m, te, tc, tc);
    all_reach_on(h, te, tc, t);
    growing_goes_on(g, g1, h, m, te, t);
    all_still_reach(g1, h, m, th, te, te);
    all_reach_on(h, th, te, t);
}

/// Every state reaches the targets.
pub open spec fn all_states_reach(g: Seq<Seq<Arc>>, t: Seq<u32>) -> bool {
    forall|s: int| 0 <= s < g.len() ==> #[trigger] reaches(g, t, s as u32)
}

/// What grows to targets from where everything reaches others, which reach the targets, reaches the
/// targets.
proof fn all_states_go_on(
    g: Seq<Seq<Arc>>,
    h: Seq<Seq<Arc>>,
    m: ModelView,
    t: Seq<u32>,
    u: Seq<u32>,
)
    requires
        arcs_fit(g, m),
        all_states_reach(g, t),
        grows_to(g, h, m, u),
        all_reach(h, t, u),
    ensures
        all_states_reach(h, u),
{
    assert forall|s: int| 0 <= s < h.len() implies #[trigger] reaches(h, u, s as u32) by {
        if s < g.len() {
            assert(reaches(g, t, s as u32));
            still_reaches(g, h, m, t, t, s as u32);
            reaches_on(h, t, u, s as u32);
        }
    }
}

/// One of the pronunciations from number `i` on has phones.
spec fn some_spoken(prons: Seq<PronView>, i: int) -> bool {
    exists|k: int| i <= k < prons.len() && (#[trigger] prons[k]).phones.len() > 0
}

/// The pronunciations of a word lead from the hubs before it to those behind it.
proof fn prons_lead_on<F: Fn(FloatOp) -> u64>(
    g: Seq<Seq<Arc>>,
    next_hubs: Seq<Hub>,
    su: Setup,
    hubs: Seq<Hub>,
    prons: Seq<PronView>,
    i: int,
    word: WordId,
    next_firsts: Seq<PhoneId>,
    f: F,
)
    requires
        is_proper_setup(su, f),
        forall|k: int| 0 <= k < prons.len() ==> is_proper_pron(#[trigger] prons[k]),
        is_fine(g, su.m),
        0 <= i <= prons.len(),
        hubs.len() > 0,
        next_firsts.len() > 0,
        lie_in(hub_places(hubs), g),
        lie_in(hub_places(next_hubs), g),
        with_prons(g, next_hubs, su, hubs, prons, i, word, next_firsts, f) is Some,
    ensures
        ({
            let (h, more) = with_prons(
                g,
                next_hubs,
                su,
                hubs,
                prons,
                i,
                word,
                next_firsts,
                f,
            )->0;
            let t = hub_places(more);
            &&& grows_to(g, h, su.m, t)
            &&& within(hub_places(next_hubs), t)
            &&& lie_in(t, h)
            &&& some_spoken(prons, i) ==> all_reach(h, hub_places(hubs), t)
        }),
    decreases prons.len() - i,
{
    let m = su.m;
    let (h, more) = with_prons(g, next_hubs, su, hubs, prons, i, word, next_firsts, f)->0;
    let t = hub_places(more);
    let th = hub_places(hubs);
    if i < prons.len() {
        let after = leading(next_firsts);
        let (g1, next) = with_pron(
            g,
            next_hubs,
            su,
            hubs,
            prons[i],
            word,
            i as u32,
            next_firsts,
            after,
            f,
        )->0;
        pron_leads_on(
            g,
            next_hubs,
            su,
            hubs,
            prons[i],
            word,
            i as u32,
            next_firsts,
            after,
            f,
        );
        let tn = hub_places(next);
        assert(lie_in(th, g1)) by {
            assert forall|k: int| 0 <= k < th.len() implies #[trigger] th[k] < g1.len() by {
                assert(th[k] < g.len());
            }
        }
        prons_lead_on(g1, next, su, hubs, prons, i + 1, word, next_firsts, f);
        growing_to_more(g, g1, m, tn, t);
        assert forall|x: u32| #[trigger] t.contains(x) implies reaches(h, t, x) by {
            target_reaches(h, t, x);
        }
        growing_goes_on(g, g1, h, m, t, t);
        assert(within(hub_places(next_hubs), t));
        if prons[i].phones.len() > 0 {
            all_still_reach(g1, h, m, th, tn, t);
        } else if some_spoken(prons, i) {
            let k = choose|k: int| i <= k < prons.len() && (#[trigger] prons[k]).phones.len() > 0;
            assert(k >= i + 1);
            assert(some_spoken(prons, i + 1));
        }
    } else {
        growing_by_nothing(g, m, t);
    }
}

/// Those of the words that can be pronounced are words that can be.
proof fn live_words_are_usable(words: Seq<Seq<PronView>>, n: int)
    requires
        0 <= n <= words.len(),
    ensures
        forall|i: int|
            0 <= i < live_words(words, n).len() ==> 0 <= #[trigger] live_words(words, n)[i] < n
                && usable(words[live_words(words, n)[i]]),
    decreases n,
{
    if n > 0 {
        live_words_are_usable(words, n - 1);
        let rest = live_words(words, n - 1);
        let all = live_words(words, n);
        assert forall|i: int| 0 <= i < all.len() implies 0 <= #[trigger] all[i] < n && usable(
            words[all[i]],
        ) by {
            if i < rest.len() {
                assert(all[i] == rest[i]);
            }
        }
    }
}

/// Some phone leads if some pronunciation has phones.
proof fn leading_phones_are_some(prons: Seq<PronView>, n: int, k: int)
    requires
        0 <= k < n <= prons.len(),
        prons[k].phones.len() > 0,
    ensures
        leading_phones(prons, n).len() > 0,
    decreases n,
{
    if k < n - 1 {
        leading_phones_are_some(prons, n - 1, k);
    }
}

/// There is an increasing sequence with the members of any other.
pub(crate) proof fn sorting_exists(s: Seq<u32>) -> (r: Seq<u32>)
    ensures
        increasing(r),
        forall|x: u32| #[trigger] r.contains(x) == s.contains(x),
    decreases s.len(),
{
    if s.len() == 0 {
        s
    } else {
        let rest = sorting_exists(s.drop_last());
        let x = s.last();
        let r = inserted(rest, x, rest.len() as int);
        insertion_sorts(rest, x, rest.len() as int);
        assert(rest.take(rest.len() as int) =~= rest);
        assert forall|y: u32| #[trigger] r.contains(y) == s.contains(y) by {
            if s.contains(y) && y != x {
                let i = choose|i: int| 0 <= i < s.len() && s[i] == y;
                assert(s.drop_last()[i] == y);
                assert(s.drop_last().contains(y));
            }
            if rest.contains(y) {
                assert(s.drop_last().contains(y));
                let i = choose|i: int| 0 <= i < s.drop_last().len() && s.drop_last()[i] == y;
                assert(s[i] == y);
            }
            assert(s[s.len() - 1] == x);
        }
        r
    }
}

/// The first `n` of an increasing sequence with `x` in its place.
spec fn inserted(s: Seq<u32>, x: u32, n: int) -> Seq<u32>
    decreases n,
{
    if n <= 0 {
        seq![x]
    } else if s[n - 1] == x {
        s.take(n)
    } else if s[n - 1] < x {
        s.take(n).push(x)
    } else {
        inserted(s, x, n - 1).push(s[n - 1])
    }
}

proof fn insertion_sorts(s: Seq<u32>, x: u32, n: int)
    requires
        increasing(s),
        0 <= n <= s.len(),
    ensures
        increasing(inserted(s, x, n)),
        forall|y: u32| #[trigger] inserted(s, x, n).contains(y) == (y == x || s.take(n).contains(y)),
    decreases n,
{
    let r = inserted(s, x, n);
    if n <= 0 {
        assert(r[0] == x);
    } else if s[n - 1] == x {
        assert(s.take(n)[n - 1] == x);
        assert forall|i: int, j: int| 0 <= i < j < r.len() implies (#[trigger] r[i]).before(
            #[trigger] r[j],
        ) by {
            assert(s[i].before(s[j]));
        }
    } else if s[n - 1] < x {
        assert forall|i: int, j: int| 0 <= i < j < r.len() implies (#[trigger] r[i]).before(
            #[trigger] r[j],
        ) by {
            if j < n {
                assert(s[i].before(s[j]));
            } else if i < n - 1 {
                assert(s[i].before(s[n - 1]));
            }
        }
        assert forall|y: u32| #[trigger] r.contains(y) == (y == x || s.take(n).contains(y)) by {
            assert(r[n] == x);
            if s.take(n).contains(y) {
                let had = s.take(n);
                let i = choose|i: int| 0 <= i < had.len() && had[i] == y;
                assert(r[i] == y);
            }
            if r.contains(y) && y != x {
                let i = choose|i: int| 0 <= i < r.len() && r[i] == y;
                assert(s.take(n)[i] == y);
            }
        }
    } else {
        insertion_sorts(s, x, n - 1);
        let rest = inserted(s, x, n - 1);
        let last = s[n - 1];
        assert forall|y: u32| #[trigger] rest.contains(y) implies y < last by {
            if y != x {
                let had = s.take(n - 1);
                let i = choose|i: int| 0 <= i < had.len() && had[i] == y;
                assert(s[i].before(s[n - 1]));
            }
        }
        assert forall|i: int, j: int| 0 <= i < j < r.len() implies (#[trigger] r[i]).before(
            #[trigger] r[j],
        ) by {
            if j < rest.len() {
                assert(rest[i].before(rest[j]));
            } else {
                assert(rest.contains(rest[i]));
            }
        }
        assert forall|y: u32| #[trigger] r.contains(y) == (y == x || s.take(n).contains(y)) by {
            assert(r[rest.len() as int] == last);
            assert(s.take(n)[n - 1] == last);
            if rest.contains(y) {
                let i = choose|i: int| 0 <= i < rest.len() && rest[i] == y;
                assert(r[i] == y);
                if y != x {
                    let had = s.take(n - 1);
                    let k = choose|k: int| 0 <= k < had.len() && had[k] == y;
                    assert(s.take(n)[k] == y);
                }
            }
            if r.contains(y) && y != last {
                let i = choose|i: int| 0 <= i < r.len() && r[i] == y;
                assert(rest[i] == y);
                assert(rest.contains(y));
            }
            if s.take(n).contains(y) && y != last {
                let had = s.take(n);
                let k = choose|k: int| 0 <= k < had.len() && had[k] == y;
                assert(s.take(n - 1)[k] == y);
                assert(s.take(n - 1).contains(y));
            }
        }
    }
}

/// A word that can be pronounced starts with some phone, and so does the edge of the utterance.
proof fn first_phones_are_some(words: Seq<Seq<PronView>>, live: Seq<int>, k: int)
    requires
        0 <= k,
        k < live.len() ==> usable(words[live[k]]),
    ensures
        first_phones_of(words, live, k).len() > 0,
{
    if k < live.len() {
        let prons = words[live[k]];
        let i = choose|i: int| 0 <= i < prons.len() && (#[trigger] prons[i]).phones.len() > 0;
        leading_phones_are_some(prons, prons.len() as int, i);
        let all = leading_phones(prons, prons.len() as int);
        let r = sorting_exists(all);
        is_ascending(r, all);
        assert(all.contains(all[0]));
        assert(r.contains(all[0]));
    }
}

/// All pronunciations of all words are proper.
pub open spec fn are_proper_words(words: Seq<Seq<PronView>>) -> bool {
    forall|w: int, i: int|
        0 <= w < words.len() && 0 <= i < words[w].len() ==> is_proper_pron(#[trigger] words[w][i])
}

/// The words lead on, from where everything reaches the hubs.
proof fn words_lead_on<F: Fn(FloatOp) -> u64>(
    g: Seq<Seq<Arc>>,
    hubs: Seq<Hub>,
    su: Setup,
    words: Seq<Seq<PronView>>,
    live: Seq<int>,
    k: int,
    f: F,
)
    requires
        is_proper_setup(su, f),
        are_proper_words(words),
        forall|i: int|
            0 <= i < live.len() ==> 0 <= #[trigger] live[i] < words.len() && usable(words[live[i]]),
        is_fine(g, su.m),
        0 <= k <= live.len(),
        hubs.len() > 0,
        lie_in(hub_places(hubs), g),
        all_states_reach(g, hub_places(hubs)),
        with_words(g, hubs, su, words, live, k, f) matches Some(Some(_)),
    ensures
        ({
            let (h, ends) = (with_words(g, hubs, su, words, live, k, f)->0)->0;
            &&& is_fine(h, su.m)
            &&& ends.len() > 0
            &&& lie_in(hub_places(ends), h)
            &&& all_states_reach(h, hub_places(ends))
        }),
    decreases live.len() - k,
{
    if k < live.len() {
        let prons = words[live[k]];
        let firsts = first_phones_of(words, live, k + 1);
        let none = Seq::<Hub>::empty();
        first_phones_are_some(words, live, k + 1);
        assert forall|i: int| 0 <= i < prons.len() implies is_proper_pron(#[trigger] prons[i]) by {
            assert(is_proper_pron(words[live[k]][i]));
        }
        prons_lead_on(g, none, su, hubs, prons, 0, live[k] as u32, firsts, f);
        let (g1, next) = with_prons(g, none, su, hubs, prons, 0, live[k] as u32, firsts, f)->0;
        let i = choose|i: int| 0 <= i < prons.len() && (#[trigger] prons[i]).phones.len() > 0;
        assert(some_spoken(prons, 0));
        all_states_go_on(g, g1, su.m, hub_places(hubs), hub_places(next));
        words_lead_on(g1, next, su, words, live, k + 1, f);
    }
}

/// The start of a graph leads to its hubs.
proof fn start_leads_on<F: Fn(FloatOp) -> u64>(su: Setup, firsts: Seq<PhoneId>, f: F)
    requires
        is_proper_setup(su, f),
        with_start(su, firsts, f) is Some,
    ensures
        ({
            let (g, hubs) = with_start(su, firsts, f)->0;
            &&& is_fine(g, su.m)
            &&& hubs.len() > 0
            &&& lie_in(hub_places(hubs), g)
            &&& all_states_reach(g, hub_places(hubs))
        }),
{
    let m = su.m;
    let none = Seq::<Seq<Arc>>::empty();
    let start = grown(none, 1);
    let (g, hubs) = with_start(su, firsts, f)->0;
    let t = hub_places(hubs);
    let p = su.opts.initial_silence_prob;
    growing_keeps_fine(none, 1, m);
    if less(ZERO, p) {
        log_is_small(p, f);
        log_is_small(complement(p, f), f);
        let a = neg_log_of(complement(p, f), f);
        let b = neg_log_of(p, f);
        let direct = with_arc(grown(start, 1), 0, epsilon(1, a));
        let silent = with_arc(grown(direct, 1), 0, epsilon(2, b));
        let room = grown(silent, 1);
        assert(seq![1u32][0] == 1);
        epsilon_leads_on(start, 0, a, m, seq![1u32]);
        assert(seq![2u32][0] == 2);
        epsilon_leads_on(direct, 0, b, m, seq![2u32]);
        growing_keeps_fine(silent, 1, m);
        let window = window_of(su.n, su.p, 0, su.opts.silence_phone, leading(firsts));
        phone_leads_on(room, su, window, 2, 3, NO_WORD, NO_PRON, f);
        assert(t[0] == 1 && t[1] == 3);
        extending_is_transitive(direct, silent, room);
        extending_is_transitive(direct, room, g);
        assert(within(seq![1u32], t));
        assert(within(seq![3u32], t));
        still_reaches(direct, g, m, seq![1u32], t, 0);
        target_reaches(g, t, 1);
        target_reaches(g, t, 3);
        still_reaches(g, g, m, seq![3u32], t, 2);
        assert forall|s: int| 0 <= s < g.len() implies #[trigger] reaches(g, t, s as u32) by {
            if s >= 4 {
                assert(reaches(g, seq![3u32], s as u32));
                still_reaches(g, g, m, seq![3u32], t, s as u32);
            }
        }
    } else {
        assert(t[0] == 0);
        target_reaches(g, t, 0);
        assert forall|s: int| 0 <= s < g.len() implies #[trigger] reaches(g, t, s as u32) by {
            assert(s == 0);
        }
    }
}

/// The final states.
pub open spec fn final_places(finals: Seq<(u32, u32)>) -> Seq<u32> {
    Seq::new(finals.len(), |i: int| finals[i].0)
}

/// Ending at any hub is possible and costs little.
proof fn hubs_are_final<F: Fn(FloatOp) -> u64>(hubs: Seq<Hub>, n: int, o: GraphOptions, f: F)
    requires
        keeps_sizes(f),
        is_proper(o),
        0 <= n <= hubs.len(),
    ensures
        ({
            let finals = finals_of(hubs, n, o, f);
            &&& finals.len() == n
            &&& forall|i: int|
                0 <= i < n ==> (#[trigger] finals[i]).0 == hubs[i].state && sized(finals[i].1, 27)
        }),
    decreases n,
{
    if n > 0 {
        hubs_are_final(hubs, n - 1, o, f);
        log_is_small(o.final_silence_correction, f);
        log_is_small(o.final_non_silence_correction, f);
    }
}

/// The states and final states of an utterance before the self-loops: they fit and cost little, some
/// are final, and every state leads to a final one.
spec fn is_ending(g: Seq<Seq<Arc>>, finals: Seq<(u32, u32)>, m: ModelView) -> bool {
    &&& is_fine(g, m)
    &&& finals.len() > 0
    &&& lie_in(final_places(finals), g)
    &&& all_states_reach(g, final_places(finals))
    &&& forall|i: int| 0 <= i < finals.len() ==> sized((#[trigger] finals[i]).1, 27)
}

proof fn silence_ends<F: Fn(FloatOp) -> u64>(su: Setup, f: F)
    requires
        is_proper_setup(su, f),
        silent_draft(su, f) is Some,
    ensures
        ({
            let (g, finals) = silent_draft(su, f)->0;
            is_ending(g, finals, su.m)
        }),
{
    let m = su.m;
    let none = Seq::<Seq<Arc>>::empty();
    let one = grown(none, 1);
    let two = grown(one, 1);
    let (g, finals) = silent_draft(su, f)->0;
    let t = final_places(finals);
    growing_keeps_fine(none, 1, m);
    growing_keeps_fine(one, 1, m);
    let window = window_of(su.n, su.p, 0, su.opts.silence_phone, 0);
    phone_leads_on(two, su, window, 0, 1, NO_WORD, NO_PRON, f);
    assert(t =~= seq![1u32]);
    assert(t[0] == 1);
    target_reaches(g, t, 1);
    log_is_small(su.opts.final_silence_correction, f);
    assert forall|s: int| 0 <= s < g.len() implies #[trigger] reaches(g, t, s as u32) by {
        assert(s == 0 || s == 1 || s >= 2);
    }
}

proof fn draft_ends<F: Fn(FloatOp) -> u64>(su: Setup, words: Seq<Seq<PronView>>, f: F)
    requires
        is_proper_setup(su, f),
        are_proper_words(words),
        draft_of(su, words, f) is Some,
    ensures
        ({
            let (g, finals) = draft_of(su, words, f)->0;
            is_ending(g, finals, su.m)
        }),
{
    let live = live_words(words, words.len() as int);
    if live.len() == 0 {
        silence_ends(su, f);
    } else {
        let firsts = first_phones_of(words, live, 0);
        start_leads_on(su, firsts, f);
        live_words_are_usable(words, words.len() as int);
        let (g, hubs) = with_start(su, firsts, f)->0;
        match with_words(g, hubs, su, words, live, 0, f) {
            Some(Some((h, ends))) => {
                words_lead_on(g, hubs, su, words, live, 0, f);
                let n = ends.len() as int;
                hubs_are_final(ends, n, su.opts, f);
                let finals = finals_of(ends, n, su.opts, f);
                assert(final_places(finals) =~= hub_places(ends));
            },
            _ => {
                silence_ends(su, f);
            },
        }
    }
}

/// A state with a final cost is a final state.
proof fn final_is_placed(finals: Seq<(u32, u32)>, s: u32)
    ensures
        final_cost_of(finals, s) is Some == final_places(finals).contains(s),
    decreases finals.len(),
{
    if finals.len() > 0 {
        let rest = finals.drop_first();
        final_is_placed(rest, s);
        assert(final_places(finals)[0] == finals[0].0);
        if final_places(rest).contains(s) {
            let i = choose|i: int| 0 <= i < rest.len() && final_places(rest)[i] == s;
            assert(final_places(finals)[i + 1] == s);
        }
        if final_places(finals).contains(s) && finals[0].0 != s {
            let i = choose|i: int| 0 <= i < finals.len() && final_places(finals)[i] == s;
            assert(final_places(rest)[i - 1] == s);
        }
    }
}

/// After the splitting a state leads to a final one if the state that it was did.
proof fn splitting_keeps_reach(g: GraphView, m: ModelView, j: u32, n: nat)
    requires
        arcs_fit(g.states, m),
        split_len(g.states, m) <= u32::MAX,
        j < split_len(g.states, m),
        lie_in(final_places(g.finals), g.states),
        reaches_in(
            g.states,
            final_places(g.finals),
            source(g.states, m, j as int) as u32,
            n,
        ),
    ensures
        reaches(
            split(g.states, m),
            final_places(split_finals(g.finals, g.states, m, g.states.len() as int)),
            j,
        ),
    decreases n,
{
    let states = g.states;
    let t = final_places(g.finals);
    let all = split_finals(g.finals, states, m, states.len() as int);
    let cut = split(states, m);
    sources_exist(states, m, states.len() as int);
    let from = source(states, m, j as int);
    assert(0 <= from < states.len());
    if t.contains(from as u32) {
        assert forall|i: int| 0 <= i < g.finals.len() implies (#[trigger] g.finals[i]).0
            < states.len() by {
            assert(t[i] < states.len());
        }
        final_is_placed(g.finals, from as u32);
        splitting_keeps_final_costs(g, m, j as int);
        final_is_placed(all, j);
        target_reaches(cut, final_places(all), j);
    } else {
        let k = choose|k: int|
            0 <= k < states[from].len() && reaches_in(
                states,
                t,
                (#[trigger] states[from as u32 as int][k]).next,
                (n - 1) as nat,
            );
        target_is_of_the_class(states, m, from, k);
        let next = redirected(states, m, states[from][k]).next;
        splitting_keeps_reach(g, m, next, (n - 1) as nat);
        assert(cut[j as int] == redirected_all(states, m, states[from]));
        assert(cut[j as int][k].next == next);
        arc_reaches(cut, final_places(all), j, k);
    }
}

/// The graph of an utterance before its self-loops and costs.
spec fn drafted(states: Seq<Seq<Arc>>, finals: Seq<(u32, u32)>) -> GraphView {
    GraphView { states, finals, finals_lm: Seq::empty(), state_in: Seq::empty() }
}

/// A graph with proper options and pronunciations has final states, and every state leads to one of
/// them.
pub proof fn states_lead_to_final_ones<F: Fn(FloatOp) -> u64>(
    su: Setup,
    words: Seq<Seq<PronView>>,
    f: F,
)
    requires
        is_proper_setup(su, f),
        are_proper_words(words),
        graph_of(su, words, f) is Some,
    ensures
        ({
            let g = graph_of(su, words, f)->0;
            &&& g.finals.len() > 0
            &&& all_states_reach(g.states, final_places(g.finals))
        }),
{
    let m = su.m;
    let (states, finals) = draft_of(su, words, f)->0;
    draft_ends(su, words, f);
    let d = drafted(states, finals);
    let g = graph_of(su, words, f)->0;
    let cut = split(states, m);
    let all = split_finals(finals, states, m, states.len() as int);
    let t = final_places(all);
    assert(final_places(g.finals) =~= t);
    sources_exist(states, m, states.len() as int);
    assert(extends(cut, g.states)) by {
        assert forall|s: int| 0 <= s < cut.len() implies (#[trigger] cut[s]).len()
            <= g.states[s].len() && forall|k: int|
            0 <= k < cut[s].len() ==> (#[trigger] cut[s][k]).next == g.states[s][k].next by {
            let looped = self_looped(d, m);
            assert(looped.states[s] == cut[s] + loop_arc(looped.state_in[s], s, m));
        }
    }
    assert(arcs_fit(cut, m)) by {
        assert forall|s: int, k: int| 0 <= s < cut.len() && 0 <= k < cut[s].len() implies arc_fits(
            #[trigger] cut[s][k],
            cut.len() as int,
            m,
        ) by {
            let from = source(states, m, s);
            assert(cut[s] == redirected_all(states, m, states[from]));
            assert(arc_fits(states[from][k], states.len() as int, m));
            target_is_of_the_class(states, m, from, k);
        }
    }
    assert forall|s: int| 0 <= s < g.states.len() implies #[trigger] reaches(
        g.states,
        final_places(g.finals),
        s as u32,
    ) by {
        let from = source(states, m, s);
        assert(reaches(states, final_places(finals), from as u32));
        let n = choose|n: nat| #[trigger]
            reaches_in(states, final_places(finals), from as u32, n);
        splitting_keeps_reach(d, m, s as u32, n);
        still_reaches(cut, g.states, m, t, t, s as u32);
    }
    assert(final_places(finals)[0] == finals[0].0);
    final_is_placed(finals, finals[0].0);
    assert(final_places(finals)[0] < states.len());
    assert forall|i: int| 0 <= i < finals.len() implies (#[trigger] finals[i]).0 < states.len() by {
        assert(final_places(finals)[i] < states.len());
    }
    splitting_keeps_final_costs(d, m, finals[0].0 as int);
    final_is_placed(all, finals[0].0);
}

/// The log probabilities of a model are of a size to compute with; none is of a probability of zero.
pub open spec fn is_sized_model(m: ModelView) -> bool {
    &&& forall|t: int| #[trigger] m.has_id(t) ==> sized(m.log_probs[t], 20)
    &&& forall|s: int| #[trigger] m.has_state(s) ==> sized(m.leaving[s], 20)
}

proof fn leaving_cost_is_small<F: Fn(FloatOp) -> u64>(
    entered: Option<u32>,
    m: ModelView,
    scale: u32,
    f: F,
)
    requires
        keeps_sizes(f),
        is_sized_model(m),
        sized(scale, 20),
        entered matches Some(ts) ==> m.has_state(ts as int),
    ensures
        sized(leaving_cost(entered, m, scale, f), 40),
{
    if entered is Some {
        let ts = entered->0;
        assert(m.has_state(ts as int));
        assert(sized(negated(scale), 20));
        assert(sized(m.leaving[ts as int], 20));
    }
}

proof fn arc_cost_is_finite<F: Fn(FloatOp) -> u64>(
    a: Arc,
    s: int,
    entered: Option<u32>,
    m: ModelView,
    o: GraphOptions,
    f: F,
)
    requires
        keeps_sizes(f),
        is_sized_model(m),
        is_proper(o),
        sized(a.lm, 27),
        a.tid != 0 ==> m.has_id(a.tid as int),
        entered matches Some(ts) ==> m.has_state(ts as int),
    ensures
        is_finite_bits(arc_cost(a, s, entered, m, o.transition_scale, o.self_loop_scale, f)),
{
    let leaving = leaving_cost(entered, m, o.self_loop_scale, f);
    leaving_cost_is_small(entered, m, o.self_loop_scale, f);
    if a.tid != 0 && a.next == s && m.loops(a.tid as int) {
        let scale = negated(o.self_loop_scale);
        let l = m.log_probs[a.tid as int];
        assert(sized(scale, 20));
        assert(sized(l, 20));
        assert(sized(value(f, FloatOp::Mul(scale, l)), 40));
    } else if a.tid != 0 {
        let t = a.tid as int;
        ids_and_pairs_agree(m, t);
        let l = m.log_probs[t];
        assert(sized(l, 20));
        assert(sized(m.leaving[m.owner(t)], 20));
        let x = forward_log_prob(m, t, f);
        assert(sized(x, 21));
        assert(sized(o.transition_scale, 20));
        let forward = value(f, FloatOp::Mul(o.transition_scale, x));
        assert(sized(forward, 41));
        assert(sized(a.lm, 41));
        let d = value(f, FloatOp::Sub(a.lm, forward));
        assert(sized(d, 42));
        assert(sized(leaving, 42));
        assert(sized(value(f, FloatOp::Add(d, leaving)), 43));
    } else {
        assert(sized(a.lm, 40));
        assert(sized(value(f, FloatOp::Add(a.lm, leaving)), 41));
    }
}

/// What is recorded of a state is a transition state of the model.
proof fn recorded_is_a_state(states: Seq<Seq<Arc>>, m: ModelView, j: int)
    requires
        arcs_fit(states, m),
        split_len(states, m) <= u32::MAX,
        0 <= j < split(states, m).len(),
        m.tuples.len() <= u32::MAX,
    ensures
        entered(states, m)[j] matches Some(ts) ==> m.has_state(ts as int),
{
    if entered(states, m)[j] is Some {
        recorded_class_enters(states, m, j);
        let cut = split(states, m);
        let (s, k) = choose|s: int, k: int|
            0 <= s < cut.len() && 0 <= k < cut[s].len() && (#[trigger] cut[s][k]).next == j
                && class_of(m, cut[s][k].tid) == entered(states, m)[j];
        sources_exist(states, m, states.len() as int);
        let from = source(states, m, s);
        assert(cut[s] == redirected_all(states, m, states[from]));
        assert(arc_fits(states[from][k], states.len() as int, m));
        ids_and_pairs_agree(m, cut[s][k].tid as int);
    }
}

proof fn split_finals_are_small(finals: Seq<(u32, u32)>, states: Seq<Seq<Arc>>, m: ModelView, s: int)
    requires
        forall|i: int| 0 <= i < finals.len() ==> sized((#[trigger] finals[i]).1, 27),
    ensures
        forall|i: int|
            0 <= i < split_finals(finals, states, m, s).len() ==> sized(
                (#[trigger] split_finals(finals, states, m, s)[i]).1,
                27,
            ),
    decreases s,
{
    if s > 0 {
        split_finals_are_small(finals, states, m, s - 1);
        final_cost_is_listed(finals, (s - 1) as u32);
        let rest = split_finals(finals, states, m, s - 1);
        let all = split_finals(finals, states, m, s);
        assert forall|i: int| 0 <= i < all.len() implies sized((#[trigger] all[i]).1, 27) by {
            if i < rest.len() {
                assert(all[i] == rest[i]);
            }
        }
    }
}

proof fn final_cost_is_listed(finals: Seq<(u32, u32)>, s: u32)
    requires
        forall|i: int| 0 <= i < finals.len() ==> sized((#[trigger] finals[i]).1, 27),
    ensures
        final_cost_of(finals, s) matches Some(c) ==> sized(c, 27),
    decreases finals.len(),
{
    if finals.len() > 0 {
        let rest = finals.drop_first();
        assert forall|i: int| 0 <= i < rest.len() implies sized((#[trigger] rest[i]).1, 27) by {
            assert(rest[i] == finals[i + 1]);
        }
        assert(sized(finals[0].1, 27));
        final_cost_is_listed(rest, s);
    }
}

/// A graph with proper options and pronunciations over a model without probabilities of zero has
/// finite costs only, on its arcs and at its ends.
pub proof fn costs_are_finite<F: Fn(FloatOp) -> u64>(su: Setup, words: Seq<Seq<PronView>>, f: F)
    requires
        is_proper_setup(su, f),
        are_proper_words(words),
        is_sized_model(su.m),
        su.m.tuples.len() <= u32::MAX,
        graph_of(su, words, f) is Some,
    ensures
        ({
            let g = graph_of(su, words, f)->0;
            &&& forall|s: int, k: int|
                0 <= s < g.states.len() && 0 <= k < g.states[s].len() ==> is_finite_bits(
                    (#[trigger] g.states[s][k]).cost,
                )
            &&& forall|i: int|
                0 <= i < g.finals.len() ==> is_finite_bits((#[trigger] g.finals[i]).1)
        }),
{
    let m = su.m;
    let (states, finals) = draft_of(su, words, f)->0;
    draft_ends(su, words, f);
    let d = drafted(states, finals);
    let looped = self_looped(d, m);
    let g = graph_of(su, words, f)->0;
    let cut = split(states, m);
    let all = split_finals(finals, states, m, states.len() as int);
    sources_exist(states, m, states.len() as int);
    assert forall|s: int, k: int|
        0 <= s < g.states.len() && 0 <= k < g.states[s].len() implies is_finite_bits(
        (#[trigger] g.states[s][k]).cost,
    ) by {
        let a = looped.states[s][k];
        recorded_is_a_state(states, m, s);
        assert(looped.states[s] == cut[s] + loop_arc(looped.state_in[s], s, m));
        if k < cut[s].len() {
            let from = source(states, m, s);
            assert(cut[s] == redirected_all(states, m, states[from]));
            assert(arc_fits(states[from][k], states.len() as int, m));
            assert(sized(states[from][k].lm, 27));
        } else {
            self_loops_loop(m, looped.state_in[s]->0 as int);
        }
        arc_cost_is_finite(a, s, looped.state_in[s], m, su.opts, f);
    }
    split_finals_are_small(finals, states, m, states.len() as int);
    assert forall|i: int| 0 <= i < finals.len() implies (#[trigger] finals[i]).0 < states.len() by {
        assert(final_places(finals)[i] < states.len());
    }
    assert(final_places(finals)[0] < states.len());
    split_finals_facts(finals, states, m, states.len() as int, final_places(finals)[0]);
    assert forall|i: int| 0 <= i < g.finals.len() implies is_finite_bits((#[trigger] g.finals[i]).1) by {
        let s = all[i].0 as int;
        assert(all[i].0 < split_len(states, m));
        recorded_is_a_state(states, m, s);
        let leaving = leaving_cost(looped.state_in[s], m, su.opts.self_loop_scale, f);
        leaving_cost_is_small(looped.state_in[s], m, su.opts.self_loop_scale, f);
        assert(sized(all[i].1, 27));
        assert(sized(all[i].1, 40));
        assert(sized(value(f, FloatOp::Add(all[i].1, leaving)), 41));
    }
}

/// A left-to-right phone can be passed.
pub proof fn bakis_is_passable(n: int)
    requires
        1 <= n < usize::MAX,
    ensures
        is_passable(bakis_prototype(n)),
{
    let states = bakis_prototype(n);
    assert forall|s: int| 0 <= s < states.len() implies #[trigger] gets_out(states, s) by {
        bakis_moves_on(n, s);
    }
}

proof fn bakis_moves_on(n: int, s: int)
    requires
        1 <= n < usize::MAX,
        0 <= s <= n,
    ensures
        walks_out(bakis_prototype(n), s, (n - s) as nat),
    decreases n - s,
{
    let states = bakis_prototype(n);
    if s < n {
        bakis_moves_on(n, s + 1);
        let k = states[s].transitions.len() - 1;
        assert(states[s].transitions[k].0 == s + 1);
    }
}

/// A silence phone of three states or more can be passed.
pub proof fn silence_is_passable<F: Fn(FloatOp) -> u64>(n: int, f: F)
    requires
        3 <= n < usize::MAX,
        is_positive(value(f, FloatOp::Div(ONE, value(f, FloatOp::Count((n - 1) as u64))))),
    ensures
        is_passable(silence_prototype(n, f)),
{
    let states = silence_prototype(n, f);
    assert(walks_out(states, n, 0));
    assert(states[n - 1].transitions[1].0 == n);
    assert(walks_out(states, n - 1, 1));
    assert forall|s: int| 1 <= s < n - 1 implies #[trigger] walks_out(states, s, 2) by {
        assert(states[s].transitions[n - 2].0 == n - 1);
        assert(walks_out(states, n - 1, (2 - 1) as nat));
    }
    assert(states[0].transitions[1].0 == 1);
    assert(walks_out(states, 1, (3 - 1) as nat));
    assert(walks_out(states, 0, 3));
    assert forall|s: int| 0 <= s < states.len() implies #[trigger] gets_out(states, s) by {
        assert(s == 0 || s == n || s == n - 1 || walks_out(states, s, 2));
    }
}

} // verus!
