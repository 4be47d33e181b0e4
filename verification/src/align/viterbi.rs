//! Beam search for the best path of an utterance through its graph.
//!
//! At most one token waits at each graph state. A frame first moves the tokens along the arcs that
//! emit, adding the acoustic cost, and then closes over the epsilon arcs. Tokens beyond the cutoff
//! are dropped; the cutoff adapts so that neither too many nor too few tokens stay. If no final
//! state is reached, the search is repeated with a wider beam.

use vstd::prelude::*;

use crate::float::{
    eq, eval, eval_wide, is_evaluator, is_wide_finite, is_wide_finite_bits, is_wide_nan_bits, less,
    lt, neg, negated, same, total_lt, total_order_extends_less, total_order_is_injective,
    total_rank, value, wide_at_most, wide_le, wide_less, wide_lt, wide_neg, wide_negated,
    wide_position, wide_value, FloatOp, WIDE_INFINITY, WIDE_ZERO, ZERO,
};
use crate::gmm::matrix::Matrix;
use crate::hmm::context::{count_of, counts};
use crate::hmm::graph::{
    arc_fits, arcs_fit, final_cost_of, Arc, Graph, GraphView, HALF, NO_PRON, NO_WORD, TENTH,
};
use crate::hmm::transition::{pdf_of, ModelView, TransitionModel};
use crate::types::{Alignment, PdfId, TransitionId, WordId};

verus! {

/// Single-precision 10.
pub const TEN: u32 = 0x4120_0000;

/// Single-precision 40.
pub const FORTY: u32 = 0x4220_0000;

/// How to search. The beams and the scale are single-precision bits.
#[derive(Clone, Copy, Debug, PartialEq, Eq, Structural)]
pub struct AlignOptions {
    pub beam: u32,
    pub retry_beam: u32,
    pub acoustic_scale: u32,
    pub max_active: usize,
    pub min_active: usize,
    /// What an adapted beam is widened by.
    pub beam_delta: u32,
}

impl Default for AlignOptions {
    fn default() -> (r: Self)
        ensures
            r == (AlignOptions {
                beam: TEN,
                retry_beam: FORTY,
                acoustic_scale: TENTH,
                max_active: usize::MAX,
                min_active: 20,
                beam_delta: HALF,
            }),
    {
        AlignOptions {
            beam: TEN,
            retry_beam: FORTY,
            acoustic_scale: TENTH,
            max_active: usize::MAX,
            min_active: 20,
            beam_delta: HALF,
        }
    }
}

/// `t` is increasing in the total order of double-precision patterns.
pub open spec fn is_ranked(t: Seq<u64>) -> bool {
    forall|i: int, j: int|
        0 <= i <= j < t.len() ==> total_rank(#[trigger] t[i]) <= total_rank(#[trigger] t[j])
}

/// The patterns of `s` in the total order.
pub open spec fn ranked(s: Seq<u64>) -> Seq<u64> {
    choose|t: Seq<u64>| #[trigger] is_ranked(t) && t.to_multiset() == s.to_multiset()
}

/// A ranked sequence is determined by what it holds.
proof fn ranked_is_unique(a: Seq<u64>, b: Seq<u64>)
    requires
        is_ranked(a),
        is_ranked(b),
        a.to_multiset() == b.to_multiset(),
    ensures
        a == b,
    decreases a.len(),
{
    broadcast use vstd::seq_lib::group_to_multiset_ensures;

    assert(a.to_multiset().len() == a.len());
    assert(b.to_multiset().len() == b.len());
    if a.len() > 0 {
        let x = a.last();
        let y = b.last();
        assert(a.contains(x));
        assert(a.to_multiset().count(x) > 0);
        assert(b.to_multiset().count(x) > 0);
        assert(b.contains(x));
        assert(b.contains(y));
        assert(b.to_multiset().count(y) > 0);
        assert(a.to_multiset().count(y) > 0);
        assert(a.contains(y));
        let i = choose|i: int| 0 <= i < b.len() && b[i] == x;
        let j = choose|j: int| 0 <= j < a.len() && a[j] == y;
        assert(total_rank(b[i]) <= total_rank(b[b.len() - 1]));
        assert(total_rank(a[j]) <= total_rank(a[a.len() - 1]));
        total_order_is_injective(x, y);
        assert(a =~= a.drop_last().push(x));
        assert(b =~= b.drop_last().push(x));
        assert(a.drop_last().to_multiset() =~= a.to_multiset().remove(x));
        assert(b.drop_last().to_multiset() =~= b.to_multiset().remove(x));
        assert(is_ranked(a.drop_last()));
        assert(is_ranked(b.drop_last()));
        ranked_is_unique(a.drop_last(), b.drop_last());
    } else {
        assert(a =~= b);
    }
}

/// Every sequence can be ranked.
proof fn ranked_exists(s: Seq<u64>)
    ensures
        is_ranked(ranked(s)),
        ranked(s).to_multiset() == s.to_multiset(),
{
    let leq = |a: u64, b: u64| total_rank(a) <= total_rank(b);
    assert forall|a: u64, b: u64| #[trigger] leq(a, b) && #[trigger] leq(b, a) implies a == b by {
        total_order_is_injective(a, b);
    }
    s.lemma_sort_by_ensures(leq);
    let t = s.sort_by(leq);
    assert forall|i: int, j: int| 0 <= i <= j < t.len() implies total_rank(#[trigger] t[i])
        <= total_rank(#[trigger] t[j]) by {
        if i < j {
            assert(leq(t[i], t[j]));
        }
    }
    assert(is_ranked(t) && t.to_multiset() == s.to_multiset());
}

/// Put the patterns into the total order.
pub fn rank_all(v: &Vec<u64>) -> (r: Vec<u64>)
    ensures
        r@ == ranked(v@),
        is_ranked(r@),
        r@.to_multiset() == v@.to_multiset(),
        r@.len() == v@.len(),
{
    broadcast use vstd::seq_lib::group_to_multiset_ensures;

    let mut out: Vec<u64> = Vec::new();
    let mut i: usize = 0;
    while i < v.len()
        invariant
            i <= v@.len(),
            out@.len() == i,
            is_ranked(out@),
            out@.to_multiset() == v@.take(i as int).to_multiset(),
        decreases v.len() - i,
    {
        broadcast use vstd::seq_lib::group_to_multiset_ensures;

        let x: u64 = v[i];
        let mut lo: usize = 0;
        let mut hi: usize = out.len();
        while lo < hi
            invariant
                lo <= hi <= out@.len(),
                is_ranked(out@),
                forall|k: int| 0 <= k < lo ==> total_rank(#[trigger] out@[k]) <= total_rank(x),
                forall|k: int|
                    hi <= k < out@.len() ==> total_rank(x) < total_rank(#[trigger] out@[k]),
            decreases hi - lo,
        {
            let mid: usize = lo + (hi - lo) / 2;
            if total_lt(x, out[mid]) {
                hi = mid;
            } else {
                lo = mid + 1;
            }
        }
        let ghost before = out@;
        out.insert(lo, x);
        proof {
            assert(out@ == before.insert(lo as int, x));
            assert forall|a: int, b: int| 0 <= a <= b < out@.len() implies total_rank(
                #[trigger] out@[a],
            ) <= total_rank(#[trigger] out@[b]) by {
                let a0 = if a <= lo {
                    a
                } else {
                    a - 1
                };
                let b0 = if b <= lo {
                    b
                } else {
                    b - 1
                };
                if a != lo {
                    assert(out@[a] == before[a0]);
                }
                if b != lo {
                    assert(out@[b] == before[b0]);
                }
            }
            assert(out@.remove(lo as int) =~= before);
            assert(out@[lo as int] == x);
            assert(out@.contains(x));
            assert(out@.to_multiset() =~= before.to_multiset().insert(x));
            assert(v@.take(i + 1) =~= v@.take(i as int).push(x));
        }
        i += 1;
    }
    proof {
        assert(v@.take(i as int) =~= v@);
        assert(is_ranked(out@) && out@.to_multiset() == v@.to_multiset());
        let r = ranked(v@);
        assert(is_ranked(r) && r.to_multiset() == v@.to_multiset());
        ranked_is_unique(out@, r);
    }
    out
}

/// The least of the first `n` costs; infinity where there is none.
pub open spec fn best_cost(costs: Seq<u64>, n: int) -> u64
    decreases n,
{
    if n <= 0 {
        WIDE_INFINITY
    } else if wide_less(costs[n - 1], best_cost(costs, n - 1)) {
        costs[n - 1]
    } else {
        best_cost(costs, n - 1)
    }
}

/// Where the least of the first `n` costs stands, the first place on ties.
pub open spec fn best_place(costs: Seq<u64>, n: int) -> Option<int>
    decreases n,
{
    if n <= 0 {
        None
    } else if wide_less(costs[n - 1], best_cost(costs, n - 1)) {
        Some(n - 1)
    } else {
        best_place(costs, n - 1)
    }
}

/// The cutoff by the ordinary beam.
pub open spec fn beam_cutoff<F: Fn(FloatOp) -> u64>(costs: Seq<u64>, beam: u32, f: F) -> u64 {
    wide_value(
        f,
        FloatOp::AddWide(
            best_cost(costs, costs.len() as int),
            wide_value(f, FloatOp::Widen(beam)),
        ),
    )
}

/// The beam that belongs to an adapted cutoff.
pub open spec fn adapted_beam<F: Fn(FloatOp) -> u64>(cutoff: u64, best: u64, delta: u32, f: F) -> u32 {
    value(
        f,
        FloatOp::Add(
            value(f, FloatOp::Narrow(wide_value(f, FloatOp::SubWide(cutoff, best)))),
            delta,
        ),
    )
}

/// The cost that the most tokens allowed would leave as the first one out.
pub open spec fn max_active_cutoff(costs: Seq<u64>, max_active: usize) -> u64 {
    if costs.len() > max_active {
        ranked(costs)[max_active as int]
    } else {
        WIDE_INFINITY
    }
}

/// The cost that the fewest tokens wanted would leave as the first one out.
pub open spec fn min_active_cutoff(costs: Seq<u64>, min_active: usize, max_active: usize) -> u64 {
    if costs.len() <= min_active {
        WIDE_INFINITY
    } else if min_active == 0 {
        best_cost(costs, costs.len() as int)
    } else if costs.len() <= max_active || min_active < max_active {
        ranked(costs)[min_active as int]
    } else {
        WIDE_INFINITY
    }
}

/// The cutoff and the beam for a frontier with these costs: tightened where more than the allowed
/// number of tokens would stay, widened where fewer than the wanted number would, by the beam
/// otherwise.
pub open spec fn cutoff_of<F: Fn(FloatOp) -> u64>(costs: Seq<u64>, opts: AlignOptions, beam: u32, f: F) -> (
    u64,
    u32,
) {
    let best = best_cost(costs, costs.len() as int);
    let ordinary = beam_cutoff(costs, beam, f);
    let high = max_active_cutoff(costs, opts.max_active);
    let low = min_active_cutoff(costs, opts.min_active, opts.max_active);
    if opts.max_active == usize::MAX && opts.min_active == 0 {
        (ordinary, beam)
    } else if wide_less(high, ordinary) {
        (high, adapted_beam(high, best, opts.beam_delta, f))
    } else if wide_less(ordinary, low) {
        (low, adapted_beam(low, best, opts.beam_delta, f))
    } else {
        (ordinary, beam)
    }
}

/// How many of the costs lie within the cutoff.
spec fn within(costs: Seq<u64>, cutoff: u64) -> nat
    decreases costs.len(),
{
    if costs.len() == 0 {
        0
    } else {
        within(costs.drop_last(), cutoff) + if wide_at_most(costs.last(), cutoff) {
            1nat
        } else {
            0nat
        }
    }
}

proof fn within_without(costs: Seq<u64>, cutoff: u64, i: int)
    requires
        0 <= i < costs.len(),
    ensures
        within(costs, cutoff) == within(costs.remove(i), cutoff) + if wide_at_most(
            costs[i],
            cutoff,
        ) {
            1nat
        } else {
            0nat
        },
    decreases costs.len(),
{
    if i == costs.len() - 1 {
        assert(costs.remove(i) =~= costs.drop_last());
    } else {
        within_without(costs.drop_last(), cutoff, i);
        assert(costs.remove(i).drop_last() =~= costs.drop_last().remove(i));
        assert(costs.remove(i).last() == costs.last());
    }
}

proof fn within_is_of_the_multiset(a: Seq<u64>, b: Seq<u64>, cutoff: u64)
    requires
        a.to_multiset() == b.to_multiset(),
    ensures
        within(a, cutoff) == within(b, cutoff),
    decreases a.len(),
{
    broadcast use vstd::seq_lib::group_to_multiset_ensures;

    assert(a.to_multiset().len() == a.len());
    assert(b.to_multiset().len() == b.len());
    if a.len() > 0 {
        let x = a.last();
        assert(a.contains(x));
        assert(a.to_multiset().count(x) > 0);
        assert(b.to_multiset().count(x) > 0);
        assert(b.contains(x));
        let i = choose|i: int| 0 <= i < b.len() && b[i] == x;
        assert(a.drop_last().push(x) =~= a);
        assert(a.drop_last().to_multiset() =~= a.to_multiset().remove(x));
        assert(b.remove(i).to_multiset() =~= b.to_multiset().remove(x));
        within_is_of_the_multiset(a.drop_last(), b.remove(i), cutoff);
        within_without(b, cutoff, i);
    }
}

proof fn within_a_prefix(costs: Seq<u64>, cutoff: u64, k: int)
    requires
        0 <= k <= costs.len(),
        forall|j: int| k <= j < costs.len() ==> !wide_at_most(#[trigger] costs[j], cutoff),
    ensures
        within(costs, cutoff) <= k,
    decreases costs.len(),
{
    if costs.len() > 0 {
        if k == costs.len() {
            within_a_prefix(costs.drop_last(), cutoff, k - 1);
        } else {
            within_a_prefix(costs.drop_last(), cutoff, k);
        }
    }
}

/// Where more than `k` costs lie within the cutoff, the `k`-th of them in order does not lie beyond.
proof fn enough_within(costs: Seq<u64>, cutoff: u64, k: int)
    requires
        0 <= k < costs.len(),
        within(costs, cutoff) > k,
        is_ranked(ranked(costs)),
        ranked(costs).to_multiset() == costs.to_multiset(),
    ensures
        !wide_less(cutoff, ranked(costs)[k]),
{
    broadcast use vstd::seq_lib::group_to_multiset_ensures;

    let r = ranked(costs);
    assert(r.to_multiset().len() == r.len());
    assert(costs.to_multiset().len() == costs.len());
    within_is_of_the_multiset(costs, r, cutoff);
    if wide_less(cutoff, r[k]) {
        assert forall|j: int| k <= j < r.len() implies !wide_at_most(#[trigger] r[j], cutoff) by {
            if wide_at_most(r[j], cutoff) {
                total_order_extends_less(r[j], r[k]);
                assert(total_rank(r[k]) <= total_rank(r[j]));
            }
        }
        within_a_prefix(r, cutoff, k);
    }
}

proof fn best_is_least(costs: Seq<u64>, n: int, i: int)
    requires
        0 <= i < n <= costs.len(),
    ensures
        !wide_less(costs[i], best_cost(costs, n)),
        !is_wide_nan_bits(best_cost(costs, n)),
    decreases n,
{
    best_is_a_number(costs, n);
    best_is_a_number(costs, n - 1);
    if i < n - 1 {
        best_is_least(costs, n - 1, i);
    }
}

proof fn best_is_a_number(costs: Seq<u64>, n: int)
    ensures
        !is_wide_nan_bits(best_cost(costs, n)),
    decreases n,
{
    if n > 0 {
        best_is_a_number(costs, n - 1);
    }
}

proof fn some_within(costs: Seq<u64>, cutoff: u64) -> (i: int)
    requires
        within(costs, cutoff) > 0,
    ensures
        0 <= i < costs.len(),
        wide_at_most(costs[i], cutoff),
    decreases costs.len(),
{
    if wide_at_most(costs.last(), cutoff) {
        costs.len() - 1
    } else {
        some_within(costs.drop_last(), cutoff)
    }
}

proof fn within_grows(costs: Seq<u64>, cutoff: u64, k: int)
    requires
        0 <= k <= costs.len(),
    ensures
        within(costs.take(k), cutoff) <= within(costs, cutoff),
    decreases costs.len(),
{
    if k < costs.len() {
        within_grows(costs.drop_last(), cutoff, k);
        assert(costs.drop_last().take(k) =~= costs.take(k));
    } else {
        assert(costs.take(k) =~= costs);
    }
}

/// Whether more than `k` of the costs lie within the cutoff.
fn has_enough(costs: &Vec<u64>, cutoff: u64, k: usize) -> (r: bool)
    ensures
        r == (within(costs@, cutoff) > k),
{
    let mut found: usize = 0;
    let mut i: usize = 0;
    assert(costs@.take(0) =~= Seq::empty());
    while i < costs.len()
        invariant
            i <= costs@.len(),
            found <= i,
            found == within(costs@.take(i as int), cutoff),
            found <= k,
        decreases costs.len() - i,
    {
        proof {
            assert(costs@.take(i + 1).drop_last() =~= costs@.take(i as int));
            assert(costs@.take(i + 1).last() == costs@[i as int]);
        }
        if wide_le(costs[i], cutoff) {
            found += 1;
            if found > k {
                proof {
                    within_grows(costs@, cutoff, i + 1);
                }
                return true;
            }
        }
        i += 1;
    }
    assert(costs@.take(i as int) =~= costs@);
    false
}

/// A token waits at a graph state: how it came there, and at what cost.
pub struct Held {
    /// Where the token stands in the arena.
    pub token: usize,
    pub cost: u64,
}

/// The tokens of a frame.
#[verifier::ext_equal]
pub struct Frontier {
    /// The token at each graph state, if there is one.
    pub held: Seq<Option<Held>>,
    /// The graph states in the order in which they got their first token.
    pub states: Seq<u32>,
}

/// A step of a path: the token before, the arc taken, and the acoustic cost of it.
#[derive(Clone, Copy, Debug, PartialEq, Eq, Structural)]
pub struct Token {
    /// The token before, or `usize::MAX` for the start.
    pub prev: usize,
    pub arc: Arc,
    /// Single-precision bits.
    pub ac_cost: u32,
}

/// The tokens of all frames.
#[derive(Debug)]
pub struct Arena {
    pub toks: Vec<Token>,
}

impl Arena {
    pub fn new() -> (r: Self)
        ensures
            r.toks@ == Seq::<Token>::empty(),
    {
        Arena { toks: Vec::new() }
    }

    pub fn push(&mut self, t: Token) -> (r: usize)
        ensures
            final(self).toks@ == old(self).toks@.push(t),
            r == old(self).toks@.len(),
            r < usize::MAX,
    {
        self.toks.push(t);
        self.toks.len() - 1
    }
}

/// No tokens at any of `n` states.
pub open spec fn no_tokens(n: nat) -> Frontier {
    Frontier { held: Seq::new(n, |s: int| None), states: Seq::empty() }
}

/// The frontier and the arena after a token is offered to `state`: taken if the state has none, or
/// one that costs more.
pub open spec fn inserted(fr: Frontier, arena: Seq<Token>, state: u32, token: Token, cost: u64) -> Option<
    (Frontier, Seq<Token>),
> {
    let taken = Some(Held { token: arena.len() as usize, cost });
    match fr.held[state as int] {
        None => Some(
            (
                Frontier {
                    held: fr.held.update(state as int, taken),
                    states: fr.states.push(state),
                },
                arena.push(token),
            ),
        ),
        Some(h) => if wide_less(cost, h.cost) {
            Some(
                (
                    Frontier { held: fr.held.update(state as int, taken), ..fr },
                    arena.push(token),
                ),
            )
        } else {
            None
        },
    }
}

/// The tokens of a frame: at most one for each graph state.
#[derive(Debug)]
pub struct Active {
    /// Where the token of each graph state stands in the arena, `usize::MAX` for none.
    pub slot: Vec<usize>,
    /// The cost of each state's token.
    pub cost: Vec<u64>,
    /// The states that have one.
    pub states: Vec<u32>,
}

impl View for Active {
    type V = Frontier;

    open spec fn view(&self) -> Frontier {
        Frontier {
            held: Seq::new(
                self.slot@.len(),
                |s: int|
                    if self.slot@[s] == usize::MAX {
                        None
                    } else {
                        Some(Held { token: self.slot@[s], cost: self.cost@[s] })
                    },
            ),
            states: self.states@,
        }
    }
}

impl Active {
    /// The tables cover the same states, and every state with a token is listed.
    pub open spec fn wf(&self) -> bool {
        &&& self.cost@.len() == self.slot@.len()
        &&& forall|i: int|
            0 <= i < self.states@.len() ==> (#[trigger] self.states@[i]) < self.slot@.len()
        &&& forall|s: int|
            0 <= s < self.slot@.len() && #[trigger] self.slot@[s] != usize::MAX
                ==> self.states@.contains(s as u32)
        &&& self.slot@.len() <= u32::MAX + 1
    }

    pub fn new(num_states: usize) -> (r: Self)
        requires
            num_states <= u32::MAX + 1,
        ensures
            r.wf(),
            r@ == no_tokens(num_states as nat),
    {
        let mut slot: Vec<usize> = Vec::new();
        let mut cost: Vec<u64> = Vec::new();
        let mut i: usize = 0;
        while i < num_states
            invariant
                i <= num_states,
                slot@.len() == i,
                cost@.len() == i,
                forall|s: int| 0 <= s < i ==> #[trigger] slot@[s] == usize::MAX,
            decreases num_states - i,
        {
            slot.push(usize::MAX);
            cost.push(WIDE_INFINITY);
            i += 1;
        }
        let r = Active { slot, cost, states: Vec::new() };
        assert(r@ =~= no_tokens(num_states as nat));
        r
    }

    /// Drop all tokens.
    pub fn clear(&mut self)
        requires
            old(self).wf(),
        ensures
            final(self).wf(),
            final(self)@ == no_tokens(old(self)@.held.len()),
    {
        let n: usize = self.states.len();
        let mut i: usize = 0;
        while i < n
            invariant
                n == self.states@.len(),
                self.states@ == old(self).states@,
                self.cost@ == old(self).cost@,
                self.slot@.len() == old(self).slot@.len(),
                old(self).wf(),
                i <= n,
                forall|s: int|
                    0 <= s < self.slot@.len() && #[trigger] self.slot@[s] != usize::MAX
                        ==> old(self).slot@[s] != usize::MAX,
                forall|k: int|
                    0 <= k < i ==> self.slot@[#[trigger] self.states@[k] as int] == usize::MAX,
            decreases n - i,
        {
            let s: usize = self.states[i] as usize;
            assert(old(self).states@[i as int] < old(self).slot@.len());
            self.slot.set(s, usize::MAX);
            i += 1;
        }
        proof {
            assert forall|s: int| 0 <= s < self.slot@.len() implies #[trigger] self.slot@[s]
                == usize::MAX by {
                if self.slot@[s] != usize::MAX {
                    assert(old(self).slot@[s] != usize::MAX);
                    assert(old(self).states@.contains(s as u32));
                    let k = choose|k: int|
                        0 <= k < old(self).states@.len() && old(self).states@[k] == s as u32;
                    assert(self.slot@[self.states@[k] as int] == usize::MAX);
                }
            }
        }
        self.states.clear();
        assert(self@ =~= no_tokens(old(self)@.held.len()));
    }

    /// The token at a state.
    pub fn get(&self, state: u32) -> (r: Option<usize>)
        requires
            self.wf(),
            state < self@.held.len(),
        ensures
            match self@.held[state as int] {
                Some(h) => r == Some(h.token),
                None => r is None,
            },
    {
        let i: usize = self.slot[state as usize];
        if i == usize::MAX {
            None
        } else {
            Some(i)
        }
    }

    /// Offer a token to a state. Only a token that is taken enters the arena, and on a tie the
    /// earlier one stays.
    pub fn insert(&mut self, arena: &mut Arena, state: u32, token: Token, cost: u64) -> (r: bool)
        requires
            old(self).wf(),
            state < old(self)@.held.len(),
        ensures
            final(self).wf(),
            match inserted(old(self)@, old(arena).toks@, state, token, cost) {
                Some(x) => r && final(self)@ == x.0 && final(arena).toks@ == x.1,
                None => !r && *final(self) == *old(self) && *final(arena) == *old(arena),
            },
    {
        let s: usize = state as usize;
        let ghost before = self@;
        if self.slot[s] == usize::MAX {
            self.states.push(state);
        } else if !wide_lt(cost, self.cost[s]) {
            return false;
        }
        let at: usize = arena.push(token);
        self.slot.set(s, at);
        self.cost.set(s, cost);
        proof {
            let old_states = old(self).states@;
            if before.held[s as int] is None {
                assert(self.states@ == old_states.push(state));
                assert(self.states@[old_states.len() as int] == state);
            }
            assert forall|k: int|
                0 <= k < self.slot@.len() && #[trigger] self.slot@[k] != usize::MAX
                implies self.states@.contains(k as u32) by {
                if k == s {
                    if before.held[s as int] is Some {
                        assert(old(self).slot@[s as int] != usize::MAX);
                        assert(old_states.contains(s as u32));
                    } else {
                        assert(self.states@[old_states.len() as int] == k as u32);
                    }
                } else {
                    assert(old(self).slot@[k] != usize::MAX);
                    assert(old_states.contains(k as u32));
                    let j = choose|j: int| 0 <= j < old_states.len() && old_states[j] == k as u32;
                    assert(self.states@[j] == k as u32);
                }
            }
            let want = inserted(before, old(arena).toks@, state, token, cost)->0;
            assert(self@.held =~= want.0.held);
            assert(self@.states =~= want.0.states);
        }
        true
    }
}

/// The first `k` arcs that emit, each with its score column.
pub open spec fn emitting_arcs<G: Fn(PdfId) -> usize>(arcs: Seq<Arc>, m: ModelView, col: G, k: int) -> Seq<
    (Arc, usize),
>
    decreases k,
{
    if k <= 0 {
        Seq::empty()
    } else {
        let rest = emitting_arcs(arcs, m, col, k - 1);
        let a = arcs[k - 1];
        if a.tid != 0 {
            rest.push((a, count_of(col, pdf_of(m.topo, m.tuples, a.tid as int))))
        } else {
            rest
        }
    }
}

/// The epsilon arcs among the first `k`.
pub open spec fn epsilon_arcs(arcs: Seq<Arc>, k: int) -> Seq<Arc>
    decreases k,
{
    if k <= 0 {
        Seq::empty()
    } else if arcs[k - 1].tid == 0 {
        epsilon_arcs(arcs, k - 1).push(arcs[k - 1])
    } else {
        epsilon_arcs(arcs, k - 1)
    }
}

/// The arcs of a state, those that emit apart from the others.
#[derive(Debug)]
pub struct PreparedState {
    /// The arcs that emit and their score columns.
    pub emitting: Vec<(Arc, usize)>,
    pub epsilon: Vec<Arc>,
}

/// What a prepared state is.
#[verifier::ext_equal]
pub struct Ways {
    pub emitting: Seq<(Arc, usize)>,
    pub epsilon: Seq<Arc>,
}

/// The ways out of each state.
pub open spec fn ways_of(states: Seq<PreparedState>) -> Seq<Ways> {
    Seq::new(
        states.len(),
        |s: int| Ways { emitting: states[s].emitting@, epsilon: states[s].epsilon@ },
    )
}

/// The ways out of each state of a graph.
pub open spec fn prepared<G: Fn(PdfId) -> usize>(g: GraphView, m: ModelView, col: G) -> Seq<Ways> {
    Seq::new(
        g.states.len(),
        |s: int|
            Ways {
                emitting: emitting_arcs(g.states[s], m, col, g.states[s].len() as int),
                epsilon: epsilon_arcs(g.states[s], g.states[s].len() as int),
            },
    )
}

/// A graph with its arcs sorted and the score columns looked up.
#[derive(Debug)]
pub struct PreparedGraph<'a> {
    pub graph: &'a Graph,
    pub states: Vec<PreparedState>,
}

/// The ways are those of the graph: what emits carries an id and a column below `cols`, what does
/// not carries none, and all lead to states of the graph.
pub open spec fn ways_fit(ways: Seq<Ways>, states: Seq<Seq<Arc>>, cols: int) -> bool {
    &&& ways.len() == states.len()
    &&& forall|s: int, k: int|
        0 <= s < ways.len() && 0 <= k < ways[s].emitting.len() ==> {
            let w = #[trigger] ways[s].emitting[k];
            w.0.tid != 0 && w.0.next < states.len() && w.1 < cols && states[s].contains(w.0)
        }
    &&& forall|s: int, k: int|
        0 <= s < ways.len() && 0 <= k < ways[s].epsilon.len() ==> {
            let a = #[trigger] ways[s].epsilon[k];
            a.tid == 0 && a.next < states.len() && states[s].contains(a)
        }
}

/// The score columns of the graph's pdfs are known, and lie below `cols`.
pub open spec fn columns_fit<G: Fn(PdfId) -> usize>(g: GraphView, m: ModelView, col: G, cols: int) -> bool {
    forall|s: int, k: int|
        0 <= s < g.states.len() && 0 <= k < g.states[s].len() && (#[trigger] g.states[s][k]).tid != 0
            ==> {
            let pdf = pdf_of(m.topo, m.tuples, g.states[s][k].tid as int);
            counts(col, pdf) && count_of(col, pdf) < cols
        }
}

/// The score columns of the graph's pdfs are known.
pub open spec fn columns_known<G: Fn(PdfId) -> usize>(g: GraphView, m: ModelView, col: G) -> bool {
    forall|s: int, k: int|
        0 <= s < g.states.len() && 0 <= k < g.states[s].len() && (#[trigger] g.states[s][k]).tid != 0
            ==> counts(col, pdf_of(m.topo, m.tuples, g.states[s][k].tid as int))
}

proof fn ways_of_state_fit<G: Fn(PdfId) -> usize>(
    g: GraphView,
    m: ModelView,
    col: G,
    cols: int,
    s: int,
    k: int,
)
    requires
        arcs_fit(g.states, m),
        columns_fit(g, m, col, cols),
        0 <= s < g.states.len(),
        0 <= k <= g.states[s].len(),
    ensures
        forall|j: int|
            0 <= j < emitting_arcs(g.states[s], m, col, k).len() ==> {
                let w = #[trigger] emitting_arcs(g.states[s], m, col, k)[j];
                w.0.tid != 0 && w.0.next < g.states.len() && w.1 < cols && g.states[s].contains(w.0)
            },
        forall|j: int|
            0 <= j < epsilon_arcs(g.states[s], k).len() ==> {
                let a = #[trigger] epsilon_arcs(g.states[s], k)[j];
                a.tid == 0 && a.next < g.states.len() && g.states[s].contains(a)
            },
    decreases k,
{
    if k > 0 {
        ways_of_state_fit(g, m, col, cols, s, k - 1);
        let a = g.states[s][k - 1];
        assert(arc_fits(a, g.states.len() as int, m));
        assert(g.states[s].contains(a));
        let e = emitting_arcs(g.states[s], m, col, k - 1);
        assert forall|j: int| 0 <= j < emitting_arcs(g.states[s], m, col, k).len() implies {
            let w = #[trigger] emitting_arcs(g.states[s], m, col, k)[j];
            w.0.tid != 0 && w.0.next < g.states.len() && w.1 < cols && g.states[s].contains(w.0)
        } by {
            if j < e.len() {
                assert(emitting_arcs(g.states[s], m, col, k)[j] == e[j]);
            }
        }
        let n = epsilon_arcs(g.states[s], k - 1);
        assert forall|j: int| 0 <= j < epsilon_arcs(g.states[s], k).len() implies {
            let a = #[trigger] epsilon_arcs(g.states[s], k)[j];
            a.tid == 0 && a.next < g.states.len() && g.states[s].contains(a)
        } by {
            if j < n.len() {
                assert(epsilon_arcs(g.states[s], k)[j] == n[j]);
            }
        }
    }
}

/// The ways out of the states of a graph are its arcs.
pub proof fn prepared_ways_fit<G: Fn(PdfId) -> usize>(
    g: GraphView,
    m: ModelView,
    col: G,
    cols: int,
)
    requires
        arcs_fit(g.states, m),
        columns_fit(g, m, col, cols),
    ensures
        ways_fit(prepared(g, m, col), g.states, cols),
{
    let ways = prepared(g, m, col);
    assert forall|s: int, k: int| 0 <= s < ways.len() && 0 <= k < ways[s].emitting.len() implies {
        let w = #[trigger] ways[s].emitting[k];
        w.0.tid != 0 && w.0.next < g.states.len() && w.1 < cols && g.states[s].contains(w.0)
    } by {
        ways_of_state_fit(g, m, col, cols, s, g.states[s].len() as int);
    }
    assert forall|s: int, k: int| 0 <= s < ways.len() && 0 <= k < ways[s].epsilon.len() implies {
        let a = #[trigger] ways[s].epsilon[k];
        a.tid == 0 && a.next < g.states.len() && g.states[s].contains(a)
    } by {
        ways_of_state_fit(g, m, col, cols, s, g.states[s].len() as int);
    }
}

impl<'a> PreparedGraph<'a> {
    pub fn new<G: Fn(PdfId) -> usize>(graph: &'a Graph, tm: &TransitionModel, pdf_col: &G) -> (r: Self)
        requires
            tm.wf(),
            arcs_fit(graph@.states, tm@),
            columns_known(graph@, tm@, *pdf_col),
        ensures
            r.graph == graph,
            ways_of(r.states@) == prepared(graph@, tm@, *pdf_col),
    {
        let ghost g = graph@.states;
        let ghost m = tm@;
        let mut states: Vec<PreparedState> = Vec::new();
        let n: usize = graph.states.len();
        let mut s: usize = 0;
        while s < n
            invariant
                tm.wf(),
                m == tm@,
                g == graph@.states,
                n == g.len(),
                n == graph.states@.len(),
                arcs_fit(g, m),
                columns_known(graph@, m, *pdf_col),
                s <= n,
                states@.len() == s,
                forall|i: int|
                    0 <= i < s ==> (#[trigger] ways_of(states@)[i]) == prepared(
                        graph@,
                        m,
                        *pdf_col,
                    )[i],
            decreases n - s,
        {
            let mut emitting: Vec<(Arc, usize)> = Vec::new();
            let mut epsilon: Vec<Arc> = Vec::new();
            let count: usize = graph.states[s].arcs.len();
            assert(g[s as int] == graph.states@[s as int].arcs@);
            let mut k: usize = 0;
            while k < count
                invariant
                    tm.wf(),
                    m == tm@,
                    g == graph@.states,
                    n == g.len(),
                    n == graph.states@.len(),
                    arcs_fit(g, m),
                    columns_known(graph@, m, *pdf_col),
                    s < n,
                    g[s as int] == graph.states@[s as int].arcs@,
                    count == g[s as int].len(),
                    k <= count,
                    emitting@ == emitting_arcs(g[s as int], m, *pdf_col, k as int),
                    epsilon@ == epsilon_arcs(g[s as int], k as int),
                decreases count - k,
            {
                let a: Arc = graph.states[s].arcs[k];
                assert(graph@.states[s as int][k as int] == a);
                assert(arc_fits(a, n as int, m));
                if a.tid != 0 {
                    let pdf: PdfId = tm.transition_id_to_pdf(a.tid);
                    assert(counts(*pdf_col, pdf));
                    let c: usize = pdf_col(pdf);
                    assert(c == count_of(*pdf_col, pdf));
                    emitting.push((a, c));
                } else {
                    epsilon.push(a);
                }
                k += 1;
            }
            let ghost before = ways_of(states@);
            states.push(PreparedState { emitting, epsilon });
            proof {
                assert forall|i: int| 0 <= i < s + 1 implies (#[trigger] ways_of(states@)[i])
                    == prepared(graph@, m, *pdf_col)[i] by {
                    if i < s {
                        assert(ways_of(states@)[i] == before[i]);
                    }
                }
            }
            s += 1;
        }
        assert(ways_of(states@) =~= prepared(graph@, m, *pdf_col));
        PreparedGraph { graph, states }
    }
}

/// The search through one utterance.
#[derive(Debug)]
pub struct Decoder<'a> {
    pub graph: &'a PreparedGraph<'a>,
    pub opts: AlignOptions,
    pub beam: u32,
    pub arena: Arena,
    pub cur: Active,
    pub next: Active,
}

/// The costs of the listed states.
pub open spec fn listed_costs(cost: Seq<u64>, states: Seq<u32>) -> Seq<u64> {
    Seq::new(states.len(), |i: int| cost[states[i] as int])
}

/// The costs of a frontier's tokens, in order.
pub open spec fn costs_of(fr: Frontier) -> Seq<u64> {
    Seq::new(fr.states.len(), |i: int| fr.held[fr.states[i] as int]->0.cost)
}

/// An epsilon arc offered from number `i` on, with what is taken put into the queue.
pub open spec fn relaxed<F: Fn(FloatOp) -> u64>(
    fr: Frontier,
    arena: Seq<Token>,
    queue: Seq<u32>,
    arcs: Seq<Arc>,
    i: int,
    from: Held,
    cutoff: u64,
    f: F,
) -> (Frontier, Seq<Token>, Seq<u32>)
    decreases arcs.len() - i,
{
    if i >= arcs.len() {
        (fr, arena, queue)
    } else {
        let a = arcs[i];
        let cost = wide_value(
            f,
            FloatOp::AddWide(from.cost, wide_value(f, FloatOp::Widen(a.cost))),
        );
        let token = Token { prev: from.token, arc: a, ac_cost: ZERO };
        if wide_less(cutoff, cost) {
            relaxed(fr, arena, queue, arcs, i + 1, from, cutoff, f)
        } else {
            match inserted(fr, arena, a.next, token, cost) {
                Some((fr1, arena1)) => relaxed(
                    fr1,
                    arena1,
                    queue.push(a.next),
                    arcs,
                    i + 1,
                    from,
                    cutoff,
                    f,
                ),
                None => relaxed(fr, arena, queue, arcs, i + 1, from, cutoff, f),
            }
        }
    }
}

/// How far a state is from the least cost that it can have.
pub open spec fn slack(h: Option<Held>) -> nat {
    match h {
        None => (2 * WIDE_INFINITY + 2) as nat,
        Some(x) => if is_wide_nan_bits(x.cost) {
            (2 * WIDE_INFINITY + 1) as nat
        } else {
            (wide_position(x.cost) + WIDE_INFINITY) as nat
        },
    }
}

/// How far the states are from the least costs that they can have, together.
pub open spec fn total_slack(held: Seq<Option<Held>>) -> nat
    decreases held.len(),
{
    if held.len() == 0 {
        0
    } else {
        total_slack(held.drop_last()) + slack(held.last())
    }
}

/// The frontier closed over the epsilon arcs: the states in the queue are taken from its end, and
/// what their arcs reach at a lower cost goes back into it.
pub open spec fn closed<F: Fn(FloatOp) -> u64>(
    fr: Frontier,
    arena: Seq<Token>,
    queue: Seq<u32>,
    ways: Seq<Ways>,
    cutoff: u64,
    f: F,
) -> (Frontier, Seq<Token>)
    decreases total_slack(fr.held), queue.len(),
{
    if queue.len() == 0 {
        (fr, arena)
    } else {
        let state = queue.last();
        match fr.held[state as int] {
            None => closed(fr, arena, queue.drop_last(), ways, cutoff, f),
            Some(from) => if wide_less(cutoff, from.cost) {
                closed(fr, arena, queue.drop_last(), ways, cutoff, f)
            } else {
                let (fr1, arena1, queue1) = relaxed(
                    fr,
                    arena,
                    queue.drop_last(),
                    ways[state as int].epsilon,
                    0,
                    from,
                    cutoff,
                    f,
                );
                if total_slack(fr1.held) < total_slack(fr.held) || (fr1 == fr && queue1
                    == queue.drop_last()) {
                    closed(fr1, arena1, queue1, ways, cutoff, f)
                } else {
                    (fr1, arena1)
                }
            },
        }
    }
}

proof fn slack_falls(held: Seq<Option<Held>>, s: int, h: Option<Held>)
    requires
        0 <= s < held.len(),
        slack(h) < slack(held[s]),
    ensures
        total_slack(held.update(s, h)) < total_slack(held),
    decreases held.len(),
{
    let after = held.update(s, h);
    if s == held.len() - 1 {
        assert(after.drop_last() =~= held.drop_last());
    } else {
        slack_falls(held.drop_last(), s, h);
        assert(after.drop_last() =~= held.drop_last().update(s, h));
        assert(after.last() == held.last());
    }
}

proof fn insertion_tightens(fr: Frontier, arena: Seq<Token>, state: u32, token: Token, cost: u64)
    requires
        state < fr.held.len(),
    ensures
        inserted(fr, arena, state, token, cost) matches Some(x) ==> total_slack(x.0.held)
            < total_slack(fr.held) && x.0.held.len() == fr.held.len(),
{
    if let Some(x) = inserted(fr, arena, state, token, cost) {
        slack_falls(
            fr.held,
            state as int,
            Some(Held { token: arena.len() as usize, cost }),
        );
    }
}

/// Relaxing either changes nothing or tightens the frontier.
pub(crate) proof fn relaxing_tightens<F: Fn(FloatOp) -> u64>(
    fr: Frontier,
    arena: Seq<Token>,
    queue: Seq<u32>,
    arcs: Seq<Arc>,
    i: int,
    from: Held,
    cutoff: u64,
    f: F,
)
    requires
        0 <= i <= arcs.len(),
        forall|k: int| 0 <= k < arcs.len() ==> (#[trigger] arcs[k]).next < fr.held.len(),
    ensures
        ({
            let r = relaxed(fr, arena, queue, arcs, i, from, cutoff, f);
            total_slack(r.0.held) < total_slack(fr.held) || (r.0 == fr && r.2 == queue)
        }),
    decreases arcs.len() - i,
{
    if i < arcs.len() {
        let a = arcs[i];
        let cost = wide_value(
            f,
            FloatOp::AddWide(from.cost, wide_value(f, FloatOp::Widen(a.cost))),
        );
        let token = Token { prev: from.token, arc: a, ac_cost: ZERO };
        insertion_tightens(fr, arena, a.next, token, cost);
        match inserted(fr, arena, a.next, token, cost) {
            Some((fr1, arena1)) => {
                relaxing_tightens(
                    fr1,
                    arena1,
                    queue.push(a.next),
                    arcs,
                    i + 1,
                    from,
                    cutoff,
                    f,
                );
            },
            None => {},
        }
        relaxing_tightens(fr, arena, queue, arcs, i + 1, from, cutoff, f);
    }
}

/// The state that a token has led to.
pub open spec fn end_of(arena: Seq<Token>, i: int) -> u32 {
    if arena[i].prev == usize::MAX {
        0
    } else {
        arena[i].arc.next
    }
}

/// Every token follows an earlier one along an arc of the graph.
pub open spec fn traces(arena: Seq<Token>, g: Seq<Seq<Arc>>) -> bool {
    forall|i: int|
        #![trigger arena[i]]
        0 <= i < arena.len() && arena[i].prev != usize::MAX ==> arena[i].prev < i && end_of(
            arena,
            arena[i].prev as int,
        ) < g.len() && g[end_of(arena, arena[i].prev as int) as int].contains(arena[i].arc)
}

/// The tokens from the start to token `i`, the start excluded.
pub open spec fn trail_to(arena: Seq<Token>, i: int) -> Seq<Token>
    decreases i,
{
    if i < 0 || arena[i].prev == usize::MAX || arena[i].prev >= i {
        Seq::empty()
    } else {
        trail_to(arena, arena[i].prev as int).push(arena[i])
    }
}

/// The transition ids along a trail.
pub open spec fn ids_along(trail: Seq<Token>) -> Seq<TransitionId>
    decreases trail.len(),
{
    if trail.len() == 0 {
        Seq::empty()
    } else if trail.last().arc.tid != 0 {
        ids_along(trail.drop_last()).push(trail.last().arc.tid)
    } else {
        ids_along(trail.drop_last())
    }
}

/// Every token of the frontier stands in the arena, has led to its state, and has emitted for `t`
/// frames.
pub open spec fn placed_tokens(fr: Frontier, arena: Seq<Token>, t: nat) -> bool {
    forall|s: int|
        0 <= s < fr.held.len() ==> (#[trigger] fr.held[s] matches Some(h) ==> h.token < arena.len()
            && end_of(arena, h.token as int) == s && ids_along(trail_to(arena, h.token as int)).len() == t)
}

pub(crate) proof fn trail_stays(arena: Seq<Token>, t: Token, i: int)
    requires
        i < arena.len(),
    ensures
        trail_to(arena.push(t), i) == trail_to(arena, i),
    decreases i,
{
    if i >= 0 && arena[i].prev != usize::MAX && arena[i].prev < i {
        trail_stays(arena, t, arena[i].prev as int);
    }
}

/// A token that is taken keeps the books in order.
pub(crate) proof fn insertion_keeps_books(
    fr: Frontier,
    arena: Seq<Token>,
    g: Seq<Seq<Arc>>,
    t: nat,
    others: Frontier,
    u: nat,
    state: u32,
    token: Token,
    cost: u64,
)
    requires
        traces(arena, g),
        placed_tokens(fr, arena, t),
        placed_tokens(others, arena, u),
        fr.held.len() == g.len(),
        state < g.len(),
        token.prev < arena.len(),
        arena.len() < usize::MAX,
        end_of(arena, token.prev as int) < g.len(),
        g[end_of(arena, token.prev as int) as int].contains(token.arc),
        token.arc.next == state,
        ids_along(trail_to(arena, token.prev as int)).len() + (if token.arc.tid != 0 {
            1nat
        } else {
            0nat
        }) == t,
    ensures
        inserted(fr, arena, state, token, cost) matches Some(x) ==> traces(x.1, g) && placed_tokens(
            x.0,
            x.1,
            t,
        ) && placed_tokens(others, x.1, u),
{
    if let Some(x) = inserted(fr, arena, state, token, cost) {
        let more = x.1;
        let n = arena.len() as int;
        assert forall|i: int|
            #![trigger more[i]]
            0 <= i < more.len() && more[i].prev != usize::MAX implies more[i].prev < i && end_of(
            more,
            more[i].prev as int,
        ) < g.len() && g[end_of(more, more[i].prev as int) as int].contains(more[i].arc) by {
            if i < n {
                assert(more[i] == arena[i]);
                assert(arena[i].prev < i);
                assert(more[arena[i].prev as int] == arena[arena[i].prev as int]);
            } else {
                assert(more[token.prev as int] == arena[token.prev as int]);
            }
        }
        trail_stays(arena, token, token.prev as int);
        assert(more[n] == token);
        assert(trail_to(more, n) == trail_to(arena, token.prev as int).push(token));
        assert(trail_to(more, n).drop_last() =~= trail_to(arena, token.prev as int));
        assert forall|s: int| 0 <= s < x.0.held.len() implies (#[trigger] x.0.held[s] matches Some(h)
            ==> h.token < more.len() && end_of(more, h.token as int) == s && ids_along(
            trail_to(more, h.token as int),
        ).len() == t) by {
            if s != state {
                assert(x.0.held[s] == fr.held[s]);
                if let Some(h) = fr.held[s] {
                    assert(more[h.token as int] == arena[h.token as int]);
                    trail_stays(arena, token, h.token as int);
                }
            }
        }
        assert forall|s: int| 0 <= s < others.held.len() implies (
        #[trigger] others.held[s] matches Some(h) ==> h.token < more.len() && end_of(
            more,
            h.token as int,
        ) == s && ids_along(trail_to(more, h.token as int)).len() == u) by {
            if let Some(h) = others.held[s] {
                assert(more[h.token as int] == arena[h.token as int]);
                trail_stays(arena, token, h.token as int);
            }
        }
    }
}

impl<'a> Decoder<'a> {
    pub open spec fn ways(&self) -> Seq<Ways> {
        ways_of(self.graph.states@)
    }

    /// The tables cover the states of the graph.
    pub open spec fn wf(&self) -> bool {
        &&& self.cur.wf()
        &&& self.next.wf()
        &&& self.cur@.held.len() == self.ways().len()
        &&& self.next@.held.len() == self.ways().len()
    }

    pub fn new(graph: &'a PreparedGraph<'a>, opts: &AlignOptions, beam: u32) -> (r: Self)
        requires
            graph.graph@.states.len() <= u32::MAX + 1,
        ensures
            r.graph == graph,
            r.opts == *opts,
            r.beam == beam,
            r.arena.toks@ == Seq::<Token>::empty(),
            r.cur.wf(),
            r.next.wf(),
            r.cur@ == no_tokens(graph.graph@.states.len()),
            r.next@ == no_tokens(graph.graph@.states.len()),
    {
        let n: usize = graph.graph.num_states();
        Decoder {
            graph,
            opts: *opts,
            beam,
            arena: Arena::new(),
            cur: Active::new(n),
            next: Active::new(n),
        }
    }

    /// The cutoff, the beam that belongs to it, and the state of the best token.
    pub fn get_cutoff<F: Fn(FloatOp) -> u64>(&self, f: &F) -> (r: (u64, u32, Option<u32>))
        requires
            is_evaluator(*f),
            forall|i: int|
                0 <= i < self.cur.states@.len() ==> (#[trigger] self.cur.states@[i])
                    < self.cur.cost@.len(),
        ensures
            (r.0, r.1) == cutoff_of(
                listed_costs(self.cur.cost@, self.cur.states@),
                self.opts,
                self.beam,
                *f,
            ),
            match best_place(
                listed_costs(self.cur.cost@, self.cur.states@),
                self.cur.states@.len() as int,
            ) {
                Some(i) => 0 <= i < self.cur.states@.len() && r.2 == Some(self.cur.states@[i]),
                None => r.2 is None,
            },
    {
        let ghost costs = listed_costs(self.cur.cost@, self.cur.states@);
        let mut tmp: Vec<u64> = Vec::new();
        let mut best: u64 = WIDE_INFINITY;
        let mut best_state: Option<u32> = None;
        let mut i: usize = 0;
        while i < self.cur.states.len()
            invariant
                forall|k: int|
                    0 <= k < self.cur.states@.len() ==> (#[trigger] self.cur.states@[k])
                        < self.cur.cost@.len(),
                costs == listed_costs(self.cur.cost@, self.cur.states@),
                i <= self.cur.states@.len(),
                tmp@ == costs.take(i as int),
                best == best_cost(costs, i as int),
                match best_place(costs, i as int) {
                    Some(k) => 0 <= k < i && best_state == Some(self.cur.states@[k]),
                    None => best_state is None,
                },
            decreases self.cur.states.len() - i,
        {
            let s: u32 = self.cur.states[i];
            assert(self.cur.states@[i as int] < self.cur.cost@.len());
            let c: u64 = self.cur.cost[s as usize];
            tmp.push(c);
            assert(tmp@ =~= costs.take(i + 1));
            if wide_lt(c, best) {
                best = c;
                best_state = Some(s);
            }
            i += 1;
        }
        assert(tmp@ =~= costs);
        let n: usize = tmp.len();
        let ordinary: u64 = eval_wide(
            f,
            FloatOp::AddWide(best, eval_wide(f, FloatOp::Widen(self.beam))),
        );
        let max: usize = self.opts.max_active;
        let min: usize = self.opts.min_active;
        if max == usize::MAX && min == 0 {
            return (ordinary, self.beam, best_state);
        }
        if n > max {
            let sorted = rank_all(&tmp);
            let high: u64 = sorted[max];
            if wide_lt(high, ordinary) {
                return (high, self.adapted(high, best, f), best_state);
            }
        }
        if (n <= max || min < max) && has_enough(&tmp, ordinary, min) {
            proof {
                ranked_exists(costs);
                within_bounds(costs, ordinary);
                if min > 0 {
                    enough_within(costs, ordinary, min as int);
                } else {
                    let k = some_within(costs, ordinary);
                    best_is_least(costs, n as int, k);
                }
            }
            return (ordinary, self.beam, best_state);
        }
        if n > min {
            let low: u64 = if min == 0 {
                best
            } else if n <= max || min < max {
                let sorted = rank_all(&tmp);
                sorted[min]
            } else {
                WIDE_INFINITY
            };
            if wide_lt(ordinary, low) {
                return (low, self.adapted(low, best, f), best_state);
            }
            (ordinary, self.beam, best_state)
        } else {
            if wide_lt(ordinary, WIDE_INFINITY) {
                (WIDE_INFINITY, self.adapted(WIDE_INFINITY, best, f), best_state)
            } else {
                (ordinary, self.beam, best_state)
            }
        }
    }

    fn adapted<F: Fn(FloatOp) -> u64>(&self, cutoff: u64, best: u64, f: &F) -> (r: u32)
        requires
            is_evaluator(*f),
        ensures
            r == adapted_beam(cutoff, best, self.opts.beam_delta, *f),
    {
        eval(
            f,
            FloatOp::Add(
                eval(f, FloatOp::Narrow(eval_wide(f, FloatOp::SubWide(cutoff, best)))),
                self.opts.beam_delta,
            ),
        )
    }
}

proof fn within_bounds(costs: Seq<u64>, cutoff: u64)
    ensures
        within(costs, cutoff) <= costs.len(),
    decreases costs.len(),
{
    if costs.len() > 0 {
        within_bounds(costs.drop_last(), cutoff);
    }
}

/// The acoustic cost of an arc at a frame with these scores.
pub open spec fn acoustic_cost<F: Fn(FloatOp) -> u64>(scale: u32, score: u32, f: F) -> u64 {
    wide_value(f, FloatOp::Widen(negated(value(f, FloatOp::Mul(scale, score)))))
}

/// What a token costs after an arc that emits.
pub open spec fn moved_cost<F: Fn(FloatOp) -> u64>(arc: Arc, cost: u64, acoustic: u64, f: F) -> u64 {
    wide_value(
        f,
        FloatOp::AddWide(
            wide_value(
                f,
                FloatOp::AddWide(wide_value(f, FloatOp::Widen(arc.cost)), cost),
            ),
            acoustic,
        ),
    )
}

/// The cutoff with a token of this cost in view: at most its cost plus the beam.
pub open spec fn tightened<F: Fn(FloatOp) -> u64>(cutoff: u64, cost: u64, beam: u32, f: F) -> u64 {
    let bound = wide_value(f, FloatOp::AddWide(cost, wide_value(f, FloatOp::Widen(beam))));
    if wide_less(bound, cutoff) {
        bound
    } else {
        cutoff
    }
}

/// The cutoff with the moves of the best token in view, from its arc number `i` on.
pub open spec fn preview<F: Fn(FloatOp) -> u64>(
    cutoff: u64,
    arcs: Seq<(Arc, usize)>,
    i: int,
    cost: u64,
    row: Seq<u32>,
    scale: u32,
    beam: u32,
    f: F,
) -> u64
    decreases arcs.len() - i,
{
    if i >= arcs.len() {
        cutoff
    } else {
        let acoustic = acoustic_cost(scale, row[arcs[i].1 as int], f);
        preview(
            tightened(cutoff, moved_cost(arcs[i].0, cost, acoustic, f), beam, f),
            arcs,
            i + 1,
            cost,
            row,
            scale,
            beam,
            f,
        )
    }
}

/// One token moved along its arcs from number `i` on. A move at or beyond the cutoff is dropped; any
/// other tightens the cutoff for those after it.
pub open spec fn moved<F: Fn(FloatOp) -> u64>(
    next: Frontier,
    arena: Seq<Token>,
    cutoff: u64,
    arcs: Seq<(Arc, usize)>,
    i: int,
    from: Held,
    row: Seq<u32>,
    scale: u32,
    beam: u32,
    f: F,
) -> (Frontier, Seq<Token>, u64)
    decreases arcs.len() - i,
{
    if i >= arcs.len() {
        (next, arena, cutoff)
    } else {
        let acoustic = acoustic_cost(scale, row[arcs[i].1 as int], f);
        let cost = moved_cost(arcs[i].0, from.cost, acoustic, f);
        let token = Token {
            prev: from.token,
            arc: arcs[i].0,
            ac_cost: value(f, FloatOp::Narrow(acoustic)),
        };
        if wide_at_most(cutoff, cost) {
            moved(next, arena, cutoff, arcs, i + 1, from, row, scale, beam, f)
        } else {
            let tight = tightened(cutoff, cost, beam, f);
            match inserted(next, arena, arcs[i].0.next, token, cost) {
                Some((next1, arena1)) => moved(
                    next1,
                    arena1,
                    tight,
                    arcs,
                    i + 1,
                    from,
                    row,
                    scale,
                    beam,
                    f,
                ),
                None => moved(next, arena, tight, arcs, i + 1, from, row, scale, beam, f),
            }
        }
    }
}

/// The tokens of the frontier from number `i` on moved along the arcs that emit, but for those at or
/// beyond the frame's cutoff.
pub open spec fn advanced<F: Fn(FloatOp) -> u64>(
    fr: Frontier,
    next: Frontier,
    arena: Seq<Token>,
    cutoff: u64,
    i: int,
    ways: Seq<Ways>,
    row: Seq<u32>,
    scale: u32,
    frame_cutoff: u64,
    beam: u32,
    f: F,
) -> (Frontier, Seq<Token>, u64)
    decreases fr.states.len() - i,
{
    if i >= fr.states.len() {
        (next, arena, cutoff)
    } else {
        let state = fr.states[i];
        match fr.held[state as int] {
            None => advanced(
                fr,
                next,
                arena,
                cutoff,
                i + 1,
                ways,
                row,
                scale,
                frame_cutoff,
                beam,
                f,
            ),
            Some(from) => if wide_at_most(frame_cutoff, from.cost) {
                advanced(fr, next, arena, cutoff, i + 1, ways, row, scale, frame_cutoff, beam, f)
            } else {
                let (next1, arena1, cutoff1) = moved(
                    next,
                    arena,
                    cutoff,
                    ways[state as int].emitting,
                    0,
                    from,
                    row,
                    scale,
                    beam,
                    f,
                );
                advanced(
                    fr,
                    next1,
                    arena1,
                    cutoff1,
                    i + 1,
                    ways,
                    row,
                    scale,
                    frame_cutoff,
                    beam,
                    f,
                )
            },
        }
    }
}

/// The frontier after a frame, before the epsilon arcs, with the arena and the cutoff.
pub open spec fn emitted<F: Fn(FloatOp) -> u64>(
    fr: Frontier,
    arena: Seq<Token>,
    ways: Seq<Ways>,
    row: Seq<u32>,
    opts: AlignOptions,
    beam: u32,
    f: F,
) -> (Frontier, Seq<Token>, u64) {
    let costs = costs_of(fr);
    let (frame_cutoff, adaptive) = cutoff_of(costs, opts, beam, f);
    let start = match best_place(costs, costs.len() as int) {
        Some(i) => preview(
            WIDE_INFINITY,
            ways[fr.states[i] as int].emitting,
            0,
            costs[i],
            row,
            opts.acoustic_scale,
            adaptive,
            f,
        ),
        None => WIDE_INFINITY,
    };
    advanced(
        fr,
        no_tokens(fr.held.len()),
        arena,
        start,
        0,
        ways,
        row,
        opts.acoustic_scale,
        frame_cutoff,
        adaptive,
        f,
    )
}

/// Every listed state has a token.
pub open spec fn all_held(fr: Frontier) -> bool {
    forall|i: int|
        0 <= i < fr.states.len() ==> (#[trigger] fr.states[i]) < fr.held.len()
            && fr.held[fr.states[i] as int] is Some
}

impl<'a> Decoder<'a> {
    /// Everything but the tokens is as it was.
    pub open spec fn follows(&self, before: &Self) -> bool {
        &&& self.graph == before.graph
        &&& self.opts == before.opts
        &&& self.beam == before.beam
    }

    /// Close the frontier over the epsilon arcs.
    pub fn process_nonemitting<F: Fn(FloatOp) -> u64>(&mut self, cutoff: u64, f: &F)
        requires
            is_evaluator(*f),
            old(self).wf(),
            epsilons_lead_inside(old(self).ways()),
            all_held(old(self).cur@),
        ensures
            final(self).wf(),
            final(self).follows(old(self)),
            final(self).next@ == old(self).next@,
            all_held(final(self).cur@),
            (final(self).cur@, final(self).arena.toks@) == closed(
                old(self).cur@,
                old(self).arena.toks@,
                old(self).cur@.states,
                old(self).ways(),
                cutoff,
                *f,
            ),
    {
        let ghost ways = self.ways();
        let ghost n = ways.len();
        let ghost want = closed(
            self.cur@,
            self.arena.toks@,
            self.cur@.states,
            ways,
            cutoff,
            *f,
        );
        let graph = self.graph;
        let mut queue: Vec<u32> = self.cur.states.clone();
        assert(queue@ =~= self.cur@.states);
        while queue.len() > 0
            invariant
                is_evaluator(*f),
                self.wf(),
                self.follows(old(self)),
                self.next@ == old(self).next@,
                graph == self.graph,
                ways == self.ways(),
                ways == old(self).ways(),
                n == ways.len(),
                epsilons_lead_inside(ways),
                all_held(self.cur@),
                forall|i: int| 0 <= i < queue@.len() ==> (#[trigger] queue@[i]) < n,
                want == closed(
                    old(self).cur@,
                    old(self).arena.toks@,
                    old(self).cur@.states,
                    ways,
                    cutoff,
                    *f,
                ),
                want == closed(self.cur@, self.arena.toks@, queue@, ways, cutoff, *f),
            decreases total_slack(self.cur@.held), queue@.len(),
        {
            let ghost fr0 = self.cur@;
            let ghost arena0 = self.arena.toks@;
            let ghost queue0 = queue@;
            let state: u32 = queue.pop().unwrap();
            assert(queue0[queue0.len() - 1] == state);
            assert(queue@ == queue0.drop_last());
            match self.cur.get(state) {
                Some(tok_idx) => {
                    let tok_cost: u64 = self.cur.cost[state as usize];
                    let ghost from = Held { token: tok_idx, cost: tok_cost };
                    assert(fr0.held[state as int] == Some(from));
                    if !wide_lt(cutoff, tok_cost) {
                        let ghost queue1 = queue@;
                        assert(graph.states@[state as int].epsilon@ == ways[state as int].epsilon);
                        self.relax(
                            &mut queue,
                            &graph.states[state as usize].epsilon,
                            tok_idx,
                            tok_cost,
                            cutoff,
                            f,
                        );
                        proof {
                            let arcs = ways[state as int].epsilon;
                            assert forall|k: int| 0 <= k < arcs.len() implies (
                            #[trigger] arcs[k]).next < n by {
                                assert(ways[state as int].epsilon[k].next < n);
                            }
                            relaxing_tightens(fr0, arena0, queue1, arcs, 0, from, cutoff, *f);
                        }
                    }
                },
                None => {},
            }
        }
    }

    /// Offer the epsilon arcs of a state, and put what is taken into the queue.
    fn relax<F: Fn(FloatOp) -> u64>(
        &mut self,
        queue: &mut Vec<u32>,
        arcs: &Vec<Arc>,
        tok_idx: usize,
        tok_cost: u64,
        cutoff: u64,
        f: &F,
    )
        requires
            is_evaluator(*f),
            old(self).wf(),
            all_held(old(self).cur@),
            forall|k: int| 0 <= k < arcs@.len() ==> (#[trigger] arcs@[k]).next < old(self).ways().len(),
            forall|i: int| 0 <= i < old(queue)@.len() ==> (#[trigger] old(queue)@[i]) < old(
                self,
            ).ways().len(),
        ensures
            final(self).wf(),
            final(self).follows(old(self)),
            final(self).next@ == old(self).next@,
            all_held(final(self).cur@),
            forall|i: int| 0 <= i < final(queue)@.len() ==> (#[trigger] final(queue)@[i]) < old(
                self,
            ).ways().len(),
            (final(self).cur@, final(self).arena.toks@, final(queue)@) == relaxed(
                old(self).cur@,
                old(self).arena.toks@,
                old(queue)@,
                arcs@,
                0,
                (Held { token: tok_idx, cost: tok_cost }),
                cutoff,
                *f,
            ),
    {
        let ghost from = Held { token: tok_idx, cost: tok_cost };
        let ghost n = self.ways().len();
        let ghost want = relaxed(
            self.cur@,
            self.arena.toks@,
            queue@,
            arcs@,
            0,
            from,
            cutoff,
            *f,
        );
        let mut i: usize = 0;
        while i < arcs.len()
            invariant
                is_evaluator(*f),
                self.wf(),
                self.follows(old(self)),
                self.next@ == old(self).next@,
                self.ways() == old(self).ways(),
                n == self.ways().len(),
                all_held(self.cur@),
                from == (Held { token: tok_idx, cost: tok_cost }),
                forall|k: int| 0 <= k < arcs@.len() ==> (#[trigger] arcs@[k]).next < n,
                forall|k: int| 0 <= k < queue@.len() ==> (#[trigger] queue@[k]) < n,
                i <= arcs@.len(),
                want == relaxed(
                    old(self).cur@,
                    old(self).arena.toks@,
                    old(queue)@,
                    arcs@,
                    0,
                    from,
                    cutoff,
                    *f,
                ),
                want == relaxed(
                    self.cur@,
                    self.arena.toks@,
                    queue@,
                    arcs@,
                    i as int,
                    from,
                    cutoff,
                    *f,
                ),
            decreases arcs.len() - i,
        {
            let a: Arc = arcs[i];
            assert(arcs@[i as int].next < n);
            let cost: u64 = eval_wide(
                f,
                FloatOp::AddWide(tok_cost, eval_wide(f, FloatOp::Widen(a.cost))),
            );
            if !wide_lt(cutoff, cost) {
                let token = Token { prev: tok_idx, arc: a, ac_cost: ZERO };
                let ghost fr1 = self.cur@;
                let ghost arena1 = self.arena.toks@;
                let taken: bool = self.cur.insert(&mut self.arena, a.next, token, cost);
                if taken {
                    queue.push(a.next);
                    proof {
                        insertion_keeps_listing(fr1, arena1, a.next, token, cost);
                    }
                }
            }
            i += 1;
        }
    }
}

/// The epsilon arcs lead to states of the graph.
pub open spec fn epsilons_lead_inside(ways: Seq<Ways>) -> bool {
    forall|s: int, k: int|
        0 <= s < ways.len() && 0 <= k < ways[s].epsilon.len() ==> (#[trigger] ways[s].epsilon[k]).next
            < ways.len()
}

proof fn insertion_keeps_listing(fr: Frontier, arena: Seq<Token>, state: u32, token: Token, cost: u64)
    requires
        all_held(fr),
        state < fr.held.len(),
    ensures
        inserted(fr, arena, state, token, cost) matches Some(x) ==> all_held(x.0),
{
    if let Some(x) = inserted(fr, arena, state, token, cost) {
        assert forall|i: int| 0 <= i < x.0.states.len() implies (#[trigger] x.0.states[i])
            < x.0.held.len() && x.0.held[x.0.states[i] as int] is Some by {
            if i < fr.states.len() {
                assert(x.0.states[i] == fr.states[i]);
                assert(fr.states[i] < fr.held.len());
            }
        }
    }
}

/// The arcs that emit lead to states of the graph and have columns below `cols`.
pub open spec fn emissions_fit(ways: Seq<Ways>, cols: int) -> bool {
    forall|s: int, k: int|
        0 <= s < ways.len() && 0 <= k < ways[s].emitting.len() ==> {
            let w = #[trigger] ways[s].emitting[k];
            w.0.next < ways.len() && w.1 < cols
        }
}

impl<'a> Decoder<'a> {
    /// Move one token along the arcs that emit.
    fn advance_token<F: Fn(FloatOp) -> u64>(
        &mut self,
        arcs: &Vec<(Arc, usize)>,
        tok_idx: usize,
        tok_cost: u64,
        row: &Vec<u32>,
        start_cutoff: u64,
        adaptive: u32,
        f: &F,
    ) -> (r: u64)
        requires
            is_evaluator(*f),
            old(self).wf(),
            all_held(old(self).next@),
            forall|k: int|
                0 <= k < arcs@.len() ==> (#[trigger] arcs@[k]).0.next < old(self).ways().len()
                    && arcs@[k].1 < row@.len(),
        ensures
            final(self).wf(),
            final(self).follows(old(self)),
            final(self).cur == old(self).cur,
            all_held(final(self).next@),
            (final(self).next@, final(self).arena.toks@, r) == moved(
                old(self).next@,
                old(self).arena.toks@,
                start_cutoff,
                arcs@,
                0,
                (Held { token: tok_idx, cost: tok_cost }),
                row@,
                old(self).opts.acoustic_scale,
                adaptive,
                *f,
            ),
    {
        let ghost from = Held { token: tok_idx, cost: tok_cost };
        let ghost n = self.ways().len();
        let scale: u32 = self.opts.acoustic_scale;
        let ghost want = moved(
            self.next@,
            self.arena.toks@,
            start_cutoff,
            arcs@,
            0,
            from,
            row@,
            scale,
            adaptive,
            *f,
        );
        let mut cutoff: u64 = start_cutoff;
        let mut i: usize = 0;
        while i < arcs.len()
            invariant
                is_evaluator(*f),
                self.wf(),
                self.follows(old(self)),
                self.cur == old(self).cur,
                self.ways() == old(self).ways(),
                n == self.ways().len(),
                scale == self.opts.acoustic_scale,
                all_held(self.next@),
                from == (Held { token: tok_idx, cost: tok_cost }),
                forall|k: int|
                    0 <= k < arcs@.len() ==> (#[trigger] arcs@[k]).0.next < n && arcs@[k].1
                        < row@.len(),
                i <= arcs@.len(),
                want == moved(
                    old(self).next@,
                    old(self).arena.toks@,
                    start_cutoff,
                    arcs@,
                    0,
                    from,
                    row@,
                    scale,
                    adaptive,
                    *f,
                ),
                want == moved(
                    self.next@,
                    self.arena.toks@,
                    cutoff,
                    arcs@,
                    i as int,
                    from,
                    row@,
                    scale,
                    adaptive,
                    *f,
                ),
            decreases arcs.len() - i,
        {
            let (arc, col) = arcs[i];
            assert(arcs@[i as int].0.next < n);
            let acoustic: u64 = eval_wide(
                f,
                FloatOp::Widen(neg(eval(f, FloatOp::Mul(scale, row[col])))),
            );
            let cost: u64 = eval_wide(
                f,
                FloatOp::AddWide(
                    eval_wide(
                        f,
                        FloatOp::AddWide(eval_wide(f, FloatOp::Widen(arc.cost)), tok_cost),
                    ),
                    acoustic,
                ),
            );
            if !wide_le(cutoff, cost) {
                let token = Token {
                    prev: tok_idx,
                    arc,
                    ac_cost: eval(f, FloatOp::Narrow(acoustic)),
                };
                let ghost fr1 = self.next@;
                let ghost arena1 = self.arena.toks@;
                let taken: bool = self.next.insert(&mut self.arena, arc.next, token, cost);
                proof {
                    insertion_keeps_listing(fr1, arena1, arc.next, token, cost);
                }
                let bound: u64 = eval_wide(
                    f,
                    FloatOp::AddWide(cost, eval_wide(f, FloatOp::Widen(adaptive))),
                );
                if wide_lt(bound, cutoff) {
                    cutoff = bound;
                }
            }
            i += 1;
        }
        cutoff
    }

    /// The cutoff with the moves of the best token in view.
    fn preview_best<F: Fn(FloatOp) -> u64>(
        &self,
        state: u32,
        row: &Vec<u32>,
        adaptive: u32,
        f: &F,
    ) -> (r: u64)
        requires
            is_evaluator(*f),
            self.wf(),
            state < self.ways().len(),
            emissions_fit(self.ways(), row@.len() as int),
        ensures
            r == preview(
                WIDE_INFINITY,
                self.ways()[state as int].emitting,
                0,
                self.cur.cost@[state as int],
                row@,
                self.opts.acoustic_scale,
                adaptive,
                *f,
            ),
    {
        let ghost ways = self.ways();
        let arcs = &self.graph.states[state as usize].emitting;
        assert(arcs@ == ways[state as int].emitting);
        let tok_cost: u64 = self.cur.cost[state as usize];
        let scale: u32 = self.opts.acoustic_scale;
        let mut cutoff: u64 = WIDE_INFINITY;
        let ghost want = preview(
            cutoff,
            arcs@,
            0,
            tok_cost,
            row@,
            scale,
            adaptive,
            *f,
        );
        let mut i: usize = 0;
        while i < arcs.len()
            invariant
                is_evaluator(*f),
                state < ways.len(),
                emissions_fit(ways, row@.len() as int),
                arcs@ == ways[state as int].emitting,
                i <= arcs@.len(),
                want == preview(
                    cutoff,
                    arcs@,
                    i as int,
                    tok_cost,
                    row@,
                    scale,
                    adaptive,
                    *f,
                ),
            decreases arcs.len() - i,
        {
            let (arc, col) = arcs[i];
            assert(ways[state as int].emitting[i as int].1 < row@.len());
            let acoustic: u64 = eval_wide(
                f,
                FloatOp::Widen(neg(eval(f, FloatOp::Mul(scale, row[col])))),
            );
            let cost: u64 = eval_wide(
                f,
                FloatOp::AddWide(
                    eval_wide(
                        f,
                        FloatOp::AddWide(eval_wide(f, FloatOp::Widen(arc.cost)), tok_cost),
                    ),
                    acoustic,
                ),
            );
            let bound: u64 = eval_wide(
                f,
                FloatOp::AddWide(cost, eval_wide(f, FloatOp::Widen(adaptive))),
            );
            if wide_lt(bound, cutoff) {
                cutoff = bound;
            }
            i += 1;
        }
        cutoff
    }

    /// Move the tokens along the arcs that emit, and give back the cutoff for the epsilon arcs.
    pub fn process_emitting<F: Fn(FloatOp) -> u64>(&mut self, row: &Vec<u32>, f: &F) -> (r: u64)
        requires
            is_evaluator(*f),
            old(self).wf(),
            all_held(old(self).cur@),
            emissions_fit(old(self).ways(), row@.len() as int),
        ensures
            final(self).wf(),
            final(self).follows(old(self)),
            all_held(final(self).cur@),
            (final(self).cur@, final(self).arena.toks@, r) == emitted(
                old(self).cur@,
                old(self).arena.toks@,
                old(self).ways(),
                row@,
                old(self).opts,
                old(self).beam,
                *f,
            ),
    {
        let ghost fr = self.cur@;
        let ghost ways = self.ways();
        let ghost n = ways.len();
        let ghost scale = self.opts.acoustic_scale;
        proof {
            let listed = listed_costs(self.cur.cost@, self.cur.states@);
            assert forall|i: int| 0 <= i < fr.states.len() implies listed[i] == costs_of(fr)[i] by {
                assert(fr.states[i] < fr.held.len() && fr.held[fr.states[i] as int] is Some);
            }
            assert(listed =~= costs_of(fr));
        }
        let (frame_cutoff, adaptive, best_state) = self.get_cutoff(f);
        let mut cutoff: u64 = WIDE_INFINITY;
        match best_state {
            Some(state) => {
                proof {
                    let i = best_place(costs_of(fr), fr.states.len() as int)->0;
                    assert(fr.states[i] == state);
                    assert(fr.states[i] < fr.held.len() && fr.held[fr.states[i] as int] is Some);
                }
                cutoff = self.preview_best(state, row, adaptive, f);
            },
            None => {},
        }
        self.next.clear();
        let graph = self.graph;
        let count: usize = self.cur.states.len();
        let ghost want = emitted(
            fr,
            self.arena.toks@,
            ways,
            row@,
            self.opts,
            self.beam,
            *f,
        );
        assert(want == advanced(
            fr,
            self.next@,
            self.arena.toks@,
            cutoff,
            0,
            ways,
            row@,
            scale,
            frame_cutoff,
            adaptive,
            *f,
        ));
        let mut i: usize = 0;
        while i < count
            invariant
                is_evaluator(*f),
                self.wf(),
                self.follows(old(self)),
                self.cur == old(self).cur,
                fr == self.cur@,
                all_held(fr),
                all_held(self.next@),
                graph == self.graph,
                ways == self.ways(),
                n == ways.len(),
                scale == self.opts.acoustic_scale,
                emissions_fit(ways, row@.len() as int),
                count == fr.states.len(),
                i <= count,
                want == advanced(
                    fr,
                    self.next@,
                    self.arena.toks@,
                    cutoff,
                    i as int,
                    ways,
                    row@,
                    scale,
                    frame_cutoff,
                    adaptive,
                    *f,
                ),
            decreases count - i,
        {
            let state: u32 = self.cur.states[i];
            assert(fr.states[i as int] < fr.held.len() && fr.held[fr.states[i as int] as int] is Some);
            let tok_idx: usize = self.cur.slot[state as usize];
            let tok_cost: u64 = self.cur.cost[state as usize];
            assert(fr.held[state as int] == Some(Held { token: tok_idx, cost: tok_cost }));
            if !wide_le(frame_cutoff, tok_cost) {
                proof {
                    let arcs = ways[state as int].emitting;
                    assert(graph.states@[state as int].emitting@ == arcs);
                    assert forall|k: int| 0 <= k < arcs.len() implies (#[trigger] arcs[k]).0.next < n
                        && arcs[k].1 < row@.len() by {
                        assert(ways[state as int].emitting[k].1 < row@.len());
                    }
                }
                cutoff = self.advance_token(
                    &graph.states[state as usize].emitting,
                    tok_idx,
                    tok_cost,
                    row,
                    cutoff,
                    adaptive,
                    f,
                );
            }
            i += 1;
        }
        self.cur.clear();
        std::mem::swap(&mut self.cur, &mut self.next);
        cutoff
    }
}

/// The arena and the frontier of frame `t` are in order.
pub open spec fn books(fr: Frontier, arena: Seq<Token>, g: Seq<Seq<Arc>>, t: nat) -> bool {
    &&& traces(arena, g)
    &&& placed_tokens(fr, arena, t)
    &&& fr.held.len() == g.len()
}

pub(crate) proof fn relaxing_grows<F: Fn(FloatOp) -> u64>(
    fr: Frontier,
    arena: Seq<Token>,
    queue: Seq<u32>,
    arcs: Seq<Arc>,
    i: int,
    from: Held,
    cutoff: u64,
    f: F,
)
    ensures
        relaxed(fr, arena, queue, arcs, i, from, cutoff, f).1.len() >= arena.len(),
    decreases arcs.len() - i,
{
    if i < arcs.len() {
        let a = arcs[i];
        let cost = wide_value(
            f,
            FloatOp::AddWide(from.cost, wide_value(f, FloatOp::Widen(a.cost))),
        );
        let token = Token { prev: from.token, arc: a, ac_cost: ZERO };
        if let Some((fr1, arena1)) = inserted(fr, arena, a.next, token, cost) {
            relaxing_grows(fr1, arena1, queue.push(a.next), arcs, i + 1, from, cutoff, f);
        }
        relaxing_grows(fr, arena, queue, arcs, i + 1, from, cutoff, f);
    }
}

proof fn relaxing_keeps_books<F: Fn(FloatOp) -> u64>(
    fr: Frontier,
    arena: Seq<Token>,
    queue: Seq<u32>,
    arcs: Seq<Arc>,
    i: int,
    from: Held,
    cutoff: u64,
    f: F,
    g: Seq<Seq<Arc>>,
    t: nat,
)
    requires
        books(fr, arena, g, t),
        0 <= i <= arcs.len(),
        from.token < arena.len(),
        end_of(arena, from.token as int) < g.len(),
        ids_along(trail_to(arena, from.token as int)).len() == t,
        forall|k: int|
            0 <= k < arcs.len() ==> (#[trigger] arcs[k]).tid == 0 && arcs[k].next < g.len() && g[end_of(
                arena,
                from.token as int,
            ) as int].contains(arcs[k]),
        forall|k: int| 0 <= k < queue.len() ==> (#[trigger] queue[k]) < g.len(),
    ensures
        ({
            let r = relaxed(fr, arena, queue, arcs, i, from, cutoff, f);
            &&& r.1.len() <= usize::MAX ==> books(r.0, r.1, g, t)
            &&& forall|k: int| 0 <= k < r.2.len() ==> (#[trigger] r.2[k]) < g.len()
            &&& r.0.held.len() == fr.held.len()
        }),
    decreases arcs.len() - i,
{
    if i < arcs.len() {
        let a = arcs[i];
        let cost = wide_value(
            f,
            FloatOp::AddWide(from.cost, wide_value(f, FloatOp::Widen(a.cost))),
        );
        let token = Token { prev: from.token, arc: a, ac_cost: ZERO };
        if wide_less(cutoff, cost) {
            relaxing_keeps_books(fr, arena, queue, arcs, i + 1, from, cutoff, f, g, t);
        } else if let Some((fr1, arena1)) = inserted(fr, arena, a.next, token, cost) {
            let queue1 = queue.push(a.next);
            relaxing_grows(fr1, arena1, queue1, arcs, i + 1, from, cutoff, f);
            assert forall|k: int| 0 <= k < queue1.len() implies (#[trigger] queue1[k]) < g.len() by {
                if k < queue.len() {
                    assert(queue1[k] == queue[k]);
                }
            }
            if arena.len() < usize::MAX {
                insertion_keeps_books(fr, arena, g, t, fr, t, a.next, token, cost);
                trail_stays(arena, token, from.token as int);
                assert(arena1[from.token as int] == arena[from.token as int]);
                relaxing_keeps_books(fr1, arena1, queue1, arcs, i + 1, from, cutoff, f, g, t);
            } else {
                relaxing_keeps_lists(fr1, arena1, queue1, arcs, i + 1, from, cutoff, f, g.len());
            }
        } else {
            relaxing_keeps_books(fr, arena, queue, arcs, i + 1, from, cutoff, f, g, t);
        }
    }
}

proof fn relaxing_keeps_lists<F: Fn(FloatOp) -> u64>(
    fr: Frontier,
    arena: Seq<Token>,
    queue: Seq<u32>,
    arcs: Seq<Arc>,
    i: int,
    from: Held,
    cutoff: u64,
    f: F,
    n: nat,
)
    requires
        n == fr.held.len(),
        0 <= i <= arcs.len(),
        forall|k: int| 0 <= k < arcs.len() ==> (#[trigger] arcs[k]).next < n,
        forall|k: int| 0 <= k < queue.len() ==> (#[trigger] queue[k]) < n,
    ensures
        ({
            let r = relaxed(fr, arena, queue, arcs, i, from, cutoff, f);
            &&& forall|k: int| 0 <= k < r.2.len() ==> (#[trigger] r.2[k]) < n
            &&& r.0.held.len() == fr.held.len()
        }),
    decreases arcs.len() - i,
{
    if i < arcs.len() {
        let a = arcs[i];
        let cost = wide_value(
            f,
            FloatOp::AddWide(from.cost, wide_value(f, FloatOp::Widen(a.cost))),
        );
        let token = Token { prev: from.token, arc: a, ac_cost: ZERO };
        if let Some((fr1, arena1)) = inserted(fr, arena, a.next, token, cost) {
            let queue1 = queue.push(a.next);
            assert forall|k: int| 0 <= k < queue1.len() implies (#[trigger] queue1[k]) < n by {
                if k < queue.len() {
                    assert(queue1[k] == queue[k]);
                }
            }
            relaxing_keeps_lists(fr1, arena1, queue1, arcs, i + 1, from, cutoff, f, n);
        }
        relaxing_keeps_lists(fr, arena, queue, arcs, i + 1, from, cutoff, f, n);
    }
}

pub(crate) proof fn closing_grows<F: Fn(FloatOp) -> u64>(
    fr: Frontier,
    arena: Seq<Token>,
    queue: Seq<u32>,
    ways: Seq<Ways>,
    cutoff: u64,
    f: F,
)
    ensures
        closed(fr, arena, queue, ways, cutoff, f).1.len() >= arena.len(),
    decreases total_slack(fr.held), queue.len(),
{
    if queue.len() > 0 {
        let state = queue.last();
        match fr.held[state as int] {
            None => {
                closing_grows(fr, arena, queue.drop_last(), ways, cutoff, f);
            },
            Some(from) => {
                if wide_less(cutoff, from.cost) {
                    closing_grows(fr, arena, queue.drop_last(), ways, cutoff, f);
                } else {
                    let arcs = ways[state as int].epsilon;
                    let (fr1, arena1, queue1) = relaxed(
                        fr,
                        arena,
                        queue.drop_last(),
                        arcs,
                        0,
                        from,
                        cutoff,
                        f,
                    );
                    relaxing_grows(fr, arena, queue.drop_last(), arcs, 0, from, cutoff, f);
                    if total_slack(fr1.held) < total_slack(fr.held) || (fr1 == fr && queue1
                        == queue.drop_last()) {
                        closing_grows(fr1, arena1, queue1, ways, cutoff, f);
                    }
                }
            },
        }
    }
}

/// Closing over the epsilon arcs keeps the books in order: the frame stays the same.
proof fn closing_keeps_books<F: Fn(FloatOp) -> u64>(
    fr: Frontier,
    arena: Seq<Token>,
    queue: Seq<u32>,
    ways: Seq<Ways>,
    cutoff: u64,
    f: F,
    g: Seq<Seq<Arc>>,
    cols: int,
    t: nat,
)
    requires
        books(fr, arena, g, t),
        ways_fit(ways, g, cols),
        forall|k: int| 0 <= k < queue.len() ==> (#[trigger] queue[k]) < g.len(),
        closed(fr, arena, queue, ways, cutoff, f).1.len() <= usize::MAX,
    ensures
        books(
            closed(fr, arena, queue, ways, cutoff, f).0,
            closed(fr, arena, queue, ways, cutoff, f).1,
            g,
            t,
        ),
    decreases total_slack(fr.held), queue.len(),
{
    if queue.len() > 0 {
        let state = queue.last();
        assert(queue[queue.len() - 1] < g.len());
        match fr.held[state as int] {
            None => {
                closing_keeps_books(fr, arena, queue.drop_last(), ways, cutoff, f, g, cols, t);
            },
            Some(from) => {
                if wide_less(cutoff, from.cost) {
                    closing_keeps_books(fr, arena, queue.drop_last(), ways, cutoff, f, g, cols, t);
                } else {
                    let arcs = ways[state as int].epsilon;
                    let rest = queue.drop_last();
                    let (fr1, arena1, queue1) = relaxed(
                        fr,
                        arena,
                        rest,
                        arcs,
                        0,
                        from,
                        cutoff,
                        f,
                    );
                    assert forall|k: int| 0 <= k < arcs.len() implies (#[trigger] arcs[k]).tid == 0
                        && arcs[k].next < g.len() && g[end_of(
                        arena,
                        from.token as int,
                    ) as int].contains(arcs[k]) by {
                        assert(ways[state as int].epsilon[k].tid == 0);
                    }
                    relaxing_keeps_books(fr, arena, rest, arcs, 0, from, cutoff, f, g, t);
                    if total_slack(fr1.held) < total_slack(fr.held) || (fr1 == fr && queue1
                        == rest) {
                        closing_grows(fr1, arena1, queue1, ways, cutoff, f);
                        closing_keeps_books(fr1, arena1, queue1, ways, cutoff, f, g, cols, t);
                    }
                }
            },
        }
    }
}

pub(crate) proof fn moving_grows<F: Fn(FloatOp) -> u64>(
    next: Frontier,
    arena: Seq<Token>,
    cutoff: u64,
    arcs: Seq<(Arc, usize)>,
    i: int,
    from: Held,
    row: Seq<u32>,
    scale: u32,
    beam: u32,
    f: F,
)
    ensures
        moved(next, arena, cutoff, arcs, i, from, row, scale, beam, f).1.len() >= arena.len(),
    decreases arcs.len() - i,
{
    if i < arcs.len() {
        let acoustic = acoustic_cost(scale, row[arcs[i].1 as int], f);
        let cost = moved_cost(arcs[i].0, from.cost, acoustic, f);
        let token = Token {
            prev: from.token,
            arc: arcs[i].0,
            ac_cost: value(f, FloatOp::Narrow(acoustic)),
        };
        let tight = tightened(cutoff, cost, beam, f);
        if let Some((next1, arena1)) = inserted(next, arena, arcs[i].0.next, token, cost) {
            moving_grows(next1, arena1, tight, arcs, i + 1, from, row, scale, beam, f);
        }
        moving_grows(next, arena, tight, arcs, i + 1, from, row, scale, beam, f);
        moving_grows(next, arena, cutoff, arcs, i + 1, from, row, scale, beam, f);
    }
}

proof fn moving_keeps_books<F: Fn(FloatOp) -> u64>(
    next: Frontier,
    arena: Seq<Token>,
    cutoff: u64,
    arcs: Seq<(Arc, usize)>,
    i: int,
    from: Held,
    row: Seq<u32>,
    scale: u32,
    beam: u32,
    f: F,
    fr: Frontier,
    g: Seq<Seq<Arc>>,
    t: nat,
)
    requires
        books(next, arena, g, t + 1),
        placed_tokens(fr, arena, t),
        0 <= i <= arcs.len(),
        from.token < arena.len(),
        end_of(arena, from.token as int) < g.len(),
        ids_along(trail_to(arena, from.token as int)).len() == t,
        forall|k: int|
            0 <= k < arcs.len() ==> (#[trigger] arcs[k]).0.tid != 0 && arcs[k].0.next < g.len()
                && g[end_of(arena, from.token as int) as int].contains(arcs[k].0),
        moved(next, arena, cutoff, arcs, i, from, row, scale, beam, f).1.len() <= usize::MAX,
    ensures
        ({
            let r = moved(next, arena, cutoff, arcs, i, from, row, scale, beam, f);
            books(r.0, r.1, g, t + 1) && placed_tokens(fr, r.1, t)
        }),
    decreases arcs.len() - i,
{
    if i < arcs.len() {
        let acoustic = acoustic_cost(scale, row[arcs[i].1 as int], f);
        let cost = moved_cost(arcs[i].0, from.cost, acoustic, f);
        let token = Token {
            prev: from.token,
            arc: arcs[i].0,
            ac_cost: value(f, FloatOp::Narrow(acoustic)),
        };
        let tight = tightened(cutoff, cost, beam, f);
        if wide_at_most(cutoff, cost) {
            moving_keeps_books(
                next,
                arena,
                cutoff,
                arcs,
                i + 1,
                from,
                row,
                scale,
                beam,
                f,
                fr,
                g,
                t,
            );
        } else if let Some((next1, arena1)) = inserted(next, arena, arcs[i].0.next, token, cost) {
            moving_grows(next1, arena1, tight, arcs, i + 1, from, row, scale, beam, f);
            insertion_keeps_books(
                next,
                arena,
                g,
                t + 1,
                fr,
                t,
                arcs[i].0.next,
                token,
                cost,
            );
            trail_stays(arena, token, from.token as int);
            assert(arena1[from.token as int] == arena[from.token as int]);
            moving_keeps_books(
                next1,
                arena1,
                tight,
                arcs,
                i + 1,
                from,
                row,
                scale,
                beam,
                f,
                fr,
                g,
                t,
            );
        } else {
            moving_keeps_books(
                next,
                arena,
                tight,
                arcs,
                i + 1,
                from,
                row,
                scale,
                beam,
                f,
                fr,
                g,
                t,
            );
        }
    }
}

pub(crate) proof fn advancing_grows<F: Fn(FloatOp) -> u64>(
    fr: Frontier,
    next: Frontier,
    arena: Seq<Token>,
    cutoff: u64,
    i: int,
    ways: Seq<Ways>,
    row: Seq<u32>,
    scale: u32,
    frame_cutoff: u64,
    beam: u32,
    f: F,
)
    ensures
        advanced(fr, next, arena, cutoff, i, ways, row, scale, frame_cutoff, beam, f).1.len()
            >= arena.len(),
    decreases fr.states.len() - i,
{
    if i < fr.states.len() {
        let state = fr.states[i];
        advancing_grows(fr, next, arena, cutoff, i + 1, ways, row, scale, frame_cutoff, beam, f);
        if let Some(from) = fr.held[state as int] {
            let arcs = ways[state as int].emitting;
            let (next1, arena1, cutoff1) = moved(
                next,
                arena,
                cutoff,
                arcs,
                0,
                from,
                row,
                scale,
                beam,
                f,
            );
            moving_grows(next, arena, cutoff, arcs, 0, from, row, scale, beam, f);
            advancing_grows(
                fr,
                next1,
                arena1,
                cutoff1,
                i + 1,
                ways,
                row,
                scale,
                frame_cutoff,
                beam,
                f,
            );
        }
    }
}

proof fn advancing_keeps_books<F: Fn(FloatOp) -> u64>(
    fr: Frontier,
    next: Frontier,
    arena: Seq<Token>,
    cutoff: u64,
    i: int,
    ways: Seq<Ways>,
    row: Seq<u32>,
    scale: u32,
    frame_cutoff: u64,
    beam: u32,
    f: F,
    g: Seq<Seq<Arc>>,
    cols: int,
    t: nat,
)
    requires
        books(fr, arena, g, t),
        all_held(fr),
        books(next, arena, g, t + 1),
        ways_fit(ways, g, cols),
        0 <= i <= fr.states.len(),
        advanced(fr, next, arena, cutoff, i, ways, row, scale, frame_cutoff, beam, f).1.len()
            <= usize::MAX,
    ensures
        ({
            let r = advanced(
                fr,
                next,
                arena,
                cutoff,
                i,
                ways,
                row,
                scale,
                frame_cutoff,
                beam,
                f,
            );
            books(r.0, r.1, g, t + 1)
        }),
    decreases fr.states.len() - i,
{
    if i < fr.states.len() {
        let state = fr.states[i];
        assert(fr.states[i] < fr.held.len() && fr.held[fr.states[i] as int] is Some);
        let from = fr.held[state as int]->0;
        if wide_at_most(frame_cutoff, from.cost) {
            advancing_keeps_books(
                fr,
                next,
                arena,
                cutoff,
                i + 1,
                ways,
                row,
                scale,
                frame_cutoff,
                beam,
                f,
                g,
                cols,
                t,
            );
        } else {
            let arcs = ways[state as int].emitting;
            let (next1, arena1, cutoff1) = moved(
                next,
                arena,
                cutoff,
                arcs,
                0,
                from,
                row,
                scale,
                beam,
                f,
            );
            advancing_grows(
                fr,
                next1,
                arena1,
                cutoff1,
                i + 1,
                ways,
                row,
                scale,
                frame_cutoff,
                beam,
                f,
            );
            assert forall|k: int| 0 <= k < arcs.len() implies (#[trigger] arcs[k]).0.tid != 0
                && arcs[k].0.next < g.len() && g[end_of(arena, from.token as int) as int].contains(
                arcs[k].0,
            ) by {
                assert(ways[state as int].emitting[k].0.tid != 0);
            }
            moving_keeps_books(
                next,
                arena,
                cutoff,
                arcs,
                0,
                from,
                row,
                scale,
                beam,
                f,
                fr,
                g,
                t,
            );
            advancing_keeps_books(
                fr,
                next1,
                arena1,
                cutoff1,
                i + 1,
                ways,
                row,
                scale,
                frame_cutoff,
                beam,
                f,
                g,
                cols,
                t,
            );
        }
    }
}

/// Where a sequence of arcs from the start ends.
pub open spec fn ends_at(path: Seq<Arc>) -> u32 {
    if path.len() == 0 {
        0
    } else {
        path.last().next
    }
}

/// The arcs follow each other through the graph, from its start.
pub open spec fn is_path(g: Seq<Seq<Arc>>, path: Seq<Arc>) -> bool
    decreases path.len(),
{
    path.len() == 0 || (is_path(g, path.drop_last()) && ends_at(path.drop_last()) < g.len()
        && g[ends_at(path.drop_last()) as int].contains(path.last()))
}

/// The arcs of a trail.
pub open spec fn arcs_along(trail: Seq<Token>) -> Seq<Arc> {
    Seq::new(trail.len(), |i: int| trail[i].arc)
}

/// The trail of a token is a path through the graph to where the token has led.
pub proof fn trail_is_a_path(arena: Seq<Token>, g: Seq<Seq<Arc>>, i: int)
    requires
        traces(arena, g),
        0 <= i < arena.len(),
    ensures
        is_path(g, arcs_along(trail_to(arena, i))),
        ends_at(arcs_along(trail_to(arena, i))) == end_of(arena, i),
    decreases i,
{
    if arena[i].prev != usize::MAX {
        let p = arena[i].prev as int;
        trail_is_a_path(arena, g, p);
        let path = arcs_along(trail_to(arena, i));
        assert(path.drop_last() =~= arcs_along(trail_to(arena, p)));
        assert(path.last() == arena[i].arc);
    }
}

/// The token that every search starts with.
pub open spec fn start_token() -> Token {
    Token {
        prev: usize::MAX,
        arc: Arc { tid: 0, word: NO_WORD, pron: NO_PRON, next: 0, cost: ZERO, lm: ZERO },
        ac_cost: ZERO,
    }
}

/// The frontier that a search starts with: one token at the start state, which costs nothing.
pub open spec fn start_frontier(n: nat) -> Frontier {
    Frontier {
        held: no_tokens(n).held.update(0, Some(Held { token: 0, cost: WIDE_ZERO })),
        states: seq![0u32],
    }
}

/// The search from frame `t` on; nothing if all tokens are dropped on the way.
pub open spec fn searched<F: Fn(FloatOp) -> u64>(
    fr: Frontier,
    arena: Seq<Token>,
    ways: Seq<Ways>,
    rows: Seq<Seq<u32>>,
    t: int,
    opts: AlignOptions,
    beam: u32,
    f: F,
) -> Option<(Frontier, Seq<Token>)>
    decreases rows.len() - t,
{
    if t >= rows.len() {
        Some((fr, arena))
    } else {
        let (fr1, arena1, cutoff) = emitted(fr, arena, ways, rows[t], opts, beam, f);
        let (fr2, arena2) = closed(fr1, arena1, fr1.states, ways, cutoff, f);
        if fr2.states.len() == 0 {
            None
        } else {
            searched(fr2, arena2, ways, rows, t + 1, opts, beam, f)
        }
    }
}

/// The tokens of a search from frame `t` on can be numbered.
pub open spec fn are_few<F: Fn(FloatOp) -> u64>(
    fr: Frontier,
    arena: Seq<Token>,
    ways: Seq<Ways>,
    rows: Seq<Seq<u32>>,
    t: int,
    opts: AlignOptions,
    beam: u32,
    f: F,
) -> bool
    decreases rows.len() - t,
{
    t >= rows.len() || {
        let (fr1, arena1, cutoff) = emitted(fr, arena, ways, rows[t], opts, beam, f);
        let (fr2, arena2) = closed(fr1, arena1, fr1.states, ways, cutoff, f);
        &&& arena2.len() <= usize::MAX
        &&& fr2.states.len() > 0 ==> are_few(fr2, arena2, ways, rows, t + 1, opts, beam, f)
    }
}

/// The tokens of a whole search can be numbered.
pub open spec fn tokens_are_few<F: Fn(FloatOp) -> u64>(
    ways: Seq<Ways>,
    rows: Seq<Seq<u32>>,
    opts: AlignOptions,
    beam: u32,
    f: F,
) -> bool {
    let start = start_frontier(ways.len());
    let (fr, arena) = closed(
        start,
        seq![start_token()],
        start.states,
        ways,
        WIDE_INFINITY,
        f,
    );
    arena.len() <= usize::MAX && are_few(fr, arena, ways, rows, 0, opts, beam, f)
}

/// Some token waits at a final state at a finite cost.
pub open spec fn final_reached(fr: Frontier, finals: Seq<(u32, u32)>) -> bool {
    exists|i: int|
        0 <= i < fr.states.len() && final_cost_of(finals, #[trigger] fr.states[i]) is Some
            && is_wide_finite_bits(fr.held[fr.states[i] as int]->0.cost)
}

/// A token at a final state, what it costs to end there, and what it costs in all.
pub struct Ending {
    pub token: usize,
    pub final_cost: u32,
    pub total: u64,
}

/// The best ending among the first `n` states of the frontier, the first one on ties.
pub open spec fn best_ending<F: Fn(FloatOp) -> u64>(
    fr: Frontier,
    finals: Seq<(u32, u32)>,
    n: int,
    f: F,
) -> Option<Ending>
    decreases n,
{
    if n <= 0 {
        None
    } else {
        let rest = best_ending(fr, finals, n - 1, f);
        let state = fr.states[n - 1];
        let h = fr.held[state as int]->0;
        match final_cost_of(finals, state) {
            None => rest,
            Some(c) => {
                let total = wide_value(
                    f,
                    FloatOp::AddWide(h.cost, wide_value(f, FloatOp::Widen(c))),
                );
                if is_wide_finite_bits(total) && (rest is None || wide_less(total, rest->0.total)) {
                    Some(Ending { token: h.token, final_cost: c, total })
                } else {
                    rest
                }
            },
        }
    }
}

/// No ending costs less than the best one.
pub proof fn best_ending_is_least<F: Fn(FloatOp) -> u64>(
    fr: Frontier,
    finals: Seq<(u32, u32)>,
    n: int,
    i: int,
    f: F,
)
    requires
        0 <= i < n <= fr.states.len(),
        final_cost_of(finals, fr.states[i]) is Some,
        is_wide_finite_bits(
            wide_value(
                f,
                FloatOp::AddWide(
                    fr.held[fr.states[i] as int]->0.cost,
                    wide_value(f, FloatOp::Widen(final_cost_of(finals, fr.states[i])->0)),
                ),
            ),
        ),
    ensures
        best_ending(fr, finals, n, f) matches Some(e) && is_wide_finite_bits(e.total) && !wide_less(
            wide_value(
                f,
                FloatOp::AddWide(
                    fr.held[fr.states[i] as int]->0.cost,
                    wide_value(f, FloatOp::Widen(final_cost_of(finals, fr.states[i])->0)),
                ),
            ),
            e.total,
        ),
    decreases n,
{
    best_ending_is_finite(fr, finals, n - 1, f);
    if i < n - 1 {
        best_ending_is_least(fr, finals, n - 1, i, f);
    }
}

proof fn best_ending_is_finite<F: Fn(FloatOp) -> u64>(
    fr: Frontier,
    finals: Seq<(u32, u32)>,
    n: int,
    f: F,
)
    ensures
        best_ending(fr, finals, n, f) matches Some(e) ==> is_wide_finite_bits(e.total),
    decreases n,
{
    if n > 0 {
        best_ending_is_finite(fr, finals, n - 1, f);
    }
}

/// The words along a trail.
pub open spec fn words_along(trail: Seq<Token>) -> Seq<WordId>
    decreases trail.len(),
{
    if trail.len() == 0 {
        Seq::empty()
    } else if trail.last().arc.word != NO_WORD {
        words_along(trail.drop_last()).push(trail.last().arc.word)
    } else {
        words_along(trail.drop_last())
    }
}

/// The pronunciations of the words along a trail.
pub open spec fn prons_along(trail: Seq<Token>) -> Seq<u32>
    decreases trail.len(),
{
    if trail.len() == 0 {
        Seq::empty()
    } else if trail.last().arc.word != NO_WORD {
        prons_along(trail.drop_last()).push(trail.last().arc.pron)
    } else {
        prons_along(trail.drop_last())
    }
}

/// `sum` and the acoustic costs of a trail, added from its end.
pub open spec fn acoustic_total<F: Fn(FloatOp) -> u64>(trail: Seq<Token>, sum: u64, f: F) -> u64
    decreases trail.len(),
{
    if trail.len() == 0 {
        sum
    } else {
        acoustic_total(
            trail.drop_last(),
            wide_value(
                f,
                FloatOp::AddWide(sum, wide_value(f, FloatOp::Widen(trail.last().ac_cost))),
            ),
            f,
        )
    }
}

/// `sum` and the graph costs of a trail, added from its end.
pub open spec fn graph_total<F: Fn(FloatOp) -> u64>(trail: Seq<Token>, sum: u64, f: F) -> u64
    decreases trail.len(),
{
    if trail.len() == 0 {
        sum
    } else {
        graph_total(
            trail.drop_last(),
            wide_value(
                f,
                FloatOp::AddWide(sum, wide_value(f, FloatOp::Widen(trail.last().arc.cost))),
            ),
            f,
        )
    }
}

/// The unscaled log-likelihood of a trail that ends at this cost.
pub open spec fn loglike_of<F: Fn(FloatOp) -> u64>(
    trail: Seq<Token>,
    final_cost: u32,
    scale: u32,
    f: F,
) -> u32 {
    let acoustic = acoustic_total(trail, WIDE_ZERO, f);
    let graph = graph_total(trail, wide_value(f, FloatOp::Widen(final_cost)), f);
    let score = wide_negated(wide_value(f, FloatOp::AddWide(graph, acoustic)));
    value(
        f,
        FloatOp::Narrow(
            if same(scale, ZERO) {
                score
            } else {
                wide_value(f, FloatOp::DivWide(score, wide_value(f, FloatOp::Widen(scale))))
            },
        ),
    )
}

/// What a search finds: the trail of the best ending, and what ending there costs.
pub open spec fn found<F: Fn(FloatOp) -> u64>(
    ways: Seq<Ways>,
    finals: Seq<(u32, u32)>,
    rows: Seq<Seq<u32>>,
    opts: AlignOptions,
    beam: u32,
    f: F,
) -> Option<(Seq<Token>, u32)> {
    let start = start_frontier(ways.len());
    let (fr, arena) = closed(
        start,
        seq![start_token()],
        start.states,
        ways,
        WIDE_INFINITY,
        f,
    );
    match searched(fr, arena, ways, rows, 0, opts, beam, f) {
        Some((fr1, arena1)) => if final_reached(fr1, finals) {
            match best_ending(fr1, finals, fr1.states.len() as int, f) {
                Some(e) => Some((trail_to(arena1, e.token as int), e.final_cost)),
                None => None,
            }
        } else {
            None
        },
        None => None,
    }
}

/// The alignment is the one along this trail.
pub open spec fn is_along<F: Fn(FloatOp) -> u64>(
    ali: Alignment,
    trail: Seq<Token>,
    final_cost: u32,
    scale: u32,
    f: F,
) -> bool {
    &&& ali.utt@.len() == 0
    &&& ali.tids@ == ids_along(trail)
    &&& ali.words@ == words_along(trail)
    &&& ali.prons@ == prons_along(trail)
    &&& ali.loglike == loglike_of(trail, final_cost, scale, f)
}

pub(crate) proof fn start_is_in_order(g: Seq<Seq<Arc>>)
    requires
        g.len() > 0,
    ensures
        books(start_frontier(g.len()), seq![start_token()], g, 0),
        all_held(start_frontier(g.len())),
{
    let arena = seq![start_token()];
    assert(trail_to(arena, 0) =~= Seq::empty());
}

impl<'a> Decoder<'a> {
    /// Whether some token waits at a final state at a finite cost.
    pub fn reached_final(&self) -> (r: bool)
        requires
            self.wf(),
            all_held(self.cur@),
        ensures
            r == final_reached(self.cur@, self.graph.graph@.finals),
    {
        let ghost fr = self.cur@;
        let ghost finals = self.graph.graph@.finals;
        let mut i: usize = 0;
        while i < self.cur.states.len()
            invariant
                self.wf(),
                fr == self.cur@,
                all_held(fr),
                finals == self.graph.graph@.finals,
                i <= fr.states.len(),
                forall|k: int|
                    0 <= k < i ==> !(final_cost_of(finals, #[trigger] fr.states[k]) is Some
                        && is_wide_finite_bits(fr.held[fr.states[k] as int]->0.cost)),
            decreases self.cur.states.len() - i,
        {
            let s: u32 = self.cur.states[i];
            assert(fr.states[i as int] < fr.held.len() && fr.held[fr.states[i as int] as int] is Some);
            if self.graph.graph.is_final(s) && is_wide_finite(self.cur.cost[s as usize]) {
                return true;
            }
            i += 1;
        }
        false
    }

    /// The token of the best ending, and what ending there costs.
    pub fn best_token<F: Fn(FloatOp) -> u64>(&self, f: &F) -> (r: Option<(usize, u32)>)
        requires
            is_evaluator(*f),
            self.wf(),
            all_held(self.cur@),
        ensures
            match best_ending(
                self.cur@,
                self.graph.graph@.finals,
                self.cur@.states.len() as int,
                *f,
            ) {
                Some(e) => r == Some((e.token, e.final_cost)),
                None => r is None,
            },
    {
        let ghost fr = self.cur@;
        let ghost finals = self.graph.graph@.finals;
        let mut best: Option<(usize, u32)> = None;
        let mut least: u64 = WIDE_INFINITY;
        let mut i: usize = 0;
        while i < self.cur.states.len()
            invariant
                is_evaluator(*f),
                self.wf(),
                fr == self.cur@,
                all_held(fr),
                finals == self.graph.graph@.finals,
                i <= fr.states.len(),
                match best_ending(fr, finals, i as int, *f) {
                    Some(e) => best == Some((e.token, e.final_cost)) && least == e.total,
                    None => best is None,
                },
            decreases self.cur.states.len() - i,
        {
            let s: u32 = self.cur.states[i];
            assert(fr.states[i as int] < fr.held.len() && fr.held[fr.states[i as int] as int] is Some);
            match self.graph.graph.final_cost(s) {
                Some(c) => {
                    let total: u64 = eval_wide(
                        f,
                        FloatOp::AddWide(
                            self.cur.cost[s as usize],
                            eval_wide(f, FloatOp::Widen(c)),
                        ),
                    );
                    if is_wide_finite(total) && (best.is_none() || wide_lt(total, least)) {
                        best = Some((self.cur.slot[s as usize], c));
                        least = total;
                    }
                },
                None => {},
            }
            i += 1;
        }
        best
    }

    /// The alignment along the trail of a token.
    fn backtrace<F: Fn(FloatOp) -> u64>(&self, best: usize, final_cost: u32, f: &F, Ghost(g): Ghost<
        Seq<Seq<Arc>>,
    >) -> (r: Alignment)
        requires
            is_evaluator(*f),
            traces(self.arena.toks@, g),
            best < self.arena.toks@.len(),
        ensures
            is_along(
                r,
                trail_to(self.arena.toks@, best as int),
                final_cost,
                self.opts.acoustic_scale,
                *f,
            ),
    {
        let ghost arena = self.arena.toks@;
        let ghost full = trail_to(arena, best as int);
        let ghost start_sum = wide_value(*f, FloatOp::Widen(final_cost));
        let mut tids: Vec<TransitionId> = Vec::new();
        let mut words: Vec<WordId> = Vec::new();
        let mut prons: Vec<u32> = Vec::new();
        let mut total_ac: u64 = WIDE_ZERO;
        let mut total_graph: u64 = eval_wide(f, FloatOp::Widen(final_cost));
        let mut cur: usize = best;
        proof {
            assert(ids_along(full) + tids@.reverse() =~= ids_along(full));
            assert(words_along(full) + words@.reverse() =~= words_along(full));
            assert(prons_along(full) + prons@.reverse() =~= prons_along(full));
        }
        while self.arena.toks[cur].prev != usize::MAX
            invariant
                is_evaluator(*f),
                arena == self.arena.toks@,
                traces(arena, g),
                cur < arena.len(),
                full == trail_to(arena, best as int),
                start_sum == wide_value(*f, FloatOp::Widen(final_cost)),
                ids_along(full) == ids_along(trail_to(arena, cur as int)) + tids@.reverse(),
                words_along(full) == words_along(trail_to(arena, cur as int)) + words@.reverse(),
                prons_along(full) == prons_along(trail_to(arena, cur as int)) + prons@.reverse(),
                acoustic_total(full, WIDE_ZERO, *f) == acoustic_total(
                    trail_to(arena, cur as int),
                    total_ac,
                    *f,
                ),
                graph_total(full, start_sum, *f) == graph_total(
                    trail_to(arena, cur as int),
                    total_graph,
                    *f,
                ),
            decreases cur,
        {
            let t: Token = self.arena.toks[cur];
            assert(arena[cur as int] == t);
            let ghost trail = trail_to(arena, cur as int);
            let ghost rest = trail_to(arena, t.prev as int);
            let ghost tids0 = tids@;
            let ghost words0 = words@;
            let ghost prons0 = prons@;
            proof {
                assert(trail == rest.push(t));
                assert(trail.drop_last() =~= rest);
            }
            if t.arc.tid != 0 {
                tids.push(t.arc.tid);
                assert(tids@.reverse() =~= seq![t.arc.tid] + tids0.reverse());
                assert(ids_along(rest) + tids@.reverse() =~= ids_along(trail) + tids0.reverse());
            }
            if t.arc.word != NO_WORD {
                words.push(t.arc.word);
                prons.push(t.arc.pron);
                assert(words@.reverse() =~= seq![t.arc.word] + words0.reverse());
                assert(words_along(rest) + words@.reverse() =~= words_along(trail)
                    + words0.reverse());
                assert(prons@.reverse() =~= seq![t.arc.pron] + prons0.reverse());
                assert(prons_along(rest) + prons@.reverse() =~= prons_along(trail)
                    + prons0.reverse());
            }
            total_ac = eval_wide(
                f,
                FloatOp::AddWide(total_ac, eval_wide(f, FloatOp::Widen(t.ac_cost))),
            );
            total_graph = eval_wide(
                f,
                FloatOp::AddWide(total_graph, eval_wide(f, FloatOp::Widen(t.arc.cost))),
            );
            cur = t.prev;
        }
        proof {
            assert(trail_to(arena, cur as int) =~= Seq::empty());
            assert(ids_along(full) =~= tids@.reverse());
            assert(words_along(full) =~= words@.reverse());
            assert(prons_along(full) =~= prons@.reverse());
        }
        let score: u64 = wide_neg(eval_wide(f, FloatOp::AddWide(total_graph, total_ac)));
        let scale: u32 = self.opts.acoustic_scale;
        let scaled: u64 = if eq(scale, ZERO) {
            score
        } else {
            eval_wide(f, FloatOp::DivWide(score, eval_wide(f, FloatOp::Widen(scale))))
        };
        Alignment {
            utt: String::new(),
            tids: reversed(&tids),
            words: reversed(&words),
            prons: reversed(&prons),
            loglike: eval(f, FloatOp::Narrow(scaled)),
        }
    }
}

fn reversed(v: &Vec<u32>) -> (r: Vec<u32>)
    ensures
        r@ == v@.reverse(),
{
    let mut out: Vec<u32> = Vec::new();
    let mut i: usize = v.len();
    while i > 0
        invariant
            i <= v@.len(),
            out@ == v@.reverse().take(v@.len() - i),
        decreases i,
    {
        i -= 1;
        out.push(v[i]);
        assert(out@ =~= v@.reverse().take(v@.len() - i));
    }
    assert(out@ =~= v@.reverse());
    out
}

/// Search with one beam.
fn decode<F: Fn(FloatOp) -> u64>(
    graph: &PreparedGraph<'_>,
    scores: &Matrix,
    opts: &AlignOptions,
    beam: u32,
    f: &F,
) -> (r: Option<Alignment>)
    requires
        is_evaluator(*f),
        0 < graph.graph@.states.len() <= u32::MAX + 1,
        ways_fit(ways_of(graph.states@), graph.graph@.states, scores@.cols),
        scores@.wf(),
    ensures
        match found(
            ways_of(graph.states@),
            graph.graph@.finals,
            scores@.rows,
            *opts,
            beam,
            *f,
        ) {
            Some(x) => r matches Some(ali) && is_along(ali, x.0, x.1, opts.acoustic_scale, *f)
                && ali.tids@.len() == scores@.rows.len() && is_path(
                graph.graph@.states,
                arcs_along(x.0),
            ) && final_cost_of(graph.graph@.finals, ends_at(arcs_along(x.0))) == Some(x.1),
            None => r is None,
        },
        tokens_are_few(ways_of(graph.states@), scores@.rows, *opts, beam, *f),
{
    let ghost ways = ways_of(graph.states@);
    let ghost g = graph.graph@.states;
    let ghost finals = graph.graph@.finals;
    let ghost rows = scores@.rows;
    let ghost cols = scores@.cols;
    let num_frames: usize = scores.rows.len();
    let mut d = Decoder::new(graph, opts, beam);
    let start: usize = d.arena.push(
        Token {
            prev: usize::MAX,
            arc: Arc { tid: 0, word: NO_WORD, pron: NO_PRON, next: 0, cost: ZERO, lm: ZERO },
            ac_cost: ZERO,
        },
    );
    d.cur.slot.set(0, start);
    d.cur.cost.set(0, WIDE_ZERO);
    d.cur.states.push(0);
    proof {
        assert(d.arena.toks@ =~= seq![start_token()]);
        assert(d.cur@.held =~= start_frontier(g.len()).held);
        assert(d.cur@.states =~= start_frontier(g.len()).states);
        assert(d.cur@ == start_frontier(g.len()));
        assert(d.cur.states@[0] == 0);
        assert(d.cur.wf());
        start_is_in_order(g);
        assert(epsilons_lead_inside(ways)) by {
            assert forall|s: int, k: int|
                0 <= s < ways.len() && 0 <= k < ways[s].epsilon.len() implies (
            #[trigger] ways[s].epsilon[k]).next < ways.len() by {
                assert(ways[s].epsilon[k].tid == 0);
            }
        }
        assert(emissions_fit(ways, cols)) by {
            assert forall|s: int, k: int|
                0 <= s < ways.len() && 0 <= k < ways[s].emitting.len() implies {
                let w = #[trigger] ways[s].emitting[k];
                w.0.next < ways.len() && w.1 < cols
            } by {
                assert(ways[s].emitting[k].0.tid != 0);
            }
        }
    }
    let ghost fr_start = d.cur@;
    let ghost arena_start = d.arena.toks@;
    d.process_nonemitting(WIDE_INFINITY, f);
    let size: usize = d.arena.toks.len();
    proof {
        closing_keeps_books(
            fr_start,
            arena_start,
            fr_start.states,
            ways,
            WIDE_INFINITY,
            *f,
            g,
            cols,
            0,
        );
    }
    let ghost want = searched(d.cur@, d.arena.toks@, ways, rows, 0, *opts, beam, *f);
    let mut frame: usize = 0;
    while frame < num_frames
        invariant
            is_evaluator(*f),
            d.wf(),
            d.graph == graph,
            d.opts == *opts,
            d.beam == beam,
            ways == d.ways(),
            g == graph.graph@.states,
            rows == scores@.rows,
            cols == scores@.cols,
            scores@.wf(),
            num_frames == scores.rows@.len(),
            ways_fit(ways, g, cols),
            epsilons_lead_inside(ways),
            emissions_fit(ways, cols),
            all_held(d.cur@),
            books(d.cur@, d.arena.toks@, g, frame as nat),
            frame <= num_frames,
            found(ways, graph.graph@.finals, rows, *opts, beam, *f) == (match want {
                Some((fr1, arena1)) => if final_reached(fr1, graph.graph@.finals) {
                    match best_ending(fr1, graph.graph@.finals, fr1.states.len() as int, *f) {
                        Some(e) => Some((trail_to(arena1, e.token as int), e.final_cost)),
                        None => None,
                    }
                } else {
                    None
                },
                None => None,
            }),
            want == searched(
                d.cur@,
                d.arena.toks@,
                ways,
                rows,
                frame as int,
                *opts,
                beam,
                *f,
            ),
            are_few(
                d.cur@,
                d.arena.toks@,
                ways,
                rows,
                frame as int,
                *opts,
                beam,
                *f,
            ) ==> tokens_are_few(ways, rows, *opts, beam, *f),
        decreases num_frames - frame,
    {
        let ghost fr0 = d.cur@;
        let ghost arena0 = d.arena.toks@;
        assert(rows[frame as int] == scores.rows@[frame as int]@);
        let cutoff: u64 = d.process_emitting(&scores.rows[frame], f);
        let ghost fr1 = d.cur@;
        let ghost arena1 = d.arena.toks@;
        let size: usize = d.arena.toks.len();
        proof {
            emitting_keeps_books(
                fr0,
                arena0,
                ways,
                rows[frame as int],
                *opts,
                beam,
                *f,
                g,
                cols,
                frame as nat,
            );
        }
        d.process_nonemitting(cutoff, f);
        let size: usize = d.arena.toks.len();
        proof {
            assert forall|k: int| 0 <= k < fr1.states.len() implies (#[trigger] fr1.states[k])
                < g.len() by {
                assert(fr1.states[k] < fr1.held.len());
            }
            closing_keeps_books(
                fr1,
                arena1,
                fr1.states,
                ways,
                cutoff,
                *f,
                g,
                cols,
                (frame + 1) as nat,
            );
        }
        if d.cur.states.len() == 0 {
            return None;
        }
        frame += 1;
    }
    if !d.reached_final() {
        return None;
    }
    match d.best_token(f) {
        Some((best, final_cost)) => {
            proof {
                let e = best_ending_place(d.cur@, finals, d.cur@.states.len() as int, *f);
                assert(d.cur@.states[e] < d.cur@.held.len()
                    && d.cur@.held[d.cur@.states[e] as int] is Some);
                trail_is_a_path(d.arena.toks@, g, best as int);
            }
            Some(d.backtrace(best, final_cost, f, Ghost(g)))
        },
        None => None,
    }
}

/// Where the best ending waits.
pub(crate) proof fn best_ending_place<F: Fn(FloatOp) -> u64>(
    fr: Frontier,
    finals: Seq<(u32, u32)>,
    n: int,
    f: F,
) -> (i: int)
    requires
        0 <= n <= fr.states.len(),
        best_ending(fr, finals, n, f) is Some,
    ensures
        0 <= i < n,
        final_cost_of(finals, fr.states[i]) == Some(best_ending(fr, finals, n, f)->0.final_cost),
        fr.held[fr.states[i] as int]->0.token == best_ending(fr, finals, n, f)->0.token,
        best_ending(fr, finals, n, f)->0.total == wide_value(
            f,
            FloatOp::AddWide(
                fr.held[fr.states[i] as int]->0.cost,
                wide_value(f, FloatOp::Widen(best_ending(fr, finals, n, f)->0.final_cost)),
            ),
        ),
    decreases n,
{
    let rest = best_ending(fr, finals, n - 1, f);
    let state = fr.states[n - 1];
    let h = fr.held[state as int]->0;
    if rest is Some && best_ending(fr, finals, n, f) == rest {
        best_ending_place(fr, finals, n - 1, f)
    } else {
        n - 1
    }
}

proof fn emitting_keeps_books<F: Fn(FloatOp) -> u64>(
    fr: Frontier,
    arena: Seq<Token>,
    ways: Seq<Ways>,
    row: Seq<u32>,
    opts: AlignOptions,
    beam: u32,
    f: F,
    g: Seq<Seq<Arc>>,
    cols: int,
    t: nat,
)
    requires
        books(fr, arena, g, t),
        all_held(fr),
        ways_fit(ways, g, cols),
        emitted(fr, arena, ways, row, opts, beam, f).1.len() <= usize::MAX,
    ensures
        books(
            emitted(fr, arena, ways, row, opts, beam, f).0,
            emitted(fr, arena, ways, row, opts, beam, f).1,
            g,
            t + 1,
        ),
{
    let costs = costs_of(fr);
    let (frame_cutoff, adaptive) = cutoff_of(costs, opts, beam, f);
    let start = match best_place(costs, costs.len() as int) {
        Some(i) => preview(
            WIDE_INFINITY,
            ways[fr.states[i] as int].emitting,
            0,
            costs[i],
            row,
            opts.acoustic_scale,
            adaptive,
            f,
        ),
        None => WIDE_INFINITY,
    };
    advancing_keeps_books(
        fr,
        no_tokens(fr.held.len()),
        arena,
        start,
        0,
        ways,
        row,
        opts.acoustic_scale,
        frame_cutoff,
        adaptive,
        f,
        g,
        cols,
        t,
    );
}

/// What the alignment of an utterance finds: with the beam, or failing that with the retry beam if
/// it is wider.
pub open spec fn aligned<F: Fn(FloatOp) -> u64>(
    ways: Seq<Ways>,
    finals: Seq<(u32, u32)>,
    rows: Seq<Seq<u32>>,
    opts: AlignOptions,
    f: F,
) -> Option<(Seq<Token>, u32)> {
    match found(ways, finals, rows, opts, opts.beam, f) {
        Some(x) => Some(x),
        None => if less(opts.beam, opts.retry_beam) {
            found(ways, finals, rows, opts, opts.retry_beam, f)
        } else {
            None
        },
    }
}

/// Align an utterance with its graph.
///
/// `scores` holds a row of log-likelihoods for each frame; `pdf_col` gives the column of a pdf. The
/// log-likelihoods are multiplied by the acoustic scale. There is no alignment if no final state is
/// reached, even with the retry beam. An alignment has an id for each frame, and is that of a path
/// through the graph from its start to a final state.
pub fn align<F: Fn(FloatOp) -> u64, G: Fn(PdfId) -> usize>(
    graph: &Graph,
    tm: &TransitionModel,
    scores: &Matrix,
    pdf_col: &G,
    opts: &AlignOptions,
    f: &F,
) -> (r: Option<Alignment>)
    requires
        is_evaluator(*f),
        tm.wf(),
        0 < graph@.states.len() <= u32::MAX + 1,
        arcs_fit(graph@.states, tm@),
        scores@.wf(),
        columns_fit(graph@, tm@, *pdf_col, scores@.cols),
    ensures
        match aligned(
            prepared(graph@, tm@, *pdf_col),
            graph@.finals,
            scores@.rows,
            *opts,
            *f,
        ) {
            Some(x) => r matches Some(ali) && is_along(ali, x.0, x.1, opts.acoustic_scale, *f)
                && ali.tids@.len() == scores@.rows.len() && is_path(graph@.states, arcs_along(x.0))
                && final_cost_of(graph@.finals, ends_at(arcs_along(x.0))) == Some(x.1),
            None => r is None,
        },
        tokens_are_few(
            prepared(graph@, tm@, *pdf_col),
            scores@.rows,
            *opts,
            opts.beam,
            *f,
        ),
{
    let prepared_graph = PreparedGraph::new(graph, tm, pdf_col);
    proof {
        prepared_ways_fit(graph@, tm@, *pdf_col, scores@.cols);
    }
    match decode(&prepared_graph, scores, opts, opts.beam, f) {
        Some(ali) => Some(ali),
        None => {
            if lt(opts.beam, opts.retry_beam) {
                decode(&prepared_graph, scores, opts, opts.retry_beam, f)
            } else {
                None
            }
        },
    }
}

} // verus!
