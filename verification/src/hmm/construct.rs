//! The construction of an utterance's decoding graph from its words.
//!
//! Every pronunciation of a word is a branch of its own. Between words, and at both ends, silence
//! is optional; which way a path took decides the left context of what follows, so the paths wait
//! at separate hubs. A phone becomes a copy of its HMM: one arc for each transition that is no
//! self-loop. The self-loops come last, over the finished graph.

use vstd::prelude::*;

use crate::float::{
    abs, at_most, eq, eval, is_evaluator, is_finite, is_finite_bits, le, less, lt, magnitude, neg,
    negated, same, value, FloatOp, INFINITY, ONE, ZERO,
};
use crate::hmm::context::{window_event, ContextDependency};
use crate::hmm::graph::{
    arc_fits, arcs_fit, arcs_of, costed, Arc, Graph, GraphState, GraphView, HALF, NO_PRON, NO_WORD,
    TENTH,
};
use crate::hmm::selfloops::{
    add_self_loops, loop_arc, redirected_all, self_looped, source, sources_exist, split, split_len,
};
use crate::hmm::topology::{
    classes_of, covers, max_class, state_views, states_of, EntryView, HmmState, StateView,
};
use crate::hmm::transition::{
    pairs_and_ids_agree, state_number, tuple_place, ModelView, TransitionModel, Tuple,
};
use crate::order::{ascending, is_ascending, sorted_unique};
use crate::tree::{answer, Tree};
use crate::types::{PdfId, PhoneId, PronView, Pronunciation, TransitionId, WordId};

verus! {

/// Single-precision 0.01, the least probability of a pronunciation.
pub const PRON_FLOOR: u32 = 0x3c23_d70a;

/// How a graph is built. The scales and probabilities are single-precision bits.
#[derive(Clone, Copy, Debug, PartialEq, Eq, Structural)]
pub struct GraphOptions {
    pub transition_scale: u32,
    pub self_loop_scale: u32,
    /// The phone of the optional silence.
    pub silence_phone: PhoneId,
    /// How likely silence follows a word.
    pub silence_prob: u32,
    /// How likely the utterance starts with silence.
    pub initial_silence_prob: u32,
    /// Correction factor for ending in silence; one corrects nothing.
    pub final_silence_correction: u32,
    /// Correction factor for ending without silence.
    pub final_non_silence_correction: u32,
    /// Whether the phones carry word-position tags already.
    pub position_dependent: bool,
}

impl Default for GraphOptions {
    fn default() -> (r: Self)
        ensures
            r == (GraphOptions {
                transition_scale: ONE,
                self_loop_scale: TENTH,
                silence_phone: 1,
                silence_prob: HALF,
                initial_silence_prob: HALF,
                final_silence_correction: ONE,
                final_non_silence_correction: ONE,
                position_dependent: true,
            }),
    {
        GraphOptions {
            transition_scale: ONE,
            self_loop_scale: TENTH,
            silence_phone: 1,
            silence_prob: HALF,
            initial_silence_prob: HALF,
            final_silence_correction: ONE,
            final_non_silence_correction: ONE,
            position_dependent: true,
        }
    }
}

/// Which side of an optional silence a path is on.
#[derive(Clone, Copy, Debug, PartialEq, Eq, Structural)]
pub enum Branch {
    /// Through the silence.
    Silence,
    /// Past it.
    Direct,
}

/// Where a path can wait between words: a graph state, the side of the silence that it came
/// through, and the phone before it.
#[derive(Clone, Copy, Debug, PartialEq, Eq, Structural)]
pub struct Hub {
    pub branch: Branch,
    pub state: u32,
    pub left: PhoneId,
}

/// A state that a phone can start from, and the phone before it.
#[derive(Clone, Copy, Debug, PartialEq, Eq, Structural)]
pub struct Entry {
    pub state: u32,
    pub left: PhoneId,
}

/// What can follow a word: a side of the optional silence, and the next phone on it.
#[derive(Clone, Copy, Debug, PartialEq, Eq, Structural)]
pub struct Exit {
    pub branch: Branch,
    pub right: PhoneId,
}

/// What a graph is built over.
pub struct Setup {
    pub m: ModelView,
    /// The width of the context window.
    pub n: int,
    /// Its central position.
    pub p: int,
    pub tree: Tree,
    pub opts: GraphOptions,
}

/// `-ln p`, infinite where `p` is not positive.
pub open spec fn neg_log_of<F: Fn(FloatOp) -> u64>(p: u32, f: F) -> u32 {
    if at_most(p, ZERO) {
        INFINITY
    } else {
        negated(value(f, FloatOp::Ln(p)))
    }
}

/// `1 - p`.
pub open spec fn complement<F: Fn(FloatOp) -> u64>(p: u32, f: F) -> u32 {
    value(f, FloatOp::Sub(ONE, p))
}

/// The cost of a pronunciation of probability `prob`, which counts as at least [`PRON_FLOOR`].
pub open spec fn pron_cost_of<F: Fn(FloatOp) -> u64>(prob: Option<u32>, f: F) -> u32 {
    match prob {
        Some(p) => magnitude(
            value(
                f,
                FloatOp::Ln(
                    if less(p, PRON_FLOOR) {
                        PRON_FLOOR
                    } else {
                        p
                    },
                ),
            ),
        ),
        None => ZERO,
    }
}

/// The cost of a correction factor; none and zero correct nothing.
pub open spec fn corr_cost_of<F: Fn(FloatOp) -> u64>(c: Option<u32>, f: F) -> u32 {
    match c {
        Some(x) => if same(x, ZERO) {
            ZERO
        } else {
            neg_log_of(x, f)
        },
        None => ZERO,
    }
}

/// What it costs that silence follows a pronunciation, and that none does.
pub open spec fn after_costs_of<F: Fn(FloatOp) -> u64>(
    after: Option<u32>,
    silence_prob: u32,
    f: F,
) -> (u32, u32) {
    if after is Some && !same(after->0, ZERO) {
        (neg_log_of(after->0, f), neg_log_of(complement(after->0, f), f))
    } else if less(ZERO, silence_prob) {
        (neg_log_of(silence_prob, f), neg_log_of(complement(silence_prob, f), f))
    } else {
        (INFINITY, ZERO)
    }
}

/// `-ln p`, infinite where `p` is not positive.
pub fn neg_log<F: Fn(FloatOp) -> u64>(p: u32, f: &F) -> (r: u32)
    requires
        is_evaluator(*f),
    ensures
        r == neg_log_of(p, *f),
{
    if le(p, ZERO) {
        INFINITY
    } else {
        neg(eval(f, FloatOp::Ln(p)))
    }
}

/// The cost of a pronunciation.
pub fn pron_cost<F: Fn(FloatOp) -> u64>(prob: Option<u32>, f: &F) -> (r: u32)
    requires
        is_evaluator(*f),
    ensures
        r == pron_cost_of(prob, *f),
{
    match prob {
        Some(p) => {
            let floored: u32 = if lt(p, PRON_FLOOR) {
                PRON_FLOOR
            } else {
                p
            };
            abs(eval(f, FloatOp::Ln(floored)))
        },
        None => ZERO,
    }
}

/// The cost of a correction factor.
pub fn corr_cost<F: Fn(FloatOp) -> u64>(c: Option<u32>, f: &F) -> (r: u32)
    requires
        is_evaluator(*f),
    ensures
        r == corr_cost_of(c, *f),
{
    match c {
        Some(x) => {
            if eq(x, ZERO) {
                ZERO
            } else {
                neg_log(x, f)
            }
        },
        None => ZERO,
    }
}

/// What it costs that silence follows a pronunciation, and that none does: by the pronunciation's
/// own probability, or by the global one.
pub fn after_costs<F: Fn(FloatOp) -> u64>(pron: &Pronunciation, opts: &GraphOptions, f: &F) -> (r: (
    u32,
    u32,
))
    requires
        is_evaluator(*f),
    ensures
        r == after_costs_of(pron@.silence_after_prob, opts.silence_prob, *f),
{
    match pron.silence_after_prob {
        Some(p) => {
            if !eq(p, ZERO) {
                return (neg_log(p, f), neg_log(eval(f, FloatOp::Sub(ONE, p)), f));
            }
        },
        None => {},
    }
    if lt(ZERO, opts.silence_prob) {
        (
            neg_log(opts.silence_prob, f),
            neg_log(eval(f, FloatOp::Sub(ONE, opts.silence_prob)), f),
        )
    } else {
        (INFINITY, ZERO)
    }
}

/// The context window around `center`: its neighbours as far as the window reaches, 0 beyond.
pub open spec fn window_of(n: int, p: int, left: PhoneId, center: PhoneId, right: PhoneId) -> Seq<
    PhoneId,
> {
    Seq::new(
        n as nat,
        |i: int|
            if i == p {
                center
            } else if i == p - 1 {
                left
            } else if i == p + 1 {
                right
            } else {
                0
            },
    )
}

/// The context window that the tree expects around `center`.
pub fn make_window(ctx: &ContextDependency, left: PhoneId, center: PhoneId, right: PhoneId) -> (r:
    Vec<PhoneId>)
    ensures
        r@ == window_of(ctx.n as int, ctx.p as int, left, center, right),
{
    let mut w: Vec<PhoneId> = Vec::new();
    let mut i: usize = 0;
    while i < ctx.n
        invariant
            i <= ctx.n,
            w@ == window_of(ctx.n as int, ctx.p as int, left, center, right).take(i as int),
        decreases ctx.n - i,
    {
        let phone: PhoneId = if i == ctx.p {
            center
        } else if ctx.p >= 1 && i == ctx.p - 1 {
            left
        } else if i >= 1 && i - 1 == ctx.p {
            right
        } else {
            0
        };
        w.push(phone);
        assert(w@ =~= window_of(ctx.n as int, ctx.p as int, left, center, right).take(i + 1));
        i += 1;
    }
    assert(w@ =~= window_of(ctx.n as int, ctx.p as int, left, center, right));
    w
}

/// The states with `k` new ones.
pub open spec fn grown(g: Seq<Seq<Arc>>, k: nat) -> Seq<Seq<Arc>> {
    g + Seq::new(k, |i: int| Seq::<Arc>::empty())
}

/// There are ids for `k` new states.
pub open spec fn roomy(g: Seq<Seq<Arc>>, k: int) -> bool {
    g.len() + k <= u32::MAX
}

/// The states with an arc added.
pub open spec fn with_arc(g: Seq<Seq<Arc>>, from: u32, a: Arc) -> Seq<Seq<Arc>> {
    g.update(from as int, g[from as int].push(a))
}

/// An epsilon arc.
pub open spec fn epsilon(next: u32, cost: u32) -> Arc {
    Arc { tid: 0, word: NO_WORD, pron: NO_PRON, next, cost, lm: cost }
}

/// The tuple of HMM state `s` of the phone at the centre of `window`.
pub open spec fn state_tuple(su: Setup, window: Seq<PhoneId>, s: int) -> Tuple {
    let phone = window[su.p];
    let class = states_of(su.m.topo, phone)[s].pdf_class;
    let pdf = answer(su.tree, window_event(window, class))->0;
    Tuple { phone, hmm_state: s as usize, forward_pdf: pdf, self_loop_pdf: pdf }
}

/// Transition `k` of HMM state `s` can become an arc: it loops, or it leads to a state of the phone
/// and the model has the tuple of its own state, if that emits.
pub open spec fn transition_ready(su: Setup, window: Seq<PhoneId>, s: int, k: int) -> bool {
    let states = states_of(su.m.topo, window[su.p]);
    let dest = states[s].transitions[k].0;
    dest == s || (dest < states.len() && (states[s].emits() ==> states[s].pdf_class >= 0
        && su.m.tuples.contains(state_tuple(su, window, s))))
}

/// The phone at the centre of `window` can be emitted: the topology covers it, the tree has a pdf
/// for each of its pdf-classes, and the model has its transitions.
pub open spec fn emittable(su: Setup, window: Seq<PhoneId>) -> bool {
    let phone = window[su.p];
    let states = states_of(su.m.topo, phone);
    &&& covers(su.m.topo, phone)
    &&& states.len() > 0
    &&& forall|c: int|
        0 <= c < classes_of(su.m.topo, phone) ==> #[trigger] answer(
            su.tree,
            window_event(window, c as i32),
        ) is Some
    &&& forall|s: int, k: int|
        0 <= s < states.len() && 0 <= k < states[s].transitions.len()
            ==> #[trigger] transition_ready(su, window, s, k)
}

/// The graph state of HMM state `s`, of `n`: the first is `from`, the last is `to`, those between
/// are new.
pub open spec fn placed(base: int, n: int, from: u32, to: u32, s: int) -> u32 {
    if s == n - 1 {
        to
    } else if s == 0 {
        from
    } else {
        (base + s - 1) as u32
    }
}

/// Where and as what a phone is emitted.
pub struct Spot {
    pub window: Seq<PhoneId>,
    /// The first of the new states.
    pub base: int,
    pub from: u32,
    pub to: u32,
    pub word: WordId,
    pub pron: u32,
}

/// The arc of transition `k` of HMM state `s`. The labels stand on what leaves the first state.
pub open spec fn hmm_arc<F: Fn(FloatOp) -> u64>(su: Setup, spot: Spot, s: int, k: int, f: F) -> Arc {
    let states = states_of(su.m.topo, spot.window[su.p]);
    let (dest, prob) = states[s].transitions[k];
    let lm = if states[s].emits() {
        ZERO
    } else {
        value(f, FloatOp::Mul(negated(su.opts.transition_scale), value(f, FloatOp::Ln(prob))))
    };
    Arc {
        tid: if states[s].emits() {
            (su.m.first_id(state_number(su.m, state_tuple(su, spot.window, s))) + k) as u32
        } else {
            0
        },
        word: if s == 0 {
            spot.word
        } else {
            NO_WORD
        },
        pron: if s == 0 {
            spot.pron
        } else {
            NO_PRON
        },
        next: placed(spot.base, states.len() as int, spot.from, spot.to, dest as int),
        cost: lm,
        lm,
    }
}

/// The arcs of the first `k` transitions of HMM state `s`, but for self-loops.
pub open spec fn hmm_arcs<F: Fn(FloatOp) -> u64>(su: Setup, spot: Spot, s: int, k: int, f: F) -> Seq<
    Arc,
>
    decreases k,
{
    if k <= 0 {
        Seq::empty()
    } else {
        let rest = hmm_arcs(su, spot, s, k - 1, f);
        if states_of(su.m.topo, spot.window[su.p])[s].transitions[k - 1].0 == s {
            rest
        } else {
            rest.push(hmm_arc(su, spot, s, k - 1, f))
        }
    }
}

/// `g` with the arcs of the first `s` HMM states.
pub open spec fn with_hmm<F: Fn(FloatOp) -> u64>(
    g: Seq<Seq<Arc>>,
    su: Setup,
    spot: Spot,
    s: int,
    f: F,
) -> Seq<Seq<Arc>>
    decreases s,
{
    if s <= 0 {
        g
    } else {
        let rest = with_hmm(g, su, spot, s - 1, f);
        let states = states_of(su.m.topo, spot.window[su.p]);
        let at = placed(spot.base, states.len() as int, spot.from, spot.to, s - 1) as int;
        rest.update(
            at,
            rest[at] + hmm_arcs(su, spot, s - 1, states[s - 1].transitions.len() as int, f),
        )
    }
}

/// How many new states a phone needs.
pub open spec fn inner_states(su: Setup, window: Seq<PhoneId>) -> nat {
    let n = states_of(su.m.topo, window[su.p]).len();
    if n > 2 {
        (n - 2) as nat
    } else {
        0
    }
}

/// The states with the HMM of the phone at the centre of `window` between `from` and `to`.
pub open spec fn with_phone<F: Fn(FloatOp) -> u64>(
    g: Seq<Seq<Arc>>,
    su: Setup,
    window: Seq<PhoneId>,
    from: u32,
    to: u32,
    word: WordId,
    pron: u32,
    f: F,
) -> Option<Seq<Seq<Arc>>> {
    if emittable(su, window) && roomy(g, inner_states(su, window) as int) {
        Some(
            with_hmm(
                grown(g, inner_states(su, window)),
                su,
                Spot { window, base: g.len() as int, from, to, word, pron },
                states_of(su.m.topo, window[su.p]).len() as int,
                f,
            ),
        )
    } else {
        None
    }
}

/// The first state of every phone emits.
pub open spec fn first_states_emit(topo: Seq<EntryView>) -> bool {
    forall|p: PhoneId| #[trigger] covers(topo, p) ==> states_of(topo, p)[0].emits()
}

/// The arc leaves the first state of a phone.
pub open spec fn starts_phone(a: Arc, m: ModelView) -> bool {
    &&& a.tid != 0 ==> m.tuple_of(a.tid as int).hmm_state == 0
    &&& first_states_emit(m.topo) ==> a.tid != 0
}

/// A label stands on what leaves the first state of a phone.
pub open spec fn label_is_placed(a: Arc, m: ModelView) -> bool {
    a.word != NO_WORD || a.pron != NO_PRON ==> starts_phone(a, m)
}

/// Every label stands on what leaves the first state of a phone.
pub open spec fn labels_are_placed(states: Seq<Seq<Arc>>, m: ModelView) -> bool {
    forall|s: int, k: int|
        0 <= s < states.len() && 0 <= k < states[s].len() ==> label_is_placed(
            #[trigger] states[s][k],
            m,
        )
}

/// A graph under construction.
struct Builder<'a, F: Fn(FloatOp) -> u64> {
    states: Vec<GraphState>,
    tm: &'a TransitionModel,
    ctx: &'a ContextDependency,
    opts: &'a GraphOptions,
    f: &'a F,
}

/// What a graph over this model and tree is built over.
pub open spec fn setup_of(tm: &TransitionModel, ctx: &ContextDependency, opts: &GraphOptions) -> Setup {
    Setup { m: tm@, n: ctx.n as int, p: ctx.p as int, tree: ctx.map.tree(), opts: *opts }
}

/// The arcs lead to states, carry ids of the model, and have their labels where they belong.
spec fn is_draft(g: Seq<Seq<Arc>>, m: ModelView) -> bool {
    arcs_fit(g, m) && labels_are_placed(g, m)
}

impl<'a, F: Fn(FloatOp) -> u64> Builder<'a, F> {
    spec fn net(&self) -> Seq<Seq<Arc>> {
        arcs_of(self.states@)
    }

    spec fn su(&self) -> Setup {
        setup_of(self.tm, self.ctx, self.opts)
    }

    spec fn ready(&self) -> bool {
        &&& is_evaluator(*self.f)
        &&& self.tm.wf()
        &&& self.ctx.p < self.ctx.n
    }

    spec fn wf(&self) -> bool {
        self.ready() && is_draft(self.net(), self.tm@)
    }

    /// Everything but the states is as it was.
    spec fn follows(&self, before: &Self) -> bool {
        &&& self.tm == before.tm
        &&& self.ctx == before.ctx
        &&& self.opts == before.opts
        &&& self.f == before.f
        &&& self.net().len() >= before.net().len()
    }
}

proof fn growing_keeps_draft(g: Seq<Seq<Arc>>, k: nat, m: ModelView)
    requires
        is_draft(g, m),
    ensures
        is_draft(grown(g, k), m),
{
    let h = grown(g, k);
    assert forall|s: int, j: int| 0 <= s < h.len() && 0 <= j < h[s].len() implies arc_fits(
        #[trigger] h[s][j],
        h.len() as int,
        m,
    ) && label_is_placed(h[s][j], m) by {
        assert(s < g.len());
        assert(h[s][j] == g[s][j]);
        assert(arc_fits(g[s][j], g.len() as int, m));
        assert(label_is_placed(g[s][j], m));
    }
}

proof fn adding_arcs_keeps_draft(g: Seq<Seq<Arc>>, at: int, added: Seq<Arc>, m: ModelView)
    requires
        is_draft(g, m),
        0 <= at < g.len(),
        forall|j: int|
            0 <= j < added.len() ==> arc_fits(#[trigger] added[j], g.len() as int, m)
                && label_is_placed(added[j], m),
    ensures
        is_draft(g.update(at, g[at] + added), m),
{
    let h = g.update(at, g[at] + added);
    assert forall|s: int, j: int| 0 <= s < h.len() && 0 <= j < h[s].len() implies arc_fits(
        #[trigger] h[s][j],
        h.len() as int,
        m,
    ) && label_is_placed(h[s][j], m) by {
        if s == at && j >= g[at].len() {
            assert(h[s][j] == added[j - g[at].len()]);
        } else {
            assert(h[s][j] == g[s][j]);
            assert(arc_fits(g[s][j], g.len() as int, m));
            assert(label_is_placed(g[s][j], m));
        }
    }
}

proof fn class_is_counted(states: Seq<StateView>, s: int)
    requires
        0 <= s < states.len(),
    ensures
        states[s].pdf_class <= max_class(states),
    decreases states.len(),
{
    if s < states.len() - 1 {
        class_is_counted(states.drop_last(), s);
    }
}

impl<'a, F: Fn(FloatOp) -> u64> Builder<'a, F> {
    /// A new state, if there is an id for it.
    fn add_state(&mut self) -> (r: Option<u32>)
        requires
            old(self).wf(),
        ensures
            final(self).follows(old(self)),
            r is Some == roomy(old(self).net(), 1),
            r matches Some(s) ==> s == old(self).net().len() && final(self).wf()
                && final(self).net() == grown(old(self).net(), 1),
    {
        let ghost before = self.net();
        if self.states.len() >= 0xffff_ffff {
            return None;
        }
        let s: u32 = self.states.len() as u32;
        self.states.push(GraphState { arcs: Vec::new() });
        proof {
            assert(self.net() =~= grown(before, 1)) by {
                assert(self.net().last() =~= Seq::<Arc>::empty());
            }
            growing_keeps_draft(before, 1, self.tm@);
        }
        Some(s)
    }

    /// Add an epsilon arc.
    fn add_epsilon(&mut self, from: u32, next: u32, cost: u32)
        requires
            old(self).wf(),
            from < old(self).net().len(),
            next < old(self).net().len(),
        ensures
            final(self).wf(),
            final(self).follows(old(self)),
            final(self).net() == with_arc(old(self).net(), from, epsilon(next, cost)),
            final(self).net().len() == old(self).net().len(),
    {
        let ghost before = self.net();
        let a = Arc { tid: 0, word: NO_WORD, pron: NO_PRON, next, cost, lm: cost };
        let mut slot = GraphState { arcs: Vec::new() };
        std::mem::swap(&mut slot, &mut self.states[from as usize]);
        slot.arcs.push(a);
        std::mem::swap(&mut slot, &mut self.states[from as usize]);
        proof {
            let added = seq![a];
            assert(before[from as int] + added =~= before[from as int].push(a));
            assert(self.net() =~= with_arc(before, from, a));
            adding_arcs_keeps_draft(before, from as int, added, self.tm@);
        }
    }

    /// The arcs of one HMM state, if all of its transitions are ready.
    fn hmm_state_arcs(
        &self,
        window: &Vec<PhoneId>,
        entry: &[HmmState],
        s: usize,
        base: usize,
        from: u32,
        to: u32,
        word: WordId,
        pron: u32,
    ) -> (r: Option<Vec<Arc>>)
        requires
            self.ready(),
            window@.len() == self.ctx.n,
            covers(self.tm@.topo, window@[self.ctx.p as int]),
            state_views(entry@) == states_of(self.tm@.topo, window@[self.ctx.p as int]),
            s < entry@.len(),
            base + entry@.len() <= u32::MAX + 2,
            from < self.net().len(),
            to < self.net().len(),
            entry@.len() > 2 ==> base + entry@.len() - 2 <= self.net().len(),
            forall|c: int|
                0 <= c < classes_of(self.tm@.topo, window@[self.ctx.p as int]) ==> #[trigger] answer(
                    self.su().tree,
                    window_event(window@, c as i32),
                ) is Some,
        ensures
            r is Some == forall|k: int|
                0 <= k < entry@[s as int]@.transitions.len() ==> #[trigger] transition_ready(
                    self.su(),
                    window@,
                    s as int,
                    k,
                ),
            r matches Some(arcs) ==> {
                let spot = Spot { window: window@, base: base as int, from, to, word, pron };
                &&& arcs@ == hmm_arcs(
                    self.su(),
                    spot,
                    s as int,
                    entry@[s as int]@.transitions.len() as int,
                    *self.f,
                )
                &&& forall|j: int|
                    0 <= j < arcs@.len() ==> arc_fits(
                        #[trigger] arcs@[j],
                        self.net().len() as int,
                        self.tm@,
                    ) && label_is_placed(arcs@[j], self.tm@)
            },
    {
        let ghost su = self.su();
        let ghost spot = Spot { window: window@, base: base as int, from, to, word, pron };
        let ghost states = states_of(self.tm@.topo, window@[self.ctx.p as int]);
        let phone: PhoneId = window[self.ctx.p];
        let n: usize = entry.len();
        let count: usize = entry[s].transitions.len();
        assert(states[s as int] == entry@[s as int]@);
        let emitting: bool = entry[s].is_emitting();
        let mut arcs: Vec<Arc> = Vec::new();
        let mut k: usize = 0;
        while k < count
            invariant
                self.ready(),
                su == self.su(),
                spot == (Spot { window: window@, base: base as int, from, to, word, pron }),
                states == states_of(self.tm@.topo, window@[self.ctx.p as int]),
                states == state_views(entry@),
                covers(self.tm@.topo, window@[self.ctx.p as int]),
                window@.len() == self.ctx.n,
                phone == window@[self.ctx.p as int],
                n == entry@.len(),
                s < n,
                base + n <= u32::MAX + 2,
                from < self.net().len(),
                to < self.net().len(),
                n > 2 ==> base + n - 2 <= self.net().len(),
                states[s as int] == entry@[s as int]@,
                count == states[s as int].transitions.len(),
                emitting == states[s as int].emits(),
                k <= count,
                forall|c: int|
                    0 <= c < classes_of(self.tm@.topo, phone) ==> #[trigger] answer(
                        su.tree,
                        window_event(window@, c as i32),
                    ) is Some,
                forall|j: int|
                    0 <= j < k ==> #[trigger] transition_ready(su, window@, s as int, j),
                arcs@ == hmm_arcs(su, spot, s as int, k as int, *self.f),
                forall|j: int|
                    0 <= j < arcs@.len() ==> arc_fits(
                        #[trigger] arcs@[j],
                        self.net().len() as int,
                        self.tm@,
                    ) && label_is_placed(arcs@[j], self.tm@),
            decreases count - k,
        {
            let (dest, prob) = entry[s].transitions[k];
            assert(states[s as int].transitions[k as int] == (dest, prob));
            if dest != s {
                if dest >= n {
                    assert(!transition_ready(su, window@, s as int, k as int));
                    return None;
                }
                let mut tid: TransitionId = 0;
                let mut lm: u32 = ZERO;
                if emitting {
                    let class: i32 = entry[s].pdf_class;
                    if class < 0 {
                        assert(!transition_ready(su, window@, s as int, k as int));
                        return None;
                    }
                    proof {
                        class_is_counted(states, s as int);
                        assert(answer(su.tree, window_event(window@, class as int as i32)) is Some);
                    }
                    let pdf: PdfId = self.ctx.compute(window.as_slice(), class).unwrap();
                    let ts: u32 = match self.tm.try_tuple_to_transition_state(phone, s, pdf, pdf) {
                        Some(ts) => ts,
                        None => {
                            assert(!transition_ready(su, window@, s as int, k as int));
                            return None;
                        },
                    };
                    proof {
                        let m = self.tm@;
                        self.tm.facts();
                        assert(m.tuples[ts - 1] == state_tuple(su, window@, s as int));
                        assert(m.tuples.contains(m.tuples[ts - 1]));
                        tuple_place(m, ts as int);
                        pairs_and_ids_agree(m, ts as int, k as int);
                        pairs_and_ids_agree(m, ts as int, 0);
                    }
                    tid = self.tm.pair_to_transition_id(ts, k as u32);
                } else {
                    lm = eval(
                        self.f,
                        FloatOp::Mul(
                            neg(self.opts.transition_scale),
                            eval(self.f, FloatOp::Ln(prob)),
                        ),
                    );
                }
                let next: u32 = if dest == n - 1 {
                    to
                } else if dest == 0 {
                    from
                } else {
                    (base + (dest - 1)) as u32
                };
                let (word_label, pron_label) = if s == 0 {
                    (word, pron)
                } else {
                    (NO_WORD, NO_PRON)
                };
                let a = Arc {
                    tid,
                    word: word_label,
                    pron: pron_label,
                    next,
                    cost: lm,
                    lm,
                };
                assert(a == hmm_arc(su, spot, s as int, k as int, *self.f));
                arcs.push(a);
            }
            assert(transition_ready(su, window@, s as int, k as int));
            k += 1;
        }
        Some(arcs)
    }

    /// The tree has a pdf for each pdf-class of the phone.
    fn has_pdfs(&self, window: &Vec<PhoneId>, num_classes: usize) -> (r: bool)
        requires
            self.ready(),
            window@.len() == self.ctx.n,
            num_classes <= i32::MAX + 1,
        ensures
            r == forall|c: int|
                0 <= c < num_classes ==> #[trigger] answer(
                    self.su().tree,
                    window_event(window@, c as i32),
                ) is Some,
    {
        let mut class: usize = 0;
        while class < num_classes
            invariant
                self.ready(),
                window@.len() == self.ctx.n,
                num_classes <= i32::MAX + 1,
                class <= num_classes,
                forall|c: int|
                    0 <= c < class ==> #[trigger] answer(
                        self.su().tree,
                        window_event(window@, c as i32),
                    ) is Some,
            decreases num_classes - class,
        {
            if self.ctx.compute(window.as_slice(), class as i32).is_none() {
                assert(answer(self.su().tree, window_event(window@, class as int as i32)) is None);
                return false;
            }
            class += 1;
        }
        true
    }

    /// Emit the HMM of the phone at the centre of `window` between `from` and `to`, if it can be
    /// emitted.
    fn emit_phone(&mut self, window: &Vec<PhoneId>, from: u32, to: u32, word: WordId, pron: u32) -> (r:
        bool)
        requires
            old(self).wf(),
            window@.len() == old(self).ctx.n,
            from < old(self).net().len(),
            to < old(self).net().len(),
        ensures
            final(self).follows(old(self)),
            match with_phone(
                old(self).net(),
                old(self).su(),
                window@,
                from,
                to,
                word,
                pron,
                *old(self).f,
            ) {
                Some(g) => r && final(self).wf() && final(self).net() == g,
                None => !r,
            },
    {
        let ghost g0 = self.net();
        let ghost su = self.su();
        let phone: PhoneId = window[self.ctx.p];
        let tm = self.tm;
        let entry: &[HmmState] = match tm.topology().try_for_phone(phone) {
            Some(states) => states,
            None => {
                return false;
            },
        };
        let n: usize = entry.len();
        if n == 0 {
            return false;
        }
        let ghost states = states_of(su.m.topo, phone);
        let num_classes: usize = tm.topology().num_pdf_classes(phone);
        if !self.has_pdfs(window, num_classes) {
            return false;
        }
        let base: usize = self.states.len();
        let inner: usize = if n > 2 {
            n - 2
        } else {
            0
        };
        if base > 0xffff_ffff || inner > 0xffff_ffff - base {
            return false;
        }
        let ghost spot = Spot { window: window@, base: base as int, from, to, word, pron };
        let mut i: usize = 0;
        proof {
            assert(grown(g0, 0) =~= g0);
        }
        while i < inner
            invariant
                self.wf(),
                self.follows(old(self)),
                i <= inner,
                base == g0.len(),
                base + inner <= u32::MAX,
                self.net() == grown(g0, i as nat),
            decreases inner - i,
        {
            let added = self.add_state();
            assert(grown(grown(g0, i as nat), 1) =~= grown(g0, (i + 1) as nat));
            i += 1;
        }
        let ghost g1 = self.net();
        let mut s: usize = 0;
        while s < n
            invariant
                self.wf(),
                self.follows(old(self)),
                su == self.su(),
                su == old(self).su(),
                g0 == old(self).net(),
                g1 == grown(g0, inner as nat),
                inner == inner_states(su, window@),
                self.net().len() == g1.len(),
                window@.len() == self.ctx.n,
                phone == window@[self.ctx.p as int],
                tm == self.tm,
                covers(su.m.topo, phone),
                states == states_of(su.m.topo, phone),
                states == state_views(entry@),
                n == entry@.len(),
                n > 0,
                s <= n,
                base == g0.len(),
                base + inner <= u32::MAX,
                from < base,
                to < base,
                spot == (Spot { window: window@, base: base as int, from, to, word, pron }),
                forall|c: int|
                    0 <= c < classes_of(su.m.topo, phone) ==> #[trigger] answer(
                        su.tree,
                        window_event(window@, c as i32),
                    ) is Some,
                forall|i: int, k: int|
                    0 <= i < s && 0 <= k < states[i].transitions.len()
                        ==> #[trigger] transition_ready(su, window@, i, k),
                self.net() == with_hmm(g1, su, spot, s as int, *self.f),
            decreases n - s,
        {
            assert(states[s as int] == entry@[s as int]@);
            let mut arcs = match self.hmm_state_arcs(
                window,
                entry,
                s,
                base,
                from,
                to,
                word,
                pron,
            ) {
                Some(arcs) => arcs,
                None => {
                    return false;
                },
            };
            let ghost added = arcs@;
            let at: u32 = if s == n - 1 {
                to
            } else if s == 0 {
                from
            } else {
                (base + (s - 1)) as u32
            };
            let ghost before = self.net();
            let mut slot = GraphState { arcs: Vec::new() };
            std::mem::swap(&mut slot, &mut self.states[at as usize]);
            slot.arcs.append(&mut arcs);
            std::mem::swap(&mut slot, &mut self.states[at as usize]);
            proof {
                assert(at == placed(base as int, n as int, from, to, s as int));
                adding_arcs_keeps_draft(before, at as int, added, su.m);
                assert(self.net() =~= before.update(at as int, before[at as int] + added));
            }
            s += 1;
        }
        true
    }
}

/// What entering a word costs from a hub, before the pronunciation's own cost.
pub open spec fn before_cost(branch: Branch, sil_before: u32, nonsil_before: u32) -> u32 {
    match branch {
        Branch::Silence => sil_before,
        Branch::Direct => nonsil_before,
    }
}

/// A new state behind each hub from number `i` on that can be left at a finite cost.
pub open spec fn with_entries<F: Fn(FloatOp) -> u64>(
    g: Seq<Seq<Arc>>,
    entries: Seq<Entry>,
    hubs: Seq<Hub>,
    i: int,
    entry_cost: u32,
    sil_before: u32,
    nonsil_before: u32,
    f: F,
) -> Option<(Seq<Seq<Arc>>, Seq<Entry>)>
    decreases hubs.len() - i,
{
    if i >= hubs.len() {
        Some((g, entries))
    } else {
        let hub = hubs[i];
        let cost = value(
            f,
            FloatOp::Add(entry_cost, before_cost(hub.branch, sil_before, nonsil_before)),
        );
        if !is_finite_bits(cost) {
            with_entries(g, entries, hubs, i + 1, entry_cost, sil_before, nonsil_before, f)
        } else if !roomy(g, 1) {
            None
        } else {
            let e = g.len() as u32;
            with_entries(
                with_arc(grown(g, 1), hub.state, epsilon(e, cost)),
                entries.push(Entry { state: e, left: hub.left }),
                hubs,
                i + 1,
                entry_cost,
                sil_before,
                nonsil_before,
                f,
            )
        }
    }
}

/// What can follow a word, given what silence and no silence cost after it.
pub open spec fn exits_of(
    sil_after: u32,
    nonsil_after: u32,
    silence_phone: PhoneId,
    next_firsts: Seq<PhoneId>,
) -> Seq<Exit> {
    (if is_finite_bits(sil_after) {
        seq![Exit { branch: Branch::Silence, right: silence_phone }]
    } else {
        Seq::empty()
    }) + (if is_finite_bits(nonsil_after) {
        Seq::new(
            next_firsts.len(),
            |i: int| Exit { branch: Branch::Direct, right: next_firsts[i] },
        )
    } else {
        Seq::empty()
    })
}

/// The label of phone `k` of a pronunciation: only the first carries one.
pub open spec fn label(k: int, x: u32) -> u32 {
    if k == 0 {
        x
    } else {
        NO_WORD
    }
}

/// `phone` emitted from each of the places from number `i` on to `exit`.
pub open spec fn with_phone_from_all<F: Fn(FloatOp) -> u64>(
    g: Seq<Seq<Arc>>,
    su: Setup,
    cur: Seq<Entry>,
    i: int,
    phone: PhoneId,
    right: PhoneId,
    exit: u32,
    word: WordId,
    pron: u32,
    f: F,
) -> Option<Seq<Seq<Arc>>>
    decreases cur.len() - i,
{
    if i >= cur.len() {
        Some(g)
    } else {
        match with_phone(
            g,
            su,
            window_of(su.n, su.p, cur[i].left, phone, right),
            cur[i].state,
            exit,
            word,
            pron,
            f,
        ) {
            Some(g1) => with_phone_from_all(
                g1,
                su,
                cur,
                i + 1,
                phone,
                right,
                exit,
                word,
                pron,
                f,
            ),
            None => None,
        }
    }
}

/// The phones from number `k` on, all but the last, each to a new state.
pub open spec fn with_inner_phones<F: Fn(FloatOp) -> u64>(
    g: Seq<Seq<Arc>>,
    su: Setup,
    cur: Seq<Entry>,
    phones: Seq<PhoneId>,
    k: int,
    word: WordId,
    pron: u32,
    f: F,
) -> Option<(Seq<Seq<Arc>>, Seq<Entry>)>
    decreases phones.len() - k,
{
    if k + 1 >= phones.len() {
        Some((g, cur))
    } else if !roomy(g, 1) {
        None
    } else {
        let exit = g.len() as u32;
        match with_phone_from_all(
            grown(g, 1),
            su,
            cur,
            0,
            phones[k],
            phones[k + 1],
            exit,
            label(k, word),
            label(k, pron),
            f,
        ) {
            Some(g1) => with_inner_phones(
                g1,
                su,
                seq![Entry { state: exit, left: phones[k] }],
                phones,
                k + 1,
                word,
                pron,
                f,
            ),
            None => None,
        }
    }
}

/// `phone` emitted from one place towards each exit from number `i` on; the states behind the exits
/// start at `base`.
pub open spec fn with_fan<F: Fn(FloatOp) -> u64>(
    g: Seq<Seq<Arc>>,
    su: Setup,
    from: Entry,
    exits: Seq<Exit>,
    i: int,
    base: int,
    phone: PhoneId,
    word: WordId,
    pron: u32,
    f: F,
) -> Option<Seq<Seq<Arc>>>
    decreases exits.len() - i,
{
    if i >= exits.len() {
        Some(g)
    } else {
        match with_phone(
            g,
            su,
            window_of(su.n, su.p, from.left, phone, exits[i].right),
            from.state,
            (base + i) as u32,
            word,
            pron,
            f,
        ) {
            Some(g1) => with_fan(g1, su, from, exits, i + 1, base, phone, word, pron, f),
            None => None,
        }
    }
}

/// `phone` emitted from each of the places from number `i` on towards every exit.
pub open spec fn with_fans<F: Fn(FloatOp) -> u64>(
    g: Seq<Seq<Arc>>,
    su: Setup,
    cur: Seq<Entry>,
    i: int,
    exits: Seq<Exit>,
    base: int,
    phone: PhoneId,
    word: WordId,
    pron: u32,
    f: F,
) -> Option<Seq<Seq<Arc>>>
    decreases cur.len() - i,
{
    if i >= cur.len() {
        Some(g)
    } else {
        match with_fan(g, su, cur[i], exits, 0, base, phone, word, pron, f) {
            Some(g1) => with_fans(g1, su, cur, i + 1, exits, base, phone, word, pron, f),
            None => None,
        }
    }
}

/// What follows each exit from number `i` on: its cost, the silence on the silent side, and the hub
/// behind it.
pub open spec fn with_hubs<F: Fn(FloatOp) -> u64>(
    g: Seq<Seq<Arc>>,
    hubs: Seq<Hub>,
    su: Setup,
    exits: Seq<Exit>,
    i: int,
    base: int,
    phone: PhoneId,
    costs: (u32, u32),
    after_silence: PhoneId,
    f: F,
) -> Option<(Seq<Seq<Arc>>, Seq<Hub>)>
    decreases exits.len() - i,
{
    if i >= exits.len() {
        Some((g, hubs))
    } else {
        let from = (base + i) as u32;
        let s = g.len() as u32;
        match exits[i].branch {
            Branch::Direct => if !roomy(g, 1) {
                None
            } else {
                with_hubs(
                    with_arc(grown(g, 1), from, epsilon(s, costs.1)),
                    hubs.push(Hub { branch: Branch::Direct, state: s, left: phone }),
                    su,
                    exits,
                    i + 1,
                    base,
                    phone,
                    costs,
                    after_silence,
                    f,
                )
            },
            Branch::Silence => if !roomy(g, 2) {
                None
            } else {
                let sil = su.opts.silence_phone;
                let end = (s + 1) as u32;
                match with_phone(
                    grown(with_arc(grown(g, 1), from, epsilon(s, costs.0)), 1),
                    su,
                    window_of(su.n, su.p, phone, sil, after_silence),
                    s,
                    end,
                    NO_WORD,
                    NO_PRON,
                    f,
                ) {
                    Some(g1) => with_hubs(
                        g1,
                        hubs.push(Hub { branch: Branch::Silence, state: end, left: sil }),
                        su,
                        exits,
                        i + 1,
                        base,
                        phone,
                        costs,
                        after_silence,
                        f,
                    ),
                    None => None,
                }
            },
        }
    }
}

/// The phone that silence after a word is followed by: the first that the next word can start with.
pub open spec fn leading(firsts: Seq<PhoneId>) -> PhoneId {
    if firsts.len() > 0 {
        firsts[0]
    } else {
        0
    }
}

/// One pronunciation of a word between the hubs before and those behind it.
pub open spec fn with_pron<F: Fn(FloatOp) -> u64>(
    g: Seq<Seq<Arc>>,
    next_hubs: Seq<Hub>,
    su: Setup,
    hubs: Seq<Hub>,
    pron: PronView,
    word: WordId,
    index: u32,
    next_firsts: Seq<PhoneId>,
    after_silence: PhoneId,
    f: F,
) -> Option<(Seq<Seq<Arc>>, Seq<Hub>)> {
    let costs = after_costs_of(pron.silence_after_prob, su.opts.silence_prob, f);
    let exits = exits_of(costs.0, costs.1, su.opts.silence_phone, next_firsts);
    let last = pron.phones.len() - 1;
    if pron.phones.len() == 0 {
        Some((g, next_hubs))
    } else {
        match with_entries(
            g,
            Seq::empty(),
            hubs,
            0,
            pron_cost_of(pron.prob, f),
            corr_cost_of(pron.silence_before_correction, f),
            corr_cost_of(pron.non_silence_before_correction, f),
            f,
        ) {
            Some((g1, entries)) => if entries.len() == 0 || exits.len() == 0 {
                Some((g1, next_hubs))
            } else {
                match with_inner_phones(g1, su, entries, pron.phones, 0, word, index, f) {
                    Some((g2, cur)) => if !roomy(g2, exits.len() as int) {
                        None
                    } else {
                        match with_fans(
                            grown(g2, exits.len()),
                            su,
                            cur,
                            0,
                            exits,
                            g2.len() as int,
                            pron.phones[last],
                            label(last, word),
                            label(last, index),
                            f,
                        ) {
                            Some(g3) => with_hubs(
                                g3,
                                next_hubs,
                                su,
                                exits,
                                0,
                                g2.len() as int,
                                pron.phones[last],
                                costs,
                                after_silence,
                                f,
                            ),
                            None => None,
                        }
                    },
                    None => None,
                }
            },
            None => None,
        }
    }
}

/// The hubs lie in the graph.
spec fn hubs_fit(hubs: Seq<Hub>, g: Seq<Seq<Arc>>) -> bool {
    forall|i: int| 0 <= i < hubs.len() ==> (#[trigger] hubs[i]).state < g.len()
}

spec fn entries_fit(entries: Seq<Entry>, g: Seq<Seq<Arc>>) -> bool {
    forall|i: int| 0 <= i < entries.len() ==> (#[trigger] entries[i]).state < g.len()
}

impl<'a, F: Fn(FloatOp) -> u64> Builder<'a, F> {
    /// A new state behind each hub that can be left at a finite cost.
    fn enter(&mut self, hubs: &Vec<Hub>, entry_cost: u32, sil_before: u32, nonsil_before: u32) -> (r:
        Option<Vec<Entry>>)
        requires
            old(self).wf(),
            hubs_fit(hubs@, old(self).net()),
        ensures
            final(self).follows(old(self)),
            match with_entries(
                old(self).net(),
                Seq::empty(),
                hubs@,
                0,
                entry_cost,
                sil_before,
                nonsil_before,
                *old(self).f,
            ) {
                Some(x) => r matches Some(entries) && entries@ == x.1 && final(self).net() == x.0
                    && final(self).wf() && entries_fit(entries@, final(self).net()),
                None => r is None,
            },
    {
        let ghost want = with_entries(
            self.net(),
            Seq::empty(),
            hubs@,
            0,
            entry_cost,
            sil_before,
            nonsil_before,
            *self.f,
        );
        let mut entries: Vec<Entry> = Vec::new();
        let mut i: usize = 0;
        while i < hubs.len()
            invariant
                self.wf(),
                self.follows(old(self)),
                want == with_entries(
                    old(self).net(),
                    Seq::empty(),
                    hubs@,
                    0,
                    entry_cost,
                    sil_before,
                    nonsil_before,
                    *old(self).f,
                ),
                hubs_fit(hubs@, old(self).net()),
                entries_fit(entries@, self.net()),
                i <= hubs@.len(),
                want == with_entries(
                    self.net(),
                    entries@,
                    hubs@,
                    i as int,
                    entry_cost,
                    sil_before,
                    nonsil_before,
                    *self.f,
                ),
            decreases hubs.len() - i,
        {
            let hub: Hub = hubs[i];
            assert(hubs@[i as int].state < old(self).net().len());
            let before: u32 = match hub.branch {
                Branch::Silence => sil_before,
                Branch::Direct => nonsil_before,
            };
            let cost: u32 = eval(self.f, FloatOp::Add(entry_cost, before));
            if is_finite(cost) {
                let e: u32 = match self.add_state() {
                    Some(e) => e,
                    None => {
                        return None;
                    },
                };
                self.add_epsilon(hub.state, e, cost);
                entries.push(Entry { state: e, left: hub.left });
            }
            i += 1;
        }
        Some(entries)
    }

    /// Emit `phone` from each of the places to `exit`.
    fn emit_from_all(
        &mut self,
        cur: &Vec<Entry>,
        phone: PhoneId,
        right: PhoneId,
        exit: u32,
        word: WordId,
        pron: u32,
    ) -> (r: bool)
        requires
            old(self).wf(),
            entries_fit(cur@, old(self).net()),
            exit < old(self).net().len(),
        ensures
            final(self).follows(old(self)),
            match with_phone_from_all(
                old(self).net(),
                old(self).su(),
                cur@,
                0,
                phone,
                right,
                exit,
                word,
                pron,
                *old(self).f,
            ) {
                Some(g) => r && final(self).wf() && final(self).net() == g,
                None => !r,
            },
    {
        let ghost want = with_phone_from_all(
            self.net(),
            self.su(),
            cur@,
            0,
            phone,
            right,
            exit,
            word,
            pron,
            *self.f,
        );
        let mut i: usize = 0;
        while i < cur.len()
            invariant
                self.wf(),
                self.follows(old(self)),
                entries_fit(cur@, old(self).net()),
                exit < old(self).net().len(),
                want == with_phone_from_all(
                    old(self).net(),
                    old(self).su(),
                    cur@,
                    0,
                    phone,
                    right,
                    exit,
                    word,
                    pron,
                    *old(self).f,
                ),
                i <= cur@.len(),
                want == with_phone_from_all(
                    self.net(),
                    self.su(),
                    cur@,
                    i as int,
                    phone,
                    right,
                    exit,
                    word,
                    pron,
                    *self.f,
                ),
            decreases cur.len() - i,
        {
            let from: Entry = cur[i];
            assert(cur@[i as int].state < old(self).net().len());
            let window = make_window(self.ctx, from.left, phone, right);
            if !self.emit_phone(&window, from.state, exit, word, pron) {
                return false;
            }
            i += 1;
        }
        true
    }

    /// Emit all phones but the last.
    fn emit_inner_phones(&mut self, entries: Vec<Entry>, phones: &Vec<PhoneId>, word: WordId, pron: u32) -> (r:
        Option<Vec<Entry>>)
        requires
            old(self).wf(),
            entries_fit(entries@, old(self).net()),
        ensures
            final(self).follows(old(self)),
            match with_inner_phones(
                old(self).net(),
                old(self).su(),
                entries@,
                phones@,
                0,
                word,
                pron,
                *old(self).f,
            ) {
                Some(x) => r matches Some(cur) && cur@ == x.1 && final(self).net() == x.0
                    && final(self).wf() && entries_fit(cur@, final(self).net()),
                None => r is None,
            },
    {
        let ghost want = with_inner_phones(
            self.net(),
            self.su(),
            entries@,
            phones@,
            0,
            word,
            pron,
            *self.f,
        );
        let n: usize = phones.len();
        let mut cur: Vec<Entry> = entries;
        let mut k: usize = 0;
        while k < n && k + 1 < n
            invariant
                self.wf(),
                self.follows(old(self)),
                want == with_inner_phones(
                    old(self).net(),
                    old(self).su(),
                    entries@,
                    phones@,
                    0,
                    word,
                    pron,
                    *old(self).f,
                ),
                n == phones@.len(),
                k <= n,
                entries_fit(cur@, self.net()),
                want == with_inner_phones(
                    self.net(),
                    self.su(),
                    cur@,
                    phones@,
                    k as int,
                    word,
                    pron,
                    *self.f,
                ),
            decreases n - k,
        {
            let phone: PhoneId = phones[k];
            let right: PhoneId = phones[k + 1];
            let (word_label, pron_label) = if k == 0 {
                (word, pron)
            } else {
                (NO_WORD, NO_PRON)
            };
            let exit: u32 = match self.add_state() {
                Some(exit) => exit,
                None => {
                    return None;
                },
            };
            if !self.emit_from_all(&cur, phone, right, exit, word_label, pron_label) {
                return None;
            }
            let mut next: Vec<Entry> = Vec::new();
            next.push(Entry { state: exit, left: phone });
            cur = next;
            assert(cur@ =~= seq![Entry { state: exit, left: phone }]);
            k += 1;
        }
        Some(cur)
    }

    /// Emit `phone` from one place towards every exit.
    fn emit_fan(
        &mut self,
        from: Entry,
        exits: &Vec<Exit>,
        base: usize,
        phone: PhoneId,
        word: WordId,
        pron: u32,
    ) -> (r: bool)
        requires
            old(self).wf(),
            from.state < old(self).net().len(),
            base + exits@.len() <= old(self).net().len(),
            base + exits@.len() <= u32::MAX,
        ensures
            final(self).follows(old(self)),
            match with_fan(
                old(self).net(),
                old(self).su(),
                from,
                exits@,
                0,
                base as int,
                phone,
                word,
                pron,
                *old(self).f,
            ) {
                Some(g) => r && final(self).wf() && final(self).net() == g,
                None => !r,
            },
    {
        let ghost want = with_fan(
            self.net(),
            self.su(),
            from,
            exits@,
            0,
            base as int,
            phone,
            word,
            pron,
            *self.f,
        );
        let mut i: usize = 0;
        while i < exits.len()
            invariant
                self.wf(),
                self.follows(old(self)),
                from.state < old(self).net().len(),
                base + exits@.len() <= old(self).net().len(),
                base + exits@.len() <= u32::MAX,
                want == with_fan(
                    old(self).net(),
                    old(self).su(),
                    from,
                    exits@,
                    0,
                    base as int,
                    phone,
                    word,
                    pron,
                    *old(self).f,
                ),
                i <= exits@.len(),
                want == with_fan(
                    self.net(),
                    self.su(),
                    from,
                    exits@,
                    i as int,
                    base as int,
                    phone,
                    word,
                    pron,
                    *self.f,
                ),
            decreases exits.len() - i,
        {
            let window = make_window(self.ctx, from.left, phone, exits[i].right);
            if !self.emit_phone(&window, from.state, (base + i) as u32, word, pron) {
                return false;
            }
            i += 1;
        }
        true
    }

    /// Emit `phone` from each of the places towards every exit.
    fn emit_fans(
        &mut self,
        cur: &Vec<Entry>,
        exits: &Vec<Exit>,
        base: usize,
        phone: PhoneId,
        word: WordId,
        pron: u32,
    ) -> (r: bool)
        requires
            old(self).wf(),
            entries_fit(cur@, old(self).net()),
            base + exits@.len() <= old(self).net().len(),
            base + exits@.len() <= u32::MAX,
        ensures
            final(self).follows(old(self)),
            match with_fans(
                old(self).net(),
                old(self).su(),
                cur@,
                0,
                exits@,
                base as int,
                phone,
                word,
                pron,
                *old(self).f,
            ) {
                Some(g) => r && final(self).wf() && final(self).net() == g,
                None => !r,
            },
    {
        let ghost want = with_fans(
            self.net(),
            self.su(),
            cur@,
            0,
            exits@,
            base as int,
            phone,
            word,
            pron,
            *self.f,
        );
        let mut i: usize = 0;
        while i < cur.len()
            invariant
                self.wf(),
                self.follows(old(self)),
                entries_fit(cur@, old(self).net()),
                base + exits@.len() <= old(self).net().len(),
                base + exits@.len() <= u32::MAX,
                want == with_fans(
                    old(self).net(),
                    old(self).su(),
                    cur@,
                    0,
                    exits@,
                    base as int,
                    phone,
                    word,
                    pron,
                    *old(self).f,
                ),
                i <= cur@.len(),
                want == with_fans(
                    self.net(),
                    self.su(),
                    cur@,
                    i as int,
                    exits@,
                    base as int,
                    phone,
                    word,
                    pron,
                    *self.f,
                ),
            decreases cur.len() - i,
        {
            let from: Entry = cur[i];
            assert(cur@[i as int].state < old(self).net().len());
            if !self.emit_fan(from, exits, base, phone, word, pron) {
                return false;
            }
            i += 1;
        }
        true
    }

    /// Emit what follows each exit, and add the hubs behind.
    fn leave(
        &mut self,
        hubs: &mut Vec<Hub>,
        exits: &Vec<Exit>,
        base: usize,
        phone: PhoneId,
        sil_after: u32,
        nonsil_after: u32,
        after_silence: PhoneId,
    ) -> (r: bool)
        requires
            old(self).wf(),
            hubs_fit(old(hubs)@, old(self).net()),
            base + exits@.len() <= old(self).net().len(),
            base + exits@.len() <= u32::MAX,
        ensures
            final(self).follows(old(self)),
            match with_hubs(
                old(self).net(),
                old(hubs)@,
                old(self).su(),
                exits@,
                0,
                base as int,
                phone,
                (sil_after, nonsil_after),
                after_silence,
                *old(self).f,
            ) {
                Some(x) => r && final(self).wf() && final(self).net() == x.0 && final(hubs)@ == x.1
                    && hubs_fit(final(hubs)@, final(self).net()),
                None => !r,
            },
    {
        let ghost costs = (sil_after, nonsil_after);
        let ghost want = with_hubs(
            self.net(),
            hubs@,
            self.su(),
            exits@,
            0,
            base as int,
            phone,
            costs,
            after_silence,
            *self.f,
        );
        let mut i: usize = 0;
        while i < exits.len()
            invariant
                self.wf(),
                self.follows(old(self)),
                hubs_fit(hubs@, self.net()),
                base + exits@.len() <= old(self).net().len(),
                base + exits@.len() <= u32::MAX,
                costs == (sil_after, nonsil_after),
                want == with_hubs(
                    old(self).net(),
                    old(hubs)@,
                    old(self).su(),
                    exits@,
                    0,
                    base as int,
                    phone,
                    costs,
                    after_silence,
                    *old(self).f,
                ),
                i <= exits@.len(),
                want == with_hubs(
                    self.net(),
                    hubs@,
                    self.su(),
                    exits@,
                    i as int,
                    base as int,
                    phone,
                    costs,
                    after_silence,
                    *self.f,
                ),
            decreases exits.len() - i,
        {
            let from: u32 = (base + i) as u32;
            match exits[i].branch {
                Branch::Direct => {
                    let s: u32 = match self.add_state() {
                        Some(s) => s,
                        None => {
                            return false;
                        },
                    };
                    self.add_epsilon(from, s, nonsil_after);
                    hubs.push(Hub { branch: Branch::Direct, state: s, left: phone });
                },
                Branch::Silence => {
                    let ghost g0 = self.net();
                    let sil_in: u32 = match self.add_state() {
                        Some(s) => s,
                        None => {
                            return false;
                        },
                    };
                    self.add_epsilon(from, sil_in, sil_after);
                    let sil_out: u32 = match self.add_state() {
                        Some(s) => s,
                        None => {
                            return false;
                        },
                    };
                    let silence_phone: PhoneId = self.opts.silence_phone;
                    let window = make_window(self.ctx, phone, silence_phone, after_silence);
                    if !self.emit_phone(&window, sil_in, sil_out, NO_WORD, NO_PRON) {
                        return false;
                    }
                    hubs.push(Hub { branch: Branch::Silence, state: sil_out, left: silence_phone });
                },
            }
            i += 1;
        }
        true
    }

    /// Emit one pronunciation of a word.
    fn emit_pron(
        &mut self,
        next_hubs: &mut Vec<Hub>,
        hubs: &Vec<Hub>,
        pron: &Pronunciation,
        word: WordId,
        index: u32,
        next_firsts: &Vec<PhoneId>,
        after_silence: PhoneId,
    ) -> (r: bool)
        requires
            old(self).wf(),
            hubs_fit(hubs@, old(self).net()),
            hubs_fit(old(next_hubs)@, old(self).net()),
        ensures
            final(self).follows(old(self)),
            match with_pron(
                old(self).net(),
                old(next_hubs)@,
                old(self).su(),
                hubs@,
                pron@,
                word,
                index,
                next_firsts@,
                after_silence,
                *old(self).f,
            ) {
                Some(x) => r && final(self).wf() && final(self).net() == x.0 && final(next_hubs)@
                    == x.1 && hubs_fit(final(next_hubs)@, final(self).net()),
                None => !r,
            },
    {
        let n: usize = pron.phones.len();
        if n == 0 {
            return true;
        }
        let entry_cost: u32 = pron_cost(pron.prob, self.f);
        let sil_before: u32 = corr_cost(pron.silence_before_correction, self.f);
        let nonsil_before: u32 = corr_cost(pron.non_silence_before_correction, self.f);
        let (sil_after, nonsil_after) = after_costs(pron, self.opts, self.f);
        let entries = match self.enter(hubs, entry_cost, sil_before, nonsil_before) {
            Some(entries) => entries,
            None => {
                return false;
            },
        };
        if entries.len() == 0 {
            return true;
        }
        let exits = list_exits(sil_after, nonsil_after, self.opts.silence_phone, next_firsts);
        if exits.len() == 0 {
            return true;
        }
        let cur = match self.emit_inner_phones(entries, &pron.phones, word, index) {
            Some(cur) => cur,
            None => {
                return false;
            },
        };
        let phone: PhoneId = pron.phones[n - 1];
        let base: usize = self.states.len();
        let count: usize = exits.len();
        if base > 0xffff_ffff || count > 0xffff_ffff - base {
            return false;
        }
        let ghost g2 = self.net();
        let mut i: usize = 0;
        proof {
            assert(grown(g2, 0) =~= g2);
        }
        while i < count
            invariant
                self.wf(),
                self.follows(old(self)),
                i <= count,
                base == g2.len(),
                base + count <= u32::MAX,
                self.net() == grown(g2, i as nat),
            decreases count - i,
        {
            let added = self.add_state();
            assert(grown(grown(g2, i as nat), 1) =~= grown(g2, (i + 1) as nat));
            i += 1;
        }
        let (word_label, pron_label) = if n == 1 {
            (word, index)
        } else {
            (NO_WORD, NO_PRON)
        };
        if !self.emit_fans(&cur, &exits, base, phone, word_label, pron_label) {
            return false;
        }
        self.leave(next_hubs, &exits, base, phone, sil_after, nonsil_after, after_silence)
    }
}

/// What can follow a word.
fn list_exits(
    sil_after: u32,
    nonsil_after: u32,
    silence_phone: PhoneId,
    next_firsts: &Vec<PhoneId>,
) -> (r: Vec<Exit>)
    ensures
        r@ == exits_of(sil_after, nonsil_after, silence_phone, next_firsts@),
{
    let ghost want = exits_of(sil_after, nonsil_after, silence_phone, next_firsts@);
    let mut exits: Vec<Exit> = Vec::new();
    if is_finite(sil_after) {
        exits.push(Exit { branch: Branch::Silence, right: silence_phone });
    }
    let ghost lead = exits@;
    if is_finite(nonsil_after) {
        let mut i: usize = 0;
        while i < next_firsts.len()
            invariant
                i <= next_firsts@.len(),
                exits@.len() == lead.len() + i,
                forall|j: int| 0 <= j < lead.len() ==> #[trigger] exits@[j] == lead[j],
                forall|j: int|
                    lead.len() <= j < exits@.len() ==> #[trigger] exits@[j] == (Exit {
                        branch: Branch::Direct,
                        right: next_firsts@[j - lead.len()],
                    }),
            decreases next_firsts.len() - i,
        {
            exits.push(Exit { branch: Branch::Direct, right: next_firsts[i] });
            i += 1;
        }
    }
    assert(exits@ =~= want);
    exits
}

/// The pronunciations of each word.
pub open spec fn word_views(words: Seq<Vec<Pronunciation>>) -> Seq<Seq<PronView>> {
    Seq::new(words.len(), |w: int| pron_views(words[w]@))
}

/// What the pronunciations are.
pub open spec fn pron_views(prons: Seq<Pronunciation>) -> Seq<PronView> {
    Seq::new(prons.len(), |i: int| prons[i]@)
}

/// Some pronunciation has phones.
pub open spec fn usable(prons: Seq<PronView>) -> bool {
    exists|i: int| 0 <= i < prons.len() && (#[trigger] prons[i]).phones.len() > 0
}

/// Those of the first `n` words that can be pronounced.
pub open spec fn live_words(words: Seq<Seq<PronView>>, n: int) -> Seq<int>
    decreases n,
{
    if n <= 0 {
        Seq::empty()
    } else if usable(words[n - 1]) {
        live_words(words, n - 1).push(n - 1)
    } else {
        live_words(words, n - 1)
    }
}

/// The first phones of the first `n` pronunciations.
pub open spec fn leading_phones(prons: Seq<PronView>, n: int) -> Seq<PhoneId>
    decreases n,
{
    if n <= 0 {
        Seq::empty()
    } else if prons[n - 1].phones.len() > 0 {
        leading_phones(prons, n - 1).push(prons[n - 1].phones[0])
    } else {
        leading_phones(prons, n - 1)
    }
}

/// The phones that the `k`-th word that can be pronounced can start with, sorted and unique; past
/// the last one, the edge of the utterance.
pub open spec fn first_phones_of(words: Seq<Seq<PronView>>, live: Seq<int>, k: int) -> Seq<PhoneId> {
    if k >= live.len() {
        seq![0]
    } else {
        ascending(leading_phones(words[live[k]], words[live[k]].len() as int))
    }
}

/// The pronunciations of a word from number `i` on.
pub open spec fn with_prons<F: Fn(FloatOp) -> u64>(
    g: Seq<Seq<Arc>>,
    next_hubs: Seq<Hub>,
    su: Setup,
    hubs: Seq<Hub>,
    prons: Seq<PronView>,
    i: int,
    word: WordId,
    next_firsts: Seq<PhoneId>,
    f: F,
) -> Option<(Seq<Seq<Arc>>, Seq<Hub>)>
    decreases prons.len() - i,
{
    if i >= prons.len() {
        Some((g, next_hubs))
    } else {
        match with_pron(
            g,
            next_hubs,
            su,
            hubs,
            prons[i],
            word,
            i as u32,
            next_firsts,
            leading(next_firsts),
            f,
        ) {
            Some((g1, more)) => with_prons(
                g1,
                more,
                su,
                hubs,
                prons,
                i + 1,
                word,
                next_firsts,
                f,
            ),
            None => None,
        }
    }
}

/// The words from the `k`-th on that can be pronounced. Where no path through a word has a finite
/// cost, the inner answer is none.
pub open spec fn with_words<F: Fn(FloatOp) -> u64>(
    g: Seq<Seq<Arc>>,
    hubs: Seq<Hub>,
    su: Setup,
    words: Seq<Seq<PronView>>,
    live: Seq<int>,
    k: int,
    f: F,
) -> Option<Option<(Seq<Seq<Arc>>, Seq<Hub>)>>
    decreases live.len() - k,
{
    if k >= live.len() {
        Some(Some((g, hubs)))
    } else {
        match with_prons(
            g,
            Seq::empty(),
            su,
            hubs,
            words[live[k]],
            0,
            live[k] as u32,
            first_phones_of(words, live, k + 1),
            f,
        ) {
            Some((g1, next_hubs)) => if next_hubs.len() == 0 {
                Some(None)
            } else {
                with_words(g1, next_hubs, su, words, live, k + 1, f)
            },
            None => None,
        }
    }
}

/// The start state, and the optional silence before the first word.
pub open spec fn with_start<F: Fn(FloatOp) -> u64>(su: Setup, firsts: Seq<PhoneId>, f: F) -> Option<
    (Seq<Seq<Arc>>, Seq<Hub>),
> {
    let start = grown(Seq::empty(), 1);
    let p = su.opts.initial_silence_prob;
    let sil = su.opts.silence_phone;
    if less(ZERO, p) {
        let direct = with_arc(grown(start, 1), 0, epsilon(1, neg_log_of(complement(p, f), f)));
        let silent = with_arc(grown(direct, 1), 0, epsilon(2, neg_log_of(p, f)));
        match with_phone(
            grown(silent, 1),
            su,
            window_of(su.n, su.p, 0, sil, leading(firsts)),
            2,
            3,
            NO_WORD,
            NO_PRON,
            f,
        ) {
            Some(g) => Some(
                (
                    g,
                    seq![
                        Hub { branch: Branch::Direct, state: 1, left: 0 },
                        Hub { branch: Branch::Silence, state: 3, left: sil },
                    ],
                ),
            ),
            None => None,
        }
    } else {
        Some((start, seq![Hub { branch: Branch::Direct, state: 0, left: 0 }]))
    }
}

/// The final states among the first `n` hubs: those at which ending has a finite cost.
pub open spec fn finals_of<F: Fn(FloatOp) -> u64>(hubs: Seq<Hub>, n: int, opts: GraphOptions, f: F) -> Seq<
    (u32, u32),
>
    decreases n,
{
    if n <= 0 {
        Seq::empty()
    } else {
        let rest = finals_of(hubs, n - 1, opts, f);
        let cost = match hubs[n - 1].branch {
            Branch::Silence => neg_log_of(opts.final_silence_correction, f),
            Branch::Direct => neg_log_of(opts.final_non_silence_correction, f),
        };
        if is_finite_bits(cost) {
            rest.push((hubs[n - 1].state, cost))
        } else {
            rest
        }
    }
}

/// The states and final states for an utterance without words: silence only.
pub open spec fn silent_draft<F: Fn(FloatOp) -> u64>(su: Setup, f: F) -> Option<
    (Seq<Seq<Arc>>, Seq<(u32, u32)>),
> {
    match with_phone(
        grown(grown(Seq::empty(), 1), 1),
        su,
        window_of(su.n, su.p, 0, su.opts.silence_phone, 0),
        0,
        1,
        NO_WORD,
        NO_PRON,
        f,
    ) {
        Some(g) => Some((g, seq![(1u32, neg_log_of(su.opts.final_silence_correction, f))])),
        None => None,
    }
}

/// The states and final states before the self-loops: those for the words that can be pronounced,
/// or silence only if there are none or no path through them has a finite cost.
pub open spec fn draft_of<F: Fn(FloatOp) -> u64>(su: Setup, words: Seq<Seq<PronView>>, f: F) -> Option<
    (Seq<Seq<Arc>>, Seq<(u32, u32)>),
> {
    let live = live_words(words, words.len() as int);
    if live.len() == 0 {
        silent_draft(su, f)
    } else {
        match with_start(su, first_phones_of(words, live, 0), f) {
            Some((g, hubs)) => match with_words(g, hubs, su, words, live, 0, f) {
                Some(Some((g1, ends))) => Some(
                    (g1, finals_of(ends, ends.len() as int, su.opts, f)),
                ),
                Some(None) => silent_draft(su, f),
                None => None,
            },
            None => None,
        }
    }
}

/// The graph of an utterance: the draft with its self-loops and costs. There is none if a phone
/// cannot be emitted, or if the states outnumber their ids.
pub open spec fn graph_of<F: Fn(FloatOp) -> u64>(su: Setup, words: Seq<Seq<PronView>>, f: F) -> Option<
    GraphView,
> {
    match draft_of(su, words, f) {
        Some((states, finals)) => {
            if split_len(states, su.m) > u32::MAX {
                None
            } else {
                Some(
                    costed(
                        self_looped(
                            GraphView {
                                states,
                                finals,
                                finals_lm: Seq::empty(),
                                state_in: Seq::empty(),
                            },
                            su.m,
                        ),
                        su.m,
                        su.opts.transition_scale,
                        su.opts.self_loop_scale,
                        f,
                    ),
                )
            }
        },
        None => None,
    }
}

/// Whether some pronunciation has phones.
fn is_usable(prons: &Vec<Pronunciation>) -> (r: bool)
    ensures
        r == usable(pron_views(prons@)),
{
    let mut i: usize = 0;
    while i < prons.len()
        invariant
            i <= prons@.len(),
            forall|j: int| 0 <= j < i ==> (#[trigger] pron_views(prons@)[j]).phones.len() == 0,
        decreases prons.len() - i,
    {
        assert(pron_views(prons@)[i as int] == prons@[i as int]@);
        if prons[i].phones.len() > 0 {
            return true;
        }
        i += 1;
    }
    false
}

/// The words that can be pronounced.
fn list_live(words: &[Vec<Pronunciation>]) -> (r: Vec<usize>)
    ensures
        r@.len() == live_words(word_views(words@), words@.len() as int).len(),
        forall|i: int|
            0 <= i < r@.len() ==> #[trigger] r@[i] == live_words(
                word_views(words@),
                words@.len() as int,
            )[i] && r@[i] < words@.len(),
{
    let ghost views = word_views(words@);
    let mut live: Vec<usize> = Vec::new();
    let mut w: usize = 0;
    while w < words.len()
        invariant
            views == word_views(words@),
            w <= words@.len(),
            live@.len() == live_words(views, w as int).len(),
            forall|i: int|
                0 <= i < live@.len() ==> #[trigger] live@[i] == live_words(views, w as int)[i]
                    && live@[i] < words@.len(),
        decreases words.len() - w,
    {
        assert(views[w as int] == pron_views(words@[w as int]@));
        if is_usable(&words[w]) {
            live.push(w);
        }
        w += 1;
    }
    live
}

/// The phones that a word can start with.
fn list_firsts(prons: &Vec<Pronunciation>) -> (r: Vec<PhoneId>)
    ensures
        r@ == ascending(leading_phones(pron_views(prons@), prons@.len() as int)),
{
    let ghost views = pron_views(prons@);
    let mut firsts: Vec<PhoneId> = Vec::new();
    let mut i: usize = 0;
    while i < prons.len()
        invariant
            views == pron_views(prons@),
            i <= prons@.len(),
            firsts@ == leading_phones(views, i as int),
        decreases prons.len() - i,
    {
        assert(views[i as int] == prons@[i as int]@);
        if prons[i].phones.len() > 0 {
            firsts.push(prons[i].phones[0]);
        }
        i += 1;
    }
    let sorted = sorted_unique(firsts.as_slice());
    proof {
        is_ascending(sorted@, firsts@);
    }
    sorted
}

/// The phones that the `k`-th word that can be pronounced can start with.
fn next_first_phones(words: &[Vec<Pronunciation>], live: &Vec<usize>, k: usize, Ghost(want): Ghost<
    Seq<int>,
>) -> (r: Vec<PhoneId>)
    requires
        live@.len() == want.len(),
        forall|i: int|
            0 <= i < live@.len() ==> #[trigger] live@[i] == want[i] && live@[i] < words@.len(),
    ensures
        r@ == first_phones_of(word_views(words@), want, k as int),
{
    if k < live.len() {
        assert(live@[k as int] == want[k as int]);
        assert(word_views(words@)[want[k as int]] == pron_views(words@[want[k as int]]@));
        list_firsts(&words[live[k]])
    } else {
        let mut edge: Vec<PhoneId> = Vec::new();
        edge.push(0);
        assert(edge@ =~= seq![0]);
        edge
    }
}

impl<'a, F: Fn(FloatOp) -> u64> Builder<'a, F> {
    /// A builder with no states.
    fn fresh(
        tm: &'a TransitionModel,
        ctx: &'a ContextDependency,
        opts: &'a GraphOptions,
        f: &'a F,
    ) -> (r: Self)
        requires
            is_evaluator(*f),
            tm.wf(),
            ctx.p < ctx.n,
        ensures
            r.wf(),
            r.net() == Seq::<Seq<Arc>>::empty(),
            r.su() == setup_of(tm, ctx, opts),
            r.f == f,
            r.tm == tm,
    {
        let b = Builder { states: Vec::new(), tm, ctx, opts, f };
        assert(b.net() =~= Seq::empty());
        b
    }

    /// Emit every pronunciation of a word.
    fn emit_word(
        &mut self,
        hubs: &Vec<Hub>,
        prons: &Vec<Pronunciation>,
        word: WordId,
        next_firsts: &Vec<PhoneId>,
    ) -> (r: Option<Vec<Hub>>)
        requires
            old(self).wf(),
            hubs_fit(hubs@, old(self).net()),
        ensures
            final(self).follows(old(self)),
            match with_prons(
                old(self).net(),
                Seq::empty(),
                old(self).su(),
                hubs@,
                pron_views(prons@),
                0,
                word,
                next_firsts@,
                *old(self).f,
            ) {
                Some(x) => r matches Some(next) && next@ == x.1 && final(self).net() == x.0
                    && final(self).wf() && hubs_fit(next@, final(self).net()),
                None => r is None,
            },
    {
        let ghost views = pron_views(prons@);
        let ghost want = with_prons(
            self.net(),
            Seq::empty(),
            self.su(),
            hubs@,
            views,
            0,
            word,
            next_firsts@,
            *self.f,
        );
        let after_silence: PhoneId = if next_firsts.len() > 0 {
            next_firsts[0]
        } else {
            0
        };
        let mut next_hubs: Vec<Hub> = Vec::new();
        let mut i: usize = 0;
        while i < prons.len()
            invariant
                self.wf(),
                self.follows(old(self)),
                hubs_fit(hubs@, old(self).net()),
                hubs_fit(next_hubs@, self.net()),
                views == pron_views(prons@),
                after_silence == leading(next_firsts@),
                want == with_prons(
                    old(self).net(),
                    Seq::empty(),
                    old(self).su(),
                    hubs@,
                    views,
                    0,
                    word,
                    next_firsts@,
                    *old(self).f,
                ),
                i <= prons@.len(),
                want == with_prons(
                    self.net(),
                    next_hubs@,
                    self.su(),
                    hubs@,
                    views,
                    i as int,
                    word,
                    next_firsts@,
                    *self.f,
                ),
            decreases prons.len() - i,
        {
            assert(views[i as int] == prons@[i as int]@);
            assert(hubs_fit(hubs@, self.net()));
            if !self.emit_pron(
                &mut next_hubs,
                hubs,
                &prons[i],
                word,
                i as u32,
                next_firsts,
                after_silence,
            ) {
                return None;
            }
            i += 1;
        }
        Some(next_hubs)
    }

    /// Emit the optional silence before the first word.
    fn emit_start(&mut self, firsts: &Vec<PhoneId>) -> (r: Option<Vec<Hub>>)
        requires
            old(self).wf(),
            old(self).net().len() == 0,
        ensures
            final(self).follows(old(self)),
            match with_start(old(self).su(), firsts@, *old(self).f) {
                Some(x) => r matches Some(hubs) && hubs@ == x.1 && final(self).net() == x.0
                    && final(self).wf() && hubs_fit(hubs@, final(self).net()),
                None => r is None,
            },
    {
        proof {
            assert(self.net() =~= Seq::empty());
        }
        let start: u32 = match self.add_state() {
            Some(s) => s,
            None => {
                return None;
            },
        };
        let p: u32 = self.opts.initial_silence_prob;
        let silence_phone: PhoneId = self.opts.silence_phone;
        let mut hubs: Vec<Hub> = Vec::new();
        if !lt(ZERO, p) {
            hubs.push(Hub { branch: Branch::Direct, state: start, left: 0 });
            assert(hubs@ =~= seq![Hub { branch: Branch::Direct, state: 0, left: 0 }]);
            return Some(hubs);
        }
        let direct_cost: u32 = neg_log(eval(self.f, FloatOp::Sub(ONE, p)), self.f);
        let silence_cost: u32 = neg_log(p, self.f);
        let direct: u32 = match self.add_state() {
            Some(s) => s,
            None => {
                return None;
            },
        };
        self.add_epsilon(start, direct, direct_cost);
        let sil_in: u32 = match self.add_state() {
            Some(s) => s,
            None => {
                return None;
            },
        };
        self.add_epsilon(start, sil_in, silence_cost);
        let sil_out: u32 = match self.add_state() {
            Some(s) => s,
            None => {
                return None;
            },
        };
        let right: PhoneId = if firsts.len() > 0 {
            firsts[0]
        } else {
            0
        };
        let window = make_window(self.ctx, 0, silence_phone, right);
        if !self.emit_phone(&window, sil_in, sil_out, NO_WORD, NO_PRON) {
            return None;
        }
        hubs.push(Hub { branch: Branch::Direct, state: direct, left: 0 });
        hubs.push(Hub { branch: Branch::Silence, state: sil_out, left: silence_phone });
        assert(hubs@ =~= seq![
            Hub { branch: Branch::Direct, state: 1, left: 0 },
            Hub { branch: Branch::Silence, state: 3, left: silence_phone },
        ]);
        Some(hubs)
    }

    /// Emit the words. The inner answer is none where no path has a finite cost.
    fn emit_words(
        &mut self,
        start: Vec<Hub>,
        words: &[Vec<Pronunciation>],
        live: &Vec<usize>,
        Ghost(order): Ghost<Seq<int>>,
    ) -> (r: Option<Option<Vec<Hub>>>)
        requires
            old(self).wf(),
            hubs_fit(start@, old(self).net()),
            live@.len() == order.len(),
            forall|i: int|
                0 <= i < live@.len() ==> #[trigger] live@[i] == order[i] && live@[i] < words@.len(),
        ensures
            final(self).follows(old(self)),
            match with_words(
                old(self).net(),
                start@,
                old(self).su(),
                word_views(words@),
                order,
                0,
                *old(self).f,
            ) {
                Some(Some(x)) => r matches Some(Some(hubs)) && hubs@ == x.1 && final(self).net()
                    == x.0 && final(self).wf() && hubs_fit(hubs@, final(self).net()),
                Some(None) => r matches Some(None),
                None => r is None,
            },
    {
        let ghost views = word_views(words@);
        let ghost want = with_words(self.net(), start@, self.su(), views, order, 0, *self.f);
        let mut hubs: Vec<Hub> = start;
        let mut k: usize = 0;
        while k < live.len()
            invariant
                self.wf(),
                self.follows(old(self)),
                hubs_fit(hubs@, self.net()),
                views == word_views(words@),
                live@.len() == order.len(),
                forall|i: int|
                    0 <= i < live@.len() ==> #[trigger] live@[i] == order[i] && live@[i]
                        < words@.len(),
                want == with_words(
                    old(self).net(),
                    start@,
                    old(self).su(),
                    views,
                    order,
                    0,
                    *old(self).f,
                ),
                k <= live@.len(),
                want == with_words(
                    self.net(),
                    hubs@,
                    self.su(),
                    views,
                    order,
                    k as int,
                    *self.f,
                ),
            decreases live.len() - k,
        {
            let w: usize = live[k];
            assert(w == order[k as int]);
            assert(views[w as int] == pron_views(words@[w as int]@));
            let next_firsts = next_first_phones(words, live, k + 1, Ghost(order));
            let next_hubs = match self.emit_word(&hubs, &words[w], w as u32, &next_firsts) {
                Some(next) => next,
                None => {
                    return None;
                },
            };
            if next_hubs.len() == 0 {
                return Some(None);
            }
            hubs = next_hubs;
            k += 1;
        }
        Some(Some(hubs))
    }

    /// Emit silence only.
    fn emit_silence(&mut self) -> (r: Option<Vec<(u32, u32)>>)
        requires
            old(self).wf(),
            old(self).net().len() == 0,
        ensures
            final(self).follows(old(self)),
            match silent_draft(old(self).su(), *old(self).f) {
                Some(x) => r matches Some(finals) && finals@ == x.1 && final(self).net() == x.0
                    && final(self).wf() && finals_fit(finals@, final(self).net()),
                None => r is None,
            },
    {
        proof {
            assert(self.net() =~= Seq::empty());
        }
        let start: u32 = match self.add_state() {
            Some(s) => s,
            None => {
                return None;
            },
        };
        let end: u32 = match self.add_state() {
            Some(s) => s,
            None => {
                return None;
            },
        };
        let window = make_window(self.ctx, 0, self.opts.silence_phone, 0);
        if !self.emit_phone(&window, start, end, NO_WORD, NO_PRON) {
            return None;
        }
        let mut finals: Vec<(u32, u32)> = Vec::new();
        finals.push((end, neg_log(self.opts.final_silence_correction, self.f)));
        assert(finals@ =~= seq![
            (1u32, neg_log_of(self.su().opts.final_silence_correction, *self.f)),
        ]);
        Some(finals)
    }
}

/// The final states lie in the graph.
spec fn finals_fit(finals: Seq<(u32, u32)>, g: Seq<Seq<Arc>>) -> bool {
    forall|i: int| 0 <= i < finals.len() ==> (#[trigger] finals[i]).0 < g.len()
}

/// The final states among the hubs.
fn list_finals<F: Fn(FloatOp) -> u64>(hubs: &Vec<Hub>, opts: &GraphOptions, f: &F) -> (r: Vec<
    (u32, u32),
>)
    requires
        is_evaluator(*f),
    ensures
        r@ == finals_of(hubs@, hubs@.len() as int, *opts, *f),
        forall|i: int|
            0 <= i < r@.len() ==> exists|h: int|
                0 <= h < hubs@.len() && (#[trigger] hubs@[h]).state == (#[trigger] r@[i]).0,
{
    let sil_final: u32 = neg_log(opts.final_silence_correction, f);
    let nonsil_final: u32 = neg_log(opts.final_non_silence_correction, f);
    let mut finals: Vec<(u32, u32)> = Vec::new();
    let mut i: usize = 0;
    while i < hubs.len()
        invariant
            sil_final == neg_log_of(opts.final_silence_correction, *f),
            nonsil_final == neg_log_of(opts.final_non_silence_correction, *f),
            i <= hubs@.len(),
            finals@ == finals_of(hubs@, i as int, *opts, *f),
            forall|j: int|
                0 <= j < finals@.len() ==> exists|h: int|
                    0 <= h < hubs@.len() && (#[trigger] hubs@[h]).state == (#[trigger] finals@[j]).0,
        decreases hubs.len() - i,
    {
        let cost: u32 = match hubs[i].branch {
            Branch::Silence => sil_final,
            Branch::Direct => nonsil_final,
        };
        if is_finite(cost) {
            let ghost before = finals@;
            finals.push((hubs[i].state, cost));
            proof {
                assert forall|j: int| 0 <= j < finals@.len() implies exists|h: int|
                    0 <= h < hubs@.len() && (#[trigger] hubs@[h]).state == (#[trigger] finals@[j]).0 by {
                    if j < before.len() {
                        assert(finals@[j] == before[j]);
                    } else {
                        assert(hubs@[i as int].state == finals@[j].0);
                    }
                }
            }
        }
        i += 1;
    }
    finals
}

/// The states and final states before the self-loops.
fn draft<'a, F: Fn(FloatOp) -> u64>(
    words: &[Vec<Pronunciation>],
    tm: &'a TransitionModel,
    ctx: &'a ContextDependency,
    opts: &'a GraphOptions,
    f: &'a F,
) -> (r: Option<(Vec<GraphState>, Vec<(u32, u32)>)>)
    requires
        is_evaluator(*f),
        tm.wf(),
        ctx.p < ctx.n,
    ensures
        match draft_of(setup_of(tm, ctx, opts), word_views(words@), *f) {
            Some(x) => r matches Some(d) && arcs_of(d.0@) == x.0 && d.1@ == x.1 && is_draft(
                x.0,
                tm@,
            ) && finals_fit(x.1, x.0),
            None => r is None,
        },
{
    let ghost views = word_views(words@);
    let ghost order = live_words(views, words@.len() as int);
    let live = list_live(words);
    if live.len() > 0 {
        let firsts = next_first_phones(words, &live, 0, Ghost(order));
        let mut b = Builder::fresh(tm, ctx, opts, f);
        let start = match b.emit_start(&firsts) {
            Some(hubs) => hubs,
            None => {
                return None;
            },
        };
        match b.emit_words(start, words, &live, Ghost(order)) {
            Some(Some(hubs)) => {
                let finals = list_finals(&hubs, opts, f);
                proof {
                    assert forall|i: int| 0 <= i < finals@.len() implies (#[trigger] finals@[i]).0
                        < b.net().len() by {
                        let h = choose|h: int|
                            0 <= h < hubs@.len() && (#[trigger] hubs@[h]).state == finals@[i].0;
                        assert(hubs@[h].state < b.net().len());
                    }
                }
                return Some((b.states, finals));
            },
            Some(None) => {},
            None => {
                return None;
            },
        }
    }
    let mut b = Builder::fresh(tm, ctx, opts, f);
    match b.emit_silence() {
        Some(finals) => Some((b.states, finals)),
        None => None,
    }
}

/// The labels stay where they belong through the splitting, the self-loops and the costs.
proof fn finishing_keeps_labels<F: Fn(FloatOp) -> u64>(
    g: GraphView,
    m: ModelView,
    transition_scale: u32,
    self_loop_scale: u32,
    f: F,
)
    requires
        labels_are_placed(g.states, m),
    ensures
        labels_are_placed(
            costed(self_looped(g, m), m, transition_scale, self_loop_scale, f).states,
            m,
        ),
{
    let looped = self_looped(g, m);
    let done = costed(looped, m, transition_scale, self_loop_scale, f);
    let cut = split(g.states, m);
    sources_exist(g.states, m, g.states.len() as int);
    assert forall|s: int, k: int|
        0 <= s < done.states.len() && 0 <= k < done.states[s].len() implies label_is_placed(
        #[trigger] done.states[s][k],
        m,
    ) by {
        let a = looped.states[s][k];
        assert(looped.states[s] == cut[s] + loop_arc(looped.state_in[s], s, m));
        if k < cut[s].len() {
            let from = source(g.states, m, s);
            assert(cut[s] == redirected_all(g.states, m, g.states[from]));
            assert(label_is_placed(g.states[from][k], m));
        }
    }
}

/// The decoding graph of an utterance.
///
/// `words[i]` holds the candidate pronunciations of word `i`, with word-position tags already if
/// phones carry them. Every pronunciation is a branch; the number of the word and that of the
/// pronunciation stand on the arcs that leave its first phone's first state. There is no graph if a
/// phone cannot be emitted, or if the states outnumber their ids.
pub fn try_build_graph<F: Fn(FloatOp) -> u64>(
    words: &[Vec<Pronunciation>],
    tm: &TransitionModel,
    ctx: &ContextDependency,
    opts: &GraphOptions,
    f: &F,
) -> (r: Option<Graph>)
    requires
        is_evaluator(*f),
        tm.wf(),
        ctx.p < ctx.n,
    ensures
        match graph_of(setup_of(tm, ctx, opts), word_views(words@), *f) {
            Some(g) => r matches Some(graph) && graph@ == g && g.fits(tm@) && labels_are_placed(
                g.states,
                tm@,
            ),
            None => r is None,
        },
{
    let (states, finals) = match draft(words, tm, ctx, opts, f) {
        Some(d) => d,
        None => {
            return None;
        },
    };
    let mut graph = Graph { states, finals, finals_lm: Vec::new(), state_in: Vec::new() };
    let ghost g0 = graph@;
    proof {
        assert(g0.finals_lm =~= Seq::<u32>::empty());
        assert(g0.state_in =~= Seq::<Option<u32>>::empty());
    }
    if !add_self_loops(&mut graph, tm) {
        return None;
    }
    graph.apply_transition_probs(tm, opts.transition_scale, opts.self_loop_scale, f);
    proof {
        finishing_keeps_labels(g0, tm@, opts.transition_scale, opts.self_loop_scale, *f);
    }
    Some(graph)
}

/// The decoding graph of an utterance whose phones can be emitted; see [`try_build_graph`].
pub fn build_graph<F: Fn(FloatOp) -> u64>(
    words: &[Vec<Pronunciation>],
    tm: &TransitionModel,
    ctx: &ContextDependency,
    opts: &GraphOptions,
    f: &F,
) -> (r: Graph)
    requires
        is_evaluator(*f),
        tm.wf(),
        ctx.p < ctx.n,
        graph_of(setup_of(tm, ctx, opts), word_views(words@), *f) is Some,
    ensures
        Some(r@) == graph_of(setup_of(tm, ctx, opts), word_views(words@), *f),
        r@.fits(tm@),
        labels_are_placed(r@.states, tm@),
{
    try_build_graph(words, tm, ctx, opts, f).unwrap()
}

} // verus!
