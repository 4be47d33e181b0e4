//! The decoding graph of an utterance.
//!
//! An arc that emits carries a transition id; the others are epsilon arcs with id 0. In the
//! reordered form that the graphs have, the self-loop of a transition state stands on the graph
//! state that its forward arcs enter, and whatever leaves that graph state pays for not looping.

use vstd::prelude::*;

use crate::float::{eval, is_evaluator, neg, negated, value, FloatOp, ZERO};
use crate::hmm::transition::{pdf_of, ModelView, TransitionModel};
use crate::order::{increasing, insert};
use crate::types::{PdfId, TransitionId, WordId};

verus! {

/// The word of an arc that carries none.
pub const NO_WORD: WordId = 0xffff_ffff;

/// The pronunciation of an arc that selects none.
pub const NO_PRON: u32 = 0xffff_ffff;

/// Single-precision 0.1.
pub const TENTH: u32 = 0x3dcc_cccd;

/// Single-precision 0.5.
pub const HALF: u32 = 0x3f00_0000;

/// An arc of the graph. The costs are single-precision bits.
#[derive(Clone, Copy, Debug, PartialEq, Eq, Structural)]
pub struct Arc {
    /// The transition id, or 0 where nothing is emitted.
    pub tid: TransitionId,
    /// The word that starts here, or [`NO_WORD`].
    pub word: WordId,
    /// Which pronunciation of the word starts here, or [`NO_PRON`].
    pub pron: u32,
    /// The state that the arc leads to.
    pub next: u32,
    /// The cost with the probabilities of the transition model.
    pub cost: u32,
    /// The part of the cost that the transition model has no say in.
    pub lm: u32,
}

#[derive(Debug)]
pub struct GraphState {
    pub arcs: Vec<Arc>,
}

/// A graph. State 0 is the start.
#[derive(Debug)]
pub struct Graph {
    pub states: Vec<GraphState>,
    /// The final states and their costs.
    pub finals: Vec<(u32, u32)>,
    /// The part of each final cost that the transition model has no say in.
    pub finals_lm: Vec<u32>,
    /// The transition state of the arcs that enter each state.
    pub state_in: Vec<Option<u32>>,
}

/// What a graph is.
#[verifier::ext_equal]
pub struct GraphView {
    pub states: Seq<Seq<Arc>>,
    pub finals: Seq<(u32, u32)>,
    pub finals_lm: Seq<u32>,
    pub state_in: Seq<Option<u32>>,
}

/// The arcs of each state.
pub open spec fn arcs_of(states: Seq<GraphState>) -> Seq<Seq<Arc>> {
    Seq::new(states.len(), |s: int| states[s].arcs@)
}

impl View for Graph {
    type V = GraphView;

    open spec fn view(&self) -> GraphView {
        GraphView {
            states: arcs_of(self.states@),
            finals: self.finals@,
            finals_lm: self.finals_lm@,
            state_in: self.state_in@,
        }
    }
}

/// The arc leads to one of `n` states and its id is one of the model's, if it emits.
pub open spec fn arc_fits(a: Arc, n: int, m: ModelView) -> bool {
    a.next < n && (a.tid != 0 ==> m.has_id(a.tid as int))
}

/// Every arc leads to a state, and every id is one of the model's.
pub open spec fn arcs_fit(states: Seq<Seq<Arc>>, m: ModelView) -> bool {
    forall|s: int, k: int|
        0 <= s < states.len() && 0 <= k < states[s].len() ==> arc_fits(
            #[trigger] states[s][k],
            states.len() as int,
            m,
        )
}

impl GraphView {
    /// The graph is one over the model: its arcs and final states are states of the graph, its ids
    /// and the recorded transition states are those of the model.
    pub open spec fn fits(self, m: ModelView) -> bool {
        &&& arcs_fit(self.states, m)
        &&& self.state_in.len() == self.states.len()
        &&& forall|s: int|
            0 <= s < self.state_in.len() ==> (#[trigger] self.state_in[s] matches Some(ts)
                ==> m.has_state(ts as int))
        &&& self.finals_lm.len() == self.finals.len()
        &&& forall|i: int|
            0 <= i < self.finals.len() ==> (#[trigger] self.finals[i]).0 < self.states.len()
    }
}

/// The cost of the first final entry for `state`.
pub open spec fn final_cost_of(finals: Seq<(u32, u32)>, state: u32) -> Option<u32>
    decreases finals.len(),
{
    if finals.len() == 0 {
        None
    } else if finals[0].0 == state {
        Some(finals[0].1)
    } else {
        final_cost_of(finals.drop_first(), state)
    }
}

/// What leaving a state costs that was entered by transition state `entered`.
pub open spec fn leaving_cost<F: Fn(FloatOp) -> u64>(
    entered: Option<u32>,
    m: ModelView,
    self_loop_scale: u32,
    f: F,
) -> u32 {
    match entered {
        Some(ts) => value(f, FloatOp::Mul(negated(self_loop_scale), m.leaving[ts as int])),
        None => ZERO,
    }
}

/// The log probability of `t` among the transitions of its state that do not loop.
pub open spec fn forward_log_prob<F: Fn(FloatOp) -> u64>(m: ModelView, t: int, f: F) -> u32 {
    value(f, FloatOp::Sub(m.log_probs[t], m.leaving[m.owner(t)]))
}

/// The cost of an arc out of state `s`: a self-loop pays for looping, a forward arc for its
/// transition and for not looping before it, an epsilon arc for not looping before it.
pub open spec fn arc_cost<F: Fn(FloatOp) -> u64>(
    a: Arc,
    s: int,
    entered: Option<u32>,
    m: ModelView,
    transition_scale: u32,
    self_loop_scale: u32,
    f: F,
) -> u32 {
    let leaving = leaving_cost(entered, m, self_loop_scale, f);
    if a.tid != 0 && a.next == s && m.loops(a.tid as int) {
        value(f, FloatOp::Mul(negated(self_loop_scale), m.log_probs[a.tid as int]))
    } else if a.tid != 0 {
        let forward = value(
            f,
            FloatOp::Mul(transition_scale, forward_log_prob(m, a.tid as int, f)),
        );
        value(f, FloatOp::Add(value(f, FloatOp::Sub(a.lm, forward)), leaving))
    } else {
        value(f, FloatOp::Add(a.lm, leaving))
    }
}

/// The graph with all costs computed from the model.
pub open spec fn costed<F: Fn(FloatOp) -> u64>(
    g: GraphView,
    m: ModelView,
    transition_scale: u32,
    self_loop_scale: u32,
    f: F,
) -> GraphView {
    GraphView {
        states: Seq::new(
            g.states.len(),
            |s: int|
                Seq::new(
                    g.states[s].len(),
                    |k: int|
                        Arc {
                            cost: arc_cost(
                                g.states[s][k],
                                s,
                                g.state_in[s],
                                m,
                                transition_scale,
                                self_loop_scale,
                                f,
                            ),
                            ..g.states[s][k]
                        },
                ),
        ),
        finals: Seq::new(
            g.finals.len(),
            |i: int|
                (
                    g.finals[i].0,
                    value(
                        f,
                        FloatOp::Add(
                            g.finals_lm[i],
                            leaving_cost(g.state_in[g.finals[i].0 as int], m, self_loop_scale, f),
                        ),
                    ),
                ),
        ),
        ..g
    }
}

impl Default for Graph {
    fn default() -> (r: Self)
        ensures
            r@ == (GraphView {
                states: Seq::empty(),
                finals: Seq::empty(),
                finals_lm: Seq::empty(),
                state_in: Seq::empty(),
            }),
    {
        let g = Graph {
            states: Vec::new(),
            finals: Vec::new(),
            finals_lm: Vec::new(),
            state_in: Vec::new(),
        };
        assert(g@.states =~= Seq::<Seq<Arc>>::empty());
        g
    }
}

impl Graph {
    pub fn num_states(&self) -> (r: usize)
        ensures
            r == self@.states.len(),
    {
        self.states.len()
    }

    /// The cost of ending in `state`, if it is final.
    pub fn final_cost(&self, state: u32) -> (r: Option<u32>)
        ensures
            r == final_cost_of(self@.finals, state),
    {
        let mut i: usize = 0;
        assert(self.finals@.skip(0) == self.finals@);
        while i < self.finals.len()
            invariant
                i <= self.finals@.len(),
                final_cost_of(self.finals@, state) == final_cost_of(
                    self.finals@.skip(i as int),
                    state,
                ),
            decreases self.finals.len() - i,
        {
            let (s, c) = self.finals[i];
            if s == state {
                return Some(c);
            }
            assert(self.finals@.skip(i as int).drop_first() == self.finals@.skip(i + 1));
            i += 1;
        }
        None
    }

    /// Whether `state` is final.
    pub fn is_final(&self, state: u32) -> (r: bool)
        ensures
            r == (final_cost_of(self@.finals, state) is Some),
    {
        self.final_cost(state).is_some()
    }

    /// Compute every cost anew from the model: training does so before each realignment, since the
    /// probabilities change with every pass.
    pub fn apply_transition_probs<F: Fn(FloatOp) -> u64>(
        &mut self,
        tm: &TransitionModel,
        transition_scale: u32,
        self_loop_scale: u32,
        f: &F,
    )
        requires
            is_evaluator(*f),
            tm.wf(),
            old(self)@.fits(tm@),
        ensures
            final(self)@ == costed(old(self)@, tm@, transition_scale, self_loop_scale, *f),
            final(self)@.fits(tm@),
    {
        let ghost before = self@;
        let ghost want = costed(before, tm@, transition_scale, self_loop_scale, *f);
        let n: usize = self.states.len();
        let mut s: usize = 0;
        while s < n
            invariant
                is_evaluator(*f),
                tm.wf(),
                before.fits(tm@),
                want == costed(before, tm@, transition_scale, self_loop_scale, *f),
                n == self.states@.len(),
                n == before.states.len(),
                s <= n,
                self.finals@ == before.finals,
                self.finals_lm@ == before.finals_lm,
                self.state_in@ == before.state_in,
                forall|j: int| 0 <= j < s ==> (#[trigger] self.states@[j]).arcs@ == want.states[j],
                forall|j: int|
                    s <= j < n ==> (#[trigger] self.states@[j]).arcs@ == before.states[j],
            decreases n - s,
        {
            let leaving: u32 = recorded_leaving_cost(self.state_in[s], tm, self_loop_scale, f);
            let mut arcs: Vec<Arc> = Vec::new();
            let count: usize = self.states[s].arcs.len();
            let ghost old_arcs = before.states[s as int];
            assert(self.states@[s as int].arcs@ == old_arcs);
            let mut k: usize = 0;
            while k < count
                invariant
                    is_evaluator(*f),
                    tm.wf(),
                    before.fits(tm@),
                    want == costed(before, tm@, transition_scale, self_loop_scale, *f),
                    s < n,
                    n == self.states@.len(),
                    n == before.states.len(),
                    old_arcs == before.states[s as int],
                    self.states@[s as int].arcs@ == old_arcs,
                    leaving == leaving_cost(before.state_in[s as int], tm@, self_loop_scale, *f),
                    count == old_arcs.len(),
                    k <= count,
                    arcs@ == want.states[s as int].take(k as int),
                decreases count - k,
            {
                let a: Arc = self.states[s].arcs[k];
                assert(a == before.states[s as int][k as int]);
                assert(arc_fits(a, n as int, tm@));
                let is_loop: bool = a.tid != 0 && a.next as usize == s && tm.is_self_loop(a.tid);
                let cost: u32 = if is_loop {
                    eval(f, FloatOp::Mul(neg(self_loop_scale), tm.get_transition_log_prob(a.tid)))
                } else if a.tid != 0 {
                    let forward: u32 = eval(
                        f,
                        FloatOp::Mul(
                            transition_scale,
                            tm.get_transition_log_prob_ignoring_self_loops(a.tid, f),
                        ),
                    );
                    eval(f, FloatOp::Add(eval(f, FloatOp::Sub(a.lm, forward)), leaving))
                } else {
                    eval(f, FloatOp::Add(a.lm, leaving))
                };
                arcs.push(
                    Arc {
                        tid: a.tid,
                        word: a.word,
                        pron: a.pron,
                        next: a.next,
                        cost,
                        lm: a.lm,
                    },
                );
                assert(arcs@ =~= want.states[s as int].take(k + 1));
                k += 1;
            }
            assert(arcs@ =~= want.states[s as int]);
            self.states.set(s, GraphState { arcs });
            s += 1;
        }
        let total: usize = self.finals.len();
        let mut i: usize = 0;
        while i < total
            invariant
                is_evaluator(*f),
                tm.wf(),
                before.fits(tm@),
                want == costed(before, tm@, transition_scale, self_loop_scale, *f),
                n == self.states@.len(),
                n == before.states.len(),
                total == before.finals.len(),
                total == self.finals@.len(),
                i <= total,
                self.finals_lm@ == before.finals_lm,
                self.state_in@ == before.state_in,
                forall|j: int| 0 <= j < n ==> (#[trigger] self.states@[j]).arcs@ == want.states[j],
                forall|j: int| 0 <= j < i ==> #[trigger] self.finals@[j] == want.finals[j],
                forall|j: int| i <= j < total ==> #[trigger] self.finals@[j] == before.finals[j],
            decreases total - i,
        {
            let (state, ignored) = self.finals[i];
            assert(self.finals@[i as int] == before.finals[i as int]);
            let leaving: u32 = recorded_leaving_cost(
                self.state_in[state as usize],
                tm,
                self_loop_scale,
                f,
            );
            self.finals.set(i, (state, eval(f, FloatOp::Add(self.finals_lm[i], leaving))));
            i += 1;
        }
        proof {
            assert(self@.states =~= want.states);
            assert(self@.finals =~= want.finals);
            assert forall|s: int, k: int|
                0 <= s < want.states.len() && 0 <= k < want.states[s].len() implies arc_fits(
                #[trigger] want.states[s][k],
                want.states.len() as int,
                tm@,
            ) by {
                assert(arc_fits(before.states[s][k], before.states.len() as int, tm@));
            }
            assert forall|i: int| 0 <= i < want.finals.len() implies (#[trigger] want.finals[i]).0
                < want.states.len() by {
                assert(before.finals[i].0 < before.states.len());
            }
        }
    }
}

/// Costing anew forgets every earlier cost: only the model of the last time matters.
pub proof fn recosting_forgets<F: Fn(FloatOp) -> u64>(
    g: GraphView,
    first: ModelView,
    second: ModelView,
    scales: (u32, u32),
    other_scales: (u32, u32),
    f: F,
)
    ensures
        costed(
            costed(g, first, other_scales.0, other_scales.1, f),
            second,
            scales.0,
            scales.1,
            f,
        ) == costed(g, second, scales.0, scales.1, f),
{
    let once = costed(g, first, other_scales.0, other_scales.1, f);
    let twice = costed(once, second, scales.0, scales.1, f);
    let direct = costed(g, second, scales.0, scales.1, f);
    assert forall|s: int| 0 <= s < g.states.len() implies twice.states[s] == direct.states[s] by {
        assert(twice.states[s] =~= direct.states[s]);
    }
    assert(twice.states =~= direct.states);
    assert(twice.finals =~= direct.finals);
}

fn recorded_leaving_cost<F: Fn(FloatOp) -> u64>(
    entered: Option<u32>,
    tm: &TransitionModel,
    self_loop_scale: u32,
    f: &F,
) -> (r: u32)
    requires
        is_evaluator(*f),
        tm.wf(),
        entered matches Some(ts) ==> tm@.has_state(ts as int),
    ensures
        r == leaving_cost(entered, tm@, self_loop_scale, *f),
{
    match entered {
        Some(ts) => eval(f, FloatOp::Mul(neg(self_loop_scale), tm.get_non_self_loop_log_prob(ts))),
        None => ZERO,
    }
}

/// An arc of the graph has a transition id of this pdf.
pub open spec fn scores(g: GraphView, m: ModelView, pdf: PdfId) -> bool {
    exists|s: int, k: int|
        0 <= s < g.states.len() && 0 <= k < g.states[s].len() && (#[trigger] g.states[s][k]).tid != 0
            && pdf_of(m.topo, m.tuples, g.states[s][k].tid as int) == pdf
}

/// Every pdf that the graph can score with, sorted and unique.
pub fn graph_pdfs(graph: &Graph, tm: &TransitionModel) -> (r: Vec<PdfId>)
    requires
        tm.wf(),
        arcs_fit(graph@.states, tm@),
    ensures
        increasing(r@),
        forall|p: PdfId| #[trigger] r@.contains(p) == scores(graph@, tm@, p),
{
    let ghost g = graph@;
    let mut out: Vec<PdfId> = Vec::new();
    let n: usize = graph.states.len();
    let mut s: usize = 0;
    while s < n
        invariant
            tm.wf(),
            g == graph@,
            arcs_fit(g.states, tm@),
            n == graph.states@.len(),
            s <= n,
            increasing(out@),
            forall|p: PdfId| #[trigger]
                out@.contains(p) == exists|i: int, k: int|
                    0 <= i < s && 0 <= k < g.states[i].len() && (#[trigger] g.states[i][k]).tid != 0
                        && pdf_of(tm@.topo, tm@.tuples, g.states[i][k].tid as int) == p,
        decreases n - s,
    {
        let count: usize = graph.states[s].arcs.len();
        assert(g.states[s as int] == graph.states@[s as int].arcs@);
        let mut j: usize = 0;
        while j < count
            invariant
                tm.wf(),
                g == graph@,
                arcs_fit(g.states, tm@),
                n == graph.states@.len(),
                s < n,
                g.states[s as int] == graph.states@[s as int].arcs@,
                count == g.states[s as int].len(),
                j <= count,
                increasing(out@),
                forall|p: PdfId| #[trigger]
                    out@.contains(p) == exists|i: int, k: int|
                        0 <= i <= s && 0 <= k < g.states[i].len() && (i == s ==> k < j) && (
                        #[trigger] g.states[i][k]).tid != 0 && pdf_of(
                            tm@.topo,
                            tm@.tuples,
                            g.states[i][k].tid as int,
                        ) == p,
            decreases count - j,
        {
            let a: Arc = graph.states[s].arcs[j];
            let ghost earlier = out@;
            assert(a == g.states[s as int][j as int]);
            assert(arc_fits(a, n as int, tm@));
            if a.tid != 0 {
                insert(&mut out, tm.transition_id_to_pdf(a.tid));
            }
            proof {
                assert forall|p: PdfId| #[trigger] out@.contains(p) == (exists|i: int, k: int|
                    0 <= i <= s && 0 <= k < g.states[i].len() && (i == s ==> k < j + 1) && (
                    #[trigger] g.states[i][k]).tid != 0 && pdf_of(
                        tm@.topo,
                        tm@.tuples,
                        g.states[i][k].tid as int,
                    ) == p) by {
                    if a.tid != 0 && p == pdf_of(tm@.topo, tm@.tuples, a.tid as int) {
                        assert(g.states[s as int][j as int].tid != 0);
                    }
                    assert(earlier.contains(p) ==> out@.contains(p));
                }
            }
            j += 1;
        }
        s += 1;
    }
    out
}

} // verus!
