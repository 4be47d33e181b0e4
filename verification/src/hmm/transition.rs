//! The transition model: transition states, transition ids and their probabilities.
//!
//! A transition state is a tuple of phone, HMM state and pdfs. The tuples are kept in increasing
//! order; transition state `s` is the `s`-th of them, counted from 1. The transition ids count
//! from 1 too: each transition state owns as many consecutive ids as its HMM state has
//! transitions.

use vstd::prelude::*;
use vstd::string::StringExecFns;

use crate::float::{
    at_most, eval, eval_wide, is_evaluator, is_finite_bits, le, less, lt, value, wide_eq, wide_less,
    wide_lt, wide_same, wide_value, FloatOp, ONE, WIDE_ZERO, ZERO,
};
use crate::hmm::context::{
    as_pairs, central, central_event, offers, pdf_count, ContextDependency, PhoneClass,
};
use crate::hmm::topology::{
    classes_of, covers, state_views, states_of, EntryView, HmmTopology, StateView,
};
use crate::order::{increasing, insert, search, Key};
use crate::text::{append_decimal, decimal};
use crate::tree::{answers, answers_are_bounded, Tree};
use crate::types::{PdfId, PhoneId, TransitionId};

verus! {

/// Single-precision 1e-10, what a vanishing probability of leaving a state is raised to.
pub const TINY: u32 = 0x2edb_e6ff;

/// A phone, one of its HMM states, and the pdfs of the state's forward and self-loop transitions.
#[derive(Clone, Copy, Debug, PartialEq, Eq, PartialOrd, Ord, Structural)]
pub struct Tuple {
    pub phone: PhoneId,
    pub hmm_state: usize,
    pub forward_pdf: PdfId,
    pub self_loop_pdf: PdfId,
}

/// Tuples are ordered by phone, then HMM state, then forward pdf, then self-loop pdf.
impl Key for Tuple {
    open spec fn before(self, other: Self) -> bool {
        self.phone < other.phone || (self.phone == other.phone && (self.hmm_state < other.hmm_state
            || (self.hmm_state == other.hmm_state && (self.forward_pdf < other.forward_pdf || (
        self.forward_pdf == other.forward_pdf && self.self_loop_pdf < other.self_loop_pdf)))))
    }

    proof fn trichotomy(a: Self, b: Self) {
    }

    proof fn transitive(a: Self, b: Self, c: Self) {
    }

    fn is_before(&self, other: &Self) -> (r: bool) {
        self.phone < other.phone || (self.phone == other.phone && (self.hmm_state < other.hmm_state
            || (self.hmm_state == other.hmm_state && (self.forward_pdf < other.forward_pdf || (
        self.forward_pdf == other.forward_pdf && self.self_loop_pdf < other.self_loop_pdf)))))
    }
}

/// The HMM state that a tuple names.
pub open spec fn hmm_state_of(topo: Seq<EntryView>, t: Tuple) -> StateView {
    states_of(topo, t.phone)[t.hmm_state as int]
}

/// The tuple names a state of the topology.
pub open spec fn is_placed(topo: Seq<EntryView>, t: Tuple) -> bool {
    covers(topo, t.phone) && t.hmm_state < states_of(topo, t.phone).len()
}

/// The first transition id of transition state `s`: one more than the transitions of all states
/// before it.
pub open spec fn first_id(topo: Seq<EntryView>, tuples: Seq<Tuple>, s: int) -> int
    decreases s,
{
    if s <= 1 {
        1
    } else {
        first_id(topo, tuples, s - 1) + hmm_state_of(topo, tuples[s - 2]).transitions.len()
    }
}

/// How many transition ids there are.
pub open spec fn id_count(topo: Seq<EntryView>, tuples: Seq<Tuple>) -> int {
    first_id(topo, tuples, tuples.len() as int + 1) - 1
}

/// Transition id `t` belongs to transition state `s`.
pub open spec fn owns(topo: Seq<EntryView>, tuples: Seq<Tuple>, s: int, t: int) -> bool {
    1 <= s <= tuples.len() && first_id(topo, tuples, s) <= t < first_id(topo, tuples, s + 1)
}

/// The transition state that transition id `t` belongs to.
pub open spec fn owner(topo: Seq<EntryView>, tuples: Seq<Tuple>, t: int) -> int {
    choose|s: int| owns(topo, tuples, s, t)
}

/// The tuple that transition id `t` belongs to.
pub open spec fn tuple_of(topo: Seq<EntryView>, tuples: Seq<Tuple>, t: int) -> Tuple {
    tuples[owner(topo, tuples, t) - 1]
}

/// Which of its state's transitions `t` is.
pub open spec fn index_of(topo: Seq<EntryView>, tuples: Seq<Tuple>, t: int) -> int {
    t - first_id(topo, tuples, owner(topo, tuples, t))
}

/// The transition of the topology that `t` is: where it leads, and its initial probability.
pub open spec fn transition_of(topo: Seq<EntryView>, tuples: Seq<Tuple>, t: int) -> (usize, u32) {
    hmm_state_of(topo, tuple_of(topo, tuples, t)).transitions[index_of(topo, tuples, t)]
}

/// `t` leads back to the state that it leaves.
pub open spec fn loops(topo: Seq<EntryView>, tuples: Seq<Tuple>, t: int) -> bool {
    transition_of(topo, tuples, t).0 == tuple_of(topo, tuples, t).hmm_state
}

/// `t` leads to the final state of its phone.
pub open spec fn leaves(topo: Seq<EntryView>, tuples: Seq<Tuple>, t: int) -> bool {
    transition_of(topo, tuples, t).0 + 1 == states_of(topo, tuple_of(topo, tuples, t).phone).len()
}

/// The pdf that a frame on `t` is scored with.
pub open spec fn pdf_of(topo: Seq<EntryView>, tuples: Seq<Tuple>, t: int) -> PdfId {
    if loops(topo, tuples, t) {
        tuple_of(topo, tuples, t).self_loop_pdf
    } else {
        tuple_of(topo, tuples, t).forward_pdf
    }
}

/// The self-loop transition id of transition state `s`: that of its first transition that leads
/// back.
pub open spec fn loop_of(topo: Seq<EntryView>, tuples: Seq<Tuple>, s: int) -> Option<TransitionId> {
    let t = tuples[s - 1];
    let st = hmm_state_of(topo, t);
    if st.loops_at(t.hmm_state as int) {
        Some((first_id(topo, tuples, s) + first_loop(st, t.hmm_state as int)) as u32)
    } else {
        None
    }
}

/// The first transition of `st` that leads to `index`.
pub open spec fn first_loop(st: StateView, index: int) -> int {
    choose|i: int|
        0 <= i < st.transitions.len() && (#[trigger] st.transitions[i]).0 == index && forall|j: int|
            0 <= j < i ==> (#[trigger] st.transitions[j]).0 != index
}

/// The largest pdf of the tuples, plus one.
pub open spec fn pdfs_of(tuples: Seq<Tuple>) -> int
    decreases tuples.len(),
{
    if tuples.len() == 0 {
        0
    } else {
        let rest = pdfs_of(tuples.drop_last());
        let t = tuples.last();
        let a = if t.forward_pdf + 1 > rest {
            t.forward_pdf + 1
        } else {
            rest
        };
        if t.self_loop_pdf + 1 > a {
            t.self_loop_pdf + 1
        } else {
            a
        }
    }
}

/// The logarithm of the probability of leaving a state whose self-loop has log probability `lp`.
pub open spec fn log_of_leaving<F: Fn(FloatOp) -> u64>(lp: u32, f: F) -> u32 {
    let rest = value(f, FloatOp::Sub(ONE, value(f, FloatOp::Exp(lp))));
    value(
        f,
        FloatOp::Ln(
            if at_most(rest, ZERO) {
                TINY
            } else {
                rest
            },
        ),
    )
}

/// The log probability of not looping, for every transition state: zero where there is no loop.
pub open spec fn leaving_log_probs<F: Fn(FloatOp) -> u64>(
    topo: Seq<EntryView>,
    tuples: Seq<Tuple>,
    log_probs: Seq<u32>,
    f: F,
) -> Seq<u32> {
    Seq::new(
        tuples.len() + 1,
        |s: int|
            if s < 1 {
                ZERO
            } else {
                match loop_of(topo, tuples, s) {
                    Some(t) => log_of_leaving(log_probs[t as int], f),
                    None => ZERO,
                }
            },
    )
}

/// The tuple belongs to a transition model over this tree and topology: its state emits, and the
/// tree offers its pdf for the state's phone and pdf-class.
pub open spec fn belongs(p: usize, tree: Tree, topo: Seq<EntryView>, t: Tuple) -> bool {
    let st = hmm_state_of(topo, t);
    &&& is_placed(topo, t)
    &&& t.forward_pdf == t.self_loop_pdf
    &&& st.emits()
    &&& 0 <= st.pdf_class < (classes_of(topo, t.phone) as usize) as i32
    &&& answers(tree, central_event(p, t.phone, st.pdf_class)).contains(t.forward_pdf)
}

/// Every pdf-class that the tree answers for is emitted by some state of its phone.
pub open spec fn classes_emitted(p: usize, t: Tree, topo: Seq<EntryView>) -> bool {
    forall|phone: PhoneId, class: i32|
        #![trigger central_event(p, phone, class)]
        covers(topo, phone) && 0 <= class < (classes_of(topo, phone) as usize) as i32 && answers(
            t,
            central_event(p, phone, class),
        ).len() > 0 ==> exists|s: int|
            0 <= s < states_of(topo, phone).len() && (#[trigger] states_of(topo, phone)[s]).pdf_class
                == class
}

proof fn first_id_grows(topo: Seq<EntryView>, tuples: Seq<Tuple>, a: int, b: int)
    requires
        1 <= a <= b,
    ensures
        1 <= first_id(topo, tuples, a) <= first_id(topo, tuples, b),
    decreases b,
{
    if b > 1 {
        if a < b {
            first_id_grows(topo, tuples, a, b - 1);
        } else {
            first_id_grows(topo, tuples, a - 1, b - 1);
        }
    }
}

/// A transition id belongs to one transition state only.
pub proof fn owner_is_unique(topo: Seq<EntryView>, tuples: Seq<Tuple>, s: int, t: int)
    requires
        owns(topo, tuples, s, t),
    ensures
        owner(topo, tuples, t) == s,
{
    let o = owner(topo, tuples, t);
    assert(owns(topo, tuples, o, t));
    if o < s {
        first_id_grows(topo, tuples, o + 1, s);
    } else if s < o {
        first_id_grows(topo, tuples, s + 1, o);
    }
}

/// Every transition id from 1 to the count belongs to some transition state.
pub proof fn every_id_is_owned(topo: Seq<EntryView>, tuples: Seq<Tuple>, t: int)
    requires
        1 <= t <= id_count(topo, tuples),
    ensures
        owns(topo, tuples, owner(topo, tuples, t), t),
{
    let s = find_owner(topo, tuples, t, tuples.len() as int);
    assert(owns(topo, tuples, s, t));
}

proof fn find_owner(topo: Seq<EntryView>, tuples: Seq<Tuple>, t: int, n: int) -> (s: int)
    requires
        0 <= n <= tuples.len(),
        1 <= t < first_id(topo, tuples, n + 1),
    ensures
        owns(topo, tuples, s, t),
    decreases n,
{
    if first_id(topo, tuples, n) <= t {
        n
    } else {
        find_owner(topo, tuples, t, n - 1)
    }
}

/// Transition states, transition ids, and a log probability for each id.
#[derive(Debug)]
pub struct TransitionModel {
    topo: HmmTopology,
    tuples: Vec<Tuple>,
    state2id: Vec<TransitionId>,
    id2state: Vec<u32>,
    id2pdf: Vec<PdfId>,
    log_probs: Vec<u32>,
    non_self_loop_log_probs: Vec<u32>,
    num_pdfs: usize,
}

/// What a transition model is.
#[verifier::ext_equal]
pub struct ModelView {
    /// The topology.
    pub topo: Seq<EntryView>,
    /// The tuples, increasing.
    pub tuples: Seq<Tuple>,
    /// The log probability of each transition id; place 0 is unused.
    pub log_probs: Seq<u32>,
    /// The log probability of not looping, for each transition state; place 0 is unused.
    pub leaving: Seq<u32>,
}

impl ModelView {
    /// `t` is a transition id of the model.
    pub open spec fn has_id(self, t: int) -> bool {
        1 <= t <= id_count(self.topo, self.tuples)
    }

    /// `s` is a transition state of the model.
    pub open spec fn has_state(self, s: int) -> bool {
        1 <= s <= self.tuples.len()
    }

    pub open spec fn owner(self, t: int) -> int {
        owner(self.topo, self.tuples, t)
    }

    pub open spec fn tuple_of(self, t: int) -> Tuple {
        tuple_of(self.topo, self.tuples, t)
    }

    pub open spec fn loops(self, t: int) -> bool {
        loops(self.topo, self.tuples, t)
    }

    pub open spec fn leaves(self, t: int) -> bool {
        leaves(self.topo, self.tuples, t)
    }

    pub open spec fn loop_of(self, s: int) -> Option<TransitionId> {
        loop_of(self.topo, self.tuples, s)
    }

    pub open spec fn first_id(self, s: int) -> int {
        first_id(self.topo, self.tuples, s)
    }
}

impl TransitionModel {
    /// What the model is.
    pub closed spec fn view(&self) -> ModelView {
        ModelView {
            topo: self.topo@,
            tuples: self.tuples@,
            log_probs: self.log_probs@,
            leaving: self.non_self_loop_log_probs@,
        }
    }

    /// The tables agree with the tuples, which are increasing and name states of the topology.
    pub closed spec fn wf(&self) -> bool {
        let topo = self.topo@;
        let tuples = self.tuples@;
        let n = id_count(topo, tuples);
        &&& increasing(tuples)
        &&& forall|i: int| 0 <= i < tuples.len() ==> is_placed(topo, #[trigger] tuples[i])
        &&& tuples.len() + 1 < u32::MAX
        &&& n < u32::MAX
        &&& self.state2id@.len() == tuples.len() + 2
        &&& forall|s: int|
            1 <= s < self.state2id@.len() ==> #[trigger] self.state2id@[s] == first_id(topo, tuples, s)
        &&& self.id2state@.len() == n + 1
        &&& forall|t: int|
            1 <= t < self.id2state@.len() ==> owns(topo, tuples, #[trigger] self.id2state@[t] as int, t)
        &&& self.id2pdf@.len() == n + 1
        &&& forall|t: int|
            1 <= t < self.id2pdf@.len() ==> #[trigger] self.id2pdf@[t] == pdf_of(topo, tuples, t)
        &&& self.log_probs@.len() == n + 1
        &&& self.non_self_loop_log_probs@.len() == tuples.len() + 1
        &&& self.num_pdfs == pdfs_of(tuples)
    }

    /// What every well-formed model meets.
    pub proof fn facts(&self)
        requires
            self.wf(),
        ensures
            increasing(self@.tuples),
            forall|i: int|
                0 <= i < self@.tuples.len() ==> is_placed(self@.topo, #[trigger] self@.tuples[i]),
            self@.tuples.len() + 1 < u32::MAX,
            id_count(self@.topo, self@.tuples) < u32::MAX,
            self@.log_probs.len() == id_count(self@.topo, self@.tuples) + 1,
            self@.leaving.len() == self@.tuples.len() + 1,
    {
    }

    /// The topology.
    pub fn topology(&self) -> (r: &HmmTopology)
        ensures
            r@ == self@.topo,
    {
        &self.topo
    }

    /// The tuples, increasing.
    pub fn tuples(&self) -> (r: &[Tuple])
        ensures
            r@ == self@.tuples,
    {
        self.tuples.as_slice()
    }

    pub fn num_transition_ids(&self) -> (r: usize)
        requires
            self.wf(),
        ensures
            r == id_count(self@.topo, self@.tuples),
    {
        proof {
            first_id_grows(self.topo@, self.tuples@, 1, self.tuples@.len() as int + 1);
        }
        self.id2state.len() - 1
    }

    pub fn num_transition_states(&self) -> (r: usize)
        ensures
            r == self@.tuples.len(),
    {
        self.tuples.len()
    }

    /// One more than the largest pdf of the tuples.
    pub fn num_pdfs(&self) -> (r: usize)
        requires
            self.wf(),
        ensures
            r == pdfs_of(self@.tuples),
    {
        self.num_pdfs
    }

    /// How many transitions a transition state has.
    pub fn num_transition_indices(&self, trans_state: u32) -> (r: usize)
        requires
            self.wf(),
            self@.has_state(trans_state as int),
        ensures
            r == self@.first_id(trans_state + 1) - self@.first_id(trans_state as int),
            r == hmm_state_of(self@.topo, self@.tuples[trans_state - 1]).transitions.len(),
    {
        proof {
            first_id_grows(self.topo@, self.tuples@, trans_state as int, trans_state + 1);
        }
        (self.state2id[trans_state as usize + 1] - self.state2id[trans_state as usize]) as usize
    }

    /// The transition state that a transition id belongs to.
    pub fn transition_id_to_transition_state(&self, t: TransitionId) -> (r: u32)
        requires
            self.wf(),
            self@.has_id(t as int),
        ensures
            r == self@.owner(t as int),
            owns(self@.topo, self@.tuples, r as int, t as int),
    {
        let s: u32 = self.id2state[t as usize];
        proof {
            assert(owns(self.topo@, self.tuples@, self.id2state@[t as int] as int, t as int));
            owner_is_unique(self.topo@, self.tuples@, s as int, t as int);
        }
        s
    }

    /// Which of its state's transitions a transition id is.
    pub fn transition_id_to_transition_index(&self, t: TransitionId) -> (r: usize)
        requires
            self.wf(),
            self@.has_id(t as int),
        ensures
            r == index_of(self@.topo, self@.tuples, t as int),
            r < hmm_state_of(self@.topo, self@.tuple_of(t as int)).transitions.len(),
    {
        let s: u32 = self.transition_id_to_transition_state(t);
        (t - self.state2id[s as usize]) as usize
    }

    /// The pdf that a frame on `t` is scored with.
    pub fn transition_id_to_pdf(&self, t: TransitionId) -> (r: PdfId)
        requires
            self.wf(),
            self@.has_id(t as int),
        ensures
            r == pdf_of(self@.topo, self@.tuples, t as int),
    {
        self.id2pdf[t as usize]
    }

    pub fn transition_id_to_phone(&self, t: TransitionId) -> (r: PhoneId)
        requires
            self.wf(),
            self@.has_id(t as int),
        ensures
            r == self@.tuple_of(t as int).phone,
    {
        let s: u32 = self.transition_id_to_transition_state(t);
        self.tuples[s as usize - 1].phone
    }

    pub fn transition_id_to_hmm_state(&self, t: TransitionId) -> (r: usize)
        requires
            self.wf(),
            self@.has_id(t as int),
        ensures
            r == self@.tuple_of(t as int).hmm_state,
    {
        let s: u32 = self.transition_id_to_transition_state(t);
        self.tuples[s as usize - 1].hmm_state
    }

    pub fn transition_state_to_phone(&self, trans_state: u32) -> (r: PhoneId)
        requires
            self@.has_state(trans_state as int),
        ensures
            r == self@.tuples[trans_state - 1].phone,
    {
        self.tuples[trans_state as usize - 1].phone
    }

    pub fn transition_state_to_hmm_state(&self, trans_state: u32) -> (r: usize)
        requires
            self@.has_state(trans_state as int),
        ensures
            r == self@.tuples[trans_state - 1].hmm_state,
    {
        self.tuples[trans_state as usize - 1].hmm_state
    }

    pub fn transition_state_to_forward_pdf(&self, trans_state: u32) -> (r: PdfId)
        requires
            self@.has_state(trans_state as int),
        ensures
            r == self@.tuples[trans_state - 1].forward_pdf,
    {
        self.tuples[trans_state as usize - 1].forward_pdf
    }

    pub fn transition_state_to_self_loop_pdf(&self, trans_state: u32) -> (r: PdfId)
        requires
            self@.has_state(trans_state as int),
        ensures
            r == self@.tuples[trans_state - 1].self_loop_pdf,
    {
        self.tuples[trans_state as usize - 1].self_loop_pdf
    }

    /// The pdf-class of the forward transitions of a transition state.
    pub fn transition_state_to_forward_pdf_class(&self, trans_state: u32) -> (r: i32)
        requires
            self.wf(),
            self@.has_state(trans_state as int),
        ensures
            r == hmm_state_of(self@.topo, self@.tuples[trans_state - 1]).pdf_class,
    {
        let t = self.tuples[trans_state as usize - 1];
        assert(is_placed(self.topo@, self.tuples@[trans_state - 1]));
        let states = self.topo.topology_for_phone(t.phone);
        assert(states@[t.hmm_state as int]@ == hmm_state_of(self.topo@, t));
        states[t.hmm_state].pdf_class
    }

    /// The pdf-class of the self-loop of a transition state, the same as the forward one.
    pub fn transition_state_to_self_loop_pdf_class(&self, trans_state: u32) -> (r: i32)
        requires
            self.wf(),
            self@.has_state(trans_state as int),
        ensures
            r == hmm_state_of(self@.topo, self@.tuples[trans_state - 1]).pdf_class,
    {
        self.transition_state_to_forward_pdf_class(trans_state)
    }

    /// Whether `t` leads back to the state that it leaves.
    pub fn is_self_loop(&self, t: TransitionId) -> (r: bool)
        requires
            self.wf(),
            self@.has_id(t as int),
        ensures
            r == self@.loops(t as int),
    {
        let s: u32 = self.transition_id_to_transition_state(t);
        let index: usize = (t - self.state2id[s as usize]) as usize;
        let tuple = self.tuples[s as usize - 1];
        assert(is_placed(self.topo@, self.tuples@[s - 1]));
        let states = self.topo.topology_for_phone(tuple.phone);
        assert(states@[tuple.hmm_state as int]@ == hmm_state_of(self.topo@, tuple));
        states[tuple.hmm_state].transitions[index].0 == tuple.hmm_state
    }

    /// Whether `t` leads to the final state of its phone.
    pub fn is_final(&self, t: TransitionId) -> (r: bool)
        requires
            self.wf(),
            self@.has_id(t as int),
        ensures
            r == self@.leaves(t as int),
    {
        let s: u32 = self.transition_id_to_transition_state(t);
        let index: usize = (t - self.state2id[s as usize]) as usize;
        let tuple = self.tuples[s as usize - 1];
        assert(is_placed(self.topo@, self.tuples@[s - 1]));
        let states = self.topo.topology_for_phone(tuple.phone);
        assert(states@[tuple.hmm_state as int]@ == hmm_state_of(self.topo@, tuple));
        states[tuple.hmm_state].transitions[index].0 == states.len() - 1
    }

    /// The self-loop transition id of a transition state, if it has one.
    pub fn self_loop_of(&self, trans_state: u32) -> (r: Option<TransitionId>)
        requires
            self.wf(),
            self@.has_state(trans_state as int),
        ensures
            r == self@.loop_of(trans_state as int),
            r matches Some(t) ==> owns(self@.topo, self@.tuples, trans_state as int, t as int)
                && self@.has_id(t as int),
    {
        let tuple = self.tuples[trans_state as usize - 1];
        assert(is_placed(self.topo@, self.tuples@[trans_state - 1]));
        let states = self.topo.topology_for_phone(tuple.phone);
        let ghost st = hmm_state_of(self.topo@, tuple);
        assert(states@[tuple.hmm_state as int]@ == st);
        match states[tuple.hmm_state].self_loop_index(tuple.hmm_state) {
            Some(i) => {
                proof {
                    first_loop_is(st, tuple.hmm_state as int, i as int);
                    first_id_grows(self.topo@, self.tuples@, trans_state as int, trans_state + 1);
                    first_id_grows(
                        self.topo@,
                        self.tuples@,
                        trans_state + 1,
                        self.tuples@.len() as int + 1,
                    );
                    first_id_grows(self.topo@, self.tuples@, 1, trans_state as int);
                }
                Some(self.state2id[trans_state as usize] + i as u32)
            },
            None => None,
        }
    }

    pub fn get_transition_log_prob(&self, t: TransitionId) -> (r: u32)
        requires
            self.wf(),
            self@.has_id(t as int),
        ensures
            r == self@.log_probs[t as int],
    {
        self.log_probs[t as usize]
    }

    pub fn get_transition_prob<F: Fn(FloatOp) -> u64>(&self, t: TransitionId, f: &F) -> (r: u32)
        requires
            is_evaluator(*f),
            self.wf(),
            self@.has_id(t as int),
        ensures
            r == value(*f, FloatOp::Exp(self@.log_probs[t as int])),
    {
        eval(f, FloatOp::Exp(self.log_probs[t as usize]))
    }

    /// The log probability of not looping.
    pub fn get_non_self_loop_log_prob(&self, trans_state: u32) -> (r: u32)
        requires
            self.wf(),
            self@.has_state(trans_state as int),
        ensures
            r == self@.leaving[trans_state as int],
    {
        self.non_self_loop_log_probs[trans_state as usize]
    }

    /// The log probability of `t` among the transitions of its state that do not loop.
    pub fn get_transition_log_prob_ignoring_self_loops<F: Fn(FloatOp) -> u64>(
        &self,
        t: TransitionId,
        f: &F,
    ) -> (r: u32)
        requires
            is_evaluator(*f),
            self.wf(),
            self@.has_id(t as int),
        ensures
            r == value(
                *f,
                FloatOp::Sub(self@.log_probs[t as int], self@.leaving[self@.owner(t as int)]),
            ),
    {
        let s: u32 = self.transition_id_to_transition_state(t);
        eval(f, FloatOp::Sub(self.log_probs[t as usize], self.get_non_self_loop_log_prob(s)))
    }

    /// The transition id of a transition of a transition state.
    pub fn pair_to_transition_id(&self, trans_state: u32, trans_index: u32) -> (r: TransitionId)
        requires
            self.wf(),
            self@.has_state(trans_state as int),
            trans_index < hmm_state_of(
                self@.topo,
                self@.tuples[trans_state - 1],
            ).transitions.len(),
        ensures
            r == self@.first_id(trans_state as int) + trans_index,
            owns(self@.topo, self@.tuples, trans_state as int, r as int),
            self@.has_id(r as int),
    {
        proof {
            first_id_grows(
                self.topo@,
                self.tuples@,
                trans_state + 1,
                self.tuples@.len() as int + 1,
            );
            first_id_grows(self.topo@, self.tuples@, 1, trans_state as int);
        }
        self.state2id[trans_state as usize] + trans_index
    }

    /// The transition state of a tuple, if the model has it.
    pub fn try_tuple_to_transition_state(
        &self,
        phone: PhoneId,
        hmm_state: usize,
        fwd_pdf: PdfId,
        self_pdf: PdfId,
    ) -> (r: Option<u32>)
        requires
            self.wf(),
        ensures
            r is Some == self@.tuples.contains(
                (Tuple { phone, hmm_state, forward_pdf: fwd_pdf, self_loop_pdf: self_pdf }),
            ),
            r matches Some(s) ==> self@.has_state(s as int) && self@.tuples[s - 1] == (Tuple {
                phone,
                hmm_state,
                forward_pdf: fwd_pdf,
                self_loop_pdf: self_pdf,
            }),
    {
        let key = Tuple { phone, hmm_state, forward_pdf: fwd_pdf, self_loop_pdf: self_pdf };
        match search(&self.tuples, &key) {
            Some(i) => Some(i as u32 + 1),
            None => None,
        }
    }

    /// The transition state of a tuple that the model has.
    pub fn tuple_to_transition_state(
        &self,
        phone: PhoneId,
        hmm_state: usize,
        fwd_pdf: PdfId,
        self_pdf: PdfId,
    ) -> (r: u32)
        requires
            self.wf(),
            self@.tuples.contains(
                (Tuple { phone, hmm_state, forward_pdf: fwd_pdf, self_loop_pdf: self_pdf }),
            ),
        ensures
            self@.has_state(r as int),
            self@.tuples[r - 1] == (Tuple {
                phone,
                hmm_state,
                forward_pdf: fwd_pdf,
                self_loop_pdf: self_pdf,
            }),
    {
        self.try_tuple_to_transition_state(phone, hmm_state, fwd_pdf, self_pdf).unwrap()
    }

    /// Every pdf that a state of one of the phones can have, sorted and unique.
    pub fn silence_pdfs(&self, silence_phones: &[PhoneId]) -> (r: Vec<PdfId>)
        ensures
            increasing(r@),
            forall|p: PdfId| #[trigger]
                r@.contains(p) == exists|i: int|
                    0 <= i < self@.tuples.len() && silence_phones@.contains(
                        (#[trigger] self@.tuples[i]).phone,
                    ) && (self@.tuples[i].forward_pdf == p || self@.tuples[i].self_loop_pdf == p),
    {
        let mut out: Vec<PdfId> = Vec::new();
        let mut i: usize = 0;
        while i < self.tuples.len()
            invariant
                i <= self.tuples@.len(),
                self@.tuples == self.tuples@,
                increasing(out@),
                forall|p: PdfId| #[trigger]
                    out@.contains(p) == exists|k: int|
                        0 <= k < i && silence_phones@.contains(
                            (#[trigger] self@.tuples[k]).phone,
                        ) && (self@.tuples[k].forward_pdf == p || self@.tuples[k].self_loop_pdf == p),
            decreases self.tuples.len() - i,
        {
            let t = self.tuples[i];
            assert(self@.tuples[i as int] == t);
            let mut listed: bool = false;
            let mut k: usize = 0;
            while k < silence_phones.len()
                invariant
                    k <= silence_phones@.len(),
                    listed == exists|j: int| 0 <= j < k && silence_phones@[j] == t.phone,
                decreases silence_phones.len() - k,
            {
                if silence_phones[k] == t.phone {
                    assert(silence_phones@[k as int] == t.phone);
                    listed = true;
                }
                k += 1;
            }
            let ghost before = out@;
            if listed {
                insert(&mut out, t.forward_pdf);
                insert(&mut out, t.self_loop_pdf);
            }
            proof {
                assert(listed == silence_phones@.contains(t.phone));
                assert forall|p: PdfId| #[trigger]
                    out@.contains(p) == exists|k: int|
                        0 <= k < i + 1 && silence_phones@.contains(
                            (#[trigger] self@.tuples[k]).phone,
                        ) && (self@.tuples[k].forward_pdf == p || self@.tuples[k].self_loop_pdf
                            == p) by {
                    assert(before.contains(p) == exists|k: int|
                        0 <= k < i && silence_phones@.contains(
                            (#[trigger] self@.tuples[k]).phone,
                        ) && (self@.tuples[k].forward_pdf == p || self@.tuples[k].self_loop_pdf
                            == p));
                    if listed && (t.forward_pdf == p || t.self_loop_pdf == p) {
                        assert(self@.tuples[i as int].phone == t.phone);
                    }
                }
            }
            i += 1;
        }
        out
    }
}

proof fn first_loop_is(st: StateView, index: int, i: int)
    requires
        0 <= i < st.transitions.len(),
        st.transitions[i].0 == index,
        forall|j: int| 0 <= j < i ==> (#[trigger] st.transitions[j]).0 != index,
    ensures
        first_loop(st, index) == i,
        st.loops_at(index),
{
    let k = first_loop(st, index);
    assert(st.transitions[i].0 == index);
    assert(0 <= k < st.transitions.len() && st.transitions[k].0 == index);
    if k < i {
        assert(st.transitions[k].0 != index);
    } else if i < k {
        assert(st.transitions[i].0 != index);
    }
}

/// The transition id of a state and an index leads back to both.
pub proof fn pairs_and_ids_agree(m: ModelView, s: int, i: int)
    requires
        m.has_state(s),
        0 <= i < hmm_state_of(m.topo, m.tuples[s - 1]).transitions.len(),
    ensures
        m.has_id(m.first_id(s) + i),
        m.owner(m.first_id(s) + i) == s,
        index_of(m.topo, m.tuples, m.first_id(s) + i) == i,
{
    first_id_grows(m.topo, m.tuples, s + 1, m.tuples.len() as int + 1);
    first_id_grows(m.topo, m.tuples, 1, s);
    owner_is_unique(m.topo, m.tuples, s, m.first_id(s) + i);
}

/// A transition id is that of its own transition state and index.
pub proof fn ids_and_pairs_agree(m: ModelView, t: int)
    requires
        m.has_id(t),
    ensures
        m.has_state(m.owner(t)),
        m.first_id(m.owner(t)) + index_of(m.topo, m.tuples, t) == t,
        0 <= index_of(m.topo, m.tuples, t) < hmm_state_of(m.topo, m.tuple_of(t)).transitions.len(),
{
    every_id_is_owned(m.topo, m.tuples, t);
}

/// The transition state of a tuple.
pub open spec fn state_number(m: ModelView, t: Tuple) -> int {
    m.tuples.index_of(t) + 1
}

/// A tuple stands at one place only.
pub proof fn tuple_place(m: ModelView, s: int)
    requires
        increasing(m.tuples),
        m.has_state(s),
    ensures
        state_number(m, m.tuples[s - 1]) == s,
{
    let t = m.tuples[s - 1];
    let i = m.tuples.index_of(t);
    assert(m.tuples.contains(t));
    assert(0 <= i < m.tuples.len() && m.tuples[i] == t);
    Tuple::trichotomy(t, t);
    if i < s - 1 {
        assert(m.tuples[i].before(m.tuples[s - 1]));
    } else if s - 1 < i {
        assert(m.tuples[s - 1].before(m.tuples[i]));
    }
}

/// The self-loop of a transition state belongs to it and loops.
pub proof fn self_loops_loop(m: ModelView, s: int)
    requires
        m.has_state(s),
        id_count(m.topo, m.tuples) < u32::MAX,
    ensures
        m.loop_of(s) matches Some(t) ==> m.has_id(t as int) && m.owner(t as int) == s && m.loops(
            t as int,
        ),
{
    let tuple = m.tuples[s - 1];
    let st = hmm_state_of(m.topo, tuple);
    if st.loops_at(tuple.hmm_state as int) {
        let i = least_loop(st, tuple.hmm_state as int, 0);
        first_loop_is(st, tuple.hmm_state as int, i);
        pairs_and_ids_agree(m, s, i);
    }
}

proof fn least_loop(st: StateView, index: int, from: int) -> (i: int)
    requires
        0 <= from <= st.transitions.len(),
        st.loops_at(index),
        forall|j: int| 0 <= j < from ==> (#[trigger] st.transitions[j]).0 != index,
    ensures
        0 <= i < st.transitions.len(),
        st.transitions[i].0 == index,
        forall|j: int| 0 <= j < i ==> (#[trigger] st.transitions[j]).0 != index,
    decreases st.transitions.len() - from,
{
    if from < st.transitions.len() && st.transitions[from].0 == index {
        from
    } else {
        assert(from < st.transitions.len());
        least_loop(st, index, from + 1)
    }
}

/// The tuples of a transition model over this tree and topology: all that belong, increasing.
pub open spec fn model_tuples(p: usize, t: Tree, topo: Seq<EntryView>) -> Seq<Tuple> {
    choose|s: Seq<Tuple>|
        #![trigger increasing(s)]
        increasing(s) && forall|x: Tuple| s.contains(x) == belongs(p, t, topo, x)
}

proof fn pdfs_of_prefix(tuples: Seq<Tuple>, k: int)
    requires
        0 <= k <= tuples.len(),
    ensures
        0 <= pdfs_of(tuples.take(k)) <= pdfs_of(tuples),
    decreases tuples.len(),
{
    if k == tuples.len() {
        assert(tuples.take(k) == tuples);
        if k > 0 {
            pdfs_of_prefix(tuples.drop_last(), 0);
            assert(tuples.drop_last().take(0) == Seq::<Tuple>::empty());
        }
    } else {
        pdfs_of_prefix(tuples.drop_last(), k);
        assert(tuples.drop_last().take(k) == tuples.take(k));
    }
}

/// The tables that are derived from the tuples.
struct Derived {
    state2id: Vec<TransitionId>,
    id2state: Vec<u32>,
    id2pdf: Vec<PdfId>,
    num_pdfs: usize,
}

/// Number the transitions of the tuples.
fn derive_tables(topo: &HmmTopology, tuples: &Vec<Tuple>) -> (r: Derived)
    requires
        forall|i: int| 0 <= i < tuples@.len() ==> is_placed(topo@, #[trigger] tuples@[i]),
        tuples@.len() + 1 < u32::MAX,
        id_count(topo@, tuples@) < u32::MAX,
        pdfs_of(tuples@) <= usize::MAX,
    ensures
        r.state2id@.len() == tuples@.len() + 2,
        forall|s: int|
            1 <= s < r.state2id@.len() ==> #[trigger] r.state2id@[s] == first_id(topo@, tuples@, s),
        r.id2state@.len() == id_count(topo@, tuples@) + 1,
        forall|t: int|
            1 <= t < r.id2state@.len() ==> owns(topo@, tuples@, #[trigger] r.id2state@[t] as int, t),
        r.id2pdf@.len() == id_count(topo@, tuples@) + 1,
        forall|t: int|
            1 <= t < r.id2pdf@.len() ==> #[trigger] r.id2pdf@[t] == pdf_of(topo@, tuples@, t),
        r.num_pdfs == pdfs_of(tuples@),
{
    let ghost ts = tuples@;
    let ghost tp = topo@;
    let mut state2id: Vec<TransitionId> = Vec::new();
    let mut id2state: Vec<u32> = Vec::new();
    let mut id2pdf: Vec<PdfId> = Vec::new();
    let mut num_pdfs: usize = 0;
    state2id.push(0);
    id2state.push(0);
    id2pdf.push(0);
    let mut i: usize = 0;
    while i < tuples.len()
        invariant
            i <= tuples@.len(),
            ts == tuples@,
            tp == topo@,
            forall|k: int| 0 <= k < ts.len() ==> is_placed(tp, #[trigger] ts[k]),
            ts.len() + 1 < u32::MAX,
            id_count(tp, ts) < u32::MAX,
            pdfs_of(ts) <= usize::MAX,
            state2id@.len() == i + 1,
            forall|s: int| 1 <= s <= i ==> #[trigger] state2id@[s] == first_id(tp, ts, s),
            id2state@.len() == first_id(tp, ts, i + 1),
            id2pdf@.len() == first_id(tp, ts, i + 1),
            forall|t: int|
                1 <= t < id2state@.len() ==> owns(tp, ts, #[trigger] id2state@[t] as int, t),
            forall|t: int| 1 <= t < id2pdf@.len() ==> #[trigger] id2pdf@[t] == pdf_of(tp, ts, t),
            num_pdfs == pdfs_of(ts.take(i as int)),
        decreases tuples.len() - i,
    {
        let t = tuples[i];
        proof {
            assert(is_placed(tp, ts[i as int]));
            first_id_grows(tp, ts, i + 2, ts.len() as int + 1);
            first_id_grows(tp, ts, 1, i + 1);
            pdfs_of_prefix(ts, i + 1);
            assert(ts.take(i + 1).drop_last() == ts.take(i as int));
        }
        state2id.push(id2state.len() as u32);
        if t.forward_pdf as usize >= num_pdfs {
            num_pdfs = t.forward_pdf as usize + 1;
        }
        if t.self_loop_pdf as usize >= num_pdfs {
            num_pdfs = t.self_loop_pdf as usize + 1;
        }
        let states = topo.topology_for_phone(t.phone);
        let ghost st = hmm_state_of(tp, t);
        assert(states@[t.hmm_state as int]@ == st);
        let transitions = &states[t.hmm_state].transitions;
        let mut k: usize = 0;
        while k < transitions.len()
            invariant
                k <= transitions@.len(),
                i < ts.len(),
                t == ts[i as int],
                ts.len() + 1 < u32::MAX,
                st == hmm_state_of(tp, t),
                st.transitions == transitions@,
                id2state@.len() == first_id(tp, ts, i + 1) + k,
                id2pdf@.len() == first_id(tp, ts, i + 1) + k,
                first_id(tp, ts, i + 1) >= 1,
                first_id(tp, ts, i + 2) == first_id(tp, ts, i + 1) + transitions@.len(),
                forall|q: int|
                    1 <= q < id2state@.len() ==> owns(tp, ts, #[trigger] id2state@[q] as int, q),
                forall|q: int| 1 <= q < id2pdf@.len() ==> #[trigger] id2pdf@[q] == pdf_of(tp, ts, q),
            decreases transitions.len() - k,
        {
            let ghost q = id2state@.len() as int;
            proof {
                assert(owns(tp, ts, i + 1, q));
                owner_is_unique(tp, ts, i + 1, q);
                assert(transition_of(tp, ts, q) == transitions@[k as int]);
            }
            let pdf: PdfId = if transitions[k].0 == t.hmm_state {
                t.self_loop_pdf
            } else {
                t.forward_pdf
            };
            id2state.push(i as u32 + 1);
            id2pdf.push(pdf);
            k += 1;
        }
        i += 1;
    }
    proof {
        assert(ts.take(i as int) == ts);
    }
    state2id.push(id2state.len() as u32);
    Derived { state2id, id2state, id2pdf, num_pdfs }
}

/// All tuples that belong to a transition model over the tree and the topology, increasing.
fn gather_tuples(ctx: &ContextDependency, topo: &HmmTopology) -> (r: Vec<Tuple>)
    requires
        pdf_count(ctx.map.tree()) <= usize::MAX,
    ensures
        r@ == model_tuples(ctx.p, ctx.map.tree(), topo@),
        increasing(r@),
        forall|t: Tuple| #[trigger] r@.contains(t) == belongs(ctx.p, ctx.map.tree(), topo@, t),
{
    let ghost tp = topo@;
    let ghost tree = ctx.map.tree();
    let phones = topo.phones();
    let mut counts: Vec<usize> = Vec::new();
    let mut a: usize = 0;
    while a < phones.len()
        invariant
            a <= phones@.len(),
            tp == topo@,
            forall|p: PhoneId| #[trigger] phones@.contains(p) == covers(tp, p),
            counts@.len() == a,
            forall|k: int|
                0 <= k < a ==> #[trigger] counts@[k] == classes_of(tp, phones@[k]),
        decreases phones.len() - a,
    {
        assert(phones@.contains(phones@[a as int]));
        counts.push(topo.num_pdf_classes(phones[a]));
        a += 1;
    }
    let info = ctx.pdf_info(phones.as_slice(), &counts);
    let mut tuples: Vec<Tuple> = Vec::new();
    let mut pdf: usize = 0;
    while pdf < info.len()
        invariant
            pdf <= info@.len(),
            tp == topo@,
            tree == ctx.map.tree(),
            info@.len() == pdf_count(tree),
            info@.len() <= u32::MAX + 1,
            forall|p: PhoneId| #[trigger] phones@.contains(p) == covers(tp, p),
            counts@.len() == phones@.len(),
            forall|k: int|
                0 <= k < phones@.len() ==> #[trigger] counts@[k] == classes_of(tp, phones@[k]),
            forall|q: int|
                0 <= q < info@.len() ==> increasing(as_pairs((#[trigger] info@[q])@)) && forall|
                    pair: PhoneClass,
                |
                    #[trigger] as_pairs(info@[q]@).contains(pair) == offers(
                        tree,
                        ctx.p,
                        phones@,
                        counts@,
                        phones@.len() as int,
                        q,
                        pair,
                    ),
            increasing(tuples@),
            forall|t: Tuple| #[trigger] tuples@.contains(t) ==> belongs(ctx.p, ctx.map.tree(), tp, t),
            forall|t: Tuple|
                belongs(ctx.p, ctx.map.tree(), tp, t) && t.forward_pdf < pdf ==> #[trigger] tuples@.contains(t),
        decreases info.len() - pdf,
    {
        let pairs = &info[pdf];
        let ghost before = tuples@;
        let mut j: usize = 0;
        while j < pairs.len()
            invariant
                j <= pairs@.len(),
                pdf < info@.len(),
                pairs@ == info@[pdf as int]@,
                tp == topo@,
                tree == ctx.map.tree(),
                info@.len() <= u32::MAX + 1,
                forall|p: PhoneId| #[trigger] phones@.contains(p) == covers(tp, p),
                counts@.len() == phones@.len(),
                forall|k: int|
                    0 <= k < phones@.len() ==> #[trigger] counts@[k] == classes_of(tp, phones@[k]),
                forall|pair: PhoneClass|
                    #[trigger] as_pairs(pairs@).contains(pair) == offers(
                        tree,
                        ctx.p,
                        phones@,
                        counts@,
                        phones@.len() as int,
                        pdf as int,
                        pair,
                    ),
                increasing(tuples@),
                forall|t: Tuple| #[trigger] tuples@.contains(t) ==> belongs(ctx.p, ctx.map.tree(), tp, t),
                forall|t: Tuple| #[trigger] before.contains(t) ==> tuples@.contains(t),
                forall|t: Tuple, k: int|
                    #![trigger tuples@.contains(t), pairs@[k]]
                    belongs(ctx.p, ctx.map.tree(), tp, t) && t.forward_pdf == pdf && 0 <= k < j && pairs@[k].0
                        == t.phone && pairs@[k].1 == hmm_state_of(tp, t).pdf_class
                        ==> tuples@.contains(t),
            decreases pairs.len() - j,
        {
            let phone: PhoneId = pairs[j].0;
            let class: i32 = pairs[j].1;
            let ghost pair = PhoneClass { phone, class };
            proof {
                assert(as_pairs(pairs@)[j as int] == pair);
                assert(as_pairs(pairs@).contains(pair));
                let k = choose|k: int|
                    0 <= k < phones@.len() && (#[trigger] phones@[k]) == pair.phone && 0
                        <= pair.class < counts@[k] as i32 && answers(
                        tree,
                        central_event(ctx.p, pair.phone, pair.class),
                    ).contains(pdf as u32);
                assert(phones@.contains(phone));
                assert(counts@[k] == classes_of(tp, phone));
            }
            let states = topo.topology_for_phone(phone);
            let ghost start = tuples@;
            let mut s: usize = 0;
            while s < states.len()
                invariant
                    s <= states@.len(),
                    tp == topo@,
                    tree == ctx.map.tree(),
                    covers(tp, phone),
                    0 <= class < (classes_of(tp, phone) as usize) as i32,
                    answers(tree, central_event(ctx.p, phone, class)).contains(pdf as u32),
                    state_views(states@) == states_of(tp, phone),
                    increasing(tuples@),
                    forall|t: Tuple| #[trigger] tuples@.contains(t) ==> belongs(ctx.p, ctx.map.tree(), tp, t),
                    forall|t: Tuple| #[trigger] start.contains(t) ==> tuples@.contains(t),
                    forall|t: Tuple|
                        belongs(ctx.p, ctx.map.tree(), tp, t) && t.forward_pdf == pdf as u32 && t.phone == phone
                            && t.hmm_state < s && hmm_state_of(tp, t).pdf_class == class
                            ==> #[trigger] tuples@.contains(t),
                decreases states.len() - s,
            {
                assert(states@[s as int]@ == states_of(tp, phone)[s as int]);
                if states[s].is_emitting() && states[s].pdf_class == class {
                    let t = Tuple {
                        phone,
                        hmm_state: s,
                        forward_pdf: pdf as u32,
                        self_loop_pdf: pdf as u32,
                    };
                    assert(belongs(ctx.p, ctx.map.tree(), tp, t));
                    insert(&mut tuples, t);
                }
                s += 1;
            }
            proof {
                assert forall|t: Tuple, k: int|
                    #![trigger tuples@.contains(t), pairs@[k]]
                    belongs(ctx.p, ctx.map.tree(), tp, t) && t.forward_pdf == pdf && 0 <= k < j + 1 && pairs@[k].0
                        == t.phone && pairs@[k].1 == hmm_state_of(tp, t).pdf_class implies tuples@.contains(
                t) by {
                    if k < j {
                        assert(start.contains(t));
                    }
                }
            }
            j += 1;
        }
        proof {
            assert forall|t: Tuple|
                belongs(ctx.p, ctx.map.tree(), tp, t) && t.forward_pdf < pdf + 1 implies #[trigger] tuples@.contains(
                t,
            ) by {
                if t.forward_pdf == pdf {
                    let pair = PhoneClass { phone: t.phone, class: hmm_state_of(tp, t).pdf_class };
                    assert(phones@.contains(t.phone));
                    let k = choose|k: int| 0 <= k < phones@.len() && phones@[k] == t.phone;
                    assert(counts@[k] == classes_of(tp, t.phone));
                    assert(offers(
                        tree,
                        ctx.p,
                        phones@,
                        counts@,
                        phones@.len() as int,
                        pdf as int,
                        pair,
                    ));
                    assert(as_pairs(pairs@).contains(pair));
                    let m = choose|m: int| 0 <= m < pairs@.len() && as_pairs(pairs@)[m] == pair;
                    assert(pairs@[m].0 == t.phone);
                } else {
                    assert(before.contains(t));
                }
            }
        }
        pdf += 1;
    }
    proof {
        assert forall|t: Tuple| #[trigger] tuples@.contains(t) == belongs(ctx.p, ctx.map.tree(), tp, t) by {
            if belongs(ctx.p, ctx.map.tree(), tp, t) {
                answers_are_bounded(
                    tree,
                    central_event(ctx.p, t.phone, hmm_state_of(tp, t).pdf_class),
                    t.forward_pdf,
                );
                assert(tuples@.contains(t));
            }
        }
        let named = model_tuples(ctx.p, ctx.map.tree(), tp);
        assert(increasing(tuples@) && forall|t: Tuple|
            tuples@.contains(t) == belongs(ctx.p, ctx.map.tree(), tp, t));
        assert(increasing(named) && forall|t: Tuple| named.contains(t) == belongs(ctx.p, ctx.map.tree(), tp, t));
        crate::order::increasing_is_unique(tuples@, named);
    }
    tuples
}

/// Why foreign probabilities do not fit a model.
#[derive(Clone, Copy, Debug)]
pub enum ProbsFault {
    /// No entry for one of the model's tuples.
    Missing { tuple: Tuple },
    /// An entry with another number of transitions than the model's.
    WrongLength { tuple: Tuple, want: usize, got: usize },
}

/// A tuple, for messages.
pub open spec fn tuple_text(t: Tuple) -> Seq<char> {
    "Tuple { phone: "@ + decimal(t.phone as nat) + ", hmm_state: "@ + decimal(t.hmm_state as nat)
        + ", forward_pdf: "@ + decimal(t.forward_pdf as nat) + ", self_loop_pdf: "@ + decimal(
        t.self_loop_pdf as nat,
    ) + " }"@
}

/// The message of a fault.
pub open spec fn probs_message(fault: ProbsFault) -> Seq<char> {
    match fault {
        ProbsFault::Missing { tuple } => "no imported probabilities for tuple "@ + tuple_text(tuple),
        ProbsFault::WrongLength { tuple, want, got } => "tuple "@ + tuple_text(tuple) + ": "@
            + decimal(want as nat) + " transitions here, "@ + decimal(got as nat) + " imported"@,
    }
}

fn append_tuple(out: &mut String, t: &Tuple)
    ensures
        final(out)@ == old(out)@ + tuple_text(*t),
{
    out.append("Tuple { phone: ");
    append_decimal(out, t.phone as u64);
    out.append(", hmm_state: ");
    append_decimal(out, t.hmm_state as u64);
    out.append(", forward_pdf: ");
    append_decimal(out, t.forward_pdf as u64);
    out.append(", self_loop_pdf: ");
    append_decimal(out, t.self_loop_pdf as u64);
    out.append(" }");
    assert(out@ =~= old(out)@ + tuple_text(*t));
}

impl ProbsFault {
    /// The message for the user.
    pub fn to_string(&self) -> (r: String)
        ensures
            r@ == probs_message(*self),
    {
        let mut out = String::new();
        match self {
            ProbsFault::Missing { tuple } => {
                out.append("no imported probabilities for tuple ");
                append_tuple(&mut out, tuple);
            },
            ProbsFault::WrongLength { tuple, want, got } => {
                out.append("tuple ");
                append_tuple(&mut out, tuple);
                out.append(": ");
                append_decimal(&mut out, *want as u64);
                out.append(" transitions here, ");
                append_decimal(&mut out, *got as u64);
                out.append(" imported");
            },
        }
        assert(out@ =~= probs_message(*self));
        out
    }
}

/// The log probabilities of the transitions of one tuple.
#[derive(Debug)]
pub struct TupleLogProbs {
    pub tuple: Tuple,
    pub log_probs: Vec<u32>,
}

impl View for TupleLogProbs {
    type V = (Tuple, Seq<u32>);

    open spec fn view(&self) -> (Tuple, Seq<u32>) {
        (self.tuple, self.log_probs@)
    }
}

/// What a list of log probabilities by tuple is.
pub open spec fn listing(foreign: Seq<TupleLogProbs>) -> Seq<(Tuple, Seq<u32>)> {
    Seq::new(foreign.len(), |i: int| foreign[i]@)
}

/// The log probabilities listed for `t`: those of the last entry for it.
pub open spec fn listed(foreign: Seq<(Tuple, Seq<u32>)>, t: Tuple) -> Option<Seq<u32>>
    decreases foreign.len(),
{
    if foreign.len() == 0 {
        None
    } else if foreign.last().0 == t {
        Some(foreign.last().1)
    } else {
        listed(foreign.drop_last(), t)
    }
}

/// The first fault from transition state `s` on.
pub open spec fn probs_fault(m: ModelView, foreign: Seq<(Tuple, Seq<u32>)>, s: int) -> Option<
    ProbsFault,
>
    decreases m.tuples.len() - s + 1,
{
    if s < 1 || s > m.tuples.len() {
        None
    } else {
        let t = m.tuples[s - 1];
        let want = hmm_state_of(m.topo, t).transitions.len();
        match listed(foreign, t) {
            None => Some(ProbsFault::Missing { tuple: t }),
            Some(probs) => if probs.len() != want {
                Some(
                    ProbsFault::WrongLength {
                        tuple: t,
                        want: want as usize,
                        got: probs.len() as usize,
                    },
                )
            } else {
                probs_fault(m, foreign, s + 1)
            },
        }
    }
}

/// The list's log probabilities in the order of the model's transition ids; place 0 holds zero.
pub open spec fn placed_probs(m: ModelView, foreign: Seq<(Tuple, Seq<u32>)>) -> Seq<u32> {
    Seq::new(
        (id_count(m.topo, m.tuples) + 1) as nat,
        |t: int|
            if t < 1 {
                ZERO
            } else {
                listed(foreign, m.tuple_of(t))->0[index_of(m.topo, m.tuples, t)]
            },
    )
}

/// The initial log probabilities: those of the topology.
pub open spec fn initial_log_probs<F: Fn(FloatOp) -> u64>(
    topo: Seq<EntryView>,
    tuples: Seq<Tuple>,
    f: F,
) -> Seq<u32> {
    Seq::new(
        (id_count(topo, tuples) + 1) as nat,
        |t: int|
            if t < 1 {
                ZERO
            } else {
                value(f, FloatOp::Ln(transition_of(topo, tuples, t).1))
            },
    )
}

fn find_listed(foreign: &Vec<TupleLogProbs>, t: Tuple) -> (r: Option<usize>)
    ensures
        r is Some == listed(listing(foreign@), t) is Some,
        r matches Some(i) ==> i < foreign@.len() && listed(listing(foreign@), t) == Some(
            foreign@[i as int].log_probs@,
        ),
{
    let mut i: usize = foreign.len();
    proof {
        assert(listing(foreign@).take(i as int) == listing(foreign@));
    }
    while i > 0
        invariant
            i <= foreign@.len(),
            listed(listing(foreign@), t) == listed(listing(foreign@).take(i as int), t),
        decreases i,
    {
        let ghost front = listing(foreign@).take(i as int);
        assert(front.last() == foreign@[i - 1]@);
        if foreign[i - 1].tuple == t {
            return Some(i - 1);
        }
        proof {
            assert(front.drop_last() == listing(foreign@).take(i - 1));
        }
        i -= 1;
    }
    None
}

/// There is a transition model over the tree and the topology: every pdf-class that the tree answers
/// for is emitted, there are transitions, all of them have positive probabilities, and states, ids
/// and pdfs can be numbered.
pub open spec fn buildable(p: usize, t: Tree, topo: Seq<EntryView>) -> bool {
    let tuples = model_tuples(p, t, topo);
    &&& pdf_count(t) <= usize::MAX
    &&& classes_emitted(p, t, topo)
    &&& tuples.len() + 1 < u32::MAX
    &&& 0 < id_count(topo, tuples) < u32::MAX
    &&& pdfs_of(tuples) <= usize::MAX
    &&& all_positive(topo, tuples)
}

/// Every transition has a positive probability.
pub open spec fn all_positive(topo: Seq<EntryView>, tuples: Seq<Tuple>) -> bool {
    forall|t: int|
        1 <= t <= id_count(topo, tuples) ==> less(ZERO, (#[trigger] transition_of(topo, tuples, t)).1)
}

/// Whether every pdf-class that the tree answers for is emitted by some state of its phone.
#[verifier::loop_isolation(false)]
fn are_classes_emitted(ctx: &ContextDependency, topo: &HmmTopology) -> (r: bool)
    ensures
        r == classes_emitted(ctx.p, ctx.map.tree(), topo@),
{
    let ghost tp = topo@;
    let phones = topo.phones();
    let mut i: usize = 0;
    while i < phones.len()
        invariant
            i <= phones@.len(),
            forall|k: int, class: int|
                0 <= k < i && 0 <= class < (classes_of(tp, phones@[k]) as usize) as i32
                    ==> #[trigger] class_is_fine(ctx.p, ctx.map.tree(), tp, phones@[k], class as i32),
        decreases phones.len() - i,
    {
        let phone: PhoneId = phones[i];
        assert(phones@.contains(phone));
        let n: i32 = topo.num_pdf_classes(phone) as i32;
        let states = topo.topology_for_phone(phone);
        let mut class: i32 = 0;
        while class < n
            invariant
                0 <= class,
                class <= n || class == 0,
                forall|c: int| 0 <= c < class ==> #[trigger] class_is_fine(ctx.p, ctx.map.tree(), tp, phone, c as i32),
            decreases n - class,
        {
            let event = central(ctx.p, phone, class);
            let mut pdfs: Vec<PdfId> = Vec::new();
            ctx.map.multi_map(event.as_slice(), &mut pdfs);
            assert(pdfs@ =~= answers(ctx.map.tree(), central_event(ctx.p, phone, class)));
            if pdfs.len() > 0 {
                let mut s: usize = 0;
                let mut found: bool = false;
                while s < states.len() && !found
                    invariant
                        s <= states@.len(),
                        found ==> exists|j: int|
                            0 <= j < states_of(tp, phone).len() && (#[trigger] states_of(
                                tp,
                                phone,
                            )[j]).pdf_class == class,
                        !found ==> forall|j: int|
                            0 <= j < s ==> (#[trigger] states_of(tp, phone)[j]).pdf_class != class,
                    decreases states.len() - s, !found as int,
                {
                    assert(states@[s as int]@ == states_of(tp, phone)[s as int]);
                    if states[s].pdf_class == class {
                        found = true;
                    } else {
                        s += 1;
                    }
                }
                if !found {
                    proof {
                        assert(!class_is_fine(ctx.p, ctx.map.tree(), tp, phone, class));
                        assert(central_event(ctx.p, phone, class) == central_event(
                            ctx.p,
                            phone,
                            class,
                        ));
                    }
                    return false;
                }
            }
            assert(class_is_fine(ctx.p, ctx.map.tree(), tp, phone, class as int as i32));
            class += 1;
        }
        i += 1;
    }
    proof {
        assert forall|phone: PhoneId, class: i32|
            #![trigger central_event(ctx.p, phone, class)]
            covers(tp, phone) && 0 <= class < (classes_of(tp, phone) as usize) as i32 && answers(
                ctx.map.tree(),
                central_event(ctx.p, phone, class),
            ).len() > 0 implies exists|s: int|
            0 <= s < states_of(tp, phone).len() && (#[trigger] states_of(tp, phone)[s]).pdf_class
                == class by {
            assert(phones@.contains(phone));
            let k = choose|k: int| 0 <= k < phones@.len() && phones@[k] == phone;
            assert(class_is_fine(ctx.p, ctx.map.tree(), tp, phones@[k], class as int as i32));
        }
    }
    true
}

/// If the tree answers for this class of the phone, some state of the phone emits it.
spec fn class_is_fine(p: usize, t: Tree, topo: Seq<EntryView>, phone: PhoneId, class: i32) -> bool {
    answers(t, central_event(p, phone, class)).len() > 0 ==> exists|s: int|
        0 <= s < states_of(topo, phone).len() && (#[trigger] states_of(topo, phone)[s]).pdf_class
            == class
}

/// Whether the transitions of the tuples can be numbered and all have positive probabilities.
#[verifier::loop_isolation(false)]
fn are_numbered(topo: &HmmTopology, tuples: &Vec<Tuple>) -> (r: bool)
    requires
        forall|i: int| 0 <= i < tuples@.len() ==> is_placed(topo@, #[trigger] tuples@[i]),
    ensures
        r == (0 < id_count(topo@, tuples@) < u32::MAX && all_positive(topo@, tuples@)),
{
    let ghost tp = topo@;
    let ghost ts = tuples@;
    let mut next: usize = 1;
    let mut s: usize = 0;
    while s < tuples.len()
        invariant
            s <= ts.len(),
            next == first_id(tp, ts, s + 1),
            1 <= next <= u32::MAX,
            forall|t: int|
                1 <= t < next ==> less(ZERO, (#[trigger] transition_of(tp, ts, t)).1),
        decreases tuples.len() - s,
    {
        let tuple = tuples[s];
        assert(is_placed(tp, ts[s as int]));
        let states = topo.topology_for_phone(tuple.phone);
        let ghost st = hmm_state_of(tp, tuple);
        assert(states@[tuple.hmm_state as int]@ == st);
        let transitions = &states[tuple.hmm_state].transitions;
        let count: usize = transitions.len();
        proof {
            first_id_grows(tp, ts, s + 2, ts.len() as int + 1);
        }
        if count > 0xffff_ffff - next {
            return false;
        }
        let mut k: usize = 0;
        while k < count
            invariant
                k <= count,
                forall|t: int|
                    1 <= t < next + k ==> less(ZERO, (#[trigger] transition_of(tp, ts, t)).1),
            decreases count - k,
        {
            proof {
                assert(owns(tp, ts, s + 1, next + k));
                owner_is_unique(tp, ts, s + 1, next + k);
                assert(transition_of(tp, ts, next + k) == transitions@[k as int]);
            }
            if !lt(ZERO, transitions[k].1) {
                return false;
            }
            k += 1;
        }
        next += count;
        s += 1;
    }
    next > 1
}

/// Whether the pdfs of the tuples can be numbered.
fn are_pdfs_numbered(tuples: &Vec<Tuple>) -> (r: bool)
    ensures
        r == (pdfs_of(tuples@) <= usize::MAX),
{
    let mut max: u64 = 0;
    let mut i: usize = 0;
    assert(tuples@.take(0) =~= Seq::empty());
    while i < tuples.len()
        invariant
            i <= tuples@.len(),
            max == pdfs_of(tuples@.take(i as int)),
            max <= u32::MAX + 1,
        decreases tuples.len() - i,
    {
        proof {
            assert(tuples@.take(i + 1).drop_last() =~= tuples@.take(i as int));
            assert(tuples@.take(i + 1).last() == tuples@[i as int]);
        }
        let t = tuples[i];
        if t.forward_pdf as u64 + 1 > max {
            max = t.forward_pdf as u64 + 1;
        }
        if t.self_loop_pdf as u64 + 1 > max {
            max = t.self_loop_pdf as u64 + 1;
        }
        i += 1;
    }
    assert(tuples@.take(i as int) =~= tuples@);
    max <= usize::MAX as u64
}

impl TransitionModel {
    /// The model over a tree and a topology, if there is one.
    pub fn try_new<F: Fn(FloatOp) -> u64>(ctx: &ContextDependency, topo: &HmmTopology, f: &F) -> (r:
        Option<Self>)
        requires
            is_evaluator(*f),
        ensures
            r is Some == buildable(ctx.p, ctx.map.tree(), topo@),
            r matches Some(tm) ==> {
                &&& tm.wf()
                &&& tm@.topo == topo@
                &&& tm@.tuples == model_tuples(ctx.p, ctx.map.tree(), topo@)
                &&& tm@.log_probs == initial_log_probs(topo@, tm@.tuples, *f)
                &&& tm@.leaving == leaving_log_probs(topo@, tm@.tuples, tm@.log_probs, *f)
            },
    {
        let last: i64 = ctx.map.max_result();
        if last + 1 > 0 && (last + 1) as u64 > usize::MAX as u64 {
            return None;
        }
        let tuples = gather_tuples(ctx, topo);
        proof {
            assert forall|i: int| 0 <= i < tuples@.len() implies is_placed(
                topo@,
                #[trigger] tuples@[i],
            ) by {
                assert(tuples@.contains(tuples@[i]));
            }
        }
        if tuples.len() >= 0xffff_fffe {
            return None;
        }
        if !are_numbered(topo, &tuples) || !are_pdfs_numbered(&tuples) || !are_classes_emitted(
            ctx,
            topo,
        ) {
            return None;
        }
        Some(Self::new(ctx, topo, f))
    }

    /// The model over a tree and a topology, with the topology's probabilities.
    pub fn new<F: Fn(FloatOp) -> u64>(ctx: &ContextDependency, topo: &HmmTopology, f: &F) -> (r: Self)
        requires
            is_evaluator(*f),
            buildable(ctx.p, ctx.map.tree(), topo@),
        ensures
            r.wf(),
            r@.topo == topo@,
            r@.tuples == model_tuples(ctx.p, ctx.map.tree(), topo@),
            forall|t: Tuple| #[trigger] r@.tuples.contains(t) == belongs(ctx.p, ctx.map.tree(), topo@, t),
            r@.log_probs == initial_log_probs(topo@, r@.tuples, *f),
            r@.leaving == leaving_log_probs(topo@, r@.tuples, r@.log_probs, *f),
    {
        let tuples = gather_tuples(ctx, topo);
        proof {
            assert forall|i: int| 0 <= i < tuples@.len() implies is_placed(
                topo@,
                #[trigger] tuples@[i],
            ) by {
                assert(tuples@.contains(tuples@[i]));
            }
        }
        let derived = derive_tables(topo, &tuples);
        let mut log_probs: Vec<u32> = Vec::new();
        log_probs.push(ZERO);
        let ghost want = initial_log_probs(topo@, tuples@, *f);
        let mut s: usize = 0;
        while s < tuples.len()
            invariant
                is_evaluator(*f),
                s <= tuples@.len(),
                forall|i: int| 0 <= i < tuples@.len() ==> is_placed(topo@, #[trigger] tuples@[i]),
                want == initial_log_probs(topo@, tuples@, *f),
                log_probs@.len() == first_id(topo@, tuples@, s + 1),
                first_id(topo@, tuples@, s + 1) <= want.len(),
                forall|t: int| 0 <= t < log_probs@.len() ==> #[trigger] log_probs@[t] == want[t],
            decreases tuples.len() - s,
        {
            let tuple = tuples[s];
            assert(is_placed(topo@, tuples@[s as int]));
            let states = topo.topology_for_phone(tuple.phone);
            let ghost st = hmm_state_of(topo@, tuple);
            assert(states@[tuple.hmm_state as int]@ == st);
            let transitions = &states[tuple.hmm_state].transitions;
            proof {
                first_id_grows(topo@, tuples@, s + 2, tuples@.len() as int + 1);
                first_id_grows(topo@, tuples@, 1, s + 1);
            }
            let mut k: usize = 0;
            while k < transitions.len()
                invariant
                    is_evaluator(*f),
                    s < tuples@.len(),
                    k <= transitions@.len(),
                    tuple == tuples@[s as int],
                    st == hmm_state_of(topo@, tuple),
                    st.transitions == transitions@,
                    want == initial_log_probs(topo@, tuples@, *f),
                    first_id(topo@, tuples@, s + 1) >= 1,
                    first_id(topo@, tuples@, s + 2) == first_id(topo@, tuples@, s + 1)
                        + transitions@.len(),
                    first_id(topo@, tuples@, s + 2) <= want.len(),
                    log_probs@.len() == first_id(topo@, tuples@, s + 1) + k,
                    forall|t: int|
                        0 <= t < log_probs@.len() ==> #[trigger] log_probs@[t] == want[t],
                decreases transitions.len() - k,
            {
                let ghost t = log_probs@.len() as int;
                proof {
                    assert(owns(topo@, tuples@, s + 1, t));
                    owner_is_unique(topo@, tuples@, s + 1, t);
                    assert(transition_of(topo@, tuples@, t) == transitions@[k as int]);
                }
                log_probs.push(eval(f, FloatOp::Ln(transitions[k].1)));
                k += 1;
            }
            s += 1;
        }
        assert(log_probs@ =~= want);
        let mut blank: Vec<u32> = Vec::new();
        let mut i: usize = 0;
        while i < tuples.len() + 1
            invariant
                tuples@.len() + 1 < u32::MAX,
                i <= tuples@.len() + 1,
                blank@.len() == i,
            decreases tuples@.len() + 1 - i,
        {
            blank.push(ZERO);
            i += 1;
        }
        let mut tm = TransitionModel {
            topo: topo.clone(),
            tuples,
            state2id: derived.state2id,
            id2state: derived.id2state,
            id2pdf: derived.id2pdf,
            log_probs,
            non_self_loop_log_probs: blank,
            num_pdfs: derived.num_pdfs,
        };
        tm.derive_leaving(f);
        tm
    }

    /// Recompute the log probability of not looping for every transition state.
    fn derive_leaving<F: Fn(FloatOp) -> u64>(&mut self, f: &F)
        requires
            is_evaluator(*f),
            old(self).wf(),
        ensures
            final(self).wf(),
            final(self)@ == (ModelView {
                leaving: leaving_log_probs(
                    old(self)@.topo,
                    old(self)@.tuples,
                    old(self)@.log_probs,
                    *f,
                ),
                ..old(self)@
            }),
    {
        let ghost want = leaving_log_probs(self@.topo, self@.tuples, self@.log_probs, *f);
        let mut out: Vec<u32> = Vec::new();
        out.push(ZERO);
        let mut s: u32 = 1;
        let n: u32 = self.tuples.len() as u32;
        while s <= n
            invariant
                is_evaluator(*f),
                self.wf(),
                *self == *old(self),
                n == self.tuples@.len(),
                n + 1 < u32::MAX,
                1 <= s <= n + 1,
                want == leaving_log_probs(self@.topo, self@.tuples, self@.log_probs, *f),
                out@.len() == s,
                forall|k: int| 0 <= k < s ==> #[trigger] out@[k] == want[k],
            decreases n + 1 - s,
        {
            let leaving: u32 = match self.self_loop_of(s) {
                Some(t) => {
                    let prob: u32 = self.get_transition_prob(t, f);
                    let mut rest: u32 = eval(f, FloatOp::Sub(ONE, prob));
                    if le(rest, ZERO) {
                        rest = TINY;
                    }
                    eval(f, FloatOp::Ln(rest))
                },
                None => ZERO,
            };
            out.push(leaving);
            s += 1;
        }
        assert(out@ =~= want);
        self.non_self_loop_log_probs = out;
    }

    /// Take over log probabilities that are listed by tuple rather than by transition id. Every
    /// tuple of the model has to be listed with as many transitions as it has here; otherwise the
    /// model stays as it was.
    pub fn set_log_probs_by_tuple<F: Fn(FloatOp) -> u64>(
        &mut self,
        foreign: &Vec<TupleLogProbs>,
        f: &F,
    ) -> (r: Result<(), ProbsFault>)
        requires
            is_evaluator(*f),
            old(self).wf(),
        ensures
            final(self).wf(),
            match probs_fault(old(self)@, listing(foreign@), 1) {
                Some(fault) => r == Err::<(), ProbsFault>(fault) && final(self)@ == old(self)@,
                None => r is Ok && final(self)@ == (ModelView {
                    log_probs: placed_probs(old(self)@, listing(foreign@)),
                    leaving: leaving_log_probs(
                        old(self)@.topo,
                        old(self)@.tuples,
                        placed_probs(old(self)@, listing(foreign@)),
                        *f,
                    ),
                    ..old(self)@
                }),
            },
    {
        let ghost m = self@;
        let ghost want = placed_probs(m, listing(foreign@));
        proof {
            first_id_grows(m.topo, m.tuples, 1, m.tuples.len() as int + 1);
        }
        let mut out: Vec<u32> = Vec::new();
        out.push(ZERO);
        let mut s: u32 = 1;
        let n: u32 = self.tuples.len() as u32;
        while s <= n
            invariant
                self.wf(),
                *self == *old(self),
                m == self@,
                n == self.tuples@.len(),
                n + 1 < u32::MAX,
                1 <= s <= n + 1,
                want == placed_probs(m, listing(foreign@)),
                probs_fault(m, listing(foreign@), 1) == probs_fault(m, listing(foreign@), s as int),
                out@.len() == m.first_id(s as int),
                forall|t: int| 0 <= t < out@.len() ==> #[trigger] out@[t] == want[t],
            decreases n + 1 - s,
        {
            let tuple = self.tuples[s as usize - 1];
            let size: usize = self.num_transition_indices(s);
            match find_listed(foreign, tuple) {
                None => {
                    return Err(ProbsFault::Missing { tuple });
                },
                Some(i) => {
                    let probs = &foreign[i].log_probs;
                    if probs.len() != size {
                        return Err(
                            ProbsFault::WrongLength { tuple, want: size, got: probs.len() },
                        );
                    }
                    proof {
                        first_id_grows(m.topo, m.tuples, s + 1, m.tuples.len() as int + 1);
                        first_id_grows(m.topo, m.tuples, 1, s as int);
                    }
                    let mut k: usize = 0;
                    while k < size
                        invariant
                            k <= size,
                            size == probs@.len(),
                            m.has_state(s as int),
                            tuple == m.tuples[s - 1],
                            listed(listing(foreign@), tuple) == Some(probs@),
                            want == placed_probs(m, listing(foreign@)),
                            1 <= m.first_id(s as int),
                            m.first_id(s + 1) == m.first_id(s as int) + size,
                            m.first_id(s + 1) <= want.len(),
                            out@.len() == m.first_id(s as int) + k,
                            forall|t: int| 0 <= t < out@.len() ==> #[trigger] out@[t] == want[t],
                        decreases size - k,
                    {
                        proof {
                            owner_is_unique(m.topo, m.tuples, s as int, out@.len() as int);
                        }
                        out.push(probs[k]);
                        k += 1;
                    }
                },
            }
            s += 1;
        }
        assert(out@ =~= want);
        self.log_probs = out;
        self.derive_leaving(f);
        Ok(())
    }
}

/// How often each transition was taken, indexed by transition id; place 0 is unused. The counts
/// are double-precision bits.
#[derive(Debug)]
pub struct TransitionAccs(pub Vec<u64>);

/// The sum of the first `n` values, added in order to zero.
pub open spec fn wide_sum<F: Fn(FloatOp) -> u64>(xs: Seq<u64>, n: int, f: F) -> u64
    decreases n,
{
    if n <= 0 {
        WIDE_ZERO
    } else {
        wide_value(f, FloatOp::AddWide(wide_sum(xs, n - 1, f), xs[n - 1]))
    }
}

/// The sum of the values, added in order to zero.
pub fn sum_wide<F: Fn(FloatOp) -> u64>(xs: &Vec<u64>, f: &F) -> (r: u64)
    requires
        is_evaluator(*f),
    ensures
        r == wide_sum(xs@, xs@.len() as int, *f),
{
    let mut sum: u64 = WIDE_ZERO;
    let mut i: usize = 0;
    while i < xs.len()
        invariant
            is_evaluator(*f),
            i <= xs@.len(),
            sum == wide_sum(xs@, i as int, *f),
        decreases xs.len() - i,
    {
        sum = eval_wide(f, FloatOp::AddWide(sum, xs[i]));
        i += 1;
    }
    sum
}

impl TransitionAccs {
    /// No counts yet.
    pub fn new(num_transition_ids: usize) -> (r: Self)
        requires
            num_transition_ids < usize::MAX,
        ensures
            r.0@ == Seq::new((num_transition_ids + 1) as nat, |i: int| WIDE_ZERO),
    {
        let mut counts: Vec<u64> = Vec::new();
        let mut i: usize = 0;
        while i < num_transition_ids + 1
            invariant
                num_transition_ids < usize::MAX,
                i <= num_transition_ids + 1,
                counts@ == Seq::new(i as nat, |k: int| WIDE_ZERO),
            decreases num_transition_ids + 1 - i,
        {
            counts.push(WIDE_ZERO);
            i += 1;
        }
        TransitionAccs(counts)
    }

    /// Add the counts of `other`, one by one.
    pub fn add<F: Fn(FloatOp) -> u64>(&mut self, other: &Self, f: &F)
        requires
            is_evaluator(*f),
            old(self).0@.len() == other.0@.len(),
        ensures
            final(self).0@ == Seq::new(
                old(self).0@.len(),
                |i: int| wide_value(*f, FloatOp::AddWide(old(self).0@[i], other.0@[i])),
            ),
    {
        let ghost before = self.0@;
        let mut i: usize = 0;
        while i < self.0.len()
            invariant
                is_evaluator(*f),
                i <= before.len(),
                self.0@.len() == before.len(),
                other.0@.len() == before.len(),
                forall|k: int|
                    0 <= k < i ==> #[trigger] self.0@[k] == wide_value(
                        *f,
                        FloatOp::AddWide(before[k], other.0@[k]),
                    ),
                forall|k: int| i <= k < before.len() ==> #[trigger] self.0@[k] == before[k],
            decreases before.len() - i,
        {
            let sum: u64 = eval_wide(f, FloatOp::AddWide(self.0[i], other.0[i]));
            self.0.set(i, sum);
            i += 1;
        }
    }

    /// The sum of all counts.
    pub fn total<F: Fn(FloatOp) -> u64>(&self, f: &F) -> (r: u64)
        requires
            is_evaluator(*f),
        ensures
            r == wide_sum(self.0@, self.0@.len() as int, *f),
    {
        sum_wide(&self.0, f)
    }
}

/// Single-precision 5.0.
pub const FIVE: u32 = 0x40a0_0000;

/// Single-precision 0.01.
pub const HUNDREDTH: u32 = 0x3c23_d70a;

/// When and how far transition probabilities are re-estimated.
#[derive(Clone, Copy, Debug)]
pub struct MleTransitionUpdateConfig {
    /// No probability falls below this.
    pub floor: u32,
    /// A state with a smaller total count keeps its probabilities.
    pub mincount: u32,
}

impl Default for MleTransitionUpdateConfig {
    fn default() -> (r: Self)
        ensures
            r.floor == HUNDREDTH,
            r.mincount == FIVE,
    {
        MleTransitionUpdateConfig { floor: HUNDREDTH, mincount: FIVE }
    }
}

/// The larger of two values; one that is NaN is passed over.
pub open spec fn wide_max(a: u64, b: u64) -> u64 {
    if wide_less(a, b) || !wide_same(a, a) {
        b
    } else {
        a
    }
}

/// Each value divided by the sum of all.
pub open spec fn normalized<F: Fn(FloatOp) -> u64>(xs: Seq<u64>, f: F) -> Seq<u64> {
    Seq::new(
        xs.len(),
        |i: int| wide_value(f, FloatOp::DivWide(xs[i], wide_sum(xs, xs.len() as int, f))),
    )
}

/// Each value raised to the floor.
pub open spec fn floored(xs: Seq<u64>, floor: u64) -> Seq<u64> {
    Seq::new(xs.len(), |i: int| wide_max(xs[i], floor))
}

/// Normalise and floor, `rounds` times.
pub open spec fn settled_probs<F: Fn(FloatOp) -> u64>(
    xs: Seq<u64>,
    floor: u64,
    rounds: nat,
    f: F,
) -> Seq<u64>
    decreases rounds,
{
    if rounds == 0 {
        xs
    } else {
        floored(normalized(settled_probs(xs, floor, (rounds - 1) as nat, f), f), floor)
    }
}

/// The counts of the transitions of state `s`.
pub open spec fn counts_of(m: ModelView, stats: Seq<u64>, s: int) -> Seq<u64> {
    stats.subrange(m.first_id(s), m.first_id(s + 1))
}

/// The re-estimated probabilities of the transitions of a state: the relative counts, normalised
/// and floored three times.
pub open spec fn estimates<F: Fn(FloatOp) -> u64>(counts: Seq<u64>, floor: u64, f: F) -> Seq<u64> {
    settled_probs(
        Seq::new(
            counts.len(),
            |i: int|
                wide_value(f, FloatOp::DivWide(counts[i], wide_sum(counts, counts.len() as int, f))),
        ),
        floor,
        3,
        f,
    )
}

/// The new log probability of a re-estimated probability.
pub open spec fn log_estimate<F: Fn(FloatOp) -> u64>(p: u64, f: F) -> u32 {
    value(f, FloatOp::Narrow(wide_value(f, FloatOp::LnWide(p))))
}

/// What one transition adds to the objective: its count times the growth of its log probability.
pub open spec fn gain<F: Fn(FloatOp) -> u64>(count: u64, p: u64, old_log_prob: u32, f: F) -> u64 {
    let before = wide_value(f, FloatOp::Widen(value(f, FloatOp::Exp(old_log_prob))));
    wide_value(
        f,
        FloatOp::MulWide(
            count,
            wide_value(
                f,
                FloatOp::SubWide(
                    wide_value(f, FloatOp::LnWide(p)),
                    wide_value(f, FloatOp::LnWide(before)),
                ),
            ),
        ),
    )
}

/// The objective after the first `n` transitions of a state were added to `start`.
pub open spec fn objective<F: Fn(FloatOp) -> u64>(
    start: u64,
    counts: Seq<u64>,
    probs: Seq<u64>,
    old_log_probs: Seq<u32>,
    n: int,
    f: F,
) -> u64
    decreases n,
{
    if n <= 0 {
        start
    } else {
        wide_value(
            f,
            FloatOp::AddWide(
                objective(start, counts, probs, old_log_probs, n - 1, f),
                gain(counts[n - 1], probs[n - 1], old_log_probs[n - 1], f),
            ),
        )
    }
}

/// State `s` is re-estimated: it has a choice of transitions, and counts enough.
pub open spec fn is_reestimated<F: Fn(FloatOp) -> u64>(
    m: ModelView,
    stats: Seq<u64>,
    opts: MleTransitionUpdateConfig,
    s: int,
    f: F,
) -> bool {
    let counts = counts_of(m, stats, s);
    counts.len() > 1 && !wide_less(
        wide_sum(counts, counts.len() as int, f),
        wide_value(f, FloatOp::Widen(opts.mincount)),
    )
}

/// The estimates of state `s`.
pub open spec fn state_estimates<F: Fn(FloatOp) -> u64>(
    m: ModelView,
    stats: Seq<u64>,
    opts: MleTransitionUpdateConfig,
    s: int,
    f: F,
) -> Seq<u64> {
    estimates(counts_of(m, stats, s), wide_value(f, FloatOp::Widen(opts.floor)), f)
}

/// The log probabilities after the update: those of re-estimated states are new, the others stay.
pub open spec fn updated_log_probs<F: Fn(FloatOp) -> u64>(
    m: ModelView,
    stats: Seq<u64>,
    opts: MleTransitionUpdateConfig,
    upto: int,
    f: F,
) -> Seq<u32> {
    Seq::new(
        m.log_probs.len(),
        |t: int|
            if m.has_id(t) && m.owner(t) < upto && is_reestimated(m, stats, opts, m.owner(t), f) {
                log_estimate(
                    state_estimates(m, stats, opts, m.owner(t), f)[index_of(m.topo, m.tuples, t)],
                    f,
                )
            } else {
                m.log_probs[t]
            },
    )
}

/// The improvement of the objective over the states before `upto`.
pub open spec fn total_gain<F: Fn(FloatOp) -> u64>(
    m: ModelView,
    stats: Seq<u64>,
    opts: MleTransitionUpdateConfig,
    upto: int,
    f: F,
) -> u64
    decreases upto,
{
    if upto <= 1 {
        WIDE_ZERO
    } else {
        let s = upto - 1;
        let before = total_gain(m, stats, opts, s, f);
        if is_reestimated(m, stats, opts, s, f) {
            let counts = counts_of(m, stats, s);
            objective(
                before,
                counts,
                state_estimates(m, stats, opts, s, f),
                m.log_probs.subrange(m.first_id(s), m.first_id(s + 1)),
                counts.len() as int,
                f,
            )
        } else {
            before
        }
    }
}

/// The counts of the states before `upto` that have a choice of transitions.
pub open spec fn total_count<F: Fn(FloatOp) -> u64>(
    m: ModelView,
    stats: Seq<u64>,
    upto: int,
    f: F,
) -> u64
    decreases upto,
{
    if upto <= 1 {
        WIDE_ZERO
    } else {
        let s = upto - 1;
        let before = total_count(m, stats, s, f);
        let counts = counts_of(m, stats, s);
        if counts.len() > 1 {
            wide_value(f, FloatOp::AddWide(before, wide_sum(counts, counts.len() as int, f)))
        } else {
            before
        }
    }
}

/// Normalise and floor, three times.
fn settle<F: Fn(FloatOp) -> u64>(xs: Vec<u64>, floor: u64, f: &F) -> (r: Vec<u64>)
    requires
        is_evaluator(*f),
    ensures
        r@ == settled_probs(xs@, floor, 3, *f),
{
    let mut cur: Vec<u64> = xs;
    let mut round: usize = 0;
    while round < 3
        invariant
            is_evaluator(*f),
            round <= 3,
            cur@ == settled_probs(xs@, floor, round as nat, *f),
        decreases 3 - round,
    {
        let sum: u64 = sum_wide(&cur, f);
        let ghost want = floored(normalized(cur@, *f), floor);
        let mut next: Vec<u64> = Vec::new();
        let mut i: usize = 0;
        while i < cur.len()
            invariant
                is_evaluator(*f),
                i <= cur@.len(),
                sum == wide_sum(cur@, cur@.len() as int, *f),
                want == floored(normalized(cur@, *f), floor),
                next@ == want.take(i as int),
            decreases cur.len() - i,
        {
            let p: u64 = eval_wide(f, FloatOp::DivWide(cur[i], sum));
            if wide_lt(p, floor) || !wide_eq(p, p) {
                next.push(floor);
            } else {
                next.push(p);
            }
            assert(next@ =~= want.take(i + 1));
            i += 1;
        }
        assert(next@ =~= want);
        cur = next;
        round += 1;
    }
    cur
}

impl TransitionModel {
    /// Add `weight` to the count of a transition id.
    pub fn accumulate<F: Fn(FloatOp) -> u64>(
        &self,
        stats: &mut TransitionAccs,
        t: TransitionId,
        weight: u64,
        f: &F,
    )
        requires
            is_evaluator(*f),
            0 < t < old(stats).0@.len(),
        ensures
            final(stats).0@ == old(stats).0@.update(
                t as int,
                wide_value(*f, FloatOp::AddWide(old(stats).0@[t as int], weight)),
            ),
    {
        let sum: u64 = eval_wide(f, FloatOp::AddWide(stats.0[t as usize], weight));
        stats.0.set(t as usize, sum);
    }

    /// Re-estimate the probabilities of every state that has a choice of transitions and counts
    /// enough. Gives the improvement of the objective and the total count of the states with a
    /// choice.
    pub fn mle_update<F: Fn(FloatOp) -> u64>(
        &mut self,
        stats: &TransitionAccs,
        opts: &MleTransitionUpdateConfig,
        f: &F,
    ) -> (r: (u64, u64))
        requires
            is_evaluator(*f),
            old(self).wf(),
            stats.0@.len() == id_count(old(self)@.topo, old(self)@.tuples) + 1,
            forall|t: int|
                1 <= t < stats.0@.len() ==> is_finite_bits(
                    #[trigger] updated_log_probs(
                        old(self)@,
                        stats.0@,
                        *opts,
                        old(self)@.tuples.len() as int + 1,
                        *f,
                    )[t],
                ) || !is_reestimated(old(self)@, stats.0@, *opts, old(self)@.owner(t), *f),
        ensures
            final(self).wf(),
            final(self)@.topo == old(self)@.topo,
            final(self)@.tuples == old(self)@.tuples,
            final(self)@.log_probs == updated_log_probs(
                old(self)@,
                stats.0@,
                *opts,
                old(self)@.tuples.len() as int + 1,
                *f,
            ),
            final(self)@.leaving == leaving_log_probs(
                old(self)@.topo,
                old(self)@.tuples,
                final(self)@.log_probs,
                *f,
            ),
            r.0 == total_gain(old(self)@, stats.0@, *opts, old(self)@.tuples.len() as int + 1, *f),
            r.1 == total_count(old(self)@, stats.0@, old(self)@.tuples.len() as int + 1, *f),
    {
        let ghost m = self@;
        let floor: u64 = eval_wide(f, FloatOp::Widen(opts.floor));
        let mincount: u64 = eval_wide(f, FloatOp::Widen(opts.mincount));
        let mut count_sum: u64 = WIDE_ZERO;
        let mut objf: u64 = WIDE_ZERO;
        let mut log_probs: Vec<u32> = self.log_probs.clone();
        let n: u32 = self.tuples.len() as u32;
        let mut s: u32 = 1;
        proof {
            assert(log_probs@ =~= updated_log_probs(m, stats.0@, *opts, 1, *f)) by {
                assert forall|t: int| 0 <= t < m.log_probs.len() implies log_probs@[t]
                    == updated_log_probs(m, stats.0@, *opts, 1, *f)[t] by {
                    if m.has_id(t) {
                        every_id_is_owned(m.topo, m.tuples, t);
                    }
                }
            }
        }
        while s <= n
            invariant
                is_evaluator(*f),
                self.wf(),
                *self == *old(self),
                m == self@,
                n == m.tuples.len(),
                n + 1 < u32::MAX,
                1 <= s <= n + 1,
                stats.0@.len() == id_count(m.topo, m.tuples) + 1,
                m.log_probs.len() == stats.0@.len(),
                floor == wide_value(*f, FloatOp::Widen(opts.floor)),
                mincount == wide_value(*f, FloatOp::Widen(opts.mincount)),
                log_probs@ == updated_log_probs(m, stats.0@, *opts, s as int, *f),
                objf == total_gain(m, stats.0@, *opts, s as int, *f),
                count_sum == total_count(m, stats.0@, s as int, *f),
            decreases n + 1 - s,
        {
            let size: usize = self.num_transition_indices(s);
            let first: usize = self.state2id[s as usize] as usize;
            let ghost counted = counts_of(m, stats.0@, s as int);
            let ghost before = log_probs@;
            proof {
                first_id_grows(m.topo, m.tuples, s + 1, m.tuples.len() as int + 1);
                first_id_grows(m.topo, m.tuples, 1, s as int);
                assert(counted.len() == size);
            }
            if size > 1 {
                let mut counts: Vec<u64> = Vec::new();
                let available: usize = stats.0.len();
                let mut i: usize = 0;
                while i < size
                    invariant
                        i <= size,
                        available == stats.0@.len(),
                        first + size <= available,
                        counted == stats.0@.subrange(first as int, first + size),
                        counts@ == counted.take(i as int),
                    decreases size - i,
                {
                    counts.push(stats.0[first + i]);
                    assert(counts@ =~= counted.take(i + 1));
                    i += 1;
                }
                assert(counts@ =~= counted);
                let tot: u64 = sum_wide(&counts, f);
                count_sum = eval_wide(f, FloatOp::AddWide(count_sum, tot));
                if !wide_lt(tot, mincount) {
                    let mut relative: Vec<u64> = Vec::new();
                    let ghost want = Seq::new(
                        counted.len(),
                        |k: int|
                            wide_value(
                                *f,
                                FloatOp::DivWide(
                                    counted[k],
                                    wide_sum(counted, counted.len() as int, *f),
                                ),
                            ),
                    );
                    let mut j: usize = 0;
                    while j < size
                        invariant
                            is_evaluator(*f),
                            j <= size,
                            size == counted.len(),
                            counts@ == counted,
                            tot == wide_sum(counted, counted.len() as int, *f),
                            want == Seq::new(
                                counted.len(),
                                |k: int|
                                    wide_value(
                                        *f,
                                        FloatOp::DivWide(
                                            counted[k],
                                            wide_sum(counted, counted.len() as int, *f),
                                        ),
                                    ),
                            ),
                            relative@ == want.take(j as int),
                        decreases size - j,
                    {
                        relative.push(eval_wide(f, FloatOp::DivWide(counts[j], tot)));
                        assert(relative@ =~= want.take(j + 1));
                        j += 1;
                    }
                    assert(relative@ =~= want);
                    let probs = settle(relative, floor, f);
                    let ghost est = state_estimates(m, stats.0@, *opts, s as int, *f);
                    let ghost old_lps = m.log_probs.subrange(m.first_id(s as int), m.first_id(s + 1));
                    let ghost start = objf;
                    proof {
                        assert(probs@ == est);
                        settled_length(want, floor, 3, *f);
                    }
                    let mut k: usize = 0;
                    while k < size
                        invariant
                            is_evaluator(*f),
                            self.wf(),
                            m == self@,
                            k <= size,
                            size == counted.len(),
                            counts@ == counted,
                            probs@ == est,
                            est.len() == size,
                            m.has_state(s as int),
                            first == m.first_id(s as int),
                            1 <= first,
                            first + size == m.first_id(s + 1),
                            first + size <= m.log_probs.len(),
                            m.log_probs.len() == id_count(m.topo, m.tuples) + 1,
                            old_lps == m.log_probs.subrange(
                                m.first_id(s as int),
                                m.first_id(s + 1),
                            ),
                            objf == objective(start, counted, est, old_lps, k as int, *f),
                            log_probs@.len() == before.len(),
                            before.len() == m.log_probs.len(),
                            forall|t: int|
                                0 <= t < before.len() && !(first <= t < first + k)
                                    ==> #[trigger] log_probs@[t] == before[t],
                            forall|t: int|
                                first <= t < first + k ==> #[trigger] log_probs@[t] == log_estimate(
                                    est[t - first],
                                    *f,
                                ),
                        decreases size - k,
                    {
                        let tid: usize = first + k;
                        let old_prob: u32 = eval(f, FloatOp::Exp(self.log_probs[tid]));
                        let old_wide: u64 = eval_wide(f, FloatOp::Widen(old_prob));
                        let ln_new: u64 = eval_wide(f, FloatOp::LnWide(probs[k]));
                        let ln_old: u64 = eval_wide(f, FloatOp::LnWide(old_wide));
                        let growth: u64 = eval_wide(f, FloatOp::SubWide(ln_new, ln_old));
                        let gained: u64 = eval_wide(f, FloatOp::MulWide(counts[k], growth));
                        assert(old_lps[k as int] == self.log_probs@[tid as int]);
                        objf = eval_wide(f, FloatOp::AddWide(objf, gained));
                        log_probs.set(tid, eval(f, FloatOp::Narrow(ln_new)));
                        k += 1;
                    }
                }
            }
            proof {
                let after = updated_log_probs(m, stats.0@, *opts, s + 1, *f);
                assert forall|t: int| 0 <= t < m.log_probs.len() implies log_probs@[t] == after[t] by {
                    if m.has_id(t) {
                        every_id_is_owned(m.topo, m.tuples, t);
                        if owns(m.topo, m.tuples, s as int, t) {
                            owner_is_unique(m.topo, m.tuples, s as int, t);
                            assert(before[t] == m.log_probs[t]);
                        } else {
                            assert(m.owner(t) != s);
                            assert(log_probs@[t] == before[t]);
                        }
                    } else {
                        assert(log_probs@[t] == before[t]);
                    }
                }
                assert(log_probs@ =~= after);
            }
            s += 1;
        }
        self.log_probs = log_probs;
        self.derive_leaving(f);
        (objf, count_sum)
    }
}

proof fn settled_length<F: Fn(FloatOp) -> u64>(xs: Seq<u64>, floor: u64, rounds: nat, f: F)
    ensures
        settled_probs(xs, floor, rounds, f).len() == xs.len(),
    decreases rounds,
{
    if rounds > 0 {
        settled_length(xs, floor, (rounds - 1) as nat, f);
    }
}

} // verus!
