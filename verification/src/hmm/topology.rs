//! HMM prototypes: which states a phone has, what they emit, and how they follow each other.

use vstd::prelude::*;

use crate::float::{
    abs, at_most, eq, eval, is_evaluator, le, less, lt, magnitude, same, value, FloatOp, ONE, ZERO,
};
use crate::order::{increasing, insert, search, sorted_unique, Key};
use crate::types::PhoneId;

verus! {

/// The pdf-class of a state that emits nothing.
pub const NO_PDF: i32 = -1;

/// Single-precision 0.5.
pub const HALF: u32 = 0x3f00_0000;

/// Single-precision 0.75.
pub const THREE_QUARTERS: u32 = 0x3f40_0000;

/// Single-precision 0.25.
pub const QUARTER: u32 = 0x3e80_0000;

/// Single-precision 0.001, how far the probabilities out of a state may sum from one.
pub const SUM_TOLERANCE: u32 = 0x3a83_126f;

/// One state of a phone HMM.
#[derive(Debug)]
pub struct HmmState {
    /// [`NO_PDF`] means that the state emits nothing.
    pub pdf_class: i32,
    /// `(destination, probability)`. The order defines the transition indices, and through them
    /// the transition ids.
    pub transitions: Vec<(usize, u32)>,
}

/// What a state is, with its transitions as a sequence.
#[verifier::ext_equal]
pub struct StateView {
    pub pdf_class: i32,
    pub transitions: Seq<(usize, u32)>,
}

impl View for HmmState {
    type V = StateView;

    open spec fn view(&self) -> StateView {
        StateView { pdf_class: self.pdf_class, transitions: self.transitions@ }
    }
}

impl Clone for HmmState {
    fn clone(&self) -> (r: Self)
        ensures
            r@ == self@,
    {
        let mut transitions: Vec<(usize, u32)> = Vec::new();
        let mut i: usize = 0;
        while i < self.transitions.len()
            invariant
                i <= self.transitions@.len(),
                transitions@ == self.transitions@.take(i as int),
            decreases self.transitions.len() - i,
        {
            transitions.push(self.transitions[i]);
            i += 1;
        }
        assert(transitions@ == self.transitions@);
        HmmState { pdf_class: self.pdf_class, transitions }
    }
}

impl StateView {
    pub open spec fn emits(self) -> bool {
        self.pdf_class != NO_PDF
    }

    /// Some transition leads from the state at `index` back to itself.
    pub open spec fn loops_at(self, index: int) -> bool {
        exists|i: int| 0 <= i < self.transitions.len() && (#[trigger] self.transitions[i]).0 == index
    }
}

/// A group of phones that share a prototype.
#[derive(Debug)]
pub struct TopologyEntry {
    /// The phones, sorted and unique.
    pub phones: Vec<PhoneId>,
    /// The prototype. The last state is the final one, which emits nothing.
    pub states: Vec<HmmState>,
}

/// What an entry is.
#[verifier::ext_equal]
pub struct EntryView {
    pub phones: Seq<PhoneId>,
    pub states: Seq<StateView>,
}

/// The views of a list of states.
pub open spec fn state_views(states: Seq<HmmState>) -> Seq<StateView> {
    Seq::new(states.len(), |i: int| states[i]@)
}

impl View for TopologyEntry {
    type V = EntryView;

    open spec fn view(&self) -> EntryView {
        EntryView { phones: self.phones@, states: state_views(self.states@) }
    }
}

impl Clone for TopologyEntry {
    fn clone(&self) -> (r: Self)
        ensures
            r@ == self@,
    {
        let mut states: Vec<HmmState> = Vec::new();
        let mut i: usize = 0;
        while i < self.states.len()
            invariant
                i <= self.states@.len(),
                states@.len() == i,
                forall|k: int| 0 <= k < i ==> (#[trigger] states@[k])@ == self.states@[k]@,
            decreases self.states.len() - i,
        {
            states.push(self.states[i].clone());
            i += 1;
        }
        assert(state_views(states@) =~= state_views(self.states@));
        TopologyEntry { phones: self.phones.clone(), states }
    }
}

/// The prototypes of all phones.
#[derive(Debug)]
pub struct HmmTopology {
    pub entries: Vec<TopologyEntry>,
}

impl View for HmmTopology {
    type V = Seq<EntryView>;

    open spec fn view(&self) -> Seq<EntryView> {
        Seq::new(self.entries@.len(), |i: int| self.entries@[i]@)
    }
}

impl Clone for HmmTopology {
    fn clone(&self) -> (r: Self)
        ensures
            r@ == self@,
    {
        let mut entries: Vec<TopologyEntry> = Vec::new();
        let mut i: usize = 0;
        while i < self.entries.len()
            invariant
                i <= self.entries@.len(),
                entries@.len() == i,
                forall|k: int| 0 <= k < i ==> (#[trigger] entries@[k])@ == self.entries@[k]@,
            decreases self.entries.len() - i,
        {
            entries.push(self.entries[i].clone());
            i += 1;
        }
        let r = HmmTopology { entries };
        assert(r@ =~= self@);
        r
    }
}

/// Some entry covers `p`.
pub open spec fn covers(topo: Seq<EntryView>, p: PhoneId) -> bool {
    exists|i: int| 0 <= i < topo.len() && (#[trigger] topo[i]).phones.contains(p)
}

/// The prototype of `p`: that of the first entry that covers it.
pub open spec fn states_of(topo: Seq<EntryView>, p: PhoneId) -> Seq<StateView>
    decreases topo.len(),
{
    if topo.len() == 0 {
        Seq::empty()
    } else if topo[0].phones.contains(p) {
        topo[0].states
    } else {
        states_of(topo.drop_first(), p)
    }
}

/// The largest pdf-class of the states, at least 0.
pub open spec fn max_class(states: Seq<StateView>) -> int
    decreases states.len(),
{
    if states.len() == 0 {
        0
    } else {
        let rest = max_class(states.drop_last());
        if states.last().pdf_class > rest {
            states.last().pdf_class as int
        } else {
            rest
        }
    }
}

/// How many pdf-classes `p` has.
pub open spec fn classes_of(topo: Seq<EntryView>, p: PhoneId) -> int {
    max_class(states_of(topo, p)) + 1
}

/// A silence prototype of `n` emitting states: the first reaches itself and all but the last, the
/// inner ones reach every state but the first, and the last loops or leaves.
pub open spec fn silence_prototype<F: Fn(FloatOp) -> u64>(n: int, f: F) -> Seq<StateView> {
    let share = value(f, FloatOp::Div(ONE, value(f, FloatOp::Count((n - 1) as u64))));
    Seq::new(
        (n + 1) as nat,
        |i: int|
            if i == n {
                StateView { pdf_class: NO_PDF, transitions: Seq::empty() }
            } else if i == 0 {
                StateView {
                    pdf_class: 0,
                    transitions: Seq::new((n - 1) as nat, |x: int| (x as usize, share)),
                }
            } else if i < n - 1 {
                StateView {
                    pdf_class: i as i32,
                    transitions: Seq::new((n - 1) as nat, |x: int| ((x + 1) as usize, share)),
                }
            } else {
                StateView {
                    pdf_class: i as i32,
                    transitions: seq![(i as usize, THREE_QUARTERS), (n as usize, QUARTER)],
                }
            },
    )
}

/// A left-to-right prototype of `n` emitting states: each loops or moves on, except the last,
/// which leaves after one frame.
pub open spec fn bakis_prototype(n: int) -> Seq<StateView> {
    Seq::new(
        (n + 1) as nat,
        |i: int|
            if i == n {
                StateView { pdf_class: NO_PDF, transitions: Seq::empty() }
            } else if i + 1 == n {
                StateView { pdf_class: i as i32, transitions: seq![((i + 1) as usize, ONE)] }
            } else {
                StateView {
                    pdf_class: i as i32,
                    transitions: seq![(i as usize, HALF), ((i + 1) as usize, HALF)],
                }
            },
    )
}

/// Consecutive states of `path` are joined by transitions, and it starts at state 0.
pub open spec fn is_walk(states: Seq<StateView>, path: Seq<int>) -> bool {
    &&& path.len() > 0
    &&& path[0] == 0
    &&& forall|k: int| 0 <= k < path.len() ==> 0 <= #[trigger] path[k] < states.len()
    &&& forall|k: int| 0 < k < path.len() ==> #[trigger] joined(states, path, k)
}

/// A transition leads from the state before place `k` of `path` to the one at it.
pub open spec fn joined(states: Seq<StateView>, path: Seq<int>, k: int) -> bool {
    states[path[k - 1]].loops_at(path[k])
}

/// How many states of `path` emit: the frames that the walk takes.
pub open spec fn frames_of(states: Seq<StateView>, path: Seq<int>) -> nat
    decreases path.len(),
{
    if path.len() == 0 {
        0
    } else {
        frames_of(states, path.drop_last()) + emitted(states, path.last())
    }
}

/// 1 for a state that emits, 0 for one that does not.
pub open spec fn emitted(states: Seq<StateView>, s: int) -> nat {
    if states[s].emits() {
        1
    } else {
        0
    }
}

/// Every transition leads to a state of the prototype.
pub open spec fn closed(states: Seq<StateView>) -> bool {
    forall|s: int, k: int|
        0 <= s < states.len() && 0 <= k < states[s].transitions.len() ==> (
        #[trigger] states[s].transitions[k]).0 < states.len()
}

/// What a topology fails on.
#[derive(Clone, Debug)]
pub enum TopologyFault {
    /// An entry without an emitting and a final state.
    TooFewStates,
    /// The last state of an entry emits, or leads somewhere.
    LastStateNotFinal,
    /// A pdf-class no state count allows.
    ClassOutOfRange { class: i32 },
    /// An emitting state with no way out.
    NoTransitions { state: usize },
    /// The probabilities out of a state do not sum to one.
    BadSum { state: usize, sum: u32 },
    /// A transition to a state that does not exist.
    DestinationOutOfRange { dest: usize },
    /// A zero or negative probability.
    NonPositiveProbability,
    /// A pdf-class is skipped.
    ClassesNotContiguous,
}

/// The sum of the first `n` probabilities out of a state, added in order to zero.
pub open spec fn probability_sum<F: Fn(FloatOp) -> u64>(
    transitions: Seq<(usize, u32)>,
    n: int,
    f: F,
) -> u32
    decreases n,
{
    if n <= 0 {
        ZERO
    } else {
        value(f, FloatOp::Add(probability_sum(transitions, n - 1, f), transitions[n - 1].1))
    }
}

/// The first fault among the transitions from the `k`-th on.
pub open spec fn transition_fault(
    transitions: Seq<(usize, u32)>,
    num_states: int,
    k: int,
) -> Option<TopologyFault>
    decreases transitions.len() - k,
{
    if k < 0 || k >= transitions.len() {
        None
    } else if transitions[k].0 >= num_states {
        Some(TopologyFault::DestinationOutOfRange { dest: transitions[k].0 })
    } else if at_most(transitions[k].1, ZERO) {
        Some(TopologyFault::NonPositiveProbability)
    } else {
        transition_fault(transitions, num_states, k + 1)
    }
}

/// The fault of one state that is not the last.
pub open spec fn state_fault<F: Fn(FloatOp) -> u64>(
    states: Seq<StateView>,
    i: int,
    f: F,
) -> Option<TopologyFault> {
    let st = states[i];
    let sum = probability_sum(st.transitions, st.transitions.len() as int, f);
    if !st.emits() {
        None
    } else if st.pdf_class < 0 || st.pdf_class >= states.len() {
        Some(TopologyFault::ClassOutOfRange { class: st.pdf_class })
    } else if st.transitions.len() == 0 {
        Some(TopologyFault::NoTransitions { state: i as usize })
    } else if less(SUM_TOLERANCE, magnitude(value(f, FloatOp::Sub(sum, ONE)))) {
        Some(TopologyFault::BadSum { state: i as usize, sum })
    } else {
        transition_fault(st.transitions, states.len() as int, 0)
    }
}

/// The first fault among the states from the `i`-th to the last but one.
pub open spec fn states_fault<F: Fn(FloatOp) -> u64>(
    states: Seq<StateView>,
    i: int,
    f: F,
) -> Option<TopologyFault>
    decreases states.len() - i,
{
    if i < 0 || i >= states.len() - 1 {
        None
    } else if state_fault(states, i, f) is Some {
        state_fault(states, i, f)
    } else {
        states_fault(states, i + 1, f)
    }
}

/// Some state but the last has pdf-class `c`.
pub open spec fn has_class(states: Seq<StateView>, c: int) -> bool {
    exists|i: int| 0 <= i < states.len() - 1 && (#[trigger] states[i]).pdf_class == c
}

/// Every pdf-class below one that is used is used too.
pub open spec fn classes_contiguous(states: Seq<StateView>) -> bool {
    forall|c: int, d: int| 0 <= d < c && #[trigger] has_class(states, c) ==> #[trigger] has_class(
        states,
        d,
    )
}

/// The fault of one entry.
pub open spec fn entry_fault<F: Fn(FloatOp) -> u64>(
    states: Seq<StateView>,
    f: F,
) -> Option<TopologyFault> {
    if states.len() < 2 {
        Some(TopologyFault::TooFewStates)
    } else if states.last().emits() || states.last().transitions.len() > 0 {
        Some(TopologyFault::LastStateNotFinal)
    } else if states_fault(states, 0, f) is Some {
        states_fault(states, 0, f)
    } else if !classes_contiguous(states) {
        Some(TopologyFault::ClassesNotContiguous)
    } else {
        None
    }
}

/// The first fault among the entries from the `i`-th on.
pub open spec fn topology_fault<F: Fn(FloatOp) -> u64>(
    topo: Seq<EntryView>,
    i: int,
    f: F,
) -> Option<TopologyFault>
    decreases topo.len() - i,
{
    if i < 0 || i >= topo.len() {
        None
    } else if entry_fault(topo[i].states, f) is Some {
        entry_fault(topo[i].states, f)
    } else {
        topology_fault(topo, i + 1, f)
    }
}

impl HmmState {
    pub fn new(pdf_class: i32, transitions: Vec<(usize, u32)>) -> (r: Self)
        ensures
            r@ == (StateView { pdf_class, transitions: transitions@ }),
            r.pdf_class == pdf_class,
            r.transitions == transitions,
    {
        HmmState { pdf_class, transitions }
    }

    pub fn is_emitting(&self) -> (r: bool)
        ensures
            r == self@.emits(),
    {
        self.pdf_class != NO_PDF
    }

    /// The index of the first transition that leads back to the state, which stands at
    /// `self_index`.
    pub fn self_loop_index(&self, self_index: usize) -> (r: Option<usize>)
        ensures
            r is Some == self@.loops_at(self_index as int),
            r matches Some(i) ==> i < self.transitions@.len() && self.transitions@[i as int].0
                == self_index && forall|j: int|
                0 <= j < i ==> (#[trigger] self.transitions@[j]).0 != self_index,
    {
        let mut i: usize = 0;
        while i < self.transitions.len()
            invariant
                i <= self.transitions@.len(),
                forall|j: int| 0 <= j < i ==> (#[trigger] self.transitions@[j]).0 != self_index,
            decreases self.transitions.len() - i,
        {
            if self.transitions[i].0 == self_index {
                assert(self@.transitions[i as int].0 == self_index);
                return Some(i);
            }
            i += 1;
        }
        None
    }
}

proof fn states_of_prefix(topo: Seq<EntryView>, p: PhoneId, i: int)
    requires
        0 <= i <= topo.len(),
        forall|j: int| 0 <= j < i ==> !(#[trigger] topo[j]).phones.contains(p),
    ensures
        states_of(topo, p) == states_of(topo.skip(i), p),
    decreases i,
{
    if i == 0 {
        assert(topo.skip(0) == topo);
    } else {
        states_of_prefix(topo.drop_first(), p, i - 1);
        assert(topo.drop_first().skip(i - 1) == topo.skip(i));
    }
}

fn contains_phone(phones: &Vec<PhoneId>, p: PhoneId) -> (r: bool)
    ensures
        r == phones@.contains(p),
{
    let mut i: usize = 0;
    while i < phones.len()
        invariant
            i <= phones@.len(),
            forall|j: int| 0 <= j < i ==> phones@[j] != p,
        decreases phones.len() - i,
    {
        if phones[i] == p {
            return true;
        }
        i += 1;
    }
    false
}

/// A silence prototype of `n` emitting states.
fn silence_states<F: Fn(FloatOp) -> u64>(n: usize, f: &F) -> (r: Vec<HmmState>)
    requires
        is_evaluator(*f),
        2 <= n < i32::MAX,
    ensures
        state_views(r@) == silence_prototype(n as int, *f),
{
    let share: u32 = eval(f, FloatOp::Div(ONE, eval(f, FloatOp::Count((n - 1) as u64))));
    let ghost want = silence_prototype(n as int, *f);
    let mut states: Vec<HmmState> = Vec::new();
    let mut i: usize = 0;
    while i < n
        invariant
            2 <= n < i32::MAX,
            i <= n,
            share == value(*f, FloatOp::Div(ONE, value(*f, FloatOp::Count((n - 1) as u64)))),
            want == silence_prototype(n as int, *f),
            states@.len() == i,
            forall|k: int| 0 <= k < i ==> (#[trigger] states@[k])@ == want[k],
        decreases n - i,
    {
        let mut transitions: Vec<(usize, u32)> = Vec::new();
        if i == 0 || i < n - 1 {
            let first: usize = if i == 0 {
                0
            } else {
                1
            };
            let mut x: usize = 0;
            while x < n - 1
                invariant
                    2 <= n < i32::MAX,
                    x <= n - 1,
                    first <= 1,
                    transitions@.len() == x,
                    forall|k: int|
                        0 <= k < x ==> (#[trigger] transitions@[k]) == ((k + first) as usize, share),
                decreases n - x,
            {
                transitions.push((x + first, share));
                x += 1;
            }
            assert(transitions@ =~= want[i as int].transitions);
        } else {
            transitions.push((i, THREE_QUARTERS));
            transitions.push((n, QUARTER));
            assert(transitions@ =~= want[i as int].transitions);
        }
        states.push(HmmState::new(i as i32, transitions));
        assert(states@[i as int]@ == want[i as int]);
        i += 1;
    }
    let last: Vec<(usize, u32)> = Vec::new();
    states.push(HmmState::new(NO_PDF, last));
    assert(states@[n as int]@ == want[n as int]);
    assert(state_views(states@) =~= want);
    states
}

/// A left-to-right prototype of `n` emitting states.
fn bakis_states(n: usize) -> (r: Vec<HmmState>)
    requires
        1 <= n < i32::MAX,
    ensures
        state_views(r@) == bakis_prototype(n as int),
{
    let ghost want = bakis_prototype(n as int);
    let mut states: Vec<HmmState> = Vec::new();
    let mut i: usize = 0;
    while i < n
        invariant
            1 <= n < i32::MAX,
            i <= n,
            want == bakis_prototype(n as int),
            states@.len() == i,
            forall|k: int| 0 <= k < i ==> (#[trigger] states@[k])@ == want[k],
        decreases n - i,
    {
        let mut transitions: Vec<(usize, u32)> = Vec::new();
        if i + 1 == n {
            transitions.push((i + 1, ONE));
        } else {
            transitions.push((i, HALF));
            transitions.push((i + 1, HALF));
        }
        assert(transitions@ =~= want[i as int].transitions);
        states.push(HmmState::new(i as i32, transitions));
        assert(states@[i as int]@ == want[i as int]);
        i += 1;
    }
    let last: Vec<(usize, u32)> = Vec::new();
    states.push(HmmState::new(NO_PDF, last));
    assert(states@[n as int]@ == want[n as int]);
    assert(state_views(states@) =~= want);
    states
}

/// The phones of `v`, sorted and unique.
pub fn sorted_uniq(v: &[PhoneId]) -> (r: Vec<PhoneId>)
    ensures
        increasing(r@),
        forall|p: PhoneId| #[trigger] r@.contains(p) == v@.contains(p),
{
    sorted_unique(v)
}

/// How many finite entries the distance table holds.
spec fn reached(d: Seq<usize>) -> nat
    decreases d.len(),
{
    if d.len() == 0 {
        0
    } else {
        reached(d.drop_last()) + if d.last() == usize::MAX {
            0nat
        } else {
            1nat
        }
    }
}

spec fn total(d: Seq<usize>) -> nat
    decreases d.len(),
{
    if d.len() == 0 {
        0
    } else {
        total(d.drop_last()) + d.last() as nat
    }
}

proof fn update_tables(d: Seq<usize>, i: int, v: usize)
    requires
        0 <= i < d.len(),
        v < usize::MAX,
        v < d[i],
    ensures
        total(d.update(i, v)) < total(d),
        reached(d.update(i, v)) == reached(d) + if d[i] == usize::MAX {
            1nat
        } else {
            0nat
        },
    decreases d.len(),
{
    let e = d.update(i, v);
    if i == d.len() - 1 {
        assert(e.drop_last() == d.drop_last());
    } else {
        assert(e.drop_last() == d.drop_last().update(i, v));
        update_tables(d.drop_last(), i, v);
    }
}

proof fn reached_is_bounded(d: Seq<usize>)
    ensures
        reached(d) <= d.len(),
    decreases d.len(),
{
    if d.len() > 0 {
        reached_is_bounded(d.drop_last());
    }
}

/// Every finite distance is the length of a walk to its state.
spec fn witnessed(states: Seq<StateView>, d: Seq<usize>) -> bool {
    &&& forall|s: int|
        #![trigger d[s]]
        0 <= s < d.len() && d[s] < usize::MAX ==> d[s] <= reached(d) && exists|path: Seq<int>|
            is_walk(states, path) && path.last() == s && frames_of(states, path) == d[s]
}

/// No transition out of a state below `s`, nor one of the first `k` out of `s`, can improve a
/// distance.
spec fn relaxed(states: Seq<StateView>, d: Seq<usize>, s: int, k: int) -> bool {
    forall|a: int, j: int|
        #![trigger states[a].transitions[j]]
        0 <= a < states.len() && 0 <= j < states[a].transitions.len() && (a < s || (a == s && j < k))
            && d[a] < usize::MAX ==> d[states[a].transitions[j].0 as int] <= d[a] + emitted(
            states,
            states[a].transitions[j].0 as int,
        )
}

/// Once nothing can be improved, no walk is shorter than the distance of where it ends.
proof fn walks_are_no_shorter(states: Seq<StateView>, d: Seq<usize>, path: Seq<int>)
    requires
        is_walk(states, path),
        closed(states),
        d.len() == states.len(),
        relaxed(states, d, states.len() as int, 0),
        d[0] <= emitted(states, 0),
        forall|s: int| 0 <= s < d.len() && #[trigger] d[s] < usize::MAX ==> d[s] <= states.len(),
        states.len() + 1 < usize::MAX,
    ensures
        d[path.last()] < usize::MAX,
        d[path.last()] <= frames_of(states, path),
    decreases path.len(),
{
    reveal_with_fuel(frames_of, 2);
    if path.len() == 1 {
        assert(path.drop_last().len() == 0);
    } else {
        let front = path.drop_last();
        assert(is_walk(states, front)) by {
            assert forall|k: int| 0 < k < front.len() implies #[trigger] joined(
                states,
                front,
                k,
            ) by {
                assert(joined(states, path, k));
            }
        }
        walks_are_no_shorter(states, d, front);
        let a = front.last();
        assert(a == path[path.len() - 2]);
        assert(joined(states, path, path.len() - 1));
        assert(states[a].loops_at(path.last()));
        let j = choose|j: int|
            0 <= j < states[a].transitions.len() && (#[trigger] states[a].transitions[j]).0
                == path.last();
        assert(states[a].transitions[j].0 == path.last());
    }
}

impl HmmTopology {
    /// The default prototypes: one for the silence phones, one for the others. A group without
    /// phones gets no entry.
    pub fn mfa_default<F: Fn(FloatOp) -> u64>(
        silence_phones: &[PhoneId],
        other_phones: &[PhoneId],
        num_sil_states: usize,
        num_nonsil_states: usize,
        f: &F,
    ) -> (r: Self)
        requires
            is_evaluator(*f),
            silence_phones@.len() > 0 ==> 2 <= num_sil_states < i32::MAX,
            other_phones@.len() > 0 ==> 1 <= num_nonsil_states < i32::MAX,
        ensures
            r@.len() == (if silence_phones@.len() > 0 {
                1int
            } else {
                0
            }) + (if other_phones@.len() > 0 {
                1int
            } else {
                0
            }),
            silence_phones@.len() > 0 ==> {
                &&& r@[0].states == silence_prototype(num_sil_states as int, *f)
                &&& increasing(r@[0].phones)
                &&& forall|p: PhoneId| #[trigger]
                    r@[0].phones.contains(p) == silence_phones@.contains(p)
            },
            other_phones@.len() > 0 ==> {
                &&& r@.last().states == bakis_prototype(num_nonsil_states as int)
                &&& increasing(r@.last().phones)
                &&& forall|p: PhoneId| #[trigger]
                    r@.last().phones.contains(p) == other_phones@.contains(p)
            },
    {
        let mut entries: Vec<TopologyEntry> = Vec::new();
        if silence_phones.len() > 0 {
            entries.push(
                TopologyEntry {
                    phones: sorted_uniq(silence_phones),
                    states: silence_states(num_sil_states, f),
                },
            );
        }
        if other_phones.len() > 0 {
            entries.push(
                TopologyEntry {
                    phones: sorted_uniq(other_phones),
                    states: bakis_states(num_nonsil_states),
                },
            );
        }
        HmmTopology { entries }
    }

    /// The prototype of `p`, or none if no entry covers it.
    pub fn try_for_phone(&self, p: PhoneId) -> (r: Option<&[HmmState]>)
        ensures
            r is Some == covers(self@, p),
            r matches Some(states) ==> state_views(states@) == states_of(self@, p),
    {
        let mut i: usize = 0;
        while i < self.entries.len()
            invariant
                i <= self.entries@.len(),
                forall|j: int| 0 <= j < i ==> !(#[trigger] self@[j]).phones.contains(p),
            decreases self.entries.len() - i,
        {
            assert(self@[i as int] == self.entries@[i as int]@);
            if contains_phone(&self.entries[i].phones, p) {
                proof {
                    states_of_prefix(self@, p, i as int);
                }
                return Some(self.entries[i].states.as_slice());
            }
            i += 1;
        }
        None
    }

    /// The prototype of a covered phone.
    pub fn topology_for_phone(&self, p: PhoneId) -> (r: &[HmmState])
        requires
            covers(self@, p),
        ensures
            state_views(r@) == states_of(self@, p),
    {
        self.try_for_phone(p).unwrap()
    }

    /// How many pdf-classes a covered phone has: one more than the largest of its prototype.
    pub fn num_pdf_classes(&self, p: PhoneId) -> (r: usize)
        requires
            covers(self@, p),
        ensures
            r == classes_of(self@, p),
            1 <= r <= i32::MAX + 1,
    {
        let states = self.topology_for_phone(p);
        let ghost views = states_of(self@, p);
        let mut max: i32 = 0;
        let mut i: usize = 0;
        while i < states.len()
            invariant
                i <= states@.len(),
                views == state_views(states@),
                max >= 0,
                max == max_class(views.take(i as int)),
            decreases states.len() - i,
        {
            proof {
                assert(views.take(i + 1).drop_last() == views.take(i as int));
                assert(views.take(i + 1).last() == states@[i as int]@);
            }
            if states[i].pdf_class > max {
                max = states[i].pdf_class;
            }
            i += 1;
        }
        proof {
            assert(views.take(i as int) == views);
        }
        max as usize + 1
    }

    /// All covered phones, sorted and unique.
    pub fn phones(&self) -> (r: Vec<PhoneId>)
        ensures
            increasing(r@),
            forall|p: PhoneId| #[trigger] r@.contains(p) == covers(self@, p),
    {
        let mut out: Vec<PhoneId> = Vec::new();
        let mut i: usize = 0;
        while i < self.entries.len()
            invariant
                i <= self.entries@.len(),
                increasing(out@),
                forall|p: PhoneId| #[trigger]
                    out@.contains(p) == exists|e: int|
                        0 <= e < i && (#[trigger] self@[e]).phones.contains(p),
            decreases self.entries.len() - i,
        {
            let ghost before = out@;
            let phones = &self.entries[i].phones;
            assert(self@[i as int].phones == phones@);
            let mut j: usize = 0;
            while j < phones.len()
                invariant
                    j <= phones@.len(),
                    increasing(out@),
                    forall|p: PhoneId| #[trigger]
                        out@.contains(p) == (before.contains(p) || exists|k: int|
                            0 <= k < j && phones@[k] == p),
                decreases phones.len() - j,
            {
                let ghost mid = out@;
                insert(&mut out, phones[j]);
                proof {
                    assert forall|p: PhoneId| #[trigger]
                        out@.contains(p) == (before.contains(p) || exists|k: int|
                            0 <= k < j + 1 && phones@[k] == p) by {
                        assert(mid.contains(p) == (before.contains(p) || exists|k: int|
                            0 <= k < j && phones@[k] == p));
                        if p == phones@[j as int] {
                            assert(phones@[j as int] == p);
                        }
                    }
                }
                j += 1;
            }
            proof {
                assert forall|p: PhoneId| #[trigger]
                    out@.contains(p) == exists|e: int|
                        0 <= e < i + 1 && (#[trigger] self@[e]).phones.contains(p) by {
                    if out@.contains(p) {
                        if before.contains(p) {
                            let e = choose|e: int|
                                0 <= e < i && (#[trigger] self@[e]).phones.contains(p);
                            assert(self@[e].phones.contains(p));
                        } else {
                            assert(self@[i as int].phones.contains(p));
                        }
                    }
                    if exists|e: int| 0 <= e < i + 1 && (#[trigger] self@[e]).phones.contains(p) {
                        let e = choose|e: int|
                            0 <= e < i + 1 && (#[trigger] self@[e]).phones.contains(p);
                        if e < i {
                            assert(before.contains(p));
                        }
                    }
                }
            }
            i += 1;
        }
        out
    }

    /// The fewest frames that a covered phone can take: the emitting states of a shortest walk
    /// from the first state to the last, or `usize::MAX` if there is no walk.
    pub fn min_length(&self, p: PhoneId) -> (r: usize)
        requires
            covers(self@, p),
            0 < states_of(self@, p).len() < usize::MAX - 1,
            closed(states_of(self@, p)),
        ensures
            r == usize::MAX ==> forall|path: Seq<int>| #[trigger]
                is_walk(states_of(self@, p), path) ==> path.last() != states_of(self@, p).len() - 1,
            r < usize::MAX ==> exists|path: Seq<int>| #[trigger]
                is_walk(states_of(self@, p), path) && path.last() == states_of(self@, p).len() - 1
                    && frames_of(states_of(self@, p), path) == r,
            forall|path: Seq<int>| #[trigger]
                is_walk(states_of(self@, p), path) && path.last() == states_of(self@, p).len() - 1
                    ==> r <= frames_of(states_of(self@, p), path),
    {
        let entry = self.topology_for_phone(p);
        let ghost states = states_of(self@, p);
        let n: usize = entry.len();
        let mut d: Vec<usize> = Vec::new();
        let mut i: usize = 0;
        while i < n
            invariant
                i <= n,
                d@.len() == i,
                forall|k: int| 0 <= k < i ==> d@[k] == usize::MAX,
                reached(d@) == 0,
            decreases n - i,
        {
            let ghost before = d@;
            d.push(usize::MAX);
            assert(d@.drop_last() == before);
            i += 1;
        }
        let first: usize = if entry[0].is_emitting() {
            1
        } else {
            0
        };
        let ghost blank = d@;
        d.set(0, first);
        proof {
            assert(entry@[0]@ == states[0]);
            update_tables(blank, 0, first);
            let path = seq![0int];
            reveal_with_fuel(frames_of, 2);
            assert(path.drop_last().len() == 0);
            assert(is_walk(states, path));
            assert(path.last() == 0 && frames_of(states, path) == d@[0]);
            assert(witnessed(states, d@));
        }
        let mut changed: bool = true;
        while changed
            invariant
                n == states.len(),
                0 < n < usize::MAX - 1,
                states == state_views(entry@),
                entry@.len() == n,
                d@.len() == n,
                closed(states),
                witnessed(states, d@),
                d@[0] <= emitted(states, 0),
                !changed ==> relaxed(states, d@, n as int, 0),
            decreases total(d@), (if changed { 1nat } else { 0nat }),
        {
            changed = false;
            let ghost start = d@;
            let mut s: usize = 0;
            while s < n
                invariant
                    s <= n,
                    n == states.len(),
                    states == state_views(entry@),
                    entry@.len() == n,
                    d@.len() == n,
                    closed(states),
                    witnessed(states, d@),
                    d@[0] <= emitted(states, 0),
                    !changed ==> d@ == start && relaxed(states, d@, s as int, 0),
                    changed ==> total(d@) < total(start),
                decreases n - s,
            {
                assert(entry@[s as int]@ == states[s as int]);
                if d[s] != usize::MAX {
                    let transitions = &entry[s].transitions;
                    assert(states[s as int].transitions == transitions@);
                    let mut k: usize = 0;
                    while k < transitions.len()
                        invariant
                            s < n,
                            k <= transitions@.len(),
                            n == states.len(),
                            states == state_views(entry@),
                            entry@.len() == n,
                            states[s as int].transitions == transitions@,
                            d@.len() == n,
                            d@[s as int] < usize::MAX,
                            closed(states),
                            witnessed(states, d@),
                            d@[0] <= emitted(states, 0),
                            !changed ==> d@ == start && relaxed(states, d@, s as int, k as int),
                            changed ==> total(d@) < total(start),
                        decreases transitions.len() - k,
                    {
                        let next: usize = transitions[k].0;
                        assert(states[s as int].transitions[k as int].0 == next);
                        assert(entry@[next as int]@ == states[next as int]);
                        let step: usize = if entry[next].is_emitting() {
                            1
                        } else {
                            0
                        };
                        proof {
                            reached_is_bounded(d@);
                            assert(d@[s as int] <= reached(d@));
                        }
                        let ghost table = d@;
                        if next != s && d[s] < d[next] && d[next] - d[s] > step {
                            let cand: usize = d[s] + step;
                            d.set(next, cand);
                            proof {
                                update_tables(table, next as int, cand);
                                let path = choose|path: Seq<int>|
                                    is_walk(states, path) && path.last() == s && frames_of(
                                        states,
                                        path,
                                    ) == table[s as int];
                                let longer = path.push(next as int);
                                assert(longer.drop_last() == path);
                                assert(is_walk(states, longer)) by {
                                    assert forall|j: int| 0 < j < longer.len() implies #[trigger] joined(
                                        states,
                                        longer,
                                        j,
                                    ) by {
                                        if j < path.len() {
                                            assert(joined(states, path, j));
                                        } else {
                                            assert(longer[j - 1] == path.last());
                                        }
                                    }
                                }
                                assert(longer.last() == next && frames_of(states, longer)
                                    == d@[next as int]);
                                assert forall|x: int|
                                    #![trigger d@[x]]
                                    0 <= x < d@.len() && d@[x] < usize::MAX implies d@[x] <= reached(
                                    d@,
                                ) && exists|q: Seq<int>|
                                    is_walk(states, q) && q.last() == x && frames_of(states, q)
                                        == d@[x] by {
                                    if x != next {
                                        assert(table[x] == d@[x]);
                                    }
                                }
                            }
                            changed = true;
                        }
                        k += 1;
                    }
                }
                s += 1;
            }
        }
        proof {
            reached_is_bounded(d@);
            assert forall|path: Seq<int>| #[trigger]
                is_walk(states, path) && path.last() == n - 1 implies d@[n - 1] < usize::MAX && d@[n
                - 1] <= frames_of(states, path) by {
                walks_are_no_shorter(states, d@, path);
            }
        }
        d[n - 1]
    }

    /// The pdf-class count of every phone, indexed by phone; a phone that is not covered has 0.
    pub fn phone_to_num_pdf_classes(&self) -> (r: Vec<usize>)
        ensures
            forall|p: PhoneId| covers(self@, p) ==> p < r@.len(),
            forall|i: int|
                0 <= i < r@.len() ==> #[trigger] r@[i] == (if i <= u32::MAX && covers(
                    self@,
                    i as u32,
                ) {
                    classes_of(self@, i as u32)
                } else {
                    0
                }),
            r@.len() > 0,
            r@.len() > 1 ==> covers(self@, (r@.len() - 1) as u32),
    {
        let phones = self.phones();
        let max: u32 = if phones.len() > 0 {
            phones[phones.len() - 1]
        } else {
            0
        };
        proof {
            assert forall|p: PhoneId| covers(self@, p) implies p <= max by {
                assert(phones@.contains(p));
                let k = choose|k: int| 0 <= k < phones@.len() && phones@[k] == p;
                if k < phones@.len() - 1 {
                    assert(phones@[k].before(phones@[phones@.len() - 1]));
                }
            }
            if max > 0 {
                assert(phones@.contains(max));
            }
        }
        let mut v: Vec<usize> = Vec::new();
        let mut i: u32 = 0;
        loop
            invariant_except_break
                v@.len() == i,
            invariant
                i <= max,
                increasing(phones@),
                forall|p: PhoneId| #[trigger] phones@.contains(p) == covers(self@, p),
                forall|k: int|
                    0 <= k < v@.len() ==> #[trigger] v@[k] == (if covers(self@, k as u32) {
                        classes_of(self@, k as u32)
                    } else {
                        0
                    }),
            ensures
                v@.len() == max + 1,
                forall|k: int|
                    0 <= k < v@.len() ==> #[trigger] v@[k] == (if covers(self@, k as u32) {
                        classes_of(self@, k as u32)
                    } else {
                        0
                    }),
            decreases max - i,
        {
            let count: usize = if search(&phones, &i).is_some() {
                assert(phones@.contains(i));
                self.num_pdf_classes(i)
            } else {
                assert(!phones@.contains(i));
                0
            };
            v.push(count);
            if i == max {
                break;
            }
            i += 1;
        }
        v
    }

    /// Check every entry: at least two states, the last of them final and emitting nothing, every
    /// emitting state with transitions that stay inside the entry, have positive probabilities
    /// and sum to one, and pdf-classes that are contiguous from zero.
    pub fn check<F: Fn(FloatOp) -> u64>(&self, f: &F) -> (r: Result<(), TopologyFault>)
        requires
            is_evaluator(*f),
        ensures
            r is Ok == (topology_fault(self@, 0, *f) is None),
            r matches Err(fault) ==> topology_fault(self@, 0, *f) == Some(fault),
    {
        let mut e: usize = 0;
        while e < self.entries.len()
            invariant
                is_evaluator(*f),
                e <= self.entries@.len(),
                topology_fault(self@, 0, *f) == topology_fault(self@, e as int, *f),
            decreases self.entries.len() - e,
        {
            assert(self@[e as int].states == state_views(self.entries@[e as int].states@));
            match check_entry(&self.entries[e].states, f) {
                Some(fault) => {
                    return Err(fault);
                },
                None => {},
            }
            e += 1;
        }
        Ok(())
    }
}

/// The fault of one entry.
#[verifier::loop_isolation(false)]
fn check_entry<F: Fn(FloatOp) -> u64>(states: &Vec<HmmState>, f: &F) -> (r: Option<TopologyFault>)
    requires
        is_evaluator(*f),
    ensures
        r == entry_fault(state_views(states@), *f),
{
    let ghost views = state_views(states@);
    let n: usize = states.len();
    if n < 2 {
        return Some(TopologyFault::TooFewStates);
    }
    assert(views.last() == states@[n - 1]@);
    if states[n - 1].is_emitting() || states[n - 1].transitions.len() > 0 {
        return Some(TopologyFault::LastStateNotFinal);
    }
    let mut seen: Vec<bool> = Vec::new();
    let mut k: usize = 0;
    while k < n
        invariant
            k <= n,
            seen@.len() == k,
            forall|c: int| 0 <= c < k ==> !seen@[c],
        decreases n - k,
    {
        seen.push(false);
        k += 1;
    }
    let mut i: usize = 0;
    while i < n - 1
        invariant
            is_evaluator(*f),
            n == states@.len(),
            2 <= n,
            i <= n - 1,
            views == state_views(states@),
            seen@.len() == n,
            states_fault(views, 0, *f) == states_fault(views, i as int, *f),
            forall|j: int| 0 <= j < i && (#[trigger] views[j]).emits() ==> 0 <= views[j].pdf_class < n,
            forall|c: int|
                0 <= c < n ==> #[trigger] seen@[c] == exists|j: int|
                    0 <= j < i && (#[trigger] views[j]).pdf_class == c,
        decreases n - i,
    {
        assert(views[i as int] == states@[i as int]@);
        let st = &states[i];
        if st.is_emitting() {
            if st.pdf_class < 0 || st.pdf_class as usize >= n {
                return Some(TopologyFault::ClassOutOfRange { class: st.pdf_class });
            }
            let c: usize = st.pdf_class as usize;
            let ghost old_seen = seen@;
            seen.set(c, true);
            proof {
                assert forall|d: int| 0 <= d < n implies #[trigger] seen@[d] == exists|j: int|
                    0 <= j < i + 1 && (#[trigger] views[j]).pdf_class == d by {
                    if d == c {
                        assert(views[i as int].pdf_class == d);
                    } else {
                        assert(old_seen[d] == seen@[d]);
                    }
                }
            }
            if st.transitions.len() == 0 {
                return Some(TopologyFault::NoTransitions { state: i });
            }
            match check_transitions(&st.transitions, i, n, f) {
                Some(fault) => {
                    return Some(fault);
                },
                None => {},
            }
        } else {
            proof {
                assert forall|d: int| 0 <= d < n implies #[trigger] seen@[d] == exists|j: int|
                    0 <= j < i + 1 && (#[trigger] views[j]).pdf_class == d by {
                    assert(views[i as int].pdf_class == NO_PDF);
                }
            }
        }
        i += 1;
    }
    let mut used: usize = 0;
    while used < n && seen[used]
        invariant
            used <= n,
            n == seen@.len(),
            forall|c: int| 0 <= c < used ==> seen@[c],
        decreases n - used,
    {
        used += 1;
    }
    let mut c: usize = used;
    while c < n
        invariant
            used <= c <= n,
            n == seen@.len(),
            n == states@.len(),
            views == state_views(states@),
            2 <= n,
            used < n ==> !seen@[used as int],
            forall|d: int| used <= d < c ==> !seen@[d],
            entry_fault(views, *f) == (if classes_contiguous(views) {
                None::<TopologyFault>
            } else {
                Some(TopologyFault::ClassesNotContiguous)
            }),
            forall|d: int|
                0 <= d < n ==> #[trigger] seen@[d] == exists|j: int|
                    0 <= j < n - 1 && (#[trigger] views[j]).pdf_class == d,
        decreases n - c,
    {
        if seen[c] {
            proof {
                assert(has_class(views, c as int));
                assert(!has_class(views, used as int)) by {
                    assert(!seen@[used as int]);
                }
                assert(!classes_contiguous(views));
            }
            return Some(TopologyFault::ClassesNotContiguous);
        }
        c += 1;
    }
    proof {
        assert(classes_contiguous(views)) by {
            assert forall|a: int, d: int|
                0 <= d < a && #[trigger] has_class(views, a) implies #[trigger] has_class(
                views,
                d,
            ) by {
                let j = choose|j: int| 0 <= j < views.len() - 1 && (#[trigger] views[j]).pdf_class == a;
                assert(views[j].emits());
                assert(seen@[a]);
                assert(a < used);
                assert(seen@[d]);
            }
        }
    }
    None
}

/// The fault among the transitions of the emitting state `i`.
#[verifier::loop_isolation(false)]
fn check_transitions<F: Fn(FloatOp) -> u64>(
    transitions: &Vec<(usize, u32)>,
    i: usize,
    n: usize,
    f: &F,
) -> (r: Option<TopologyFault>)
    requires
        is_evaluator(*f),
    ensures
        r == ({
            let sum = probability_sum(transitions@, transitions@.len() as int, *f);
            if less(SUM_TOLERANCE, magnitude(value(*f, FloatOp::Sub(sum, ONE)))) {
                Some(TopologyFault::BadSum { state: i, sum })
            } else {
                transition_fault(transitions@, n as int, 0)
            }
        }),
{
    let mut sum: u32 = ZERO;
    let mut k: usize = 0;
    while k < transitions.len()
        invariant
            is_evaluator(*f),
            k <= transitions@.len(),
            sum == probability_sum(transitions@, k as int, *f),
        decreases transitions.len() - k,
    {
        sum = eval(f, FloatOp::Add(sum, transitions[k].1));
        k += 1;
    }
    if lt(SUM_TOLERANCE, abs(eval(f, FloatOp::Sub(sum, ONE)))) {
        return Some(TopologyFault::BadSum { state: i, sum });
    }
    let mut t: usize = 0;
    while t < transitions.len()
        invariant
            t <= transitions@.len(),
            transition_fault(transitions@, n as int, 0) == transition_fault(
                transitions@,
                n as int,
                t as int,
            ),
        decreases transitions.len() - t,
    {
        if transitions[t].0 >= n {
            return Some(TopologyFault::DestinationOutOfRange { dest: transitions[t].0 });
        }
        if le(transitions[t].1, ZERO) {
            return Some(TopologyFault::NonPositiveProbability);
        }
        t += 1;
    }
    None
}

/// The two prototypes have the same states, class by class and transition by transition; the
/// probabilities are compared as numbers.
pub open spec fn same_prototype(a: Seq<StateView>, b: Seq<StateView>) -> bool {
    &&& a.len() == b.len()
    &&& forall|i: int| 0 <= i < a.len() ==> #[trigger] same_state(a[i], b[i])
}

pub open spec fn same_state(a: StateView, b: StateView) -> bool {
    &&& a.pdf_class == b.pdf_class
    &&& a.transitions.len() == b.transitions.len()
    &&& forall|k: int|
        0 <= k < a.transitions.len() ==> (#[trigger] a.transitions[k]).0 == b.transitions[k].0
            && same(a.transitions[k].1, b.transitions[k].1)
}

/// Compare two prototypes.
#[verifier::loop_isolation(false)]
pub fn prototypes_agree(a: &[HmmState], b: &[HmmState]) -> (r: bool)
    ensures
        r == same_prototype(state_views(a@), state_views(b@)),
{
    let ghost va = state_views(a@);
    let ghost vb = state_views(b@);
    if a.len() != b.len() {
        return false;
    }
    let mut i: usize = 0;
    while i < a.len()
        invariant
            i <= a@.len(),
            a@.len() == b@.len(),
            va == state_views(a@),
            vb == state_views(b@),
            forall|j: int| 0 <= j < i ==> #[trigger] same_state(va[j], vb[j]),
        decreases a.len() - i,
    {
        assert(va[i as int] == a@[i as int]@ && vb[i as int] == b@[i as int]@);
        let x = &a[i];
        let y = &b[i];
        if x.pdf_class != y.pdf_class || x.transitions.len() != y.transitions.len() {
            assert(!same_state(va[i as int], vb[i as int]));
            return false;
        }
        let mut k: usize = 0;
        while k < x.transitions.len()
            invariant
                k <= x.transitions@.len(),
                x.transitions@.len() == y.transitions@.len(),
                i < a@.len(),
                va.len() == a@.len(),
                vb.len() == a@.len(),
                va[i as int] == x@,
                vb[i as int] == y@,
                forall|j: int|
                    0 <= j < k ==> (#[trigger] x@.transitions[j]).0 == y@.transitions[j].0 && same(
                        x@.transitions[j].1,
                        y@.transitions[j].1,
                    ),
            decreases x.transitions.len() - k,
        {
            if x.transitions[k].0 != y.transitions[k].0 || !eq(
                x.transitions[k].1,
                y.transitions[k].1,
            ) {
                assert(x@.transitions[k as int] == x.transitions@[k as int]);
                assert(!same_state(va[i as int], vb[i as int]));
                return false;
            }
            k += 1;
        }
        i += 1;
    }
    true
}

} // verus!
