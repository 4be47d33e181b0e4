//! Self-loops in the reordered form, and the splitting of states that they need.
//!
//! The self-loop of a transition state stands on the graph state that its forward arcs enter. That
//! makes sense only where all arcs that enter a state have the same transition state, so a state
//! that several classes of arcs enter is split first: one copy for each class. The class of an arc
//! is its transition state, or none for an epsilon arc.

use vstd::prelude::*;

use crate::align::viterbi::{ends_at, is_path};
use crate::float::ZERO;
use crate::hmm::graph::{
    arc_fits, arcs_fit, arcs_of, final_cost_of, Arc, Graph, GraphState, GraphView, NO_PRON, NO_WORD,
};
use crate::hmm::transition::{id_count, self_loops_loop, ModelView, TransitionModel};
use crate::types::TransitionId;

verus! {

/// The class of an arc.
pub open spec fn class_of(m: ModelView, tid: TransitionId) -> Option<u32> {
    if tid == 0 {
        None
    } else {
        Some(m.owner(tid as int) as u32)
    }
}

/// `classes` with `c` at its end, unless it is in there.
pub open spec fn noted(classes: Seq<Option<u32>>, c: Option<u32>) -> Seq<Option<u32>> {
    if classes.contains(c) {
        classes
    } else {
        classes.push(c)
    }
}

/// `classes` and those of the first `k` of these arcs that enter `d`, in order of appearance.
pub open spec fn noted_arcs(
    classes: Seq<Option<u32>>,
    arcs: Seq<Arc>,
    d: int,
    m: ModelView,
    k: int,
) -> Seq<Option<u32>>
    decreases k,
{
    if k <= 0 {
        classes
    } else {
        let rest = noted_arcs(classes, arcs, d, m, k - 1);
        if arcs[k - 1].next == d {
            noted(rest, class_of(m, arcs[k - 1].tid))
        } else {
            rest
        }
    }
}

/// The classes of the arcs out of the first `s` states that enter `d`, in order of appearance.
pub open spec fn classes_upto(states: Seq<Seq<Arc>>, d: int, m: ModelView, s: int) -> Seq<
    Option<u32>,
>
    decreases s,
{
    if s <= 0 {
        Seq::empty()
    } else {
        noted_arcs(
            classes_upto(states, d, m, s - 1),
            states[s - 1],
            d,
            m,
            states[s - 1].len() as int,
        )
    }
}

/// The classes of the arcs that enter `d`, in order of appearance.
pub open spec fn classes_into(states: Seq<Seq<Arc>>, d: int, m: ModelView) -> Seq<Option<u32>> {
    classes_upto(states, d, m, states.len() as int)
}

/// The classes that need a copy of `d`: all but the first.
pub open spec fn extra_classes(states: Seq<Seq<Arc>>, d: int, m: ModelView) -> Seq<Option<u32>> {
    let all = classes_into(states, d, m);
    if all.len() <= 1 {
        Seq::empty()
    } else {
        all.skip(1)
    }
}

/// What the copies of the first `s` states are copies of.
pub open spec fn copied(states: Seq<Seq<Arc>>, m: ModelView, s: int) -> Seq<int>
    decreases s,
{
    if s <= 0 {
        Seq::empty()
    } else {
        copied(states, m, s - 1) + Seq::new(
            extra_classes(states, s - 1, m).len(),
            |i: int| s - 1,
        )
    }
}

/// The classes that the copies of the first `s` states are for.
pub open spec fn copied_classes(states: Seq<Seq<Arc>>, m: ModelView, s: int) -> Seq<Option<u32>>
    decreases s,
{
    if s <= 0 {
        Seq::empty()
    } else {
        copied_classes(states, m, s - 1) + extra_classes(states, s - 1, m)
    }
}

/// The number of the first copy of `d`.
pub open spec fn first_copy(states: Seq<Seq<Arc>>, m: ModelView, d: int) -> int {
    states.len() as int + copied(states, m, d).len()
}

/// Where an arc to `d` of class `c` leads after the splitting: to `d` itself for the first class,
/// to its copy for every other.
pub open spec fn target(states: Seq<Seq<Arc>>, m: ModelView, d: u32, c: Option<u32>) -> u32 {
    let all = classes_into(states, d as int, m);
    let i = all.index_of(c);
    if all.len() <= 1 || i == 0 {
        d
    } else {
        (first_copy(states, m, d as int) + i - 1) as u32
    }
}

/// The arc as it leads after the splitting.
pub open spec fn redirected(states: Seq<Seq<Arc>>, m: ModelView, a: Arc) -> Arc {
    Arc { next: target(states, m, a.next, class_of(m, a.tid)), ..a }
}

/// What state `j` of the split graph was before.
pub open spec fn source(states: Seq<Seq<Arc>>, m: ModelView, j: int) -> int {
    if j < states.len() {
        j
    } else {
        copied(states, m, states.len() as int)[j - states.len()]
    }
}

/// How many states there are after the splitting.
pub open spec fn split_len(states: Seq<Seq<Arc>>, m: ModelView) -> nat {
    states.len() + copied(states, m, states.len() as int).len()
}

/// The states after the splitting: the old ones and the copies, with every arc redirected.
pub open spec fn split(states: Seq<Seq<Arc>>, m: ModelView) -> Seq<Seq<Arc>> {
    Seq::new(
        split_len(states, m),
        |j: int| redirected_all(states, m, states[source(states, m, j)]),
    )
}

/// The arcs as they lead after the splitting.
pub open spec fn redirected_all(states: Seq<Seq<Arc>>, m: ModelView, arcs: Seq<Arc>) -> Seq<Arc> {
    Seq::new(arcs.len(), |k: int| redirected(states, m, arcs[k]))
}

/// The class of the arcs that enter each state after the splitting, none where no arc does.
pub open spec fn entered(states: Seq<Seq<Arc>>, m: ModelView) -> Seq<Option<u32>> {
    Seq::new(
        states.len(),
        |d: int|
            if classes_into(states, d, m).len() > 0 {
                classes_into(states, d, m)[0]
            } else {
                None
            },
    ) + copied_classes(states, m, states.len() as int)
}

/// The final states with the copies of the first `s` states: a copy ends as what it is a copy of.
pub open spec fn split_finals(
    finals: Seq<(u32, u32)>,
    states: Seq<Seq<Arc>>,
    m: ModelView,
    s: int,
) -> Seq<(u32, u32)>
    decreases s,
{
    if s <= 0 {
        finals
    } else {
        split_finals(finals, states, m, s - 1) + match final_cost_of(finals, (s - 1) as u32) {
            Some(c) => Seq::new(
                extra_classes(states, s - 1, m).len(),
                |i: int| ((first_copy(states, m, s - 1) + i) as u32, c),
            ),
            None => Seq::empty(),
        }
    }
}

/// The self-loop arc of state `s`, if the transition state that enters it has one.
pub open spec fn loop_arc(entered: Option<u32>, s: int, m: ModelView) -> Seq<Arc> {
    match entered {
        Some(ts) => match m.loop_of(ts as int) {
            Some(t) => seq![
                Arc { tid: t, word: NO_WORD, pron: NO_PRON, next: s as u32, cost: ZERO, lm: ZERO },
            ],
            None => Seq::empty(),
        },
        None => Seq::empty(),
    }
}

/// The graph with its states split and the self-loops added, nothing costed yet.
pub open spec fn self_looped(g: GraphView, m: ModelView) -> GraphView {
    let states = split(g.states, m);
    let state_in = entered(g.states, m);
    let finals = split_finals(g.finals, g.states, m, g.states.len() as int);
    GraphView {
        states: Seq::new(states.len(), |s: int| states[s] + loop_arc(state_in[s], s, m)),
        finals,
        finals_lm: Seq::new(finals.len(), |i: int| finals[i].1),
        state_in,
    }
}

proof fn noting_keeps(
    classes: Seq<Option<u32>>,
    arcs: Seq<Arc>,
    d: int,
    m: ModelView,
    k: int,
    c: Option<u32>,
)
    requires
        0 <= k <= arcs.len(),
        classes.no_duplicates(),
    ensures
        noted_arcs(classes, arcs, d, m, k).no_duplicates(),
        classes.contains(c) ==> noted_arcs(classes, arcs, d, m, k).contains(c),
        noted_arcs(classes, arcs, d, m, k).contains(c) ==> classes.contains(c) || exists|j: int|
            0 <= j < k && (#[trigger] arcs[j]).next == d && class_of(m, arcs[j].tid) == c,
    decreases k,
{
    if k > 0 {
        noting_keeps(classes, arcs, d, m, k - 1, c);
        let rest = noted_arcs(classes, arcs, d, m, k - 1);
        let here = class_of(m, arcs[k - 1].tid);
        if arcs[k - 1].next == d && !rest.contains(here) {
            let all = rest.push(here);
            if rest.contains(c) {
                let i = choose|i: int| 0 <= i < rest.len() && rest[i] == c;
                assert(all[i] == c);
            }
            if all.contains(c) && !rest.contains(c) {
                let i = choose|i: int| 0 <= i < all.len() && all[i] == c;
                if i < rest.len() {
                    assert(rest[i] == c);
                }
                assert(arcs[k - 1].next == d && class_of(m, arcs[k - 1].tid) == c);
            }
        }
    }
}

/// The class of an arc is among those noted.
proof fn arc_is_noted(
    classes: Seq<Option<u32>>,
    arcs: Seq<Arc>,
    d: int,
    m: ModelView,
    k: int,
    j: int,
)
    requires
        0 <= j < k <= arcs.len(),
        arcs[j].next == d,
        classes.no_duplicates(),
    ensures
        noted_arcs(classes, arcs, d, m, k).contains(class_of(m, arcs[j].tid)),
    decreases k,
{
    let c = class_of(m, arcs[j].tid);
    let rest = noted_arcs(classes, arcs, d, m, k - 1);
    if j < k - 1 {
        arc_is_noted(classes, arcs, d, m, k - 1, j);
        let here = class_of(m, arcs[k - 1].tid);
        if arcs[k - 1].next == d && !rest.contains(here) {
            let i = choose|i: int| 0 <= i < rest.len() && rest[i] == c;
            assert(rest.push(here)[i] == c);
        }
    } else if !rest.contains(c) {
        assert(rest.push(c)[rest.len() as int] == c);
    }
}

proof fn classes_facts(states: Seq<Seq<Arc>>, d: int, m: ModelView, s: int, c: Option<u32>)
    requires
        0 <= s <= states.len(),
    ensures
        classes_upto(states, d, m, s).no_duplicates(),
        classes_upto(states, d, m, s).contains(c) ==> exists|i: int, k: int|
            0 <= i < s && 0 <= k < states[i].len() && (#[trigger] states[i][k]).next == d && class_of(
                m,
                states[i][k].tid,
            ) == c,
    decreases s,
{
    if s > 0 {
        classes_facts(states, d, m, s - 1, c);
        noting_keeps(
            classes_upto(states, d, m, s - 1),
            states[s - 1],
            d,
            m,
            states[s - 1].len() as int,
            c,
        );
    }
}

/// The class of an arc out of one of the first `s` states is among those of its destination.
proof fn class_is_listed(states: Seq<Seq<Arc>>, m: ModelView, s: int, i: int, k: int)
    requires
        0 <= i < s <= states.len(),
        0 <= k < states[i].len(),
    ensures
        classes_upto(states, states[i][k].next as int, m, s).contains(
            class_of(m, states[i][k].tid),
        ),
    decreases s,
{
    let d = states[i][k].next as int;
    let c = class_of(m, states[i][k].tid);
    classes_facts(states, d, m, s - 1, c);
    let before = classes_upto(states, d, m, s - 1);
    let arcs = states[s - 1];
    if i < s - 1 {
        class_is_listed(states, m, s - 1, i, k);
        noting_keeps(before, arcs, d, m, arcs.len() as int, c);
    } else {
        arc_is_noted(before, arcs, d, m, arcs.len() as int, k);
    }
}

/// The copies of a state follow each other, one for each of its extra classes.
proof fn copies_are_placed(states: Seq<Seq<Arc>>, m: ModelView, s: int, d: int)
    requires
        0 <= d < s,
    ensures
        copied(states, m, s).len() == copied_classes(states, m, s).len(),
        copied(states, m, d).len() + extra_classes(states, d, m).len() <= copied(states, m, s).len(),
        forall|i: int|
            0 <= i < extra_classes(states, d, m).len() ==> #[trigger] copied_classes(states, m, s)[copied(
                states,
                m,
                d,
            ).len() + i] == extra_classes(states, d, m)[i] && copied(states, m, s)[copied(
                states,
                m,
                d,
            ).len() + i] == d,
    decreases s,
{
    same_count(states, m, s - 1);
    same_count(states, m, d);
    if d < s - 1 {
        copies_are_placed(states, m, s - 1, d);
    }
}

proof fn same_count(states: Seq<Seq<Arc>>, m: ModelView, s: int)
    ensures
        copied(states, m, s).len() == copied_classes(states, m, s).len(),
    decreases s,
{
    if s > 0 {
        same_count(states, m, s - 1);
    }
}

/// A copy is a copy of one of the states.
pub proof fn sources_exist(states: Seq<Seq<Arc>>, m: ModelView, s: int)
    requires
        0 <= s,
    ensures
        forall|i: int|
            0 <= i < copied(states, m, s).len() ==> 0 <= #[trigger] copied(states, m, s)[i] < s,
    decreases s,
{
    if s > 0 {
        sources_exist(states, m, s - 1);
        let before = copied(states, m, s - 1);
        assert forall|i: int| 0 <= i < copied(states, m, s).len() implies 0 <= #[trigger] copied(
            states,
            m,
            s,
        )[i] < s by {
            if i < before.len() {
                assert(copied(states, m, s)[i] == before[i]);
            }
        }
    }
}

/// Where an arc leads after the splitting: inside of the graph, and to a state of its class.
pub(crate) proof fn target_is_of_the_class(states: Seq<Seq<Arc>>, m: ModelView, s: int, k: int)
    requires
        arcs_fit(states, m),
        split_len(states, m) <= u32::MAX + 1,
        0 <= s < states.len(),
        0 <= k < states[s].len(),
    ensures
        redirected(states, m, states[s][k]).next < split_len(states, m),
        entered(states, m)[redirected(states, m, states[s][k]).next as int] == class_of(
            m,
            states[s][k].tid,
        ),
        source(states, m, redirected(states, m, states[s][k]).next as int) == states[s][k].next,
{
    let a = states[s][k];
    let n = states.len() as int;
    let d = a.next as int;
    let c = class_of(m, a.tid);
    let all = classes_into(states, d, m);
    assert(arc_fits(a, n, m));
    class_is_listed(states, m, n, s, k);
    classes_facts(states, d, m, n, c);
    let i = all.index_of(c);
    assert(0 <= i < all.len() && all[i] == c);
    same_count(states, m, n);
    copies_are_placed(states, m, n, d);
    if all.len() > 1 && i > 0 {
        let j = copied(states, m, d).len() + (i - 1);
        assert(extra_classes(states, d, m)[i - 1] == c);
        assert(copied_classes(states, m, n)[j] == extra_classes(states, d, m)[i - 1]);
        assert(first_copy(states, m, d) + i - 1 == n + j);
        assert(copied(states, m, n)[j] == d);
    }
}

/// After the splitting every state is entered by arcs of one class only, the recorded one.
pub proof fn one_class_enters_a_state(states: Seq<Seq<Arc>>, m: ModelView, s: int, k: int)
    requires
        arcs_fit(states, m),
        split_len(states, m) <= u32::MAX + 1,
        0 <= s < split(states, m).len(),
        0 <= k < split(states, m)[s].len(),
    ensures
        split(states, m)[s][k].next < split(states, m).len(),
        entered(states, m).len() == split(states, m).len(),
        entered(states, m)[split(states, m)[s][k].next as int] == class_of(
            m,
            split(states, m)[s][k].tid,
        ),
{
    let from = source(states, m, s);
    sources_exist(states, m, states.len() as int);
    same_count(states, m, states.len() as int);
    assert(split(states, m)[s] == redirected_all(states, m, states[from]));
    target_is_of_the_class(states, m, from, k);
}

/// A class that is recorded for a state is that of some arc that enters it.
pub proof fn recorded_class_enters(states: Seq<Seq<Arc>>, m: ModelView, j: int)
    requires
        arcs_fit(states, m),
        split_len(states, m) <= u32::MAX + 1,
        0 <= j < split(states, m).len(),
        entered(states, m)[j] is Some,
    ensures
        exists|s: int, k: int|
            0 <= s < split(states, m).len() && 0 <= k < split(states, m)[s].len() && (
            #[trigger] split(states, m)[s][k]).next == j && class_of(m, split(states, m)[s][k].tid)
                == entered(states, m)[j],
{
    let n = states.len() as int;
    let c = entered(states, m)[j];
    same_count(states, m, n);
    let (d, i) = if j < n {
        (j, 0int)
    } else {
        copy_is_of(states, m, n, j - n)
    };
    let all = classes_into(states, d, m);
    classes_facts(states, d, m, n, c);
    assert(all[i] == c);
    assert(all.contains(c));
    let (s, k) = choose|s: int, k: int|
        0 <= s < n && 0 <= k < states[s].len() && (#[trigger] states[s][k]).next == d && class_of(
            m,
            states[s][k].tid,
        ) == c;
    assert(all.index_of(c) == i);
    copies_are_placed(states, m, n, d);
    assert(split(states, m)[s] == redirected_all(states, m, states[s]));
    assert(split(states, m)[s][k].next == j);
}

/// The self-loop that a state gets leads back to it, and belongs to the transition state of the arcs
/// that enter it.
pub proof fn loop_belongs_to_what_enters(g: GraphView, m: ModelView, s: int)
    requires
        arcs_fit(g.states, m),
        split_len(g.states, m) <= u32::MAX,
        id_count(m.topo, m.tuples) < u32::MAX,
        0 <= s < split(g.states, m).len(),
        entered(g.states, m)[s] matches Some(ts) ==> m.has_state(ts as int),
    ensures
        forall|a: Arc| #[trigger]
            loop_arc(entered(g.states, m)[s], s, m).contains(a) ==> a.next == s && m.loops(
                a.tid as int,
            ) && class_of(m, a.tid) == entered(g.states, m)[s] && a.word == NO_WORD,
{
    assert forall|a: Arc| #[trigger]
        loop_arc(entered(g.states, m)[s], s, m).contains(a) implies a.next == s && m.loops(
        a.tid as int,
    ) && class_of(m, a.tid) == entered(g.states, m)[s] && a.word == NO_WORD by {
        let ts = entered(g.states, m)[s]->0;
        self_loops_loop(m, ts as int);
    }
}

/// The state and the class that copy number `i` is for.
proof fn copy_is_of(states: Seq<Seq<Arc>>, m: ModelView, s: int, i: int) -> (r: (int, int))
    requires
        0 <= i < copied(states, m, s).len(),
    ensures
        0 <= r.0 < s,
        1 <= r.1 < classes_into(states, r.0, m).len(),
        copied(states, m, r.0).len() + r.1 - 1 == i,
        copied_classes(states, m, s)[i] == classes_into(states, r.0, m)[r.1],
    decreases s,
{
    same_count(states, m, s - 1);
    let before = copied(states, m, s - 1).len();
    if i < before {
        copy_is_of(states, m, s - 1, i)
    } else {
        (s - 1, i - before + 1)
    }
}

fn same_class(a: Option<u32>, b: Option<u32>) -> (r: bool)
    ensures
        r == (a == b),
{
    match (a, b) {
        (None, None) => true,
        (Some(x), Some(y)) => x == y,
        _ => false,
    }
}

fn place_of_class(classes: &Vec<Option<u32>>, c: Option<u32>) -> (r: Option<usize>)
    ensures
        r is Some == classes@.contains(c),
        r matches Some(i) ==> i < classes@.len() && classes@[i as int] == c,
{
    let mut i: usize = 0;
    while i < classes.len()
        invariant
            i <= classes@.len(),
            forall|j: int| 0 <= j < i ==> classes@[j] != c,
        decreases classes.len() - i,
    {
        if same_class(classes[i], c) {
            return Some(i);
        }
        i += 1;
    }
    None
}

fn class_of_id(tm: &TransitionModel, tid: TransitionId) -> (r: Option<u32>)
    requires
        tm.wf(),
        tid != 0 ==> tm@.has_id(tid as int),
    ensures
        r == class_of(tm@, tid),
        r matches Some(ts) ==> tm@.has_state(ts as int),
{
    if tid == 0 {
        None
    } else {
        Some(tm.transition_id_to_transition_state(tid))
    }
}

/// The classes of the arcs that enter each state.
fn list_classes(states: &Vec<GraphState>, tm: &TransitionModel) -> (r: Vec<Vec<Option<u32>>>)
    requires
        tm.wf(),
        arcs_fit(arcs_of(states@), tm@),
    ensures
        r@.len() == states@.len(),
        forall|d: int|
            0 <= d < r@.len() ==> (#[trigger] r@[d])@ == classes_into(arcs_of(states@), d, tm@),
        forall|d: int, i: int|
            0 <= d < r@.len() && 0 <= i < r@[d]@.len() ==> (#[trigger] r@[d]@[i] matches Some(ts)
                ==> tm@.has_state(ts as int)),
{
    let ghost g = arcs_of(states@);
    let n: usize = states.len();
    let mut classes: Vec<Vec<Option<u32>>> = Vec::new();
    let mut j: usize = 0;
    while j < n
        invariant
            j <= n,
            classes@.len() == j,
            forall|d: int| 0 <= d < j ==> (#[trigger] classes@[d])@ == Seq::<Option<u32>>::empty(),
        decreases n - j,
    {
        classes.push(Vec::new());
        j += 1;
    }
    let mut s: usize = 0;
    while s < n
        invariant
            tm.wf(),
            arcs_fit(g, tm@),
            g == arcs_of(states@),
            n == states@.len(),
            classes@.len() == n,
            s <= n,
            forall|d: int|
                0 <= d < n ==> (#[trigger] classes@[d])@ == classes_upto(g, d, tm@, s as int),
            forall|d: int, i: int|
                0 <= d < n && 0 <= i < classes@[d]@.len() ==> (#[trigger] classes@[d]@[i] matches Some(
                    ts,
                ) ==> tm@.has_state(ts as int)),
        decreases n - s,
    {
        let count: usize = states[s].arcs.len();
        assert(g[s as int] == states@[s as int].arcs@);
        let mut k: usize = 0;
        while k < count
            invariant
                tm.wf(),
                arcs_fit(g, tm@),
                g == arcs_of(states@),
                n == states@.len(),
                classes@.len() == n,
                s < n,
                g[s as int] == states@[s as int].arcs@,
                count == g[s as int].len(),
                k <= count,
                forall|d: int|
                    0 <= d < n ==> (#[trigger] classes@[d])@ == noted_arcs(
                        classes_upto(g, d, tm@, s as int),
                        g[s as int],
                        d,
                        tm@,
                        k as int,
                    ),
                forall|d: int, i: int|
                    0 <= d < n && 0 <= i < classes@[d]@.len() ==> (
                    #[trigger] classes@[d]@[i] matches Some(ts) ==> tm@.has_state(ts as int)),
            decreases count - k,
        {
            let a: Arc = states[s].arcs[k];
            assert(a == g[s as int][k as int]);
            assert(arc_fits(a, n as int, tm@));
            let c = class_of_id(tm, a.tid);
            let ghost before = classes@;
            let at: usize = a.next as usize;
            if place_of_class(&classes[at], c).is_none() {
                let mut slot: Vec<Option<u32>> = Vec::new();
                std::mem::swap(&mut slot, &mut classes[at]);
                slot.push(c);
                std::mem::swap(&mut slot, &mut classes[at]);
            }
            proof {
                assert forall|d: int| 0 <= d < n implies (#[trigger] classes@[d])@ == noted_arcs(
                    classes_upto(g, d, tm@, s as int),
                    g[s as int],
                    d,
                    tm@,
                    k + 1,
                ) by {
                    assert(before[d]@ == noted_arcs(
                        classes_upto(g, d, tm@, s as int),
                        g[s as int],
                        d,
                        tm@,
                        k as int,
                    ));
                }
                assert forall|d: int, i: int|
                    0 <= d < n && 0 <= i < classes@[d]@.len() implies (
                #[trigger] classes@[d]@[i] matches Some(ts) ==> tm@.has_state(ts as int)) by {
                    if d != at || i < before[d]@.len() {
                        assert(classes@[d]@[i] == before[d]@[i]);
                    }
                }
            }
            k += 1;
        }
        s += 1;
    }
    classes
}

proof fn more_copies(states: Seq<Seq<Arc>>, m: ModelView, a: int, b: int)
    requires
        a <= b,
    ensures
        copied(states, m, a).len() <= copied(states, m, b).len(),
    decreases b - a,
{
    if a < b {
        more_copies(states, m, a, b - 1);
    }
}

/// How many states there are after the splitting, unless they outnumber the ids.
fn count_split(states: &Vec<GraphState>, classes: &Vec<Vec<Option<u32>>>, Ghost(m): Ghost<ModelView>) -> (r:
    Option<usize>)
    requires
        classes@.len() == states@.len(),
        forall|d: int|
            0 <= d < classes@.len() ==> (#[trigger] classes@[d])@ == classes_into(
                arcs_of(states@),
                d,
                m,
            ),
    ensures
        match r {
            Some(total) => total == split_len(arcs_of(states@), m) && total <= u32::MAX,
            None => split_len(arcs_of(states@), m) > u32::MAX,
        },
{
    let ghost g = arcs_of(states@);
    let n: usize = states.len();
    let mut total: usize = n;
    if total > 0xffff_ffff {
        return None;
    }
    let mut s: usize = 0;
    while s < n
        invariant
            g == arcs_of(states@),
            n == states@.len(),
            classes@.len() == n,
            forall|d: int|
                0 <= d < classes@.len() ==> (#[trigger] classes@[d])@ == classes_into(g, d, m),
            s <= n,
            total == n + copied(g, m, s as int).len(),
            total <= 0xffff_ffff,
        decreases n - s,
    {
        let count: usize = classes[s].len();
        assert(classes@[s as int]@ == classes_into(g, s as int, m));
        proof {
            more_copies(g, m, s + 1, n as int);
        }
        if count > 1 {
            if count - 1 > 0xffff_ffff - total {
                return None;
            }
            total += count - 1;
        }
        s += 1;
    }
    Some(total)
}

proof fn appended_finals(a: Seq<(u32, u32)>, b: Seq<(u32, u32)>, state: u32)
    ensures
        final_cost_of(a, state) is Some ==> final_cost_of(a + b, state) == final_cost_of(a, state),
        final_cost_of(a, state) is None ==> final_cost_of(a + b, state) == final_cost_of(b, state),
    decreases a.len(),
{
    if a.len() == 0 {
        assert(a + b =~= b);
    } else {
        appended_finals(a.drop_first(), b, state);
        assert((a + b).drop_first() =~= a.drop_first() + b);
    }
}

proof fn absent_final(b: Seq<(u32, u32)>, state: u32)
    requires
        forall|i: int| 0 <= i < b.len() ==> (#[trigger] b[i]).0 != state,
    ensures
        final_cost_of(b, state) is None,
    decreases b.len(),
{
    if b.len() > 0 {
        absent_final(b.drop_first(), state);
    }
}

/// The finals that are added are those of copies.
pub(crate) proof fn split_finals_facts(
    finals: Seq<(u32, u32)>,
    states: Seq<Seq<Arc>>,
    m: ModelView,
    s: int,
    state: u32,
)
    requires
        0 <= s <= states.len(),
        split_len(states, m) <= u32::MAX + 1,
        state < states.len(),
        forall|i: int| 0 <= i < finals.len() ==> (#[trigger] finals[i]).0 < states.len(),
    ensures
        final_cost_of(split_finals(finals, states, m, s), state) == final_cost_of(finals, state),
        forall|i: int|
            0 <= i < split_finals(finals, states, m, s).len() ==> (#[trigger] split_finals(
                finals,
                states,
                m,
                s,
            )[i]).0 < split_len(states, m),
    decreases s,
{
    if s > 0 {
        split_finals_facts(finals, states, m, s - 1, state);
        more_copies(states, m, s, states.len() as int);
        let before = split_finals(finals, states, m, s - 1);
        let added = match final_cost_of(finals, (s - 1) as u32) {
            Some(c) => Seq::new(
                extra_classes(states, s - 1, m).len(),
                |i: int| ((first_copy(states, m, s - 1) + i) as u32, c),
            ),
            None => Seq::empty(),
        };
        assert forall|i: int| 0 <= i < added.len() implies (#[trigger] added[i]).0 != state
            && added[i].0 < split_len(states, m) by {
            assert(first_copy(states, m, s - 1) + i < split_len(states, m));
        }
        absent_final(added, state);
        appended_finals(before, added, state);
    }
}

proof fn finals_are_early(finals: Seq<(u32, u32)>, states: Seq<Seq<Arc>>, m: ModelView, s: int)
    requires
        0 <= s <= states.len(),
        split_len(states, m) <= u32::MAX + 1,
        forall|i: int| 0 <= i < finals.len() ==> (#[trigger] finals[i]).0 < states.len(),
    ensures
        forall|i: int|
            0 <= i < split_finals(finals, states, m, s).len() ==> (#[trigger] split_finals(
                finals,
                states,
                m,
                s,
            )[i]).0 < states.len() + copied(states, m, s).len(),
    decreases s,
{
    if s > 0 {
        finals_are_early(finals, states, m, s - 1);
        more_copies(states, m, s, states.len() as int);
        let before = split_finals(finals, states, m, s - 1);
        let all = split_finals(finals, states, m, s);
        assert forall|i: int| 0 <= i < all.len() implies (#[trigger] all[i]).0 < states.len()
            + copied(states, m, s).len() by {
            if i < before.len() {
                assert(all[i] == before[i]);
            } else {
                assert(first_copy(states, m, s - 1) + (i - before.len()) < split_len(states, m));
            }
        }
    }
}

proof fn listed_final(b: Seq<(u32, u32)>, state: u32, c: u32)
    requires
        forall|i: int| 0 <= i < b.len() ==> (#[trigger] b[i]).1 == c,
        exists|i: int| 0 <= i < b.len() && (#[trigger] b[i]).0 == state,
    ensures
        final_cost_of(b, state) == Some(c),
    decreases b.len(),
{
    assert(b[0].1 == c);
    if b[0].0 != state {
        let rest = b.drop_first();
        let i = choose|i: int| 0 <= i < b.len() && (#[trigger] b[i]).0 == state;
        assert(rest[i - 1].0 == state);
        assert forall|k: int| 0 <= k < rest.len() implies (#[trigger] rest[k]).1 == c by {
            assert(rest[k] == b[k + 1]);
        }
        listed_final(rest, state, c);
    }
}

/// A copy ends as what it is a copy of.
proof fn copy_ends_alike(
    finals: Seq<(u32, u32)>,
    states: Seq<Seq<Arc>>,
    m: ModelView,
    s: int,
    i: int,
)
    requires
        0 <= s <= states.len(),
        0 <= i < copied(states, m, s).len(),
        split_len(states, m) <= u32::MAX + 1,
        forall|i: int| 0 <= i < finals.len() ==> (#[trigger] finals[i]).0 < states.len(),
    ensures
        final_cost_of(split_finals(finals, states, m, s), (states.len() + i) as u32)
            == final_cost_of(finals, copied(states, m, s)[i] as u32),
    decreases s,
{
    let n = states.len() as int;
    let had = copied(states, m, s - 1).len() as int;
    let state = (n + i) as u32;
    more_copies(states, m, s, n);
    let before = split_finals(finals, states, m, s - 1);
    let cost = final_cost_of(finals, (s - 1) as u32);
    let added = match cost {
        Some(c) => Seq::new(
            extra_classes(states, s - 1, m).len(),
            |i: int| ((first_copy(states, m, s - 1) + i) as u32, c),
        ),
        None => Seq::empty(),
    };
    assert(split_finals(finals, states, m, s) == before + added);
    assert forall|k: int| 0 <= k < added.len() implies (#[trigger] added[k]).0 == n + had + k by {
        assert(first_copy(states, m, s - 1) + k < split_len(states, m));
    }
    appended_finals(before, added, state);
    if i < had {
        copy_ends_alike(finals, states, m, s - 1, i);
        assert(copied(states, m, s)[i] == copied(states, m, s - 1)[i]);
        absent_final(added, state);
    } else {
        finals_are_early(finals, states, m, s - 1);
        absent_final(before, state);
        assert(copied(states, m, s)[i] == s - 1);
        match cost {
            Some(c) => {
                assert(added[i - had].0 == state);
                listed_final(added, state, c);
            },
            None => {},
        }
    }
}

/// After the splitting every state ends as the state that it was before.
pub proof fn splitting_keeps_final_costs(g: GraphView, m: ModelView, j: int)
    requires
        split_len(g.states, m) <= u32::MAX + 1,
        0 <= j < split_len(g.states, m),
        forall|i: int| 0 <= i < g.finals.len() ==> (#[trigger] g.finals[i]).0 < g.states.len(),
    ensures
        final_cost_of(
            split_finals(g.finals, g.states, m, g.states.len() as int),
            j as u32,
        ) == final_cost_of(g.finals, source(g.states, m, j) as u32),
{
    let n = g.states.len() as int;
    if j < n {
        split_finals_facts(g.finals, g.states, m, n, j as u32);
    } else {
        copy_ends_alike(g.finals, g.states, m, n, j - n);
    }
}

/// A path as it goes after the splitting: with the same labels and costs.
pub open spec fn split_path(states: Seq<Seq<Arc>>, m: ModelView, path: Seq<Arc>) -> Seq<Arc> {
    Seq::new(path.len(), |i: int| redirected(states, m, path[i]))
}

/// A path of the split graph as it went before: with the same labels and costs.
pub open spec fn joined_path(states: Seq<Seq<Arc>>, m: ModelView, path: Seq<Arc>) -> Seq<Arc> {
    Seq::new(
        path.len(),
        |i: int| Arc { next: source(states, m, path[i].next as int) as u32, ..path[i] },
    )
}

/// Splitting keeps every path: with its labels and costs it goes through the split graph, to a copy
/// of where it went, and ends at the same cost.
pub proof fn splitting_keeps_paths(g: GraphView, m: ModelView, path: Seq<Arc>)
    requires
        g.states.len() > 0,
        arcs_fit(g.states, m),
        split_len(g.states, m) <= u32::MAX + 1,
        forall|i: int| 0 <= i < g.finals.len() ==> (#[trigger] g.finals[i]).0 < g.states.len(),
        is_path(g.states, path),
    ensures
        ({
            let r = split_path(g.states, m, path);
            &&& is_path(split(g.states, m), r)
            &&& ends_at(r) < split_len(g.states, m)
            &&& source(g.states, m, ends_at(r) as int) == ends_at(path)
            &&& final_cost_of(
                split_finals(g.finals, g.states, m, g.states.len() as int),
                ends_at(r),
            ) == final_cost_of(g.finals, ends_at(path))
        }),
    decreases path.len(),
{
    let states = g.states;
    let r = split_path(states, m, path);
    if path.len() > 0 {
        let front = path.drop_last();
        let a = path.last();
        splitting_keeps_paths(g, m, front);
        assert(r.drop_last() =~= split_path(states, m, front));
        let from = ends_at(front) as int;
        let e = ends_at(r.drop_last()) as int;
        let k = choose|k: int| 0 <= k < states[from].len() && states[from][k] == a;
        assert(states[from].contains(a));
        target_is_of_the_class(states, m, from, k);
        let here = split(states, m)[e];
        assert(here == redirected_all(states, m, states[from]));
        assert(here[k] == redirected(states, m, a));
        assert(r.last() == here[k]);
        assert(here.contains(r.last()));
        assert(ends_at(r) == redirected(states, m, a).next);
    }
    splitting_keeps_final_costs(g, m, ends_at(r) as int);
}

/// Splitting adds no path: every path of the split graph is one that was there before.
pub proof fn splitting_adds_no_paths(g: GraphView, m: ModelView, path: Seq<Arc>)
    requires
        g.states.len() > 0,
        arcs_fit(g.states, m),
        split_len(g.states, m) <= u32::MAX + 1,
        is_path(split(g.states, m), path),
    ensures
        is_path(g.states, joined_path(g.states, m, path)),
        split_path(g.states, m, joined_path(g.states, m, path)) == path,
        ends_at(path) < split_len(g.states, m),
        ends_at(joined_path(g.states, m, path)) == source(g.states, m, ends_at(path) as int),
    decreases path.len(),
{
    let states = g.states;
    let p = joined_path(states, m, path);
    sources_exist(states, m, states.len() as int);
    if path.len() > 0 {
        let front = path.drop_last();
        let b = path.last();
        splitting_adds_no_paths(g, m, front);
        assert(p.drop_last() =~= joined_path(states, m, front));
        let e = ends_at(front) as int;
        let from = source(states, m, e);
        assert(0 <= from < states.len());
        let here = split(states, m)[e];
        assert(here == redirected_all(states, m, states[from]));
        assert(here.contains(b));
        let k = choose|k: int| 0 <= k < here.len() && here[k] == b;
        let a = states[from][k];
        target_is_of_the_class(states, m, from, k);
        assert(b == redirected(states, m, a));
        assert(p.last() == a);
        assert(states[from].contains(a));
        assert(ends_at(p.drop_last()) == from);
        assert forall|i: int| 0 <= i < path.len() implies #[trigger] split_path(states, m, p)[i]
            == path[i] by {
            if i < path.len() - 1 {
                assert(split_path(states, m, joined_path(states, m, front))[i] == front[i]);
            }
        }
        assert(split_path(states, m, p) =~= path);
    } else {
        assert(split_path(states, m, p) =~= path);
    }
}

/// Split every state that arcs of more than one class enter, one copy for each class, and give
/// back the class of the arcs that enter each state then. If the states outnumber their ids there
/// is no answer, and the graph stays as it was.
pub fn make_preceding_input_symbols_same_class(graph: &mut Graph, tm: &TransitionModel) -> (r:
    Option<Vec<Option<u32>>>)
    requires
        tm.wf(),
        arcs_fit(old(graph)@.states, tm@),
        forall|i: int|
            0 <= i < old(graph)@.finals.len() ==> (#[trigger] old(graph)@.finals[i]).0 < old(
                graph,
            )@.states.len(),
    ensures
        r is Some == (split_len(old(graph)@.states, tm@) <= u32::MAX),
        r is None ==> *final(graph) == *old(graph),
        r matches Some(state_in) ==> {
            &&& state_in@ == entered(old(graph)@.states, tm@)
            &&& final(graph)@ == (GraphView {
                states: split(old(graph)@.states, tm@),
                finals: split_finals(
                    old(graph)@.finals,
                    old(graph)@.states,
                    tm@,
                    old(graph)@.states.len() as int,
                ),
                ..old(graph)@
            })
            &&& forall|j: int|
                0 <= j < state_in@.len() ==> (#[trigger] state_in@[j] matches Some(ts)
                    ==> tm@.has_state(ts as int))
        },
{
    let ghost g = graph@.states;
    let ghost m = tm@;
    let n: usize = graph.states.len();
    let classes = list_classes(&graph.states, tm);
    let total: usize = match count_split(&graph.states, &classes, Ghost(m)) {
        Some(total) => total,
        None => {
            return None;
        },
    };
    let mut state_in: Vec<Option<u32>> = Vec::new();
    let mut s: usize = 0;
    while s < n
        invariant
            n == g.len(),
            classes@.len() == n,
            s <= n,
            forall|d: int|
                0 <= d < classes@.len() ==> (#[trigger] classes@[d])@ == classes_into(g, d, m),
            forall|d: int, i: int|
                0 <= d < n && 0 <= i < classes@[d]@.len() ==> (#[trigger] classes@[d]@[i] matches Some(
                    ts,
                ) ==> m.has_state(ts as int)),
            state_in@ == entered(g, m).take(s as int),
            forall|j: int|
                0 <= j < state_in@.len() ==> (#[trigger] state_in@[j] matches Some(ts)
                    ==> m.has_state(ts as int)),
        decreases n - s,
    {
        assert(classes@[s as int]@ == classes_into(g, s as int, m));
        if classes[s].len() > 0 {
            assert(classes@[s as int]@[0] matches Some(ts) ==> m.has_state(ts as int));
            state_in.push(classes[s][0]);
        } else {
            state_in.push(None);
        }
        assert(state_in@ =~= entered(g, m).take(s + 1));
        s += 1;
    }
    let mut sources: Vec<usize> = Vec::new();
    let mut firsts: Vec<usize> = Vec::new();
    let ghost finals = graph.finals@;
    s = 0;
    proof {
        same_count(g, m, n as int);
        assert forall|i: int| 0 <= i < finals.len() implies (#[trigger] finals[i]).0 < n by {
            assert(finals[i] == old(graph)@.finals[i]);
        }
    }
    while s < n
        invariant
            n == g.len(),
            n == graph.states@.len(),
            graph@.states == g,
            graph.finals_lm@ == old(graph).finals_lm@,
            graph.state_in@ == old(graph).state_in@,
            classes@.len() == n,
            s <= n,
            total == split_len(g, m),
            total <= u32::MAX,
            forall|d: int|
                0 <= d < classes@.len() ==> (#[trigger] classes@[d])@ == classes_into(g, d, m),
            forall|d: int, i: int|
                0 <= d < n && 0 <= i < classes@[d]@.len() ==> (#[trigger] classes@[d]@[i] matches Some(
                    ts,
                ) ==> m.has_state(ts as int)),
            forall|i: int| 0 <= i < finals.len() ==> (#[trigger] finals[i]).0 < n,
            sources@.len() == copied(g, m, s as int).len(),
            forall|i: int|
                0 <= i < sources@.len() ==> #[trigger] sources@[i] == copied(g, m, s as int)[i],
            firsts@.len() == s,
            forall|d: int| 0 <= d < s ==> #[trigger] firsts@[d] == first_copy(g, m, d),
            state_in@ == entered(g, m).take(n as int) + copied_classes(g, m, s as int),
            forall|j: int|
                0 <= j < state_in@.len() ==> (#[trigger] state_in@[j] matches Some(ts)
                    ==> m.has_state(ts as int)),
            graph.finals@ == split_finals(finals, g, m, s as int),
        decreases n - s,
    {
        let count: usize = classes[s].len();
        assert(classes@[s as int]@ == classes_into(g, s as int, m));
        proof {
            more_copies(g, m, s + 1, n as int);
            split_finals_facts(finals, g, m, s as int, s as u32);
        }
        firsts.push(n + sources.len());
        let cost = graph.final_cost(s as u32);
        let ghost extra = extra_classes(g, s as int, m);
        let ghost earlier_finals = graph.finals@;
        let ghost added_finals = match cost {
            Some(c) => Seq::new(extra.len(), |i: int| ((first_copy(g, m, s as int) + i) as u32, c)),
            None => Seq::empty(),
        };
        proof {
            assert(extra.take(0) =~= Seq::empty());
            assert(added_finals.take(0) =~= Seq::empty());
            assert(earlier_finals + added_finals.take(0) =~= earlier_finals);
            assert(state_in@ + extra.take(0) =~= state_in@);
        }
        let ghost earlier_in = state_in@;
        let mut i: usize = 1;
        while i < count
            invariant
                n == g.len(),
                n == graph.states@.len(),
                graph@.states == g,
                graph.finals_lm@ == old(graph).finals_lm@,
                graph.state_in@ == old(graph).state_in@,
                classes@.len() == n,
                s < n,
                count == classes@[s as int]@.len(),
                classes@[s as int]@ == classes_into(g, s as int, m),
                extra == extra_classes(g, s as int, m),
                total == split_len(g, m),
                total <= u32::MAX,
                copied(g, m, s + 1).len() <= copied(g, m, n as int).len(),
                copied(g, m, s + 1).len() == copied(g, m, s as int).len() + extra.len(),
                forall|d: int, i: int|
                    0 <= d < n && 0 <= i < classes@[d]@.len() ==> (
                    #[trigger] classes@[d]@[i] matches Some(ts) ==> m.has_state(ts as int)),
                1 <= i,
                i <= count || i == 1,
                sources@.len() == copied(g, m, s as int).len() + (i - 1),
                forall|j: int|
                    0 <= j < sources@.len() ==> #[trigger] sources@[j] == (if j < copied(
                        g,
                        m,
                        s as int,
                    ).len() {
                        copied(g, m, s as int)[j]
                    } else {
                        s as int
                    }),
                state_in@ == earlier_in + extra.take(i - 1),
                forall|j: int|
                    0 <= j < state_in@.len() ==> (#[trigger] state_in@[j] matches Some(ts)
                        ==> m.has_state(ts as int)),
                added_finals == (match cost {
                    Some(c) => Seq::new(
                        extra.len(),
                        |i: int| ((first_copy(g, m, s as int) + i) as u32, c),
                    ),
                    None => Seq::empty(),
                }),
                graph.finals@ == earlier_finals + (match cost {
                    Some(c) => added_finals.take(i - 1),
                    None => Seq::empty(),
                }),
            decreases count - i,
        {
            let c = classes[s][i];
            assert(classes@[s as int]@[i as int] matches Some(ts) ==> m.has_state(ts as int));
            assert(extra[i - 1] == c);
            let copy: usize = n + sources.len();
            sources.push(s);
            state_in.push(c);
            assert(extra.take(i as int) =~= extra.take(i - 1).push(c));
            match cost {
                Some(fc) => {
                    graph.finals.push((copy as u32, fc));
                    assert(added_finals.take(i as int) =~= added_finals.take(i - 1).push(
                        (copy as u32, fc),
                    ));
                },
                None => {},
            }
            i += 1;
        }
        proof {
            if count > 1 {
                assert(extra.take(count - 1) =~= extra);
                assert(cost is Some ==> added_finals.take(count - 1) =~= added_finals);
            } else {
                assert(extra =~= Seq::empty());
                assert(added_finals =~= Seq::empty());
            }
            assert(copied(g, m, s + 1) =~= copied(g, m, s as int) + Seq::new(
                extra.len(),
                |i: int| s as int,
            ));
            assert(state_in@ =~= earlier_in + extra);
            assert(graph.finals@ =~= earlier_finals + added_finals);
        }
        s += 1;
    }
    assert(state_in@ =~= entered(g, m));
    let mut states: Vec<GraphState> = Vec::new();
    let mut j: usize = 0;
    proof {
        sources_exist(g, m, n as int);
    }
    while j < total
        invariant
            tm.wf(),
            m == tm@,
            arcs_fit(g, m),
            n == g.len(),
            n == graph.states@.len(),
            graph@.states == g,
            classes@.len() == n,
            firsts@.len() == n,
            total == split_len(g, m),
            total <= u32::MAX,
            sources@.len() == copied(g, m, n as int).len(),
            forall|i: int|
                0 <= i < sources@.len() ==> #[trigger] sources@[i] == copied(g, m, n as int)[i],
            forall|i: int|
                0 <= i < copied(g, m, n as int).len() ==> 0 <= #[trigger] copied(g, m, n as int)[i]
                    < n,
            forall|d: int| 0 <= d < n ==> #[trigger] firsts@[d] == first_copy(g, m, d),
            forall|d: int|
                0 <= d < classes@.len() ==> (#[trigger] classes@[d])@ == classes_into(g, d, m),
            j <= total,
            states@.len() == j,
            forall|i: int| 0 <= i < j ==> (#[trigger] states@[i]).arcs@ == split(g, m)[i],
        decreases total - j,
    {
        let from: usize = if j < n {
            j
        } else {
            sources[j - n]
        };
        assert(from == source(g, m, j as int));
        assert(g[from as int] == graph.states@[from as int].arcs@);
        let arcs = redirect(&graph.states[from].arcs, from, &classes, &firsts, tm, Ghost(g));
        states.push(GraphState { arcs });
        j += 1;
    }
    graph.states = states;
    assert(graph@.states =~= split(g, m));
    Some(state_in)
}

/// The arcs out of state `from` as they lead after the splitting.
fn redirect(
    arcs: &Vec<Arc>,
    from: usize,
    classes: &Vec<Vec<Option<u32>>>,
    firsts: &Vec<usize>,
    tm: &TransitionModel,
    Ghost(g): Ghost<Seq<Seq<Arc>>>,
) -> (r: Vec<Arc>)
    requires
        tm.wf(),
        arcs_fit(g, tm@),
        from < g.len(),
        arcs@ == g[from as int],
        classes@.len() == g.len(),
        firsts@.len() == g.len(),
        split_len(g, tm@) <= u32::MAX,
        forall|d: int| 0 <= d < g.len() ==> #[trigger] firsts@[d] == first_copy(g, tm@, d),
        forall|d: int|
            0 <= d < classes@.len() ==> (#[trigger] classes@[d])@ == classes_into(g, d, tm@),
    ensures
        r@ == redirected_all(g, tm@, arcs@),
{
    let ghost m = tm@;
    let ghost want = redirected_all(g, m, arcs@);
    let mut out: Vec<Arc> = Vec::new();
    let mut k: usize = 0;
    while k < arcs.len()
        invariant
            tm.wf(),
            m == tm@,
            arcs_fit(g, m),
            from < g.len(),
            arcs@ == g[from as int],
            classes@.len() == g.len(),
            firsts@.len() == g.len(),
            split_len(g, m) <= u32::MAX,
            forall|d: int| 0 <= d < g.len() ==> #[trigger] firsts@[d] == first_copy(g, m, d),
            forall|d: int|
                0 <= d < classes@.len() ==> (#[trigger] classes@[d])@ == classes_into(g, d, m),
            k <= arcs@.len(),
            want == redirected_all(g, m, arcs@),
            out@ == want.take(k as int),
        decreases arcs.len() - k,
    {
        let a: Arc = arcs[k];
        assert(a == g[from as int][k as int]);
        assert(arc_fits(a, g.len() as int, m));
        let d: usize = a.next as usize;
        let mut next: u32 = a.next;
        let ghost all = classes_into(g, d as int, m);
        assert(classes@[d as int]@ == all);
        if classes[d].len() > 1 {
            let c = class_of_id(tm, a.tid);
            proof {
                class_is_listed(g, m, g.len() as int, from as int, k as int);
                classes_facts(g, d as int, m, g.len() as int, c);
                copies_are_placed(g, m, g.len() as int, d as int);
            }
            match place_of_class(&classes[d], c) {
                Some(i) => {
                    assert(all.index_of(c) == i);
                    if i > 0 {
                        assert(firsts@[d as int] == first_copy(g, m, d as int));
                        assert(extra_classes(g, d as int, m).len() == all.len() - 1);
                        next = (firsts[d] + (i - 1)) as u32;
                    }
                },
                None => {},
            }
        }
        out.push(
            Arc { tid: a.tid, word: a.word, pron: a.pron, next, cost: a.cost, lm: a.lm },
        );
        assert(out@ =~= want.take(k + 1));
        k += 1;
    }
    assert(out@ =~= want);
    out
}

/// Split the states, add the self-loops, and record which transition state enters each state. If
/// the states outnumber their ids there is no answer.
pub fn add_self_loops(graph: &mut Graph, tm: &TransitionModel) -> (r: bool)
    requires
        tm.wf(),
        arcs_fit(old(graph)@.states, tm@),
        forall|i: int|
            0 <= i < old(graph)@.finals.len() ==> (#[trigger] old(graph)@.finals[i]).0 < old(
                graph,
            )@.states.len(),
    ensures
        r == (split_len(old(graph)@.states, tm@) <= u32::MAX),
        r ==> final(graph)@ == self_looped(old(graph)@, tm@),
        r ==> final(graph)@.fits(tm@),
{
    let ghost g = graph@;
    let ghost m = tm@;
    let state_in = match make_preceding_input_symbols_same_class(graph, tm) {
        Some(state_in) => state_in,
        None => {
            return false;
        },
    };
    let ghost cut = split(g.states, m);
    let ghost want = self_looped(g, m);
    proof {
        same_count(g.states, m, g.states.len() as int);
        assert(state_in@.len() == cut.len());
    }
    let n: usize = graph.states.len();
    let mut s: usize = 0;
    while s < n
        invariant
            tm.wf(),
            m == tm@,
            n == graph.states@.len(),
            n == cut.len(),
            n <= u32::MAX,
            n == state_in@.len(),
            cut == split(g.states, m),
            state_in@ == entered(g.states, m),
            want == self_looped(g, m),
            s <= n,
            forall|j: int|
                0 <= j < state_in@.len() ==> (#[trigger] state_in@[j] matches Some(ts)
                    ==> m.has_state(ts as int)),
            graph.finals@ == split_finals(g.finals, g.states, m, g.states.len() as int),
            forall|j: int| 0 <= j < s ==> (#[trigger] graph.states@[j]).arcs@ == want.states[j],
            forall|j: int| s <= j < n ==> (#[trigger] graph.states@[j]).arcs@ == cut[j],
        decreases n - s,
    {
        assert(graph.states@[s as int].arcs@ == cut[s as int]);
        assert(state_in@[s as int] matches Some(ts) ==> m.has_state(ts as int));
        assert(cut[s as int] + Seq::empty() =~= cut[s as int]);
        match state_in[s] {
            Some(ts) => match tm.self_loop_of(ts) {
                Some(t) => {
                    let mut slot = GraphState { arcs: Vec::new() };
                    std::mem::swap(&mut slot, &mut graph.states[s]);
                    slot.arcs.push(
                        Arc {
                            tid: t,
                            word: NO_WORD,
                            pron: NO_PRON,
                            next: s as u32,
                            cost: ZERO,
                            lm: ZERO,
                        },
                    );
                    std::mem::swap(&mut slot, &mut graph.states[s]);
                    assert(graph.states@[s as int].arcs@ =~= want.states[s as int]);
                },
                None => {},
            },
            None => {},
        }
        s += 1;
    }
    let mut finals_lm: Vec<u32> = Vec::new();
    let mut i: usize = 0;
    while i < graph.finals.len()
        invariant
            i <= graph.finals@.len(),
            graph.finals@ == want.finals,
            want == self_looped(g, m),
            finals_lm@ == want.finals_lm.take(i as int),
        decreases graph.finals.len() - i,
    {
        let (ignored, cost) = graph.finals[i];
        finals_lm.push(cost);
        assert(finals_lm@ =~= want.finals_lm.take(i + 1));
        i += 1;
    }
    assert(finals_lm@ =~= want.finals_lm);
    graph.finals_lm = finals_lm;
    graph.state_in = state_in;
    proof {
        assert(graph@.states =~= want.states);
        assert forall|s: int, k: int|
            0 <= s < want.states.len() && 0 <= k < want.states[s].len() implies arc_fits(
            #[trigger] want.states[s][k],
            want.states.len() as int,
            m,
        ) by {
            if k < cut[s].len() {
                one_class_enters_a_state(g.states, m, s, k);
                let from = source(g.states, m, s);
                sources_exist(g.states, m, g.states.len() as int);
                assert(cut[s] == redirected_all(g.states, m, g.states[from]));
                assert(arc_fits(g.states[from][k], g.states.len() as int, m));
            } else {
                let ts = want.state_in[s]->0;
                tm.facts();
                self_loops_loop(m, ts as int);
            }
        }
        if g.states.len() > 0 {
            split_finals_facts(g.finals, g.states, m, g.states.len() as int, 0);
        }
    }
    true
}

} // verus!
