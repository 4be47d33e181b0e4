//! Flat-start alignments.
//!
//! A path is drawn through the graph without self-loops, and then padded with them, spread as evenly
//! as possible, until it has as many emitting arcs as there are frames. Where a state emits, the
//! path takes the smallest forward step, so that every phone visits all of its states; only the
//! optional silences are drawn at random.

use vstd::prelude::*;

use crate::align::viterbi::{ends_at, is_path};
use crate::float::{
    eval, eval_wide, is_evaluator, value, wide_neg, wide_negated, wide_value, FloatOp, WIDE_ZERO,
};
use crate::hmm::graph::{arc_fits, arcs_fit, final_cost_of, Arc, Graph, GraphView, NO_WORD};
use crate::hmm::transition::{hmm_state_of, is_placed, transition_of, ModelView, TransitionModel};
use crate::random::{seeded_rule, Draws};
use crate::types::{Alignment, PhoneId, TransitionId, WordId};

verus! {

/// How often a path is drawn before giving up.
pub const NUM_RETRIES: usize = 10;

/// The first arc of a state that leads back to it and emits.
pub open spec fn loop_place(arcs: Seq<Arc>, state: u32, i: int) -> Option<int>
    decreases arcs.len() - i,
{
    if i >= arcs.len() {
        None
    } else if arcs[i].next == state && arcs[i].tid != 0 {
        Some(i)
    } else {
        loop_place(arcs, state, i + 1)
    }
}

/// The emitting self-loop of a state, if it has one.
pub open spec fn loop_arc_of(g: Seq<Seq<Arc>>, state: u32) -> Option<Arc> {
    match loop_place(g[state as int], state, 0) {
        Some(i) => Some(g[state as int][i]),
        None => None,
    }
}

/// The arc steps forward in its HMM.
pub open spec fn steps_forward(a: Arc, state: u32, m: ModelView) -> bool {
    a.tid != 0 && a.next != state && transition_of(m.topo, m.tuples, a.tid as int).0 > m.tuple_of(
        a.tid as int,
    ).hmm_state
}

/// Among the first `k` arcs of a state that step forward, the one that leads to the least HMM state,
/// the first one on ties.
pub open spec fn forward_place(arcs: Seq<Arc>, state: u32, m: ModelView, k: int) -> Option<int>
    decreases k,
{
    if k <= 0 {
        None
    } else {
        let rest = forward_place(arcs, state, m, k - 1);
        let a = arcs[k - 1];
        if steps_forward(a, state, m) && (rest is None || transition_of(
            m.topo,
            m.tuples,
            a.tid as int,
        ).0 < transition_of(m.topo, m.tuples, arcs[rest->0].tid as int).0) {
            Some(k - 1)
        } else {
            rest
        }
    }
}

/// The index of a state's emitting self-loop.
pub fn find_self_loop(graph: &Graph, state: u32) -> (r: Option<usize>)
    requires
        state < graph@.states.len(),
    ensures
        match loop_place(graph@.states[state as int], state, 0) {
            Some(i) => r matches Some(x) && x == i && 0 <= i < graph@.states[state as int].len(),
            None => r is None,
        },
{
    let ghost arcs = graph@.states[state as int];
    let count: usize = graph.states[state as usize].arcs.len();
    let mut i: usize = 0;
    while i < count
        invariant
            state < graph@.states.len(),
            arcs == graph@.states[state as int],
            count == arcs.len(),
            i <= count,
            loop_place(arcs, state, 0) == loop_place(arcs, state, i as int),
        decreases count - i,
    {
        let a: Arc = graph.states[state as usize].arcs[i];
        assert(arcs[i as int] == a);
        if a.next == state && a.tid != 0 {
            return Some(i);
        }
        i += 1;
    }
    None
}

/// The index of the arc of a state that advances its HMM by the fewest states. Only forward steps
/// count: a silence can step backward.
pub fn smallest_forward_step(graph: &Graph, tm: &TransitionModel, state: u32) -> (r: Option<usize>)
    requires
        tm.wf(),
        arcs_fit(graph@.states, tm@),
        state < graph@.states.len(),
    ensures
        match forward_place(
            graph@.states[state as int],
            state,
            tm@,
            graph@.states[state as int].len() as int,
        ) {
            Some(i) => r matches Some(x) && x == i && 0 <= i < graph@.states[state as int].len(),
            None => r is None,
        },
{
    let ghost m = tm@;
    let ghost arcs = graph@.states[state as int];
    let count: usize = graph.states[state as usize].arcs.len();
    let mut best: Option<usize> = None;
    let mut best_dest: usize = 0;
    let mut i: usize = 0;
    while i < count
        invariant
            tm.wf(),
            m == tm@,
            arcs_fit(graph@.states, m),
            state < graph@.states.len(),
            arcs == graph@.states[state as int],
            count == arcs.len(),
            i <= count,
            match forward_place(arcs, state, m, i as int) {
                Some(k) => best matches Some(x) && x == k && 0 <= k < i && best_dest
                    == transition_of(m.topo, m.tuples, arcs[k].tid as int).0,
                None => best is None,
            },
        decreases count - i,
    {
        let a: Arc = graph.states[state as usize].arcs[i];
        assert(graph@.states[state as int][i as int] == a);
        assert(arc_fits(a, graph@.states.len() as int, m));
        if a.tid != 0 && a.next != state {
            let ts: u32 = tm.transition_id_to_transition_state(a.tid);
            let src: usize = tm.transition_state_to_hmm_state(ts);
            let idx: usize = tm.transition_id_to_transition_index(a.tid);
            let phone: PhoneId = tm.transition_state_to_phone(ts);
            proof {
                tm.facts();
                assert(is_placed(m.topo, m.tuples[ts - 1]));
            }
            let states = tm.topology().topology_for_phone(phone);
            assert(states@[src as int]@ == hmm_state_of(m.topo, m.tuples[ts - 1]));
            let dest: usize = states[src].transitions[idx].0;
            if dest > src && (best.is_none() || dest < best_dest) {
                best = Some(i);
                best_dest = dest;
            }
        }
        i += 1;
    }
    best
}

/// A walk through the graph: the states visited, the arcs taken between them, and how many of those
/// emit.
#[verifier::ext_equal]
pub struct WalkView {
    pub path: Seq<u32>,
    pub arcs: Seq<Arc>,
    pub labels: nat,
}

/// The walk that has not left the start.
pub open spec fn walk_start() -> WalkView {
    WalkView { path: seq![0u32], arcs: Seq::empty(), labels: 0 }
}

/// The walk after one more arc.
pub open spec fn walk_on(w: WalkView, a: Arc) -> WalkView {
    WalkView {
        path: w.path.push(a.next),
        arcs: w.arcs.push(a),
        labels: w.labels + if a.tid != 0 {
            1nat
        } else {
            0nat
        },
    }
}

/// In how many ways a walk can go on from `state`: along its arcs, or by ending if it is final.
pub open spec fn ways_on(g: GraphView, state: u32) -> nat {
    g.states[state as int].len() + if final_cost_of(g.finals, state) is Some {
        1nat
    } else {
        0nat
    }
}

/// Where a walk ends, and the bounds of all draws by then: each step is the smallest forward one, or
/// else is drawn among the ways on. `asked` are the bounds of the draws before.
pub open spec fn walked(
    g: GraphView,
    m: ModelView,
    rule: spec_fn(Seq<usize>, usize) -> usize,
    w: WalkView,
    steps_left: nat,
    asked: Seq<usize>,
) -> (WalkView, Seq<usize>)
    decreases steps_left,
{
    let s = w.path.last();
    let arcs = g.states[s as int];
    if ways_on(g, s) == 0 || steps_left == 0 {
        (w, asked)
    } else {
        let forced = forward_place(arcs, s, m, arcs.len() as int);
        let bound = ways_on(g, s) as usize;
        let offset = if forced is Some {
            forced->0
        } else {
            rule(asked, bound) as int
        };
        let next = if forced is Some {
            asked
        } else {
            asked.push(bound)
        };
        if offset < arcs.len() {
            if arcs[offset].next == s {
                walked(g, m, rule, w, (steps_left - 1) as nat, next)
            } else {
                walked(g, m, rule, walk_on(w, arcs[offset]), (steps_left - 1) as nat, next)
            }
        } else {
            (w, next)
        }
    }
}

/// The walk ends in a final state.
pub open spec fn ends_final(g: GraphView, w: WalkView) -> bool {
    final_cost_of(g.finals, w.path.last()) is Some
}

/// Some state of the walk has an emitting self-loop.
pub open spec fn can_pad(g: GraphView, w: WalkView) -> bool {
    exists|i: int|
        0 <= i < w.path.len() && loop_arc_of(g.states, #[trigger] w.path[i]) is Some
}

/// The walk will do: it ends in a final state, is not too long, and can be padded if it is too short.
pub open spec fn will_do(g: GraphView, w: WalkView, num_frames: int) -> bool {
    ends_final(g, w) && w.labels <= num_frames && (w.labels == num_frames || can_pad(g, w))
}

/// The last of up to `tries` walks, the first that will do, and the bounds of all draws by then.
pub open spec fn tried(
    g: GraphView,
    m: ModelView,
    rule: spec_fn(Seq<usize>, usize) -> usize,
    num_frames: int,
    max_steps: nat,
    tries: nat,
    asked: Seq<usize>,
) -> (WalkView, Seq<usize>)
    decreases tries,
{
    let (w, next) = walked(g, m, rule, walk_start(), max_steps, asked);
    if tries <= 1 || will_do(g, w, num_frames) {
        (w, next)
    } else {
        tried(g, m, rule, num_frames, max_steps, (tries - 1) as nat, next)
    }
}

/// How many steps a walk may have.
pub open spec fn step_limit(g: GraphView, num_frames: int) -> nat {
    (100 * (num_frames + g.states.len() + 1)) as nat
}

/// How many of the states from number `i` on have an emitting self-loop.
pub open spec fn loops_from(g: Seq<Seq<Arc>>, path: Seq<u32>, i: int) -> nat
    decreases path.len() - i,
{
    if i >= path.len() {
        0
    } else {
        loops_from(g, path, i + 1) + if loop_arc_of(g, path[i]) is Some {
            1nat
        } else {
            0nat
        }
    }
}

/// How the padding is spread: every loop is taken `base` times, the first `more` of them once more.
#[verifier::ext_equal]
pub struct Padding {
    pub base: int,
    pub more: int,
}

/// The padding of `extra` frames over `loops` loops.
pub open spec fn padding_of(extra: int, loops: int) -> Padding {
    let base = if extra != 0 && loops != 0 {
        extra / loops
    } else {
        0
    };
    Padding { base, more: extra - base * loops }
}

/// The arc `n` times.
pub open spec fn repeated_arc(a: Arc, n: int) -> Seq<Arc> {
    Seq::new(n as nat, |i: int| a)
}

/// How often loop number `counter` is taken.
pub open spec fn times(p: Padding, counter: int) -> int {
    p.base + if counter < p.more {
        1int
    } else {
        0
    }
}

/// The arcs of the walk from state number `i` on, with the loops of each state before what leaves it.
/// `counter` loops have been passed already.
pub open spec fn padded_from(g: Seq<Seq<Arc>>, w: WalkView, p: Padding, i: int, counter: int) -> Seq<
    Arc,
>
    decreases w.path.len() - i,
{
    if i >= w.path.len() {
        Seq::empty()
    } else {
        let here = loop_arc_of(g, w.path[i]);
        let loops = if here is Some {
            repeated_arc(here->0, times(p, counter))
        } else {
            Seq::empty()
        };
        let on = if i + 1 < w.path.len() {
            seq![w.arcs[i]]
        } else {
            Seq::empty()
        };
        loops + on + padded_from(
            g,
            w,
            p,
            i + 1,
            if here is Some {
                counter + 1
            } else {
                counter
            },
        )
    }
}

/// The arcs of a flat-start alignment along a walk, if the walk can be padded to the frames.
pub open spec fn flat_path(g: GraphView, w: WalkView, num_frames: int) -> Option<Seq<Arc>> {
    let loops = loops_from(g.states, w.path, 0) as int;
    if !ends_final(g, w) || w.labels > num_frames || (loops == 0 && w.labels < num_frames) {
        None
    } else {
        Some(padded_from(g.states, w, padding_of(num_frames - w.labels, loops), 0, 0))
    }
}

/// The transition ids along a path.
pub open spec fn path_ids(path: Seq<Arc>) -> Seq<TransitionId>
    decreases path.len(),
{
    if path.len() == 0 {
        Seq::empty()
    } else if path.last().tid != 0 {
        path_ids(path.drop_last()).push(path.last().tid)
    } else {
        path_ids(path.drop_last())
    }
}

/// The words along a path.
pub open spec fn path_words(path: Seq<Arc>) -> Seq<WordId>
    decreases path.len(),
{
    if path.len() == 0 {
        Seq::empty()
    } else if path.last().word != NO_WORD {
        path_words(path.drop_last()).push(path.last().word)
    } else {
        path_words(path.drop_last())
    }
}

/// The pronunciations of the words along a path.
pub open spec fn path_prons(path: Seq<Arc>) -> Seq<u32>
    decreases path.len(),
{
    if path.len() == 0 {
        Seq::empty()
    } else if path.last().word != NO_WORD {
        path_prons(path.drop_last()).push(path.last().pron)
    } else {
        path_prons(path.drop_last())
    }
}

/// The costs along a path, added from its start.
pub open spec fn path_cost<F: Fn(FloatOp) -> u64>(path: Seq<Arc>, f: F) -> u64
    decreases path.len(),
{
    if path.len() == 0 {
        WIDE_ZERO
    } else {
        wide_value(
            f,
            FloatOp::AddWide(
                path_cost(path.drop_last(), f),
                wide_value(f, FloatOp::Widen(path.last().cost)),
            ),
        )
    }
}

/// The log-likelihood of a flat-start alignment: there is no acoustic score, only the graph cost.
pub open spec fn flat_loglike<F: Fn(FloatOp) -> u64>(path: Seq<Arc>, final_cost: u32, f: F) -> u32 {
    value(
        f,
        FloatOp::Narrow(
            wide_negated(
                wide_value(
                    f,
                    FloatOp::AddWide(
                        path_cost(path, f),
                        wide_value(f, FloatOp::Widen(final_cost)),
                    ),
                ),
            ),
        ),
    )
}

/// The alignment is the one along this path.
pub open spec fn is_flat<F: Fn(FloatOp) -> u64>(ali: Alignment, path: Seq<Arc>, final_cost: u32, f: F) -> bool {
    &&& ali.utt@.len() == 0
    &&& ali.tids@ == path_ids(path)
    &&& ali.words@ == path_words(path)
    &&& ali.prons@ == path_prons(path)
    &&& ali.loglike == flat_loglike(path, final_cost, f)
}

/// The walk goes along arcs of the graph that are no self-loops, and counts those that emit.
pub open spec fn is_walk(g: Seq<Seq<Arc>>, w: WalkView) -> bool {
    &&& w.path.len() == w.arcs.len() + 1
    &&& w.path[0] == 0
    &&& forall|i: int| 0 <= i < w.path.len() ==> (#[trigger] w.path[i]) < g.len()
    &&& forall|i: int|
        0 <= i < w.arcs.len() ==> g[w.path[i] as int].contains(#[trigger] w.arcs[i])
            && w.arcs[i].next == w.path[i + 1]
    &&& w.labels == path_ids(w.arcs).len()
}

proof fn walking_on(g: Seq<Seq<Arc>>, w: WalkView, a: Arc)
    requires
        is_walk(g, w),
        g[w.path.last() as int].contains(a),
        a.next < g.len(),
    ensures
        is_walk(g, walk_on(w, a)),
{
    let v = walk_on(w, a);
    assert(v.arcs.drop_last() =~= w.arcs);
    assert forall|i: int| 0 <= i < v.arcs.len() implies g[v.path[i] as int].contains(
        #[trigger] v.arcs[i],
    ) && v.arcs[i].next == v.path[i + 1] by {
        if i < w.arcs.len() {
            assert(v.arcs[i] == w.arcs[i]);
        }
    }
}

proof fn start_is_a_walk(g: Seq<Seq<Arc>>)
    requires
        g.len() > 0,
    ensures
        is_walk(g, walk_start()),
{
}

proof fn loop_found(arcs: Seq<Arc>, state: u32, i: int)
    requires
        0 <= i <= arcs.len(),
    ensures
        loop_place(arcs, state, i) matches Some(k) ==> i <= k < arcs.len() && arcs[k].next == state
            && arcs[k].tid != 0,
    decreases arcs.len() - i,
{
    if i < arcs.len() {
        loop_found(arcs, state, i + 1);
    }
}

proof fn ids_of_sum(a: Seq<Arc>, b: Seq<Arc>)
    ensures
        path_ids(a + b).len() == path_ids(a).len() + path_ids(b).len(),
    decreases b.len(),
{
    if b.len() == 0 {
        assert(a + b =~= a);
    } else {
        ids_of_sum(a, b.drop_last());
        assert((a + b).drop_last() =~= a + b.drop_last());
        assert((a + b).last() == b.last());
    }
}

proof fn ids_of_repeated(a: Arc, n: nat)
    requires
        a.tid != 0,
    ensures
        path_ids(repeated_arc(a, n as int)).len() == n,
    decreases n,
{
    if n > 0 {
        ids_of_repeated(a, (n - 1) as nat);
        assert(repeated_arc(a, n as int).drop_last() =~= repeated_arc(a, n - 1));
    }
}

/// How many frames the loops from state number `i` on take.
spec fn padding_from(g: Seq<Seq<Arc>>, path: Seq<u32>, p: Padding, i: int, counter: int) -> int {
    let loops = loops_from(g, path, i) as int;
    let left = if p.more > counter {
        p.more - counter
    } else {
        0
    };
    p.base * loops + if left < loops {
        left
    } else {
        loops
    }
}

proof fn padded_length(g: Seq<Seq<Arc>>, w: WalkView, p: Padding, i: int, counter: int)
    requires
        is_walk(g, w),
        0 <= i <= w.path.len(),
        p.base >= 0,
    ensures
        path_ids(padded_from(g, w, p, i, counter)).len() == padding_from(g, w.path, p, i, counter)
            + path_ids(w.arcs.skip(if i < w.arcs.len() {
            i
        } else {
            w.arcs.len() as int
        })).len(),
    decreases w.path.len() - i,
{
    let n = w.arcs.len() as int;
    if i < w.path.len() {
        let state = w.path[i];
        loop_found(g[state as int], state, 0);
        let here = loop_arc_of(g, state);
        let loops = if here is Some {
            repeated_arc(here->0, times(p, counter))
        } else {
            Seq::empty()
        };
        let on = if i + 1 < w.path.len() {
            seq![w.arcs[i]]
        } else {
            Seq::empty()
        };
        let next = if here is Some {
            counter + 1
        } else {
            counter
        };
        let rest = padded_from(g, w, p, i + 1, next);
        padded_length(g, w, p, i + 1, next);
        ids_of_sum(loops + on, rest);
        ids_of_sum(loops, on);
        if here is Some {
            ids_of_repeated(here->0, times(p, counter) as nat);
            let l = loops_from(g, w.path, i + 1) as int;
            assert(p.base * (l + 1) == p.base * l + p.base) by (nonlinear_arith);
        }
        assert(path_ids(Seq::<Arc>::empty()).len() == 0);
        if i < n {
            assert(w.arcs.skip(i) =~= seq![w.arcs[i]] + w.arcs.skip(i + 1));
            ids_of_sum(seq![w.arcs[i]], w.arcs.skip(i + 1));
        } else {
            assert(w.arcs.skip(n) =~= Seq::empty());
        }
    } else {
        assert(w.arcs.skip(n) =~= Seq::empty());
        assert(p.base * 0 == 0) by (nonlinear_arith);
    }
}

/// A flat-start alignment has an id for each frame.
pub proof fn flat_path_has_every_frame(g: GraphView, w: WalkView, num_frames: int)
    requires
        is_walk(g.states, w),
        0 <= num_frames,
    ensures
        flat_path(g, w, num_frames) matches Some(path) ==> path_ids(path).len() == num_frames,
{
    if let Some(path) = flat_path(g, w, num_frames) {
        let loops = loops_from(g.states, w.path, 0) as int;
        let extra = num_frames - w.labels;
        let p = padding_of(extra, loops);
        if extra != 0 && loops != 0 {
            assert(extra / loops >= 0 && extra == loops * (extra / loops) + extra % loops && 0 <= extra
                % loops < loops) by (nonlinear_arith)
                requires
                    extra >= 0,
                    loops > 0,
            ;
            assert(p.base * loops == loops * p.base) by (nonlinear_arith);
        } else {
            assert(p.base == 0);
            assert(0 * loops == 0) by (nonlinear_arith);
        }
        padded_length(g.states, w, p, 0, 0);
        assert(w.arcs.skip(0) =~= w.arcs);
        if w.arcs.len() == 0 {
            assert(w.arcs.skip(w.arcs.len() as int) =~= w.arcs);
        }
    }
}

proof fn path_extends(g: Seq<Seq<Arc>>, path: Seq<Arc>, a: Arc)
    requires
        is_path(g, path),
        ends_at(path) < g.len(),
        g[ends_at(path) as int].contains(a),
    ensures
        is_path(g, path.push(a)),
        ends_at(path.push(a)) == a.next,
{
    assert(path.push(a).drop_last() =~= path);
}

proof fn loops_extend(g: Seq<Seq<Arc>>, path: Seq<Arc>, a: Arc, n: nat)
    requires
        is_path(g, path),
        ends_at(path) < g.len(),
        g[ends_at(path) as int].contains(a),
        a.next == ends_at(path),
    ensures
        is_path(g, path + repeated_arc(a, n as int)),
        ends_at(path + repeated_arc(a, n as int)) == ends_at(path),
    decreases n,
{
    if n > 0 {
        loops_extend(g, path, a, (n - 1) as nat);
        let shorter = path + repeated_arc(a, n - 1);
        path_extends(g, shorter, a);
        assert(path + repeated_arc(a, n as int) =~= shorter.push(a));
    } else {
        assert(path + repeated_arc(a, 0) =~= path);
    }
}

proof fn padding_extends(
    g: Seq<Seq<Arc>>,
    w: WalkView,
    p: Padding,
    i: int,
    counter: int,
    before: Seq<Arc>,
)
    requires
        is_walk(g, w),
        p.base >= 0,
        0 <= i <= w.path.len(),
        is_path(g, before),
        i < w.path.len() ==> ends_at(before) == w.path[i],
        i == w.path.len() ==> ends_at(before) == w.path.last(),
    ensures
        is_path(g, before + padded_from(g, w, p, i, counter)),
        ends_at(before + padded_from(g, w, p, i, counter)) == w.path.last(),
    decreases w.path.len() - i,
{
    if i < w.path.len() {
        let state = w.path[i];
        loop_found(g[state as int], state, 0);
        let here = loop_arc_of(g, state);
        let loops = if here is Some {
            repeated_arc(here->0, times(p, counter))
        } else {
            Seq::empty()
        };
        let next = if here is Some {
            counter + 1
        } else {
            counter
        };
        let looped = before + loops;
        if here is Some {
            loops_extend(g, before, here->0, times(p, counter) as nat);
        } else {
            assert(looped =~= before);
        }
        if i + 1 < w.path.len() {
            let a = w.arcs[i];
            path_extends(g, looped, a);
            let on = looped.push(a);
            padding_extends(g, w, p, i + 1, next, on);
            assert(before + padded_from(g, w, p, i, counter) =~= on + padded_from(
                g,
                w,
                p,
                i + 1,
                next,
            ));
        } else {
            padding_extends(g, w, p, i + 1, next, looped);
            assert(before + padded_from(g, w, p, i, counter) =~= looped + padded_from(
                g,
                w,
                p,
                i + 1,
                next,
            ));
        }
    } else {
        assert(before + padded_from(g, w, p, i, counter) =~= before);
    }
}

/// A flat-start alignment is that of a path through the graph, from its start to a final state.
pub proof fn flat_path_is_a_path(g: GraphView, w: WalkView, num_frames: int)
    requires
        is_walk(g.states, w),
        0 <= num_frames,
    ensures
        flat_path(g, w, num_frames) matches Some(path) ==> is_path(g.states, path) && final_cost_of(
            g.finals,
            ends_at(path),
        ) is Some,
{
    if let Some(path) = flat_path(g, w, num_frames) {
        let loops = loops_from(g.states, w.path, 0) as int;
        let extra = num_frames - w.labels;
        let p = padding_of(extra, loops);
        if extra != 0 && loops != 0 {
            assert(extra / loops >= 0) by (nonlinear_arith)
                requires
                    extra >= 0,
                    loops > 0,
            ;
        }
        padding_extends(g.states, w, p, 0, 0, Seq::empty());
        assert(Seq::<Arc>::empty() + path =~= path);
    }
}

/// A walk through the graph.
#[derive(Debug)]
pub struct Walk {
    /// The states visited.
    pub path: Vec<u32>,
    /// The arcs taken between them.
    pub arcs: Vec<Arc>,
    /// How many of the arcs emit.
    pub labels: usize,
}

impl View for Walk {
    type V = WalkView;

    open spec fn view(&self) -> WalkView {
        WalkView { path: self.path@, arcs: self.arcs@, labels: self.labels as nat }
    }
}

/// No state has so many arcs that they and one more cannot be counted.
pub open spec fn is_countable(g: Seq<Seq<Arc>>) -> bool {
    forall|s: int| 0 <= s < g.len() ==> (#[trigger] g[s]).len() < usize::MAX
}

/// Walk once through the graph.
pub fn draw_walk<S: Draws>(
    graph: &Graph,
    tm: &TransitionModel,
    max_steps: usize,
    draws: &mut S,
) -> (r: Walk)
    requires
        tm.wf(),
        graph@.states.len() > 0,
        arcs_fit(graph@.states, tm@),
        is_countable(graph@.states),
        old(draws).wf(),
    ensures
        is_walk(graph@.states, r@),
        final(draws).wf(),
        final(draws).rule() == old(draws).rule(),
        walked(
            graph@,
            tm@,
            old(draws).rule(),
            walk_start(),
            max_steps as nat,
            old(draws).asked(),
        ) == (r@, final(draws).asked()),
{
    let ghost g = graph@;
    let ghost m = tm@;
    let ghost rule = draws.rule();
    let ghost start = draws.asked();
    let mut path: Vec<u32> = Vec::new();
    path.push(0);
    let mut w = Walk { path, arcs: Vec::new(), labels: 0 };
    let mut left: usize = max_steps;
    let mut done: bool = false;
    proof {
        assert(w@ =~= walk_start());
        start_is_a_walk(g.states);
    }
    while !done && left > 0
        invariant
            tm.wf(),
            m == tm@,
            g == graph@,
            g.states.len() > 0,
            arcs_fit(g.states, m),
            is_countable(g.states),
            is_walk(g.states, w@),
            w.labels + left <= max_steps,
            draws.wf(),
            draws.rule() == rule,
            walked(g, m, rule, walk_start(), max_steps as nat, start) == (if done {
                (w@, draws.asked())
            } else {
                walked(g, m, rule, w@, left as nat, draws.asked())
            }),
        decreases left, !done as int,
    {
        let s: u32 = w.path[w.path.len() - 1];
        assert(w@.path[w@.path.len() - 1] < g.states.len());
        let ghost arcs = g.states[s as int];
        let num_arcs: usize = graph.states[s as usize].arcs.len();
        assert(arcs == graph.states@[s as int].arcs@);
        let ends: bool = graph.is_final(s);
        if num_arcs == 0 && !ends {
            done = true;
        } else {
            let forced = smallest_forward_step(graph, tm, s);
            let offset: usize = match forced {
                Some(i) => i,
                None => {
                    // Ending counts as one way more, where the state is final.
                    draws.draw(
                        if ends {
                            num_arcs + 1
                        } else {
                            num_arcs
                        },
                    )
                },
            };
            if offset < num_arcs {
                let a: Arc = graph.states[s as usize].arcs[offset];
                assert(arcs[offset as int] == a);
                assert(g.states[s as int][offset as int] == a);
                assert(arc_fits(a, g.states.len() as int, m));
                assert(arcs.contains(a));
                if a.next != s {
                    let ghost w0 = w@;
                    w.arcs.push(a);
                    w.path.push(a.next);
                    if a.tid != 0 {
                        w.labels = w.labels + 1;
                    }
                    proof {
                        walking_on(g.states, w0, a);
                        assert(w@ =~= walk_on(w0, a));
                    }
                }
                left -= 1;
            } else {
                done = true;
            }
        }
    }
    w
}

/// Whether some state of the walk has an emitting self-loop, and how many have.
fn count_loops(graph: &Graph, path: &Vec<u32>) -> (r: usize)
    requires
        forall|i: int| 0 <= i < path@.len() ==> (#[trigger] path@[i]) < graph@.states.len(),
    ensures
        r == loops_from(graph@.states, path@, 0),
        (r > 0) == exists|i: int|
            0 <= i < path@.len() && loop_arc_of(graph@.states, #[trigger] path@[i]) is Some,
{
    let ghost g = graph@.states;
    let n: usize = path.len();
    let mut count: usize = 0;
    let mut i: usize = n;
    while i > 0
        invariant
            n == path@.len(),
            forall|k: int| 0 <= k < path@.len() ==> (#[trigger] path@[k]) < graph@.states.len(),
            g == graph@.states,
            i <= path@.len(),
            count <= n - i,
            count == loops_from(g, path@, i as int),
            (count > 0) == exists|k: int|
                i <= k < path@.len() && loop_arc_of(g, #[trigger] path@[k]) is Some,
        decreases i,
    {
        i -= 1;
        let s: u32 = path[i];
        assert(path@[i as int] < graph@.states.len());
        if find_self_loop(graph, s).is_some() {
            count += 1;
            assert(loop_arc_of(g, path@[i as int]) is Some);
        }
    }
    count
}

/// The arcs of a walk with its loops.
fn lay_path(graph: &Graph, w: &Walk, base: usize, more: usize) -> (r: Vec<Arc>)
    requires
        is_walk(graph@.states, w@),
        base < usize::MAX,
    ensures
        r@ == padded_from(
            graph@.states,
            w@,
            (Padding { base: base as int, more: more as int }),
            0,
            0,
        ),
{
    let ghost g = graph@.states;
    let ghost p = Padding { base: base as int, more: more as int };
    let ghost want = padded_from(g, w@, p, 0, 0);
    let n: usize = w.path.len();
    let mut out: Vec<Arc> = Vec::new();
    let mut counter: usize = 0;
    let mut i: usize = 0;
    assert(out@ + want =~= want);
    while i < n
        invariant
            g == graph@.states,
            is_walk(g, w@),
            n == w.path@.len(),
            base < usize::MAX,
            p == (Padding { base: base as int, more: more as int }),
            i <= n,
            counter <= i,
            want == out@ + padded_from(g, w@, p, i as int, counter as int),
        decreases n - i,
    {
        let s: u32 = w.path[i];
        assert(w@.path[i as int] < g.len());
        let ghost before = out@;
        let ghost rest = padded_from(
            g,
            w@,
            p,
            i + 1,
            if loop_arc_of(g, s) is Some {
                counter + 1
            } else {
                counter as int
            },
        );
        let ghost loops = if loop_arc_of(g, s) is Some {
            repeated_arc(loop_arc_of(g, s)->0, times(p, counter as int))
        } else {
            Seq::empty()
        };
        match find_self_loop(graph, s) {
            Some(off) => {
                let num_loops: usize = if counter < more {
                    base + 1
                } else {
                    base
                };
                let a: Arc = graph.states[s as usize].arcs[off];
                assert(loop_arc_of(g, s) == Some(a));
                let mut k: usize = 0;
                assert(repeated_arc(a, 0) =~= Seq::empty());
                assert(before + repeated_arc(a, 0) =~= before);
                while k < num_loops
                    invariant
                        k <= num_loops,
                        out@ == before + repeated_arc(a, k as int),
                    decreases num_loops - k,
                {
                    out.push(a);
                    assert(repeated_arc(a, k + 1) =~= repeated_arc(a, k as int).push(a));
                    k += 1;
                }
                counter += 1;
            },
            None => {},
        }
        assert(out@ =~= before + loops);
        if i + 1 < n {
            out.push(w.arcs[i]);
            assert(out@ =~= before + (loops + seq![w@.arcs[i as int]]));
            assert(before + (loops + seq![w@.arcs[i as int]] + rest) =~= out@ + rest);
        } else {
            assert(before + (loops + Seq::<Arc>::empty() + rest) =~= out@ + rest);
        }
        i += 1;
    }
    assert(out@ =~= want);
    out
}

/// The alignment along a path.
fn read_path<F: Fn(FloatOp) -> u64>(path: &Vec<Arc>, final_cost: u32, f: &F) -> (r: Alignment)
    requires
        is_evaluator(*f),
    ensures
        is_flat(r, path@, final_cost, *f),
{
    let mut tids: Vec<TransitionId> = Vec::new();
    let mut words: Vec<WordId> = Vec::new();
    let mut prons: Vec<u32> = Vec::new();
    let mut total: u64 = WIDE_ZERO;
    let mut i: usize = 0;
    assert(path@.take(0) =~= Seq::empty());
    while i < path.len()
        invariant
            is_evaluator(*f),
            i <= path@.len(),
            tids@ == path_ids(path@.take(i as int)),
            words@ == path_words(path@.take(i as int)),
            prons@ == path_prons(path@.take(i as int)),
            total == path_cost(path@.take(i as int), *f),
        decreases path.len() - i,
    {
        let a: Arc = path[i];
        proof {
            assert(path@.take(i + 1).drop_last() =~= path@.take(i as int));
            assert(path@.take(i + 1).last() == a);
        }
        if a.tid != 0 {
            tids.push(a.tid);
        }
        if a.word != NO_WORD {
            words.push(a.word);
            prons.push(a.pron);
        }
        total = eval_wide(f, FloatOp::AddWide(total, eval_wide(f, FloatOp::Widen(a.cost))));
        i += 1;
    }
    assert(path@.take(i as int) =~= path@);
    total = eval_wide(f, FloatOp::AddWide(total, eval_wide(f, FloatOp::Widen(final_cost))));
    Alignment {
        utt: String::new(),
        tids,
        words,
        prons,
        loglike: eval(f, FloatOp::Narrow(wide_neg(total))),
    }
}

/// The flat-start alignment along a walk: none if the walk does not end in a final state, has more
/// emitting arcs than there are frames, or has fewer and no loops to pad it with.
pub fn equal_align_along<F: Fn(FloatOp) -> u64>(graph: &Graph, w: &Walk, num_frames: usize, f: &F) -> (r:
    Option<Alignment>)
    requires
        is_evaluator(*f),
        is_walk(graph@.states, w@),
        num_frames < usize::MAX,
    ensures
        match flat_path(graph@, w@, num_frames as int) {
            Some(path) => r matches Some(ali) && is_flat(
                ali,
                path,
                final_cost_of(graph@.finals, w@.path.last())->0,
                *f,
            ) && ali.tids@.len() == num_frames && is_path(graph@.states, path) && final_cost_of(
                graph@.finals,
                ends_at(path),
            ) is Some,
            None => r is None,
        },
{
    let last: u32 = w.path[w.path.len() - 1];
    let final_cost: u32 = match graph.final_cost(last) {
        Some(c) => c,
        None => {
            return None;
        },
    };
    if w.labels > num_frames {
        return None;
    }
    let loops: usize = count_loops(graph, &w.path);
    if loops == 0 && w.labels < num_frames {
        return None;
    }
    let extra: usize = num_frames - w.labels;
    let base: usize = if extra != 0 && loops != 0 {
        extra / loops
    } else {
        0
    };
    proof {
        let e = extra as int;
        let l = loops as int;
        if extra != 0 && loops != 0 {
            assert(0 <= e / l && e / l <= e && (e / l) * l <= e) by (nonlinear_arith)
                requires
                    e >= 0,
                    l > 0,
            ;
        } else {
            assert(0 * l == 0) by (nonlinear_arith);
        }
        flat_path_has_every_frame(graph@, w@, num_frames as int);
        flat_path_is_a_path(graph@, w@, num_frames as int);
    }
    let more: usize = extra - base * loops;
    let path = lay_path(graph, w, base, more);
    Some(read_path(&path, final_cost, f))
}

/// `r` is what a walk leads to: an alignment of every frame along a path that ends in a final state,
/// or none where the walk cannot be padded to the frames.
pub open spec fn is_flat_start<F: Fn(FloatOp) -> u64>(
    r: Option<Alignment>,
    g: GraphView,
    w: WalkView,
    num_frames: int,
    f: F,
) -> bool {
    match flat_path(g, w, num_frames) {
        Some(path) => {
            &&& r matches Some(ali)
            &&& is_flat(ali, path, final_cost_of(g.finals, w.path.last())->0, f)
            &&& ali.tids@.len() == num_frames
            &&& is_path(g.states, path)
            &&& final_cost_of(g.finals, ends_at(path)) is Some
        },
        None => r is None,
    }
}

/// Draws decide the alignment: two generators that were made from the same seed lead to the same
/// alignment of the same frames, or both to none.
pub proof fn equal_seeds_equal_alignments<F: Fn(FloatOp) -> u64>(
    a: Option<Alignment>,
    b: Option<Alignment>,
    g: GraphView,
    m: ModelView,
    seed: u64,
    num_frames: int,
    f: F,
)
    requires
        is_flat_start(a, g, seeded_walk(g, m, seed, num_frames), num_frames, f),
        is_flat_start(b, g, seeded_walk(g, m, seed, num_frames), num_frames, f),
    ensures
        a is Some == b is Some,
        a matches Some(x) ==> b matches Some(y) && x.utt@ == y.utt@ && x.tids@ == y.tids@ && x.words@
            == y.words@ && x.prons@ == y.prons@ && x.loglike == y.loglike,
{
}

/// The walk that a new generator with this seed leads to.
pub open spec fn seeded_walk(g: GraphView, m: ModelView, seed: u64, num_frames: int) -> WalkView {
    tried(
        g,
        m,
        seeded_rule(seed),
        num_frames,
        step_limit(g, num_frames),
        NUM_RETRIES as nat,
        Seq::empty(),
    ).0
}

/// A flat-start alignment of `num_frames` frames.
///
/// A path is drawn up to [`NUM_RETRIES`] times, until it ends in a final state, is not too long, and
/// can be padded if it is too short. What comes back is decided by the draws: it is that of the last
/// path drawn, and there is none where that cannot be padded to the frames.
pub fn equal_align<S: Draws, F: Fn(FloatOp) -> u64>(
    graph: &Graph,
    tm: &TransitionModel,
    num_frames: usize,
    draws: &mut S,
    f: &F,
) -> (r: Option<Alignment>)
    requires
        is_evaluator(*f),
        tm.wf(),
        arcs_fit(graph@.states, tm@),
        is_countable(graph@.states),
        100 * (num_frames + graph@.states.len() + 1) <= usize::MAX,
        old(draws).wf(),
    ensures
        final(draws).wf(),
        final(draws).rule() == old(draws).rule(),
        graph@.states.len() == 0 ==> r is None && final(draws).asked() == old(draws).asked(),
        graph@.states.len() > 0 ==> {
            let (w, asked) = tried(
                graph@,
                tm@,
                old(draws).rule(),
                num_frames as int,
                step_limit(graph@, num_frames as int),
                NUM_RETRIES as nat,
                old(draws).asked(),
            );
            &&& asked == final(draws).asked()
            &&& is_walk(graph@.states, w)
            &&& is_flat_start(r, graph@, w, num_frames as int, *f)
        },
{
    let ghost g = graph@;
    let ghost m = tm@;
    let ghost rule = draws.rule();
    let ghost start = draws.asked();
    if graph.states.len() == 0 {
        return None;
    }
    let max_steps: usize = 100 * (num_frames + graph.states.len() + 1);
    let mut tries: usize = NUM_RETRIES;
    let ghost mut first = start;
    let mut w = draw_walk(graph, tm, max_steps, draws);
    let mut good: bool = is_good(graph, &w, num_frames);
    while tries > 1 && !good
        invariant
            tm.wf(),
            m == tm@,
            g == graph@,
            g.states.len() > 0,
            arcs_fit(g.states, m),
            is_countable(g.states),
            max_steps == step_limit(g, num_frames as int),
            1 <= tries <= NUM_RETRIES,
            is_walk(g.states, w@),
            good == will_do(g, w@, num_frames as int),
            draws.wf(),
            draws.rule() == rule,
            walked(g, m, rule, walk_start(), max_steps as nat, first) == (w@, draws.asked()),
            tried(g, m, rule, num_frames as int, max_steps as nat, NUM_RETRIES as nat, start)
                == tried(g, m, rule, num_frames as int, max_steps as nat, tries as nat, first),
        decreases tries,
    {
        proof {
            first = draws.asked();
        }
        w = draw_walk(graph, tm, max_steps, draws);
        good = is_good(graph, &w, num_frames);
        tries -= 1;
    }
    equal_align_along(graph, &w, num_frames, f)
}

/// Whether a walk will do.
fn is_good(graph: &Graph, w: &Walk, num_frames: usize) -> (r: bool)
    requires
        is_walk(graph@.states, w@),
    ensures
        r == will_do(graph@, w@, num_frames as int),
{
    graph.is_final(w.path[w.path.len() - 1]) && w.labels <= num_frames && (w.labels == num_frames
        || count_loops(graph, &w.path) > 0)
}

} // verus!
