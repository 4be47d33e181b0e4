//! What an alignment is among the paths of its graph: the cheapest one.

use vstd::prelude::*;

use crate::align::viterbi::{
    acoustic_cost, advanced, advancing_grows, aligned, all_held, arcs_along, are_few, beam_cutoff,
    best_cost, best_ending, best_ending_is_least, best_ending_place, best_place, books, closed,
    closing_grows, costs_of, cutoff_of, emitted, emitting_arcs, end_of, ends_at, epsilon_arcs,
    final_reached, found, ids_along, inserted, insertion_keeps_books, is_path, moved, moved_cost,
    moving_grows, no_tokens, placed_tokens, prepared, preview, relaxed, relaxing_grows,
    relaxing_tightens, searched, start_frontier, start_is_in_order, start_token, tightened,
    tokens_are_few, total_slack, traces, trail_is_a_path, trail_stays, trail_to, AlignOptions,
    Frontier, Held, Token, Ways,
};
use crate::exact::{
    constants_are_exact, is_double, is_exact, is_single, is_wide_exact, negation_is_exact, real_of,
    wide_means, wide_order_is_exact, wide_real_of,
};
use crate::float::{
    is_finite_bits, is_wide_finite_bits, value, wide_value, FloatOp, INFINITY, WIDE_INFINITY, ZERO,
};
use crate::hmm::context::count_of;
use crate::hmm::graph::{arc_fits, arcs_fit, final_cost_of, Arc, GraphView};
use crate::hmm::transition::{pdf_of, ModelView};
use crate::types::PdfId;

verus! {

/// What a path is scored by: the log-likelihoods of each frame, the column of each transition id, and
/// the scale of the log-likelihoods.
pub struct Scores {
    pub rows: Seq<Seq<u32>>,
    pub column: spec_fn(u32) -> int,
    pub scale: u32,
}

/// How many frames a path takes.
pub open spec fn frames_of(path: Seq<Arc>) -> nat
    decreases path.len(),
{
    if path.len() == 0 {
        0
    } else {
        frames_of(path.drop_last()) + if path.last().tid != 0 {
            1nat
        } else {
            0nat
        }
    }
}

/// The log-likelihood of an arc that emits at frame `t`.
pub open spec fn score_at(sc: Scores, a: Arc, t: int) -> u32 {
    sc.rows[t][(sc.column)(a.tid)]
}

/// What a path costs: the graph costs of its arcs, less the scale times the log-likelihoods of the
/// frames that they emit.
pub open spec fn cost_of(sc: Scores, path: Seq<Arc>) -> real
    decreases path.len(),
{
    if path.len() == 0 {
        0 as real
    } else {
        let before = path.drop_last();
        let a = path.last();
        if a.tid != 0 {
            cost_of(sc, before) + real_of(a.cost) - real_of(sc.scale) * real_of(
                score_at(sc, a, frames_of(before) as int),
            )
        } else {
            cost_of(sc, before) + real_of(a.cost)
        }
    }
}

/// Adding the last arc of a path to its cost rounds nothing.
pub open spec fn adds_exactly(sc: Scores, path: Seq<Arc>) -> bool {
    let before = path.drop_last();
    let a = path.last();
    let score = score_at(sc, a, frames_of(before) as int);
    &&& is_finite_bits(a.cost)
    &&& is_double(cost_of(sc, path))
    &&& a.tid != 0 ==> is_finite_bits(score) && is_single(real_of(sc.scale) * real_of(score))
        && is_double(real_of(a.cost) + cost_of(sc, before))
}

/// The costs of all paths of at most `n` frames can be computed without rounding.
pub open spec fn add_exactly(sc: Scores, g: Seq<Seq<Arc>>, n: nat) -> bool {
    &&& is_finite_bits(sc.scale)
    &&& forall|path: Seq<Arc>| #[trigger]
        is_path(g, path) && path.len() > 0 && frames_of(path) <= n ==> adds_exactly(sc, path)
}

/// Infinity stays infinity, whatever is added that is not its opposite.
pub open spec fn keeps_infinity<F: Fn(FloatOp) -> u64>(f: F) -> bool {
    &&& wide_value(f, FloatOp::Widen(INFINITY)) == WIDE_INFINITY
    &&& forall|a: u64|
        is_wide_finite_bits(a) || a == WIDE_INFINITY ==> #[trigger] wide_value(
            f,
            FloatOp::AddWide(a, WIDE_INFINITY),
        ) == WIDE_INFINITY
}

/// The ways are the arcs of the graph, all of them, with the columns of their ids.
pub open spec fn are_ways(ways: Seq<Ways>, g: Seq<Seq<Arc>>, sc: Scores) -> bool {
    &&& ways.len() == g.len()
    &&& forall|s: int, k: int|
        0 <= s < ways.len() && 0 <= k < ways[s].emitting.len() ==> {
            let w = #[trigger] ways[s].emitting[k];
            w.0.tid != 0 && w.0.next < g.len() && g[s].contains(w.0) && w.1 == (sc.column)(w.0.tid)
        }
    &&& forall|s: int, k: int|
        0 <= s < ways.len() && 0 <= k < ways[s].epsilon.len() ==> {
            let a = #[trigger] ways[s].epsilon[k];
            a.tid == 0 && a.next < g.len() && g[s].contains(a)
        }
    &&& forall|s: int, a: Arc|
        0 <= s < g.len() && #[trigger] g[s].contains(a) && a.tid == 0 ==> ways[s].epsilon.contains(a)
    &&& forall|s: int, a: Arc|
        0 <= s < g.len() && #[trigger] g[s].contains(a) && a.tid != 0 ==> exists|k: int|
            0 <= k < ways[s].emitting.len() && (#[trigger] ways[s].emitting[k]).0 == a
}

/// Every token costs what its path costs.
spec fn are_true(sc: Scores, fr: Frontier, arena: Seq<Token>) -> bool {
    forall|s: int|
        0 <= s < fr.held.len() ==> (#[trigger] fr.held[s] matches Some(h) ==> wide_means(
            h.cost,
            cost_of(sc, arcs_along(trail_to(arena, h.token as int))),
        ))
}

/// The listed states are those with a token.
#[verifier::opaque]
spec fn are_listed(fr: Frontier) -> bool {
    &&& fr.held.len() <= u32::MAX + 1
    &&& all_held(fr)
    &&& fr.states.no_duplicates()
    &&& forall|s: int|
        0 <= s < fr.held.len() && #[trigger] fr.held[s] is Some ==> fr.states.contains(s as u32)
}

/// The frontier of frame `t` is in order, and its costs are true.
spec fn is_true(sc: Scores, g: Seq<Seq<Arc>>, fr: Frontier, arena: Seq<Token>, t: nat) -> bool {
    &&& books(fr, arena, g, t)
    &&& are_true(sc, fr, arena)
    &&& are_listed(fr)
}

/// No state loses its token, and none gets a dearer one.
spec fn gets_no_dearer(fr: Frontier, after: Frontier) -> bool {
    &&& after.held.len() == fr.held.len()
    &&& forall|s: int|
        0 <= s < fr.held.len() ==> (#[trigger] fr.held[s] matches Some(h)
            ==> after.held[s] matches Some(x) && wide_real_of(x.cost) <= wide_real_of(h.cost))
}

/// The state has a token of at most this cost.
spec fn costs_at_most(fr: Frontier, s: int, x: real) -> bool {
    fr.held[s] matches Some(h) && wide_real_of(h.cost) <= x
}

proof fn ids_are_frames(trail: Seq<Token>)
    ensures
        ids_along(trail).len() == frames_of(arcs_along(trail)),
    decreases trail.len(),
{
    if trail.len() > 0 {
        ids_are_frames(trail.drop_last());
        assert(arcs_along(trail).drop_last() =~= arcs_along(trail.drop_last()));
    }
}

/// The path of a token.
proof fn token_has_a_path(
    g: Seq<Seq<Arc>>,
    fr: Frontier,
    arena: Seq<Token>,
    t: nat,
    s: int,
)
    requires
        books(fr, arena, g, t),
        0 <= s < fr.held.len(),
        fr.held[s] is Some,
    ensures
        ({
            let path = arcs_along(trail_to(arena, fr.held[s]->0.token as int));
            &&& is_path(g, path)
            &&& ends_at(path) == s
            &&& frames_of(path) == t
        }),
{
    let h = fr.held[s]->0;
    trail_is_a_path(arena, g, h.token as int);
    ids_are_frames(trail_to(arena, h.token as int));
}

/// A path goes on along an arc.
proof fn path_goes_on(g: Seq<Seq<Arc>>, path: Seq<Arc>, a: Arc)
    requires
        is_path(g, path),
        ends_at(path) < g.len(),
        g[ends_at(path) as int].contains(a),
    ensures
        is_path(g, path.push(a)),
        path.push(a).drop_last() == path,
        path.push(a).last() == a,
        ends_at(path.push(a)) == a.next,
        frames_of(path.push(a)) == frames_of(path) + if a.tid != 0 {
            1nat
        } else {
            0nat
        },
{
    assert(path.push(a).drop_last() =~= path);
}

/// What a token costs after an epsilon arc.
proof fn epsilon_cost_is_true<F: Fn(FloatOp) -> u64>(
    sc: Scores,
    g: Seq<Seq<Arc>>,
    n: nat,
    path: Seq<Arc>,
    a: Arc,
    cost: u64,
    f: F,
)
    requires
        is_wide_exact(f),
        add_exactly(sc, g, n),
        is_path(g, path),
        frames_of(path) <= n,
        ends_at(path) < g.len(),
        g[ends_at(path) as int].contains(a),
        a.tid == 0,
        wide_means(cost, cost_of(sc, path)),
    ensures
        wide_means(
            wide_value(f, FloatOp::AddWide(cost, wide_value(f, FloatOp::Widen(a.cost)))),
            cost_of(sc, path.push(a)),
        ),
        cost_of(sc, path.push(a)) == cost_of(sc, path) + real_of(a.cost),
{
    path_goes_on(g, path, a);
    assert(adds_exactly(sc, path.push(a)));
    assert(wide_means(wide_value(f, FloatOp::Widen(a.cost)), real_of(a.cost)));
}

/// What a token costs after an arc that emits.
proof fn moved_cost_is_true<F: Fn(FloatOp) -> u64>(
    sc: Scores,
    g: Seq<Seq<Arc>>,
    n: nat,
    path: Seq<Arc>,
    a: Arc,
    cost: u64,
    f: F,
)
    requires
        is_exact(f),
        is_wide_exact(f),
        add_exactly(sc, g, n),
        is_path(g, path),
        frames_of(path) < n,
        ends_at(path) < g.len(),
        g[ends_at(path) as int].contains(a),
        a.tid != 0,
        wide_means(cost, cost_of(sc, path)),
    ensures
        wide_means(
            moved_cost(
                a,
                cost,
                acoustic_cost(sc.scale, score_at(sc, a, frames_of(path) as int), f),
                f,
            ),
            cost_of(sc, path.push(a)),
        ),
        cost_of(sc, path.push(a)) == cost_of(sc, path) + real_of(a.cost) - real_of(sc.scale)
            * real_of(score_at(sc, a, frames_of(path) as int)),
{
    path_goes_on(g, path, a);
    assert(adds_exactly(sc, path.push(a)));
    let score = score_at(sc, a, frames_of(path) as int);
    let product = value(f, FloatOp::Mul(sc.scale, score));
    negation_is_exact(product);
    assert(wide_means(
        acoustic_cost(sc.scale, score, f),
        -(real_of(sc.scale) * real_of(score)),
    ));
    let first = wide_value(f, FloatOp::AddWide(wide_value(f, FloatOp::Widen(a.cost)), cost));
    assert(wide_means(first, real_of(a.cost) + cost_of(sc, path)));
}

proof fn trails_stay(sc: Scores, fr: Frontier, arena: Seq<Token>, token: Token)
    requires
        are_true(sc, fr, arena),
        forall|s: int|
            0 <= s < fr.held.len() ==> (#[trigger] fr.held[s] matches Some(h) ==> h.token
                < arena.len()),
    ensures
        are_true(sc, fr, arena.push(token)),
{
    assert forall|s: int| 0 <= s < fr.held.len() implies (#[trigger] fr.held[s] matches Some(h)
        ==> wide_means(
        h.cost,
        cost_of(sc, arcs_along(trail_to(arena.push(token), h.token as int))),
    )) by {
        if let Some(h) = fr.held[s] {
            trail_stays(arena, token, h.token as int);
        }
    }
}

/// A token that is offered at its true cost leaves all costs true, and its state with a cost of at
/// most that.
proof fn offer_keeps_truth(
    sc: Scores,
    g: Seq<Seq<Arc>>,
    fr: Frontier,
    arena: Seq<Token>,
    t: nat,
    others: Frontier,
    u: nat,
    token: Token,
    cost: u64,
)
    requires
        is_true(sc, g, fr, arena, t),
        placed_tokens(others, arena, u),
        are_true(sc, others, arena),
        token.prev < arena.len(),
        arena.len() < usize::MAX,
        token.arc.next < g.len(),
        end_of(arena, token.prev as int) < g.len(),
        g[end_of(arena, token.prev as int) as int].contains(token.arc),
        frames_of(arcs_along(trail_to(arena, token.prev as int)).push(token.arc)) == t,
        wide_means(
            cost,
            cost_of(sc, arcs_along(trail_to(arena, token.prev as int)).push(token.arc)),
        ),
    ensures
        match inserted(fr, arena, token.arc.next, token, cost) {
            Some(x) => {
                &&& is_true(sc, g, x.0, x.1, t)
                &&& placed_tokens(others, x.1, u)
                &&& are_true(sc, others, x.1)
                &&& x.1 == arena.push(token)
                &&& gets_no_dearer(fr, x.0)
                &&& costs_at_most(x.0, token.arc.next as int, wide_real_of(cost))
                &&& forall|s: int|
                    0 <= s < fr.held.len() && s != token.arc.next ==> #[trigger] x.0.held[s]
                        == fr.held[s]
            },
            None => costs_at_most(fr, token.arc.next as int, wide_real_of(cost)),
        },
{
    reveal(are_listed);
    let state = token.arc.next;
    let old = trail_to(arena, token.prev as int);
    let path = arcs_along(old);
    ids_are_frames(old);
    assert(path.push(token.arc).drop_last() =~= path);
    if let Some(h) = fr.held[state as int] {
        wide_order_is_exact(cost, h.cost);
    }
    if let Some(x) = inserted(fr, arena, state, token, cost) {
        insertion_keeps_books(fr, arena, g, t, others, u, state, token, cost);
        trails_stay(sc, fr, arena, token);
        trails_stay(sc, others, arena, token);
        trail_stays(arena, token, token.prev as int);
        let n = arena.len() as int;
        assert(x.1[n] == token);
        assert(arcs_along(trail_to(x.1, n)) =~= path.push(token.arc));
        assert(are_true(sc, x.0, x.1)) by {
            assert forall|s: int| 0 <= s < x.0.held.len() implies (
            #[trigger] x.0.held[s] matches Some(h) ==> wide_means(
                h.cost,
                cost_of(sc, arcs_along(trail_to(x.1, h.token as int))),
            )) by {
                if s != state {
                    assert(x.0.held[s] == fr.held[s]);
                }
            }
        }
        assert(are_listed(x.0)) by {
            assert forall|i: int| 0 <= i < x.0.states.len() implies (#[trigger] x.0.states[i])
                < x.0.held.len() && x.0.held[x.0.states[i] as int] is Some by {
                if i < fr.states.len() {
                    assert(x.0.states[i] == fr.states[i]);
                }
            }
            assert(x.0.states.no_duplicates()) by {
                if fr.held[state as int] is None {
                    assert forall|i: int| 0 <= i < fr.states.len() implies fr.states[i] != state by {
                        assert(fr.held[fr.states[i] as int] is Some);
                    }
                }
            }
            assert forall|s: int|
                0 <= s < x.0.held.len() && #[trigger] x.0.held[s] is Some implies x.0.states.contains(
                s as u32,
            ) by {
                if fr.held[s] is Some {
                    assert(fr.states.contains(s as u32));
                    let i = choose|i: int| 0 <= i < fr.states.len() && fr.states[i] == s as u32;
                    assert(x.0.states[i] == s as u32);
                } else {
                    assert(x.0.states[fr.states.len() as int] == state);
                }
            }
        }
    }
}

proof fn dearer_is_transitive(a: Frontier, b: Frontier, c: Frontier)
    requires
        gets_no_dearer(a, b),
        gets_no_dearer(b, c),
    ensures
        gets_no_dearer(a, c),
{
    assert forall|s: int| 0 <= s < a.held.len() implies (#[trigger] a.held[s] matches Some(h)
        ==> c.held[s] matches Some(x) && wide_real_of(x.cost) <= wide_real_of(h.cost)) by {
        if a.held[s] is Some {
            assert(b.held[s] is Some);
        }
    }
}

/// The queue still holds what it held, and every state that got another token.
spec fn is_queued(fr: Frontier, after: Frontier, queue: Seq<u32>, more: Seq<u32>) -> bool {
    &&& forall|x: u32| #[trigger] queue.contains(x) ==> more.contains(x)
    &&& forall|s: int|
        0 <= s < fr.held.len() && #[trigger] after.held[s] != fr.held[s] ==> more.contains(s as u32)
}

/// Relaxing the arcs of a state leaves their ends with tokens that cost no more than going there.
proof fn relaxing_reaches<F: Fn(FloatOp) -> u64>(
    sc: Scores,
    g: Seq<Seq<Arc>>,
    n: nat,
    fr: Frontier,
    arena: Seq<Token>,
    queue: Seq<u32>,
    arcs: Seq<Arc>,
    i: int,
    from: Held,
    t: nat,
    f: F,
)
    requires
        is_wide_exact(f),
        add_exactly(sc, g, n),
        t <= n,
        is_true(sc, g, fr, arena, t),
        0 <= i <= arcs.len(),
        from.token < arena.len(),
        end_of(arena, from.token as int) < g.len(),
        frames_of(arcs_along(trail_to(arena, from.token as int))) == t,
        wide_means(from.cost, cost_of(sc, arcs_along(trail_to(arena, from.token as int)))),
        forall|k: int|
            0 <= k < arcs.len() ==> (#[trigger] arcs[k]).tid == 0 && arcs[k].next < g.len() && g[end_of(
                arena,
                from.token as int,
            ) as int].contains(arcs[k]),
        forall|k: int| 0 <= k < queue.len() ==> (#[trigger] queue[k]) < g.len(),
        relaxed(fr, arena, queue, arcs, i, from, WIDE_INFINITY, f).1.len() <= usize::MAX,
    ensures
        ({
            let r = relaxed(fr, arena, queue, arcs, i, from, WIDE_INFINITY, f);
            &&& is_true(sc, g, r.0, r.1, t)
            &&& gets_no_dearer(fr, r.0)
            &&& is_queued(fr, r.0, queue, r.2)
            &&& forall|k: int| 0 <= k < r.2.len() ==> (#[trigger] r.2[k]) < g.len()
            &&& forall|k: int|
                i <= k < arcs.len() ==> costs_at_most(
                    r.0,
                    (#[trigger] arcs[k]).next as int,
                    wide_real_of(from.cost) + real_of(arcs[k].cost),
                )
        }),
    decreases arcs.len() - i,
{
    if i < arcs.len() {
        let a = arcs[i];
        let cost = wide_value(
            f,
            FloatOp::AddWide(from.cost, wide_value(f, FloatOp::Widen(a.cost))),
        );
        let token = Token { prev: from.token, arc: a, ac_cost: ZERO };
        let path = arcs_along(trail_to(arena, from.token as int));
        trail_is_a_path(arena, g, from.token as int);
        epsilon_cost_is_true(sc, g, n, path, a, from.cost, f);
        path_goes_on(g, path, a);
        let r = relaxed(fr, arena, queue, arcs, i, from, WIDE_INFINITY, f);
        match inserted(fr, arena, a.next, token, cost) {
            Some((fr1, arena1)) => {
                let queue1 = queue.push(a.next);
                relaxing_grows(fr1, arena1, queue1, arcs, i + 1, from, WIDE_INFINITY, f);
                offer_keeps_truth(sc, g, fr, arena, t, fr, t, token, cost);
                trail_stays(arena, token, from.token as int);
                assert(arena1[from.token as int] == arena[from.token as int]);
                assert forall|k: int| 0 <= k < queue1.len() implies (#[trigger] queue1[k])
                    < g.len() by {
                    if k < queue.len() {
                        assert(queue1[k] == queue[k]);
                    }
                }
                relaxing_reaches(sc, g, n, fr1, arena1, queue1, arcs, i + 1, from, t, f);
                dearer_is_transitive(fr, fr1, r.0);
                assert(queue1[queue.len() as int] == a.next);
                assert(queue1.contains(a.next));
                assert(is_queued(fr, r.0, queue, r.2)) by {
                    assert forall|x: u32| #[trigger] queue.contains(x) implies r.2.contains(x) by {
                        let k = choose|k: int| 0 <= k < queue.len() && queue[k] == x;
                        assert(queue1[k] == x);
                        assert(queue1.contains(x));
                    }
                    assert forall|s: int|
                        0 <= s < fr.held.len() && #[trigger] r.0.held[s] != fr.held[s] implies r.2.contains(
                        s as u32,
                    ) by {
                        if s != a.next {
                            assert(fr1.held[s] == fr.held[s]);
                        }
                    }
                }
                assert(fr1.held[a.next as int] is Some);
            },
            None => {
                assert(arena.len() <= r.1.len()) by {
                    relaxing_grows(fr, arena, queue, arcs, i + 1, from, WIDE_INFINITY, f);
                }
                not_taken(fr, arena, token, cost);
                relaxing_reaches(sc, g, n, fr, arena, queue, arcs, i + 1, from, t, f);
                assert(fr.held[a.next as int] is Some);
            },
        }
        assert(costs_at_most(r.0, a.next as int, wide_real_of(from.cost) + real_of(a.cost)));
    }
}

/// A token that is not taken finds one that costs no more.
proof fn not_taken(fr: Frontier, arena: Seq<Token>, token: Token, cost: u64)
    requires
        inserted(fr, arena, token.arc.next, token, cost) is None,
        is_wide_finite_bits(cost),
        fr.held[token.arc.next as int] matches Some(h) ==> is_wide_finite_bits(h.cost),
    ensures
        costs_at_most(fr, token.arc.next as int, wide_real_of(cost)),
{
    if let Some(h) = fr.held[token.arc.next as int] {
        wide_order_is_exact(cost, h.cost);
    }
}

/// No epsilon arc out of the state leads to a lower cost.
spec fn is_settled(fr: Frontier, ways: Seq<Ways>, s: int) -> bool {
    forall|k: int|
        0 <= k < ways[s].epsilon.len() ==> costs_at_most(
            fr,
            (#[trigger] ways[s].epsilon[k]).next as int,
            wide_real_of(fr.held[s]->0.cost) + real_of(ways[s].epsilon[k].cost),
        )
}

/// Every state with a token waits in the queue or is settled.
spec fn is_worked_off(fr: Frontier, ways: Seq<Ways>, queue: Seq<u32>) -> bool {
    forall|s: int|
        0 <= s < fr.held.len() && #[trigger] fr.held[s] is Some ==> queue.contains(s as u32)
            || is_settled(fr, ways, s)
}

/// Closing over the epsilon arcs settles all states.
#[verifier::rlimit(40)]
proof fn closing_settles<F: Fn(FloatOp) -> u64>(
    sc: Scores,
    g: Seq<Seq<Arc>>,
    n: nat,
    fr: Frontier,
    arena: Seq<Token>,
    queue: Seq<u32>,
    ways: Seq<Ways>,
    t: nat,
    f: F,
)
    requires
        is_wide_exact(f),
        add_exactly(sc, g, n),
        t <= n,
        is_true(sc, g, fr, arena, t),
        are_ways(ways, g, sc),
        is_worked_off(fr, ways, queue),
        forall|k: int| 0 <= k < queue.len() ==> (#[trigger] queue[k]) < g.len(),
        closed(fr, arena, queue, ways, WIDE_INFINITY, f).1.len() <= usize::MAX,
    ensures
        ({
            let r = closed(fr, arena, queue, ways, WIDE_INFINITY, f);
            &&& is_true(sc, g, r.0, r.1, t)
            &&& gets_no_dearer(fr, r.0)
            &&& is_worked_off(r.0, ways, Seq::empty())
        }),
    decreases total_slack(fr.held), queue.len(),
{
    if queue.len() == 0 {
        assert(queue =~= Seq::empty());
    } else {
        let state = queue.last();
        let rest = queue.drop_last();
        assert(queue[queue.len() - 1] < g.len());
        let r = closed(fr, arena, queue, ways, WIDE_INFINITY, f);
        assert forall|x: u32| #[trigger] queue.contains(x) && x != state implies rest.contains(x) by {
            let k = choose|k: int| 0 <= k < queue.len() && queue[k] == x;
            assert(rest[k] == x);
        }
        match fr.held[state as int] {
            None => {
                closing_settles(sc, g, n, fr, arena, rest, ways, t, f);
            },
            Some(from) => {
                let arcs = ways[state as int].epsilon;
                let (fr1, arena1, queue1) = relaxed(
                    fr,
                    arena,
                    rest,
                    arcs,
                    0,
                    from,
                    WIDE_INFINITY,
                    f,
                );
                assert forall|k: int| 0 <= k < arcs.len() implies (#[trigger] arcs[k]).tid == 0
                    && arcs[k].next < g.len() && g[state as int].contains(arcs[k]) by {
                    assert(ways[state as int].epsilon[k].tid == 0);
                }
                relaxing_tightens(fr, arena, rest, arcs, 0, from, WIDE_INFINITY, f);
                closing_grows(fr1, arena1, queue1, ways, WIDE_INFINITY, f);
                ids_are_frames(trail_to(arena, from.token as int));
                relaxing_reaches(sc, g, n, fr, arena, rest, arcs, 0, from, t, f);
                assert(is_worked_off(fr1, ways, queue1)) by {
                    assert forall|s: int|
                        0 <= s < fr1.held.len() && #[trigger] fr1.held[s] is Some implies queue1.contains(
                        s as u32,
                    ) || is_settled(fr1, ways, s) by {
                        if fr1.held[s] == fr.held[s] && !queue1.contains(s as u32) {
                            if s == state {
                                assert(is_settled(fr1, ways, s));
                            } else {
                                assert(!rest.contains(s as u32));
                                assert(is_settled(fr, ways, s));
                                settled_stays(fr, fr1, ways, s);
                            }
                        }
                    }
                }
                closing_settles(sc, g, n, fr1, arena1, queue1, ways, t, f);
                dearer_is_transitive(fr, fr1, r.0);
            },
        }
    }
}

/// A state that keeps its token stays settled where the others get no dearer.
proof fn settled_stays(fr: Frontier, after: Frontier, ways: Seq<Ways>, s: int)
    requires
        is_settled(fr, ways, s),
        gets_no_dearer(fr, after),
        after.held[s] == fr.held[s],
        forall|k: int|
            0 <= k < ways[s].epsilon.len() ==> (#[trigger] ways[s].epsilon[k]).next < fr.held.len(),
    ensures
        is_settled(after, ways, s),
{
    assert forall|k: int| 0 <= k < ways[s].epsilon.len() implies costs_at_most(
        after,
        (#[trigger] ways[s].epsilon[k]).next as int,
        wide_real_of(after.held[s]->0.cost) + real_of(ways[s].epsilon[k].cost),
    ) by {
        let to = ways[s].epsilon[k].next as int;
        assert(costs_at_most(
            fr,
            to,
            wide_real_of(fr.held[s]->0.cost) + real_of(ways[s].epsilon[k].cost),
        ));
        assert(fr.held[to] is Some);
    }
}

/// With an infinite beam the cutoff stays infinite.
proof fn nothing_tightens<F: Fn(FloatOp) -> u64>(cost: u64, f: F)
    requires
        keeps_infinity(f),
        is_wide_finite_bits(cost),
    ensures
        tightened(WIDE_INFINITY, cost, INFINITY, f) == WIDE_INFINITY,
{
}

/// What a path costs after an arc that emits at frame `t`.
spec fn going(sc: Scores, cost: real, a: Arc, t: int) -> real {
    cost + real_of(a.cost) - real_of(sc.scale) * real_of(score_at(sc, a, t))
}

/// Moving a token leaves the ends of its arcs with tokens that cost no more than going there.
#[verifier::rlimit(60)]
proof fn moving_reaches<F: Fn(FloatOp) -> u64>(
    sc: Scores,
    g: Seq<Seq<Arc>>,
    n: nat,
    fr: Frontier,
    next: Frontier,
    arena: Seq<Token>,
    arcs: Seq<(Arc, usize)>,
    i: int,
    from: Held,
    t: nat,
    f: F,
)
    requires
        is_exact(f),
        is_wide_exact(f),
        keeps_infinity(f),
        add_exactly(sc, g, n),
        t < n,
        is_true(sc, g, next, arena, t + 1),
        placed_tokens(fr, arena, t),
        are_true(sc, fr, arena),
        0 <= i <= arcs.len(),
        from.token < arena.len(),
        end_of(arena, from.token as int) < g.len(),
        frames_of(arcs_along(trail_to(arena, from.token as int))) == t,
        wide_means(from.cost, cost_of(sc, arcs_along(trail_to(arena, from.token as int)))),
        forall|k: int|
            0 <= k < arcs.len() ==> (#[trigger] arcs[k]).0.tid != 0 && arcs[k].0.next < g.len()
                && g[end_of(arena, from.token as int) as int].contains(arcs[k].0) && arcs[k].1 == (
            sc.column)(arcs[k].0.tid),
        moved(
            next,
            arena,
            WIDE_INFINITY,
            arcs,
            i,
            from,
            sc.rows[t as int],
            sc.scale,
            INFINITY,
            f,
        ).1.len() <= usize::MAX,
    ensures
        ({
            let r = moved(
                next,
                arena,
                WIDE_INFINITY,
                arcs,
                i,
                from,
                sc.rows[t as int],
                sc.scale,
                INFINITY,
                f,
            );
            &&& is_true(sc, g, r.0, r.1, t + 1)
            &&& placed_tokens(fr, r.1, t)
            &&& are_true(sc, fr, r.1)
            &&& gets_no_dearer(next, r.0)
            &&& r.2 == WIDE_INFINITY
            &&& forall|k: int|
                i <= k < arcs.len() ==> costs_at_most(
                    r.0,
                    (#[trigger] arcs[k]).0.next as int,
                    going(sc, wide_real_of(from.cost), arcs[k].0, t as int),
                )
        }),
    decreases arcs.len() - i,
{
    if i < arcs.len() {
        let row = sc.rows[t as int];
        let a = arcs[i].0;
        let acoustic = acoustic_cost(sc.scale, row[arcs[i].1 as int], f);
        let cost = moved_cost(a, from.cost, acoustic, f);
        let token = Token {
            prev: from.token,
            arc: a,
            ac_cost: value(f, FloatOp::Narrow(acoustic)),
        };
        let path = arcs_along(trail_to(arena, from.token as int));
        trail_is_a_path(arena, g, from.token as int);
        assert(row[arcs[i].1 as int] == score_at(sc, a, t as int));
        moved_cost_is_true(sc, g, n, path, a, from.cost, f);
        path_goes_on(g, path, a);
        nothing_tightens(cost, f);
        let r = moved(next, arena, WIDE_INFINITY, arcs, i, from, row, sc.scale, INFINITY, f);
        let reached = going(sc, wide_real_of(from.cost), a, t as int);
        assert(wide_means(cost, reached));
        match inserted(next, arena, a.next, token, cost) {
            Some((next1, arena1)) => {
                moving_grows(
                    next1,
                    arena1,
                    WIDE_INFINITY,
                    arcs,
                    i + 1,
                    from,
                    row,
                    sc.scale,
                    INFINITY,
                    f,
                );
                offer_keeps_truth(sc, g, next, arena, t + 1, fr, t, token, cost);
                trail_stays(arena, token, from.token as int);
                assert(arena1[from.token as int] == arena[from.token as int]);
                moving_reaches(sc, g, n, fr, next1, arena1, arcs, i + 1, from, t, f);
                dearer_is_transitive(next, next1, r.0);
                assert(next1.held[a.next as int] is Some);
            },
            None => {
                not_taken(next, arena, token, cost);
                moving_reaches(sc, g, n, fr, next, arena, arcs, i + 1, from, t, f);
                assert(next.held[a.next as int] is Some);
            },
        }
        assert(costs_at_most(r.0, a.next as int, reached));
    }
}

/// Every arc that emits leads from a state with a token to one with a token that costs no more than
/// going there.
spec fn is_reached(
    sc: Scores,
    fr: Frontier,
    next: Frontier,
    arcs: Seq<(Arc, usize)>,
    s: int,
    t: nat,
) -> bool {
    forall|k: int|
        0 <= k < arcs.len() ==> costs_at_most(
            next,
            (#[trigger] arcs[k]).0.next as int,
            going(sc, wide_real_of(fr.held[s]->0.cost), arcs[k].0, t as int),
        )
}

proof fn reached_stays(
    sc: Scores,
    g: Seq<Seq<Arc>>,
    fr: Frontier,
    next: Frontier,
    after: Frontier,
    arcs: Seq<(Arc, usize)>,
    s: int,
    t: nat,
)
    requires
        is_reached(sc, fr, next, arcs, s, t),
        gets_no_dearer(next, after),
        next.held.len() == g.len(),
        forall|k: int| 0 <= k < arcs.len() ==> (#[trigger] arcs[k]).0.next < g.len(),
    ensures
        is_reached(sc, fr, after, arcs, s, t),
{
    assert forall|k: int| 0 <= k < arcs.len() implies costs_at_most(
        after,
        (#[trigger] arcs[k]).0.next as int,
        going(sc, wide_real_of(fr.held[s]->0.cost), arcs[k].0, t as int),
    ) by {
        assert(next.held[arcs[k].0.next as int] is Some);
    }
}

/// The arcs of a state with a token are ways for it.
proof fn ways_are_arcs(
    sc: Scores,
    g: Seq<Seq<Arc>>,
    fr: Frontier,
    arena: Seq<Token>,
    t: nat,
    ways: Seq<Ways>,
    s: int,
)
    requires
        placed_tokens(fr, arena, t),
        are_ways(ways, g, sc),
        fr.held.len() == g.len(),
        0 <= s < g.len(),
        fr.held[s] is Some,
    ensures
        ({
            let from = fr.held[s]->0;
            let arcs = ways[s].emitting;
            &&& from.token < arena.len()
            &&& end_of(arena, from.token as int) == s
            &&& frames_of(arcs_along(trail_to(arena, from.token as int))) == t
            &&& forall|k: int|
                0 <= k < arcs.len() ==> (#[trigger] arcs[k]).0.tid != 0 && arcs[k].0.next < g.len()
                    && g[s].contains(arcs[k].0) && arcs[k].1 == (sc.column)(arcs[k].0.tid)
        }),
{
    let from = fr.held[s]->0;
    ids_are_frames(trail_to(arena, from.token as int));
    let arcs = ways[s].emitting;
    assert forall|k: int| 0 <= k < arcs.len() implies (#[trigger] arcs[k]).0.tid != 0
        && arcs[k].0.next < g.len() && g[s].contains(arcs[k].0) && arcs[k].1 == (sc.column)(
        arcs[k].0.tid,
    ) by {
        assert(ways[s].emitting[k].0.tid != 0);
    }
}

/// Moving all tokens leaves the ends of all their arcs with tokens that cost no more than going
/// there.
#[verifier::rlimit(60)]
proof fn advancing_reaches<F: Fn(FloatOp) -> u64>(
    sc: Scores,
    g: Seq<Seq<Arc>>,
    n: nat,
    fr: Frontier,
    next: Frontier,
    arena: Seq<Token>,
    i: int,
    ways: Seq<Ways>,
    t: nat,
    f: F,
)
    requires
        is_exact(f),
        is_wide_exact(f),
        keeps_infinity(f),
        add_exactly(sc, g, n),
        t < n,
        is_true(sc, g, next, arena, t + 1),
        placed_tokens(fr, arena, t),
        are_true(sc, fr, arena),
        are_listed(fr),
        fr.held.len() == g.len(),
        are_ways(ways, g, sc),
        0 <= i <= fr.states.len(),
        advanced(
            fr,
            next,
            arena,
            WIDE_INFINITY,
            i,
            ways,
            sc.rows[t as int],
            sc.scale,
            WIDE_INFINITY,
            INFINITY,
            f,
        ).1.len() <= usize::MAX,
    ensures
        ({
            let r = advanced(
                fr,
                next,
                arena,
                WIDE_INFINITY,
                i,
                ways,
                sc.rows[t as int],
                sc.scale,
                WIDE_INFINITY,
                INFINITY,
                f,
            );
            &&& is_true(sc, g, r.0, r.1, t + 1)
            &&& gets_no_dearer(next, r.0)
            &&& r.2 == WIDE_INFINITY
            &&& forall|j: int|
                i <= j < fr.states.len() ==> is_reached(
                    sc,
                    fr,
                    r.0,
                    ways[(#[trigger] fr.states[j]) as int].emitting,
                    fr.states[j] as int,
                    t,
                )
        }),
    decreases fr.states.len() - i,
{
    if i < fr.states.len() {
        let row = sc.rows[t as int];
        let state = fr.states[i] as int;
        reveal(are_listed);
        assert(fr.states[i] < fr.held.len() && fr.held[fr.states[i] as int] is Some);
        let from = fr.held[state]->0;
        let arcs = ways[state].emitting;
        ways_are_arcs(sc, g, fr, arena, t, ways, state);
        let (next1, arena1, cutoff1) = moved(
            next,
            arena,
            WIDE_INFINITY,
            arcs,
            0,
            from,
            row,
            sc.scale,
            INFINITY,
            f,
        );
        let r = advanced(
            fr,
            next,
            arena,
            WIDE_INFINITY,
            i,
            ways,
            row,
            sc.scale,
            WIDE_INFINITY,
            INFINITY,
            f,
        );
        assert(is_wide_finite_bits(from.cost));
        advancing_grows(
            fr,
            next1,
            arena1,
            cutoff1,
            i + 1,
            ways,
            row,
            sc.scale,
            WIDE_INFINITY,
            INFINITY,
            f,
        );
        moving_reaches(sc, g, n, fr, next, arena, arcs, 0, from, t, f);
        advancing_reaches(sc, g, n, fr, next1, arena1, i + 1, ways, t, f);
        dearer_is_transitive(next, next1, r.0);
        assert(is_reached(sc, fr, next1, arcs, state, t));
        reached_stays(sc, g, fr, next1, r.0, arcs, state, t);
    }
}

proof fn preview_stays<F: Fn(FloatOp) -> u64>(
    sc: Scores,
    g: Seq<Seq<Arc>>,
    n: nat,
    arena: Seq<Token>,
    arcs: Seq<(Arc, usize)>,
    i: int,
    from: Held,
    t: nat,
    f: F,
)
    requires
        is_exact(f),
        is_wide_exact(f),
        keeps_infinity(f),
        add_exactly(sc, g, n),
        t < n,
        traces(arena, g),
        0 <= i <= arcs.len(),
        from.token < arena.len(),
        end_of(arena, from.token as int) < g.len(),
        frames_of(arcs_along(trail_to(arena, from.token as int))) == t,
        wide_means(from.cost, cost_of(sc, arcs_along(trail_to(arena, from.token as int)))),
        forall|k: int|
            0 <= k < arcs.len() ==> (#[trigger] arcs[k]).0.tid != 0 && arcs[k].0.next < g.len()
                && g[end_of(arena, from.token as int) as int].contains(arcs[k].0) && arcs[k].1 == (
            sc.column)(arcs[k].0.tid),
    ensures
        preview(
            WIDE_INFINITY,
            arcs,
            i,
            from.cost,
            sc.rows[t as int],
            sc.scale,
            INFINITY,
            f,
        ) == WIDE_INFINITY,
    decreases arcs.len() - i,
{
    if i < arcs.len() {
        let a = arcs[i].0;
        let path = arcs_along(trail_to(arena, from.token as int));
        trail_is_a_path(arena, g, from.token as int);
        assert(sc.rows[t as int][arcs[i].1 as int] == score_at(sc, a, t as int));
        moved_cost_is_true(sc, g, n, path, a, from.cost, f);
        nothing_tightens(
            moved_cost(a, from.cost, acoustic_cost(sc.scale, score_at(sc, a, t as int), f), f),
            f,
        );
        preview_stays(sc, g, n, arena, arcs, i + 1, from, t, f);
    }
}

proof fn best_cost_is_one(costs: Seq<u64>, n: int)
    requires
        0 <= n <= costs.len(),
        forall|i: int| 0 <= i < costs.len() ==> is_wide_finite_bits(#[trigger] costs[i]),
    ensures
        is_wide_finite_bits(best_cost(costs, n)) || best_cost(costs, n) == WIDE_INFINITY,
        best_place(costs, n) matches Some(i) ==> 0 <= i < n,
    decreases n,
{
    if n > 0 {
        best_cost_is_one(costs, n - 1);
    }
}

/// Distinct numbers below `n` are at most `n`.
proof fn distinct_are_few(s: Seq<u32>, n: int)
    requires
        0 <= n,
        s.no_duplicates(),
        forall|i: int| 0 <= i < s.len() ==> (#[trigger] s[i]) < n,
    ensures
        s.len() <= n,
    decreases n,
{
    if n == 0 {
        if s.len() > 0 {
            assert(s[0] < 0);
        }
    } else if exists|i: int| 0 <= i < s.len() && s[i] == n - 1 {
        let i = choose|i: int| 0 <= i < s.len() && s[i] == n - 1;
        let rest = s.remove(i);
        assert forall|j: int| 0 <= j < rest.len() implies (#[trigger] rest[j]) < n - 1 by {
            if j < i {
                assert(rest[j] == s[j]);
            } else {
                assert(rest[j] == s[j + 1]);
            }
        }
        assert(rest.no_duplicates());
        distinct_are_few(rest, n - 1);
    } else {
        assert forall|j: int| 0 <= j < s.len() implies (#[trigger] s[j]) < n - 1 by {
            assert(s[j] != n - 1);
        }
        distinct_are_few(s, n - 1);
    }
}

/// Nothing is pruned: the beam is infinite, and all states can be active at once.
pub open spec fn prunes_nothing(opts: AlignOptions, states: nat) -> bool {
    opts.beam == INFINITY && states <= opts.max_active
}

/// After a frame every path that ends with an arc that emits has a token at its end that costs no
/// more.
spec fn is_sown(sc: Scores, g: Seq<Seq<Arc>>, fr: Frontier, t: nat) -> bool {
    forall|path: Seq<Arc>| #[trigger]
        is_path(g, path) && frames_of(path) == t && (path.len() == 0 || path.last().tid != 0)
            ==> costs_at_most(fr, ends_at(path) as int, cost_of(sc, path))
}

/// Every path of `t` frames has a token at its end that costs no more.
spec fn is_covered(sc: Scores, g: Seq<Seq<Arc>>, fr: Frontier, t: nat) -> bool {
    forall|path: Seq<Arc>| #[trigger]
        is_path(g, path) && frames_of(path) == t ==> costs_at_most(
            fr,
            ends_at(path) as int,
            cost_of(sc, path),
        )
}

/// All arcs lead to states.
spec fn lead_inside(g: Seq<Seq<Arc>>) -> bool {
    &&& g.len() > 0
    &&& forall|s: int, k: int|
        0 <= s < g.len() && 0 <= k < g[s].len() ==> (#[trigger] g[s][k]).next < g.len()
}

proof fn paths_end_inside(g: Seq<Seq<Arc>>, path: Seq<Arc>)
    requires
        lead_inside(g),
        is_path(g, path),
    ensures
        ends_at(path) < g.len(),
{
    if path.len() > 0 {
        let s = ends_at(path.drop_last()) as int;
        let k = choose|k: int| 0 <= k < g[s].len() && g[s][k] == path.last();
        assert(g[s][k].next < g.len());
    }
}

/// Settled states cover all paths where those that have just emitted are covered.
proof fn settling_covers(
    sc: Scores,
    g: Seq<Seq<Arc>>,
    before: Frontier,
    fr: Frontier,
    ways: Seq<Ways>,
    t: nat,
    path: Seq<Arc>,
)
    requires
        lead_inside(g),
        are_ways(ways, g, sc),
        before.held.len() == g.len(),
        is_sown(sc, g, before, t),
        gets_no_dearer(before, fr),
        is_worked_off(fr, ways, Seq::empty()),
        is_path(g, path),
        frames_of(path) == t,
    ensures
        costs_at_most(fr, ends_at(path) as int, cost_of(sc, path)),
    decreases path.len(),
{
    paths_end_inside(g, path);
    if path.len() == 0 || path.last().tid != 0 {
        assert(costs_at_most(before, ends_at(path) as int, cost_of(sc, path)));
        assert(before.held[ends_at(path) as int] is Some);
    } else {
        let rest = path.drop_last();
        let a = path.last();
        let s = ends_at(rest) as int;
        settling_covers(sc, g, before, fr, ways, t, rest);
        assert(fr.held[s] is Some);
        assert(!Seq::<u32>::empty().contains(s as u32));
        assert(is_settled(fr, ways, s));
        assert(g[s].contains(a));
        let k = choose|k: int| 0 <= k < ways[s].epsilon.len() && ways[s].epsilon[k] == a;
        assert(costs_at_most(
            fr,
            ways[s].epsilon[k].next as int,
            wide_real_of(fr.held[s]->0.cost) + real_of(a.cost),
        ));
    }
}

/// A frame of the search: what emits is sown from what is covered.
#[verifier::rlimit(60)]
proof fn emitting_sows<F: Fn(FloatOp) -> u64>(
    sc: Scores,
    g: Seq<Seq<Arc>>,
    n: nat,
    fr: Frontier,
    arena: Seq<Token>,
    ways: Seq<Ways>,
    opts: AlignOptions,
    t: nat,
    f: F,
)
    requires
        is_exact(f),
        is_wide_exact(f),
        keeps_infinity(f),
        add_exactly(sc, g, n),
        t < n,
        lead_inside(g),
        is_true(sc, g, fr, arena, t),
        are_ways(ways, g, sc),
        prunes_nothing(opts, g.len()),
        sc.scale == opts.acoustic_scale,
        is_covered(sc, g, fr, t),
        emitted(fr, arena, ways, sc.rows[t as int], opts, INFINITY, f).1.len() <= usize::MAX,
    ensures
        ({
            let r = emitted(fr, arena, ways, sc.rows[t as int], opts, INFINITY, f);
            &&& is_true(sc, g, r.0, r.1, t + 1)
            &&& r.2 == WIDE_INFINITY
            &&& is_sown(sc, g, r.0, t + 1)
        }),
{
    reveal(are_listed);
    let row = sc.rows[t as int];
    let costs = costs_of(fr);
    let next = no_tokens(fr.held.len());
    let r = emitted(fr, arena, ways, row, opts, INFINITY, f);
    assert forall|i: int| 0 <= i < costs.len() implies is_wide_finite_bits(#[trigger] costs[i]) by {
        assert(fr.states[i] < fr.held.len() && fr.held[fr.states[i] as int] is Some);
    }
    best_cost_is_one(costs, costs.len() as int);
    distinct_are_few(fr.states, g.len() as int);
    assert(beam_cutoff(costs, INFINITY, f) == WIDE_INFINITY);
    assert(cutoff_of(costs, opts, INFINITY, f) == (WIDE_INFINITY, INFINITY));
    if let Some(i) = best_place(costs, costs.len() as int) {
        let s = fr.states[i] as int;
        assert(fr.states[i] < fr.held.len() && fr.held[fr.states[i] as int] is Some);
        ways_are_arcs(sc, g, fr, arena, t, ways, s);
        preview_stays(sc, g, n, arena, ways[s].emitting, 0, fr.held[s]->0, t, f);
        assert(costs[i] == fr.held[s]->0.cost);
    }
    assert(is_true(sc, g, next, arena, t + 1));
    advancing_reaches(sc, g, n, fr, next, arena, 0, ways, t, f);
    assert forall|path: Seq<Arc>| #[trigger]
        is_path(g, path) && frames_of(path) == t + 1 && (path.len() == 0 || path.last().tid
            != 0) implies costs_at_most(r.0, ends_at(path) as int, cost_of(sc, path)) by {
        let rest = path.drop_last();
        let a = path.last();
        let s = ends_at(rest) as int;
        paths_end_inside(g, rest);
        assert(is_path(g, rest) && frames_of(rest) == t);
        assert(costs_at_most(fr, s, cost_of(sc, rest)));
        assert(fr.held[s] is Some);
        assert(fr.states.contains(s as u32));
        let j = choose|j: int| 0 <= j < fr.states.len() && fr.states[j] == s as u32;
        assert(is_reached(
            sc,
            fr,
            r.0,
            ways[fr.states[j] as int].emitting,
            fr.states[j] as int,
            t,
        ));
        assert(g[s].contains(a));
        let k = choose|k: int|
            0 <= k < ways[s].emitting.len() && (#[trigger] ways[s].emitting[k]).0 == a;
        assert(ways[s].emitting[k].0 == a);
        assert(costs_at_most(
            r.0,
            a.next as int,
            going(sc, wide_real_of(fr.held[s]->0.cost), a, t as int),
        ));
    }
}

/// A path of more frames has one of `t` frames at its start.
proof fn path_through(g: Seq<Seq<Arc>>, path: Seq<Arc>, t: nat) -> (start: Seq<Arc>)
    requires
        is_path(g, path),
        t <= frames_of(path),
    ensures
        is_path(g, start),
        frames_of(start) == t,
    decreases path.len(),
{
    if frames_of(path) == t {
        path
    } else {
        path_through(g, path.drop_last(), t)
    }
}

/// A search that drops nothing covers all paths.
#[verifier::rlimit(40)]
proof fn searching_covers<F: Fn(FloatOp) -> u64>(
    sc: Scores,
    g: Seq<Seq<Arc>>,
    fr: Frontier,
    arena: Seq<Token>,
    ways: Seq<Ways>,
    opts: AlignOptions,
    t: nat,
    path: Seq<Arc>,
    f: F,
)
    requires
        is_exact(f),
        is_wide_exact(f),
        keeps_infinity(f),
        add_exactly(sc, g, sc.rows.len()),
        t <= sc.rows.len(),
        lead_inside(g),
        is_true(sc, g, fr, arena, t),
        are_ways(ways, g, sc),
        prunes_nothing(opts, g.len()),
        sc.scale == opts.acoustic_scale,
        is_covered(sc, g, fr, t),
        are_few(fr, arena, ways, sc.rows, t as int, opts, INFINITY, f),
        is_path(g, path),
        frames_of(path) == sc.rows.len(),
    ensures
        searched(fr, arena, ways, sc.rows, t as int, opts, INFINITY, f) matches Some((fr1, arena1))
            && is_true(sc, g, fr1, arena1, sc.rows.len()) && is_covered(
            sc,
            g,
            fr1,
            sc.rows.len(),
        ),
    decreases sc.rows.len() - t,
{
    if t < sc.rows.len() {
        let n = sc.rows.len();
        let (fr1, arena1, cutoff) = emitted(
            fr,
            arena,
            ways,
            sc.rows[t as int],
            opts,
            INFINITY,
            f,
        );
        closing_grows(fr1, arena1, fr1.states, ways, cutoff, f);
        emitting_sows(sc, g, n, fr, arena, ways, opts, t, f);
        let (fr2, arena2) = closed(fr1, arena1, fr1.states, ways, WIDE_INFINITY, f);
        assert(is_worked_off(fr1, ways, fr1.states)) by {
            reveal(are_listed);
        }
        assert(forall|k: int| 0 <= k < fr1.states.len() ==> (#[trigger] fr1.states[k]) < g.len())
            by {
            reveal(are_listed);
        }
        closing_settles(sc, g, n, fr1, arena1, fr1.states, ways, t + 1, f);
        assert(is_covered(sc, g, fr2, t + 1)) by {
            assert forall|p: Seq<Arc>| #[trigger]
                is_path(g, p) && frames_of(p) == t + 1 implies costs_at_most(
                fr2,
                ends_at(p) as int,
                cost_of(sc, p),
            ) by {
                settling_covers(sc, g, fr1, fr2, ways, t + 1, p);
            }
        }
        let part = path_through(g, path, t + 1);
        paths_end_inside(g, part);
        assert(costs_at_most(fr2, ends_at(part) as int, cost_of(sc, part)));
        assert(fr2.states.len() > 0) by {
            reveal(are_listed);
            assert(fr2.held[ends_at(part) as int] is Some);
            assert(fr2.states.contains(ends_at(part)));
        }
        searching_covers(sc, g, fr2, arena2, ways, opts, t + 1, path, f);
    }
}

/// What a path to a final state costs in all.
pub open spec fn total_of(sc: Scores, path: Seq<Arc>, final_cost: u32) -> real {
    cost_of(sc, path) + real_of(final_cost)
}

/// Ending rounds nothing.
pub open spec fn end_exactly(sc: Scores, g: Seq<Seq<Arc>>, finals: Seq<(u32, u32)>, n: nat) -> bool {
    forall|path: Seq<Arc>|
        #![trigger is_path(g, path)]
        is_path(g, path) && frames_of(path) == n ==> (final_cost_of(
            finals,
            ends_at(path),
        ) matches Some(c) ==> is_finite_bits(c) && is_double(total_of(sc, path, c)))
}

/// The search finds a path that is no dearer than any other.
#[verifier::rlimit(40)]
proof fn best_path_is_found<F: Fn(FloatOp) -> u64>(
    sc: Scores,
    g: Seq<Seq<Arc>>,
    finals: Seq<(u32, u32)>,
    ways: Seq<Ways>,
    opts: AlignOptions,
    path: Seq<Arc>,
    f: F,
)
    requires
        is_exact(f),
        is_wide_exact(f),
        keeps_infinity(f),
        g.len() <= u32::MAX + 1,
        add_exactly(sc, g, sc.rows.len()),
        end_exactly(sc, g, finals, sc.rows.len()),
        lead_inside(g),
        are_ways(ways, g, sc),
        prunes_nothing(opts, g.len()),
        sc.scale == opts.acoustic_scale,
        tokens_are_few(ways, sc.rows, opts, INFINITY, f),
        is_path(g, path),
        frames_of(path) == sc.rows.len(),
        final_cost_of(finals, ends_at(path)) is Some,
    ensures
        found(ways, finals, sc.rows, opts, INFINITY, f) matches Some((trail, c)) && is_path(
            g,
            arcs_along(trail),
        ) && frames_of(arcs_along(trail)) == sc.rows.len() && final_cost_of(
            finals,
            ends_at(arcs_along(trail)),
        ) == Some(c) && total_of(sc, arcs_along(trail), c) <= total_of(
            sc,
            path,
            final_cost_of(finals, ends_at(path))->0,
        ),
{
    let n = sc.rows.len();
    let start = start_frontier(g.len());
    let first = seq![start_token()];
    start_is_in_order(g);
    constants_are_exact();
    assert(trail_to(first, 0) =~= Seq::empty());
    assert(arcs_along(trail_to(first, 0)) =~= Seq::empty());
    assert(is_true(sc, g, start, first, 0)) by {
        reveal(are_listed);
        assert(start.states[0] == 0);
        assert(start.states.contains(0u32));
    }
    assert(is_worked_off(start, ways, start.states)) by {
        assert(start.states[0] == 0);
        assert(start.states.contains(0u32));
    }
    closing_settles(sc, g, n, start, first, start.states, ways, 0, f);
    let (fr, arena) = closed(start, first, start.states, ways, WIDE_INFINITY, f);
    assert(is_sown(sc, g, start, 0)) by {
        assert forall|p: Seq<Arc>| #[trigger]
            is_path(g, p) && frames_of(p) == 0 && (p.len() == 0 || p.last().tid
                != 0) implies costs_at_most(start, ends_at(p) as int, cost_of(sc, p)) by {
            assert(p.len() == 0);
        }
    }
    assert(is_covered(sc, g, fr, 0)) by {
        assert forall|p: Seq<Arc>| #[trigger]
            is_path(g, p) && frames_of(p) == 0 implies costs_at_most(
            fr,
            ends_at(p) as int,
            cost_of(sc, p),
        ) by {
            settling_covers(sc, g, start, fr, ways, 0, p);
        }
    }
    searching_covers(sc, g, fr, arena, ways, opts, 0, path, f);
    let (fr1, arena1) = searched(fr, arena, ways, sc.rows, 0, opts, INFINITY, f)->0;
    let s = ends_at(path);
    let c = final_cost_of(finals, s)->0;
    paths_end_inside(g, path);
    assert(costs_at_most(fr1, s as int, cost_of(sc, path)));
    let h = fr1.held[s as int]->0;
    let i = {
        assert(fr1.states.contains(s)) by {
            reveal(are_listed);
        }
        choose|i: int| 0 <= i < fr1.states.len() && fr1.states[i] == s
    };
    token_has_a_path(g, fr1, arena1, n, s as int);
    let own = arcs_along(trail_to(arena1, h.token as int));
    let here = wide_value(f, FloatOp::AddWide(h.cost, wide_value(f, FloatOp::Widen(c))));
    assert(is_double(total_of(sc, own, c)));
    assert(wide_means(here, total_of(sc, own, c)));
    assert(final_reached(fr1, finals)) by {
        assert(final_cost_of(finals, fr1.states[i]) is Some);
    }
    best_ending_is_least(fr1, finals, fr1.states.len() as int, i, f);
    let e = best_ending(fr1, finals, fr1.states.len() as int, f)->0;
    let j = best_ending_place(fr1, finals, fr1.states.len() as int, f);
    let u = fr1.states[j];
    assert(u < fr1.held.len() && fr1.held[u as int] is Some) by {
        reveal(are_listed);
        assert(fr1.states[j] < fr1.held.len() && fr1.held[fr1.states[j] as int] is Some);
    }
    token_has_a_path(g, fr1, arena1, n, u as int);
    let best = arcs_along(trail_to(arena1, e.token as int));
    assert(is_double(total_of(sc, best, e.final_cost)));
    assert(wide_means(e.total, total_of(sc, best, e.final_cost)));
    wide_order_is_exact(here, e.total);
}

proof fn emitting_arcs_are_all<G: Fn(PdfId) -> usize>(
    arcs: Seq<Arc>,
    m: ModelView,
    col: G,
    k: int,
)
    requires
        0 <= k <= arcs.len(),
    ensures
        forall|j: int|
            0 <= j < emitting_arcs(arcs, m, col, k).len() ==> {
                let w = #[trigger] emitting_arcs(arcs, m, col, k)[j];
                w.0.tid != 0 && arcs.contains(w.0) && w.1 == count_of(
                    col,
                    pdf_of(m.topo, m.tuples, w.0.tid as int),
                )
            },
        forall|i: int|
            0 <= i < k && (#[trigger] arcs[i]).tid != 0 ==> exists|j: int|
                0 <= j < emitting_arcs(arcs, m, col, k).len() && (#[trigger] emitting_arcs(
                    arcs,
                    m,
                    col,
                    k,
                )[j]).0 == arcs[i],
        forall|j: int|
            0 <= j < epsilon_arcs(arcs, k).len() ==> (#[trigger] epsilon_arcs(arcs, k)[j]).tid == 0
                && arcs.contains(epsilon_arcs(arcs, k)[j]),
        forall|i: int|
            0 <= i < k && (#[trigger] arcs[i]).tid == 0 ==> epsilon_arcs(arcs, k).contains(arcs[i]),
    decreases k,
{
    if k > 0 {
        emitting_arcs_are_all(arcs, m, col, k - 1);
        let a = arcs[k - 1];
        assert(arcs.contains(a));
        let (e0, e) = (emitting_arcs(arcs, m, col, k - 1), emitting_arcs(arcs, m, col, k));
        let (n0, n) = (epsilon_arcs(arcs, k - 1), epsilon_arcs(arcs, k));
        assert forall|j: int| 0 <= j < e.len() implies {
            let w = #[trigger] e[j];
            w.0.tid != 0 && arcs.contains(w.0) && w.1 == count_of(
                col,
                pdf_of(m.topo, m.tuples, w.0.tid as int),
            )
        } by {
            if j < e0.len() {
                assert(e[j] == e0[j]);
            }
        }
        assert forall|i: int| 0 <= i < k && (#[trigger] arcs[i]).tid != 0 implies exists|j: int|
            0 <= j < e.len() && (#[trigger] e[j]).0 == arcs[i] by {
            if i < k - 1 {
                let j = choose|j: int| 0 <= j < e0.len() && (#[trigger] e0[j]).0 == arcs[i];
                assert(e[j] == e0[j]);
            } else {
                assert(e[e0.len() as int].0 == a);
            }
        }
        assert forall|j: int| 0 <= j < n.len() implies (#[trigger] n[j]).tid == 0
            && arcs.contains(n[j]) by {
            if j < n0.len() {
                assert(n[j] == n0[j]);
            }
        }
        assert forall|i: int| 0 <= i < k && (#[trigger] arcs[i]).tid == 0 implies n.contains(
            arcs[i],
        ) by {
            if i < k - 1 {
                let j = choose|j: int| 0 <= j < n0.len() && n0[j] == arcs[i];
                assert(n[j] == arcs[i]);
            } else {
                assert(n[n0.len() as int] == a);
            }
        }
    }
}

/// How the log-likelihoods of an utterance score the paths of a graph: an arc has the column of the
/// pdf that its transition id emits by.
pub open spec fn scores_by<G: Fn(PdfId) -> usize>(
    m: ModelView,
    col: G,
    rows: Seq<Seq<u32>>,
    scale: u32,
) -> Scores {
    Scores {
        rows,
        column: |tid: u32| count_of(col, pdf_of(m.topo, m.tuples, tid as int)) as int,
        scale,
    }
}

proof fn prepared_ways_are_all<G: Fn(PdfId) -> usize>(
    g: GraphView,
    m: ModelView,
    col: G,
    rows: Seq<Seq<u32>>,
    scale: u32,
)
    requires
        arcs_fit(g.states, m),
    ensures
        are_ways(prepared(g, m, col), g.states, scores_by(m, col, rows, scale)),
{
    let ways = prepared(g, m, col);
    let sc = scores_by(m, col, rows, scale);
    let states = g.states;
    assert forall|s: int, a: Arc| 0 <= s < states.len() && #[trigger] states[s].contains(a) implies a.next
        < states.len() by {
        let i = choose|i: int| 0 <= i < states[s].len() && states[s][i] == a;
        assert(arc_fits(states[s][i], states.len() as int, m));
    }
    assert forall|s: int, k: int| 0 <= s < ways.len() && 0 <= k < ways[s].emitting.len() implies {
        let w = #[trigger] ways[s].emitting[k];
        w.0.tid != 0 && w.0.next < states.len() && states[s].contains(w.0) && w.1 == (sc.column)(
            w.0.tid,
        )
    } by {
        emitting_arcs_are_all(states[s], m, col, states[s].len() as int);
    }
    assert forall|s: int, k: int| 0 <= s < ways.len() && 0 <= k < ways[s].epsilon.len() implies {
        let a = #[trigger] ways[s].epsilon[k];
        a.tid == 0 && a.next < states.len() && states[s].contains(a)
    } by {
        emitting_arcs_are_all(states[s], m, col, states[s].len() as int);
    }
    assert forall|s: int, a: Arc|
        0 <= s < states.len() && #[trigger] states[s].contains(a) && a.tid
            == 0 implies ways[s].epsilon.contains(a) by {
        emitting_arcs_are_all(states[s], m, col, states[s].len() as int);
        let i = choose|i: int| 0 <= i < states[s].len() && states[s][i] == a;
        assert(states[s][i].tid == 0);
    }
    assert forall|s: int, a: Arc|
        0 <= s < states.len() && #[trigger] states[s].contains(a) && a.tid != 0 implies exists|k: int|
        0 <= k < ways[s].emitting.len() && (#[trigger] ways[s].emitting[k]).0 == a by {
        emitting_arcs_are_all(states[s], m, col, states[s].len() as int);
        let i = choose|i: int| 0 <= i < states[s].len() && states[s][i] == a;
        assert(states[s][i].tid != 0);
        let k = choose|k: int|
            0 <= k < emitting_arcs(states[s], m, col, states[s].len() as int).len() && (
            #[trigger] emitting_arcs(states[s], m, col, states[s].len() as int)[k]).0
                == states[s][i];
        assert(ways[s].emitting[k].0 == a);
    }
}

/// An alignment is the best there is: where nothing is rounded and nothing is pruned, one is found if
/// the graph has any path of as many frames to a final state, and no such path has a lower total of
/// graph costs, less the acoustic scale times the log-likelihoods, than the path of the alignment.
pub proof fn alignments_are_best<F: Fn(FloatOp) -> u64, G: Fn(PdfId) -> usize>(
    g: GraphView,
    m: ModelView,
    col: G,
    rows: Seq<Seq<u32>>,
    opts: AlignOptions,
    path: Seq<Arc>,
    f: F,
)
    requires
        is_exact(f),
        is_wide_exact(f),
        keeps_infinity(f),
        0 < g.states.len() <= u32::MAX + 1,
        arcs_fit(g.states, m),
        prunes_nothing(opts, g.states.len()),
        tokens_are_few(prepared(g, m, col), rows, opts, opts.beam, f),
        add_exactly(scores_by(m, col, rows, opts.acoustic_scale), g.states, rows.len()),
        end_exactly(scores_by(m, col, rows, opts.acoustic_scale), g.states, g.finals, rows.len()),
        is_path(g.states, path),
        frames_of(path) == rows.len(),
        final_cost_of(g.finals, ends_at(path)) is Some,
    ensures
        aligned(prepared(g, m, col), g.finals, rows, opts, f) matches Some((trail, c)) && is_path(
            g.states,
            arcs_along(trail),
        ) && frames_of(arcs_along(trail)) == rows.len() && final_cost_of(
            g.finals,
            ends_at(arcs_along(trail)),
        ) == Some(c) && total_of(
            scores_by(m, col, rows, opts.acoustic_scale),
            arcs_along(trail),
            c,
        ) <= total_of(
            scores_by(m, col, rows, opts.acoustic_scale),
            path,
            final_cost_of(g.finals, ends_at(path))->0,
        ),
{
    let sc = scores_by(m, col, rows, opts.acoustic_scale);
    prepared_ways_are_all(g, m, col, rows, opts.acoustic_scale);
    assert(lead_inside(g.states)) by {
        assert forall|s: int, k: int|
            0 <= s < g.states.len() && 0 <= k < g.states[s].len() implies (
        #[trigger] g.states[s][k]).next < g.states.len() by {
            assert(arc_fits(g.states[s][k], g.states.len() as int, m));
        }
    }
    best_path_is_found(sc, g.states, g.finals, prepared(g, m, col), opts, path, f);
}

} // verus!
