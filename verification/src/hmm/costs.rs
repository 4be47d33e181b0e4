//! What the costs of graphs and the probabilities of transitions mean as numbers, where nothing is
//! rounded.

use vstd::prelude::*;

use crate::exact::{
    constants_are_exact, difference_is_exact, is_double, is_exact, is_single, is_wide_exact, means,
    negation_is_exact, order_is_exact, product_is_exact, quotient_undoes, real_of, sum_is_exact,
    wide_means, wide_quotient_is_exact, wide_real_of, wide_sum_is_exact,
};
use crate::float::{negated, same, value, FloatOp, ONE, ZERO};
use crate::hmm::construct::{after_costs_of, neg_log_of};
use crate::hmm::graph::{arc_cost, forward_log_prob, leaving_cost, Arc};
use crate::hmm::transition::{log_of_leaving, normalized, wide_sum, ModelView};

verus! {

/// What leaving a state costs: the log probability of not looping of the transition state that
/// entered it, by the scale and with the sign flipped; nothing where none did.
pub open spec fn leaving_number(entered: Option<u32>, scale: real, leave: real) -> real {
    if entered is Some {
        -scale * leave
    } else {
        0 as real
    }
}

proof fn leaving_is_exact<F: Fn(FloatOp) -> u64>(
    entered: Option<u32>,
    m: ModelView,
    self_loop_scale: u32,
    scale: real,
    leave: real,
    f: F,
)
    requires
        is_exact(f),
        means(self_loop_scale, scale),
        entered matches Some(e) ==> means(m.leaving[e as int], leave) && is_single(-scale * leave),
    ensures
        means(
            leaving_cost(entered, m, self_loop_scale, f),
            leaving_number(entered, scale, leave),
        ),
{
    constants_are_exact();
    negation_is_exact(self_loop_scale);
    if let Some(e) = entered {
        product_is_exact(f, negated(self_loop_scale), -scale, m.leaving[e as int], leave);
    }
}

/// A self-loop costs its log probability, by the self-loop scale and with the sign flipped.
pub proof fn loops_cost_their_log_prob<F: Fn(FloatOp) -> u64>(
    a: Arc,
    s: int,
    entered: Option<u32>,
    m: ModelView,
    transition_scale: u32,
    self_loop_scale: u32,
    scale: real,
    log_prob: real,
    f: F,
)
    requires
        is_exact(f),
        a.tid != 0,
        a.next == s,
        m.loops(a.tid as int),
        means(self_loop_scale, scale),
        means(m.log_probs[a.tid as int], log_prob),
        is_single(-scale * log_prob),
    ensures
        means(
            arc_cost(a, s, entered, m, transition_scale, self_loop_scale, f),
            -scale * log_prob,
        ),
{
    negation_is_exact(self_loop_scale);
    product_is_exact(
        f,
        negated(self_loop_scale),
        -scale,
        m.log_probs[a.tid as int],
        log_prob,
    );
}

/// A forward arc costs what the words before it cost, less the log probability of its transition
/// among those that do not loop, by the transition scale, plus what leaving its state costs.
pub proof fn forward_arcs_cost_their_log_prob<F: Fn(FloatOp) -> u64>(
    a: Arc,
    s: int,
    entered: Option<u32>,
    m: ModelView,
    transition_scale: u32,
    self_loop_scale: u32,
    lm: real,
    tau: real,
    sigma: real,
    log_prob: real,
    own: real,
    leave: real,
    f: F,
)
    requires
        is_exact(f),
        a.tid != 0,
        a.next != s || !m.loops(a.tid as int),
        means(a.lm, lm),
        means(transition_scale, tau),
        means(self_loop_scale, sigma),
        means(m.log_probs[a.tid as int], log_prob),
        means(m.leaving[m.owner(a.tid as int)], own),
        entered matches Some(e) ==> means(m.leaving[e as int], leave) && is_single(-sigma * leave),
        is_single(log_prob - own),
        is_single(tau * (log_prob - own)),
        is_single(lm - tau * (log_prob - own)),
        is_single(lm - tau * (log_prob - own) + leaving_number(entered, sigma, leave)),
    ensures
        means(
            arc_cost(a, s, entered, m, transition_scale, self_loop_scale, f),
            lm - tau * (log_prob - own) + leaving_number(entered, sigma, leave),
        ),
{
    leaving_is_exact(entered, m, self_loop_scale, sigma, leave, f);
    let t = a.tid as int;
    difference_is_exact(f, m.log_probs[t], log_prob, m.leaving[m.owner(t)], own);
    product_is_exact(
        f,
        transition_scale,
        tau,
        forward_log_prob(m, t, f),
        log_prob - own,
    );
    let forward = value(f, FloatOp::Mul(transition_scale, forward_log_prob(m, t, f)));
    difference_is_exact(f, a.lm, lm, forward, tau * (log_prob - own));
    sum_is_exact(
        f,
        value(f, FloatOp::Sub(a.lm, forward)),
        lm - tau * (log_prob - own),
        leaving_cost(entered, m, self_loop_scale, f),
        leaving_number(entered, sigma, leave),
    );
}

/// An arc that emits nothing costs what it did, plus what leaving its state costs.
pub proof fn epsilon_arcs_cost_leaving<F: Fn(FloatOp) -> u64>(
    a: Arc,
    s: int,
    entered: Option<u32>,
    m: ModelView,
    transition_scale: u32,
    self_loop_scale: u32,
    lm: real,
    sigma: real,
    leave: real,
    f: F,
)
    requires
        is_exact(f),
        a.tid == 0,
        means(a.lm, lm),
        means(self_loop_scale, sigma),
        entered matches Some(e) ==> means(m.leaving[e as int], leave) && is_single(-sigma * leave),
        is_single(lm + leaving_number(entered, sigma, leave)),
    ensures
        means(
            arc_cost(a, s, entered, m, transition_scale, self_loop_scale, f),
            lm + leaving_number(entered, sigma, leave),
        ),
{
    leaving_is_exact(entered, m, self_loop_scale, sigma, leave, f);
    sum_is_exact(
        f,
        a.lm,
        lm,
        leaving_cost(entered, m, self_loop_scale, f),
        leaving_number(entered, sigma, leave),
    );
}

/// The cost of a probability is its logarithm with the sign flipped.
pub proof fn probabilities_cost_their_log<F: Fn(FloatOp) -> u64>(p: u32, x: real, log: real, f: F)
    requires
        means(p, x),
        x > 0 as real,
        means(value(f, FloatOp::Ln(p)), log),
    ensures
        means(neg_log_of(p, f), -log),
{
    constants_are_exact();
    order_is_exact(ZERO, p);
    negation_is_exact(value(f, FloatOp::Ln(p)));
}

/// The probabilities that silence follows a pronunciation and that none does add up to one, and each
/// costs its logarithm with the sign flipped. The pronunciation's own probability counts before the
/// common one.
pub proof fn silence_costs_are_of_one<F: Fn(FloatOp) -> u64>(
    after: Option<u32>,
    silence_prob: u32,
    x: real,
    f: F,
) -> (rest: u32)
    requires
        is_exact(f),
        ({
            let p = if after is Some && !same(after->0, ZERO) {
                after->0
            } else {
                silence_prob
            };
            means(p, x)
        }),
        x > 0 as real,
        x < 1 as real,
        is_single(1 as real - x),
    ensures
        real_of(rest) + x == 1 as real,
        after_costs_of(after, silence_prob, f).0 == negated(
            value(
                f,
                FloatOp::Ln(
                    if after is Some && !same(after->0, ZERO) {
                        after->0
                    } else {
                        silence_prob
                    },
                ),
            ),
        ),
        after_costs_of(after, silence_prob, f).1 == negated(value(f, FloatOp::Ln(rest))),
{
    let p = if after is Some && !same(after->0, ZERO) {
        after->0
    } else {
        silence_prob
    };
    constants_are_exact();
    order_is_exact(ZERO, p);
    difference_is_exact(f, ONE, 1 as real, p, x);
    let rest = value(f, FloatOp::Sub(ONE, p));
    order_is_exact(ZERO, rest);
    rest
}

/// The probability of leaving a state is what is left of one after that of its self-loop.
pub proof fn leaving_is_what_looping_leaves<F: Fn(FloatOp) -> u64>(lp: u32, e: real, f: F) -> (rest:
    u32)
    requires
        is_exact(f),
        means(value(f, FloatOp::Exp(lp)), e),
        e < 1 as real,
        is_single(1 as real - e),
    ensures
        real_of(rest) + e == 1 as real,
        log_of_leaving(lp, f) == value(f, FloatOp::Ln(rest)),
{
    constants_are_exact();
    let exp = value(f, FloatOp::Exp(lp));
    difference_is_exact(f, ONE, 1 as real, exp, e);
    let rest = value(f, FloatOp::Sub(ONE, exp));
    order_is_exact(ZERO, rest);
    rest
}

/// Relative counts are the counts over their sum.
pub proof fn shares_are_of_the_sum<F: Fn(FloatOp) -> u64>(
    xs: Seq<u64>,
    i: int,
    x: real,
    total: real,
    f: F,
)
    requires
        is_wide_exact(f),
        0 <= i < xs.len(),
        wide_means(xs[i], x),
        wide_means(wide_sum(xs, xs.len() as int, f), total),
        total != 0 as real,
        is_double(x / total),
    ensures
        wide_real_of(normalized(xs, f)[i]) * total == x,
{
    wide_quotient_is_exact(f, xs[i], x, wide_sum(xs, xs.len() as int, f), total);
    quotient_undoes(x, total);
}

/// The first `n` numbers together.
pub open spec fn total_upto(xs: Seq<real>, n: int) -> real
    decreases n,
{
    if n <= 0 {
        0 as real
    } else {
        total_upto(xs, n - 1) + xs[n - 1]
    }
}

/// Sums of counts are what they add up to.
pub proof fn sums_are_totals<F: Fn(FloatOp) -> u64>(xs: Seq<u64>, x: Seq<real>, n: int, f: F)
    requires
        is_wide_exact(f),
        0 <= n,
        forall|k: int| 0 <= k < n ==> wide_means(#[trigger] xs[k], x[k]),
        forall|k: int| 0 <= k < n ==> is_double(#[trigger] total_upto(x, k + 1)),
    ensures
        wide_means(wide_sum(xs, n, f), total_upto(x, n)),
    decreases n,
{
    constants_are_exact();
    if n > 0 {
        sums_are_totals(xs, x, n - 1, f);
        assert(wide_means(xs[n - 1], x[n - 1]));
        assert(is_double(total_upto(x, (n - 1) + 1)));
        wide_sum_is_exact(f, wide_sum(xs, n - 1, f), total_upto(x, n - 1), xs[n - 1], x[n - 1]);
    }
}

} // verus!
