//! What the log-likelihoods of alignments mean as numbers, where nothing is rounded.

use vstd::prelude::*;

use crate::align::equal::{flat_loglike, path_cost};
use crate::align::viterbi::{acoustic_total, graph_total, loglike_of, Token};
use crate::exact::{
    constants_are_exact, is_double, is_exact, is_single, is_wide_exact, means, order_is_exact,
    quotient_undoes, real_of, wide_means, wide_negation_is_exact, wide_quotient_is_exact,
    wide_sum_is_exact,
};
use crate::float::{value, wide_negated, wide_value, FloatOp, WIDE_ZERO, ZERO};
use crate::hmm::graph::Arc;

verus! {

/// The numbers together.
pub open spec fn total_of(xs: Seq<real>) -> real
    decreases xs.len(),
{
    if xs.len() == 0 {
        0 as real
    } else {
        total_of(xs.drop_last()) + xs.last()
    }
}

/// The numbers can be added to `s` from the last to the first without rounding.
pub open spec fn add_from_the_end(xs: Seq<real>, s: real) -> bool
    decreases xs.len(),
{
    xs.len() == 0 || (is_double(s + xs.last()) && add_from_the_end(xs.drop_last(), s + xs.last()))
}

/// The acoustic costs along a trail are added up.
pub proof fn acoustic_costs_add_up<F: Fn(FloatOp) -> u64>(
    trail: Seq<Token>,
    costs: Seq<real>,
    sum: u64,
    s: real,
    f: F,
)
    requires
        is_wide_exact(f),
        trail.len() == costs.len(),
        forall|k: int| 0 <= k < trail.len() ==> means((#[trigger] trail[k]).ac_cost, costs[k]),
        wide_means(sum, s),
        add_from_the_end(costs, s),
    ensures
        wide_means(acoustic_total(trail, sum, f), s + total_of(costs)),
    decreases trail.len(),
{
    if trail.len() > 0 {
        let k = trail.len() - 1;
        assert(means(trail[k].ac_cost, costs[k]));
        let wide = wide_value(f, FloatOp::Widen(trail.last().ac_cost));
        wide_sum_is_exact(f, sum, s, wide, costs.last());
        let rest = trail.drop_last();
        assert forall|j: int| 0 <= j < rest.len() implies means(
            (#[trigger] rest[j]).ac_cost,
            costs.drop_last()[j],
        ) by {
            assert(rest[j] == trail[j]);
        }
        acoustic_costs_add_up(
            rest,
            costs.drop_last(),
            wide_value(f, FloatOp::AddWide(sum, wide)),
            s + costs.last(),
            f,
        );
    }
}

/// The graph costs along a trail are added up.
pub proof fn graph_costs_add_up<F: Fn(FloatOp) -> u64>(
    trail: Seq<Token>,
    costs: Seq<real>,
    sum: u64,
    s: real,
    f: F,
)
    requires
        is_wide_exact(f),
        trail.len() == costs.len(),
        forall|k: int| 0 <= k < trail.len() ==> means((#[trigger] trail[k]).arc.cost, costs[k]),
        wide_means(sum, s),
        add_from_the_end(costs, s),
    ensures
        wide_means(graph_total(trail, sum, f), s + total_of(costs)),
    decreases trail.len(),
{
    if trail.len() > 0 {
        let k = trail.len() - 1;
        assert(means(trail[k].arc.cost, costs[k]));
        let wide = wide_value(f, FloatOp::Widen(trail.last().arc.cost));
        wide_sum_is_exact(f, sum, s, wide, costs.last());
        let rest = trail.drop_last();
        assert forall|j: int| 0 <= j < rest.len() implies means(
            (#[trigger] rest[j]).arc.cost,
            costs.drop_last()[j],
        ) by {
            assert(rest[j] == trail[j]);
        }
        graph_costs_add_up(
            rest,
            costs.drop_last(),
            wide_value(f, FloatOp::AddWide(sum, wide)),
            s + costs.last(),
            f,
        );
    }
}

/// The log-likelihood of an alignment, by the acoustic scale, is the opposite of all the costs of its
/// path: the acoustic ones, those of the graph and that of ending.
pub proof fn log_likelihoods_are_totals<F: Fn(FloatOp) -> u64>(
    trail: Seq<Token>,
    acoustic: Seq<real>,
    graph: Seq<real>,
    final_cost: u32,
    end: real,
    scale: u32,
    sigma: real,
    f: F,
)
    requires
        is_exact(f),
        is_wide_exact(f),
        trail.len() == acoustic.len(),
        trail.len() == graph.len(),
        forall|k: int| 0 <= k < trail.len() ==> means((#[trigger] trail[k]).ac_cost, acoustic[k]),
        forall|k: int| 0 <= k < trail.len() ==> means((#[trigger] trail[k]).arc.cost, graph[k]),
        means(final_cost, end),
        means(scale, sigma),
        sigma != 0 as real,
        add_from_the_end(acoustic, 0 as real),
        add_from_the_end(graph, end),
        is_double(end + total_of(graph) + total_of(acoustic)),
        is_double(-(end + total_of(graph) + total_of(acoustic)) / sigma),
        is_single(-(end + total_of(graph) + total_of(acoustic)) / sigma),
    ensures
        real_of(loglike_of(trail, final_cost, scale, f)) * sigma == -(end + total_of(graph)
            + total_of(acoustic)),
{
    let all = end + total_of(graph) + total_of(acoustic);
    constants_are_exact();
    order_is_exact(scale, ZERO);
    acoustic_costs_add_up(trail, acoustic, WIDE_ZERO, 0 as real, f);
    let wide = wide_value(f, FloatOp::Widen(final_cost));
    graph_costs_add_up(trail, graph, wide, end, f);
    let a = acoustic_total(trail, WIDE_ZERO, f);
    let g = graph_total(trail, wide, f);
    wide_sum_is_exact(f, g, end + total_of(graph), a, total_of(acoustic));
    let sum = wide_value(f, FloatOp::AddWide(g, a));
    wide_negation_is_exact(sum);
    let by = wide_value(f, FloatOp::Widen(scale));
    wide_quotient_is_exact(f, wide_negated(sum), -all, by, sigma);
    let q = wide_value(f, FloatOp::DivWide(wide_negated(sum), by));
    assert(means(value(f, FloatOp::Narrow(q)), -all / sigma));
    quotient_undoes(-all, sigma);
}

proof fn path_costs_add_up<F: Fn(FloatOp) -> u64>(path: Seq<Arc>, costs: Seq<real>, f: F)
    requires
        is_wide_exact(f),
        path.len() == costs.len(),
        forall|k: int| 0 <= k < path.len() ==> means((#[trigger] path[k]).cost, costs[k]),
        forall|k: int| 0 <= k <= costs.len() ==> is_double(#[trigger] total_of(costs.take(k))),
    ensures
        wide_means(path_cost(path, f), total_of(costs)),
    decreases path.len(),
{
    constants_are_exact();
    if path.len() > 0 {
        let n = path.len() - 1;
        let rest = costs.drop_last();
        assert(means(path[n].cost, costs[n]));
        assert forall|k: int| 0 <= k <= rest.len() implies is_double(
            #[trigger] total_of(rest.take(k)),
        ) by {
            assert(rest.take(k) =~= costs.take(k));
        }
        assert forall|k: int| 0 <= k < n implies means(
            (#[trigger] path.drop_last()[k]).cost,
            rest[k],
        ) by {
            assert(path.drop_last()[k] == path[k]);
        }
        path_costs_add_up(path.drop_last(), rest, f);
        assert(is_double(total_of(costs.take(costs.len() as int))));
        assert(costs.take(costs.len() as int) =~= costs);
        wide_sum_is_exact(
            f,
            path_cost(path.drop_last(), f),
            total_of(rest),
            wide_value(f, FloatOp::Widen(path.last().cost)),
            costs.last(),
        );
    }
}

/// The log-likelihood of a flat start is the opposite of the costs of its path and of ending.
pub proof fn flat_log_likelihoods_are_totals<F: Fn(FloatOp) -> u64>(
    path: Seq<Arc>,
    costs: Seq<real>,
    final_cost: u32,
    end: real,
    f: F,
)
    requires
        is_exact(f),
        is_wide_exact(f),
        path.len() == costs.len(),
        forall|k: int| 0 <= k < path.len() ==> means((#[trigger] path[k]).cost, costs[k]),
        forall|k: int| 0 <= k <= costs.len() ==> is_double(#[trigger] total_of(costs.take(k))),
        means(final_cost, end),
        is_double(total_of(costs) + end),
        is_single(-(total_of(costs) + end)),
    ensures
        means(flat_loglike(path, final_cost, f), -(total_of(costs) + end)),
{
    path_costs_add_up(path, costs, f);
    let wide = wide_value(f, FloatOp::Widen(final_cost));
    wide_sum_is_exact(f, path_cost(path, f), total_of(costs), wide, end);
    wide_negation_is_exact(wide_value(f, FloatOp::AddWide(path_cost(path, f), wide)));
}

} // verus!
