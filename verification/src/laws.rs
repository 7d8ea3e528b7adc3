//! Laws of the metric, stated and proved against the specification
//! functions that the executable contracts use.

use vstd::prelude::*;
use crate::fixed::{gain_fp, mul_le, lemma_gain_zero, lemma_exp2_bounds};
use crate::metric::{Instance, valid_instances, dcg_fp, weight_sum, len_max};
use crate::sorting::{rel_order, score_order, lemma_orders_total};
use crate::evaluation::{
    ideal_order, predicted_order, ideal_dcg, predicted_dcg, group_degenerate, ndcg_ratio,
    query_value, run_len, groups_value, aggregate_value, lemma_run_len_pos,
    lemma_ideal_dcg_max, lemma_valid_multiset, lemma_query_bounds,
};
use crate::metric::lemma_wsum_concat;
use vstd::arithmetic::div_mod::{lemma_div_is_ordered, lemma_div_by_multiple};

verus! {

/// Two rankings whose gains agree position by position have the same DCG.
proof fn lemma_dcg_pointwise(a: Seq<Instance>, b: Seq<Instance>, off: int)
    requires
        a.len() == b.len(),
        forall|i: int| 0 <= i < a.len() ==> gain_fp(#[trigger] a[i].relevancy as int) == gain_fp(
            #[trigger] b[i].relevancy as int),
    ensures
        dcg_fp(a, off) == dcg_fp(b, off),
    decreases a.len(),
{
    if a.len() > 0 {
        assert(forall|i: int| 0 <= i < a.drop_first().len() ==> #[trigger] a.drop_first()[i]
            == a[i + 1] && #[trigger] b.drop_first()[i] == b[i + 1]);
        lemma_dcg_pointwise(a.drop_first(), b.drop_first(), off + 1);
    }
}

/// Every element of a reordering carries the same relevancy as the group's
/// uniform one.
proof fn lemma_uniform_transfer(p: Seq<Instance>, g: Seq<Instance>)
    requires
        p.to_multiset() == g.to_multiset(),
        g.len() > 0,
        forall|i: int| 0 <= i < g.len() ==> #[trigger] g[i].relevancy == g[0].relevancy,
    ensures
        p.len() == g.len(),
        forall|i: int| 0 <= i < p.len() ==> #[trigger] p[i].relevancy == g[0].relevancy,
{
    broadcast use vstd::seq_lib::group_to_multiset_ensures;
    broadcast use vstd::multiset::group_multiset_axioms;

    p.to_multiset_ensures();
    g.to_multiset_ensures();
    assert forall|i: int| 0 <= i < p.len() implies #[trigger] p[i].relevancy == g[0].relevancy
        by {
        assert(p.contains(p[i]));
        assert(g.to_multiset().count(p[i]) > 0);
        assert(g.contains(p[i]));
        let k = choose|k: int| 0 <= k < g.len() && g[k] == p[i];
        assert(g[k].relevancy == g[0].relevancy);
    }
}

/// When every instance of a query carries the same positive relevancy, the
/// predicted ranking cannot differ from the ideal one in gain, and the
/// query's NDCG is exactly 1: its weighted value is its whole weight.
pub proof fn lemma_uniform_relevancy_perfect(g: Seq<Instance>)
    requires
        valid_instances(g),
        1 <= g.len() <= len_max(),
        forall|i: int| 0 <= i < g.len() ==> #[trigger] g[i].relevancy == g[0].relevancy,
        g[0].relevancy >= 2,
    ensures
        !group_degenerate(g),
        ndcg_ratio(g) == 65536,
        query_value(g) == weight_sum(g),
{
    lemma_orders_total();
    g.lemma_sort_by_ensures(rel_order());
    g.lemma_sort_by_ensures(score_order());
    let h = ideal_order(g);
    let p = predicted_order(g);
    lemma_uniform_transfer(h, g);
    lemma_uniform_transfer(p, g);
    lemma_valid_multiset(h, g);
    lemma_gain_zero(g[0].relevancy as int);
    lemma_exp2_bounds(g[0].relevancy as int);
    assert forall|i: int| 0 <= i < h.len() implies gain_fp(#[trigger] h[i].relevancy as int)
        == gain_fp(#[trigger] p[i].relevancy as int) by {
        assert(h[i].relevancy == g[0].relevancy && p[i].relevancy == g[0].relevancy);
    }
    lemma_dcg_pointwise(h, p, 0);
    assert(predicted_dcg(g) == ideal_dcg(g));
    // a positive uniform gain makes the ideal DCG positive
    crate::evaluation::lemma_degenerate_iff(g);
    assert(gain_fp(g[0].relevancy as int) != 0);
    assert(!group_degenerate(g));
    let id = ideal_dcg(g);
    lemma_query_bounds(g);
    assert(id * 65536 == 65536 * id) by (nonlinear_arith);
    lemma_div_by_multiple(65536, id);
    assert(ndcg_ratio(g) == 65536);
    let ws = weight_sum(g);
    crate::metric::lemma_wsum_bounds(g);
    assert(ws * 65536 == 65536 * ws) by (nonlinear_arith);
    lemma_div_by_multiple(ws, 65536);
    assert(query_value(g) == ws);
}

/// A query group with a single instance of positive relevancy scores exactly
/// 1: predicted and ideal order coincide trivially.
pub proof fn lemma_singleton_perfect(g: Seq<Instance>)
    requires
        valid_instances(g),
        g.len() == 1,
        g[0].relevancy >= 2,
    ensures
        !group_degenerate(g),
        ndcg_ratio(g) == 65536,
        query_value(g) == weight_sum(g) == g[0].weight,
{
    lemma_uniform_relevancy_perfect(g);
    assert(g.drop_first() =~= Seq::<Instance>::empty());
    assert(weight_sum(g) == g[0].weight + weight_sum(g.drop_first()));
}

/// Reversing the ideal ranking, like any other reordering, never increases
/// the DCG, so the reversed ranking's NDCG stays at or below 1.
pub proof fn lemma_reversal_never_gains(g: Seq<Instance>)
    requires
        valid_instances(g),
        1 <= g.len() <= len_max(),
        !group_degenerate(g),
    ensures
        dcg_fp(ideal_order(g).reverse(), 0) <= ideal_dcg(g),
        dcg_fp(ideal_order(g).reverse(), 0) * 65536 / ideal_dcg(g) <= 65536,
{
    lemma_orders_total();
    g.lemma_sort_by_ensures(rel_order());
    let h = ideal_order(g);
    lemma_valid_multiset(h, g);
    h.lemma_reverse_to_multiset();
    lemma_ideal_dcg_max(h.reverse(), h, 0);
    lemma_query_bounds(g);
    let id = ideal_dcg(g);
    let rd = dcg_fp(h.reverse(), 0);
    broadcast use vstd::seq_lib::group_to_multiset_ensures;

    h.to_multiset_ensures();
    h.reverse().to_multiset_ensures();
    lemma_valid_multiset(h.reverse(), h);
    crate::metric::lemma_dcg_bounds(h.reverse(), 0);
    mul_le(rd, 65536, id, 65536);
    lemma_div_is_ordered(rd * 65536, id * 65536, id);
    assert(id * 65536 == 65536 * id) by (nonlinear_arith);
    lemma_div_by_multiple(65536, id);
}

/// The weight of each query group, summed over the partition into groups.
pub open spec fn groups_weight(s: Seq<Instance>) -> int
    decreases s.len(),
    when s.len() == 0 || 1 <= run_len(s) <= s.len()
    via groups_weight_decreases
{
    if s.len() == 0 {
        0
    } else {
        weight_sum(s.take(run_len(s))) + groups_weight(s.skip(run_len(s)))
    }
}

#[via_fn]
proof fn groups_weight_decreases(s: Seq<Instance>) {
    if s.len() > 0 {
        lemma_run_len_pos(s);
    }
}

/// The weighted aggregate is exactly the sum of the per-query weighted
/// values over the sum of the per-query weights, for the partition of the
/// dataset into query groups.
pub proof fn lemma_aggregate_is_weighted_average(s: Seq<Instance>)
    requires
        s.len() > 0,
    ensures
        groups_weight(s) == weight_sum(s),
        aggregate_value(s) == groups_value(s) * 65536 / groups_weight(s),
    decreases s.len(),
{
    lemma_run_len_pos(s);
    let r = run_len(s);
    let g = s.take(r);
    let rest = s.skip(r);
    assert(s =~= g + rest);
    lemma_wsum_concat(g, rest);
    if rest.len() > 0 {
        lemma_run_len_pos(rest);
        lemma_aggregate_is_weighted_average(rest);
    } else {
        assert(groups_weight(rest) == 0);
        assert(weight_sum(rest) == 0);
    }
    assert(groups_weight(s) == weight_sum(g) + groups_weight(rest));
}

} // verus!
