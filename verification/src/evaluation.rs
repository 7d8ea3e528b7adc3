//! Per-query NDCG and the dataset-wide weighted aggregate.

use vstd::prelude::*;
use vstd::relations::sorted_by;
use crate::fixed::{
    gain_fp, disc_fp, mul_le, lemma_disc_antitone, lemma_disc_low, lemma_exp2_bounds,
    lemma_exp2_mono,
};
use crate::metric::{
    Instance, WeightedValue, NdcgError, valid_instance, valid_instances, dcg_fp, weight_sum,
    len_max, calculate_dcg, lemma_dcg_bounds, lemma_wsum_bounds, lemma_wsum_concat,
};
use crate::sorting::{rel_order, score_order, sort_instances, lemma_orders_total};
use vstd::arithmetic::div_mod::{lemma_div_is_ordered, lemma_div_by_multiple};

verus! {

/// The ideal ranking of a query group: relevancy descending.
pub open spec fn ideal_order(g: Seq<Instance>) -> Seq<Instance> {
    g.sort_by(rel_order())
}

/// The predicted ranking of a query group: score descending.
pub open spec fn predicted_order(g: Seq<Instance>) -> Seq<Instance> {
    g.sort_by(score_order())
}

pub open spec fn ideal_dcg(g: Seq<Instance>) -> int {
    dcg_fp(ideal_order(g), 0)
}

pub open spec fn predicted_dcg(g: Seq<Instance>) -> int {
    dcg_fp(predicted_order(g), 0)
}

/// A group is degenerate when its best achievable DCG is zero, which happens
/// exactly when every gain in it is zero; normalization is then undefined.
pub open spec fn group_degenerate(g: Seq<Instance>) -> bool {
    ideal_dcg(g) == 0
}

/// Per-query NDCG in fixed point: predicted DCG over ideal DCG, scaled.
pub open spec fn ndcg_ratio(g: Seq<Instance>) -> int {
    predicted_dcg(g) * 65536 / ideal_dcg(g)
}

/// The group's weighted contribution: its total weight times its NDCG.
pub open spec fn query_value(g: Seq<Instance>) -> int {
    weight_sum(g) * ndcg_ratio(g) / 65536
}

/// Moving a maximal-gain element to the front never lowers the DCG, because
/// the front carries the largest discount.
proof fn lemma_dcg_rotate(s: Seq<Instance>, off: int, j: int)
    requires
        0 <= off,
        0 <= j < s.len(),
        forall|i: int| 0 <= i < s.len() ==> gain_fp(#[trigger] s[i].relevancy as int) <= gain_fp(
            s[j].relevancy as int),
    ensures
        dcg_fp(s, off) <= gain_fp(s[j].relevancy as int) * disc_fp(off) + dcg_fp(
            s.remove(j), off + 1),
    decreases j,
{
    if j == 0 {
        assert(s.remove(0) =~= s.drop_first());
    } else {
        let tail = s.drop_first();
        assert(forall|i: int| 0 <= i < tail.len() ==> gain_fp(#[trigger] tail[i].relevancy as int)
            <= gain_fp(tail[j - 1].relevancy as int));
        lemma_dcg_rotate(tail, off + 1, j - 1);
        assert(s.remove(j).drop_first() =~= tail.remove(j - 1));
        assert(s.remove(j)[0] == s[0]);
        let g0 = gain_fp(s[0].relevancy as int);
        let gj = gain_fp(s[j].relevancy as int);
        let d0 = disc_fp(off);
        let d1 = disc_fp(off + 1);
        lemma_disc_antitone(off, off + 1);
        assert(g0 * d0 + gj * d1 <= gj * d0 + g0 * d1) by (nonlinear_arith)
            requires
                g0 <= gj,
                d1 <= d0,
        ;
    }
}

/// The ideal (gain-descending) order maximizes DCG over every reordering of
/// the same instances; any other ranking, the reversed one included, scores
/// at most as much.
pub proof fn lemma_ideal_dcg_max(p: Seq<Instance>, h: Seq<Instance>, off: int)
    requires
        0 <= off,
        p.to_multiset() == h.to_multiset(),
        sorted_by(h, rel_order()),
        valid_instances(h),
    ensures
        dcg_fp(p, off) <= dcg_fp(h, off),
    decreases p.len(),
{
    broadcast use vstd::seq_lib::group_to_multiset_ensures;
    broadcast use vstd::multiset::group_multiset_axioms;

    p.to_multiset_ensures();
    h.to_multiset_ensures();
    if p.len() == 0 {
        assert(p.to_multiset().len() == 0);
    } else {
        assert(h.len() == p.len());
        assert forall|i: int| 0 <= i < h.len() implies gain_fp(#[trigger] h[i].relevancy as int)
            <= gain_fp(h[0].relevancy as int) by {
            if i > 0 {
                assert(rel_order()(h[0], h[i]));
                assert(h[i].relevancy <= h[0].relevancy);
                lemma_exp2_mono(h[i].relevancy as int, h[0].relevancy as int);
            }
        }
        assert(h.contains(h[0]));
        assert(p.to_multiset().count(h[0]) > 0);
        assert(p.contains(h[0]));
        let j = choose|j: int| 0 <= j < p.len() && p[j] == h[0];
        assert forall|i: int| 0 <= i < p.len() implies gain_fp(#[trigger] p[i].relevancy as int)
            <= gain_fp(p[j].relevancy as int) by {
            assert(p.contains(p[i]));
            assert(h.to_multiset().count(p[i]) > 0);
            assert(h.contains(p[i]));
            let k = choose|k: int| 0 <= k < h.len() && h[k] == p[i];
            assert(gain_fp(h[k].relevancy as int) <= gain_fp(h[0].relevancy as int));
        }
        lemma_dcg_rotate(p, off, j);
        assert(p.remove(j).to_multiset() =~= p.to_multiset().remove(p[j]));
        assert(h.drop_first() =~= h.remove(0));
        assert(h.remove(0).to_multiset() =~= h.to_multiset().remove(h[0]));
        assert(p.remove(j).to_multiset() == h.drop_first().to_multiset());
        assert(sorted_by(h.drop_first(), rel_order())) by {
            assert forall|a: int, b: int| 0 <= a < b < h.drop_first().len() implies rel_order()(
                h.drop_first()[a], h.drop_first()[b]) by {
                assert(h.drop_first()[a] == h[a + 1] && h.drop_first()[b] == h[b + 1]);
            }
        }
        assert(valid_instances(h.drop_first()));
        lemma_ideal_dcg_max(p.remove(j), h.drop_first(), off + 1);
    }
}

/// The weight sum is a function of the multiset of instances alone.
pub proof fn lemma_wsum_remove(s: Seq<Instance>, j: int)
    requires
        0 <= j < s.len(),
    ensures
        weight_sum(s.remove(j)) == weight_sum(s) - s[j].weight,
    decreases j,
{
    if j == 0 {
        assert(s.remove(0) =~= s.drop_first());
    } else {
        assert(s.remove(j).drop_first() =~= s.drop_first().remove(j - 1));
        assert(s.remove(j)[0] == s[0]);
        lemma_wsum_remove(s.drop_first(), j - 1);
    }
}

pub proof fn lemma_wsum_multiset(p: Seq<Instance>, q: Seq<Instance>)
    requires
        p.to_multiset() == q.to_multiset(),
    ensures
        weight_sum(p) == weight_sum(q),
    decreases p.len(),
{
    broadcast use vstd::seq_lib::group_to_multiset_ensures;
    broadcast use vstd::multiset::group_multiset_axioms;

    p.to_multiset_ensures();
    q.to_multiset_ensures();
    if p.len() == 0 {
        assert(q.len() == 0);
    } else {
        assert(q.len() == p.len());
        assert(p.contains(p[0]));
        assert(q.to_multiset().count(p[0]) > 0);
        assert(q.contains(p[0]));
        let j = choose|j: int| 0 <= j < q.len() && q[j] == p[0];
        lemma_wsum_remove(q, j);
        assert(p.drop_first() =~= p.remove(0));
        assert(p.remove(0).to_multiset() =~= p.to_multiset().remove(p[0]));
        assert(q.remove(j).to_multiset() =~= q.to_multiset().remove(q[j]));
        assert(p.drop_first().to_multiset() == q.remove(j).to_multiset());
        lemma_wsum_multiset(p.drop_first(), q.remove(j));
    }
}

/// Validity is a property of the elements, so any reordering keeps it.
pub proof fn lemma_valid_multiset(p: Seq<Instance>, q: Seq<Instance>)
    requires
        p.to_multiset() == q.to_multiset(),
        valid_instances(q),
    ensures
        valid_instances(p),
{
    broadcast use vstd::seq_lib::group_to_multiset_ensures;
    broadcast use vstd::multiset::group_multiset_axioms;

    assert forall|i: int| 0 <= i < p.len() implies valid_instance(#[trigger] p[i]) by {
        assert(p.contains(p[i]));
        assert(q.to_multiset().count(p[i]) > 0);
        assert(q.contains(p[i]));
        let k = choose|k: int| 0 <= k < q.len() && q[k] == p[i];
        assert(valid_instance(q[k]));
    }
}

/// Properties of one non-degenerate group: its NDCG lies in [0, 1] and its
/// weighted value never exceeds its weight.
pub proof fn lemma_query_bounds(g: Seq<Instance>)
    requires
        valid_instances(g),
        1 <= g.len() <= len_max(),
        !group_degenerate(g),
    ensures
        0 < ideal_dcg(g),
        0 <= predicted_dcg(g) <= ideal_dcg(g),
        0 <= ndcg_ratio(g) <= 65536,
        0 <= query_value(g) <= weight_sum(g),
{
    lemma_orders_total();
    g.lemma_sort_by_ensures(rel_order());
    g.lemma_sort_by_ensures(score_order());
    let h = ideal_order(g);
    let p = predicted_order(g);
    lemma_valid_multiset(h, g);
    lemma_valid_multiset(p, g);
    broadcast use vstd::seq_lib::group_to_multiset_ensures;

    g.to_multiset_ensures();
    h.to_multiset_ensures();
    p.to_multiset_ensures();
    assert(h.len() == g.len() && p.len() == g.len());
    lemma_dcg_bounds(h, 0);
    lemma_dcg_bounds(p, 0);
    assert(p.to_multiset() == h.to_multiset());
    lemma_ideal_dcg_max(p, h, 0);
    let id = ideal_dcg(g);
    let pd = predicted_dcg(g);
    assert(id > 0);
    mul_le(pd, 65536, id, 65536);
    lemma_div_is_ordered(pd * 65536, id * 65536, id);
    lemma_div_by_multiple(65536, id);
    assert(id * 65536 == 65536 * id) by (nonlinear_arith);
    assert(ndcg_ratio(g) <= 65536);
    assert(ndcg_ratio(g) >= 0) by {
        mul_le(0, 0, pd, 65536);
        vstd::arithmetic::div_mod::lemma_div_pos_is_pos(pd * 65536, id);
    }
    let ws = weight_sum(g);
    lemma_wsum_bounds(g);
    mul_le(ws, ndcg_ratio(g), ws, 65536);
    lemma_div_is_ordered(ws * ndcg_ratio(g), ws * 65536, 65536);
    lemma_div_by_multiple(ws, 65536);
    assert(query_value(g) >= 0) by {
        mul_le(0, 0, ws, ndcg_ratio(g));
        vstd::arithmetic::div_mod::lemma_div_pos_is_pos(ws * ndcg_ratio(g), 65536);
    }
}

/// A DCG sum of non-negative terms is zero exactly when every gain is zero.
proof fn lemma_dcg_zero_iff(s: Seq<Instance>, off: int)
    requires
        valid_instances(s),
        0 <= off,
        off + s.len() <= len_max(),
    ensures
        dcg_fp(s, off) == 0 <==> (forall|i: int|
            0 <= i < s.len() ==> gain_fp(#[trigger] s[i].relevancy as int) == 0),
    decreases s.len(),
{
    if s.len() > 0 {
        assert(valid_instance(s[0]));
        lemma_exp2_bounds(s[0].relevancy as int);
        lemma_disc_low(off);
        lemma_disc_antitone(0, off);
        lemma_dcg_bounds(s.drop_first(), off + 1);
        let g0 = gain_fp(s[0].relevancy as int);
        let d0 = disc_fp(off);
        mul_le(0, 0, g0, d0);
        assert(g0 * d0 == 0 <==> g0 == 0) by (nonlinear_arith)
            requires
                g0 >= 0,
                d0 >= 1,
        ;
        lemma_dcg_zero_iff(s.drop_first(), off + 1);
        assert(forall|i: int| 0 < i < s.len() ==> s.drop_first()[i - 1] == s[i]);
        if g0 * d0 == 0 && dcg_fp(s.drop_first(), off + 1) == 0 {
            assert forall|i: int| 0 <= i < s.len() implies gain_fp(
                #[trigger] s[i].relevancy as int) == 0 by {
                if i > 0 {
                    assert(s.drop_first()[i - 1] == s[i]);
                    assert(gain_fp(s.drop_first()[i - 1].relevancy as int) == 0);
                }
            }
        }
    }
}

/// A group is degenerate exactly when every one of its relevancies is zero
/// at the fixed-point resolution (below 2/65536).
pub proof fn lemma_degenerate_iff(g: Seq<Instance>)
    requires
        valid_instances(g),
        g.len() <= len_max(),
    ensures
        group_degenerate(g) <==> (forall|i: int|
            0 <= i < g.len() ==> gain_fp(#[trigger] g[i].relevancy as int) == 0),
        group_degenerate(g) <==> (forall|i: int| 0 <= i < g.len() ==> #[trigger] g[i].relevancy
            < 2),
{
    lemma_orders_total();
    g.lemma_sort_by_ensures(rel_order());
    let h = ideal_order(g);
    lemma_valid_multiset(h, g);
    broadcast use vstd::seq_lib::group_to_multiset_ensures;
    broadcast use vstd::multiset::group_multiset_axioms;

    g.to_multiset_ensures();
    h.to_multiset_ensures();
    assert(h.len() == g.len());
    lemma_dcg_zero_iff(h, 0);
    if group_degenerate(g) {
        assert forall|i: int| 0 <= i < g.len() implies gain_fp(
            #[trigger] g[i].relevancy as int) == 0 by {
            assert(g.contains(g[i]));
            assert(h.to_multiset().count(g[i]) > 0);
            assert(h.contains(g[i]));
            let k = choose|k: int| 0 <= k < h.len() && h[k] == g[i];
            assert(gain_fp(h[k].relevancy as int) == 0);
        }
    }
    if forall|i: int| 0 <= i < g.len() ==> gain_fp(#[trigger] g[i].relevancy as int) == 0 {
        assert forall|k: int| 0 <= k < h.len() implies gain_fp(
            #[trigger] h[k].relevancy as int) == 0 by {
            assert(h.contains(h[k]));
            assert(g.to_multiset().count(h[k]) > 0);
            assert(g.contains(h[k]));
            let i = choose|i: int| 0 <= i < g.len() && g[i] == h[k];
            assert(gain_fp(g[i].relevancy as int) == 0);
        }
        assert(group_degenerate(g));
    }
    assert forall|i: int| 0 <= i < g.len() implies (gain_fp(#[trigger] g[i].relevancy as int) == 0
        <==> g[i].relevancy < 2) by {
        assert(valid_instance(g[i]));
        crate::fixed::lemma_gain_zero(g[i].relevancy as int);
    }
}

/// Per-query evaluation: sort ideally, reject a zero ideal DCG, sort by
/// prediction, and return the weighted normalized score. The result's
/// `value` is the group's weight scaled by its NDCG and never exceeds its
/// `weight`, the group's total weight; both carry 16 fractional bits.
pub fn calculate_query_ndcg(group: &Vec<Instance>) -> (r: Result<WeightedValue, NdcgError>)
    requires
        valid_instances(group@),
        1 <= group@.len() <= len_max(),
    ensures
        match r {
            Ok(wv) => !group_degenerate(group@) && wv.weight == weight_sum(group@)
                && wv.value == query_value(group@) && wv.value <= wv.weight,
            Err(e) => e == NdcgError::DegenerateQuery && group_degenerate(group@),
        },
{
    proof {
        lemma_orders_total();
        group@.lemma_sort_by_ensures(rel_order());
        group@.lemma_sort_by_ensures(score_order());
    }
    let ideal = sort_instances(group, false);
    proof {
        lemma_valid_multiset(ideal@, group@);
        lemma_wsum_multiset(ideal@, group@);
        broadcast use vstd::seq_lib::group_to_multiset_ensures;

        ideal@.to_multiset_ensures();
        group@.to_multiset_ensures();
        assert(ideal@.len() == group@.len());
    }
    let idcg = calculate_dcg(&ideal);
    if idcg.value == 0 {
        return Err(NdcgError::DegenerateQuery);
    }
    let pred = sort_instances(group, true);
    proof {
        lemma_valid_multiset(pred@, group@);
        broadcast use vstd::seq_lib::group_to_multiset_ensures;

        pred@.to_multiset_ensures();
        group@.to_multiset_ensures();
        assert(pred@.len() == group@.len());
        lemma_query_bounds(group@);
        lemma_dcg_bounds(pred@, 0);
        lemma_dcg_bounds(ideal@, 0);
        lemma_wsum_bounds(group@);
        mul_le(group@.len() as int, 1073741824, 4294967296, 1073741824);
    }
    let dcg = calculate_dcg(&pred);
    proof {
        mul_le(dcg.value as int, 65536, idcg.value as int, 65536);
    }
    let ratio: u128 = dcg.value * 65536 / idcg.value;
    proof {
        mul_le(idcg.weight as int, ratio as int, idcg.weight as int, 65536);
    }
    let value: u128 = (idcg.weight as u128) * ratio / 65536;
    Ok(WeightedValue { value, weight: idcg.weight })
}

} // verus!

// Dataset-level aggregation over contiguous query groups.

verus! {

/// Length of the leading run of equal query ids.
pub open spec fn run_len(s: Seq<Instance>) -> int
    decreases s.len(),
{
    if s.len() == 0 {
        0
    } else if s.len() == 1 || s[1].query_id != s[0].query_id {
        1
    } else {
        1 + run_len(s.drop_first())
    }
}

pub proof fn lemma_run_len_pos(s: Seq<Instance>)
    requires
        s.len() > 0,
    ensures
        1 <= run_len(s) <= s.len(),
    decreases s.len(),
{
    if s.len() > 1 && s[1].query_id == s[0].query_id {
        lemma_run_len_pos(s.drop_first());
    }
}

/// The run length is pinned by uniformity up to a boundary.
pub proof fn lemma_run_len_eq(t: Seq<Instance>, r: int)
    requires
        0 < r <= t.len(),
        forall|m: int| 0 <= m < r ==> #[trigger] t[m].query_id == t[0].query_id,
        r == t.len() || t[r].query_id != t[0].query_id,
    ensures
        run_len(t) == r,
    decreases r,
{
    if r == 1 {
    } else {
        let u = t.drop_first();
        assert(t[1].query_id == t[0].query_id);
        assert forall|m: int| 0 <= m < r - 1 implies #[trigger] u[m].query_id == u[0].query_id
            by {
            assert(u[m] == t[m + 1] && u[0] == t[1]);
        }
        assert(r - 1 == u.len() || u[r - 1].query_id != u[0].query_id);
        lemma_run_len_eq(u, r - 1);
    }
}

/// Sum of the per-group weighted values, group by group.
pub open spec fn groups_value(s: Seq<Instance>) -> int
    decreases s.len(),
    when s.len() == 0 || 1 <= run_len(s) <= s.len()
    via groups_value_decreases
{
    if s.len() == 0 {
        0
    } else {
        query_value(s.take(run_len(s))) + groups_value(s.skip(run_len(s)))
    }
}

#[via_fn]
proof fn groups_value_decreases(s: Seq<Instance>) {
    if s.len() > 0 {
        lemma_run_len_pos(s);
    }
}

/// Whether some query group of the sequence is degenerate.
pub open spec fn has_degenerate(s: Seq<Instance>) -> bool
    decreases s.len(),
    when s.len() == 0 || 1 <= run_len(s) <= s.len()
    via has_degenerate_decreases
{
    if s.len() == 0 {
        false
    } else {
        group_degenerate(s.take(run_len(s))) || has_degenerate(s.skip(run_len(s)))
    }
}

#[via_fn]
proof fn has_degenerate_decreases(s: Seq<Instance>) {
    if s.len() > 0 {
        lemma_run_len_pos(s);
    }
}

/// The input's precondition: query ids never decrease.
pub open spec fn qids_monotonic(s: Seq<Instance>) -> bool {
    forall|i: int| #![trigger s[i]] 0 <= i < s.len() - 1 ==> s[i].query_id <= s[i + 1].query_id
}

/// The aggregate: the weighted average of the per-query values, zero on an
/// empty dataset.
pub open spec fn aggregate_value(s: Seq<Instance>) -> int {
    if s.len() == 0 {
        0
    } else {
        groups_value(s) * 65536 / weight_sum(s)
    }
}

/// The leading run is uniform in query id and maximal.
pub proof fn lemma_run_uniform(s: Seq<Instance>)
    requires
        s.len() > 0,
    ensures
        forall|m: int| 0 <= m < run_len(s) ==> #[trigger] s[m].query_id == s[0].query_id,
        run_len(s) < s.len() ==> s[run_len(s)].query_id != s[0].query_id,
    decreases s.len(),
{
    lemma_run_len_pos(s);
    if s.len() == 1 || s[1].query_id != s[0].query_id {
    } else {
        let u = s.drop_first();
        lemma_run_uniform(u);
        lemma_run_len_pos(u);
        assert forall|m: int| 0 <= m < run_len(s) implies #[trigger] s[m].query_id
            == s[0].query_id by {
            if m >= 1 {
                assert(u[m - 1] == s[m] && u[0] == s[1]);
                assert(u[m - 1].query_id == u[0].query_id);
            }
        }
        if run_len(s) < s.len() {
            assert(s[run_len(s)] == u[run_len(s) - 1]);
        }
    }
}

/// The outcome of the original single left-to-right scan: runs of equal
/// query ids are evaluated in order, and at each internal run boundary the
/// next id is compared against the run's id *before* the completed run's
/// ideal DCG is inspected. The first failure met in scan order decides the
/// error.
pub open spec fn scan_outcome(s: Seq<Instance>) -> Result<(), NdcgError>
    decreases s.len(),
    when s.len() == 0 || 1 <= run_len(s) <= s.len()
    via scan_outcome_decreases
{
    if s.len() == 0 {
        Ok(())
    } else {
        let r = run_len(s);
        if r < s.len() && s[r].query_id < s[0].query_id {
            Err(NdcgError::NonMonotonicQueryOrder)
        } else if group_degenerate(s.take(r)) {
            Err(NdcgError::DegenerateQuery)
        } else {
            scan_outcome(s.skip(r))
        }
    }
}

#[via_fn]
proof fn scan_outcome_decreases(s: Seq<Instance>) {
    if s.len() > 0 {
        lemma_run_len_pos(s);
    }
}

/// How the scan's outcome relates to the two global conditions: it succeeds
/// exactly on monotonic inputs without a degenerate group; each error
/// implies its condition (but a non-monotonic input may still report
/// `DegenerateQuery` when a degenerate group completes before the first
/// decrease).
pub proof fn lemma_scan_outcome(s: Seq<Instance>)
    ensures
        scan_outcome(s) == Ok::<(), NdcgError>(()) <==> (qids_monotonic(s) && !has_degenerate(
            s)),
        scan_outcome(s) == Err::<(), NdcgError>(NdcgError::NonMonotonicQueryOrder)
            ==> !qids_monotonic(s),
        scan_outcome(s) == Err::<(), NdcgError>(NdcgError::DegenerateQuery) ==> has_degenerate(
            s),
    decreases s.len(),
{
    if s.len() == 0 {
    } else {
        lemma_run_len_pos(s);
        lemma_run_uniform(s);
        let r = run_len(s);
        let g = s.take(r);
        let rest = s.skip(r);
        if rest.len() > 0 {
            lemma_run_len_pos(rest);
        }
        lemma_scan_outcome(rest);
        assert(has_degenerate(s) == (group_degenerate(g) || has_degenerate(rest)));
        let boundary_ok = r == s.len() || s[r].query_id >= s[0].query_id;
        if boundary_ok && qids_monotonic(rest) {
            assert forall|i: int| #![trigger s[i]] 0 <= i < s.len() - 1 implies s[i].query_id
                <= s[i + 1].query_id by {
                if i + 1 < r {
                    assert(s[i].query_id == s[0].query_id && s[i + 1].query_id
                        == s[0].query_id);
                } else if i + 1 == r {
                    assert(s[i].query_id == s[0].query_id);
                } else {
                    assert(s[i] == rest[i - r] && s[i + 1] == rest[i + 1 - r]);
                    assert(rest[i - r].query_id <= rest[i - r + 1].query_id);
                }
            }
            assert(qids_monotonic(s));
        }
        if qids_monotonic(s) {
            if r < s.len() {
                assert(s[r - 1].query_id <= s[r].query_id);
                assert(s[r - 1].query_id == s[0].query_id);
            }
            assert forall|i: int| #![trigger rest[i]] 0 <= i < rest.len() - 1 implies
                rest[i].query_id <= rest[i + 1].query_id by {
                assert(rest[i] == s[i + r] && rest[i + 1] == s[i + r + 1]);
                assert(s[i + r].query_id <= s[i + r + 1].query_id);
            }
            assert(qids_monotonic(rest));
        }
        if r < s.len() && s[r].query_id < s[0].query_id {
            assert(s[r - 1].query_id == s[0].query_id);
            assert(s[r - 1].query_id > s[r].query_id);
            assert(!qids_monotonic(s));
        } else if group_degenerate(g) {
        } else {
            assert(scan_outcome(s) == scan_outcome(rest));
        }
    }
}

/// The sum of the groups' values stays below the sum of their weights, which
/// is the weight of the whole dataset.
pub proof fn lemma_groups_value_bounds(s: Seq<Instance>)
    requires
        valid_instances(s),
        s.len() <= len_max(),
        !has_degenerate(s),
    ensures
        0 <= groups_value(s) <= weight_sum(s),
    decreases s.len(),
{
    if s.len() > 0 {
        lemma_run_len_pos(s);
        let r = run_len(s);
        let g = s.take(r);
        let rest = s.skip(r);
        assert(s =~= g + rest);
        lemma_wsum_concat(g, rest);
        if rest.len() > 0 {
            lemma_run_len_pos(rest);
        }
        assert(groups_value(s) == query_value(g) + groups_value(rest));
        assert(has_degenerate(s) == (group_degenerate(g) || has_degenerate(rest)));
        lemma_query_bounds(g);
        lemma_groups_value_bounds(rest);
    }
}

/// Weighted NDCG of a whole dataset, pre-sorted by query id.
///
/// A single left-to-right scan over the maximal runs of equal query ids:
/// at each internal run boundary the next query id is checked against the
/// run's id before the completed run is evaluated, so the first failure met
/// in scan order decides which error is reported (see `scan_outcome`). On
/// success the result is the fixed-point weighted average of the per-query
/// normalized scores; an empty input yields 0.
#[verifier::rlimit(100)]
pub fn calculate_ndcg(instances: &Vec<Instance>) -> (r: Result<u64, NdcgError>)
    requires
        valid_instances(instances@),
        instances@.len() <= len_max(),
    ensures
        match r {
            Ok(v) => scan_outcome(instances@) == Ok::<(), NdcgError>(()) && qids_monotonic(
                instances@) && !has_degenerate(instances@) && v == aggregate_value(instances@)
                && v <= 65536,
            Err(e) => scan_outcome(instances@) == Err::<(), NdcgError>(e) && match e {
                NdcgError::NonMonotonicQueryOrder => !qids_monotonic(instances@),
                NdcgError::DegenerateQuery => has_degenerate(instances@),
            },
        },
{
    let s = Ghost(instances@);
    let n = instances.len();
    if n == 0 {
        return Ok(0);
    }
    proof {
        assert(s@.skip(0) =~= s@);
    }
    // Walk the maximal runs of equal query ids, evaluating each group.
    let mut start: usize = 0;
    let mut acc_v: u128 = 0;
    let mut acc_w: u64 = 0;
    while start < n
        invariant
            0 <= start <= n == s@.len(),
            s@ == instances@,
            valid_instances(s@),
            s@.len() <= len_max(),
            scan_outcome(s@) == scan_outcome(s@.skip(start as int)),
            groups_value(s@) == acc_v + groups_value(s@.skip(start as int)),
            weight_sum(s@) == acc_w + weight_sum(s@.skip(start as int)),
            acc_v <= acc_w,
        decreases n - start,
    {
        let mut end: usize = start + 1;
        while end < n && instances[end].query_id == instances[start].query_id
            invariant
                0 <= start < end <= n == s@.len(),
                s@ == instances@,
                forall|m: int| start <= m < end ==> #[trigger] s@[m].query_id
                    == s@[start as int].query_id,
            decreases n - end,
        {
            end = end + 1;
        }
        let ghost t = s@.skip(start as int);
        proof {
            assert forall|m: int| 0 <= m < end - start implies #[trigger] t[m].query_id
                == t[0].query_id by {
                assert(t[m] == s@[start + m] && t[0] == s@[start as int]);
            }
            if end < n {
                assert(t[end - start] == s@[end as int]);
            }
            lemma_run_len_eq(t, end as int - start as int);
            if end < n {
                lemma_run_len_pos(s@.skip(end as int));
            } else {
                assert(s@.skip(end as int) =~= Seq::<Instance>::empty());
            }
            assert(t.take(end - start) =~= s@.subrange(start as int, end as int));
            assert(t.skip(end - start) =~= s@.skip(end as int));
        }
        // the run boundary comes first: the next element's query id must not
        // have decreased, or the scan stops before the run is evaluated
        if end < n && instances[end].query_id < instances[start].query_id {
            proof {
                assert(scan_outcome(t) == Err::<(), NdcgError>(
                    NdcgError::NonMonotonicQueryOrder));
                lemma_scan_outcome(s@);
            }
            return Err(NdcgError::NonMonotonicQueryOrder);
        }
        let mut grp: Vec<Instance> = Vec::new();
        let mut k: usize = start;
        while k < end
            invariant
                start <= k <= end <= n == s@.len(),
                s@ == instances@,
                grp@ == s@.subrange(start as int, k as int),
            decreases end - k,
        {
            proof {
                assert(s@.subrange(start as int, k as int + 1) =~= s@.subrange(
                    start as int, k as int).push(s@[k as int]));
            }
            grp.push(instances[k]);
            k = k + 1;
        }
        proof {
            assert(grp@ == s@.subrange(start as int, end as int));
            assert(valid_instances(grp@));
            lemma_wsum_bounds(s@);
            lemma_wsum_bounds(s@.skip(start as int));
            lemma_wsum_bounds(grp@);
            mul_le(s@.len() as int, 1073741824, 4294967296, 1073741824);
        }
        let q = calculate_query_ndcg(&grp);
        match q {
            Result::Err(_) => {
                proof {
                    assert(scan_outcome(t) == Err::<(), NdcgError>(NdcgError::DegenerateQuery));
                    lemma_scan_outcome(s@);
                }
                return Err(NdcgError::DegenerateQuery);
            },
            Result::Ok(wv) => {
                proof {
                    assert(scan_outcome(t) == scan_outcome(s@.skip(end as int)));
                    assert(groups_value(t) == query_value(grp@) + groups_value(
                        s@.skip(end as int)));
                    lemma_wsum_concat(grp@, s@.skip(end as int));
                    assert(s@.skip(start as int) =~= grp@ + s@.skip(end as int));
                }
                acc_v = acc_v + wv.value;
                acc_w = acc_w + wv.weight;
                start = end;
            },
        }
    }
    proof {
        assert(s@.skip(n as int) =~= Seq::<Instance>::empty());
        assert(scan_outcome(s@) == Ok::<(), NdcgError>(()));
        lemma_scan_outcome(s@);
        lemma_wsum_bounds(s@);
        mul_le(s@.len() as int, 1073741824, 4294967296, 1073741824);
        mul_le(acc_v as int, 65536, acc_w as int, 65536);
        lemma_div_is_ordered(acc_v as int * 65536, acc_w as int * 65536, acc_w as int);
        lemma_div_by_multiple(65536, acc_w as int);
        assert(acc_w as int * 65536 == 65536 * acc_w as int) by (nonlinear_arith);
        mul_le(0, 0, acc_v as int, 65536);
        vstd::arithmetic::div_mod::lemma_div_pos_is_pos(acc_v as int * 65536, acc_w as int);
    }
    let res: u128 = acc_v * 65536 / (acc_w as u128);
    Ok(res as u64)
}

} // verus!
