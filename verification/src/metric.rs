//! The NDCG metric: instances, discounted cumulative gain, per-query
//! normalization and the dataset-wide weighted aggregate.

use vstd::prelude::*;
use crate::fixed::{
    gain_fp, disc_fp, gain_fixed, disc_fixed, mul_le, lemma_disc_antitone, lemma_disc_low,
    lemma_exp2_bounds,
};

verus! {

/// One scored item of the dataset. `weight`, `relevancy` and `score` are
/// fixed-point numbers with 16 fractional bits; `weight` must be positive,
/// `relevancy` non-negative (its type) and at most `REL_MAX`, `score` is
/// unconstrained.
#[derive(Clone, Copy, PartialEq, Eq, Structural, Debug)]
pub struct Instance {
    pub query_id: i64,
    pub weight: u64,
    pub relevancy: u64,
    pub score: i64,
}

/// A value paired with the weight it was accumulated under.
#[derive(Clone, Copy, PartialEq, Eq, Structural, Debug)]
pub struct WeightedValue {
    pub value: u128,
    pub weight: u64,
}

/// Why a computation was rejected: query ids out of order, or a query whose
/// ideal DCG is zero, which leaves nothing to normalize by.
#[derive(Clone, Copy, PartialEq, Eq, Structural, Debug)]
pub enum NdcgError {
    NonMonotonicQueryOrder,
    DegenerateQuery,
}

/// Largest accepted input length; keeps all fixed-point sums inside their
/// integer types.
pub open spec fn len_max() -> int {
    4294967296
}

/// Field ranges under which every computation below is overflow-free.
pub open spec fn valid_instance(x: Instance) -> bool {
    &&& 1 <= x.weight <= 1073741824
    &&& x.relevancy <= 1310720
}

pub open spec fn valid_instances(s: Seq<Instance>) -> bool {
    forall|i: int| 0 <= i < s.len() ==> valid_instance(#[trigger] s[i])
}

/// Discounted cumulative gain of the sequence read in its given order,
/// starting at rank offset `off`: the sum of `gain(relevancy) * discount`.
pub open spec fn dcg_fp(s: Seq<Instance>, off: int) -> int
    decreases s.len(),
{
    if s.len() == 0 {
        0
    } else {
        gain_fp(s[0].relevancy as int) * disc_fp(off) + dcg_fp(s.drop_first(), off + 1)
    }
}

/// Sum of the instances' weights.
pub open spec fn weight_sum(s: Seq<Instance>) -> int
    decreases s.len(),
{
    if s.len() == 0 {
        0
    } else {
        s[0].weight + weight_sum(s.drop_first())
    }
}

pub proof fn lemma_dcg_push(s: Seq<Instance>, x: Instance, off: int)
    ensures
        dcg_fp(s.push(x), off) == dcg_fp(s, off) + gain_fp(x.relevancy as int) * disc_fp(
            off + s.len(),
        ),
    decreases s.len(),
{
    assert(s.push(x).len() == s.len() + 1);
    assert(dcg_fp(s.push(x), off) == gain_fp(s.push(x)[0].relevancy as int) * disc_fp(off)
        + dcg_fp(s.push(x).drop_first(), off + 1));
    if s.len() == 0 {
        assert(s.push(x).drop_first() =~= Seq::<Instance>::empty());
        assert(s.push(x)[0] == x);
    } else {
        assert(s.push(x)[0] == s[0]);
        assert(s.push(x).drop_first() == s.drop_first().push(x)) by {
            assert(s.push(x).drop_first() =~= s.drop_first().push(x));
        }
        lemma_dcg_push(s.drop_first(), x, off + 1);
    }
}

pub proof fn lemma_wsum_push(s: Seq<Instance>, x: Instance)
    ensures
        weight_sum(s.push(x)) == weight_sum(s) + x.weight,
    decreases s.len(),
{
    assert(s.push(x).len() == s.len() + 1);
    assert(weight_sum(s.push(x)) == s.push(x)[0].weight + weight_sum(s.push(x).drop_first()));
    if s.len() == 0 {
        assert(s.push(x).drop_first() =~= Seq::<Instance>::empty());
        assert(s.push(x)[0] == x);
    } else {
        assert(s.push(x)[0] == s[0]);
        assert(s.push(x).drop_first() == s.drop_first().push(x)) by {
            assert(s.push(x).drop_first() =~= s.drop_first().push(x));
        }
        lemma_wsum_push(s.drop_first(), x);
    }
}

pub proof fn lemma_wsum_concat(a: Seq<Instance>, b: Seq<Instance>)
    ensures
        weight_sum(a + b) == weight_sum(a) + weight_sum(b),
    decreases a.len(),
{
    if a.len() == 0 {
        assert(a + b =~= b);
    } else {
        assert((a + b).drop_first() =~= a.drop_first() + b);
        lemma_wsum_concat(a.drop_first(), b);
    }
}

pub proof fn lemma_wsum_bounds(s: Seq<Instance>)
    requires
        valid_instances(s),
    ensures
        s.len() <= weight_sum(s) <= s.len() * 1073741824,
    decreases s.len(),
{
    if s.len() > 0 {
        assert(valid_instance(s[0]));
        lemma_wsum_bounds(s.drop_first());
        assert(s.len() * 1073741824 == (s.len() - 1) * 1073741824 + 1073741824)
            by (nonlinear_arith);
    }
}

/// Every DCG term is non-negative and below 2^53, so the whole sum is
/// bounded by the length.
pub proof fn lemma_dcg_bounds(s: Seq<Instance>, off: int)
    requires
        valid_instances(s),
        0 <= off,
        off + s.len() <= len_max(),
    ensures
        0 <= dcg_fp(s, off) <= s.len() * 9007199254740992,
    decreases s.len(),
{
    if s.len() > 0 {
        assert(valid_instance(s[0]));
        lemma_exp2_bounds(s[0].relevancy as int);
        lemma_disc_antitone(0, off);
        lemma_disc_low(off);
        mul_le(gain_fp(s[0].relevancy as int), disc_fp(off), 137426305024, 65536);
        mul_le(0, 0, gain_fp(s[0].relevancy as int), disc_fp(off));
        lemma_dcg_bounds(s.drop_first(), off + 1);
        assert(s.len() * 9007199254740992 == (s.len() - 1) * 9007199254740992
            + 9007199254740992) by (nonlinear_arith);
    }
}

/// DCG and total weight of the instances in the order given, ranks starting
/// at 1 (the discount of the first element is exactly 1). The returned
/// `value` carries 32 fractional bits, being a sum of products of two
/// 16-bit fixed-point factors; the `weight` carries 16.
pub fn calculate_dcg(instances: &Vec<Instance>) -> (r: WeightedValue)
    requires
        valid_instances(instances@),
        instances@.len() <= len_max(),
    ensures
        r.value == dcg_fp(instances@, 0),
        r.weight == weight_sum(instances@),
{
    let n = instances.len();
    let mut i: usize = 0;
    let mut acc_v: u128 = 0;
    let mut acc_w: u64 = 0;
    while i < n
        invariant
            0 <= i <= n == instances@.len() <= len_max(),
            valid_instances(instances@),
            acc_v == dcg_fp(instances@.take(i as int), 0),
            acc_w == weight_sum(instances@.take(i as int)),
        decreases n - i,
    {
        proof {
            lemma_dcg_bounds(instances@.take(i as int), 0);
            lemma_wsum_bounds(instances@.take(i as int));
            mul_le(instances@.take(i as int).len() as int, 9007199254740992, 4294967296,
                9007199254740992);
            mul_le(instances@.take(i as int).len() as int, 1073741824, 4294967296, 1073741824);
            assert(valid_instance(instances@[i as int]));
        }
        let inst = instances[i];
        let g = gain_fixed(inst.relevancy);
        let d = disc_fixed(i as u64);
        proof {
            mul_le(g as int, d as int, 137426305024, 65536);
            mul_le(0, 0, g as int, d as int);
            lemma_dcg_push(instances@.take(i as int), inst, 0);
            lemma_wsum_push(instances@.take(i as int), inst);
            assert(instances@.take(i as int + 1) =~= instances@.take(i as int).push(
                instances@[i as int]));
        }
        acc_v = acc_v + (g as u128) * (d as u128);
        acc_w = acc_w + inst.weight;
        i = i + 1;
    }
    proof {
        assert(instances@.take(n as int) =~= instances@);
    }
    WeightedValue { value: acc_v, weight: acc_w }
}

} // verus!
