//! The two ranking orders and a verified insertion sort.
//!
//! Both orders are total: ties on the primary key are broken by the other
//! fields, so a sorted sequence is determined by the multiset of its
//! elements alone, and the executable sort provably returns
//! `Seq::sort_by` of its input.

use vstd::prelude::*;
use vstd::relations::{total_ordering, sorted_by};
use vstd::seq_lib::lemma_sorted_unique;
use crate::metric::Instance;

verus! {

/// Ideal ranking: relevancy descending; ties broken by score, weight and
/// query id so that the relation is a total order.
pub open spec fn leq_rel(a: Instance, b: Instance) -> bool {
    ||| a.relevancy > b.relevancy
    ||| (a.relevancy == b.relevancy && a.score > b.score)
    ||| (a.relevancy == b.relevancy && a.score == b.score && a.weight > b.weight)
    ||| (a.relevancy == b.relevancy && a.score == b.score && a.weight == b.weight
        && a.query_id <= b.query_id)
}

/// Predicted ranking: score descending; same tie-breaking scheme.
pub open spec fn leq_score(a: Instance, b: Instance) -> bool {
    ||| a.score > b.score
    ||| (a.score == b.score && a.relevancy > b.relevancy)
    ||| (a.score == b.score && a.relevancy == b.relevancy && a.weight > b.weight)
    ||| (a.score == b.score && a.relevancy == b.relevancy && a.weight == b.weight
        && a.query_id <= b.query_id)
}

pub open spec fn rel_order() -> spec_fn(Instance, Instance) -> bool {
    |a: Instance, b: Instance| leq_rel(a, b)
}

pub open spec fn score_order() -> spec_fn(Instance, Instance) -> bool {
    |a: Instance, b: Instance| leq_score(a, b)
}

/// The order actually used by the sort, chosen by a flag: the predicted
/// (score) order or the ideal (relevancy) order.
pub open spec fn chosen_order(by_score: bool) -> spec_fn(Instance, Instance) -> bool {
    if by_score {
        score_order()
    } else {
        rel_order()
    }
}

pub proof fn lemma_orders_total()
    ensures
        total_ordering(rel_order()),
        total_ordering(score_order()),
        total_ordering(chosen_order(true)),
        total_ordering(chosen_order(false)),
{
    let r = rel_order();
    let s = score_order();
    assert forall|a: Instance| #[trigger] r(a, a) by {}
    assert forall|a: Instance| #[trigger] s(a, a) by {}
    assert forall|a: Instance, b: Instance| #[trigger] r(a, b) && #[trigger] r(b, a) implies a == b
        by {}
    assert forall|a: Instance, b: Instance| #[trigger] s(a, b) && #[trigger] s(b, a) implies a == b
        by {}
    assert forall|a: Instance, b: Instance, c: Instance|
        #[trigger] r(a, b) && #[trigger] r(b, c) implies r(a, c) by {}
    assert forall|a: Instance, b: Instance, c: Instance|
        #[trigger] s(a, b) && #[trigger] s(b, c) implies s(a, c) by {}
    assert forall|a: Instance, b: Instance| !(#[trigger] r(a, b)) implies r(b, a) by {}
    assert forall|a: Instance, b: Instance| !(#[trigger] s(a, b)) implies s(b, a) by {}
}

/// Exec comparison deciding the chosen order.
fn inst_leq(a: &Instance, b: &Instance, by_score: bool) -> (r: bool)
    ensures
        r == chosen_order(by_score)(*a, *b),
{
    if by_score {
        if a.score > b.score {
            true
        } else if a.score == b.score && a.relevancy > b.relevancy {
            true
        } else if a.score == b.score && a.relevancy == b.relevancy && a.weight > b.weight {
            true
        } else {
            a.score == b.score && a.relevancy == b.relevancy && a.weight == b.weight
                && a.query_id <= b.query_id
        }
    } else {
        if a.relevancy > b.relevancy {
            true
        } else if a.relevancy == b.relevancy && a.score > b.score {
            true
        } else if a.relevancy == b.relevancy && a.score == b.score && a.weight > b.weight {
            true
        } else {
            a.relevancy == b.relevancy && a.score == b.score && a.weight == b.weight
                && a.query_id <= b.query_id
        }
    }
}

/// Inserting anywhere adds exactly one occurrence to the multiset.
proof fn lemma_insert_to_multiset(s: Seq<Instance>, k: int, x: Instance)
    requires
        0 <= k <= s.len(),
    ensures
        s.insert(k, x).to_multiset() == s.to_multiset().insert(x),
{
    broadcast use vstd::seq_lib::group_to_multiset_ensures;
    broadcast use vstd::multiset::group_multiset_axioms;

    let t = s.insert(k, x);
    assert(t[k] == x);
    assert(t.remove(k) =~= s);
    assert(t.remove(k).to_multiset() =~= t.to_multiset().remove(x));
    assert(t.contains(x));
    assert(t.to_multiset().count(x) > 0);
    assert(t.to_multiset() =~= s.to_multiset().insert(x)) by {
        assert forall|y: Instance|
            t.to_multiset().count(y) == s.to_multiset().insert(x).count(y) by {
            assert(s.to_multiset() == t.to_multiset().remove(x));
        }
    }
}

/// Insert `x` into an already sorted vector, keeping it sorted.
fn insert_sorted(out: &mut Vec<Instance>, x: Instance, by_score: bool)
    requires
        sorted_by(old(out)@, chosen_order(by_score)),
        old(out)@.len() < usize::MAX,
    ensures
        sorted_by(final(out)@, chosen_order(by_score)),
        final(out)@.to_multiset() == old(out)@.to_multiset().insert(x),
        final(out)@.len() == old(out)@.len() + 1,
{
    let ord = Ghost(chosen_order(by_score));
    proof {
        lemma_orders_total();
    }
    let mut k: usize = 0;
    while k < out.len() && inst_leq(&out[k], &x, by_score)
        invariant
            0 <= k <= out@.len(),
            forall|m: int| 0 <= m < k ==> ord@(out@[m], x),
            sorted_by(out@, ord@),
            ord@ == chosen_order(by_score),
            out@.len() < usize::MAX,
            total_ordering(ord@),
        decreases out@.len() - k,
    {
        k = k + 1;
    }
    proof {
        if k < out@.len() {
            assert(!ord@(out@[k as int], x));
            assert(ord@(x, out@[k as int]));
        }
        lemma_insert_to_multiset(out@, k as int, x);
    }
    let ghost pre = out@;
    out.insert(k, x);
    proof {
        let t = pre.insert(k as int, x);
        assert(out@ == t);
        assert forall|i: int, j: int| 0 <= i < j < t.len() implies ord@(t[i], t[j]) by {
            if j < k {
                assert(t[i] == pre[i] && t[j] == pre[j]);
            } else if i > k {
                assert(t[i] == pre[i - 1] && t[j] == pre[j - 1]);
            } else if i < k && j == k {
                assert(t[i] == pre[i] && t[j] == x);
            } else if i == k && j > k {
                assert(t[i] == x && t[j] == pre[j - 1]);
                assert(ord@(x, pre[k as int]));
                assert(ord@(pre[k as int], pre[j - 1]));
            } else if i < k && j > k {
                assert(t[i] == pre[i] && t[j] == pre[j - 1]);
                if i < j - 1 {
                    assert(ord@(pre[i], pre[j - 1]));
                } else {
                    assert(ord@(pre[i], x) && ord@(x, pre[j - 1]));
                }
            }
        }
    }
}

/// Sort the instances by the chosen total order; the result is exactly the
/// specification-level `sort_by` of the input.
pub fn sort_instances(v: &Vec<Instance>, by_score: bool) -> (r: Vec<Instance>)
    ensures
        r@ == v@.sort_by(chosen_order(by_score)),
        r@.len() == v@.len(),
        r@.to_multiset() == v@.to_multiset(),
        sorted_by(r@, chosen_order(by_score)),
{
    let ord = Ghost(chosen_order(by_score));
    proof {
        lemma_orders_total();
        broadcast use vstd::seq_lib::group_to_multiset_ensures;
    }
    let n = v.len();
    let mut out: Vec<Instance> = Vec::new();
    let mut i: usize = 0;
    while i < n
        invariant
            0 <= i <= n == v@.len(),
            sorted_by(out@, ord@),
            out@.len() == i,
            out@.to_multiset() == v@.take(i as int).to_multiset(),
            ord@ == chosen_order(by_score),
        decreases n - i,
    {
        proof {
            broadcast use vstd::seq_lib::group_to_multiset_ensures;

            assert(v@.take(i as int + 1) =~= v@.take(i as int).push(v@[i as int]));
        }
        let x = v[i];
        insert_sorted(&mut out, x, by_score);
        i = i + 1;
    }
    proof {
        assert(v@.take(n as int) =~= v@);
        v@.lemma_sort_by_ensures(ord@);
        lemma_sorted_unique(out@, v@.sort_by(ord@), ord@);
        assert(out@ =~= v@.sort_by(ord@));
        assert(v@.sort_by(ord@).to_multiset() =~= v@.to_multiset());
    }
    out
}

} // verus!
