use ndcg::{
    calculate_dcg, calculate_ndcg, calculate_query_ndcg, disc_fixed, exp2_fixed, gain_fixed,
    log2_fixed, Instance, NdcgError,
};

const SCALE: f64 = 65536.0;

fn inst(query_id: i64, weight: f64, relevancy: f64, score: f64) -> Instance {
    Instance {
        query_id,
        weight: (weight * SCALE) as u64,
        relevancy: (relevancy * SCALE) as u64,
        score: (score * SCALE) as i64,
    }
}

fn close(actual: u64, expected: f64) -> bool {
    (actual as f64 / SCALE - expected).abs() < 0.001
}

#[test]
fn test_exp2_exact_powers() {
    assert_eq!(exp2_fixed(0), 65536);
    assert_eq!(exp2_fixed(65536), 131072);
    assert_eq!(exp2_fixed(131072), 262144);
    assert_eq!(exp2_fixed(20 * 65536), 65536 << 20);
}

#[test]
fn test_exp2_fractional() {
    // 2^0.5 = 1.41421...
    assert!(close(exp2_fixed(32768), 1.41421));
}

#[test]
fn test_gain_exact() {
    assert_eq!(gain_fixed(0), 0);
    assert_eq!(gain_fixed(65536), 65536);
    assert_eq!(gain_fixed(131072), 196608);
}

#[test]
fn test_log2_exact_powers() {
    assert_eq!(log2_fixed(2), 65536);
    assert_eq!(log2_fixed(4), 131072);
    assert_eq!(log2_fixed(8), 196608);
}

#[test]
fn test_log2_of_three() {
    assert!(close(log2_fixed(3), 1.5849625));
}

#[test]
fn test_disc_exact() {
    assert_eq!(disc_fixed(0), 65536);
    assert_eq!(disc_fixed(2), 32768);
}

#[test]
fn test_disc_rank_two() {
    // 1 / log2(3) = 0.63093
    assert!(close(disc_fixed(1), 0.63093));
}

#[test]
fn test_calculate_dcg_single() {
    let v = vec![inst(0, 1.0, 1.0, 0.5)];
    let r = calculate_dcg(&v);
    // gain(1) * disc(0) = 65536 * 65536, at double scale
    assert_eq!(r.value, 4294967296);
    assert_eq!(r.weight, 65536);
}

#[test]
fn test_calculate_dcg_order_matters() {
    let good = vec![inst(0, 1.0, 2.0, 0.0), inst(0, 1.0, 1.0, 0.0)];
    let bad = vec![inst(0, 1.0, 1.0, 0.0), inst(0, 1.0, 2.0, 0.0)];
    let rg = calculate_dcg(&good);
    let rb = calculate_dcg(&bad);
    assert!(rg.value > rb.value);
    assert_eq!(rg.weight, rb.weight);
}

#[test]
fn test_query_ndcg_single_instance_is_one() {
    let v = vec![inst(7, 0.5, 1.0, -3.25)];
    let r = calculate_query_ndcg(&v).unwrap();
    // a single instance scores exactly 1.0, contributing its whole weight
    assert_eq!(r.value, r.weight as u128);
    assert_eq!(r.weight, (0.5 * SCALE) as u64);
}

#[test]
fn test_query_ndcg_uniform_relevancy_is_one() {
    let v = vec![inst(0, 1.0, 2.0, 0.1), inst(0, 2.0, 2.0, 0.9), inst(0, 0.25, 2.0, -0.5)];
    let r = calculate_query_ndcg(&v).unwrap();
    assert_eq!(r.value, r.weight as u128);
}

#[test]
fn test_query_ndcg_reversed_ranking_scores_less() {
    // predicted order is the exact reverse of the ideal order
    let v = vec![inst(0, 1.0, 2.0, 1.0), inst(0, 1.0, 1.0, 2.0)];
    let r = calculate_query_ndcg(&v).unwrap();
    assert!((r.value as f64) < (r.weight as f64));
    // (3/log2(3) + 1) / (3 + 1/log2(3)) = 0.79671
    assert!((r.value as f64 / r.weight as f64 - 0.79671).abs() < 0.001);
}

#[test]
fn test_query_ndcg_degenerate() {
    let v = vec![inst(0, 1.0, 0.0, 1.0), inst(0, 2.0, 0.0, 2.0)];
    assert_eq!(calculate_query_ndcg(&v), Err(NdcgError::DegenerateQuery));
}

#[test]
fn test_calculate_ndcg_single() {
    let instances = vec![
        inst(0, 0.82, 1.0, 2.34),
        inst(0, 1.23, 0.0, 2.58),
    ];
    // the predicted order puts the irrelevant instance first:
    // 1 / log2(3) / 1 = 0.63093
    let r = calculate_ndcg(&instances).unwrap();
    assert!(close(r, 0.63093));
}

#[test]
fn test_calculate_ndcg() {
    let instances = vec![
        inst(0, 0.82, 1.0, 2.34),
        inst(0, 1.23, 0.0, 2.58),
        inst(1, 2.56, 2.0, 1.23),
        inst(1, 2.46, 1.0, 0.8),
    ];
    // query 0 scores 0.63093, query 1 scores exactly 1; the weights are
    // 2.05 and 5.02, so the aggregate is
    // (2.05 * 0.63093 + 5.02) / 7.07 = 0.8933644
    let r = calculate_ndcg(&instances).unwrap();
    assert!(close(r, 0.8933644));
}

#[test]
fn test_non_monotonic_query_ids() {
    let instances = vec![
        inst(1, 0.01, 1.0, 0.8),
        inst(1, 5.00, 2.0, 1.23),
        inst(0, 0.82, 1.0, 2.34),
        inst(0, 1.23, 0.0, 2.58),
    ];
    assert_eq!(calculate_ndcg(&instances), Err(NdcgError::NonMonotonicQueryOrder));
}

#[test]
fn test_only_zero_relevancy() {
    let instances = vec![
        inst(1, 0.01, 0.0, 0.8),
        inst(1, 5.00, 0.0, 1.23),
    ];
    assert_eq!(calculate_ndcg(&instances), Err(NdcgError::DegenerateQuery));
}

#[test]
fn test_degenerate_in_later_group() {
    let instances = vec![
        inst(0, 1.0, 1.0, 0.5),
        inst(1, 1.0, 0.0, 0.5),
    ];
    assert_eq!(calculate_ndcg(&instances), Err(NdcgError::DegenerateQuery));
}

#[test]
fn test_degenerate_group_completes_before_decrease() {
    // the first group's zero ideal DCG is met in scan order before the
    // query-id decrease at index 2..3, so DegenerateQuery wins
    let instances = vec![
        inst(0, 1.0, 0.0, 0.5),
        inst(0, 1.0, 0.0, 0.9),
        inst(1, 1.0, 2.0, 0.5),
        inst(0, 1.0, 2.0, 0.5),
    ];
    assert_eq!(calculate_ndcg(&instances), Err(NdcgError::DegenerateQuery));
}

#[test]
fn test_decrease_at_boundary_beats_degenerate_group() {
    // the boundary check precedes the completed run's evaluation: the id
    // decrease right after the all-zero group is reported, not the group
    let instances = vec![
        inst(1, 1.0, 0.0, 0.5),
        inst(1, 1.0, 0.0, 0.9),
        inst(0, 1.0, 2.0, 0.5),
    ];
    assert_eq!(calculate_ndcg(&instances), Err(NdcgError::NonMonotonicQueryOrder));
}

#[test]
fn test_empty_input_returns_zero() {
    let instances: Vec<Instance> = vec![];
    assert_eq!(calculate_ndcg(&instances), Ok(0));
}

#[test]
fn test_perfect_prediction_scores_one() {
    let instances = vec![
        inst(0, 1.0, 2.0, 9.0),
        inst(0, 1.0, 1.0, 5.0),
        inst(0, 1.0, 0.5, 1.0),
    ];
    let r = calculate_ndcg(&instances).unwrap();
    assert_eq!(r, 65536);
}

#[test]
fn test_equal_scores_tie_break_is_deterministic() {
    let a = vec![inst(0, 1.0, 2.0, 1.0), inst(0, 1.0, 1.0, 1.0)];
    let b = vec![inst(0, 1.0, 1.0, 1.0), inst(0, 1.0, 2.0, 1.0)];
    // the tie on score is broken by relevancy, identically for any input
    // order of the same instances
    assert_eq!(calculate_ndcg(&a), calculate_ndcg(&b));
    assert_eq!(calculate_ndcg(&a), Ok(65536));
}
