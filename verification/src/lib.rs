//! Weighted NDCG (Normalized Discounted Cumulative Gain) over a flat,
//! query-sorted sequence of scored instances.
//!
//! All quantities are fixed-point numbers with 16 fractional bits: the
//! integer `n` stands for the real number `n / 65536`. The discount
//! `1 / log2(rank + 1)` and the gain `2^relevancy - 1` are computed by
//! truncated power series over these integers, so every result is an exact,
//! fully specified function of the inputs.

pub mod fixed;
pub mod metric;
pub mod sorting;
pub mod evaluation;
pub mod laws;

pub use fixed::{exp2_fixed, gain_fixed, log2_fixed, disc_fixed};
pub use metric::{Instance, WeightedValue, NdcgError, calculate_dcg};
pub use sorting::sort_instances;
pub use evaluation::{calculate_query_ndcg, calculate_ndcg};
pub use laws::{lemma_uniform_relevancy_perfect, lemma_singleton_perfect, lemma_reversal_never_gains, lemma_aggregate_is_weighted_average};
