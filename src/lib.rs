//! A vantage-point tree: a metric-space index answering nearest-neighbour,
//! k-nearest and radius queries by branch-and-bound over a balanced binary
//! partition of the stored items.
//!
//! Distances are unsigned integers (`u64`). The metric laws that the query
//! engine relies on are part of the [`Distance`] and [`Metric`] traits, so every
//! answer is proved exact for each type that implements them.

mod answer;
mod distance;
mod heap_item;
mod laws;
mod querry;
mod select;
mod vp_tree;

pub use distance::{Distance, Metric, abs_diff_i64, abs_diff_u64};
pub use heap_item::{HeapItem, push_bounded, ranks_before, sorted_by_rank};
pub use laws::{
    closer_than, lemma_answer_size, lemma_answers_agree, lemma_k_nearest, lemma_nearest_is_minimum,
    items_at, lemma_radius, lemma_round_trip, lemma_same_items_same_answer, lemma_same_items_same_distances,
    lemma_same_items_same_nearest, min_distance, no_ties, qualifying, qualifying_within, within,
};
pub use querry::{Querry, UNBOUNDED_DISTANCE};
pub use answer::{eligible, is_answer, is_nearest, qualifies, ranks_first};
pub use vp_tree::{OptionalUsize, VpTree, left_len, partitioned, split_budget, subtree_ok};
