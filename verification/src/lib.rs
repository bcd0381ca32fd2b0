//! A sorted, array-backed membership container with comparison-based search
//! strategies tuned for modern CPU pipelines.
//!
//! The backing array can be kept in ascending (sorted) order or rewritten in
//! place into the level-order (Eytzinger) layout of an implicit binary search
//! tree, which improves cache locality during repeated lookups.  Four search
//! procedures are provided: branch-based and branchless binary search over the
//! sorted layout, and branch-based and branchless heap-indexed search over the
//! level-order layout.

mod layout;
mod level_index;
mod ops;
mod permute;
mod search_level;
mod search_sorted;
mod flat_set;

pub use flat_set::FlatSet;
pub use layout::lemma_level_index_perfect;
pub use layout::lemma_perfect_build_finds_member;
pub use layout::lemma_perfect_layout_heap_ordered;
pub use layout::perfect_queue;
pub use layout::perfect_size;
pub use layout::slot_depth;
pub use layout::slot_mid;
pub use layout::slot_range;
pub use level_index::LevelOrderIterator;
pub use level_index::bfs_order;
pub use level_index::is_permutation;
pub use level_index::lemma_bfs_order_props;
pub use level_index::level_index;
pub use level_index::level_order_indexes;
pub use level_index::queue_total;
pub use level_index::range_len;
pub use ops::LevelOrder;
pub use permute::lemma_same_multiset_same_members;
pub use permute::level_order;
pub use search_level::branchful_level_order_search;
pub use search_level::branchful_walk;
pub use search_level::branchless_level_order_search;
pub use search_level::branchless_walk;
pub use search_level::branchless_walk_result;
pub use search_level::walk_result_is;
pub use search_level::heap_ordered;
pub use search_level::in_subtree;
pub use search_level::least_greater_at;
pub use search_level::left_child;
pub use search_level::lemma_heap_ordered_distinct;
pub use search_level::lemma_level_order_search_boundary;
pub use search_level::lemma_level_order_search_finds_member;
pub use search_level::lemma_level_order_unique;
pub use search_level::level_order_result;
pub use search_level::no_greater;
pub use search_level::right_child;
pub use search_level::terminal_decode;
pub use search_sorted::binary_search_result;
pub use search_sorted::branchful_binary_search;
pub use search_sorted::branchless_binary_search;
pub use search_sorted::insertion_point;
pub use search_sorted::lemma_binary_search_boundary;
pub use search_sorted::lemma_binary_search_finds_member;
pub use search_sorted::lemma_binary_search_miss;
pub use search_sorted::lemma_binary_search_unique;
pub use search_sorted::lemma_binary_variants_agree;
pub use search_sorted::sorted;
pub use search_sorted::strictly_sorted;
