//! A constraint-satisfaction engine that enumerates the ways to occupy a
//! fixed set of candidate sites on a periodic surface, subject to mutual
//! exclusion between sites, a strict priority order between site classes,
//! a budget on low-priority sites, and canonical-order pruning of
//! equivalent fill orders.

pub mod bits;
pub mod sites;
pub mod settings;
pub mod representation;
pub mod solution;
pub mod fingerprint;
pub mod dup_filter;
pub mod close_vector_tree;
pub mod solver;
pub mod text;

pub use bits::{bits_of, count_true, has_true, highest_true, ones_list, rank_at, seq_disjoint};
pub use sites::{OxygenIndex, LatticeIndex, Singlet, Midpoint, Tripoint, SiteType, SiteFilter};
pub use settings::{BitArrayFilter, BitArraySettings, SettingsBuilder, DISTANCE_SCALE,
    DEFAULT_MAX_SINGLETS, DEFAULT_TOLERANCE};
pub use representation::{BitArrayRepresentation, MAX_SITES, lemma_empty_possibilities_maximal};
pub use solution::{BitArraySolution, bit_string, inflate_spec, compact_spec, lemma_inflate_compact};
pub use fingerprint::{pair_seq, sort_spec, sorted_insert, sorted_u64, tri_num, sort_vec,
    lemma_pair_seq_len, lemma_sort_spec_len, lemma_sort_spec_props, lemma_sorted_insert_props};
pub use dup_filter::{PointTypeCount, abs_diff, fp_close, scan_unique, tree_unique,
    lemma_filter_variants_agree, masked_count, class_key, map_state, bucket_of};
pub use close_vector_tree::{CloseVectorTree, CloseVectorTreeMap, key_dims, col_ok,
    lemma_count_partition};
pub use solver::{views_of, filter_children, expand_one, process_gen, run, distinct_states,
    parent_of, lemma_canonical_uniqueness, lemma_singlet_budget,
    lemma_parallel_matches_sequential, lemma_child_shape, lemma_possibility_site,
    lemma_run_distinct, lemma_run_budget, lemma_solutions_maximal, lemma_run_maximal};
pub use text::{rep_text, rows_text};
pub use solution::bit_chars;
