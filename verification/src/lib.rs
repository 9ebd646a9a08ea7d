//! Exact contraction of the N-Queens PEPS from Liu--Liao--Wang, Sec. VI.
//!
//! The rank-9 tensor `B` is constructed explicitly from its 17 non-zero
//! elements. Summing its physical index produces the rank-8 counting tensor
//! `C`. The solver applies sparse entries of `C` site by site and contracts a
//! complete row before moving the boundary down by one lattice spacing.

pub mod batched;
pub mod boundary;
pub mod certified;
pub mod compact;
pub mod contract;
pub mod deferred;
pub mod dfs_bitmask;
pub mod entries;
pub mod exact_mps;
pub mod explicit_frontier;
pub mod frontier_audit;
pub mod future_quotient;
pub mod generation;
pub mod gpu;
pub mod hash_layers;
pub mod joint;
pub mod mirror;
pub mod radix;
pub mod ordering_oracle;
pub mod packed_layers;
pub mod parallel;
pub mod path_search;
pub mod rank_diagnostic;
pub mod recursive_tail;
pub mod row;
pub mod sharded;
pub mod sitewise;
pub mod symmetry;
pub mod tensor;
pub mod transfer;
pub mod util;
pub mod weighted_dd;
pub mod wide;

pub use tensor::{BEntry, CEntry, SiteTensorB, SiteTensorC, VirtualLegs};
pub use symmetry::{ConstraintFamily, D4Symmetry};
pub use boundary::{BoundaryState, PackedBoundary};
pub use contract::{
    ContractionResult, LayerMetric, contract_rows, contract_rows_d4_orbit_sort_reduce,
    contract_rows_d4_sparse_sort_reduce, contract_rows_sort_reduce,
    contract_rows_sparse_sort_reduce, known_count,
};
pub use row::{
    CompiledRowOperator, RowCounters, apply_top_row_symmetry, contract_one_row_compiled,
    contract_one_row_compiled_sparse, top_row_vertical_orbit_weight,
};
pub use util::peak_rss_bytes;
pub use hash_layers::{contract_rows_hash_materialization, contract_rows_sitewise};
pub use sitewise::contract_one_row_sitewise;
pub use weighted_dd::contract_weighted_dd;
pub use deferred::{DeferredCandidate, contract_rows_d4_deferred_sparse_sort_reduce};
pub use explicit_frontier::{ExplicitFrontierOrder, ExplicitFrontierResult, contract_explicit_c_frontier};
pub use radix::sort_packed_radix;
pub use batched::{
    contract_rows_d4_arena_sort_reduce, contract_rows_d4_batched_radix, contract_rows_d4_batched_sort_reduce,
    contract_rows_d4_batched_sparse_parallel_sort, contract_rows_d4_batched_sparse_sort_reduce,
};
pub use sharded::{ShardMode, contract_rows_d4_sharded_sparse_sort_reduce};
pub use parallel::{
    contract_rows_d4_orbit_parallel_sort_reduce, contract_rows_d4_sparse_parallel_sort_reduce,
    contract_rows_parallel_sort_reduce, contract_rows_sparse_parallel_sort_reduce,
};
pub use packed_layers::ParallelGenerationResult;
pub use compact::{
    U64PromotionResult, contract_rows_d4_compact_parallel_generation,
    contract_rows_d4_compact_sharded_sort_reduce, contract_rows_d4_compact_u64_promoting,
    contract_rows_d4_compact_u64_promoting_with_limit,
};
pub use joint::{
    ArenaReuseResult, JointU64Result, contract_rows_d4_joint_u64_arena_reuse,
    contract_rows_d4_joint_u64_promoting, contract_rows_d4_joint_u64_with_limits,
};
pub use recursive_tail::{RecursiveTailResult, contract_rows_d4_recursive_tail};
pub use certified::{
    AdaptiveCutProbe, AdaptiveFastTailResult, CertifiedFastTailResult, contract_rows_adaptive_fast_tail,
    contract_rows_adaptive_fast_tail_impl, contract_rows_adaptive_last_k_tail,
    contract_rows_adaptive_last_k_tail_with_rows, contract_rows_certified_fast_tail,
    contract_rows_certified_fast_tail_with_limit,
};
