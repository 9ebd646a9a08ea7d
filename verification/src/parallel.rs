//! Sort-reduce contraction with each layer expanded in slices of parents and
//! sorted in parallel on a rayon pool of a given number of threads.
use vstd::prelude::*;

use crate::contract::{
    ContractionResult, LayerSort, SymmetryMode, contraction_spec, is_symmetric, sort_reduce_layers,
};
use crate::row::PositionMode;
use crate::util::{message, peak_rss_bytes, zero_duration};

verus! {

/// What a parallel contraction returns: an error for zero threads or boards
/// wider than the packed layout, the empty board's count for `n == 0`, and
/// otherwise, when it succeeds, exactly what the serial contraction returns.
pub open spec fn parallel_contraction_spec(
    n: nat,
    threads: nat,
    symmetric: bool,
    result: Result<ContractionResult, String>,
) -> bool {
    &&& threads == 0 ==> result is Err
    &&& threads >= 1 && n > 42 ==> result is Err
    &&& threads >= 1 && n == 0 ==> result is Ok
    &&& result is Ok ==> contraction_spec(n, symmetric, result)
}

/// Runs the sliced sort-reduce contraction on a rayon pool of `threads`
/// threads, built by `rayon::ThreadPoolBuilder::num_threads` and `build` and
/// entered by `rayon::ThreadPool::install`, which returns what the closure
/// returns. A pool that cannot be built gives an error. Stated: a success is
/// the contraction's result.
#[verifier::external_body]
fn run_in_pool(
    threads: usize,
    n: usize,
    symmetry_mode: SymmetryMode,
    position_mode: PositionMode,
    slices: usize,
) -> (result: Result<ContractionResult, String>)
    requires
        slices >= 1,
    ensures
        result is Ok ==> contraction_spec(n as nat, is_symmetric(symmetry_mode), result),
{
    let pool = match rayon::ThreadPoolBuilder::new().num_threads(threads).build() {
        Ok(pool) => pool,
        Err(error) => return Err(format!("failed to build Rayon pool: {error}")),
    };
    pool.install(|| sort_reduce_layers(n, symmetry_mode, position_mode, false, slices, LayerSort::Parallel))
}

/// Contract the exact compiled row operator with sliced expansion and
/// parallel sorting on `threads` threads. The final reduce remains serial and
/// uses checked integer addition in sorted key order.
fn contract_rows_parallel_sort_reduce_with_modes(
    n: usize,
    threads: usize,
    symmetry_mode: SymmetryMode,
    position_mode: PositionMode,
) -> (result: Result<ContractionResult, String>)
    ensures
        parallel_contraction_spec(n as nat, threads as nat, is_symmetric(symmetry_mode), result),
{
    if threads == 0 {
        return Err(message("parallel sort-reduce requires at least one thread"));
    }
    if n > 42 {
        return Err(message("the packed u128 virtual-boundary backend supports N <= 42"));
    }
    if n == 0 {
        proof {
            crate::sitewise::lemma_empty_board();
        }
        return Ok(
            ContractionResult {
                n,
                count: 1,
                elapsed: zero_duration(),
                peak_states: 1,
                tensor_entries_examined: 0,
                tensor_entries_matched: 0,
                row_operator_candidates: 0,
                row_operator_matched: 0,
                peak_rss_bytes: peak_rss_bytes(),
                layers: Vec::new(),
            },
        );
    }
    let slices = match threads.checked_mul(4) {
        Some(s) => s,
        None => usize::MAX,
    };
    run_in_pool(threads, n, symmetry_mode, position_mode, slices)
}

/// Parallel sort-reduce over every column.
pub fn contract_rows_parallel_sort_reduce(n: usize, threads: usize) -> (result: Result<
    ContractionResult,
    String,
>)
    ensures
        parallel_contraction_spec(n as nat, threads as nat, false, result),
{
    contract_rows_parallel_sort_reduce_with_modes(n, threads, SymmetryMode::Plain, PositionMode::Dense)
}

/// Parallel sort-reduce over the legal queen columns only.
pub fn contract_rows_sparse_parallel_sort_reduce(n: usize, threads: usize) -> (result: Result<
    ContractionResult,
    String,
>)
    ensures
        parallel_contraction_spec(n as nat, threads as nat, false, result),
{
    contract_rows_parallel_sort_reduce_with_modes(n, threads, SymmetryMode::Plain, PositionMode::Sparse)
}

/// Parallel sort-reduce after exact first-row vertical-reflection orbit
/// slicing.
pub fn contract_rows_d4_orbit_parallel_sort_reduce(n: usize, threads: usize) -> (result: Result<
    ContractionResult,
    String,
>)
    ensures
        parallel_contraction_spec(n as nat, threads as nat, true, result),
{
    contract_rows_parallel_sort_reduce_with_modes(
        n,
        threads,
        SymmetryMode::TopRowVerticalOrbits,
        PositionMode::Dense,
    )
}

/// Parallel sort-reduce with orbit slicing over the legal queen columns.
pub fn contract_rows_d4_sparse_parallel_sort_reduce(n: usize, threads: usize) -> (result: Result<
    ContractionResult,
    String,
>)
    ensures
        parallel_contraction_spec(n as nat, threads as nat, true, result),
{
    contract_rows_parallel_sort_reduce_with_modes(
        n,
        threads,
        SymmetryMode::TopRowVerticalOrbits,
        PositionMode::Sparse,
    )
}

} // verus!
