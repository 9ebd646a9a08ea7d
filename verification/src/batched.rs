//! Batched row expansion: the compiled row transfer writes packed successor
//! terms straight into the layer's candidate arena, weighting first-row
//! queens by their vertical-reflection orbit on the way.
use vstd::prelude::*;

use crate::boundary::{
    BoundaryState, PackedBoundary, board_mask, board_mask_spec, bit, empty_state, pack_spec,
    replace_bit,
};
use crate::contract::{ContractionResult, LayerSort, SymmetryMode, contraction_spec, sort_reduce_layers};
use crate::row::{
    CompiledRowOperator, PositionMode, RowCounters, counter_room, first_row_column, lemma_place_bits,
    matching_bits, occupied_entry, orbit_option, top_row_terms, top_row_vertical_orbit_weight,
};
use crate::transfer::{
    available_spec, cell_free, lemma_available_bit, lemma_first_row_column, lemma_lowest_bit,
    lemma_scan_bounds, lemma_scan_step, lemma_successors_len, lemma_successors_skip,
    lemma_trailing_zeros_of_bit, low_mask, orbit_weight, pack_terms, place, row_successors,
    row_successors_upto, weighted_successors, with_weight,
};
use crate::util::message;
use vstd::std_specs::bits::u64_trailing_zeros;

verus! {

/// The terms one parent contributes to the next layer: its weighted row
/// successors, reduced to reflection orbits on the first row.
pub open spec fn expansion(n: nat, parent: BoundaryState, weight: u128, top_row: bool) -> Seq<
    (BoundaryState, u128),
> {
    if top_row {
        top_row_terms(n, weighted_successors(n, parent, weight))
    } else {
        weighted_successors(n, parent, weight)
    }
}

/// The part of `expansion` with the queen in a column below `k`.
pub(crate) open spec fn expansion_upto(n: nat, parent: BoundaryState, weight: u128, top_row: bool, k: nat) -> Seq<
    (BoundaryState, u128),
> {
    if top_row {
        top_row_terms(n, with_weight(row_successors_upto(n, parent, k), weight))
    } else {
        with_weight(row_successors_upto(n, parent, k), weight)
    }
}

/// Appending one successor extends the expansion by its orbit-weighted term.
pub(crate) proof fn lemma_expansion_step(n: nat, parent: BoundaryState, weight: u128, top_row: bool, c: nat)
    requires
        cell_free(parent, c),
    ensures
        ({
            let s = place(n, parent, c);
            let w = orbit_weight(n, first_row_column(s));
            expansion_upto(n, parent, weight, top_row, c + 1) == expansion_upto(
                n,
                parent,
                weight,
                top_row,
                c,
            ) + if !top_row {
                seq![(s, weight)]
            } else if w == 0 {
                Seq::<(BoundaryState, u128)>::empty()
            } else {
                seq![(s, (weight * w) as u128)]
            }
        }),
{
    let s = place(n, parent, c);
    let before = with_weight(row_successors_upto(n, parent, c), weight);
    let after = with_weight(row_successors_upto(n, parent, c + 1), weight);
    assert(row_successors_upto(n, parent, c + 1) == row_successors_upto(n, parent, c) + seq![s]);
    assert(after =~= before.push((s, weight)));
    assert(after.drop_last() =~= before);
    assert(after.last() == (s, weight));
    if !top_row {
        assert(expansion_upto(n, parent, weight, top_row, c + 1) =~= expansion_upto(
            n,
            parent,
            weight,
            top_row,
            c,
        ) + seq![(s, weight)]);
    }
}

/// A blocked column adds nothing to the expansion.
pub(crate) proof fn lemma_expansion_skip(n: nat, parent: BoundaryState, weight: u128, top_row: bool, c: nat)
    requires
        !cell_free(parent, c),
    ensures
        expansion_upto(n, parent, weight, top_row, c + 1) == expansion_upto(n, parent, weight, top_row, c),
{
    assert(row_successors_upto(n, parent, c + 1) =~= row_successors_upto(n, parent, c));
}

/// Every term of `terms` has weight at most `limit`.
pub open spec fn weights_within(terms: Seq<(BoundaryState, u128)>, limit: nat) -> bool {
    forall|i: int| 0 <= i < terms.len() ==> (#[trigger] terms[i]).1 <= limit
}

/// The expansion over fewer columns is a prefix of the one over more.
pub(crate) proof fn lemma_expansion_monotone(
    n: nat,
    parent: BoundaryState,
    weight: u128,
    top_row: bool,
    k: nat,
    m: nat,
)
    requires
        k <= m,
    ensures
        expansion_upto(n, parent, weight, top_row, k).len() <= expansion_upto(n, parent, weight, top_row, m).len(),
        forall|j: int|
            0 <= j < expansion_upto(n, parent, weight, top_row, k).len() ==> #[trigger] expansion_upto(
                n,
                parent,
                weight,
                top_row,
                m,
            )[j] == expansion_upto(n, parent, weight, top_row, k)[j],
    decreases m,
{
    if m > k {
        lemma_expansion_monotone(n, parent, weight, top_row, k, (m - 1) as nat);
        if cell_free(parent, (m - 1) as nat) {
            lemma_expansion_step(n, parent, weight, top_row, (m - 1) as nat);
        } else {
            lemma_expansion_skip(n, parent, weight, top_row, (m - 1) as nat);
        }
    }
}

/// The expansion over the first `k` columns is a prefix of the expansion.
pub(crate) proof fn lemma_expansion_prefix(n: nat, parent: BoundaryState, weight: u128, top_row: bool, k: nat)
    requires
        k <= n,
    ensures
        expansion_upto(n, parent, weight, top_row, k).len() <= expansion(n, parent, weight, top_row).len(),
        forall|j: int|
            0 <= j < expansion_upto(n, parent, weight, top_row, k).len() ==> #[trigger] expansion(
                n,
                parent,
                weight,
                top_row,
            )[j] == expansion_upto(n, parent, weight, top_row, k)[j],
{
    lemma_expansion_monotone(n, parent, weight, top_row, k, n);
    assert(expansion(n, parent, weight, top_row) == expansion_upto(n, parent, weight, top_row, n));
}

pub(crate) proof fn lemma_expansion_len(n: nat, parent: BoundaryState, weight: u128, top_row: bool, k: nat)
    ensures
        expansion_upto(n, parent, weight, top_row, k).len() <= k,
{
    lemma_successors_len(n, parent, k);
    crate::row::lemma_top_row_terms_len(n, with_weight(row_successors_upto(n, parent, k), weight));
}

/// The first-row orbit weight of a queen placed below the empty frontier.
pub(crate) proof fn lemma_top_row_weight(n: nat, c: nat)
    requires
        c < n <= 42,
    ensures
        first_row_column(place(n, empty_state(), c)) == c,
        orbit_weight(n, c) <= 2,
{
    lemma_first_row_column(n, c);
}

/// Append the packed successors of `parent` over every column, with the
/// orbit weights of the first row when `top_row`.
pub(crate) fn append_compiled_dense_d4(
    n: usize,
    operator: &CompiledRowOperator,
    parent: BoundaryState,
    parent_weight: u128,
    top_row: bool,
    counters: &mut RowCounters,
    output: &mut Vec<(PackedBoundary, u128)>,
) -> (appended: Result<usize, String>)
    requires
        1 <= n <= 42,
        counter_room(old(counters).operator_candidates, n as int),
        counter_room(old(counters).operator_matched, n as int),
        top_row ==> parent == empty_state() && parent_weight == 1,
    ensures
        appended matches Ok(k) && final(output)@ == old(output)@ + pack_terms(
            expansion(n as nat, parent, parent_weight, top_row),
            n as nat,
        ) && k == expansion(n as nat, parent, parent_weight, top_row).len(),
        final(counters).operator_candidates == old(counters).operator_candidates + n,
        final(counters).operator_matched == old(counters).operator_matched + row_successors(
            n as nat,
            parent,
        ).len(),
        final(counters).tensor_examined == old(counters).tensor_examined,
        final(counters).tensor_matched == old(counters).tensor_matched,
{
    let occupied = operator.occupied();
    let legs = occupied.legs;
    let board = board_mask(n);
    let start_len = output.len();
    let ghost nn = n as nat;
    let mut column: usize = 0;
    while column < n
        invariant
            1 <= n <= 42,
            nn == n,
            column <= n,
            occupied == occupied_entry(),
            legs == occupied.legs,
            board == board_mask_spec(nn),
            top_row ==> parent == empty_state() && parent_weight == 1,
            start_len == old(output)@.len(),
            output@ == old(output)@ + pack_terms(
                expansion_upto(nn, parent, parent_weight, top_row, column as nat),
                nn,
            ),
            counters.operator_candidates == old(counters).operator_candidates + column,
            counters.operator_matched == old(counters).operator_matched + row_successors_upto(
                nn,
                parent,
                column as nat,
            ).len(),
            row_successors_upto(nn, parent, column as nat).len() <= column,
            counters.tensor_examined == old(counters).tensor_examined,
            counters.tensor_matched == old(counters).tensor_matched,
            counter_room(old(counters).operator_candidates, n as int),
            counter_room(old(counters).operator_matched, n as int),
        decreases n - column,
    {
        counters.operator_candidates = counters.operator_candidates + 1;
        if bit(parent.columns, column) != legs.column_in || bit(parent.diag_dr, column)
            != legs.diag_dr_in || bit(parent.diag_dl, column) != legs.diag_dl_in {
            proof {
                assert(!cell_free(parent, column as nat));
                lemma_expansion_skip(nn, parent, parent_weight, top_row, column as nat);
                assert(row_successors_upto(nn, parent, column as nat + 1) =~= row_successors_upto(
                    nn,
                    parent,
                    column as nat,
                ));
            }
            column = column + 1;
            continue;
        }
        counters.operator_matched = counters.operator_matched + 1;
        let columns_out = replace_bit(parent.columns, column, legs.column_out);
        let diag_dr_at_sites = replace_bit(parent.diag_dr, column, legs.diag_dr_out);
        let diag_dl_at_sites = replace_bit(parent.diag_dl, column, legs.diag_dl_out);
        let successor = BoundaryState {
            columns: columns_out,
            diag_dr: (diag_dr_at_sites << 1u64) & board,
            diag_dl: diag_dl_at_sites >> 1u64,
        };
        let ghost c = column as nat;
        proof {
            lemma_place_bits(nn, parent, c);
            assert(successor == place(nn, parent, c));
            assert(row_successors_upto(nn, parent, c + 1) =~= row_successors_upto(nn, parent, c).push(
                successor,
            ));
            lemma_expansion_step(nn, parent, parent_weight, top_row, c);
            if top_row {
                lemma_top_row_weight(nn, c);
            }
        }
        let mut weight = match parent_weight.checked_mul(occupied.value) {
            Some(w) => w,
            None => {
                return Err(message("coefficient overflow in batched row operator"));
            },
        };
        if top_row {
            match top_row_vertical_orbit_weight(n, successor) {
                None => {
                    proof {
                        assert(expansion_upto(nn, parent, parent_weight, top_row, c + 1) == expansion_upto(
                            nn,
                            parent,
                            parent_weight,
                            top_row,
                            c,
                        ) + Seq::<(BoundaryState, u128)>::empty());
                        assert(expansion_upto(nn, parent, parent_weight, top_row, c + 1) =~= expansion_upto(
                            nn,
                            parent,
                            parent_weight,
                            top_row,
                            c,
                        ));
                    }
                    column = column + 1;
                    continue;
                },
                Some(multiplicity) => {
                    weight = match weight.checked_mul(multiplicity) {
                        Some(w) => w,
                        None => {
                            return Err(message("coefficient overflow in batched D4 weighting"));
                        },
                    };
                },
            }
        }
        let ghost before = output@;
        output.push((PackedBoundary::pack(successor, n), weight));
        proof {
            let added = (successor, weight);
            assert(pack_terms(expansion_upto(nn, parent, parent_weight, top_row, c + 1), nn) =~= pack_terms(
                expansion_upto(nn, parent, parent_weight, top_row, c),
                nn,
            ).push((PackedBoundary(pack_spec(successor, nn)), weight)));
            assert(output@ =~= old(output)@ + pack_terms(
                expansion_upto(nn, parent, parent_weight, top_row, c + 1),
                nn,
            ));
        }
        column = column + 1;
    }
    proof {
        lemma_expansion_len(nn, parent, parent_weight, top_row, nn);
        assert(output@.len() == start_len + expansion(nn, parent, parent_weight, top_row).len());
    }
    Ok(output.len() - start_len)
}

/// Append the packed successors of `parent` over its legal queen columns
/// only, found as the set bits of one available-column word, with the orbit
/// weights of the first row when `top_row`.
pub(crate) fn append_compiled_sparse_d4(
    n: usize,
    operator: &CompiledRowOperator,
    parent: BoundaryState,
    parent_weight: u128,
    top_row: bool,
    counters: &mut RowCounters,
    output: &mut Vec<(PackedBoundary, u128)>,
) -> (appended: Result<usize, String>)
    requires
        1 <= n <= 42,
        counter_room(old(counters).operator_candidates, n as int),
        counter_room(old(counters).operator_matched, n as int),
        top_row ==> parent == empty_state() && parent_weight == 1,
    ensures
        appended matches Ok(k) && final(output)@ == old(output)@ + pack_terms(
            expansion(n as nat, parent, parent_weight, top_row),
            n as nat,
        ) && k == expansion(n as nat, parent, parent_weight, top_row).len(),
        final(counters).operator_candidates == old(counters).operator_candidates + row_successors(
            n as nat,
            parent,
        ).len(),
        final(counters).operator_matched == old(counters).operator_matched + row_successors(
            n as nat,
            parent,
        ).len(),
        final(counters).tensor_examined == old(counters).tensor_examined,
        final(counters).tensor_matched == old(counters).tensor_matched,
{
    let occupied = operator.occupied();
    let legs = occupied.legs;
    if legs.row_in != 0 {
        return Err(
            message("sparse batched iterator requires occupied row_in to match the left v0 boundary"),
        );
    }
    let board = board_mask(n);
    let column_bits = matching_bits(parent.columns, legs.column_in, board)?;
    let dr_bits = matching_bits(parent.diag_dr, legs.diag_dr_in, board)?;
    let dl_bits = matching_bits(parent.diag_dl, legs.diag_dl_in, board)?;
    let mut positions = column_bits & dr_bits & dl_bits;
    let ghost nn = n as nat;
    let ghost avail = available_spec(nn, parent);
    assert(positions == avail);
    proof {
        crate::sitewise::lemma_no_low_bits(avail);
    }
    let base_weight = match parent_weight.checked_mul(occupied.value) {
        Some(w) => w,
        None => {
            return Err(message("coefficient overflow in sparse batched row operator"));
        },
    };
    let start_len = output.len();
    let ghost mut k: nat = 0;
    while positions != 0
        invariant
            1 <= n <= 42,
            nn == n,
            k <= n,
            base_weight == parent_weight,
            occupied == occupied_entry(),
            legs == occupied.legs,
            board == board_mask_spec(nn),
            top_row ==> parent == empty_state() && parent_weight == 1,
            positions == avail & !low_mask(k),
            avail == available_spec(nn, parent),
            start_len == old(output)@.len(),
            output@ == old(output)@ + pack_terms(expansion_upto(nn, parent, parent_weight, top_row, k), nn),
            counters.operator_candidates == old(counters).operator_candidates + row_successors_upto(
                nn,
                parent,
                k,
            ).len(),
            counters.operator_matched == old(counters).operator_matched + row_successors_upto(
                nn,
                parent,
                k,
            ).len(),
            counters.tensor_examined == old(counters).tensor_examined,
            counters.tensor_matched == old(counters).tensor_matched,
            counter_room(old(counters).operator_candidates, n as int),
            counter_room(old(counters).operator_matched, n as int),
        decreases positions,
    {
        let negated = 0u64.wrapping_sub(positions);
        let selected = positions & negated;
        proof {
            lemma_lowest_bit(positions, negated);
            lemma_trailing_zeros_of_bit(u64_trailing_zeros(positions) as u64);
            lemma_scan_bounds(avail, positions, k);
        }
        let column = selected.trailing_zeros() as usize;
        let ghost t = column as nat;
        proof {
            assert(t == u64_trailing_zeros(positions));
            assert(k <= t);
            lemma_scan_step(avail, positions, k, t);
            lemma_available_bit(nn, parent, t);
            assert forall|c: nat| k <= c < t implies !#[trigger] cell_free(parent, c) by {
                lemma_available_bit(nn, parent, c);
            }
            lemma_successors_skip(nn, parent, k, t);
            lemma_successors_len(nn, parent, t);
            assert(t < n && cell_free(parent, t));
            assert forall|c: nat| k <= c <= t implies #[trigger] expansion_upto(
                nn,
                parent,
                parent_weight,
                top_row,
                c,
            ) == expansion_upto(nn, parent, parent_weight, top_row, k) by {
                lemma_successors_skip(nn, parent, k, c);
            }
        }
        positions = positions & (positions - 1);
        counters.operator_candidates = counters.operator_candidates + 1;
        counters.operator_matched = counters.operator_matched + 1;
        let successor = BoundaryState {
            columns: replace_bit(parent.columns, column, legs.column_out),
            diag_dr: (replace_bit(parent.diag_dr, column, legs.diag_dr_out) << 1u64) & board,
            diag_dl: replace_bit(parent.diag_dl, column, legs.diag_dl_out) >> 1u64,
        };
        proof {
            lemma_place_bits(nn, parent, t);
            assert(successor == place(nn, parent, t));
            assert(row_successors_upto(nn, parent, t + 1) =~= row_successors_upto(nn, parent, t).push(
                successor,
            ));
            lemma_expansion_step(nn, parent, parent_weight, top_row, t);
            if top_row {
                lemma_top_row_weight(nn, t);
            }
        }
        let mut weight = base_weight;
        if top_row {
            match top_row_vertical_orbit_weight(n, successor) {
                None => {
                    proof {
                        assert(expansion_upto(nn, parent, parent_weight, top_row, t + 1) =~= expansion_upto(
                            nn,
                            parent,
                            parent_weight,
                            top_row,
                            t,
                        ));
                        k = t + 1;
                    }
                    continue;
                },
                Some(multiplicity) => {
                    weight = match weight.checked_mul(multiplicity) {
                        Some(w) => w,
                        None => {
                            return Err(message("coefficient overflow in sparse batched D4 weighting"));
                        },
                    };
                },
            }
        }
        output.push((PackedBoundary::pack(successor, n), weight));
        proof {
            assert(pack_terms(expansion_upto(nn, parent, parent_weight, top_row, t + 1), nn) =~= pack_terms(
                expansion_upto(nn, parent, parent_weight, top_row, t),
                nn,
            ).push((PackedBoundary(pack_spec(successor, nn)), weight)));
            k = t + 1;
            assert(output@ =~= old(output)@ + pack_terms(
                expansion_upto(nn, parent, parent_weight, top_row, k),
                nn,
            ));
        }
    }
    proof {
        lemma_scan_bounds(avail, positions, k);
        assert forall|c: nat| k <= c < n implies !#[trigger] cell_free(parent, c) by {
            lemma_available_bit(nn, parent, c);
        }
        lemma_successors_skip(nn, parent, k, nn);
        lemma_expansion_len(nn, parent, parent_weight, top_row, nn);
        assert(output@.len() == start_len + expansion(nn, parent, parent_weight, top_row).len());
    }
    Ok(output.len() - start_len)
}

/// The arena kernels of the reflection-sliced contraction.
#[derive(Clone, Copy, Debug, PartialEq, Eq, Structural)]
enum D4KernelVariant {
    Arena,
    ArenaBatched,
    ArenaBatchedSparse,
    ArenaBatchedSparseParallelSort,
    ArenaBatchedRadix,
}

/// The reflection-sliced sort-reduce contraction with the given arena
/// kernel: per-parent row vectors, or successors written straight into the
/// candidate arena over every column or over the legal ones, sorted serially
/// or in parallel.
fn contract_rows_d4_optimized_kernel(n: usize, variant: D4KernelVariant) -> (result: Result<
    ContractionResult,
    String,
>)
    ensures
        contraction_spec(n as nat, true, result),
{
    let symmetric = SymmetryMode::TopRowVerticalOrbits;
    match variant {
        D4KernelVariant::Arena => sort_reduce_layers(n, symmetric, PositionMode::Dense, false, 1, LayerSort::Serial),
        D4KernelVariant::ArenaBatched => sort_reduce_layers(
            n,
            symmetric,
            PositionMode::Dense,
            true,
            1,
            LayerSort::Serial,
        ),
        D4KernelVariant::ArenaBatchedSparse => sort_reduce_layers(
            n,
            symmetric,
            PositionMode::Sparse,
            true,
            1,
            LayerSort::Serial,
        ),
        D4KernelVariant::ArenaBatchedSparseParallelSort => sort_reduce_layers(
            n,
            symmetric,
            PositionMode::Sparse,
            true,
            1,
            LayerSort::Parallel,
        ),
        D4KernelVariant::ArenaBatchedRadix => sort_reduce_layers(
            n,
            symmetric,
            PositionMode::Dense,
            true,
            1,
            LayerSort::Radix,
        ),
    }
}

/// Reflection-sliced contraction with per-parent row vectors drained into a
/// reused candidate arena.
pub fn contract_rows_d4_arena_sort_reduce(n: usize) -> (result: Result<ContractionResult, String>)
    ensures
        contraction_spec(n as nat, true, result),
{
    contract_rows_d4_optimized_kernel(n, D4KernelVariant::Arena)
}

/// Reflection-sliced contraction with successors written straight into the
/// candidate arena.
pub fn contract_rows_d4_batched_sort_reduce(n: usize) -> (result: Result<ContractionResult, String>)
    ensures
        contraction_spec(n as nat, true, result),
{
    contract_rows_d4_optimized_kernel(n, D4KernelVariant::ArenaBatched)
}

/// Batched reflection-sliced contraction whose layers are sorted by the
/// byte-wise radix sort.
pub fn contract_rows_d4_batched_radix(n: usize) -> (result: Result<ContractionResult, String>)
    ensures
        contraction_spec(n as nat, true, result),
{
    contract_rows_d4_optimized_kernel(n, D4KernelVariant::ArenaBatchedRadix)
}

/// Batched reflection-sliced contraction visiting only the legal columns.
pub fn contract_rows_d4_batched_sparse_sort_reduce(n: usize) -> (result: Result<
    ContractionResult,
    String,
>)
    ensures
        contraction_spec(n as nat, true, result),
{
    contract_rows_d4_optimized_kernel(n, D4KernelVariant::ArenaBatchedSparse)
}

/// Batched sparse reflection-sliced contraction with a parallel sort.
pub fn contract_rows_d4_batched_sparse_parallel_sort(n: usize) -> (result: Result<
    ContractionResult,
    String,
>)
    ensures
        contraction_spec(n as nat, true, result),
{
    contract_rows_d4_optimized_kernel(n, D4KernelVariant::ArenaBatchedSparseParallelSort)
}

} // verus!
