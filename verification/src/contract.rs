//! Row-by-row exact contraction of the network with sorted layer
//! materialization: each layer's frontier terms are sorted by packed key and
//! equal keys are merged with checked addition.
use vstd::prelude::*;

use crate::boundary::{
    BoundaryState, PackedBoundary, board_mask, board_mask_spec, empty_state, lemma_pack_round_trip,
    pack_spec, state_fits, unpack_spec,
};
use crate::batched::{append_compiled_dense_d4, append_compiled_sparse_d4, expansion};
use crate::row::{
    CompiledRowOperator, PositionMode, RowCounters, apply_top_row_symmetry,
    contract_one_row_with_position_mode, first_row_column, top_row_overflow, top_row_terms,
};
use crate::tensor::SiteTensorC;
use crate::transfer::{
    accept, board_count, indicator, key_paths, layer_total, lemma_empty_successors,
    lemma_expand_parent, lemma_first_row_column, lemma_indicator_absent, lemma_indicator_le_total,
    lemma_key_paths_accept_le, lemma_key_paths_unit, lemma_pack_terms_sum, lemma_top_row_sum,
    lemma_weighted_sum_concat, lemma_weighted_sum_ext, lemma_weighted_sum_mono,
    lemma_weighted_sum_permutation, orbit_sum, orbit_weight, pack_terms, paths, rooted,
    row_successors, unit, unit_key, weighted_sum, weighted_successors, with_weight,
};
use crate::util::{elapsed, message, message_with_number, now, peak_rss_bytes, zero_duration};
use std::time::Duration;

verus! {

broadcast use crate::mirror::lemma_orbit_count_exact;

/// The keys of `terms` never decrease.
pub open spec fn keys_sorted(terms: Seq<(PackedBoundary, u128)>) -> bool {
    forall|i: int, j: int| 0 <= i <= j < terms.len() ==> terms[i].0.0 <= terms[j].0.0
}

/// The keys of `terms` strictly increase, so no key occurs twice.
pub open spec fn keys_strictly_sorted(terms: Seq<(PackedBoundary, u128)>) -> bool {
    forall|i: int, j: int| 0 <= i < j < terms.len() ==> terms[i].0.0 < terms[j].0.0
}

/// The total weight stored under every key fits `u128`.
pub open spec fn groups_fit(terms: Seq<(PackedBoundary, u128)>) -> bool {
    forall|key: u128| #[trigger] weighted_sum(terms, indicator(key)) <= u128::MAX
}

/// Sorts the terms by packed key with `slice::sort_unstable_by_key`. The
/// contract states what the standard library documents: the result is a
/// reordering of the input in non-decreasing key order. Which of two terms with
/// equal keys comes first is not stated.
#[verifier::external_body]
pub fn sort_by_packed_key(values: &mut Vec<(PackedBoundary, u128)>)
    ensures
        final(values)@.to_multiset() == old(values)@.to_multiset(),
        keys_sorted(final(values)@),
{
    values.sort_unstable_by_key(|term| term.0.0);
}

/// Sorts the terms by packed key with rayon's
/// `ParallelSliceMut::par_sort_unstable_by_key`. The contract states what its
/// documentation promises: the result is a reordering of the input in
/// non-decreasing key order. Which of two terms with equal keys comes first is
/// not stated.
#[verifier::external_body]
pub fn par_sort_by_packed_key(values: &mut Vec<(PackedBoundary, u128)>)
    ensures
        final(values)@.to_multiset() == old(values)@.to_multiset(),
        keys_sorted(final(values)@),
{
    rayon::slice::ParallelSliceMut::par_sort_unstable_by_key(values.as_mut_slice(), |term| term.0.0);
}

pub(crate) proof fn lemma_weighted_sum_prefix_le(terms: Seq<(PackedBoundary, u128)>, m: int, g: spec_fn(u128) -> nat)
    requires
        0 <= m <= terms.len(),
    ensures
        weighted_sum(terms.take(m), g) <= weighted_sum(terms, g),
{
    lemma_weighted_sum_concat(terms.take(m), terms.skip(m), g);
    assert(terms.take(m) + terms.skip(m) =~= terms);
}

pub(crate) proof fn lemma_weighted_sum_take_step(terms: Seq<(PackedBoundary, u128)>, m: int, g: spec_fn(u128) -> nat)
    requires
        0 <= m < terms.len(),
    ensures
        weighted_sum(terms.take(m + 1), g) == weighted_sum(terms.take(m), g) + (terms[m].1 as nat) * g(
            terms[m].0.0,
        ),
{
    assert(terms.take(m + 1).drop_last() =~= terms.take(m));
}

proof fn lemma_indicator_present(terms: Seq<(PackedBoundary, u128)>, key: u128)
    requires
        weighted_sum(terms, indicator(key)) > 0,
    ensures
        exists|i: int| 0 <= i < terms.len() && (#[trigger] terms[i]).0.0 == key,
{
    if forall|i: int| 0 <= i < terms.len() ==> (#[trigger] terms[i]).0.0 != key {
        lemma_indicator_absent(terms, key);
    }
}

/// Merge adjacent terms with equal keys of a key-sorted list, with checked
/// addition of their weights.
pub fn reduce_sorted_candidates(candidates: &mut Vec<(PackedBoundary, u128)>, row: usize) -> (reduced:
    Result<(), String>)
    requires
        keys_sorted(old(candidates)@),
    ensures
        reduced is Ok <==> groups_fit(old(candidates)@),
        reduced is Ok ==> keys_strictly_sorted(final(candidates)@),
        reduced is Ok ==> forall|g: spec_fn(u128) -> nat|
            #[trigger] weighted_sum(final(candidates)@, g) == weighted_sum(old(candidates)@, g),
{
    let ghost orig = candidates@;
    let mut write: usize = 0;
    let mut read: usize = 0;
    while read < candidates.len()
        invariant
            orig == old(candidates)@,
            candidates@.len() == orig.len(),
            write <= read <= orig.len(),
            keys_sorted(orig),
            forall|i: int| read <= i < orig.len() ==> #[trigger] candidates@[i] == orig[i],
            keys_strictly_sorted(candidates@.take(write as int)),
            write > 0 ==> read > 0 && candidates@[write - 1].0 == orig[read - 1].0,
            write == 0 ==> read == 0,
            forall|w: int|
                0 <= w < write ==> (#[trigger] candidates@[w]).1 == weighted_sum(
                    orig.take(read as int),
                    indicator(candidates@[w].0.0),
                ),
            forall|i: int|
                0 <= i < read ==> exists|w: int|
                    0 <= w < write && (#[trigger] candidates@[w]).0 == (#[trigger] orig[i]).0,
            forall|g: spec_fn(u128) -> nat|
                #[trigger] weighted_sum(candidates@.take(write as int), g) == weighted_sum(
                    orig.take(read as int),
                    g,
                ),
        decreases orig.len() - read,
    {
        let (state, weight) = candidates[read];
        let ghost before = candidates@;
        proof {
            assert(orig[read as int] == (state, weight));
            assert forall|key: u128| #[trigger] weighted_sum(orig.take(read as int + 1), indicator(key))
                == weighted_sum(orig.take(read as int), indicator(key)) + (weight as nat) * indicator(
                key,
            )(state.0) by {
                lemma_weighted_sum_take_step(orig, read as int, indicator(key));
            }
        }
        if write > 0 && candidates[write - 1].0 == state {
            match candidates[write - 1].1.checked_add(weight) {
                Some(sum) => {
                    candidates.set(write - 1, (state, sum));
                    proof {
                        assert forall|w: int| 0 <= w < write implies (#[trigger] candidates@[w]).1
                            == weighted_sum(orig.take(read as int + 1), indicator(candidates@[w].0.0)) by {
                            if w < write - 1 {
                                assert(before.take(write as int)[w].0.0 < before.take(write as int)[write - 1].0.0);
                                assert(candidates@[w] == before[w]);
                                let kw = before[w].0.0;
                                assert(kw != state.0);
                                assert(indicator(kw)(state.0) == 0);
                                assert(before[w].1 == weighted_sum(orig.take(read as int), indicator(kw)));
                                assert(weighted_sum(orig.take(read as int + 1), indicator(kw))
                                    == weighted_sum(orig.take(read as int), indicator(kw)) + (
                                weight as nat) * indicator(kw)(state.0));
                            } else {
                                assert(indicator(state.0)(state.0) == 1);
                                assert(before[write - 1].0 == state);
                                assert(before[write - 1].1 == weighted_sum(
                                    orig.take(read as int),
                                    indicator(before[write - 1].0.0),
                                ));
                                assert(candidates@[w] == (state, sum));
                                assert(weighted_sum(orig.take(read as int + 1), indicator(state.0))
                                    == weighted_sum(orig.take(read as int), indicator(state.0)) + (
                                weight as nat) * indicator(state.0)(state.0));
                            }
                        }
                        assert forall|i: int| 0 <= i < read + 1 implies exists|w: int|
                            0 <= w < write && (#[trigger] candidates@[w]).0 == (#[trigger] orig[i]).0 by {
                            if i < read {
                                let w = choose|w: int| 0 <= w < write && (#[trigger] before[w]).0 == orig[i].0;
                                assert(candidates@[w].0 == before[w].0);
                            } else {
                                assert(candidates@[write - 1].0 == orig[i].0);
                            }
                        }
                        let prefix = before.take(write as int);
                        let updated = candidates@.take(write as int);
                        assert(updated =~= prefix.update(write - 1, (state, sum)));
                        assert(updated.drop_last() =~= prefix.drop_last());
                        assert(prefix.last() == before[write - 1]);
                        assert(before[write - 1].0 == state);
                        assert(updated.last() == (state, sum));
                        assert forall|g: spec_fn(u128) -> nat| #[trigger] weighted_sum(
                            candidates@.take(write as int),
                            g,
                        ) == weighted_sum(orig.take(read as int + 1), g) by {
                            lemma_weighted_sum_take_step(orig, read as int, g);
                            assert(weighted_sum(prefix, g) == weighted_sum(orig.take(read as int), g));
                            let old_weight = before[write - 1].1 as nat;
                            assert(weighted_sum(prefix, g) == weighted_sum(prefix.drop_last(), g)
                                + old_weight * g(state.0));
                            assert(weighted_sum(updated, g) == weighted_sum(updated.drop_last(), g)
                                + (sum as nat) * g(state.0));
                            assert((sum as nat) * g(state.0) == old_weight * g(state.0) + (weight as nat)
                                * g(state.0)) by (nonlinear_arith)
                                requires
                                    sum == old_weight + weight,
                            ;
                        }
                    }
                },
                None => {
                    proof {
                        let key = state.0;
                        assert(before[write - 1].1 == weighted_sum(orig.take(read as int), indicator(key)));
                        lemma_weighted_sum_prefix_le(orig, read as int + 1, indicator(key));
                        assert(weighted_sum(orig, indicator(key)) > u128::MAX);
                        assert(!groups_fit(orig));
                    }
                    return Err(message_with_number("coefficient overflow after row", row as u128 + 1));
                },
            }
        } else {
            proof {
                if write > 0 {
                    assert(orig[read - 1].0.0 <= orig[read as int].0.0);
                    assert(before[write - 1].0.0 < state.0);
                }
                assert forall|i: int| 0 <= i < read implies (#[trigger] orig.take(read as int)[i]).0.0
                    != state.0 by {
                    assert(orig[i].0.0 <= orig[read - 1].0.0);
                }
                lemma_indicator_absent(orig.take(read as int), state.0);
            }
            candidates.set(write, (state, weight));
            proof {
                assert forall|w: int| 0 <= w < write + 1 implies (#[trigger] candidates@[w]).1
                    == weighted_sum(orig.take(read as int + 1), indicator(candidates@[w].0.0)) by {
                    if w < write {
                        if w < write - 1 {
                            assert(before.take(write as int)[w].0.0 < before.take(write as int)[write - 1].0.0);
                        }
                        assert(candidates@[w] == before[w]);
                        assert(indicator(candidates@[w].0.0)(state.0) == 0);
                    } else {
                        assert(candidates@[w] == (state, weight));
                        assert(indicator(state.0)(state.0) == 1);
                        assert(weighted_sum(orig.take(read as int), indicator(state.0)) == 0);
                    }
                }
                assert forall|i: int| 0 <= i < read + 1 implies exists|w: int|
                    0 <= w < write + 1 && (#[trigger] candidates@[w]).0 == (#[trigger] orig[i]).0 by {
                    if i < read {
                        let w = choose|w: int| 0 <= w < write && (#[trigger] before[w]).0 == orig[i].0;
                        assert(candidates@[w].0 == before[w].0);
                    } else {
                        assert(candidates@[write as int].0 == orig[i].0);
                    }
                }
                assert(candidates@.take(write as int + 1) =~= before.take(write as int).push((state, weight)));
                assert forall|g: spec_fn(u128) -> nat| #[trigger] weighted_sum(
                    candidates@.take(write as int + 1),
                    g,
                ) == weighted_sum(orig.take(read as int + 1), g) by {
                    lemma_weighted_sum_take_step(orig, read as int, g);
                    assert(candidates@.take(write as int + 1).drop_last() =~= before.take(write as int));
                    assert(weighted_sum(before.take(write as int), g) == weighted_sum(orig.take(read as int), g));
                    assert(candidates@.take(write as int + 1).last() == (state, weight));
                }
                assert forall|i: int, j: int| 0 <= i < j < write + 1 implies #[trigger] candidates@.take(write as int + 1)[i].0.0
                    < #[trigger] candidates@.take(write as int + 1)[j].0.0 by {
                    if j < write {
                        assert(before.take(write as int)[i].0.0 < before.take(write as int)[j].0.0);
                    } else if i < write - 1 {
                        assert(before.take(write as int)[i].0.0 < before.take(write as int)[write - 1].0.0);
                    }
                }
            }
            write = write + 1;
        }
        read = read + 1;
    }
    let ghost full = candidates@;
    candidates.truncate(write);
    proof {
        assert(candidates@ =~= full.take(write as int));
        assert(orig.take(read as int) =~= orig);
        assert forall|key: u128| #[trigger] weighted_sum(orig, indicator(key)) <= u128::MAX by {
            if weighted_sum(orig, indicator(key)) > 0 {
                lemma_indicator_present(orig, key);
                let i = choose|i: int| 0 <= i < orig.len() && (#[trigger] orig[i]).0.0 == key;
                assert(exists|w: int| 0 <= w < write && (#[trigger] full[w]).0 == (#[trigger] orig[i]).0);
                let w = choose|w: int| 0 <= w < write && (#[trigger] full[w]).0 == (#[trigger] orig[i]).0;
                assert(full[w].1 == weighted_sum(orig, indicator(key)));
            }
        }
    }
    Ok(())
}


#[derive(Clone, Copy, Debug)]
pub struct LayerMetric {
    pub row: usize,
    pub input_states: usize,
    pub tensor_entries_examined: u128,
    pub tensor_entries_matched: u128,
    pub row_operator_candidates: u128,
    pub row_operator_matched: u128,
    pub completed_row_terms: u128,
    pub output_states: usize,
    pub output_weight: u128,
    pub elapsed: Duration,
    pub peak_rss_bytes: u64,
}

#[derive(Debug)]
pub struct ContractionResult {
    pub n: usize,
    pub count: u128,
    pub elapsed: Duration,
    pub peak_states: usize,
    pub tensor_entries_examined: u128,
    pub tensor_entries_matched: u128,
    pub row_operator_candidates: u128,
    pub row_operator_matched: u128,
    pub peak_rss_bytes: u64,
    pub layers: Vec<LayerMetric>,
}

/// How the candidates of a layer are put in key order: the standard sort,
/// rayon's parallel sort, or the byte-wise radix sort.
#[derive(Clone, Copy, Debug, PartialEq, Eq, Structural)]
pub enum LayerSort {
    Serial,
    Parallel,
    Radix,
}

/// Whether the first row is sliced by vertical-reflection orbits.
#[derive(Clone, Copy, Debug, PartialEq, Eq, Structural)]
pub enum SymmetryMode {
    Plain,
    TopRowVerticalOrbits,
}

/// The total weight of every layer of the first `n` rows fits `u128`, so that
/// the checked contraction never overflows.
pub open spec fn layers_fit(n: nat, symmetric: bool) -> bool {
    forall|k: nat| 1 <= k <= n ==> #[trigger] layer_total(n, k, symmetric) <= u128::MAX
}

/// Append the packed form of `terms` to `candidates`.
fn append_packed(candidates: &mut Vec<(PackedBoundary, u128)>, terms: &Vec<(BoundaryState, u128)>, n: usize)
    requires
        n <= 42,
    ensures
        final(candidates)@ == old(candidates)@ + pack_terms(terms@, n as nat),
{
    let mut i: usize = 0;
    while i < terms.len()
        invariant
            n <= 42,
            i <= terms@.len(),
            candidates@ == old(candidates)@ + pack_terms(terms@.take(i as int), n as nat),
        decreases terms@.len() - i,
    {
        let (state, weight) = terms[i];
        candidates.push((PackedBoundary::pack(state, n), weight));
        proof {
            assert(pack_terms(terms@.take(i as int + 1), n as nat) =~= pack_terms(
                terms@.take(i as int),
                n as nat,
            ).push((PackedBoundary(pack_spec(state, n as nat)), weight)));
        }
        i = i + 1;
    }
    proof {
        assert(terms@.take(i as int) =~= terms@);
    }
}

/// The total weight of a frontier, with checked addition.
pub(crate) fn sum_weights(terms: &Vec<(PackedBoundary, u128)>, row: usize) -> (total: Result<u128, String>)
    ensures
        total is Ok <==> weighted_sum(terms@, unit_key()) <= u128::MAX,
        total matches Ok(t) ==> t == weighted_sum(terms@, unit_key()),
{
    let mut sum: u128 = 0;
    let mut i: usize = 0;
    while i < terms.len()
        invariant
            i <= terms@.len(),
            sum == weighted_sum(terms@.take(i as int), unit_key()),
        decreases terms@.len() - i,
    {
        proof {
            lemma_weighted_sum_take_step(terms@, i as int, unit_key());
            let u = unit_key()(terms@[i as int].0.0);
            assert(u == 1);
            let w = terms@[i as int].1 as nat;
            assert(w * u == w) by (nonlinear_arith)
                requires
                    u == 1,
            ;
        }
        match sum.checked_add(terms[i].1) {
            Some(next) => {
                sum = next;
            },
            None => {
                proof {
                    lemma_weighted_sum_prefix_le(terms@, i as int + 1, unit_key());
                }
                return Err(message_with_number("coefficient sum overflow after row", row as u128 + 1));
            },
        }
        i = i + 1;
    }
    proof {
        assert(terms@.take(i as int) =~= terms@);
    }
    Ok(sum)
}

/// The weight of the accepted frontier terms: the bottom boundary requires a
/// signal in every column line.
pub(crate) fn final_count(n: usize, terms: &Vec<(PackedBoundary, u128)>) -> (count: Result<u128, String>)
    requires
        1 <= n <= 42,
    ensures
        weighted_sum(terms@, unit_key()) <= u128::MAX ==> count is Ok,
        count matches Ok(c) ==> c == weighted_sum(terms@, key_paths(n as nat, 0, accept(n as nat))),
{
    let board = board_mask(n);
    let mut sum: u128 = 0;
    let mut i: usize = 0;
    let ghost g = key_paths(n as nat, 0, accept(n as nat));
    while i < terms.len()
        invariant
            1 <= n <= 42,
            i <= terms@.len(),
            board == board_mask_spec(n as nat),
            g == key_paths(n as nat, 0, accept(n as nat)),
            sum == weighted_sum(terms@.take(i as int), g),
        decreases terms@.len() - i,
    {
        proof {
            lemma_weighted_sum_take_step(terms@, i as int, g);
            assert(g(terms@[i as int].0.0) == if unpack_spec(terms@[i as int].0.0, n as nat).columns
                == board {
                1nat
            } else {
                0nat
            });
            let u = g(terms@[i as int].0.0);
            let w = terms@[i as int].1 as nat;
            assert(u == 0 ==> w * u == 0) by (nonlinear_arith);
            assert(u == 1 ==> w * u == w) by (nonlinear_arith);
        }
        if terms[i].0.columns(n) == board {
            match sum.checked_add(terms[i].1) {
                Some(next) => {
                    sum = next;
                },
                None => {
                    proof {
                        lemma_weighted_sum_prefix_le(terms@, i as int + 1, g);
                        lemma_key_paths_accept_le(n as nat);
                        lemma_weighted_sum_mono(terms@, g, unit_key());
                    }
                    return Err(message("final coefficient sum overflow"));
                },
            }
        }
        i = i + 1;
    }
    proof {
        assert(terms@.take(i as int) =~= terms@);
    }
    Ok(sum)
}

/// Apply the compiled row transfer to the parents `[start, end)` of a layer,
/// slicing the first row by reflection orbits when `symmetric`.
pub(crate) fn expand_range(
    n: usize,
    row: usize,
    symmetric: bool,
    position_mode: PositionMode,
    batched: bool,
    operator: &CompiledRowOperator,
    parents: &Vec<(PackedBoundary, u128)>,
    start: usize,
    end: usize,
    counters: &mut RowCounters,
    completed: &mut u128,
) -> (candidates: Result<Vec<(PackedBoundary, u128)>, String>)
    requires
        1 <= n <= 42,
        row == 0 ==> parents@ == seq![(PackedBoundary(pack_spec(empty_state(), n as nat)), 1u128)],
        start <= end <= parents@.len(),
        row == 0 ==> start == 0 && end == 1,
        old(counters).operator_candidates == 0,
        old(counters).operator_matched == 0,
        old(counters).tensor_examined == 0,
        old(counters).tensor_matched == 0,
        *old(completed) == 0,
    ensures
        candidates matches Ok(c) && forall|j: nat, f: spec_fn(BoundaryState) -> nat|
            #[trigger] weighted_sum(c@, key_paths(n as nat, j, f)) == if symmetric && row == 0 {
                orbit_sum(n as nat, j, f, n as nat)
            } else {
                weighted_sum(parents@.subrange(start as int, end as int), key_paths(n as nat, j + 1, f))
            },
        final(counters).operator_candidates <= (end - start) * 64,
        final(counters).operator_matched <= (end - start) * 64,
        final(counters).tensor_examined == 0,
        final(counters).tensor_matched == 0,
        *final(completed) <= (end - start) * 64,
{
    let mut candidates: Vec<(PackedBoundary, u128)> = Vec::new();
    let mut i: usize = start;
    while i < end
        invariant
            1 <= n <= 42,
            start <= i <= end,
            end <= parents@.len(),
            row == 0 ==> parents@ == seq![(PackedBoundary(pack_spec(empty_state(), n as nat)), 1u128)],
            row == 0 ==> start == 0 && end == 1,
            forall|j: nat, f: spec_fn(BoundaryState) -> nat|
                #[trigger] weighted_sum(candidates@, key_paths(n as nat, j, f)) == if symmetric && row
                    == 0 {
                    if i == start {
                        0
                    } else {
                        orbit_sum(n as nat, j, f, n as nat)
                    }
                } else {
                    weighted_sum(parents@.subrange(start as int, i as int), key_paths(n as nat, j + 1, f))
                },
            counters.operator_candidates <= (i - start) * 64,
            counters.operator_matched <= (i - start) * 64,
            counters.tensor_examined == 0,
            counters.tensor_matched == 0,
            *completed <= (i - start) * 64,
            i == start ==> candidates@.len() == 0,
        decreases end - i,
    {
        let (packed, weight) = parents[i];
        let parent = packed.unpack(n);
        let top_row = row == 0 && symmetric;
        proof {
            crate::transfer::lemma_successors_len(n as nat, parent, n as nat);
            if row == 0 {
                assert(i == 0);
                assert(weight == 1);
                assert(crate::boundary::state_fits(empty_state(), n as nat)) by {
                    let nn = n as u64;
                    crate::sitewise::lemma_zero_shift(n as nat);
                }
                lemma_pack_round_trip(empty_state(), n as nat);
                assert(parent == empty_state());
            }
        }
        let ghost before = candidates@;
        let ghost mut terms: Seq<(BoundaryState, u128)> = Seq::empty();
        if batched {
            let appended = match position_mode {
                PositionMode::Sparse => append_compiled_sparse_d4(
                    n,
                    operator,
                    parent,
                    weight,
                    top_row,
                    counters,
                    &mut candidates,
                )?,
                PositionMode::Dense => append_compiled_dense_d4(
                    n,
                    operator,
                    parent,
                    weight,
                    top_row,
                    counters,
                    &mut candidates,
                )?,
            };
            proof {
                terms = expansion(n as nat, parent, weight, top_row);
                crate::row::lemma_top_row_terms_len(n as nat, weighted_successors(n as nat, parent, weight));
            }
            *completed = *completed + appended as u128;
        } else {
            let mut row_terms = contract_one_row_with_position_mode(
                n,
                operator,
                parent,
                weight,
                counters,
                position_mode,
            )?;
            let ghost plain = row_terms@;
            if top_row {
                proof {
                    lemma_empty_successors(n as nat, n as nat);
                    assert forall|t: int| 0 <= t < row_terms@.len() implies first_row_column(
                        #[trigger] row_terms@[t].0,
                    ) < n && row_terms@[t].1 == 1 && row_terms@[t].1 * orbit_weight(
                        n as nat,
                        first_row_column(row_terms@[t].0),
                    ) <= 2 by {
                        assert(crate::transfer::row_successors(n as nat, parent) == crate::transfer::row_successors_upto(
                            n as nat,
                            empty_state(),
                            n as nat,
                        ));
                        assert(row_terms@[t] == (crate::transfer::place(n as nat, empty_state(), t as nat), 1u128));
                        lemma_first_row_column(n as nat, t as nat);
                        assert(orbit_weight(n as nat, first_row_column(row_terms@[t].0)) <= 2);
                    }
                }
                row_terms = apply_top_row_symmetry(n, row_terms)?;
                proof {
                    crate::row::lemma_top_row_terms_len(n as nat, plain);
                }
            }
            *completed = *completed + row_terms.len() as u128;
            append_packed(&mut candidates, &row_terms, n);
            proof {
                terms = row_terms@;
            }
        }
        proof {
            assert(terms == expansion(n as nat, parent, weight, top_row));
            assert(candidates@ == before + pack_terms(terms, n as nat));
            assert(parents@.subrange(start as int, i as int + 1).drop_last() =~= parents@.subrange(start as int, i as int));
            assert forall|j: nat, f: spec_fn(BoundaryState) -> nat| #[trigger] weighted_sum(
                candidates@,
                key_paths(n as nat, j, f),
            ) == if symmetric && row == 0 {
                if i + 1 == start {
                    0
                } else {
                    orbit_sum(n as nat, j, f, n as nat)
                }
            } else {
                weighted_sum(parents@.subrange(start as int, i as int + 1), key_paths(n as nat, j + 1, f))
            } by {
                lemma_weighted_sum_concat(before, pack_terms(terms, n as nat), key_paths(n as nat, j, f));
                if symmetric && row == 0 {
                    lemma_top_row_sum(n as nat, j, f, n as nat);
                    assert(before.len() == 0);
                } else {
                    lemma_expand_parent(n as nat, parent, weight, j, f);
                }
            }
        }
        i = i + 1;
    }
    Ok(candidates)
}


/// Apply the compiled row transfer to every parent of a layer, slicing the
/// first row by reflection orbits when `symmetric`.
pub(crate) fn expand_layer(
    n: usize,
    row: usize,
    symmetric: bool,
    position_mode: PositionMode,
    operator: &CompiledRowOperator,
    parents: &Vec<(PackedBoundary, u128)>,
    counters: &mut RowCounters,
    completed: &mut u128,
) -> (candidates: Result<Vec<(PackedBoundary, u128)>, String>)
    requires
        1 <= n <= 42,
        row == 0 ==> parents@ == seq![(PackedBoundary(pack_spec(empty_state(), n as nat)), 1u128)],
        old(counters).operator_candidates == 0,
        old(counters).operator_matched == 0,
        old(counters).tensor_examined == 0,
        old(counters).tensor_matched == 0,
        *old(completed) == 0,
    ensures
        candidates matches Ok(c) && forall|j: nat, f: spec_fn(BoundaryState) -> nat|
            #[trigger] weighted_sum(c@, key_paths(n as nat, j, f)) == if symmetric && row == 0 {
                orbit_sum(n as nat, j, f, n as nat)
            } else {
                weighted_sum(parents@, key_paths(n as nat, j + 1, f))
            },
        final(counters).operator_candidates <= parents@.len() * 64,
        final(counters).operator_matched <= parents@.len() * 64,
        final(counters).tensor_examined == 0,
        final(counters).tensor_matched == 0,
        *final(completed) <= parents@.len() * 64,
{
    let end = parents.len();
    proof {
        assert(parents@.subrange(0, end as int) =~= parents@);
    }
    expand_range(n, row, symmetric, position_mode, false, operator, parents, 0, end, counters, completed)
}

/// The number of parents per slice when a layer of `input_states` parents is
/// cut into `slices` slices: the rounded-up quotient, and at least one.
pub open spec fn slice_size_spec(input_states: nat, slices: nat) -> nat {
    let q = if input_states % slices == 0 {
        input_states / slices
    } else {
        input_states / slices + 1
    };
    if q == 0 {
        1
    } else {
        q
    }
}

fn slice_size(input_states: usize, slices: usize) -> (size: usize)
    requires
        slices >= 1,
    ensures
        size == slice_size_spec(input_states as nat, slices as nat),
        size >= 1,
{
    let quotient = input_states / slices;
    proof {
        if slices == 1 {
            assert(input_states % slices == 0);
        } else {
            assert(quotient <= input_states / 2) by (nonlinear_arith)
                requires
                    quotient == input_states / slices,
                    slices >= 2,
            ;
        }
    }
    let q = if input_states % slices == 0 {
        quotient
    } else {
        quotient + 1
    };
    if q == 0 {
        1
    } else {
        q
    }
}

/// Apply the compiled row transfer to a layer slice by slice, each slice with
/// its own work counters, and concatenate the slices' terms in order.
pub(crate) fn expand_sliced(
    n: usize,
    row: usize,
    symmetric: bool,
    position_mode: PositionMode,
    batched: bool,
    operator: &CompiledRowOperator,
    parents: &Vec<(PackedBoundary, u128)>,
    chunk_size: usize,
    counters: &mut RowCounters,
    completed: &mut u128,
) -> (candidates: Result<Vec<(PackedBoundary, u128)>, String>)
    requires
        1 <= n <= 42,
        chunk_size >= 1,
        row == 0 ==> parents@ == seq![(PackedBoundary(pack_spec(empty_state(), n as nat)), 1u128)],
        old(counters).operator_candidates == 0,
        old(counters).operator_matched == 0,
        old(counters).tensor_examined == 0,
        old(counters).tensor_matched == 0,
        *old(completed) == 0,
    ensures
        candidates matches Ok(c) && forall|j: nat, f: spec_fn(BoundaryState) -> nat|
            #[trigger] weighted_sum(c@, key_paths(n as nat, j, f)) == if symmetric && row == 0 {
                orbit_sum(n as nat, j, f, n as nat)
            } else {
                weighted_sum(parents@, key_paths(n as nat, j + 1, f))
            },
        final(counters).operator_candidates <= parents@.len() * 64,
        final(counters).operator_matched <= parents@.len() * 64,
        final(counters).tensor_examined == 0,
        final(counters).tensor_matched == 0,
        *final(completed) <= parents@.len() * 64,
{
    let len = parents.len();
    let mut candidates: Vec<(PackedBoundary, u128)> = Vec::new();
    let mut start: usize = 0;
    while start < len
        invariant
            1 <= n <= 42,
            chunk_size >= 1,
            len == parents@.len(),
            start <= len,
            row == 0 ==> parents@ == seq![(PackedBoundary(pack_spec(empty_state(), n as nat)), 1u128)],
            forall|j: nat, f: spec_fn(BoundaryState) -> nat|
                #[trigger] weighted_sum(candidates@, key_paths(n as nat, j, f)) == if symmetric && row
                    == 0 {
                    if start == 0 {
                        0
                    } else {
                        orbit_sum(n as nat, j, f, n as nat)
                    }
                } else {
                    weighted_sum(parents@.subrange(0, start as int), key_paths(n as nat, j + 1, f))
                },
            counters.operator_candidates <= start * 64,
            counters.operator_matched <= start * 64,
            counters.tensor_examined == 0,
            counters.tensor_matched == 0,
            *completed <= start * 64,
        decreases len - start,
    {
        let end = if chunk_size > len - start {
            len
        } else {
            start + chunk_size
        };
        let mut local_counters = RowCounters::new();
        let mut local_completed: u128 = 0;
        let mut local = expand_range(
            n,
            row,
            symmetric,
            position_mode,
            batched,
            operator,
            parents,
            start,
            end,
            &mut local_counters,
            &mut local_completed,
        )?;
        let ghost before = candidates@;
        let ghost slice = local@;
        candidates.append(&mut local);
        counters.operator_candidates = counters.operator_candidates + local_counters.operator_candidates;
        counters.operator_matched = counters.operator_matched + local_counters.operator_matched;
        *completed = *completed + local_completed;
        proof {
            assert(parents@.subrange(0, end as int) =~= parents@.subrange(0, start as int)
                + parents@.subrange(start as int, end as int));
            assert forall|j: nat, f: spec_fn(BoundaryState) -> nat| #[trigger] weighted_sum(
                candidates@,
                key_paths(n as nat, j, f),
            ) == if symmetric && row == 0 {
                if end == 0 {
                    0
                } else {
                    orbit_sum(n as nat, j, f, n as nat)
                }
            } else {
                weighted_sum(parents@.subrange(0, end as int), key_paths(n as nat, j + 1, f))
            } by {
                lemma_weighted_sum_concat(before, slice, key_paths(n as nat, j, f));
                lemma_weighted_sum_concat(
                    parents@.subrange(0, start as int),
                    parents@.subrange(start as int, end as int),
                    key_paths(n as nat, j + 1, f),
                );
            }
        }
        start = end;
    }
    proof {
        assert(parents@.subrange(0, start as int) =~= parents@);
    }
    Ok(candidates)
}

/// The number of rows sliced by reflection orbits mode by mode.
pub open spec fn is_symmetric(mode: SymmetryMode) -> bool {
    mode == SymmetryMode::TopRowVerticalOrbits
}

/// What a sort-reduce contraction of an `n`-by-`n` board returns: an error for
/// boards wider than the packed `u128` layout or when some layer's total weight
/// overflows `u128`; otherwise the exact count and the exact total weight of
/// every layer.
pub open spec fn contraction_spec(n: nat, symmetric: bool, result: Result<ContractionResult, String>) -> bool {
    &&& n > 42 ==> result is Err
    &&& n <= 42 ==> (result is Ok <==> layers_fit(n, symmetric))
    &&& n <= 21 ==> result is Ok
    &&& result matches Ok(r) ==> {
        &&& r.n == n
        &&& r.count == board_count(n, symmetric)
        &&& r.count == board_count(n, false)
        &&& r.layers@.len() == n
        &&& forall|k: int|
            0 <= k < n ==> (#[trigger] r.layers@[k]).row == k && r.layers@[k].output_weight
                == layer_total(n, (k + 1) as nat, symmetric)
    }
}

pub(crate) proof fn lemma_empty_fits(n: nat)
    requires
        n <= 42,
    ensures
        state_fits(empty_state(), n),
{
    crate::sitewise::lemma_zero_shift(n);
}

/// Exact row-by-row contraction with sorted layer materialization, in the
/// given symmetry and position modes.
pub fn contract_rows_sort_reduce_with_modes(
    n: usize,
    symmetry_mode: SymmetryMode,
    position_mode: PositionMode,
) -> (result: Result<ContractionResult, String>)
    ensures
        contraction_spec(n as nat, is_symmetric(symmetry_mode), result),
{
    sort_reduce_layers(n, symmetry_mode, position_mode, false, 1, LayerSort::Serial)
}

/// The sort-reduce contraction with each layer expanded in `slices` slices
/// of parents, written straight into the candidate arena when `batched`, and
/// sorted as `sort` says.
#[verifier::rlimit(100)]
#[verifier::spinoff_prover]
pub(crate) fn sort_reduce_layers(
    n: usize,
    symmetry_mode: SymmetryMode,
    position_mode: PositionMode,
    batched: bool,
    slices: usize,
    sort: LayerSort,
) -> (result: Result<ContractionResult, String>)
    requires
        slices >= 1,
    ensures
        contraction_spec(n as nat, is_symmetric(symmetry_mode), result),
{
    proof {
        crate::certified::lemma_layers_fit_small(n as nat, true);
        crate::certified::lemma_layers_fit_small(n as nat, false);
    }
    if n > 42 {
        return Err(message("the packed u128 virtual-boundary backend supports N <= 42"));
    }
    if n == 0 {
        proof {
            crate::sitewise::lemma_empty_board();
            crate::future_quotient::lemma_board_count_zero(false);
        }
        return Ok(
            ContractionResult {
                n,
                count: 1,
                elapsed: zero_duration(),
                peak_states: 1,
                tensor_entries_examined: 0,
                tensor_entries_matched: 0,
                row_operator_candidates: 0,
                row_operator_matched: 0,
                peak_rss_bytes: peak_rss_bytes(),
                layers: Vec::new(),
            },
        );
    }
    let symmetric = symmetry_mode == SymmetryMode::TopRowVerticalOrbits;
    let tensor = SiteTensorC::sec_vi();
    let operator = CompiledRowOperator::compile(&tensor)?;
    let initial = BoundaryState { columns: 0, diag_dr: 0, diag_dl: 0 };
    let mut boundary: Vec<(PackedBoundary, u128)> = Vec::new();
    boundary.push((PackedBoundary::pack(initial, n), 1u128));
    let mut peak_states: usize = 1;
    let mut total_operator_candidates: u128 = 0;
    let mut total_operator_matched: u128 = 0;
    let mut layers: Vec<LayerMetric> = Vec::with_capacity(n);
    let total_start = now();
    let ghost nn = n as nat;
    proof {
        lemma_empty_fits(nn);
        lemma_pack_round_trip(empty_state(), nn);
        assert(boundary@ =~= seq![(PackedBoundary(pack_spec(empty_state(), nn)), 1u128)]);
    }
    let mut row: usize = 0;
    while row < n
        invariant
            n <= 21 ==> layers_fit(n as nat, is_symmetric(symmetry_mode)),
            1 <= n <= 42,
            nn == n,
            row <= n,
            slices >= 1,
            symmetric == is_symmetric(symmetry_mode),
            row == 0 ==> boundary@ == seq![(PackedBoundary(pack_spec(empty_state(), nn)), 1u128)],
            row > 0 ==> forall|j: nat, f: spec_fn(BoundaryState) -> nat|
                #[trigger] weighted_sum(boundary@, key_paths(nn, j, f)) == rooted(
                    nn,
                    (row + j) as nat,
                    symmetric,
                    f,
                ),
            forall|k: nat| 1 <= k <= row ==> #[trigger] layer_total(nn, k, symmetric) <= u128::MAX,
            layers@.len() == row,
            forall|k: int|
                0 <= k < row ==> (#[trigger] layers@[k]).row == k && layers@[k].output_weight
                    == layer_total(nn, (k + 1) as nat, symmetric),
            total_operator_candidates <= row * 0x1_0000_0000_0000_0000_0000,
            total_operator_matched <= row * 0x1_0000_0000_0000_0000_0000,
        decreases n - row,
    {
        let layer_start = now();
        let input_states = boundary.len();
        let mut counters = RowCounters::new();
        let mut completed: u128 = 0;
        let parents = boundary;
        let chunk_size = slice_size(input_states, slices);
        let mut candidates = expand_sliced(
            n,
            row,
            symmetric,
            position_mode,
            batched,
            &operator,
            &parents,
            chunk_size,
            &mut counters,
            &mut completed,
        )?;
        let ghost expanded = candidates@;
        proof {
            assert forall|j: nat, f: spec_fn(BoundaryState) -> nat| #[trigger] weighted_sum(
                expanded,
                key_paths(nn, j, f),
            ) == rooted(nn, (row + 1 + j) as nat, symmetric, f) by {
                if !(symmetric && row == 0) {
                    if row == 0 {
                        let single = parents@;
                        assert(single.drop_last().len() == 0);
                        lemma_empty_fits(nn);
                        lemma_pack_round_trip(empty_state(), nn);
                        assert(unpack_spec(pack_spec(empty_state(), nn), nn) == empty_state());
                        assert(single.last() == (PackedBoundary(pack_spec(empty_state(), nn)), 1u128));
                        assert(key_paths(nn, j + 1, f)(pack_spec(empty_state(), nn)) == paths(
                            nn,
                            j + 1,
                            empty_state(),
                            f,
                        ));
                        assert(weighted_sum(single.drop_last(), key_paths(nn, j + 1, f)) == 0);
                        assert(weighted_sum(single, key_paths(nn, j + 1, f)) == weighted_sum(
                            single.drop_last(),
                            key_paths(nn, j + 1, f),
                        ) + (single.last().1 as nat) * key_paths(nn, j + 1, f)(single.last().0.0));
                        assert(weighted_sum(single, key_paths(nn, j + 1, f)) == 1 * paths(
                            nn,
                            j + 1,
                            empty_state(),
                            f,
                        ));
                    } else {
                        assert(weighted_sum(parents@, key_paths(nn, j + 1, f)) == rooted(
                            nn,
                            (row + (j + 1)) as nat,
                            symmetric,
                            f,
                        ));
                    }
                }
            }
        }
        match sort {
            LayerSort::Serial => sort_by_packed_key(&mut candidates),
            LayerSort::Parallel => par_sort_by_packed_key(&mut candidates),
            LayerSort::Radix => crate::radix::sort_packed_radix(&mut candidates, n),
        }
        let ghost sorted = candidates@;
        proof {
            assert forall|j: nat, f: spec_fn(BoundaryState) -> nat| #[trigger] weighted_sum(
                sorted,
                key_paths(nn, j, f),
            ) == rooted(nn, (row + 1 + j) as nat, symmetric, f) by {
                lemma_weighted_sum_permutation(expanded, sorted, key_paths(nn, j, f));
                assert(weighted_sum(expanded, key_paths(nn, j, f)) == rooted(
                    nn,
                    (row + 1 + j) as nat,
                    symmetric,
                    f,
                ));
            }
            lemma_key_paths_unit(nn);
            lemma_weighted_sum_ext(sorted, key_paths(nn, 0, unit()), unit_key());
            assert(weighted_sum(sorted, key_paths(nn, 0, unit())) == rooted(
                nn,
                (row + 1 + 0) as nat,
                symmetric,
                unit(),
            ));
            assert(weighted_sum(sorted, unit_key()) == layer_total(nn, (row + 1) as nat, symmetric));
            if layer_total(nn, (row + 1) as nat, symmetric) <= u128::MAX {
                assert forall|key: u128| #[trigger] weighted_sum(sorted, indicator(key)) <= u128::MAX by {
                    lemma_indicator_le_total(sorted, key);
                }
                assert(groups_fit(sorted));
            }
        }
        match reduce_sorted_candidates(&mut candidates, row) {
            Ok(()) => {},
            Err(error) => {
                proof {
                    assert(layer_total(nn, (row + 1) as nat, symmetric) > u128::MAX);
                    assert(!layers_fit(nn, symmetric));
                }
                return Err(error);
            },
        }
        boundary = candidates;
        proof {
            assert(weighted_sum(boundary@, unit_key()) == weighted_sum(sorted, unit_key()));
        }
        let output_weight = match sum_weights(&boundary, row) {
            Ok(weight) => weight,
            Err(error) => {
                proof {
                    assert(layer_total(nn, (row + 1) as nat, symmetric) > u128::MAX);
                    assert(!layers_fit(nn, symmetric));
                }
                return Err(error);
            },
        };
        if boundary.len() > peak_states {
            peak_states = boundary.len();
        }
        total_operator_candidates = total_operator_candidates + counters.operator_candidates;
        total_operator_matched = total_operator_matched + counters.operator_matched;
        layers.push(
            LayerMetric {
                row,
                input_states,
                tensor_entries_examined: counters.tensor_examined,
                tensor_entries_matched: counters.tensor_matched,
                row_operator_candidates: counters.operator_candidates,
                row_operator_matched: counters.operator_matched,
                completed_row_terms: completed,
                output_states: boundary.len(),
                output_weight,
                elapsed: elapsed(&layer_start),
                peak_rss_bytes: peak_rss_bytes(),
            },
        );
        proof {
            assert forall|j: nat, f: spec_fn(BoundaryState) -> nat| #[trigger] weighted_sum(
                boundary@,
                key_paths(nn, j, f),
            ) == rooted(nn, (row + 1 + j) as nat, symmetric, f) by {
                assert(weighted_sum(boundary@, key_paths(nn, j, f)) == weighted_sum(
                    sorted,
                    key_paths(nn, j, f),
                ));
            }
            assert forall|k: nat| 1 <= k <= row + 1 implies #[trigger] layer_total(nn, k, symmetric)
                <= u128::MAX by {
                if k == row + 1 {
                    assert(output_weight == layer_total(nn, k, symmetric));
                }
            }
        }
        row = row + 1;
    }
    proof {
        crate::mirror::lemma_orbit_count_exact(nn);
        assert(weighted_sum(boundary@, key_paths(nn, 0, unit())) == layer_total(nn, nn, symmetric));
        lemma_key_paths_unit(nn);
        lemma_weighted_sum_ext(boundary@, key_paths(nn, 0, unit()), unit_key());
        assert(weighted_sum(boundary@, key_paths(nn, 0, accept(nn))) == rooted(
            nn,
            (n + 0) as nat,
            symmetric,
            accept(nn),
        ));
    }
    let count = final_count(n, &boundary)?;
    Ok(
        ContractionResult {
            n,
            count,
            elapsed: elapsed(&total_start),
            peak_states,
            tensor_entries_examined: 17,
            tensor_entries_matched: 17,
            row_operator_candidates: total_operator_candidates,
            row_operator_matched: total_operator_matched,
            peak_rss_bytes: peak_rss_bytes(),
            layers,
        },
    )
}

/// Exactly contract the rank-8 `C` network row by row.
pub fn contract_rows(n: usize) -> (result: Result<ContractionResult, String>)
    ensures
        contraction_spec(n as nat, true, result),
{
    contract_rows_d4_orbit_sort_reduce(n)
}

/// Exactly contract the same compiled row operator, materializing each layer
/// as a sorted vector and reducing equal packed boundary keys in place.
pub fn contract_rows_sort_reduce(n: usize) -> (result: Result<ContractionResult, String>)
    ensures
        contraction_spec(n as nat, false, result),
{
    contract_rows_sort_reduce_with_modes(n, SymmetryMode::Plain, PositionMode::Dense)
}

pub fn contract_rows_sparse_sort_reduce(n: usize) -> (result: Result<ContractionResult, String>)
    ensures
        contraction_spec(n as nat, false, result),
{
    contract_rows_sort_reduce_with_modes(n, SymmetryMode::Plain, PositionMode::Sparse)
}

/// Exact row contraction sliced by the vertical-reflection orbits of the
/// occupied tensor entry on the first row.
///
/// Only `{identity, vertical reflection}` preserves an interior top-down row
/// cut. The other six D4 actions are validated separately and are not used as
/// an invalid blanket factor of eight.
pub fn contract_rows_d4_orbit_sort_reduce(n: usize) -> (result: Result<ContractionResult, String>)
    ensures
        contraction_spec(n as nat, true, result),
{
    contract_rows_sort_reduce_with_modes(n, SymmetryMode::TopRowVerticalOrbits, PositionMode::Dense)
}

pub fn contract_rows_d4_sparse_sort_reduce(n: usize) -> (result: Result<ContractionResult, String>)
    ensures
        contraction_spec(n as nat, true, result),
{
    contract_rows_sort_reduce_with_modes(n, SymmetryMode::TopRowVerticalOrbits, PositionMode::Sparse)
}


/// The number of N-Queens solutions for `N = 0..=27` (OEIS A000170).
pub const KNOWN_COUNTS: [u128; 28] = [
    1,
    1,
    0,
    0,
    2,
    10,
    4,
    40,
    92,
    352,
    724,
    2_680,
    14_200,
    73_712,
    365_596,
    2_279_184,
    14_772_512,
    95_815_104,
    666_090_624,
    4_968_057_848,
    39_029_188_884,
    314_666_222_712,
    2_691_008_701_644,
    24_233_937_684_440,
    227_514_171_973_736,
    2_207_893_435_808_352,
    22_317_699_616_364_044,
    234_907_967_154_122_528,
];

/// The published solution count of the `n`-queens problem, where known here.
pub fn known_count(n: usize) -> (count: Option<u128>)
    ensures
        n < 28 ==> count == Some(KNOWN_COUNTS[n as int]),
        n >= 28 ==> count is None,
{
    if n < 28 {
        Some(KNOWN_COUNTS[n])
    } else {
        None
    }
}

} // verus!
