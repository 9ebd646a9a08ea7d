//! Deferred-candidate contraction: a row's successors are stored as compact
//! `(key, parent, multiplicity)` candidates whose weights are looked up only
//! while equal keys are merged after sorting.
use vstd::prelude::*;

use crate::batched::{append_compiled_sparse_d4, expansion};
use crate::boundary::{BoundaryState, PackedBoundary, empty_state, lemma_pack_round_trip, pack_spec, state_fits};
use crate::contract::{
    ContractionResult, LayerMetric, final_count, groups_fit, keys_sorted, layers_fit, lemma_empty_fits,
    reduce_sorted_candidates, sum_weights,
};
use crate::row::{CompiledRowOperator, RowCounters, top_row_terms};
use crate::tensor::SiteTensorC;
use crate::transfer::{
    board_count, indicator, key_paths, layer_total, lemma_expand_parent, lemma_indicator_le_total,
    lemma_key_paths_unit, lemma_top_row_sum, lemma_weighted_sum_concat, lemma_weighted_sum_ext,
    lemma_weighted_sum_permutation, orbit_sum, orbit_weight, pack_terms, rooted, row_successors,
    row_successors_upto, unit, unit_key, weighted_sum, with_weight,
};
use crate::util::{elapsed, message, message_with_number, now, peak_rss_bytes, zero_duration};

verus! {

broadcast use crate::mirror::lemma_orbit_count_exact;

/// A successor whose weight is left to be looked up: its packed key, the
/// index of the parent it came from, and its first-row orbit multiplicity.
#[derive(Clone, Copy, Debug)]
pub struct DeferredCandidate {
    pub state: u64,
    pub parent_index: u32,
    pub multiplicity: u8,
}

/// The frontier term a candidate stands for among `parents`: its key, with the
/// parent's weight times its multiplicity.
pub open spec fn resolve(c: DeferredCandidate, parents: Seq<(PackedBoundary, u128)>) -> (PackedBoundary, u128) {
    (PackedBoundary(c.state as u128), (parents[c.parent_index as int].1 * c.multiplicity) as u128)
}

/// The frontier terms a list of candidates stands for.
pub open spec fn resolved(cands: Seq<DeferredCandidate>, parents: Seq<(PackedBoundary, u128)>) -> Seq<
    (PackedBoundary, u128),
> {
    cands.map_values(|c: DeferredCandidate| resolve(c, parents))
}

/// A candidate names a parent, and its weight fits `u128`.
pub open spec fn candidate_ok(c: DeferredCandidate, parents: Seq<(PackedBoundary, u128)>) -> bool {
    &&& c.parent_index < parents.len()
    &&& parents[c.parent_index as int].1 * c.multiplicity <= u128::MAX
}

/// Inserting an element anywhere adds it to the multiset.
proof fn lemma_insert_multiset<T>(s: Seq<T>, i: int, x: T)
    requires
        0 <= i <= s.len(),
    ensures
        s.insert(i, x).to_multiset() == s.to_multiset().insert(x),
{
    broadcast use vstd::seq_lib::group_seq_properties;
    broadcast use vstd::multiset::group_multiset_axioms;

    s.insert_ensures(i, x);
    s.to_multiset_ensures();
    vstd::seq_lib::lemma_multiset_commutative(s.take(i), s.skip(i));
    assert(s.take(i) + s.skip(i) =~= s);
    assert(s.insert(i, x) =~= s.take(i).push(x) + s.skip(i));
    vstd::seq_lib::lemma_multiset_commutative(s.take(i).push(x), s.skip(i));
    s.take(i).to_multiset_ensures();
}

/// Reordering candidates reorders the terms they stand for.
proof fn lemma_resolved_permutation(
    a: Seq<DeferredCandidate>,
    b: Seq<DeferredCandidate>,
    parents: Seq<(PackedBoundary, u128)>,
)
    requires
        a.to_multiset() == b.to_multiset(),
    ensures
        resolved(a, parents).to_multiset() == resolved(b, parents).to_multiset(),
    decreases a.len(),
{
    broadcast use vstd::seq_lib::group_seq_properties;
    broadcast use vstd::multiset::group_multiset_axioms;

    a.to_multiset_ensures();
    b.to_multiset_ensures();
    if a.len() == 0 {
        assert(b.len() == 0);
        assert(resolved(a, parents) =~= resolved(b, parents));
    } else {
        let x = a.last();
        assert(a.to_multiset().count(x) > 0) by {
            assert(a.contains(x)) by {
                assert(a[a.len() - 1] == x);
            }
        }
        assert(b.contains(x));
        let i = b.index_of(x);
        assert(b[i] == x);
        let b2 = b.remove(i);
        let a2 = a.drop_last();
        assert(a =~= a2.push(x));
        assert(b =~= b2.insert(i, x));
        lemma_insert_multiset(b2, i, x);
        a2.to_multiset_ensures();
        assert(a2.to_multiset() =~= b2.to_multiset()) by {
            assert(a.to_multiset() == a2.to_multiset().insert(x));
            assert(b.to_multiset() == b2.to_multiset().insert(x));
            assert forall|y: DeferredCandidate| #[trigger] a2.to_multiset().count(y) == b2.to_multiset().count(y) by {
                assert(a.to_multiset().count(y) == b.to_multiset().count(y));
            }
        }
        lemma_resolved_permutation(a2, b2, parents);
        let f = |c: DeferredCandidate| resolve(c, parents);
        assert(resolved(a, parents) =~= resolved(a2, parents).push(f(x)));
        assert(resolved(b, parents) =~= resolved(b2, parents).insert(i, f(x)));
        resolved(a2, parents).to_multiset_ensures();
        lemma_insert_multiset(resolved(b2, parents), i, f(x));
    }
}

/// Every first-row term of unit-weight fitting successors fits and has
/// weight at most 2.
proof fn lemma_top_row_terms_small(n: nat, terms: Seq<(BoundaryState, u128)>)
    requires
        forall|i: int| 0 <= i < terms.len() ==> state_fits((#[trigger] terms[i]).0, n) && terms[i].1 == 1,
    ensures
        forall|k: int|
            0 <= k < top_row_terms(n, terms).len() ==> state_fits((#[trigger] top_row_terms(n, terms)[k]).0, n)
                && top_row_terms(n, terms)[k].1 <= 2,
    decreases terms.len(),
{
    if terms.len() > 0 {
        let rest = terms.drop_last();
        assert forall|i: int| 0 <= i < rest.len() implies state_fits((#[trigger] rest[i]).0, n) && rest[i].1 == 1 by {
            assert(rest[i] == terms[i]);
        }
        lemma_top_row_terms_small(n, rest);
        let (state, weight) = terms.last();
        assert(terms.last() == terms[terms.len() - 1]);
        let w = orbit_weight(n, crate::row::first_row_column(state));
        assert(w <= 2);
        assert((weight * w) as u128 <= 2) by (nonlinear_arith)
            requires
                weight == 1,
                w <= 2,
        ;
        let prev = top_row_terms(n, rest);
        let tail = if w == 0 {
            Seq::<(BoundaryState, u128)>::empty()
        } else {
            seq![(state, (weight * w) as u128)]
        };
        assert(top_row_terms(n, terms) == prev + tail);
        assert(state_fits(terms[terms.len() - 1].0, n));
        assert forall|k: int| 0 <= k < top_row_terms(n, terms).len() implies state_fits(
            (#[trigger] top_row_terms(n, terms)[k]).0,
            n,
        ) && top_row_terms(n, terms)[k].1 <= 2 by {
            if k < prev.len() {
                assert(top_row_terms(n, terms)[k] == prev[k]);
            } else {
                assert(top_row_terms(n, terms)[k] == tail[k - prev.len()]);
            }
        }
    }
}

/// The unit-weight expansion of a fitting parent: every successor fits and
/// its multiplicity is at most 2; scaled by the parent's weight it is the
/// parent's expansion.
proof fn lemma_unit_expansion(n: nat, parent: BoundaryState, weight: u128, top_row: bool)
    requires
        1 <= n <= 42,
        state_fits(parent, n),
        top_row ==> parent == empty_state() && weight == 1,
    ensures
        expansion(n, parent, 1, top_row).len() == expansion(n, parent, weight, top_row).len(),
        forall|k: int|
            0 <= k < expansion(n, parent, 1, top_row).len() ==> {
                &&& state_fits((#[trigger] expansion(n, parent, 1, top_row)[k]).0, n)
                &&& expansion(n, parent, 1, top_row)[k].1 <= 2
                &&& weight * expansion(n, parent, 1, top_row)[k].1 <= u128::MAX
                &&& expansion(n, parent, weight, top_row)[k] == (
                    expansion(n, parent, 1, top_row)[k].0,
                    (weight * expansion(n, parent, 1, top_row)[k].1) as u128,
                )
            },
{
    crate::transfer::lemma_row_successors_fit(n, parent, n);
    assert(row_successors(n, parent) == row_successors_upto(n, parent, n));
    let unit_terms = with_weight(row_successors(n, parent), 1);
    if top_row {
        assert forall|i: int| 0 <= i < unit_terms.len() implies state_fits((#[trigger] unit_terms[i]).0, n)
            && unit_terms[i].1 == 1 by {
            assert(unit_terms[i] == (row_successors(n, parent)[i], 1u128));
        }
        lemma_top_row_terms_small(n, unit_terms);
        assert forall|k: int| 0 <= k < expansion(n, parent, 1, top_row).len() implies weight * (
        #[trigger] expansion(n, parent, 1, top_row)[k]).1 == expansion(n, parent, 1, top_row)[k].1 by {
            assert(weight == 1);
        }
    } else {
        assert forall|k: int| 0 <= k < expansion(n, parent, 1, top_row).len() implies {
            &&& state_fits((#[trigger] expansion(n, parent, 1, top_row)[k]).0, n)
            &&& expansion(n, parent, 1, top_row)[k].1 <= 2
            &&& weight * expansion(n, parent, 1, top_row)[k].1 <= u128::MAX
            &&& expansion(n, parent, weight, top_row)[k] == (
                expansion(n, parent, 1, top_row)[k].0,
                (weight * expansion(n, parent, 1, top_row)[k].1) as u128,
            )
        } by {
            assert(expansion(n, parent, 1, top_row)[k] == (row_successors(n, parent)[k], 1u128));
            assert(expansion(n, parent, weight, top_row)[k] == (row_successors(n, parent)[k], weight));
            assert(weight * 1u128 == weight);
        }
    }
}

/// Sorts the candidates by key with `slice::sort_unstable_by_key`. Stated,
/// as the standard library documents: the result is a reordering of the input
/// in non-decreasing key order. Which of two candidates with equal keys comes
/// first is not stated.
#[verifier::external_body]
fn sort_by_state(values: &mut Vec<DeferredCandidate>)
    ensures
        final(values)@.to_multiset() == old(values)@.to_multiset(),
        forall|i: int, j: int| 0 <= i <= j < final(values)@.len() ==> final(values)@[i].state <= final(values)@[j].state,
{
    values.sort_unstable_by_key(|candidate| candidate.state);
}

/// The deferred candidates of a layer's parents: the successors of each
/// parent with unit weight, stored by key, parent index and first-row orbit
/// multiplicity. The terms they stand for are the expansion of the layer; a
/// layer of more parents than `u32` indices is refused.
fn deferred_candidates(
    n: usize,
    row: usize,
    operator: &CompiledRowOperator,
    parents: &Vec<(PackedBoundary, u128)>,
    counters: &mut RowCounters,
    completed: &mut u128,
) -> (cands: Result<Vec<DeferredCandidate>, String>)
    requires
        1 <= n <= 21,
        row == 0 ==> parents@ == seq![(PackedBoundary(pack_spec(empty_state(), n as nat)), 1u128)],
        old(counters).operator_candidates == 0,
        old(counters).operator_matched == 0,
        old(counters).tensor_examined == 0,
        old(counters).tensor_matched == 0,
        *old(completed) == 0,
    ensures
        cands matches Ok(c) ==> forall|k: int| 0 <= k < c@.len() ==> candidate_ok(#[trigger] c@[k], parents@),
        cands matches Ok(c) ==> forall|j: nat, f: spec_fn(BoundaryState) -> nat|
            #[trigger] weighted_sum(resolved(c@, parents@), key_paths(n as nat, j, f)) == if row == 0 {
                orbit_sum(n as nat, j, f, n as nat)
            } else {
                weighted_sum(parents@, key_paths(n as nat, j + 1, f))
            },
        cands matches Err(e) ==> e@ == "deferred sparse parent index exceeds u32"@,
        final(counters).operator_candidates <= parents@.len() * 64,
        final(counters).operator_matched <= parents@.len() * 64,
        final(counters).tensor_examined == 0,
        final(counters).tensor_matched == 0,
        *final(completed) <= parents@.len() * 64,
{
    let mut cands: Vec<DeferredCandidate> = Vec::new();
    let ghost nn = n as nat;
    let mut i: usize = 0;
    while i < parents.len()
        invariant
            1 <= n <= 21,
            nn == n,
            i <= parents@.len(),
            row == 0 ==> parents@ == seq![(PackedBoundary(pack_spec(empty_state(), nn)), 1u128)],
            forall|k: int| 0 <= k < cands@.len() ==> candidate_ok(#[trigger] cands@[k], parents@),
            forall|j: nat, f: spec_fn(BoundaryState) -> nat|
                #[trigger] weighted_sum(resolved(cands@, parents@), key_paths(nn, j, f)) == if row == 0 {
                    if i == 0 {
                        0
                    } else {
                        orbit_sum(nn, j, f, nn)
                    }
                } else {
                    weighted_sum(parents@.subrange(0, i as int), key_paths(nn, j + 1, f))
                },
            counters.operator_candidates <= i * 64,
            counters.operator_matched <= i * 64,
            counters.tensor_examined == 0,
            counters.tensor_matched == 0,
            *completed <= i * 64,
            i == 0 ==> cands@.len() == 0,
        decreases parents@.len() - i,
    {
        if i > 0xffff_ffff {
            return Err(message("deferred sparse parent index exceeds u32"));
        }
        let (packed, weight) = parents[i];
        let parent = packed.unpack(n);
        let top_row = row == 0;
        proof {
            crate::transfer::lemma_successors_len(nn, parent, nn);
            if row == 0 {
                assert(i == 0);
                assert(weight == 1);
                lemma_empty_fits(nn);
                lemma_pack_round_trip(empty_state(), nn);
                assert(parent == empty_state());
            }
            lemma_unit_expansion(nn, parent, weight, top_row);
        }
        let mut scratch: Vec<(PackedBoundary, u128)> = Vec::new();
        let appended = append_compiled_sparse_d4(n, operator, parent, 1, top_row, counters, &mut scratch)?;
        let ghost before = cands@;
        let ghost unit_terms = expansion(nn, parent, 1, top_row);
        let ghost terms = pack_terms(expansion(nn, parent, weight, top_row), nn);
        proof {
            assert(scratch@ =~= pack_terms(unit_terms, nn));
            assert(resolved(before, parents@) + terms.take(0) =~= resolved(before, parents@));
        }
        let mut k: usize = 0;
        while k < scratch.len()
            invariant
                1 <= n <= 21,
                nn == n,
                i < parents@.len(),
                i <= 0xffff_ffff,
                parents@[i as int] == (packed, weight),
                scratch@ == pack_terms(unit_terms, nn),
                terms == pack_terms(expansion(nn, parent, weight, top_row), nn),
                unit_terms == expansion(nn, parent, 1, top_row),
                unit_terms.len() == expansion(nn, parent, weight, top_row).len(),
                forall|t: int|
                    0 <= t < unit_terms.len() ==> {
                        &&& state_fits((#[trigger] unit_terms[t]).0, nn)
                        &&& unit_terms[t].1 <= 2
                        &&& weight * unit_terms[t].1 <= u128::MAX
                        &&& expansion(nn, parent, weight, top_row)[t] == (
                            unit_terms[t].0,
                            (weight * unit_terms[t].1) as u128,
                        )
                    },
                k <= scratch@.len(),
                resolved(cands@, parents@) == resolved(before, parents@) + terms.take(k as int),
                forall|t: int| 0 <= t < cands@.len() ==> candidate_ok(#[trigger] cands@[t], parents@),
            decreases scratch@.len() - k,
        {
            let (key, multiplicity) = scratch[k];
            proof {
                assert(scratch@[k as int] == (PackedBoundary(pack_spec(unit_terms[k as int].0, nn)), unit_terms[k as int].1));
                crate::joint::lemma_pack_fits_u64(unit_terms[k as int].0, nn);
            }
            let candidate = DeferredCandidate {
                state: key.0 as u64,
                parent_index: i as u32,
                multiplicity: multiplicity as u8,
            };
            let ghost old_cands = cands@;
            cands.push(candidate);
            proof {
                assert(resolve(candidate, parents@) == terms[k as int]);
                assert(resolved(cands@, parents@) =~= resolved(old_cands, parents@).push(resolve(candidate, parents@)));
                assert(terms.take(k as int + 1) =~= terms.take(k as int).push(terms[k as int]));
                assert(candidate_ok(candidate, parents@));
                assert forall|t: int| 0 <= t < cands@.len() implies candidate_ok(#[trigger] cands@[t], parents@) by {
                    if t < old_cands.len() {
                        assert(cands@[t] == old_cands[t]);
                    }
                }
            }
            k = k + 1;
        }
        proof {
            crate::batched::lemma_expansion_prefix(nn, parent, 1, top_row, nn);
            crate::batched::lemma_expansion_len(nn, parent, 1, top_row, nn);
        }
        *completed = *completed + appended as u128;
        proof {
            assert(terms.take(k as int) =~= terms);
            let top = row == 0;
            assert(parents@.subrange(0, i as int + 1).drop_last() =~= parents@.subrange(0, i as int));
            assert(parents@.subrange(0, i as int + 1).last() == (packed, weight));
            assert forall|j: nat, f: spec_fn(BoundaryState) -> nat| #[trigger] weighted_sum(
                resolved(cands@, parents@),
                key_paths(nn, j, f),
            ) == if row == 0 {
                orbit_sum(nn, j, f, nn)
            } else {
                weighted_sum(parents@.subrange(0, i as int + 1), key_paths(nn, j + 1, f))
            } by {
                lemma_weighted_sum_concat(resolved(before, parents@), terms, key_paths(nn, j, f));
                if top {
                    lemma_top_row_sum(nn, j, f, nn);
                    assert(before.len() == 0);
                    assert(resolved(before, parents@) =~= Seq::<(PackedBoundary, u128)>::empty());
                    assert(row_successors(nn, empty_state()) == row_successors_upto(nn, empty_state(), nn));
                } else {
                    lemma_expand_parent(nn, parent, weight, j, f);
                }
            }
        }
        i = i + 1;
    }
    proof {
        assert(parents@.subrange(0, i as int) =~= parents@);
    }
    Ok(cands)
}

/// The terms the candidates stand for, in their order: each parent's weight
/// times the candidate's multiplicity, with checked multiplication.
fn resolve_candidates(
    cands: &Vec<DeferredCandidate>,
    parents: &Vec<(PackedBoundary, u128)>,
    row: usize,
) -> (terms: Result<Vec<(PackedBoundary, u128)>, String>)
    requires
        forall|k: int| 0 <= k < cands@.len() ==> candidate_ok(#[trigger] cands@[k], parents@),
    ensures
        terms matches Ok(t) && t@ == resolved(cands@, parents@),
{
    let mut terms: Vec<(PackedBoundary, u128)> = Vec::new();
    let mut k: usize = 0;
    while k < cands.len()
        invariant
            forall|t: int| 0 <= t < cands@.len() ==> candidate_ok(#[trigger] cands@[t], parents@),
            k <= cands@.len(),
            terms@ == resolved(cands@.take(k as int), parents@),
        decreases cands@.len() - k,
    {
        let candidate = cands[k];
        proof {
            assert(candidate_ok(cands@[k as int], parents@));
        }
        let parent_weight = parents[candidate.parent_index as usize].1;
        let weight = match parent_weight.checked_mul(candidate.multiplicity as u128) {
            Some(weight) => weight,
            None => {
                return Err(message_with_number("deferred coefficient overflow after row", row as u128 + 1));
            },
        };
        let ghost before = terms@;
        terms.push((PackedBoundary(candidate.state as u128), weight));
        proof {
            assert(cands@.take(k as int + 1) =~= cands@.take(k as int).push(candidate));
            assert(resolved(cands@.take(k as int + 1), parents@) =~= before.push(resolve(candidate, parents@)));
        }
        k = k + 1;
    }
    proof {
        assert(cands@.take(k as int) =~= cands@);
    }
    Ok(terms)
}

/// What the deferred-candidate contraction of an `n`-by-`n` board returns: an
/// error for boards wider than 21 columns; otherwise the exact count and the
/// exact total weight of every first-row-sliced layer, or, only when a layer
/// has more parents than `u32` indices, the error that says so.
pub open spec fn deferred_spec(n: nat, result: Result<ContractionResult, String>) -> bool {
    &&& n > 21 ==> (result matches Err(e) && e@ == "the compact deferred-candidate backend supports N <= 21"@)
    &&& n <= 21 ==> (result matches Err(e) ==> e@ == "deferred sparse parent index exceeds u32"@)
    &&& n == 0 ==> result is Ok
    &&& result matches Ok(r) ==> {
        &&& r.n == n
        &&& r.count == board_count(n, true)
        &&& r.count == board_count(n, false)
        &&& r.layers@.len() == n
        &&& forall|k: int|
            0 <= k < n ==> (#[trigger] r.layers@[k]).row == k && r.layers@[k].output_weight
                == layer_total(n, (k + 1) as nat, true)
    }
}

/// Exact row-by-row contraction, sliced by first-row reflection orbits, whose
/// candidates defer their weights: each layer's candidates are sorted by key,
/// resolved against their parents and merged with checked addition.
#[verifier::rlimit(100)]
#[verifier::spinoff_prover]
fn contract_rows_d4_deferred_sparse_kernel(n: usize) -> (result: Result<ContractionResult, String>)
    ensures
        deferred_spec(n as nat, result),
{
    if n > 21 {
        return Err(message("the compact deferred-candidate backend supports N <= 21"));
    }
    if n == 0 {
        proof {
            crate::sitewise::lemma_empty_board();
            crate::future_quotient::lemma_board_count_zero(true);
        }
        return Ok(
            ContractionResult {
                n,
                count: 1,
                elapsed: zero_duration(),
                peak_states: 1,
                tensor_entries_examined: 0,
                tensor_entries_matched: 0,
                row_operator_candidates: 0,
                row_operator_matched: 0,
                peak_rss_bytes: peak_rss_bytes(),
                layers: Vec::new(),
            },
        );
    }
    proof {
        crate::certified::lemma_layers_fit_small(n as nat, true);
    }
    let tensor = SiteTensorC::sec_vi();
    let operator = CompiledRowOperator::compile(&tensor)?;
    let initial = BoundaryState { columns: 0, diag_dr: 0, diag_dl: 0 };
    let mut boundary: Vec<(PackedBoundary, u128)> = Vec::new();
    boundary.push((PackedBoundary::pack(initial, n), 1u128));
    let mut peak_states: usize = 1;
    let mut total_operator_candidates: u128 = 0;
    let mut total_operator_matched: u128 = 0;
    let mut layers: Vec<LayerMetric> = Vec::with_capacity(n);
    let total_start = now();
    let ghost nn = n as nat;
    proof {
        lemma_empty_fits(nn);
        lemma_pack_round_trip(empty_state(), nn);
        assert(boundary@ =~= seq![(PackedBoundary(pack_spec(empty_state(), nn)), 1u128)]);
    }
    let mut row: usize = 0;
    while row < n
        invariant
            layers_fit(n as nat, true),
            1 <= n <= 21,
            nn == n,
            row <= n,
            row == 0 ==> boundary@ == seq![(PackedBoundary(pack_spec(empty_state(), nn)), 1u128)],
            row > 0 ==> forall|j: nat, f: spec_fn(BoundaryState) -> nat|
                #[trigger] weighted_sum(boundary@, key_paths(nn, j, f)) == rooted(nn, (row + j) as nat, true, f),
            layers@.len() == row,
            forall|k: int|
                0 <= k < row ==> (#[trigger] layers@[k]).row == k && layers@[k].output_weight == layer_total(
                    nn,
                    (k + 1) as nat,
                    true,
                ),
            total_operator_candidates <= row * 0x1_0000_0000_0000_0000_0000,
            total_operator_matched <= row * 0x1_0000_0000_0000_0000_0000,
        decreases n - row,
    {
        let layer_start = now();
        let input_states = boundary.len();
        let mut counters = RowCounters::new();
        let mut completed: u128 = 0;
        let parents = boundary;
        let mut candidates = deferred_candidates(n, row, &operator, &parents, &mut counters, &mut completed)?;
        let ghost unsorted = candidates@;
        let ghost expanded = resolved(unsorted, parents@);
        proof {
            assert forall|j: nat, f: spec_fn(BoundaryState) -> nat| #[trigger] weighted_sum(
                expanded,
                key_paths(nn, j, f),
            ) == rooted(nn, (row + 1 + j) as nat, true, f) by {
                if row > 0 {
                    assert(weighted_sum(parents@, key_paths(nn, j + 1, f)) == rooted(
                        nn,
                        (row + (j + 1)) as nat,
                        true,
                        f,
                    ));
                }
            }
        }
        sort_by_state(&mut candidates);
        let ghost sorted = resolved(candidates@, parents@);
        proof {
            lemma_resolved_permutation(unsorted, candidates@, parents@);
            assert forall|k: int| 0 <= k < candidates@.len() implies candidate_ok(#[trigger] candidates@[k], parents@) by {
                candidates@.to_multiset_ensures();
                unsorted.to_multiset_ensures();
                assert(candidates@.contains(candidates@[k]));
                assert(candidates@.to_multiset().count(candidates@[k]) > 0);
                assert(unsorted.to_multiset().count(candidates@[k]) > 0);
                assert(unsorted.contains(candidates@[k]));
                let t = choose|t: int| 0 <= t < unsorted.len() && unsorted[t] == candidates@[k];
                assert(candidate_ok(unsorted[t], parents@));
            }
            assert forall|j: nat, f: spec_fn(BoundaryState) -> nat| #[trigger] weighted_sum(
                sorted,
                key_paths(nn, j, f),
            ) == rooted(nn, (row + 1 + j) as nat, true, f) by {
                lemma_weighted_sum_permutation(expanded, sorted, key_paths(nn, j, f));
                assert(weighted_sum(expanded, key_paths(nn, j, f)) == rooted(nn, (row + 1 + j) as nat, true, f));
            }
            assert(keys_sorted(sorted)) by {
                assert forall|a: int, b: int| 0 <= a <= b < sorted.len() implies sorted[a].0.0 <= sorted[b].0.0 by {
                    assert(candidates@[a].state <= candidates@[b].state);
                }
            }
            lemma_key_paths_unit(nn);
            lemma_weighted_sum_ext(sorted, key_paths(nn, 0, unit()), unit_key());
            assert(weighted_sum(sorted, key_paths(nn, 0, unit())) == rooted(nn, (row + 1 + 0) as nat, true, unit()));
            assert(weighted_sum(sorted, unit_key()) == layer_total(nn, (row + 1) as nat, true));
            assert(layer_total(nn, (row + 1) as nat, true) <= u128::MAX);
            assert forall|key: u128| #[trigger] weighted_sum(sorted, indicator(key)) <= u128::MAX by {
                lemma_indicator_le_total(sorted, key);
            }
            assert(groups_fit(sorted));
        }
        let mut terms = resolve_candidates(&candidates, &parents, row)?;
        match reduce_sorted_candidates(&mut terms, row) {
            Ok(()) => {},
            Err(error) => {
                return Err(error);
            },
        }
        boundary = terms;
        proof {
            assert(weighted_sum(boundary@, unit_key()) == weighted_sum(sorted, unit_key()));
        }
        let output_weight = match sum_weights(&boundary, row) {
            Ok(weight) => weight,
            Err(error) => {
                return Err(error);
            },
        };
        if boundary.len() > peak_states {
            peak_states = boundary.len();
        }
        proof {
            assert(counters.operator_candidates <= parents@.len() * 64);
            assert(parents@.len() * 64 <= 0x1_0000_0000_0000_0000_0000) by (nonlinear_arith)
                requires
                    parents@.len() <= usize::MAX,
            ;
            assert((row + 1) * 0x1_0000_0000_0000_0000_0000 == row * 0x1_0000_0000_0000_0000_0000
                + 0x1_0000_0000_0000_0000_0000) by (nonlinear_arith);
            assert(row * 0x1_0000_0000_0000_0000_0000 + 0x1_0000_0000_0000_0000_0000 <= u128::MAX) by (nonlinear_arith)
                requires
                    row < 21,
            ;
        }
        total_operator_candidates = total_operator_candidates + counters.operator_candidates;
        total_operator_matched = total_operator_matched + counters.operator_matched;
        layers.push(
            LayerMetric {
                row,
                input_states,
                tensor_entries_examined: counters.tensor_examined,
                tensor_entries_matched: counters.tensor_matched,
                row_operator_candidates: counters.operator_candidates,
                row_operator_matched: counters.operator_matched,
                completed_row_terms: completed,
                output_states: boundary.len(),
                output_weight,
                elapsed: elapsed(&layer_start),
                peak_rss_bytes: peak_rss_bytes(),
            },
        );
        proof {
            assert forall|j: nat, f: spec_fn(BoundaryState) -> nat| #[trigger] weighted_sum(
                boundary@,
                key_paths(nn, j, f),
            ) == rooted(nn, (row + 1 + j) as nat, true, f) by {
                assert(weighted_sum(boundary@, key_paths(nn, j, f)) == weighted_sum(sorted, key_paths(nn, j, f)));
            }
        }
        row = row + 1;
    }
    proof {
        crate::mirror::lemma_orbit_count_exact(nn);
        assert(weighted_sum(boundary@, key_paths(nn, 0, unit())) == layer_total(nn, nn, true));
        lemma_key_paths_unit(nn);
        lemma_weighted_sum_ext(boundary@, key_paths(nn, 0, unit()), unit_key());
        assert(weighted_sum(boundary@, key_paths(nn, 0, crate::transfer::accept(nn))) == rooted(
            nn,
            (n + 0) as nat,
            true,
            crate::transfer::accept(nn),
        ));
    }
    let count = final_count(n, &boundary)?;
    Ok(
        ContractionResult {
            n,
            count,
            elapsed: elapsed(&total_start),
            peak_states,
            tensor_entries_examined: 17,
            tensor_entries_matched: 17,
            row_operator_candidates: total_operator_candidates,
            row_operator_matched: total_operator_matched,
            peak_rss_bytes: peak_rss_bytes(),
            layers,
        },
    )
}

/// Exact contraction sliced by first-row reflection orbits whose candidates
/// carry a parent index and a multiplicity in place of a weight, for boards
/// of at most 21 columns.
pub fn contract_rows_d4_deferred_sparse_sort_reduce(n: usize) -> (result: Result<ContractionResult, String>)
    ensures
        deferred_spec(n as nat, result),
{
    contract_rows_d4_deferred_sparse_kernel(n)
}

} // verus!
