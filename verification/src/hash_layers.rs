//! Row-by-row exact contraction with hash-map layer materialization: the
//! terms of each completed row are added into a map from packed frontier key
//! to weight. The compiled row transfer and the site-by-site contraction of
//! the explicit `C` are both available as the row step.
use vstd::prelude::*;

use crate::boundary::{
    BoundaryState, PackedBoundary, board_mask_spec, empty_state, lemma_pack_round_trip,
    lemma_unpack_fits, pack_spec, state_fits, unpack_spec,
};
use crate::contract::{
    ContractionResult, LayerMetric, contraction_spec, final_count, layers_fit, lemma_empty_fits,
    lemma_weighted_sum_prefix_le, sum_weights,
};
use crate::row::{CompiledRowOperator, RowCounters, contract_one_row_compiled};
use crate::sitewise::{contract_one_row_sitewise, lemma_restrict_fits, restrict_state};
use crate::tensor::SiteTensorC;
use crate::transfer::{
    accept, board_count, indicator, key_paths, layer_total, lemma_expand_parent,
    lemma_indicator_le_total, lemma_key_paths_unit, lemma_successors_len,
    lemma_weighted_sum_concat, lemma_weighted_sum_ext, lemma_weighted_sum_mono, pack_terms, paths,
    rooted, row_successors, unit, unit_key, weighted_sum, weighted_successors, with_weight,
};
use crate::util::{elapsed, message, message_with_number, now, peak_rss_bytes, zero_duration};
use std::collections::HashMap;

verus! {

broadcast use vstd::std_specs::hash::group_hash_axioms;

/// The terms of a layer held as a map from packed key to weight, listed in
/// the order in which their keys first arrived.
pub open spec fn materialized(keys: Seq<u128>, weights: Map<u128, u128>) -> Seq<(PackedBoundary, u128)> {
    keys.map_values(|k: u128| (PackedBoundary(k), weights[k]))
}

/// The key list names every key of the map once.
pub open spec fn layer_ok(keys: Seq<u128>, weights: Map<u128, u128>) -> bool {
    &&& keys.no_duplicates()
    &&& forall|k: u128| #[trigger] weights.contains_key(k) <==> keys.contains(k)
}

/// Maps that agree on the listed keys materialize alike.
proof fn lemma_materialized_agree(keys: Seq<u128>, a: Map<u128, u128>, b: Map<u128, u128>)
    requires
        forall|i: int| 0 <= i < keys.len() ==> a[#[trigger] keys[i]] == b[keys[i]],
    ensures
        materialized(keys, a) == materialized(keys, b),
{
    assert(materialized(keys, a) =~= materialized(keys, b));
}

/// Adding `w` to the weight of a listed key adds `w * g(key)` to every
/// weighted sum.
proof fn lemma_materialized_add(keys: Seq<u128>, weights: Map<u128, u128>, key: u128, w: u128, g: spec_fn(u128) -> nat)
    requires
        keys.no_duplicates(),
        keys.contains(key),
        weights[key] + w <= u128::MAX,
    ensures
        weighted_sum(materialized(keys, weights.insert(key, (weights[key] + w) as u128)), g)
            == weighted_sum(materialized(keys, weights), g) + (w as nat) * g(key),
    decreases keys.len(),
{
    let updated = weights.insert(key, (weights[key] + w) as u128);
    let rest = keys.drop_last();
    let last = keys.last();
    assert(materialized(keys, updated).drop_last() =~= materialized(rest, updated));
    assert(materialized(keys, weights).drop_last() =~= materialized(rest, weights));
    if last == key {
        assert(!rest.contains(key)) by {
            if rest.contains(key) {
                let i = choose|i: int| 0 <= i < rest.len() && rest[i] == key;
                assert(keys[i] == keys[keys.len() - 1]);
            }
        }
        lemma_materialized_agree(rest, updated, weights);
        let old_w = weights[key] as nat;
        let gk = g(key);
        assert((old_w + w) * gk == old_w * gk + (w as nat) * gk) by (nonlinear_arith);
    } else {
        assert(rest.no_duplicates());
        assert(rest.contains(key)) by {
            let i = choose|i: int| 0 <= i < keys.len() && keys[i] == key;
            assert(i != keys.len() - 1);
            assert(rest[i] == key);
        }
        lemma_materialized_add(rest, weights, key, w, g);
    }
}

/// A new key with weight `w` adds `w * g(key)` to every weighted sum.
proof fn lemma_materialized_push(keys: Seq<u128>, weights: Map<u128, u128>, key: u128, w: u128, g: spec_fn(u128) -> nat)
    requires
        !keys.contains(key),
    ensures
        weighted_sum(materialized(keys.push(key), weights.insert(key, w)), g) == weighted_sum(
            materialized(keys, weights),
            g,
        ) + (w as nat) * g(key),
{
    assert forall|i: int| 0 <= i < keys.len() implies weights.insert(key, w)[#[trigger] keys[i]]
        == weights[keys[i]] by {
        assert(keys[i] != key);
    }
    lemma_materialized_agree(keys, weights.insert(key, w), weights);
    assert(materialized(keys.push(key), weights.insert(key, w)).drop_last() =~= materialized(
        keys,
        weights.insert(key, w),
    ));
}

/// The weight stored under a listed key is the weight of the key in the
/// materialized terms.
proof fn lemma_materialized_indicator(keys: Seq<u128>, weights: Map<u128, u128>, key: u128)
    requires
        keys.no_duplicates(),
        keys.contains(key),
    ensures
        weighted_sum(materialized(keys, weights), indicator(key)) == weights[key],
    decreases keys.len(),
{
    let rest = keys.drop_last();
    assert(materialized(keys, weights).drop_last() =~= materialized(rest, weights));
    if keys.last() == key {
        assert forall|i: int| 0 <= i < materialized(rest, weights).len() implies (
        #[trigger] materialized(rest, weights)[i]).0.0 != key by {
            assert(keys[i] != keys[keys.len() - 1]);
        }
        crate::transfer::lemma_indicator_absent(materialized(rest, weights), key);
        let m = materialized(keys, weights);
        assert(m.last() == (PackedBoundary(key), weights[key]));
        assert(indicator(key)(key) == 1);
        assert(weighted_sum(m, indicator(key)) == weighted_sum(m.drop_last(), indicator(key)) + (
        weights[key] as nat) * 1);
    } else {
        assert(rest.no_duplicates());
        assert(rest.contains(key)) by {
            let i = choose|i: int| 0 <= i < keys.len() && keys[i] == key;
            assert(i != keys.len() - 1);
            assert(rest[i] == key);
        }
        lemma_materialized_indicator(rest, weights, key);
        let m = materialized(keys, weights);
        assert(m.last().0.0 == keys.last());
        assert(indicator(key)(keys.last()) == 0);
        assert((m.last().1 as nat) * 0 == 0);
        assert(weighted_sum(m, indicator(key)) == weighted_sum(m.drop_last(), indicator(key)));
    }
}

/// Reversing a list of terms keeps its weighted sum.
proof fn lemma_weighted_sum_reverse(terms: Seq<(PackedBoundary, u128)>, g: spec_fn(u128) -> nat)
    ensures
        weighted_sum(terms.reverse(), g) == weighted_sum(terms, g),
    decreases terms.len(),
{
    if terms.len() > 0 {
        let rest = terms.drop_last();
        lemma_weighted_sum_reverse(rest, g);
        assert(terms.reverse() =~= seq![terms.last()] + rest.reverse());
        lemma_weighted_sum_concat(seq![terms.last()], rest.reverse(), g);
        let single = seq![terms.last()];
        assert(single.drop_last() =~= Seq::<(PackedBoundary, u128)>::empty());
        assert(weighted_sum(single.drop_last(), g) == 0);
        assert(single.last() == terms.last());
        assert(weighted_sum(single, g) == (terms.last().1 as nat) * g(terms.last().0.0));
        assert(weighted_sum(terms, g) == weighted_sum(rest, g) + (terms.last().1 as nat) * g(
            terms.last().0.0,
        ));
    }
}

/// Add the packed terms of one completed row into the layer map with checked
/// addition of the weights under each key.
fn accumulate(
    weights: &mut HashMap<u128, u128>,
    keys: &mut Vec<u128>,
    terms: &Vec<(BoundaryState, u128)>,
    n: usize,
    row: usize,
) -> (added: Result<(), String>)
    requires
        n <= 42,
        layer_ok(old(keys)@, old(weights)@),
    ensures
        added is Ok ==> layer_ok(final(keys)@, final(weights)@) && forall|g: spec_fn(u128) -> nat|
            #[trigger] weighted_sum(materialized(final(keys)@, final(weights)@), g) == weighted_sum(
                materialized(old(keys)@, old(weights)@),
                g,
            ) + weighted_sum(pack_terms(terms@, n as nat), g),
        added is Err ==> weighted_sum(materialized(old(keys)@, old(weights)@), unit_key())
            + weighted_sum(pack_terms(terms@, n as nat), unit_key()) > u128::MAX,
{
    let ghost start = materialized(keys@, weights@);
    let ghost all = pack_terms(terms@, n as nat);
    let mut j: usize = 0;
    while j < terms.len()
        invariant
            n <= 42,
            j <= terms@.len(),
            start == materialized(old(keys)@, old(weights)@),
            all == pack_terms(terms@, n as nat),
            layer_ok(keys@, weights@),
            forall|g: spec_fn(u128) -> nat|
                #[trigger] weighted_sum(materialized(keys@, weights@), g) == weighted_sum(start, g)
                    + weighted_sum(pack_terms(terms@.take(j as int), n as nat), g),
        decreases terms@.len() - j,
    {
        let (state, w) = terms[j];
        let key = PackedBoundary::pack(state, n).0;
        let ghost before = materialized(keys@, weights@);
        let ghost old_keys = keys@;
        let ghost old_weights = weights@;
        proof {
            assert(pack_terms(terms@.take(j as int + 1), n as nat) =~= pack_terms(
                terms@.take(j as int),
                n as nat,
            ).push((PackedBoundary(key), w)));
            assert(all.take(j as int + 1) =~= pack_terms(terms@.take(j as int + 1), n as nat));
            let pushed = pack_terms(terms@.take(j as int + 1), n as nat);
            assert(pushed.drop_last() =~= pack_terms(terms@.take(j as int), n as nat));
            assert(pushed.last() == (PackedBoundary(key), w));
            assert(unit_key()(key) == 1);
        }
        match weights.get(&key) {
            Some(current) => {
                let current = *current;
                proof {
                    assert(old_keys.contains(key));
                    lemma_materialized_indicator(old_keys, old_weights, key);
                    lemma_indicator_le_total(before, key);
                }
                match current.checked_add(w) {
                    Some(sum) => {
                        weights.insert(key, sum);
                        proof {
                            assert(weights@ == old_weights.insert(key, (old_weights[key] + w) as u128));
                            assert forall|g: spec_fn(u128) -> nat| #[trigger] weighted_sum(
                                materialized(keys@, weights@),
                                g,
                            ) == weighted_sum(start, g) + weighted_sum(
                                pack_terms(terms@.take(j as int + 1), n as nat),
                                g,
                            ) by {
                                lemma_materialized_add(old_keys, old_weights, key, w, g);
                            }
                        }
                    },
                    None => {
                        proof {
                            lemma_weighted_sum_prefix_le(all, j as int + 1, unit_key());
                            assert(weighted_sum(before, unit_key()) == weighted_sum(start, unit_key())
                                + weighted_sum(pack_terms(terms@.take(j as int), n as nat), unit_key()));
                            assert(weighted_sum(all.take(j as int + 1), unit_key()) == weighted_sum(
                                pack_terms(terms@.take(j as int), n as nat),
                                unit_key(),
                            ) + (w as nat) * 1);
                        }
                        return Err(message_with_number("coefficient overflow after row", row as u128 + 1));
                    },
                }
            },
            None => {
                weights.insert(key, w);
                keys.push(key);
                proof {
                    assert(!old_keys.contains(key));
                    assert(keys@.no_duplicates()) by {
                        assert forall|a: int, b: int| 0 <= a < b < keys@.len() implies keys@[a]
                            != keys@[b] by {
                            if b == keys@.len() - 1 {
                                assert(keys@[a] == old_keys[a]);
                            } else {
                                assert(keys@[a] == old_keys[a] && keys@[b] == old_keys[b]);
                            }
                        }
                    }
                    assert forall|k: u128| #[trigger] weights@.contains_key(k) <==> keys@.contains(k) by {
                        if keys@.contains(k) && k != key {
                            let i = choose|i: int| 0 <= i < keys@.len() && keys@[i] == k;
                            assert(i < old_keys.len());
                            assert(old_keys[i] == k);
                        }
                        if old_keys.contains(k) {
                            let i = choose|i: int| 0 <= i < old_keys.len() && old_keys[i] == k;
                            assert(keys@[i] == k);
                        }
                        assert(keys@[keys@.len() - 1] == key);
                    }
                    assert forall|g: spec_fn(u128) -> nat| #[trigger] weighted_sum(
                        materialized(keys@, weights@),
                        g,
                    ) == weighted_sum(start, g) + weighted_sum(
                        pack_terms(terms@.take(j as int + 1), n as nat),
                        g,
                    ) by {
                        lemma_materialized_push(old_keys, old_weights, key, w, g);
                    }
                }
            },
        }
        j = j + 1;
    }
    proof {
        assert(terms@.take(j as int) =~= terms@);
    }
    Ok(())
}

/// How one row is contracted: site by site with the explicit `C`, or with
/// the row transfer compiled from it.
#[derive(Clone, Copy, Debug, PartialEq, Eq, Structural)]
enum RowBackend {
    Sitewise,
    Compiled,
}

/// The terms of a layer map, in key arrival order.
fn materialize(weights: &HashMap<u128, u128>, keys: &Vec<u128>) -> (terms: Vec<(PackedBoundary, u128)>)
    requires
        layer_ok(keys@, weights@),
    ensures
        terms@ == materialized(keys@, weights@),
{
    let mut terms: Vec<(PackedBoundary, u128)> = Vec::new();
    let mut t: usize = 0;
    while t < keys.len()
        invariant
            layer_ok(keys@, weights@),
            t <= keys@.len(),
            terms@ == materialized(keys@.take(t as int), weights@),
        decreases keys@.len() - t,
    {
        let key = keys[t];
        proof {
            assert(keys@[t as int] == key);
            assert(keys@.contains(key));
        }
        let weight = *weights.get(&key).unwrap();
        terms.push((PackedBoundary(key), weight));
        proof {
            assert(materialized(keys@.take(t as int + 1), weights@) =~= materialized(
                keys@.take(t as int),
                weights@,
            ).push((PackedBoundary(key), weight)));
        }
        t = t + 1;
    }
    proof {
        assert(keys@.take(t as int) =~= keys@);
    }
    terms
}

/// The row terms of one parent contribute the parent's weight times its path
/// count one row further, whichever backend produced them.
proof fn lemma_row_terms_sum(
    n: nat,
    parent: BoundaryState,
    weight: u128,
    terms: Seq<(BoundaryState, u128)>,
    sitewise: bool,
)
    requires
        1 <= n <= 42,
        state_fits(parent, n),
        sitewise ==> terms == with_weight(row_successors(n, restrict_state(parent, n)), weight).reverse(),
        !sitewise ==> terms == with_weight(row_successors(n, parent), weight),
    ensures
        forall|j: nat, f: spec_fn(BoundaryState) -> nat|
            #[trigger] weighted_sum(pack_terms(terms, n), key_paths(n, j, f)) == (weight as nat) * paths(
                n,
                j + 1,
                parent,
                f,
            ),
{
    lemma_restrict_fits(parent, n);
    let plain = with_weight(row_successors(n, parent), weight);
    assert forall|j: nat, f: spec_fn(BoundaryState) -> nat| #[trigger] weighted_sum(
        pack_terms(terms, n),
        key_paths(n, j, f),
    ) == (weight as nat) * paths(n, j + 1, parent, f) by {
        lemma_expand_parent(n, parent, weight, j, f);
        if sitewise {
            assert(pack_terms(terms, n) =~= pack_terms(plain, n).reverse());
            lemma_weighted_sum_reverse(pack_terms(plain, n), key_paths(n, j, f));
        }
    }
}

/// Exact row-by-row contraction with hash-map layer materialization.
#[verifier::rlimit(60)]
fn contract_rows_with_backend(n: usize, row_backend: RowBackend) -> (result: Result<
    ContractionResult,
    String,
>)
    ensures
        contraction_spec(n as nat, false, result),
{
    proof {
        crate::certified::lemma_layers_fit_small(n as nat, false);
    }
    if n > 42 {
        return Err(message("the packed u128 virtual-boundary backend supports N <= 42"));
    }
    if n == 0 {
        proof {
            crate::sitewise::lemma_empty_board();
        }
        return Ok(
            ContractionResult {
                n,
                count: 1,
                elapsed: zero_duration(),
                peak_states: 1,
                tensor_entries_examined: 0,
                tensor_entries_matched: 0,
                row_operator_candidates: 0,
                row_operator_matched: 0,
                peak_rss_bytes: peak_rss_bytes(),
                layers: Vec::new(),
            },
        );
    }
    let tensor = SiteTensorC::sec_vi();
    let compiled_operator: Option<CompiledRowOperator> = match row_backend {
        RowBackend::Compiled => Some(CompiledRowOperator::compile(&tensor)?),
        RowBackend::Sitewise => None,
    };
    let initial = BoundaryState { columns: 0, diag_dr: 0, diag_dl: 0 };
    let mut boundary: Vec<(PackedBoundary, u128)> = Vec::new();
    boundary.push((PackedBoundary::pack(initial, n), 1u128));
    let mut peak_states: usize = 1;
    let mut total_tensor_examined: u128 = if compiled_operator.is_some() {
        17
    } else {
        0
    };
    let mut total_tensor_matched: u128 = if compiled_operator.is_some() {
        17
    } else {
        0
    };
    let mut total_operator_candidates: u128 = 0;
    let mut total_operator_matched: u128 = 0;
    let mut layers: Vec<LayerMetric> = Vec::with_capacity(n);
    let total_start = now();
    let ghost nn = n as nat;
    proof {
        lemma_empty_fits(nn);
        lemma_pack_round_trip(empty_state(), nn);
        assert(boundary@ =~= seq![(PackedBoundary(pack_spec(empty_state(), nn)), 1u128)]);
        assert forall|j: nat, f: spec_fn(BoundaryState) -> nat| #[trigger] weighted_sum(
            boundary@,
            key_paths(nn, j, f),
        ) == paths(nn, j, empty_state(), f) by {
            let single = boundary@;
            assert(single.drop_last().len() == 0);
            assert(weighted_sum(single.drop_last(), key_paths(nn, j, f)) == 0);
            assert(key_paths(nn, j, f)(pack_spec(empty_state(), nn)) == paths(nn, j, empty_state(), f));
        }
    }
    let mut row: usize = 0;
    while row < n
        invariant
            n <= 21 ==> crate::contract::layers_fit(n as nat, false),
            1 <= n <= 42,
            nn == n,
            row <= n,
            forall|j: nat, f: spec_fn(BoundaryState) -> nat|
                #[trigger] weighted_sum(boundary@, key_paths(nn, j, f)) == paths(
                    nn,
                    (row + j) as nat,
                    empty_state(),
                    f,
                ),
            forall|k: nat| 1 <= k <= row ==> #[trigger] layer_total(nn, k, false) <= u128::MAX,
            layers@.len() == row,
            forall|k: int|
                0 <= k < row ==> (#[trigger] layers@[k]).row == k && layers@[k].output_weight
                    == layer_total(nn, (k + 1) as nat, false),
            total_tensor_examined <= 17 + row * 0x1_0000_0000_0000_0000_0000,
            total_tensor_matched <= 17 + row * 0x1_0000_0000_0000_0000_0000,
            total_operator_candidates <= row * 0x1_0000_0000_0000_0000_0000,
            total_operator_matched <= row * 0x1_0000_0000_0000_0000_0000,
        decreases n - row,
    {
        let layer_start = now();
        let input_states = boundary.len();
        let mut counters = RowCounters::new();
        let mut completed: u128 = 0;
        let mut next: HashMap<u128, u128> = HashMap::new();
        let mut keys: Vec<u128> = Vec::new();
        proof {
            assert(materialized(keys@, next@) =~= Seq::<(PackedBoundary, u128)>::empty());
            assert(layer_ok(keys@, next@));
        }
        let parents_len = boundary.len();
        let mut i: usize = 0;
        while i < parents_len
            invariant
                n <= 21 ==> crate::contract::layers_fit(n as nat, false),
                1 <= n <= 42,
                nn == n,
                row < n,
                parents_len == boundary@.len(),
                i <= parents_len,
                layer_ok(keys@, next@),
                forall|j: nat, f: spec_fn(BoundaryState) -> nat|
                    #[trigger] weighted_sum(materialized(keys@, next@), key_paths(nn, j, f)) == weighted_sum(
                        boundary@.take(i as int),
                        key_paths(nn, j + 1, f),
                    ),
                forall|j: nat, f: spec_fn(BoundaryState) -> nat|
                    #[trigger] weighted_sum(boundary@, key_paths(nn, j, f)) == paths(
                        nn,
                        (row + j) as nat,
                        empty_state(),
                        f,
                    ),
                counters.tensor_examined <= i * 0x1_0000,
                counters.tensor_matched <= i * 0x1_0000,
                counters.operator_candidates <= i * 64,
                counters.operator_matched <= i * 64,
                completed <= i * 64,
            decreases parents_len - i,
        {
            let (packed, weight) = boundary[i];
            let parent = packed.unpack(n);
            proof {
                lemma_unpack_fits(packed.0, nn);
            }
            let row_terms = match &compiled_operator {
                Some(operator) => {
                    let terms = contract_one_row_compiled(n, operator, parent, weight, &mut counters)?;
                    proof {
                        lemma_successors_len(nn, parent, nn);
                        lemma_row_terms_sum(nn, parent, weight, terms@, false);
                    }
                    terms
                },
                None => {
                    let terms = contract_one_row_sitewise(n, &tensor, parent, weight, &mut counters)?;
                    proof {
                        lemma_restrict_fits(parent, nn);
                        lemma_successors_len(nn, parent, nn);
                        lemma_row_terms_sum(nn, parent, weight, terms@, true);
                    }
                    terms
                },
            };
            completed = completed + row_terms.len() as u128;
            let ghost before = materialized(keys@, next@);
            proof {
                crate::contract::lemma_weighted_sum_take_step(boundary@, i as int, key_paths(nn, 1, unit()));
                assert forall|j: nat, f: spec_fn(BoundaryState) -> nat| #[trigger] weighted_sum(
                    boundary@.take(i as int + 1),
                    key_paths(nn, j + 1, f),
                ) == weighted_sum(boundary@.take(i as int), key_paths(nn, j + 1, f)) + weighted_sum(
                    pack_terms(row_terms@, nn),
                    key_paths(nn, j, f),
                ) by {
                    crate::contract::lemma_weighted_sum_take_step(boundary@, i as int, key_paths(nn, j + 1, f));
                    assert(key_paths(nn, j + 1, f)(packed.0) == paths(nn, j + 1, parent, f));
                }
            }
            match accumulate(&mut next, &mut keys, &row_terms, n, row) {
                Ok(()) => {},
                Err(error) => {
                    proof {
                        lemma_key_paths_unit(nn);
                        lemma_weighted_sum_ext(before, key_paths(nn, 0, unit()), unit_key());
                        lemma_weighted_sum_ext(pack_terms(row_terms@, nn), key_paths(nn, 0, unit()), unit_key());
                        assert(weighted_sum(before, key_paths(nn, 0, unit())) == weighted_sum(
                            boundary@.take(i as int),
                            key_paths(nn, 0 + 1, unit()),
                        ));
                        lemma_weighted_sum_prefix_le(boundary@, i as int + 1, key_paths(nn, 1, unit()));
                        assert(weighted_sum(boundary@, key_paths(nn, 1, unit())) == paths(
                            nn,
                            (row + 1) as nat,
                            empty_state(),
                            unit(),
                        ));
                        assert(layer_total(nn, (row + 1) as nat, false) > u128::MAX);
                        assert(!layers_fit(nn, false));
                    }
                    return Err(error);
                },
            }
            i = i + 1;
        }
        proof {
            assert(boundary@.take(i as int) =~= boundary@);
        }
        let ghost parents = boundary@;
        let next_terms = materialize(&next, &keys);
        let ghost sorted = next_terms@;
        proof {
            lemma_key_paths_unit(nn);
            lemma_weighted_sum_ext(sorted, key_paths(nn, 0, unit()), unit_key());
            assert(weighted_sum(sorted, key_paths(nn, 0, unit())) == paths(
                nn,
                (row + 1 + 0) as nat,
                empty_state(),
                unit(),
            ));
            assert(weighted_sum(sorted, unit_key()) == layer_total(nn, (row + 1) as nat, false));
        }
        boundary = next_terms;
        let output_weight = match sum_weights(&boundary, row) {
            Ok(weight) => weight,
            Err(error) => {
                proof {
                    assert(layer_total(nn, (row + 1) as nat, false) > u128::MAX);
                    assert(!layers_fit(nn, false));
                }
                return Err(error);
            },
        };
        if boundary.len() > peak_states {
            peak_states = boundary.len();
        }
        total_tensor_examined = total_tensor_examined + counters.tensor_examined;
        total_tensor_matched = total_tensor_matched + counters.tensor_matched;
        total_operator_candidates = total_operator_candidates + counters.operator_candidates;
        total_operator_matched = total_operator_matched + counters.operator_matched;
        layers.push(
            LayerMetric {
                row,
                input_states,
                tensor_entries_examined: counters.tensor_examined,
                tensor_entries_matched: counters.tensor_matched,
                row_operator_candidates: counters.operator_candidates,
                row_operator_matched: counters.operator_matched,
                completed_row_terms: completed,
                output_states: boundary.len(),
                output_weight,
                elapsed: elapsed(&layer_start),
                peak_rss_bytes: peak_rss_bytes(),
            },
        );
        proof {
            assert forall|j: nat, f: spec_fn(BoundaryState) -> nat| #[trigger] weighted_sum(
                boundary@,
                key_paths(nn, j, f),
            ) == paths(nn, (row + 1 + j) as nat, empty_state(), f) by {
                assert(weighted_sum(sorted, key_paths(nn, j, f)) == weighted_sum(
                    materialized(keys@, next@),
                    key_paths(nn, j, f),
                ));
                assert(weighted_sum(parents, key_paths(nn, j + 1, f)) == paths(
                    nn,
                    (row + (j + 1)) as nat,
                    empty_state(),
                    f,
                ));
            }
            assert forall|k: nat| 1 <= k <= row + 1 implies #[trigger] layer_total(nn, k, false)
                <= u128::MAX by {
                if k == row + 1 {
                    assert(output_weight == layer_total(nn, k, false));
                }
            }
        }
        row = row + 1;
    }
    proof {
        assert(weighted_sum(boundary@, key_paths(nn, 0, accept(nn))) == paths(nn, (n + 0) as nat, empty_state(), accept(nn)));
        assert(weighted_sum(boundary@, key_paths(nn, 0, unit())) == layer_total(nn, nn, false));
        lemma_key_paths_unit(nn);
        lemma_weighted_sum_ext(boundary@, key_paths(nn, 0, unit()), unit_key());
    }
    let count = final_count(n, &boundary)?;
    Ok(
        ContractionResult {
            n,
            count,
            elapsed: elapsed(&total_start),
            peak_states,
            tensor_entries_examined: total_tensor_examined,
            tensor_entries_matched: total_tensor_matched,
            row_operator_candidates: total_operator_candidates,
            row_operator_matched: total_operator_matched,
            peak_rss_bytes: peak_rss_bytes(),
            layers,
        },
    )
}

/// Exact row contraction with the compiled row transfer and hash-map layer
/// materialization: an independent reference for the sort-reduce backends.
pub fn contract_rows_hash_materialization(n: usize) -> (result: Result<ContractionResult, String>)
    ensures
        contraction_spec(n as nat, false, result),
{
    contract_rows_with_backend(n, RowBackend::Compiled)
}

/// Exact row contraction applying the explicit `C` at every site: the
/// reference backend for tensor-level checks.
pub fn contract_rows_sitewise(n: usize) -> (result: Result<ContractionResult, String>)
    ensures
        contraction_spec(n as nat, false, result),
{
    contract_rows_with_backend(n, RowBackend::Sitewise)
}

} // verus!
