//! The reflection-sliced contraction over layers of packed entries held in
//! shards: each row is generated (serially, or over ranges of source shards
//! in parallel), then every shard is sorted and reduced in parallel.
use vstd::prelude::*;

use crate::boundary::{BoundaryState, PackedBoundary, board_mask, board_mask_spec, empty_state, pack_spec};
use crate::contract::{ContractionResult, LayerMetric, keys_sorted, keys_strictly_sorted, lemma_weighted_sum_take_step};
use crate::entries::{
    EntryLayout, LayerEntry, entries_sum, groups_within, lemma_entries_shard_le_sum,
    lemma_entries_sum_agree, lemma_entries_sum_ext, lemma_entries_sum_mono, lemma_entries_sum_prefix_le,
    lemma_entries_sum_push, lemma_entries_sum_take, lemma_entries_sum_zero, reduce_sorted_entries, terms_of,
};
use crate::transfer::{
    accept, indicator, key_paths, layer_total, lemma_indicator_le_total, lemma_key_paths_accept_le,
    lemma_key_paths_unit, rooted, unit, unit_key, weighted_sum,
};
use crate::generation::{
    LocalGeneration, covers, empty_entry_shards, generate_range, initial_term, lemma_shards_successors_orbit,
    lemma_shards_successors_paths, lemma_shards_successors_split, only_initial, par_generate, point,
    shards_successors_sum, source_ranges,
};
use crate::row::{CompiledRowOperator, RowCounters};
use crate::sharded::{ShardMode, shard_index, valid_shards};
use crate::tensor::SiteTensorC;
use crate::util::{add_durations, elapsed, message, message_with_number, now, peak_rss_bytes, zero_duration};
use std::time::Duration;
use rayon::iter::{IntoParallelRefMutIterator, ParallelIterator};

verus! {

/// The number of items over all vectors of `shards`.
pub open spec fn lens_sum<T>(shards: Seq<Vec<T>>) -> nat
    decreases shards.len(),
{
    if shards.len() == 0 {
        0
    } else {
        lens_sum(shards.drop_last()) + shards.last()@.len()
    }
}

/// `value`, or `usize::MAX` past it.
pub open spec fn capped(value: nat) -> usize {
    if value <= usize::MAX {
        value as usize
    } else {
        usize::MAX
    }
}

pub(crate) proof fn lemma_lens_sum_take<T>(shards: Seq<Vec<T>>, s: int)
    requires
        0 <= s < shards.len(),
    ensures
        lens_sum(shards.take(s + 1)) == lens_sum(shards.take(s)) + shards[s]@.len(),
{
    assert(shards.take(s + 1).drop_last() =~= shards.take(s));
}

/// The number of terms over all shards, staying at `usize::MAX`.
pub fn total_entries<E>(shards: &Vec<Vec<E>>) -> (total: usize)
    ensures
        total == capped(lens_sum(shards@)),
{
    let mut total: usize = 0;
    let mut s: usize = 0;
    proof {
        assert(shards@.take(0) =~= Seq::<Vec<E>>::empty());
    }
    while s < shards.len()
        invariant
            s <= shards@.len(),
            total == capped(lens_sum(shards@.take(s as int))),
        decreases shards@.len() - s,
    {
        proof {
            lemma_lens_sum_take(shards@, s as int);
        }
        total = total.saturating_add(shards[s].len());
        s = s + 1;
    }
    proof {
        assert(shards@.take(shards@.len() as int) =~= shards@);
    }
    total
}

/// The total weight over all shards, with checked addition.
pub fn entries_weight<E: LayerEntry>(shards: &Vec<Vec<E>>, layout: EntryLayout, row: usize) -> (total:
    Result<u128, String>)
    requires
        E::layout_ok(layout),
    ensures
        total is Ok <==> entries_sum(shards@, layout, unit_key()) <= u128::MAX,
        total matches Ok(t) ==> t == entries_sum(shards@, layout, unit_key()),
{
    let mut sum: u128 = 0;
    let mut s: usize = 0;
    while s < shards.len()
        invariant
            E::layout_ok(layout),
            s <= shards@.len(),
            sum == entries_sum(shards@.take(s as int), layout, unit_key()),
        decreases shards@.len() - s,
    {
        let ghost terms = terms_of(shards@[s as int]@, layout);
        proof {
            lemma_entries_sum_take(shards@, s as int, layout, unit_key());
            lemma_entries_sum_prefix_le(shards@, s as int + 1, layout, unit_key());
        }
        let len = shards[s].len();
        let mut e: usize = 0;
        while e < len
            invariant
                E::layout_ok(layout),
                s < shards@.len(),
                terms == terms_of(shards@[s as int]@, layout),
                len == terms.len(),
                e <= len,
                sum == entries_sum(shards@.take(s as int), layout, unit_key()) + weighted_sum(
                    terms.take(e as int),
                    unit_key(),
                ),
                entries_sum(shards@.take(s as int + 1), layout, unit_key()) <= entries_sum(
                    shards@,
                    layout,
                    unit_key(),
                ),
                entries_sum(shards@.take(s as int + 1), layout, unit_key()) == entries_sum(
                    shards@.take(s as int),
                    layout,
                    unit_key(),
                ) + weighted_sum(terms, unit_key()),
            decreases len - e,
        {
            let w = shards[s][e].stored_weight(layout);
            proof {
                lemma_weighted_sum_take_step(terms, e as int, unit_key());
                assert(terms[e as int].1 == w);
                assert(unit_key()(terms[e as int].0.0) == 1);
                assert((w as nat) * 1 == w);
                crate::contract::lemma_weighted_sum_prefix_le(terms, e as int + 1, unit_key());
            }
            sum = match sum.checked_add(w) {
                Some(t) => t,
                None => {
                    return Err(message_with_number("coefficient sum overflow after row", row as u128 + 1));
                },
            };
            e = e + 1;
        }
        proof {
            assert(terms.take(e as int) =~= terms);
        }
        s = s + 1;
    }
    proof {
        assert(shards@.take(s as int) =~= shards@);
    }
    Ok(sum)
}

/// The weight of the accepted terms over all shards: those with a signal in
/// every column line.
pub fn entries_count<E: LayerEntry>(n: usize, shards: &Vec<Vec<E>>, layout: EntryLayout) -> (count:
    Result<u128, String>)
    requires
        1 <= n <= 21,
        E::layout_ok(layout),
    ensures
        entries_sum(shards@, layout, unit_key()) <= u128::MAX ==> count is Ok,
        count matches Ok(c) ==> c == entries_sum(shards@, layout, key_paths(n as nat, 0, accept(n as nat))),
{
    let ghost g = key_paths(n as nat, 0, accept(n as nat));
    let board = board_mask(n);
    proof {
        lemma_key_paths_accept_le(n as nat);
        lemma_entries_sum_mono(shards@, layout, g, unit_key());
    }
    let mut sum: u128 = 0;
    let mut s: usize = 0;
    while s < shards.len()
        invariant
            1 <= n <= 21,
            E::layout_ok(layout),
            board == board_mask_spec(n as nat),
            g == key_paths(n as nat, 0, accept(n as nat)),
            s <= shards@.len(),
            sum == entries_sum(shards@.take(s as int), layout, g),
            entries_sum(shards@, layout, g) <= entries_sum(shards@, layout, unit_key()),
        decreases shards@.len() - s,
    {
        let ghost terms = terms_of(shards@[s as int]@, layout);
        proof {
            lemma_entries_sum_take(shards@, s as int, layout, g);
            lemma_entries_sum_prefix_le(shards@, s as int + 1, layout, g);
        }
        let len = shards[s].len();
        let mut e: usize = 0;
        while e < len
            invariant
                1 <= n <= 21,
                E::layout_ok(layout),
                board == board_mask_spec(n as nat),
                g == key_paths(n as nat, 0, accept(n as nat)),
                s < shards@.len(),
                terms == terms_of(shards@[s as int]@, layout),
                len == terms.len(),
                e <= len,
                sum == entries_sum(shards@.take(s as int), layout, g) + weighted_sum(terms.take(e as int), g),
                entries_sum(shards@.take(s as int + 1), layout, g) <= entries_sum(shards@, layout, g),
                entries_sum(shards@, layout, g) <= entries_sum(shards@, layout, unit_key()),
                entries_sum(shards@.take(s as int + 1), layout, g) == entries_sum(shards@.take(s as int), layout, g)
                    + weighted_sum(terms, g),
            decreases len - e,
        {
            let entry = shards[s][e];
            let key = entry.stored_key(layout);
            let w = entry.stored_weight(layout);
            proof {
                lemma_weighted_sum_take_step(terms, e as int, g);
                assert(terms[e as int] == (PackedBoundary(key as u128), w));
                let u = g(terms[e as int].0.0);
                let wn = w as nat;
                assert(u == 0 ==> wn * u == 0) by (nonlinear_arith);
                assert(u == 1 ==> wn * u == wn) by (nonlinear_arith);
                crate::contract::lemma_weighted_sum_prefix_le(terms, e as int + 1, g);
            }
            if PackedBoundary(key as u128).columns(n) == board {
                sum = match sum.checked_add(w) {
                    Some(t) => t,
                    None => {
                        return Err(message("final coefficient sum overflow"));
                    },
                };
            }
            e = e + 1;
        }
        proof {
            assert(terms.take(e as int) =~= terms);
        }
        s = s + 1;
    }
    proof {
        assert(shards@.take(s as int) =~= shards@);
    }
    Ok(sum)
}

/// Sorts a shard by stored key with `slice::sort_unstable_by_key`. The
/// contract states what the standard library documents: the result is a
/// reordering of the input in non-decreasing key order. Which of two entries
/// with equal keys comes first is not stated.
#[verifier::external_body]
fn sort_entries_by_key<E: LayerEntry>(shard: &mut Vec<E>, layout: EntryLayout)
    requires
        E::layout_ok(layout),
    ensures
        terms_of(final(shard)@, layout).to_multiset() == terms_of(old(shard)@, layout).to_multiset(),
        keys_sorted(terms_of(final(shard)@, layout)),
{
    shard.sort_unstable_by_key(|entry| entry.stored_key(layout));
}

/// `after` holds the terms of `before`, sorted by key with equal keys
/// merged.
pub open spec fn entries_reduced<E: LayerEntry>(before: Seq<E>, after: Seq<E>, layout: EntryLayout) -> bool {
    &&& keys_strictly_sorted(terms_of(after, layout))
    &&& forall|g: spec_fn(u128) -> nat|
        #[trigger] weighted_sum(terms_of(after, layout), g) == weighted_sum(terms_of(before, layout), g)
}

/// Sort one shard by key.
pub fn sort_shard<E: LayerEntry>(shard: &mut Vec<E>, layout: EntryLayout)
    requires
        E::layout_ok(layout),
    ensures
        keys_sorted(terms_of(final(shard)@, layout)),
        forall|g: spec_fn(u128) -> nat|
            #[trigger] weighted_sum(terms_of(final(shard)@, layout), g) == weighted_sum(
                terms_of(old(shard)@, layout),
                g,
            ),
        forall|key: u128|
            #[trigger] weighted_sum(terms_of(final(shard)@, layout), indicator(key)) == weighted_sum(
                terms_of(old(shard)@, layout),
                indicator(key),
            ),
{
    let ghost before = terms_of(shard@, layout);
    sort_entries_by_key(shard, layout);
    proof {
        let after = terms_of(shard@, layout);
        assert forall|g: spec_fn(u128) -> nat| #[trigger] weighted_sum(after, g) == weighted_sum(before, g) by {
            crate::transfer::lemma_weighted_sum_permutation(before, after, g);
        }
        assert forall|key: u128| #[trigger] weighted_sum(after, indicator(key)) == weighted_sum(
            before,
            indicator(key),
        ) by {
            crate::transfer::lemma_weighted_sum_permutation(before, after, indicator(key));
        }
    }
}

/// Sorts every shard with `sort_shard`, the shards in parallel through
/// rayon's `par_iter_mut` and `for_each`, which calls the closure on each
/// shard once. Stated: every shard is what `sort_shard` ensures of it.
#[verifier::external_body]
fn par_sort_shards<E: LayerEntry + Send + Sync>(shards: &mut Vec<Vec<E>>, layout: EntryLayout)
    requires
        E::layout_ok(layout),
    ensures
        final(shards)@.len() == old(shards)@.len(),
        forall|t: int|
            0 <= t < old(shards)@.len() ==> keys_sorted(terms_of((#[trigger] final(shards)@[t])@, layout)),
        forall|t: int, g: spec_fn(u128) -> nat|
            0 <= t < old(shards)@.len() ==> #[trigger] weighted_sum(terms_of(final(shards)@[t]@, layout), g)
                == weighted_sum(terms_of(old(shards)@[t]@, layout), g),
{
    shards.par_iter_mut().for_each(|shard| sort_shard(shard, layout));
}

/// Reduce one key-sorted shard, returning the largest coefficient stored in
/// it (at least one).
pub fn reduce_shard<E: LayerEntry>(shard: &mut Vec<E>, layout: EntryLayout, row: usize) -> (reduced:
    Result<u128, String>)
    requires
        E::layout_ok(layout),
        keys_sorted(terms_of(old(shard)@, layout)),
    ensures
        reduced is Ok <==> groups_within(terms_of(old(shard)@, layout), E::weight_limit(layout)),
        reduced is Ok ==> entries_reduced(old(shard)@, final(shard)@, layout),
{
    let mut shard_max: u128 = 1;
    match reduce_sorted_entries(shard, layout, row, &mut shard_max) {
        Ok(()) => Ok(shard_max),
        Err(error) => Err(error),
    }
}

/// Reduces every shard with `reduce_shard`, the shards in parallel through
/// rayon's `par_iter_mut`, `map` and `collect` into a `Result`, which returns
/// `Ok` with the results in shard order when every call returned `Ok`, and
/// otherwise one of the errors. Stated: on success every shard was reduced
/// and one maximum is returned per shard; on failure some shard has a key
/// whose coefficients outgrow the limit. The contents of the shards after a
/// failure are not stated.
#[verifier::external_body]
fn par_reduce_shards<E: LayerEntry + Send + Sync>(shards: &mut Vec<Vec<E>>, layout: EntryLayout, row: usize) -> (reduced:
    Result<Vec<u128>, String>)
    requires
        E::layout_ok(layout),
        forall|t: int| 0 <= t < old(shards)@.len() ==> keys_sorted(terms_of((#[trigger] old(shards)@[t])@, layout)),
    ensures
        final(shards)@.len() == old(shards)@.len(),
        reduced is Ok ==> forall|t: int|
            0 <= t < old(shards)@.len() ==> entries_reduced(
                (#[trigger] old(shards)@[t])@,
                final(shards)@[t]@,
                layout,
            ),
        reduced is Err ==> exists|t: int|
            0 <= t < old(shards)@.len() && !groups_within(
                terms_of((#[trigger] old(shards)@[t])@, layout),
                E::weight_limit(layout),
            ),
{
    shards.par_iter_mut().map(|shard| reduce_shard(shard, layout, row)).collect()
}

/// The number of worker threads of rayon's current pool, by
/// `rayon::current_num_threads`. Nothing is stated of it.
#[verifier::external_body]
pub(crate) fn worker_count() -> usize {
    rayon::current_num_threads()
}

/// The capacity of a vector, by `Vec::capacity`. Nothing is stated of it: it
/// is what the allocator gave.
#[verifier::external_body]
fn vec_capacity<T>(v: &Vec<T>) -> usize {
    v.capacity()
}

/// The bytes reserved by all shards, staying at `usize::MAX`.
pub fn shards_capacity_bytes<E>(shards: &Vec<Vec<E>>) -> usize {
    let entry_bytes = core::mem::size_of::<E>();
    let mut total: usize = 0;
    let mut s: usize = 0;
    while s < shards.len()
        invariant
            s <= shards@.len(),
        decreases shards@.len() - s,
    {
        let bytes = match vec_capacity(&shards[s]).checked_mul(entry_bytes) {
            Some(b) => b,
            None => usize::MAX,
        };
        total = total.saturating_add(bytes);
        s = s + 1;
    }
    total
}

/// A contraction whose rows are generated in parallel, with the time spent
/// in each phase.
#[derive(Debug)]
pub struct ParallelGenerationResult {
    pub contraction: ContractionResult,
    pub generation_elapsed: Duration,
    pub sort_elapsed: Duration,
    pub reduce_elapsed: Duration,
    pub peak_thread_local_bytes: usize,
    pub peak_worker_partials: usize,
}

/// How much destination capacity was reused across rows.
#[derive(Clone, Copy, Debug)]
pub struct ArenaReuseMetrics {
    pub total_reused_capacity_bytes: usize,
    pub total_destination_growth_bytes: usize,
    pub peak_spare_capacity_bytes: usize,
}

/// A contraction over packed entries: the report, the largest coefficient
/// seen, the capacity reuse, and the last layer.
pub struct PackedKernelResult<E> {
    pub parallel: ParallelGenerationResult,
    pub max_coefficient_observed: u128,
    pub reuse: ArenaReuseMetrics,
    pub boundary: Vec<Vec<E>>,
}

/// Why a packed contraction stopped: the message, and whether a coefficient
/// outgrew what the entries can store (rather than a sum outgrowing `u128`).
pub struct KernelFailure {
    pub message: String,
    pub outgrown: bool,
}

/// A failure that is not a coefficient outgrowing its entry.
fn sum_failure(message: String) -> (failure: KernelFailure)
    ensures
        !failure.outgrown,
        failure.message == message,
{
    KernelFailure { message, outgrown: false }
}

/// A coefficient outgrew what the entries can store.
fn outgrown_failure(message: String) -> (failure: KernelFailure)
    ensures
        failure.outgrown,
{
    KernelFailure { message, outgrown: true }
}

/// The total weight of every layer of the first `rows` rows fits `u128`.
pub open spec fn layers_fit_upto(n: nat, rows: nat) -> bool {
    forall|k: nat| 1 <= k <= rows ==> #[trigger] layer_total(n, k, true) <= u128::MAX
}

/// The weight each of the first `rows` layers gathers on any one frontier is
/// at most `limit`: every coefficient the layers hold.
pub open spec fn coefficients_within(n: nat, rows: nat, limit: nat) -> bool {
    forall|k: nat, s: BoundaryState| 1 <= k <= rows ==> #[trigger] rooted(n, k, true, point(s)) <= limit
}

/// The total weight of each of the first `rows` layers is at most `limit`:
/// then no coefficient of those layers exceeds it.
pub open spec fn layers_within(n: nat, rows: nat, limit: nat) -> bool {
    forall|k: nat| 1 <= k <= rows ==> #[trigger] layer_total(n, k, true) <= limit
}

/// A report of the first `rows` rows of the reflection-sliced contraction.
pub open spec fn prefix_contraction(n: nat, rows: nat, r: ContractionResult) -> bool {
    &&& r.n == n
    &&& r.count == rooted(n, rows, true, accept(n))
    &&& r.layers@.len() == rows
    &&& forall|k: int|
        0 <= k < rows ==> (#[trigger] r.layers@[k]).row == k && r.layers@[k].output_weight == layer_total(
            n,
            (k + 1) as nat,
            true,
        )
}

/// The layer after the first `rows` rows: summed against the paths of any
/// further rows it gives the rooted counts.
pub open spec fn prefix_boundary<E: LayerEntry>(n: nat, rows: nat, layout: EntryLayout, boundary: Seq<Vec<E>>) -> bool {
    &&& forall|f: spec_fn(BoundaryState) -> nat|
        #[trigger] entries_sum(boundary, layout, key_paths(n, 0, f)) == rooted(n, rows, true, f)
    &&& rows > 0 ==> forall|j: nat, f: spec_fn(BoundaryState) -> nat|
        #[trigger] entries_sum(boundary, layout, key_paths(n, j, f)) == rooted(n, rows + j, true, f)
}

/// Empty every shard.
fn clear_shards<E>(shards: &mut Vec<Vec<E>>)
    ensures
        final(shards)@.len() == old(shards)@.len(),
        forall|t: int| 0 <= t < final(shards)@.len() ==> (#[trigger] final(shards)@[t])@.len() == 0,
{
    let mut s: usize = 0;
    while s < shards.len()
        invariant
            s <= shards@.len(),
            shards@.len() == old(shards)@.len(),
            forall|t: int| 0 <= t < s ==> (#[trigger] shards@[t])@.len() == 0,
        decreases shards@.len() - s,
    {
        shards[s].clear();
        s = s + 1;
    }
}

/// The reflection-sliced contraction of the first `stop_after_rows` rows of
/// a board of width `n` over layers of packed entries held in `shards`
/// shards. Rows are generated serially, or over ranges of source shards in
/// parallel when `parallel`; with `reuse_arenas` the shards of the previous
/// layer are emptied and reused as the next destination.
#[verifier::rlimit(100)]
#[verifier::spinoff_prover]
pub fn packed_kernel<E: LayerEntry + Send + Sync>(
    n: usize,
    shards: usize,
    layout: EntryLayout,
    parallel: bool,
    reuse_arenas: bool,
    stop_after_rows: usize,
) -> (result: Result<PackedKernelResult<E>, KernelFailure>)
    requires
        1 <= n <= 21,
        valid_shards(shards as nat),
        stop_after_rows <= n,
        E::layout_ok(layout),
        E::supports_width(n as nat, layout),
        E::weight_limit(layout) >= 1,
    ensures
        result matches Ok(r) ==> {
            &&& prefix_contraction(n as nat, stop_after_rows as nat, r.parallel.contraction)
            &&& r.boundary@.len() == shards
            &&& prefix_boundary(n as nat, stop_after_rows as nat, layout, r.boundary@)
        },
        result is Ok ==> layers_fit_upto(n as nat, stop_after_rows as nat),
        E::weight_limit(layout) == u128::MAX ==> (result is Ok <==> layers_fit_upto(
            n as nat,
            stop_after_rows as nat,
        )),
        result matches Err(failure) ==> (!failure.outgrown ==> !layers_fit_upto(
            n as nat,
            stop_after_rows as nat,
        )),
        result matches Err(failure) ==> (failure.outgrown ==> !layers_within(
            n as nat,
            stop_after_rows as nat,
            E::weight_limit(layout),
        )),
        result matches Err(failure) ==> (failure.outgrown ==> !coefficients_within(
            n as nat,
            stop_after_rows as nat,
            E::weight_limit(layout),
        )),
{
    let ghost nn = n as nat;
    let ghost stop = stop_after_rows as nat;
    let ghost limit = E::weight_limit(layout);
    let tensor = SiteTensorC::sec_vi();
    let operator = match CompiledRowOperator::compile(&tensor) {
        Ok(operator) => operator,
        Err(error) => {
            return Err(sum_failure(error));
        },
    };
    let initial = BoundaryState { columns: 0, diag_dr: 0, diag_dl: 0 };
    let initial_packed = PackedBoundary::pack(initial, n);
    proof {
        crate::contract::lemma_empty_fits(nn);
        crate::boundary::lemma_pack_round_trip(empty_state(), nn);
        crate::joint::lemma_pack_fits_u64(empty_state(), nn);
        E::lemma_key_ok(pack_spec(empty_state(), nn) as u64, nn, layout);
    }
    if initial_packed.0 > u64::MAX as u128 {
        return Err(sum_failure(message("initial compact key does not fit u64")));
    }
    let initial_key = initial_packed.0 as u64;
    let mut boundary: Vec<Vec<E>> = empty_entry_shards(shards);
    let ghost empty_layer = boundary@;
    let first = shard_index(initial_key as u128, n, shards, ShardMode::Prefix);
    let initial_entry = E::store(initial_key, 1, layout);
    boundary[first].push(initial_entry);
    proof {
        assert(initial_entry.term(layout) == initial_term(nn));
        assert forall|g: spec_fn(u128) -> nat| #[trigger] entries_sum(boundary@, layout, g) == g(
            pack_spec(empty_state(), nn),
        ) by {
            lemma_entries_sum_zero(empty_layer, layout, g);
            assert(boundary@[first as int]@ == empty_layer[first as int]@.push(initial_entry));
            lemma_entries_sum_push(empty_layer, boundary@, first as int, initial_entry, layout, g);
            let k = pack_spec(empty_state(), nn);
            assert((1nat) * g(k) == g(k));
        }
        assert(entries_sum(boundary@, layout, unit_key()) == 1);
        assert forall|t: int, i: int| 0 <= t < boundary@.len() && 0 <= i < boundary@[t]@.len()
            implies #[trigger] terms_of(boundary@[t]@, layout)[i] == initial_term(nn) by {
            if t != first {
                assert(boundary@[t]@ == empty_layer[t]@);
            } else {
                assert(boundary@[t]@ =~= seq![initial_entry]);
            }
        }
    }
    let mut spare: Vec<Vec<E>> = if reuse_arenas {
        empty_entry_shards(shards)
    } else {
        Vec::new()
    };
    let mut peak_states: usize = 1;
    let mut total_operator_candidates: u128 = 0;
    let mut total_operator_matched: u128 = 0;
    let mut layers: Vec<LayerMetric> = Vec::with_capacity(stop_after_rows);
    let mut generation_elapsed = zero_duration();
    let mut sort_elapsed = zero_duration();
    let mut reduce_elapsed = zero_duration();
    let mut peak_thread_local_bytes: usize = 0;
    let mut peak_worker_partials: usize = 0;
    let mut max_coefficient_observed: u128 = 1;
    let mut reuse = ArenaReuseMetrics {
        total_reused_capacity_bytes: 0,
        total_destination_growth_bytes: 0,
        peak_spare_capacity_bytes: 0,
    };
    let total_start = now();
    let mut row: usize = 0;
    while row < stop_after_rows
        invariant
            1 <= n <= 21,
            nn == n,
            stop == stop_after_rows,
            stop <= n,
            row <= stop,
            valid_shards(shards as nat),
            E::layout_ok(layout),
            E::supports_width(nn, layout),
            limit == E::weight_limit(layout),
            limit >= 1,
            boundary@.len() == shards,
            reuse_arenas ==> spare@.len() == shards,
            reuse_arenas ==> forall|t: int| 0 <= t < shards ==> (#[trigger] spare@[t])@.len() == 0,
            row == 0 ==> forall|g: spec_fn(u128) -> nat|
                #[trigger] entries_sum(boundary@, layout, g) == g(pack_spec(empty_state(), nn)),
            row == 0 ==> only_initial(boundary@, layout, nn),
            row > 0 ==> forall|j: nat, f: spec_fn(BoundaryState) -> nat|
                #[trigger] entries_sum(boundary@, layout, key_paths(nn, j, f)) == rooted(
                    nn,
                    (row + j) as nat,
                    true,
                    f,
                ),
            layers_fit_upto(nn, row as nat),
            layers@.len() == row,
            forall|k: int|
                0 <= k < row ==> (#[trigger] layers@[k]).row == k && layers@[k].output_weight
                    == layer_total(nn, (k + 1) as nat, true),
            total_operator_candidates <= row * 0x1_0000_0000_0000_0000_0000_0000,
            total_operator_matched <= row * 0x1_0000_0000_0000_0000_0000_0000,
        decreases stop_after_rows - row,
    {
        let layer_start = now();
        let input_states = total_entries(&boundary);
        let generation_start = now();
        let top_row = row == 0;
        let mut destination: Vec<Vec<E>> = if reuse_arenas {
            let mut taken: Vec<Vec<E>> = Vec::new();
            std::mem::swap(&mut taken, &mut spare);
            taken
        } else {
            empty_entry_shards(shards)
        };
        let ghost empty_destination = destination@;
        proof {
            assert forall|g: spec_fn(u128) -> nat| #[trigger] entries_sum(empty_destination, layout, g) == 0 by {
                lemma_entries_sum_zero(empty_destination, layout, g);
            }
        }
        let initial_capacity = shards_capacity_bytes(&destination);
        reuse.total_reused_capacity_bytes = reuse.total_reused_capacity_bytes.saturating_add(initial_capacity);
        if initial_capacity > reuse.peak_spare_capacity_bytes {
            reuse.peak_spare_capacity_bytes = initial_capacity;
        }
        let mut counters = RowCounters::new();
        let mut completed: u128 = 0;
        proof {
            crate::generation::lemma_next_layer(boundary@, layout, nn, row as nat, top_row);
            lemma_key_paths_unit(nn);
        }
        if parallel {
            let workers = worker_count();
            let ranges = source_ranges(&boundary, input_states, workers);
            proof {
                crate::generation::lemma_covers_bounds(ranges@, shards as nat, 0);
            }
            let mut partials = par_generate(n, &operator, &boundary, &ranges, shards, top_row, layout, row);
            if partials.len() > peak_worker_partials {
                peak_worker_partials = partials.len();
            }
            let mut local_bytes: usize = 0;
            let mut i: usize = partials.len();
            proof {
                assert(boundary@.subrange(shards as int, shards as int).len() == 0);
            }
            while i > 0
                invariant
                    1 <= n <= 21,
                    nn == n,
                    valid_shards(shards as nat),
                    E::layout_ok(layout),
                    limit == E::weight_limit(layout),
                    boundary@.len() == shards,
                    covers(ranges@, shards as nat),
                    partials@.len() == i,
                    i <= ranges@.len(),
                    destination@.len() == shards,
                    forall|k: int|
                        0 <= k < i ==> crate::generation::local_generated(
                            boundary@,
                            (#[trigger] ranges@[k]).0 as int,
                            ranges@[k].1 as int,
                            shards as nat,
                            nn,
                            top_row,
                            layout,
                            partials@[k],
                        ),
                    forall|g: spec_fn(u128) -> nat|
                        #[trigger] entries_sum(destination@, layout, g) == shards_successors_sum(
                            boundary@.subrange(
                                if i == ranges@.len() {
                                    shards as int
                                } else {
                                    ranges@[i as int].0 as int
                                },
                                shards as int,
                            ),
                            layout,
                            nn,
                            top_row,
                            g,
                        ),
                    counters.operator_candidates <= (shards - (if i == ranges@.len() {
                        shards as int
                    } else {
                        ranges@[i as int].0 as int
                    })) * 0x100_0000_0000_0000_0000,
                    counters.operator_matched <= (shards - (if i == ranges@.len() {
                        shards as int
                    } else {
                        ranges@[i as int].0 as int
                    })) * 0x100_0000_0000_0000_0000,
                    completed <= (shards - (if i == ranges@.len() {
                        shards as int
                    } else {
                        ranges@[i as int].0 as int
                    })) * 0x100_0000_0000_0000_0000,
                    counters.tensor_examined == 0,
                    counters.tensor_matched == 0,
                    row < stop_after_rows,
                    top_row == (row == 0),
                    forall|j: nat, f: spec_fn(BoundaryState) -> nat|
                        #[trigger] shards_successors_sum(boundary@, layout, nn, top_row, key_paths(nn, j, f))
                            == rooted(nn, (row + 1 + j) as nat, true, f),
                    forall|k: u128| #[trigger] key_paths(nn, 0, unit())(k) == unit_key()(k),
                decreases i,
            {
                i = i - 1;
                let ghost range = ranges@[i as int];
                let ghost covered = if i + 1 == ranges@.len() {
                    shards as int
                } else {
                    ranges@[i + 1].0 as int
                };
                proof {
                    assert(range.1 == covered);
                    assert(range.0 <= range.1);
                }
                let partial = partials.pop().unwrap();
                proof {
                    assert(crate::generation::local_generated(
                        boundary@,
                        range.0 as int,
                        range.1 as int,
                        shards as nat,
                        nn,
                        top_row,
                        layout,
                        partial,
                    ));
                }
                let local = match partial {
                    Ok(local) => local,
                    Err(error) => {
                        proof {
                            crate::generation::lemma_outgrown_total(
                                boundary@,
                                range.0 as int,
                                range.1 as int,
                                layout,
                                nn,
                                top_row,
                                limit,
                                key_paths(nn, 0, unit()),
                            );
                            assert(shards_successors_sum(boundary@, layout, nn, top_row, key_paths(nn, 0, unit()))
                                == rooted(nn, (row + 1) as nat, true, unit()));
                            assert(layer_total(nn, (row + 1) as nat, true) > limit);
                            let t = crate::generation::lemma_outgrown_point(
                                boundary@,
                                range.0 as int,
                                range.1 as int,
                                layout,
                                nn,
                                top_row,
                                limit,
                            );
                            assert(shards_successors_sum(boundary@, layout, nn, top_row, key_paths(nn, 0, point(t)))
                                == rooted(nn, (row + 1) as nat, true, point(t)));
                            assert(rooted(nn, (row + 1) as nat, true, point(t)) > limit);
                        }
                        return Err(outgrown_failure(error));
                    },
                };
                local_bytes = local_bytes.saturating_add(shards_capacity_bytes(&local.buckets));
                counters.operator_candidates = counters.operator_candidates + local.counters.operator_candidates;
                counters.operator_matched = counters.operator_matched + local.counters.operator_matched;
                completed = completed + local.completed_row_terms;
                if local.max_coefficient > max_coefficient_observed {
                    max_coefficient_observed = local.max_coefficient;
                }
                let ghost before = destination@;
                crate::generation::gather_buckets(&mut destination, local.buckets, layout);
                proof {
                    assert forall|g: spec_fn(u128) -> nat| #[trigger] entries_sum(destination@, layout, g)
                        == shards_successors_sum(
                        boundary@.subrange(range.0 as int, shards as int),
                        layout,
                        nn,
                        top_row,
                        g,
                    ) by {
                        lemma_shards_successors_split(
                            boundary@,
                            range.0 as int,
                            range.1 as int,
                            shards as int,
                            layout,
                            nn,
                            top_row,
                            g,
                        );
                    }
                }
            }
            if local_bytes > peak_thread_local_bytes {
                peak_thread_local_bytes = local_bytes;
            }
            proof {
                assert(ranges@[0].0 == 0);
                assert(boundary@.subrange(0, shards as int) =~= boundary@);
                assert forall|g: spec_fn(u128) -> nat| #[trigger] entries_sum(destination@, layout, g)
                    == shards_successors_sum(boundary@, layout, nn, top_row, g) by {
                    assert(entries_sum(destination@, layout, g) == shards_successors_sum(
                        boundary@.subrange(ranges@[0].0 as int, shards as int),
                        layout,
                        nn,
                        top_row,
                        g,
                    ));
                }
            }
        } else {
            let mut row_max: u128 = 1;
            match generate_range(
                n,
                &operator,
                &boundary,
                0,
                shards,
                top_row,
                layout,
                row,
                &mut destination,
                &mut counters,
                &mut completed,
                &mut row_max,
            ) {
                Ok(()) => {},
                Err(error) => {
                    proof {
                        crate::generation::lemma_outgrown_total(
                            boundary@,
                            0,
                            shards as int,
                            layout,
                            nn,
                            top_row,
                            limit,
                            key_paths(nn, 0, unit()),
                        );
                        assert(shards_successors_sum(boundary@, layout, nn, top_row, key_paths(nn, 0, unit()))
                            == rooted(nn, (row + 1) as nat, true, unit()));
                        assert(layer_total(nn, (row + 1) as nat, true) > limit);
                        let t = crate::generation::lemma_outgrown_point(
                            boundary@,
                            0,
                            shards as int,
                            layout,
                            nn,
                            top_row,
                            limit,
                        );
                        assert(shards_successors_sum(boundary@, layout, nn, top_row, key_paths(nn, 0, point(t)))
                            == rooted(nn, (row + 1) as nat, true, point(t)));
                        assert(rooted(nn, (row + 1) as nat, true, point(t)) > limit);
                    }
                    return Err(outgrown_failure(error));
                },
            }
            if row_max > max_coefficient_observed {
                max_coefficient_observed = row_max;
            }
            proof {
                assert(boundary@.subrange(0, shards as int) =~= boundary@);
                assert forall|g: spec_fn(u128) -> nat| #[trigger] entries_sum(destination@, layout, g)
                    == shards_successors_sum(boundary@, layout, nn, top_row, g) by {
                    assert(entries_sum(destination@, layout, g) == entries_sum(empty_destination, layout, g)
                        + shards_successors_sum(boundary@.subrange(0, shards as int), layout, nn, top_row, g));
                }
            }
        }
        let mut candidates = destination;
        let destination_capacity = shards_capacity_bytes(&candidates);
        let growth = if destination_capacity > initial_capacity {
            destination_capacity - initial_capacity
        } else {
            0
        };
        reuse.total_destination_growth_bytes = reuse.total_destination_growth_bytes.saturating_add(growth);
        generation_elapsed = add_durations(generation_elapsed, elapsed(&generation_start));
        proof {
            crate::generation::lemma_next_layer(boundary@, layout, nn, row as nat, top_row);
            assert forall|j: nat, f: spec_fn(BoundaryState) -> nat| #[trigger] entries_sum(
                candidates@,
                layout,
                key_paths(nn, j, f),
            ) == rooted(nn, (row + 1 + j) as nat, true, f) by {
                assert(entries_sum(candidates@, layout, key_paths(nn, j, f)) == shards_successors_sum(
                    boundary@,
                    layout,
                    nn,
                    top_row,
                    key_paths(nn, j, f),
                ));
            }
            lemma_key_paths_unit(nn);
            lemma_entries_sum_ext(candidates@, layout, key_paths(nn, 0, unit()), unit_key());
            assert(entries_sum(candidates@, layout, unit_key()) == layer_total(nn, (row + 1) as nat, true));
        }
        let sort_start = now();
        let ghost generated = candidates@;
        par_sort_shards(&mut candidates, layout);
        sort_elapsed = add_durations(sort_elapsed, elapsed(&sort_start));
        let ghost sorted = candidates@;
        proof {
            assert forall|g: spec_fn(u128) -> nat| #[trigger] entries_sum(sorted, layout, g) == entries_sum(
                generated,
                layout,
                g,
            ) by {
                assert forall|t: int| 0 <= t < generated.len() implies weighted_sum(
                    terms_of((#[trigger] sorted[t])@, layout),
                    g,
                ) == weighted_sum(terms_of(generated[t]@, layout), g) by {
                    assert(weighted_sum(terms_of(sorted[t]@, layout), g) == weighted_sum(
                        terms_of(generated[t]@, layout),
                        g,
                    ));
                }
                lemma_entries_sum_agree(generated, sorted, layout, g);
            }
        }
        let reduce_start = now();
        let maxima = match par_reduce_shards(&mut candidates, layout, row) {
            Ok(maxima) => maxima,
            Err(error) => {
                proof {
                    let t = choose|t: int|
                        0 <= t < shards && !groups_within(terms_of((#[trigger] sorted[t])@, layout), limit);
                    let key = choose|key: u128|
                        #[trigger] weighted_sum(terms_of(sorted[t]@, layout), indicator(key)) > limit;
                    lemma_indicator_le_total(terms_of(sorted[t]@, layout), key);
                    lemma_entries_shard_le_sum(sorted, t, layout, unit_key());
                    assert(layer_total(nn, (row + 1) as nat, true) > limit);
                    let s0 = crate::boundary::unpack_spec(key, nn);
                    let f = point(s0);
                    assert forall|k: u128| #[trigger] indicator(key)(k) <= key_paths(nn, 0, f)(k) by {
                        if k == key {
                            assert(key_paths(nn, 0, f)(k) == 1);
                        }
                    }
                    crate::transfer::lemma_weighted_sum_mono(terms_of(sorted[t]@, layout), indicator(key), key_paths(nn, 0, f));
                    lemma_entries_shard_le_sum(sorted, t, layout, key_paths(nn, 0, f));
                    assert(entries_sum(sorted, layout, key_paths(nn, 0, f)) == entries_sum(generated, layout, key_paths(nn, 0, f)));
                    assert(entries_sum(generated, layout, key_paths(nn, 0, f)) == rooted(nn, (row + 1 + 0) as nat, true, f));
                    assert(rooted(nn, (row + 1) as nat, true, f) > limit);
                    if limit == u128::MAX {
                        assert(!layers_fit_upto(nn, stop));
                    }
                }
                return Err(outgrown_failure(error));
            },
        };
        let mut m: usize = 0;
        while m < maxima.len()
            invariant
                m <= maxima@.len(),
            decreases maxima@.len() - m,
        {
            if maxima[m] > max_coefficient_observed {
                max_coefficient_observed = maxima[m];
            }
            m = m + 1;
        }
        reduce_elapsed = add_durations(reduce_elapsed, elapsed(&reduce_start));
        proof {
            assert forall|g: spec_fn(u128) -> nat| #[trigger] entries_sum(candidates@, layout, g) == entries_sum(
                sorted,
                layout,
                g,
            ) by {
                assert forall|t: int| 0 <= t < sorted.len() implies weighted_sum(
                    terms_of((#[trigger] candidates@[t])@, layout),
                    g,
                ) == weighted_sum(terms_of(sorted[t]@, layout), g) by {
                    assert(crate::packed_layers::entries_reduced(sorted[t]@, candidates@[t]@, layout));
                }
                lemma_entries_sum_agree(sorted, candidates@, layout, g);
            }
        }
        let output_states = total_entries(&candidates);
        let output_weight = match entries_weight(&candidates, layout, row) {
            Ok(weight) => weight,
            Err(error) => {
                proof {
                    assert(!layers_fit_upto(nn, stop));
                }
                return Err(sum_failure(error));
            },
        };
        if output_states > peak_states {
            peak_states = output_states;
        }
        total_operator_candidates = total_operator_candidates + counters.operator_candidates;
        total_operator_matched = total_operator_matched + counters.operator_matched;
        std::mem::swap(&mut boundary, &mut candidates);
        if reuse_arenas {
            clear_shards(&mut candidates);
            spare = candidates;
        }
        layers.push(
            LayerMetric {
                row,
                input_states,
                tensor_entries_examined: counters.tensor_examined,
                tensor_entries_matched: counters.tensor_matched,
                row_operator_candidates: counters.operator_candidates,
                row_operator_matched: counters.operator_matched,
                completed_row_terms: completed,
                output_states,
                output_weight,
                elapsed: elapsed(&layer_start),
                peak_rss_bytes: peak_rss_bytes(),
            },
        );
        proof {
            assert forall|k: nat| 1 <= k <= row + 1 implies #[trigger] layer_total(nn, k, true) <= u128::MAX by {
                if k == row + 1 {
                    assert(output_weight == layer_total(nn, k, true));
                }
            }
        }
        row = row + 1;
    }
    proof {
        if row == 0 {
            assert forall|f: spec_fn(BoundaryState) -> nat| #[trigger] entries_sum(
                boundary@,
                layout,
                key_paths(nn, 0, f),
            ) == rooted(nn, 0, true, f) by {
                assert(key_paths(nn, 0, f)(pack_spec(empty_state(), nn)) == f(empty_state()));
            }
            assert(entries_sum(boundary@, layout, unit_key()) == 1);
        } else {
            assert forall|f: spec_fn(BoundaryState) -> nat| #[trigger] entries_sum(
                boundary@,
                layout,
                key_paths(nn, 0, f),
            ) == rooted(nn, row as nat, true, f) by {
                assert(entries_sum(boundary@, layout, key_paths(nn, 0, f)) == rooted(
                    nn,
                    (row + 0) as nat,
                    true,
                    f,
                ));
            }
            lemma_key_paths_unit(nn);
            lemma_entries_sum_ext(boundary@, layout, key_paths(nn, 0, unit()), unit_key());
            assert(entries_sum(boundary@, layout, key_paths(nn, 0, unit())) == layer_total(nn, row as nat, true));
        }
        assert(entries_sum(boundary@, layout, unit_key()) <= u128::MAX);
    }
    let count = match entries_count(n, &boundary, layout) {
        Ok(count) => count,
        Err(error) => {
            return Err(sum_failure(error));
        },
    };
    proof {
        assert(entries_sum(boundary@, layout, key_paths(nn, 0, accept(nn))) == rooted(nn, stop, true, accept(nn)));
    }
    Ok(
        PackedKernelResult {
            parallel: ParallelGenerationResult {
                contraction: ContractionResult {
                    n,
                    count,
                    elapsed: elapsed(&total_start),
                    peak_states,
                    tensor_entries_examined: 17,
                    tensor_entries_matched: 17,
                    row_operator_candidates: total_operator_candidates,
                    row_operator_matched: total_operator_matched,
                    peak_rss_bytes: peak_rss_bytes(),
                    layers,
                },
                generation_elapsed,
                sort_elapsed,
                reduce_elapsed,
                peak_thread_local_bytes,
                peak_worker_partials,
            },
            max_coefficient_observed,
            reuse,
            boundary,
        },
    )
}

} // verus!
