//! Reflection-sliced contraction for boards up to width 21, whose packed keys
//! fit a `u64`: frontier terms are stored as compact entries, with a `u128`
//! coefficient split over two words, or with a `u64` coefficient that is
//! promoted to the `u128` form when it outgrows a limit.
use vstd::prelude::*;

use crate::boundary::PackedBoundary;
use crate::contract::{ContractionResult, layers_fit};
use crate::entries::{EntryLayout, LayerEntry};
use crate::packed_layers::{KernelFailure, ParallelGenerationResult, layers_fit_upto, packed_kernel, prefix_contraction};
use crate::sharded::valid_shards;
use crate::transfer::{board_count, layer_total, rooted};
use crate::util::{elapsed, message, now, number_text, peak_rss_bytes, promotion_text, zero_duration};
use std::time::Duration;

verus! {

broadcast use crate::mirror::lemma_orbit_count_exact;

/// A packed key with a `u128` coefficient stored as two `u64` words.
#[derive(Clone, Copy, Debug, PartialEq, Eq, Structural)]
pub struct CompactEntry {
    pub key: u64,
    pub weight_low: u64,
    pub weight_high: u64,
}

/// The coefficient of a compact entry.
pub open spec fn compact_weight(e: CompactEntry) -> u128 {
    (e.weight_low as u128) | ((e.weight_high as u128) << 64u128)
}

/// Splitting a `u128` into its low and high words and joining them gives it
/// back.
proof fn lemma_split_weight(w: u128)
    by (bit_vector)
    ensures
        (((w as u64) as u128) | ((((w >> 64u128) as u64) as u128) << 64u128)) == w,
{
}

impl CompactEntry {
    /// Store `key` with `weight`.
    pub fn new(key: u64, weight: u128) -> (entry: Self)
        ensures
            entry.key == key,
            compact_weight(entry) == weight,
    {
        proof {
            lemma_split_weight(weight);
        }
        CompactEntry { key, weight_low: weight as u64, weight_high: (weight >> 64u128) as u64 }
    }

    /// The coefficient.
    pub fn weight(self) -> (weight: u128)
        ensures
            weight == compact_weight(self),
    {
        (self.weight_low as u128) | ((self.weight_high as u128) << 64u128)
    }
}

/// The error for a coefficient sum past `u128` after `row`.
fn compact_overflow(row: usize) -> (text: String)
    ensures
        text@ == number_text("compact coefficient overflow after row"@, row as nat + 1),
{
    crate::util::message_with_number("compact coefficient overflow after row", row as u128 + 1)
}

impl LayerEntry for CompactEntry {
    open spec fn layout_ok(layout: EntryLayout) -> bool {
        true
    }

    open spec fn key_ok(key: u64, layout: EntryLayout) -> bool {
        true
    }

    open spec fn supports_width(n: nat, layout: EntryLayout) -> bool {
        true
    }

    open spec fn weight_limit(layout: EntryLayout) -> nat {
        u128::MAX as nat
    }

    open spec fn term(self, layout: EntryLayout) -> (PackedBoundary, u128) {
        (PackedBoundary(self.key as u128), compact_weight(self))
    }

    proof fn lemma_key_ok(key: u64, n: nat, layout: EntryLayout) {
    }

    proof fn lemma_weight_bound(self, layout: EntryLayout) {
    }

    fn store(key: u64, weight: u128, layout: EntryLayout) -> (entry: Self) {
        CompactEntry::new(key, weight)
    }

    fn stored_key(&self, layout: EntryLayout) -> (key: u64) {
        self.key
    }

    fn stored_weight(&self, layout: EntryLayout) -> (weight: u128) {
        self.weight()
    }

    fn limit(layout: EntryLayout) -> (limit: u128) {
        u128::MAX
    }

    open spec fn overflow_text(row: nat, operation: Seq<char>) -> Seq<char> {
        number_text("compact coefficient overflow after row"@, row + 1)
    }

    fn overflow_error(row: usize, operation: &str) -> (text: String) {
        compact_overflow(row)
    }
}

/// A packed key with a `u64` coefficient.
#[derive(Clone, Copy, Debug, PartialEq, Eq, Structural)]
pub struct CompactEntry64 {
    pub key: u64,
    pub weight: u64,
}

/// The promotion error for a `u64` coefficient that outgrows its limit.
fn u64_promotion(row: usize, operation: &str) -> (text: String)
    ensures
        text@ == promotion_text("u64 coefficient promotion required after row"@, row as nat + 1, operation@),
{
    crate::util::promotion_message("u64 coefficient promotion required after row", row as u128 + 1, operation)
}

impl LayerEntry for CompactEntry64 {
    /// The layout's mask is the coefficient limit.
    open spec fn layout_ok(layout: EntryLayout) -> bool {
        layout.mask >= 1
    }

    open spec fn key_ok(key: u64, layout: EntryLayout) -> bool {
        true
    }

    open spec fn supports_width(n: nat, layout: EntryLayout) -> bool {
        true
    }

    open spec fn weight_limit(layout: EntryLayout) -> nat {
        layout.mask as nat
    }

    open spec fn term(self, layout: EntryLayout) -> (PackedBoundary, u128) {
        (PackedBoundary(self.key as u128), if self.weight <= layout.mask {
            self.weight as u128
        } else {
            layout.mask as u128
        })
    }

    proof fn lemma_key_ok(key: u64, n: nat, layout: EntryLayout) {
    }

    proof fn lemma_weight_bound(self, layout: EntryLayout) {
    }

    fn store(key: u64, weight: u128, layout: EntryLayout) -> (entry: Self) {
        CompactEntry64 { key, weight: weight as u64 }
    }

    fn stored_key(&self, layout: EntryLayout) -> (key: u64) {
        self.key
    }

    fn stored_weight(&self, layout: EntryLayout) -> (weight: u128) {
        if self.weight <= layout.mask {
            self.weight as u128
        } else {
            layout.mask as u128
        }
    }

    fn limit(layout: EntryLayout) -> (limit: u128) {
        layout.mask as u128
    }

    open spec fn overflow_text(row: nat, operation: Seq<char>) -> Seq<char> {
        promotion_text("u64 coefficient promotion required after row"@, row + 1, operation)
    }

    fn overflow_error(row: usize, operation: &str) -> (text: String) {
        u64_promotion(row, operation)
    }
}

/// The report of an exact contraction of the `n`-by-`n` board, sliced by
/// reflection orbits on the first row: the plain exact count, and the
/// orbit-weighted total of every layer.
pub open spec fn exact_report(n: nat, r: ContractionResult) -> bool {
    &&& r.n == n
    &&& r.count == board_count(n, false)
    &&& r.layers@.len() == n
    &&& forall|k: int|
        0 <= k < n ==> (#[trigger] r.layers@[k]).row == k && r.layers@[k].output_weight == layer_total(
            n,
            (k + 1) as nat,
            true,
        )
}

/// The inputs the compact backends accept: a board of width at most 21 and
/// a power-of-two shard count up to 256.
pub open spec fn compact_inputs(n: nat, shards: nat) -> bool {
    n <= 21 && valid_shards(shards)
}

/// What a compact contraction returns: an error for unaccepted inputs;
/// otherwise success exactly when every layer's total weight fits `u128`,
/// with the exact report.
pub open spec fn compact_spec(n: nat, shards: nat, result: Result<ContractionResult, String>) -> bool {
    &&& !compact_inputs(n, shards) ==> result is Err
    &&& compact_inputs(n, shards) ==> (result is Ok <==> layers_fit(n, true))
    &&& result matches Ok(r) ==> exact_report(n, r)
}

/// The parallel-generation form of `compact_spec`.
pub open spec fn parallel_spec(n: nat, shards: nat, result: Result<ParallelGenerationResult, String>) -> bool {
    &&& !compact_inputs(n, shards) ==> result is Err
    &&& compact_inputs(n, shards) ==> (result is Ok <==> layers_fit(n, true))
    &&& result matches Ok(r) ==> exact_report(n, r.contraction)
}

/// The report of the empty board.
fn empty_board_report() -> (r: ContractionResult)
    ensures
        exact_report(0, r),
{
    proof {
        crate::sitewise::lemma_empty_board();
    }
    ContractionResult {
        n: 0,
        count: 1,
        elapsed: zero_duration(),
        peak_states: 1,
        tensor_entries_examined: 0,
        tensor_entries_matched: 0,
        row_operator_candidates: 0,
        row_operator_matched: 0,
        peak_rss_bytes: peak_rss_bytes(),
        layers: Vec::new(),
    }
}

/// The parallel-generation report of the empty board.
pub(crate) fn empty_board_parallel() -> (r: ParallelGenerationResult)
    ensures
        exact_report(0, r.contraction),
{
    ParallelGenerationResult {
        contraction: empty_board_report(),
        generation_elapsed: zero_duration(),
        sort_elapsed: zero_duration(),
        reduce_elapsed: zero_duration(),
        peak_thread_local_bytes: 0,
        peak_worker_partials: 0,
    }
}

/// An exact report shows that every layer's total weight fits `u128`.
pub proof fn lemma_exact_report_fits(n: nat, r: ContractionResult)
    requires
        exact_report(n, r),
    ensures
        layers_fit(n, true),
{
    assert forall|k: nat| 1 <= k <= n implies #[trigger] layer_total(n, k, true) <= u128::MAX by {
        assert(r.layers@[k - 1].output_weight == layer_total(n, k, true));
    }
}

/// The full-board prefix report is the exact report.
proof fn lemma_full_prefix(n: nat, r: ContractionResult)
    requires
        n < 64,
        prefix_contraction(n, n, r),
    ensures
        exact_report(n, r),
{
    crate::mirror::lemma_orbit_count_exact(n);
}

/// Rejects boards wider than 21 and unsupported shard counts.
fn check_compact_inputs(n: usize, shards: usize) -> (checked: Result<(), String>)
    ensures
        checked is Ok <==> compact_inputs(n as nat, shards as nat),
{
    if n > 21 {
        return Err(message("the compact u64 virtual-boundary backend supports N <= 21"));
    }
    if !crate::sharded::shards_supported(shards) {
        return Err(message("shards must be a power of two in 1..=256"));
    }
    Ok(())
}

/// Serially generated compact contraction: each row is expanded into the
/// emptied shards of the layer before last, then the shards are sorted and
/// reduced in parallel.
fn contract_rows_d4_compact_sharded_kernel(n: usize, shards: usize) -> (result: Result<
    ContractionResult,
    String,
>)
    ensures
        compact_spec(n as nat, shards as nat, result),
{
    check_compact_inputs(n, shards)?;
    if n == 0 {
        return Ok(empty_board_report());
    }
    let layout = EntryLayout { bits: 0, mask: 0 };
    match packed_kernel::<CompactEntry>(n, shards, layout, false, true, n) {
        Ok(result) => {
            proof {
                lemma_full_prefix(n as nat, result.parallel.contraction);
            }
            Ok(result.parallel.contraction)
        },
        Err(failure) => Err(failure.message),
    }
}

/// Compact contraction whose rows are generated over ranges of source shards
/// in parallel, each range into its own buckets that are then gathered.
fn contract_rows_d4_compact_parallel_generation_kernel(n: usize, shards: usize) -> (result: Result<
    ParallelGenerationResult,
    String,
>)
    ensures
        parallel_spec(n as nat, shards as nat, result),
{
    check_compact_inputs(n, shards)?;
    if n == 0 {
        return Ok(empty_board_parallel());
    }
    let layout = EntryLayout { bits: 0, mask: 0 };
    match packed_kernel::<CompactEntry>(n, shards, layout, true, false, n) {
        Ok(result) => {
            proof {
                lemma_full_prefix(n as nat, result.parallel.contraction);
            }
            Ok(result.parallel)
        },
        Err(failure) => Err(failure.message),
    }
}

/// Exact reflection-sliced contraction with compact `u64`-keyed entries and
/// serial generation, for `n <= 21` and a power-of-two shard count up to 256.
pub fn contract_rows_d4_compact_sharded_sort_reduce(n: usize, shards: usize) -> (result: Result<
    ContractionResult,
    String,
>)
    ensures
        compact_spec(n as nat, shards as nat, result),
{
    contract_rows_d4_compact_sharded_kernel(n, shards)
}

/// Exact reflection-sliced contraction with compact entries whose rows are
/// generated in parallel, for `n <= 21` and a power-of-two shard count up to
/// 256.
pub fn contract_rows_d4_compact_parallel_generation(n: usize, shards: usize) -> (result: Result<
    ParallelGenerationResult,
    String,
>)
    ensures
        parallel_spec(n as nat, shards as nat, result),
{
    contract_rows_d4_compact_parallel_generation_kernel(n, shards)
}

/// Compact contraction with `u64` coefficients that must stay at most
/// `coefficient_limit`; a coefficient past it is an outgrown failure.
fn contract_rows_d4_compact64_parallel_generation_kernel(n: usize, shards: usize, coefficient_limit: u64) -> (result:
    Result<ParallelGenerationResult, KernelFailure>)
    ensures
        !compact_inputs(n as nat, shards as nat) || coefficient_limit == 0 ==> (result matches Err(f)
            && !f.outgrown),
        n > 21 ==> (result matches Err(f) && f.message@
            == "the compact64 virtual-boundary backend supports N <= 21"@),
        n <= 21 && !valid_shards(shards as nat) ==> (result matches Err(f) && f.message@
            == "shards must be a power of two in 1..=256"@),
        compact_inputs(n as nat, shards as nat) && coefficient_limit == 0 ==> (result matches Err(f) && f.message@
            == "compact64 coefficient limit must be positive"@),
        result matches Ok(r) ==> exact_report(n as nat, r.contraction),
        compact_inputs(n as nat, shards as nat) && coefficient_limit >= 1 ==> ((result matches Err(f)
            && !f.outgrown) ==> !layers_fit(n as nat, true)),
        (result matches Err(f) && f.outgrown) ==> !crate::packed_layers::layers_within(
            n as nat,
            n as nat,
            coefficient_limit as nat,
        ),
        compact_inputs(n as nat, shards as nat) && coefficient_limit >= 1 && crate::packed_layers::layers_within(
            n as nat,
            n as nat,
            coefficient_limit as nat,
        ) ==> result is Ok,
        (result matches Err(f) && f.outgrown) ==> !crate::packed_layers::coefficients_within(
            n as nat,
            n as nat,
            coefficient_limit as nat,
        ),
        compact_inputs(n as nat, shards as nat) && coefficient_limit >= 1
            && crate::packed_layers::coefficients_within(n as nat, n as nat, coefficient_limit as nat)
            ==> result is Ok,
{
    if n > 21 {
        return Err(
            KernelFailure {
                message: message("the compact64 virtual-boundary backend supports N <= 21"),
                outgrown: false,
            },
        );
    }
    if !crate::sharded::shards_supported(shards) {
        return Err(KernelFailure { message: message("shards must be a power of two in 1..=256"), outgrown: false });
    }
    if coefficient_limit == 0 {
        return Err(
            KernelFailure { message: message("compact64 coefficient limit must be positive"), outgrown: false },
        );
    }
    if n == 0 {
        return Ok(empty_board_parallel());
    }
    let layout = EntryLayout { bits: 0, mask: coefficient_limit };
    proof {
        crate::certified::lemma_layers_fit_small(n as nat, true);
        assert(crate::packed_layers::layers_fit_upto(n as nat, n as nat));
    }
    match packed_kernel::<CompactEntry64>(n, shards, layout, true, false, n) {
        Ok(result) => {
            proof {
                lemma_full_prefix(n as nat, result.parallel.contraction);
            }
            Ok(result.parallel)
        },
        Err(failure) => Err(failure),
    }
}

/// A compact contraction that first tries `u64` coefficients and, when one
/// outgrows its limit, repeats the contraction with `u128` coefficients.
#[derive(Debug)]
pub struct U64PromotionResult {
    pub contraction: ContractionResult,
    pub used_u64_fast_path: bool,
    pub promotion_reason: Option<String>,
    pub attempted_fast_path_elapsed: Duration,
    pub generation_elapsed: Duration,
    pub sort_elapsed: Duration,
    pub reduce_elapsed: Duration,
    pub peak_thread_local_bytes: usize,
}

/// What a promoting compact contraction returns: an error for unaccepted
/// inputs; otherwise success exactly when every layer's total weight fits
/// `u128`, with the exact report, and a promotion reason exactly when the
/// `u64` attempt was abandoned.
pub open spec fn promotion_spec(n: nat, shards: nat, limit: nat, result: Result<U64PromotionResult, String>) -> bool {
    &&& !compact_inputs(n, shards) || limit == 0 ==> result is Err
    &&& compact_inputs(n, shards) && limit >= 1 ==> (result is Ok <==> layers_fit(n, true))
    &&& result matches Ok(r) ==> {
        &&& exact_report(n, r.contraction)
        &&& r.used_u64_fast_path <==> r.promotion_reason is None
    }
}

/// Contraction with `u64` coefficients at most `coefficient_limit`, promoted
/// to `u128` coefficients when one outgrows it.
pub fn contract_rows_d4_compact_u64_promoting_with_limit(n: usize, shards: usize, coefficient_limit: u64) -> (result:
    Result<U64PromotionResult, String>)
    ensures
        promotion_spec(n as nat, shards as nat, coefficient_limit as nat, result),
{
    let total_start = now();
    let fast_start = now();
    match contract_rows_d4_compact64_parallel_generation_kernel(n, shards, coefficient_limit) {
        Ok(result) => {
            proof {
                lemma_exact_report_fits(n as nat, result.contraction);
            }
            Ok(
            U64PromotionResult {
                contraction: result.contraction,
                used_u64_fast_path: true,
                promotion_reason: None,
                attempted_fast_path_elapsed: elapsed(&fast_start),
                generation_elapsed: result.generation_elapsed,
                sort_elapsed: result.sort_elapsed,
                reduce_elapsed: result.reduce_elapsed,
                peak_thread_local_bytes: result.peak_thread_local_bytes,
            },
        )
        },
        Err(failure) => {
            if failure.outgrown {
                let attempted_fast_path_elapsed = elapsed(&fast_start);
                let fallback = contract_rows_d4_compact_parallel_generation_kernel(n, shards)?;
                let mut contraction = fallback.contraction;
                contraction.elapsed = elapsed(&total_start);
                contraction.peak_rss_bytes = peak_rss_bytes();
                Ok(
                    U64PromotionResult {
                        contraction,
                        used_u64_fast_path: false,
                        promotion_reason: Some(failure.message),
                        attempted_fast_path_elapsed,
                        generation_elapsed: fallback.generation_elapsed,
                        sort_elapsed: fallback.sort_elapsed,
                        reduce_elapsed: fallback.reduce_elapsed,
                        peak_thread_local_bytes: fallback.peak_thread_local_bytes,
                    },
                )
            } else {
                Err(failure.message)
            }
        },
    }
}

/// Contraction with `u64` coefficients, promoted to `u128` coefficients when
/// one outgrows `u64`.
pub fn contract_rows_d4_compact_u64_promoting(n: usize, shards: usize) -> (result: Result<
    U64PromotionResult,
    String,
>)
    ensures
        promotion_spec(n as nat, shards as nat, u64::MAX as nat, result),
{
    contract_rows_d4_compact_u64_promoting_with_limit(n, shards, u64::MAX)
}

} // verus!
