//! Reflection-sliced contraction over the legal columns with every frontier
//! term packed into one `u64`: the packed key in the high bits and the
//! coefficient in the low `coefficient_bits` bits. A coefficient that outgrows
//! its bits is reported as a promotion error.
use vstd::prelude::*;

use crate::boundary::{BoundaryState, PackedBoundary, pack_spec, state_fits};
use crate::compact::{
    compact_inputs, contract_rows_d4_compact_u64_promoting_with_limit, empty_board_parallel, exact_report,
    lemma_exact_report_fits,
};
use crate::contract::{ContractionResult, layers_fit};
use crate::entries::{EntryLayout, LayerEntry};
use crate::packed_layers::{
    ArenaReuseMetrics, KernelFailure, PackedKernelResult, layers_fit_upto, packed_kernel, prefix_boundary,
    prefix_contraction,
};
use crate::util::{elapsed, fallback_message, message, now, peak_rss_bytes, promotion_text};
use std::time::Duration;

verus! {

broadcast use crate::mirror::lemma_orbit_count_exact;

/// One frontier term packed as `key << coefficient_bits | weight`.
#[derive(Clone, Copy, Debug, PartialEq, Eq, Structural)]
pub struct JointEntry(pub u64);

/// The low `bits` bits.
pub open spec fn joint_mask(bits: nat) -> u64 {
    if bits >= 64 {
        u64::MAX
    } else {
        ((1u64 << (bits as u64)) - 1u64) as u64
    }
}

/// The mask of the coefficient bits.
pub fn coefficient_mask(bits: u32) -> (mask: u64)
    requires
        bits <= 64,
    ensures
        mask == joint_mask(bits as nat),
{
    if bits == 64 {
        u64::MAX
    } else {
        let b = bits as u64;
        proof {
            lemma_joint_bits(0, 0, if b == 0 { 1 } else { b }, 0, 0);
            lemma_shift_positive(b);
        }
        (1u64 << b) - 1
    }
}

/// Packing a key and a coefficient and reading them back, and the order of
/// packed words.
proof fn lemma_joint_bits(key: u64, w: u64, b: u64, x: u64, y: u64)
    by (bit_vector)
    requires
        1 <= b <= 63,
    ensures
        (key >> ((64 - b) as u64) == 0 && w <= (((1u64 << b) - 1u64) as u64)) ==> (((key << b) | w)
            >> b == key && ((key << b) | w) & (((1u64 << b) - 1u64) as u64) == w),
        x <= y ==> x >> b <= y >> b,
        x & (((1u64 << b) - 1u64) as u64) <= (((1u64 << b) - 1u64) as u64),
        (x >> b) >> ((64 - b) as u64) == 0,
        (y <= 64 - b && key >> y == 0) ==> key >> ((64 - b) as u64) == 0,
{
}

/// `1 << b` is positive below 64.
pub(crate) proof fn lemma_shift_positive(b: u64)
    by (bit_vector)
    requires
        b < 64,
    ensures
        1u64 << b >= 1,
{
}

/// The packed key of a frontier on a board of width at most 21 fits its
/// `3 n` bits.
proof fn lemma_pack_bits(c: u64, d: u64, e: u64, m: u64)
    by (bit_vector)
    requires
        m <= 21,
        c >> m == 0,
        d >> m == 0,
        e >> m == 0,
    ensures
        ((c as u128) | ((d as u128) << (m as u128)) | ((e as u128) << ((2 * m) as u128))) <= 0xffff_ffff_ffff_ffffu128,
        ((((c as u128) | ((d as u128) << (m as u128)) | ((e as u128) << ((2 * m) as u128))) as u64)
            >> ((3 * m) as u64)) == 0,
{
}

/// A fitting frontier's key fits `u64` and leaves the top `64 - 3 n` bits
/// free.
pub proof fn lemma_pack_fits_u64(state: BoundaryState, n: nat)
    requires
        n <= 21,
        state_fits(state, n),
    ensures
        pack_spec(state, n) <= u64::MAX,
        (pack_spec(state, n) as u64) >> ((3 * n) as u64) == 0,
{
    lemma_pack_bits(state.columns, state.diag_dr, state.diag_dl, n as u64);
}

/// The key of a packed entry.
pub open spec fn entry_key(e: JointEntry, bits: nat) -> u64 {
    e.0 >> (bits as u64)
}

/// The coefficient of a packed entry.
pub open spec fn entry_weight(e: JointEntry, bits: nat) -> u64 {
    e.0 & joint_mask(bits)
}

/// The frontier term an entry stands for.
pub open spec fn joint_term(e: JointEntry, bits: nat) -> (PackedBoundary, u128) {
    (PackedBoundary(entry_key(e, bits) as u128), entry_weight(e, bits) as u128)
}

/// The frontier terms a list of entries stands for.
pub open spec fn joint_terms(s: Seq<JointEntry>, bits: nat) -> Seq<(PackedBoundary, u128)> {
    s.map_values(|e: JointEntry| joint_term(e, bits))
}

impl JointEntry {
    /// Pack `key` and `weight`.
    pub fn new(key: u64, weight: u64, coefficient_bits: u32) -> (entry: Self)
        requires
            1 <= coefficient_bits <= 63,
            key >> ((64 - coefficient_bits) as u64) == 0,
            weight <= joint_mask(coefficient_bits as nat),
        ensures
            entry_key(entry, coefficient_bits as nat) == key,
            entry_weight(entry, coefficient_bits as nat) == weight,
    {
        proof {
            lemma_joint_bits(key, weight, coefficient_bits as u64, 0, 0);
        }
        JointEntry((key << (coefficient_bits as u64)) | weight)
    }

    /// The packed key.
    pub fn key(self, coefficient_bits: u32) -> (key: u64)
        requires
            coefficient_bits <= 63,
        ensures
            key == entry_key(self, coefficient_bits as nat),
    {
        self.0 >> (coefficient_bits as u64)
    }

    /// The coefficient, read through `coefficient_mask`.
    pub fn weight(self, coefficient_mask: u64) -> (weight: u64)
        ensures
            weight == self.0 & coefficient_mask,
    {
        self.0 & coefficient_mask
    }
}

/// Packed words in increasing order have non-decreasing keys, and every
/// coefficient is at most the mask.
pub proof fn lemma_entry_order(x: JointEntry, y: JointEntry, bits: nat)
    requires
        1 <= bits <= 63,
    ensures
        x.0 <= y.0 ==> entry_key(x, bits) <= entry_key(y, bits),
        entry_weight(x, bits) <= joint_mask(bits),
        entry_key(x, bits) >> ((64 - bits) as u64) == 0,
{
    lemma_joint_bits(0, 0, bits as u64, x.0, y.0);
}

/// The promotion error for a coefficient that outgrows its bits.
fn joint_promotion(row: usize, operation: &str) -> (text: String)
    ensures
        text@ == promotion_text("joint-u64 coefficient promotion required after row"@, row as nat + 1, operation@),
{
    crate::util::promotion_message("joint-u64 coefficient promotion required after row", row as u128 + 1, operation)
}

impl LayerEntry for JointEntry {
    open spec fn layout_ok(layout: EntryLayout) -> bool {
        &&& 1 <= layout.bits <= 63
        &&& layout.mask == joint_mask(layout.bits as nat)
    }

    open spec fn key_ok(key: u64, layout: EntryLayout) -> bool {
        key >> ((64 - layout.bits) as u64) == 0
    }

    open spec fn supports_width(n: nat, layout: EntryLayout) -> bool {
        3 * n + layout.bits <= 64
    }

    open spec fn weight_limit(layout: EntryLayout) -> nat {
        layout.mask as nat
    }

    open spec fn term(self, layout: EntryLayout) -> (PackedBoundary, u128) {
        joint_term(self, layout.bits as nat)
    }

    proof fn lemma_key_ok(key: u64, n: nat, layout: EntryLayout) {
        lemma_joint_bits(key, 0, layout.bits as u64, 0, (3 * n) as u64);
    }

    proof fn lemma_weight_bound(self, layout: EntryLayout) {
        lemma_entry_order(self, self, layout.bits as nat);
    }

    fn store(key: u64, weight: u128, layout: EntryLayout) -> (entry: Self) {
        JointEntry::new(key, weight as u64, layout.bits)
    }

    fn stored_key(&self, layout: EntryLayout) -> (key: u64) {
        proof {
            lemma_entry_order(*self, *self, layout.bits as nat);
        }
        self.key(layout.bits)
    }

    fn stored_weight(&self, layout: EntryLayout) -> (weight: u128) {
        proof {
            lemma_entry_order(*self, *self, layout.bits as nat);
        }
        self.weight(layout.mask) as u128
    }

    fn limit(layout: EntryLayout) -> (limit: u128) {
        layout.mask as u128
    }

    open spec fn overflow_text(row: nat, operation: Seq<char>) -> Seq<char> {
        promotion_text("joint-u64 coefficient promotion required after row"@, row + 1, operation)
    }

    fn overflow_error(row: usize, operation: &str) -> (text: String) {
        joint_promotion(row, operation)
    }
}

/// The coefficient mask keeps at least the value one.
pub proof fn lemma_joint_mask_positive(bits: nat)
    requires
        1 <= bits <= 63,
    ensures
        joint_mask(bits) >= 1,
{
    let b = bits as u64;
    lemma_shift_positive(b);
    lemma_joint_bits(0, 0, b, 1, 1);
    assert(((1u64 << b) - 1u64) as u64 >= 1) by (bit_vector)
        requires
            1 <= b <= 63,
    ;
}

/// The layout of entries with `bits` coefficient bits.
pub open spec fn joint_layout(bits: nat) -> EntryLayout {
    EntryLayout { bits: bits as u32, mask: joint_mask(bits) }
}

/// The inputs the joint backend accepts: a board of width at most 21, a
/// power-of-two shard count up to 256, and a positive number of coefficient
/// bits that fit beside the `3 n`-bit key.
pub open spec fn joint_inputs(n: nat, shards: nat, bits: nat) -> bool {
    &&& compact_inputs(n, shards)
    &&& 1 <= bits <= 64
    &&& 3 * n + bits <= 64
}

/// The joint contraction of the first `stop_after_rows` rows, with every term
/// packed into one `u64` word of `coefficient_bits` coefficient bits.
pub fn contract_rows_d4_joint_u64_kernel(
    n: usize,
    shards: usize,
    coefficient_bits: u32,
    reuse_arenas: bool,
    stop_after_rows: usize,
) -> (result: Result<PackedKernelResult<JointEntry>, KernelFailure>)
    ensures
        !(joint_inputs(n as nat, shards as nat, coefficient_bits as nat) && stop_after_rows <= n) ==> (
        result matches Err(f) && !f.outgrown),
        result matches Ok(r) ==> prefix_contraction(n as nat, stop_after_rows as nat, r.parallel.contraction),
        result matches Ok(r) ==> (n >= 1 ==> r.boundary@.len() == shards && prefix_boundary(
            n as nat,
            stop_after_rows as nat,
            joint_layout(coefficient_bits as nat),
            r.boundary@,
        )),
        (result matches Err(f) && !f.outgrown) && joint_inputs(n as nat, shards as nat, coefficient_bits as nat)
            && stop_after_rows <= n ==> !layers_fit_upto(n as nat, stop_after_rows as nat),
        (result matches Err(f) && f.outgrown) ==> !crate::packed_layers::layers_within(
            n as nat,
            stop_after_rows as nat,
            joint_mask(coefficient_bits as nat) as nat,
        ),
        joint_inputs(n as nat, shards as nat, coefficient_bits as nat) && stop_after_rows <= n
            && crate::packed_layers::layers_within(
            n as nat,
            stop_after_rows as nat,
            joint_mask(coefficient_bits as nat) as nat,
        ) ==> result is Ok,
        (result matches Err(f) && f.outgrown) ==> !crate::packed_layers::coefficients_within(
            n as nat,
            stop_after_rows as nat,
            joint_mask(coefficient_bits as nat) as nat,
        ),
        joint_inputs(n as nat, shards as nat, coefficient_bits as nat) && stop_after_rows <= n
            && crate::packed_layers::coefficients_within(
            n as nat,
            stop_after_rows as nat,
            joint_mask(coefficient_bits as nat) as nat,
        ) ==> result is Ok,
{
    if n > 21 {
        return Err(
            KernelFailure {
                message: message("joint-u64 virtual-boundary backend supports N <= 21"),
                outgrown: false,
            },
        );
    }
    if !crate::sharded::shards_supported(shards) {
        return Err(KernelFailure { message: message("shards must be a power of two in 1..=256"), outgrown: false });
    }
    if stop_after_rows > n {
        return Err(KernelFailure { message: message("joint-u64 prefix cut cannot exceed N"), outgrown: false });
    }
    let key_bits = (3 * n) as u32;
    if coefficient_bits == 0 || coefficient_bits > 64 || key_bits + coefficient_bits > 64 {
        return Err(
            KernelFailure {
                message: message("joint-u64 coefficient bits do not fit beside the 3N-bit key"),
                outgrown: false,
            },
        );
    }
    if n == 0 {
        proof {
            crate::sitewise::lemma_empty_board();
        }
        return Ok(
            PackedKernelResult {
                parallel: empty_board_parallel(),
                max_coefficient_observed: 1,
                reuse: ArenaReuseMetrics {
                    total_reused_capacity_bytes: 0,
                    total_destination_growth_bytes: 0,
                    peak_spare_capacity_bytes: 0,
                },
                boundary: Vec::new(),
            },
        );
    }
    let mask = coefficient_mask(coefficient_bits);
    let layout = EntryLayout { bits: coefficient_bits, mask };
    proof {
        lemma_shift_positive(coefficient_bits as u64);
        lemma_joint_bits(0, 0, coefficient_bits as u64, 1, 1);
        assert(mask >= 1) by (bit_vector)
            requires
                1 <= coefficient_bits <= 63,
                mask == ((1u64 << (coefficient_bits as u64)) - 1u64) as u64,
        ;
    }
    proof {
        crate::certified::lemma_layers_fit_small(n as nat, true);
        assert(crate::packed_layers::layers_fit_upto(n as nat, stop_after_rows as nat));
    }
    packed_kernel::<JointEntry>(n, shards, layout, true, reuse_arenas, stop_after_rows)
}

/// A joint-u64 contraction, with what happened when a coefficient outgrew
/// its bits: the contraction was repeated with compact `u64` coefficients,
/// promoted to `u128` when those outgrew their limit too.
#[derive(Debug)]
pub struct JointU64Result {
    pub contraction: ContractionResult,
    pub used_joint_fast_path: bool,
    pub fallback_used_u64_fast_path: Option<bool>,
    pub promotion_reason: Option<String>,
    pub coefficient_bits: u32,
    pub max_coefficient_observed: u64,
    pub attempted_joint_elapsed: Duration,
    pub generation_elapsed: Duration,
    pub sort_elapsed: Duration,
    pub reduce_elapsed: Duration,
    pub peak_thread_local_bytes: usize,
}

/// What a joint contraction with a compact64 fallback limit returns: an
/// error for unaccepted inputs; otherwise success exactly when every layer's
/// total weight fits `u128` (for a positive limit), with the exact report; the
/// fast path was used exactly when no promotion reason and no fallback is
/// reported.
pub open spec fn joint_spec(n: nat, shards: nat, bits: nat, limit: nat, result: Result<JointU64Result, String>) -> bool {
    &&& !joint_inputs(n, shards, bits) ==> result is Err
    &&& joint_inputs(n, shards, bits) && limit >= 1 ==> (result is Ok <==> layers_fit(n, true))
    &&& result matches Ok(r) ==> {
        &&& exact_report(n, r.contraction)
        &&& r.coefficient_bits == bits
        &&& r.used_joint_fast_path <==> r.promotion_reason is None
        &&& r.used_joint_fast_path <==> r.fallback_used_u64_fast_path is None
    }
}

/// Joint contraction with `coefficient_bits` coefficient bits; on promotion,
/// compact64 with `compact64_limit`, then `u128`. Also returns the capacity
/// reuse of the joint attempt.
fn contract_rows_d4_joint_u64_with_reuse(
    n: usize,
    shards: usize,
    coefficient_bits: u32,
    compact64_limit: u64,
    reuse_arenas: bool,
) -> (result: Result<(JointU64Result, ArenaReuseMetrics), String>)
    ensures
        joint_spec(
            n as nat,
            shards as nat,
            coefficient_bits as nat,
            compact64_limit as nat,
            match result {
                Ok(pair) => Ok(pair.0),
                Err(e) => Err(e),
            },
        ),
{
    let total_start = now();
    let joint_start = now();
    match contract_rows_d4_joint_u64_kernel(n, shards, coefficient_bits, reuse_arenas, n) {
        Ok(result) => {
            proof {
                crate::mirror::lemma_orbit_count_exact(n as nat);
                lemma_exact_report_fits(n as nat, result.parallel.contraction);
            }
            let reuse = result.reuse;
            Ok(
                (
                    JointU64Result {
                        contraction: result.parallel.contraction,
                        used_joint_fast_path: true,
                        fallback_used_u64_fast_path: None,
                        promotion_reason: None,
                        coefficient_bits,
                        max_coefficient_observed: result.max_coefficient_observed as u64,
                        attempted_joint_elapsed: elapsed(&joint_start),
                        generation_elapsed: result.parallel.generation_elapsed,
                        sort_elapsed: result.parallel.sort_elapsed,
                        reduce_elapsed: result.parallel.reduce_elapsed,
                        peak_thread_local_bytes: result.parallel.peak_thread_local_bytes,
                    },
                    reuse,
                ),
            )
        },
        Err(failure) => {
            if failure.outgrown {
                let attempted_joint_elapsed = elapsed(&joint_start);
                let fallback = contract_rows_d4_compact_u64_promoting_with_limit(n, shards, compact64_limit)?;
                let fallback_used_u64_fast_path = fallback.used_u64_fast_path;
                let promotion_reason = match fallback.promotion_reason {
                    Some(reason) => fallback_message(failure.message.as_str(), reason.as_str()),
                    None => failure.message,
                };
                let mut contraction = fallback.contraction;
                contraction.elapsed = elapsed(&total_start);
                contraction.peak_rss_bytes = peak_rss_bytes();
                Ok(
                    (
                        JointU64Result {
                            contraction,
                            used_joint_fast_path: false,
                            fallback_used_u64_fast_path: Some(fallback_used_u64_fast_path),
                            promotion_reason: Some(promotion_reason),
                            coefficient_bits,
                            max_coefficient_observed: 0,
                            attempted_joint_elapsed,
                            generation_elapsed: fallback.generation_elapsed,
                            sort_elapsed: fallback.sort_elapsed,
                            reduce_elapsed: fallback.reduce_elapsed,
                            peak_thread_local_bytes: fallback.peak_thread_local_bytes,
                        },
                        ArenaReuseMetrics {
                            total_reused_capacity_bytes: 0,
                            total_destination_growth_bytes: 0,
                            peak_spare_capacity_bytes: 0,
                        },
                    ),
                )
            } else {
                Err(failure.message)
            }
        },
    }
}

/// Joint contraction with `coefficient_bits` coefficient bits and the
/// compact64 fallback limit `compact64_limit`.
pub fn contract_rows_d4_joint_u64_with_limits(
    n: usize,
    shards: usize,
    coefficient_bits: u32,
    compact64_limit: u64,
) -> (result: Result<JointU64Result, String>)
    ensures
        joint_spec(n as nat, shards as nat, coefficient_bits as nat, compact64_limit as nat, result),
{
    match contract_rows_d4_joint_u64_with_reuse(n, shards, coefficient_bits, compact64_limit, false) {
        Ok(pair) => Ok(pair.0),
        Err(error) => Err(error),
    }
}

/// The coefficient bits left beside the `3 n`-bit key of a `u64` word.
fn joint_coefficient_bits(n: usize) -> (bits: Result<u32, String>)
    ensures
        n <= 21 ==> (bits matches Ok(b) && b == 64 - 3 * n),
        n > 21 ==> bits is Err,
{
    if n > 0x5555_5555 {
        return Err(message("joint-u64 boundary width does not fit u32"));
    }
    if n > 21 {
        return Err(message("joint-u64 packing requires N <= 21"));
    }
    Ok(64 - (3 * n) as u32)
}

/// What the joint contraction with all free bits for coefficients returns.
pub open spec fn joint_promoting_spec(n: nat, shards: nat, result: Result<JointU64Result, String>) -> bool {
    &&& !compact_inputs(n, shards) ==> result is Err
    &&& compact_inputs(n, shards) ==> joint_spec(n, shards, (64 - 3 * n) as nat, u64::MAX as nat, result)
}

/// Joint-u64 contraction with every bit beside the key for the coefficient,
/// promoted to compact64 and then `u128` coefficients when needed.
pub fn contract_rows_d4_joint_u64_promoting(n: usize, shards: usize) -> (result: Result<JointU64Result, String>)
    ensures
        joint_promoting_spec(n as nat, shards as nat, result),
{
    let coefficient_bits = joint_coefficient_bits(n)?;
    contract_rows_d4_joint_u64_with_limits(n, shards, coefficient_bits, u64::MAX)
}

/// A joint contraction that reuses the emptied shards of the layer before
/// last as the next destination, with how much capacity that reused.
#[derive(Debug)]
pub struct ArenaReuseResult {
    pub joint: JointU64Result,
    pub total_reused_capacity_bytes: usize,
    pub total_destination_growth_bytes: usize,
    pub peak_spare_capacity_bytes: usize,
}

/// Joint-u64 contraction with destination reuse, promoted like
/// `contract_rows_d4_joint_u64_promoting`.
pub fn contract_rows_d4_joint_u64_arena_reuse(n: usize, shards: usize) -> (result: Result<ArenaReuseResult, String>)
    ensures
        joint_promoting_spec(
            n as nat,
            shards as nat,
            match result {
                Ok(r) => Ok(r.joint),
                Err(e) => Err(e),
            },
        ),
{
    let coefficient_bits = joint_coefficient_bits(n)?;
    let (joint, reuse) = contract_rows_d4_joint_u64_with_reuse(n, shards, coefficient_bits, u64::MAX, true)?;
    Ok(
        ArenaReuseResult {
            joint,
            total_reused_capacity_bytes: reuse.total_reused_capacity_bytes,
            total_destination_growth_bytes: reuse.total_destination_growth_bytes,
            peak_spare_capacity_bytes: reuse.peak_spare_capacity_bytes,
        },
    )
}

} // verus!
