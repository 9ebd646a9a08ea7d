//! Reflection-sliced contraction with each layer's candidates distributed
//! over a power-of-two number of shards by packed key; the shards are sorted
//! and reduced independently, in parallel.
use vstd::prelude::*;

use crate::batched::expansion;
use crate::boundary::{
    BoundaryState, PackedBoundary, board_mask, board_mask_spec, empty_state, pack_spec, replace_bit,
};
use crate::row::{
    CompiledRowOperator, RowCounters, counter_room, first_row_column, lemma_place_bits,
    matching_bits, occupied_entry, top_row_vertical_orbit_weight,
};
use crate::transfer::{
    available_spec, cell_free, lemma_available_bit, lemma_lowest_bit, lemma_scan_bounds,
    lemma_scan_step, lemma_successors_len, lemma_successors_skip, lemma_trailing_zeros_of_bit,
    low_mask, orbit_weight, pack_terms, place, row_successors, row_successors_upto,
    weighted_sum, with_weight,
};
use crate::contract::{groups_fit, keys_strictly_sorted, reduce_sorted_candidates, sort_by_packed_key};
use crate::transfer::indicator;
use crate::contract::{
    ContractionResult, LayerMetric, contraction_spec, final_count, layers_fit, lemma_empty_fits,
    sum_weights,
};
use crate::tensor::SiteTensorC;
use crate::transfer::{
    accept, key_paths, layer_total, lemma_expand_parent, lemma_indicator_le_total,
    lemma_key_paths_accept_le, lemma_key_paths_unit, lemma_top_row_sum, orbit_sum, paths, rooted,
    unit, unit_key,
};
use crate::boundary::lemma_pack_round_trip;
use crate::util::{elapsed, message, message_with_number, now, peak_rss_bytes, zero_duration};
use rayon::iter::{IntoParallelRefMutIterator, ParallelIterator};
use vstd::arithmetic::power2::pow2;
use vstd::std_specs::bits::u64_trailing_zeros;

verus! {

broadcast use crate::mirror::lemma_orbit_count_exact;

/// How a packed key selects its shard: by its highest used bits, or by a
/// 64-bit mix of the whole key.
#[derive(Clone, Copy, Debug, PartialEq, Eq, Structural)]
pub enum ShardMode {
    Prefix,
    Mixed,
}

/// A supported shard count: a power of two from 1 to 256.
pub open spec fn valid_shards(shards: nat) -> bool {
    shards == 1 || shards == 2 || shards == 4 || shards == 8 || shards == 16 || shards == 32
        || shards == 64 || shards == 128 || shards == 256
}

/// The shard count is a power of two from 1 to 256.
pub(crate) fn shards_supported(shards: usize) -> (supported: bool)
    ensures
        supported == valid_shards(shards as nat),
{
    shards == 1 || shards == 2 || shards == 4 || shards == 8 || shards == 16 || shards == 32
        || shards == 64 || shards == 128 || shards == 256
}

/// Masking with `shards - 1` selects a shard.
proof fn lemma_shard_mask(x: usize, shards: usize)
    requires
        valid_shards(shards as nat),
    ensures
        x & ((shards - 1) as usize) < shards,
{
    vstd::arithmetic::power2::lemma2_to64();
    let k: nat = if shards == 1 {
        0
    } else if shards == 2 {
        1
    } else if shards == 4 {
        2
    } else if shards == 8 {
        3
    } else if shards == 16 {
        4
    } else if shards == 32 {
        5
    } else if shards == 64 {
        6
    } else if shards == 128 {
        7
    } else {
        8
    };
    assert(pow2(k) == shards);
    assert(vstd::bits::low_bits_mask(k) == shards - 1);
    vstd::bits::lemma_usize_low_bits_mask_is_mod(x, k);
}

/// The 64-bit finaliser of a packed key: its two halves folded by xor,
/// then xor-shift and multiply steps.
pub open spec fn mixed_hash(key: u128) -> u64 {
    let m0 = (key as u64) ^ ((key >> 64u32) as u64);
    let m1 = m0 ^ (m0 >> 30u64);
    let m2 = m1.wrapping_mul(0xbf58_476d_1ce4_e5b9);
    let m3 = m2 ^ (m2 >> 27u64);
    let m4 = m3.wrapping_mul(0x94d0_49bb_1331_11eb);
    m4 ^ (m4 >> 31u64)
}

/// The shard of a packed key of the `n`-wide board: the top bits of its
/// `3 n` used bits, or the low bits of its mixed hash.
pub open spec fn shard_of(key: u128, n: nat, shards: nat, mode: ShardMode) -> usize {
    let mask = (shards - 1) as usize;
    match mode {
        ShardMode::Prefix => {
            let bits = vstd::std_specs::bits::u64_trailing_zeros(shards as u64) as int;
            let shift: int = if bits > 3 * n {
                0
            } else {
                3 * n - bits
            };
            ((key >> (shift as u32)) as usize) & mask
        },
        ShardMode::Mixed => (mixed_hash(key) as usize) & mask,
    }
}

/// The shard of a packed key.
pub fn shard_index(key: u128, n: usize, shards: usize, mode: ShardMode) -> (shard: usize)
    requires
        n <= 42,
        valid_shards(shards as nat),
    ensures
        shard < shards,
        shard == shard_of(key, n as nat, shards as nat, mode),
{
    let mask = shards - 1;
    match mode {
        ShardMode::Prefix => {
            let shard_bits = (shards as u64).trailing_zeros() as usize;
            let used_bits = 3 * n;
            let shift = if shard_bits > used_bits {
                0
            } else {
                used_bits - shard_bits
            };
            let prefix = (key >> (shift as u32)) as usize;
            proof {
                lemma_shard_mask(prefix, shards);
            }
            prefix & mask
        },
        ShardMode::Mixed => {
            let mut mixed = (key as u64) ^ ((key >> 64u32) as u64);
            mixed = mixed ^ (mixed >> 30u64);
            mixed = mixed.wrapping_mul(0xbf58_476d_1ce4_e5b9);
            mixed = mixed ^ (mixed >> 27u64);
            mixed = mixed.wrapping_mul(0x94d0_49bb_1331_11eb);
            mixed = mixed ^ (mixed >> 31u64);
            let folded = mixed as usize;
            proof {
                lemma_shard_mask(folded, shards);
            }
            folded & mask
        },
    }
}

/// The weighted sum over all shards of a layer.
pub open spec fn shards_sum(shards: Seq<Vec<(PackedBoundary, u128)>>, g: spec_fn(u128) -> nat) -> nat
    decreases shards.len(),
{
    if shards.len() == 0 {
        0
    } else {
        shards_sum(shards.drop_last(), g) + weighted_sum(shards.last()@, g)
    }
}

/// Pushing a term into one shard adds its weighted value to the sum.
proof fn lemma_shards_sum_push(
    a: Seq<Vec<(PackedBoundary, u128)>>,
    b: Seq<Vec<(PackedBoundary, u128)>>,
    s: int,
    x: (PackedBoundary, u128),
    g: spec_fn(u128) -> nat,
)
    requires
        0 <= s < a.len(),
        b.len() == a.len(),
        b[s]@ == a[s]@.push(x),
        forall|t: int| 0 <= t < a.len() && t != s ==> #[trigger] b[t]@ == a[t]@,
    ensures
        shards_sum(b, g) == shards_sum(a, g) + (x.1 as nat) * g(x.0.0),
    decreases a.len(),
{
    assert(b[s]@.drop_last() =~= a[s]@);
    if s == a.len() - 1 {
        assert forall|t: int| 0 <= t < a.len() - 1 implies #[trigger] b.drop_last()[t]@ == a.drop_last()[t]@ by {
            assert(b[t]@ == a[t]@);
        }
        lemma_shards_sum_agree(a.drop_last(), b.drop_last(), g);
    } else {
        assert forall|t: int| 0 <= t < a.len() - 1 && t != s implies #[trigger] b.drop_last()[t]@
            == a.drop_last()[t]@ by {
            assert(b[t]@ == a[t]@);
        }
        lemma_shards_sum_push(a.drop_last(), b.drop_last(), s, x, g);
        assert(b.last()@ == a.last()@);
    }
}

/// Layers whose shards hold the same terms have the same sums.
proof fn lemma_shards_sum_agree(a: Seq<Vec<(PackedBoundary, u128)>>, b: Seq<Vec<(PackedBoundary, u128)>>, g: spec_fn(u128) -> nat)
    requires
        b.len() == a.len(),
        forall|t: int| 0 <= t < a.len() ==> #[trigger] b[t]@ == a[t]@,
    ensures
        shards_sum(b, g) == shards_sum(a, g),
    decreases a.len(),
{
    if a.len() > 0 {
        assert forall|t: int| 0 <= t < a.len() - 1 implies #[trigger] b.drop_last()[t]@ == a.drop_last()[t]@ by {
            assert(b[t]@ == a[t]@);
        }
        lemma_shards_sum_agree(a.drop_last(), b.drop_last(), g);
        assert(b.last()@ == a[a.len() - 1]@);
    }
}

/// Append the packed successors of `parent` over its legal queen columns,
/// each into the shard that its key selects, with the orbit weights of the
/// first row when `top_row`.
fn append_compiled_sparse_sharded_d4(
    n: usize,
    operator: &CompiledRowOperator,
    parent: BoundaryState,
    parent_weight: u128,
    top_row: bool,
    shard_mode: ShardMode,
    counters: &mut RowCounters,
    output: &mut Vec<Vec<(PackedBoundary, u128)>>,
) -> (appended: Result<usize, String>)
    requires
        1 <= n <= 42,
        valid_shards(old(output)@.len()),
        counter_room(old(counters).operator_candidates, n as int),
        counter_room(old(counters).operator_matched, n as int),
        top_row ==> parent == empty_state() && parent_weight == 1,
    ensures
        appended matches Ok(k) && k == expansion(n as nat, parent, parent_weight, top_row).len(),
        final(output)@.len() == old(output)@.len(),
        appended is Ok ==> forall|g: spec_fn(u128) -> nat|
            #[trigger] shards_sum(final(output)@, g) == shards_sum(old(output)@, g) + weighted_sum(
                pack_terms(expansion(n as nat, parent, parent_weight, top_row), n as nat),
                g,
            ),
        final(counters).operator_candidates == old(counters).operator_candidates + row_successors(
            n as nat,
            parent,
        ).len(),
        final(counters).operator_matched == old(counters).operator_matched + row_successors(
            n as nat,
            parent,
        ).len(),
        final(counters).tensor_examined == old(counters).tensor_examined,
        final(counters).tensor_matched == old(counters).tensor_matched,
{
    let occupied = operator.occupied();
    let legs = occupied.legs;
    if legs.row_in != 0 {
        return Err(
            message("sharded sparse iterator requires occupied row_in to match the left v0 boundary"),
        );
    }
    let board = board_mask(n);
    let column_bits = matching_bits(parent.columns, legs.column_in, board)?;
    let dr_bits = matching_bits(parent.diag_dr, legs.diag_dr_in, board)?;
    let dl_bits = matching_bits(parent.diag_dl, legs.diag_dl_in, board)?;
    let mut positions = column_bits & dr_bits & dl_bits;
    let ghost nn = n as nat;
    let ghost avail = available_spec(nn, parent);
    assert(positions == avail);
    proof {
        crate::sitewise::lemma_no_low_bits(avail);
    }
    let base_weight = match parent_weight.checked_mul(occupied.value) {
        Some(w) => w,
        None => {
            return Err(message("coefficient overflow in sharded sparse row operator"));
        },
    };
    let shards = output.len();
    let mut appended: usize = 0;
    let ghost mut k: nat = 0;
    while positions != 0
        invariant
            1 <= n <= 42,
            nn == n,
            k <= n,
            base_weight == parent_weight,
            occupied == occupied_entry(),
            legs == occupied.legs,
            board == board_mask_spec(nn),
            top_row ==> parent == empty_state() && parent_weight == 1,
            positions == avail & !low_mask(k),
            avail == available_spec(nn, parent),
            shards == output@.len(),
            shards == old(output)@.len(),
            valid_shards(shards as nat),
            appended == crate::batched::expansion_upto(nn, parent, parent_weight, top_row, k).len(),
            forall|g: spec_fn(u128) -> nat|
                #[trigger] shards_sum(output@, g) == shards_sum(old(output)@, g) + weighted_sum(
                    pack_terms(crate::batched::expansion_upto(nn, parent, parent_weight, top_row, k), nn),
                    g,
                ),
            counters.operator_candidates == old(counters).operator_candidates + row_successors_upto(
                nn,
                parent,
                k,
            ).len(),
            counters.operator_matched == old(counters).operator_matched + row_successors_upto(
                nn,
                parent,
                k,
            ).len(),
            counters.tensor_examined == old(counters).tensor_examined,
            counters.tensor_matched == old(counters).tensor_matched,
            counter_room(old(counters).operator_candidates, n as int),
            counter_room(old(counters).operator_matched, n as int),
        decreases positions,
    {
        let negated = 0u64.wrapping_sub(positions);
        let selected = positions & negated;
        proof {
            lemma_lowest_bit(positions, negated);
            lemma_trailing_zeros_of_bit(u64_trailing_zeros(positions) as u64);
            lemma_scan_bounds(avail, positions, k);
        }
        let column = selected.trailing_zeros() as usize;
        let ghost t = column as nat;
        proof {
            assert(t == u64_trailing_zeros(positions));
            assert(k <= t);
            lemma_scan_step(avail, positions, k, t);
            lemma_available_bit(nn, parent, t);
            assert forall|c: nat| k <= c < t implies !#[trigger] cell_free(parent, c) by {
                lemma_available_bit(nn, parent, c);
            }
            lemma_successors_skip(nn, parent, k, t);
            lemma_successors_len(nn, parent, t);
            crate::batched::lemma_expansion_len(nn, parent, parent_weight, top_row, t);
            assert(t < n && cell_free(parent, t));
            assert(crate::batched::expansion_upto(nn, parent, parent_weight, top_row, t)
                == crate::batched::expansion_upto(nn, parent, parent_weight, top_row, k));
        }
        positions = positions & (positions - 1);
        counters.operator_candidates = counters.operator_candidates + 1;
        counters.operator_matched = counters.operator_matched + 1;
        let successor = BoundaryState {
            columns: replace_bit(parent.columns, column, legs.column_out),
            diag_dr: (replace_bit(parent.diag_dr, column, legs.diag_dr_out) << 1u64) & board,
            diag_dl: replace_bit(parent.diag_dl, column, legs.diag_dl_out) >> 1u64,
        };
        proof {
            lemma_place_bits(nn, parent, t);
            assert(successor == place(nn, parent, t));
            assert(row_successors_upto(nn, parent, t + 1) =~= row_successors_upto(nn, parent, t).push(
                successor,
            ));
            crate::batched::lemma_expansion_step(nn, parent, parent_weight, top_row, t);
            if top_row {
                crate::batched::lemma_top_row_weight(nn, t);
            }
        }
        let mut weight = base_weight;
        if top_row {
            match top_row_vertical_orbit_weight(n, successor) {
                None => {
                    proof {
                        assert(crate::batched::expansion_upto(nn, parent, parent_weight, top_row, t + 1)
                            =~= crate::batched::expansion_upto(nn, parent, parent_weight, top_row, t));
                        k = t + 1;
                    }
                    continue;
                },
                Some(multiplicity) => {
                    weight = match weight.checked_mul(multiplicity) {
                        Some(w) => w,
                        None => {
                            return Err(message("coefficient overflow in sharded D4 weighting"));
                        },
                    };
                },
            }
        }
        let packed = PackedBoundary::pack(successor, n);
        let selected_shard = shard_index(packed.0, n, shards, shard_mode);
        let ghost before = output@;
        output[selected_shard].push((packed, weight));
        appended = appended + 1;
        proof {
            let prev = pack_terms(crate::batched::expansion_upto(nn, parent, parent_weight, top_row, t), nn);
            let next = pack_terms(crate::batched::expansion_upto(nn, parent, parent_weight, top_row, t + 1), nn);
            assert(next =~= prev.push((packed, weight)));
            assert(next.drop_last() =~= prev);
            assert forall|g: spec_fn(u128) -> nat| #[trigger] shards_sum(output@, g) == shards_sum(
                old(output)@,
                g,
            ) + weighted_sum(next, g) by {
                lemma_shards_sum_push(before, output@, selected_shard as int, (packed, weight), g);
            }
            k = t + 1;
        }
    }
    proof {
        lemma_scan_bounds(avail, positions, k);
        assert forall|c: nat| k <= c < n implies !#[trigger] cell_free(parent, c) by {
            lemma_available_bit(nn, parent, c);
        }
        lemma_successors_skip(nn, parent, k, nn);
    }
    Ok(appended)
}

proof fn lemma_shards_sum_zero(a: Seq<Vec<(PackedBoundary, u128)>>, g: spec_fn(u128) -> nat)
    requires
        forall|t: int| 0 <= t < a.len() ==> (#[trigger] a[t])@.len() == 0,
    ensures
        shards_sum(a, g) == 0,
    decreases a.len(),
{
    if a.len() > 0 {
        assert forall|t: int| 0 <= t < a.len() - 1 implies (#[trigger] a.drop_last()[t])@.len() == 0 by {
            assert(a[t]@.len() == 0);
        }
        lemma_shards_sum_zero(a.drop_last(), g);
        assert(a.last()@.len() == 0);
    }
}

proof fn lemma_shards_sum_take(a: Seq<Vec<(PackedBoundary, u128)>>, s: int, g: spec_fn(u128) -> nat)
    requires
        0 <= s < a.len(),
    ensures
        shards_sum(a.take(s + 1), g) == shards_sum(a.take(s), g) + weighted_sum(a[s]@, g),
{
    assert(a.take(s + 1).drop_last() =~= a.take(s));
}

proof fn lemma_shards_sum_prefix_le(a: Seq<Vec<(PackedBoundary, u128)>>, s: int, g: spec_fn(u128) -> nat)
    requires
        0 <= s <= a.len(),
    ensures
        shards_sum(a.take(s), g) <= shards_sum(a, g),
    decreases a.len() - s,
{
    if s < a.len() {
        lemma_shards_sum_take(a, s, g);
        lemma_shards_sum_prefix_le(a, s + 1, g);
    } else {
        assert(a.take(s) =~= a);
    }
}

proof fn lemma_shard_le_sum(a: Seq<Vec<(PackedBoundary, u128)>>, s: int, g: spec_fn(u128) -> nat)
    requires
        0 <= s < a.len(),
    ensures
        weighted_sum(a[s]@, g) <= shards_sum(a, g),
{
    lemma_shards_sum_take(a, s, g);
    lemma_shards_sum_prefix_le(a, s + 1, g);
}

proof fn lemma_shards_sum_ws_agree(
    a: Seq<Vec<(PackedBoundary, u128)>>,
    b: Seq<Vec<(PackedBoundary, u128)>>,
    g: spec_fn(u128) -> nat,
)
    requires
        b.len() == a.len(),
        forall|t: int| 0 <= t < a.len() ==> weighted_sum((#[trigger] b[t])@, g) == weighted_sum(a[t]@, g),
    ensures
        shards_sum(b, g) == shards_sum(a, g),
    decreases a.len(),
{
    if a.len() > 0 {
        assert forall|t: int| 0 <= t < a.len() - 1 implies weighted_sum((#[trigger] b.drop_last()[t])@, g)
            == weighted_sum(a.drop_last()[t]@, g) by {
            assert(weighted_sum(b[t]@, g) == weighted_sum(a[t]@, g));
        }
        lemma_shards_sum_ws_agree(a.drop_last(), b.drop_last(), g);
        assert(weighted_sum(b[a.len() - 1]@, g) == weighted_sum(a[a.len() - 1]@, g));
    }
}

proof fn lemma_shards_sum_mono(a: Seq<Vec<(PackedBoundary, u128)>>, g1: spec_fn(u128) -> nat, g2: spec_fn(u128) -> nat)
    requires
        forall|k: u128| #[trigger] g1(k) <= g2(k),
    ensures
        shards_sum(a, g1) <= shards_sum(a, g2),
    decreases a.len(),
{
    if a.len() > 0 {
        lemma_shards_sum_mono(a.drop_last(), g1, g2);
        crate::transfer::lemma_weighted_sum_mono(a.last()@, g1, g2);
    }
}

proof fn lemma_shards_sum_ext(a: Seq<Vec<(PackedBoundary, u128)>>, g1: spec_fn(u128) -> nat, g2: spec_fn(u128) -> nat)
    requires
        forall|k: u128| #[trigger] g1(k) == g2(k),
    ensures
        shards_sum(a, g1) == shards_sum(a, g2),
{
    lemma_shards_sum_mono(a, g1, g2);
    lemma_shards_sum_mono(a, g2, g1);
}

/// `after` is `before` sorted by key with equal keys merged.
pub open spec fn shard_reduced(before: Seq<(PackedBoundary, u128)>, after: Seq<(PackedBoundary, u128)>) -> bool {
    &&& keys_strictly_sorted(after)
    &&& forall|g: spec_fn(u128) -> nat| #[trigger] weighted_sum(after, g) == weighted_sum(before, g)
}

/// Sort one shard by key and merge equal keys with checked addition.
pub fn sort_reduce_shard(shard: &mut Vec<(PackedBoundary, u128)>, row: usize) -> (reduced: Result<(), String>)
    ensures
        reduced is Ok <==> groups_fit(old(shard)@),
        reduced is Ok ==> shard_reduced(old(shard)@, final(shard)@),
{
    let ghost before = shard@;
    sort_by_packed_key(shard);
    let ghost sorted = shard@;
    proof {
        assert forall|g: spec_fn(u128) -> nat| #[trigger] weighted_sum(sorted, g) == weighted_sum(before, g) by {
            crate::transfer::lemma_weighted_sum_permutation(before, sorted, g);
        }
        if groups_fit(sorted) {
            assert forall|key: u128| #[trigger] weighted_sum(before, indicator(key)) <= u128::MAX by {
                assert(weighted_sum(sorted, indicator(key)) <= u128::MAX);
            }
        }
        if groups_fit(before) {
            assert forall|key: u128| #[trigger] weighted_sum(sorted, indicator(key)) <= u128::MAX by {
                assert(weighted_sum(before, indicator(key)) <= u128::MAX);
            }
        }
    }
    reduce_sorted_candidates(shard, row)
}

/// Sorts and reduces every shard with `sort_reduce_shard`, the shards in
/// parallel through rayon's `par_iter_mut` and `try_for_each`, which calls the
/// closure on each shard at most once and returns `Ok` only when every call
/// returned `Ok`, otherwise one of the errors. Stated: on success every shard
/// was reduced; on failure some shard has a key whose weights overflow. The
/// contents of the shards after a failure are not stated.
#[verifier::external_body]
fn par_sort_reduce_shards(shards: &mut Vec<Vec<(PackedBoundary, u128)>>, row: usize) -> (reduced:
    Result<(), String>)
    ensures
        final(shards)@.len() == old(shards)@.len(),
        reduced is Ok ==> forall|t: int|
            0 <= t < old(shards)@.len() ==> shard_reduced(
                (#[trigger] old(shards)@[t])@,
                final(shards)@[t]@,
            ),
        reduced is Err ==> exists|t: int|
            0 <= t < old(shards)@.len() && !groups_fit((#[trigger] old(shards)@[t])@),
{
    shards.par_iter_mut().try_for_each(|shard| sort_reduce_shard(shard, row))
}

/// The number of terms over all shards, staying at `usize::MAX`.
fn total_len(shards: &Vec<Vec<(PackedBoundary, u128)>>) -> (total: usize)
    ensures
        total == crate::packed_layers::capped(crate::packed_layers::lens_sum(shards@)),
{
    let mut total: usize = 0;
    let mut s: usize = 0;
    proof {
        assert(shards@.take(0) =~= Seq::<Vec<(PackedBoundary, u128)>>::empty());
    }
    while s < shards.len()
        invariant
            s <= shards@.len(),
            total == crate::packed_layers::capped(crate::packed_layers::lens_sum(shards@.take(s as int))),
        decreases shards@.len() - s,
    {
        proof {
            crate::packed_layers::lemma_lens_sum_take(shards@, s as int);
        }
        total = match total.checked_add(shards[s].len()) {
            Some(sum) => sum,
            None => usize::MAX,
        };
        s = s + 1;
    }
    proof {
        assert(shards@.take(shards@.len() as int) =~= shards@);
    }
    total
}

/// `shards` empty shards.
fn empty_shards(shards: usize) -> (v: Vec<Vec<(PackedBoundary, u128)>>)
    ensures
        v@.len() == shards,
        forall|t: int| 0 <= t < shards ==> (#[trigger] v@[t])@.len() == 0,
{
    let mut v: Vec<Vec<(PackedBoundary, u128)>> = Vec::new();
    let mut s: usize = 0;
    while s < shards
        invariant
            s <= shards,
            v@.len() == s,
            forall|t: int| 0 <= t < s ==> (#[trigger] v@[t])@.len() == 0,
        decreases shards - s,
    {
        v.push(Vec::new());
        s = s + 1;
    }
    v
}

/// The total weight over all shards, with checked addition.
fn shards_weight(shards: &Vec<Vec<(PackedBoundary, u128)>>, row: usize) -> (total: Result<u128, String>)
    ensures
        total is Ok <==> shards_sum(shards@, unit_key()) <= u128::MAX,
        total matches Ok(t) ==> t == shards_sum(shards@, unit_key()),
{
    let mut sum: u128 = 0;
    let mut s: usize = 0;
    while s < shards.len()
        invariant
            s <= shards@.len(),
            sum == shards_sum(shards@.take(s as int), unit_key()),
        decreases shards@.len() - s,
    {
        proof {
            lemma_shards_sum_take(shards@, s as int, unit_key());
            lemma_shards_sum_prefix_le(shards@, s as int + 1, unit_key());
        }
        let part = match sum_weights(&shards[s], row) {
            Ok(t) => t,
            Err(error) => {
                proof {
                    lemma_shard_le_sum(shards@, s as int, unit_key());
                }
                return Err(error);
            },
        };
        sum = match sum.checked_add(part) {
            Some(t) => t,
            None => {
                return Err(message_with_number("coefficient sum overflow after row", row as u128 + 1));
            },
        };
        s = s + 1;
    }
    proof {
        assert(shards@.take(s as int) =~= shards@);
    }
    Ok(sum)
}

/// The weight of the accepted terms over all shards.
fn shards_count(n: usize, shards: &Vec<Vec<(PackedBoundary, u128)>>) -> (count: Result<u128, String>)
    requires
        1 <= n <= 42,
    ensures
        shards_sum(shards@, unit_key()) <= u128::MAX ==> count is Ok,
        count matches Ok(c) ==> c == shards_sum(shards@, key_paths(n as nat, 0, accept(n as nat))),
{
    let ghost g = key_paths(n as nat, 0, accept(n as nat));
    proof {
        lemma_key_paths_accept_le(n as nat);
        lemma_shards_sum_mono(shards@, g, unit_key());
    }
    let mut sum: u128 = 0;
    let mut s: usize = 0;
    while s < shards.len()
        invariant
            1 <= n <= 42,
            g == key_paths(n as nat, 0, accept(n as nat)),
            s <= shards@.len(),
            sum == shards_sum(shards@.take(s as int), g),
            shards_sum(shards@, g) <= shards_sum(shards@, unit_key()),
        decreases shards@.len() - s,
    {
        proof {
            lemma_shards_sum_take(shards@, s as int, g);
            lemma_shards_sum_prefix_le(shards@, s as int + 1, g);
            lemma_shard_le_sum(shards@, s as int, unit_key());
        }
        let part = final_count(n, &shards[s])?;
        sum = match sum.checked_add(part) {
            Some(t) => t,
            None => {
                return Err(message("final coefficient sum overflow"));
            },
        };
        s = s + 1;
    }
    proof {
        assert(shards@.take(s as int) =~= shards@);
    }
    Ok(sum)
}

/// What a sharded contraction returns: an error for boards wider than the
/// packed layout or an unsupported shard count, otherwise exactly what the
/// serial reflection-sliced contraction returns.
pub open spec fn sharded_spec(n: nat, shards: nat, result: Result<ContractionResult, String>) -> bool {
    &&& !valid_shards(shards) ==> result is Err
    &&& valid_shards(shards) ==> contraction_spec(n, true, result)
}

/// The packed key and weight of the empty frontier.
spec fn initial_term(n: nat) -> (PackedBoundary, u128) {
    (PackedBoundary(pack_spec(empty_state(), n)), 1u128)
}

/// Reflection-sliced contraction over the legal columns with every layer
/// held in `shards` shards selected by `shard_mode`.
#[verifier::rlimit(100)]
#[verifier::spinoff_prover]
fn contract_rows_d4_sharded_sparse_kernel(n: usize, shards: usize, shard_mode: ShardMode) -> (result:
    Result<ContractionResult, String>)
    ensures
        sharded_spec(n as nat, shards as nat, result),
{
    proof {
        crate::certified::lemma_layers_fit_small(n as nat, true);
        crate::certified::lemma_layers_fit_small(n as nat, false);
    }
    if n > 42 {
        return Err(message("the packed u128 virtual-boundary backend supports N <= 42"));
    }
    if !shards_supported(shards) {
        return Err(message("shards must be a power of two in 1..=256"));
    }
    if n == 0 {
        proof {
            crate::sitewise::lemma_empty_board();
            crate::future_quotient::lemma_board_count_zero(false);
        }
        return Ok(
            ContractionResult {
                n,
                count: 1,
                elapsed: zero_duration(),
                peak_states: 1,
                tensor_entries_examined: 0,
                tensor_entries_matched: 0,
                row_operator_candidates: 0,
                row_operator_matched: 0,
                peak_rss_bytes: peak_rss_bytes(),
                layers: Vec::new(),
            },
        );
    }
    let tensor = SiteTensorC::sec_vi();
    let operator = CompiledRowOperator::compile(&tensor)?;
    let initial = BoundaryState { columns: 0, diag_dr: 0, diag_dl: 0 };
    let initial_packed = PackedBoundary::pack(initial, n);
    let ghost nn = n as nat;
    let mut boundary = empty_shards(shards);
    let mut candidates = empty_shards(shards);
    let first = shard_index(initial_packed.0, n, shards, shard_mode);
    let ghost empty_layer = boundary@;
    boundary[first].push((initial_packed, 1u128));
    proof {
        lemma_empty_fits(nn);
        lemma_pack_round_trip(empty_state(), nn);
        assert forall|g: spec_fn(u128) -> nat| shards_sum(empty_layer, g) == 0 by {
            lemma_shards_sum_zero(empty_layer, g);
        }
        assert(initial_term(nn) == (initial_packed, 1u128));
        assert(shards_sum(empty_layer, unit_key()) == 0);
        lemma_shards_sum_push(empty_layer, boundary@, first as int, initial_term(nn), unit_key());
        let x = initial_term(nn);
        assert(unit_key()(x.0.0) == 1);
        assert(x.1 == 1);
        assert((x.1 as nat) * unit_key()(x.0.0) == 1);
        assert(shards_sum(boundary@, unit_key()) == shards_sum(empty_layer, unit_key()) + (x.1 as nat)
            * unit_key()(x.0.0));
        assert(shards_sum(boundary@, unit_key()) == 1);
        assert forall|t: int, e: int| 0 <= t < shards && 0 <= e < boundary@[t]@.len()
            implies #[trigger] boundary@[t]@[e] == initial_term(nn) by {
            if t != first {
                assert(boundary@[t]@ == empty_layer[t]@);
            }
        }
    }
    let mut peak_states: usize = 1;
    let mut total_operator_candidates: u128 = 0;
    let mut total_operator_matched: u128 = 0;
    let mut layers: Vec<LayerMetric> = Vec::with_capacity(n);
    let total_start = now();
    let mut row: usize = 0;
    while row < n
        invariant
            n <= 21 ==> crate::contract::layers_fit(n as nat, true),
            1 <= n <= 42,
            nn == n,
            row <= n,
            valid_shards(shards as nat),
            boundary@.len() == shards,
            candidates@.len() == shards,
            row == 0 ==> shards_sum(boundary@, unit_key()) == 1,
            row == 0 ==> forall|t: int, e: int|
                0 <= t < shards && 0 <= e < boundary@[t]@.len() ==> #[trigger] boundary@[t]@[e]
                    == initial_term(nn),
            row > 0 ==> forall|j: nat, f: spec_fn(BoundaryState) -> nat|
                #[trigger] shards_sum(boundary@, key_paths(nn, j, f)) == rooted(nn, (row + j) as nat, true, f),
            forall|k: nat| 1 <= k <= row ==> #[trigger] layer_total(nn, k, true) <= u128::MAX,
            layers@.len() == row,
            forall|k: int|
                0 <= k < row ==> (#[trigger] layers@[k]).row == k && layers@[k].output_weight
                    == layer_total(nn, (k + 1) as nat, true),
            total_operator_candidates <= row * 0x1_0000_0000_0000_0000_0000_0000,
            total_operator_matched <= row * 0x1_0000_0000_0000_0000_0000_0000,
        decreases n - row,
    {
        let layer_start = now();
        let input_states = total_len(&boundary);
        let mut counters = RowCounters::new();
        let mut completed: u128 = 0;
        let mut c: usize = 0;
        while c < candidates.len()
            invariant
                n <= 21 ==> crate::contract::layers_fit(n as nat, true),
                c <= candidates@.len(),
                candidates@.len() == shards,
                forall|t: int| 0 <= t < c ==> (#[trigger] candidates@[t])@.len() == 0,
            decreases candidates@.len() - c,
        {
            candidates[c].clear();
            c = c + 1;
        }
        proof {
            assert forall|g: spec_fn(u128) -> nat| #[trigger] shards_sum(candidates@, g) == 0 by {
                lemma_shards_sum_zero(candidates@, g);
            }
            assert forall|g: spec_fn(u128) -> nat| #[trigger] shards_sum(boundary@.take(0), g) == 0 by {
                assert(boundary@.take(0).len() == 0);
            }
        }
        let mut s: usize = 0;
        while s < boundary.len()
            invariant
                n <= 21 ==> crate::contract::layers_fit(n as nat, true),
                1 <= n <= 42,
                nn == n,
                row < n,
                valid_shards(shards as nat),
                boundary@.len() == shards,
                candidates@.len() == shards,
                s <= shards,
                row == 0 ==> shards_sum(boundary@, unit_key()) == 1,
                row == 0 ==> forall|t: int, e: int|
                    0 <= t < shards && 0 <= e < boundary@[t]@.len() ==> #[trigger] boundary@[t]@[e]
                        == initial_term(nn),
                forall|j: nat, f: spec_fn(BoundaryState) -> nat|
                    #[trigger] shards_sum(candidates@, key_paths(nn, j, f)) == if row == 0 {
                        shards_sum(boundary@.take(s as int), unit_key()) * orbit_sum(nn, j, f, nn)
                    } else {
                        shards_sum(boundary@.take(s as int), key_paths(nn, j + 1, f))
                    },
                counters.operator_candidates <= s * 0x100_0000_0000_0000_0000,
                counters.operator_matched <= s * 0x100_0000_0000_0000_0000,
                counters.tensor_examined == 0,
                counters.tensor_matched == 0,
                completed <= s * 0x100_0000_0000_0000_0000,
            decreases shards - s,
        {
            let ghost shard = boundary@[s as int]@;
            let len = boundary[s].len();
            let mut e: usize = 0;
            while e < len
                invariant
                    n <= 21 ==> crate::contract::layers_fit(n as nat, true),
                    1 <= n <= 42,
                    nn == n,
                    row < n,
                    valid_shards(shards as nat),
                    boundary@.len() == shards,
                    candidates@.len() == shards,
                    s < shards,
                    shard == boundary@[s as int]@,
                    len == shard.len(),
                    e <= len,
                    row == 0 ==> shards_sum(boundary@, unit_key()) == 1,
                    row == 0 ==> forall|t: int, e2: int|
                        0 <= t < shards && 0 <= e2 < boundary@[t]@.len() ==> #[trigger] boundary@[t]@[e2]
                            == initial_term(nn),
                    forall|j: nat, f: spec_fn(BoundaryState) -> nat|
                        #[trigger] shards_sum(candidates@, key_paths(nn, j, f)) == if row == 0 {
                            (shards_sum(boundary@.take(s as int), unit_key()) + weighted_sum(
                                shard.take(e as int),
                                unit_key(),
                            )) * orbit_sum(nn, j, f, nn)
                        } else {
                            shards_sum(boundary@.take(s as int), key_paths(nn, j + 1, f)) + weighted_sum(
                                shard.take(e as int),
                                key_paths(nn, j + 1, f),
                            )
                        },
                    counters.operator_candidates <= s * 0x100_0000_0000_0000_0000 + e * 64,
                    counters.operator_matched <= s * 0x100_0000_0000_0000_0000 + e * 64,
                    counters.tensor_examined == 0,
                    counters.tensor_matched == 0,
                    completed <= s * 0x100_0000_0000_0000_0000 + e * 64,
                decreases len - e,
            {
                let (packed, weight) = boundary[s][e];
                let parent = packed.unpack(n);
                let ghost before = candidates@;
                proof {
                    assert(shard[e as int] == (packed, weight));
                    if row == 0 {
                        assert(boundary@[s as int]@[e as int] == initial_term(nn));
                        lemma_empty_fits(nn);
                        lemma_pack_round_trip(empty_state(), nn);
                        assert(parent == empty_state());
                    }
                    lemma_successors_len(nn, parent, nn);
                }
                let appended = append_compiled_sparse_sharded_d4(
                    n,
                    &operator,
                    parent,
                    weight,
                    row == 0,
                    shard_mode,
                    &mut counters,
                    &mut candidates,
                )?;
                completed = completed + appended as u128;
                proof {
                    crate::row::lemma_top_row_terms_len(nn, crate::transfer::weighted_successors(nn, parent, weight));
                    assert(shard.take(e as int + 1).drop_last() =~= shard.take(e as int));
                    assert(shard.take(e as int + 1).last() == (packed, weight));
                    assert forall|j: nat, f: spec_fn(BoundaryState) -> nat| #[trigger] shards_sum(
                        candidates@,
                        key_paths(nn, j, f),
                    ) == if row == 0 {
                        (shards_sum(boundary@.take(s as int), unit_key()) + weighted_sum(
                            shard.take(e as int + 1),
                            unit_key(),
                        )) * orbit_sum(nn, j, f, nn)
                    } else {
                        shards_sum(boundary@.take(s as int), key_paths(nn, j + 1, f)) + weighted_sum(
                            shard.take(e as int + 1),
                            key_paths(nn, j + 1, f),
                        )
                    } by {
                        if row == 0 {
                            lemma_top_row_sum(nn, j, f, nn);
                            let a = shards_sum(boundary@.take(s as int), unit_key()) + weighted_sum(
                                shard.take(e as int),
                                unit_key(),
                            );
                            let o = orbit_sum(nn, j, f, nn);
                            assert(weight == 1);
                            assert(weighted_sum(shard.take(e as int + 1), unit_key()) == weighted_sum(
                                shard.take(e as int),
                                unit_key(),
                            ) + 1);
                            assert((a + 1) * o == a * o + o) by (nonlinear_arith);
                        } else {
                            lemma_expand_parent(nn, parent, weight, j, f);
                            assert(key_paths(nn, j + 1, f)(packed.0) == paths(nn, j + 1, parent, f));
                        }
                    }
                }
                e = e + 1;
            }
            proof {
                assert(shard.take(e as int) =~= shard);
                assert forall|g: spec_fn(u128) -> nat| #[trigger] shards_sum(boundary@.take(s as int + 1), g)
                    == shards_sum(boundary@.take(s as int), g) + weighted_sum(shard, g) by {
                    lemma_shards_sum_take(boundary@, s as int, g);
                }
            }
            s = s + 1;
        }
        proof {
            assert(boundary@.take(s as int) =~= boundary@);
            assert forall|j: nat, f: spec_fn(BoundaryState) -> nat| #[trigger] shards_sum(
                candidates@,
                key_paths(nn, j, f),
            ) == rooted(nn, (row + 1 + j) as nat, true, f) by {
                if row == 0 {
                    assert(shards_sum(boundary@, unit_key()) == 1);
                } else {
                    assert(shards_sum(boundary@, key_paths(nn, j + 1, f)) == rooted(
                        nn,
                        (row + (j + 1)) as nat,
                        true,
                        f,
                    ));
                }
            }
            lemma_key_paths_unit(nn);
            lemma_shards_sum_ext(candidates@, key_paths(nn, 0, unit()), unit_key());
            assert(shards_sum(candidates@, unit_key()) == layer_total(nn, (row + 1) as nat, true));
        }
        let ghost expanded = candidates@;
        match par_sort_reduce_shards(&mut candidates, row) {
            Ok(()) => {},
            Err(error) => {
                proof {
                    let t = choose|t: int| 0 <= t < shards && !groups_fit((#[trigger] expanded[t])@);
                    let key = choose|key: u128| #[trigger] weighted_sum(expanded[t]@, indicator(key)) > u128::MAX;
                    lemma_indicator_le_total(expanded[t]@, key);
                    lemma_shard_le_sum(expanded, t, unit_key());
                    assert(!layers_fit(nn, true));
                }
                return Err(error);
            },
        }
        proof {
            assert forall|g: spec_fn(u128) -> nat| #[trigger] shards_sum(candidates@, g) == shards_sum(expanded, g) by {
                assert forall|t: int| 0 <= t < shards implies weighted_sum((#[trigger] candidates@[t])@, g)
                    == weighted_sum(expanded[t]@, g) by {
                    assert(shard_reduced(expanded[t]@, candidates@[t]@));
                }
                lemma_shards_sum_ws_agree(expanded, candidates@, g);
            }
        }
        let output_states = total_len(&candidates);
        let output_weight = match shards_weight(&candidates, row) {
            Ok(weight) => weight,
            Err(error) => {
                proof {
                    assert(!layers_fit(nn, true));
                }
                return Err(error);
            },
        };
        if output_states > peak_states {
            peak_states = output_states;
        }
        total_operator_candidates = total_operator_candidates + counters.operator_candidates;
        total_operator_matched = total_operator_matched + counters.operator_matched;
        std::mem::swap(&mut boundary, &mut candidates);
        layers.push(
            LayerMetric {
                row,
                input_states,
                tensor_entries_examined: counters.tensor_examined,
                tensor_entries_matched: counters.tensor_matched,
                row_operator_candidates: counters.operator_candidates,
                row_operator_matched: counters.operator_matched,
                completed_row_terms: completed,
                output_states,
                output_weight,
                elapsed: elapsed(&layer_start),
                peak_rss_bytes: peak_rss_bytes(),
            },
        );
        proof {
            assert forall|k: nat| 1 <= k <= row + 1 implies #[trigger] layer_total(nn, k, true)
                <= u128::MAX by {
                if k == row + 1 {
                    assert(output_weight == layer_total(nn, k, true));
                }
            }
        }
        row = row + 1;
    }
    proof {
        crate::mirror::lemma_orbit_count_exact(n as nat);
        lemma_key_paths_unit(nn);
        lemma_shards_sum_ext(boundary@, key_paths(nn, 0, unit()), unit_key());
        assert(shards_sum(boundary@, key_paths(nn, 0, unit())) == rooted(nn, (n + 0) as nat, true, unit()));
        assert(shards_sum(boundary@, key_paths(nn, 0, accept(nn))) == rooted(nn, (n + 0) as nat, true, accept(nn)));
        assert(layer_total(nn, nn, true) <= u128::MAX);
        assert(shards_sum(boundary@, unit_key()) <= u128::MAX);
    }
    let count = shards_count(n, &boundary)?;
    Ok(
        ContractionResult {
            n,
            count,
            elapsed: elapsed(&total_start),
            peak_states,
            tensor_entries_examined: 17,
            tensor_entries_matched: 17,
            row_operator_candidates: total_operator_candidates,
            row_operator_matched: total_operator_matched,
            peak_rss_bytes: peak_rss_bytes(),
            layers,
        },
    )
}

/// Reflection-sliced contraction over the legal columns with every layer
/// held in `shards` shards (a power of two up to 256) selected by
/// `shard_mode`, sorted and reduced in parallel.
pub fn contract_rows_d4_sharded_sparse_sort_reduce(n: usize, shards: usize, shard_mode: ShardMode) -> (result:
    Result<ContractionResult, String>)
    ensures
        sharded_spec(n as nat, shards as nat, result),
{
    contract_rows_d4_sharded_sparse_kernel(n, shards, shard_mode)
}

} // verus!
