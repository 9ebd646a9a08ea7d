//! Small-N direct sparse-tensor oracle for contraction-path diagnostics.
//!
//! This module consumes the explicit 17-entry `C` tensor. It is deliberately
//! generic and slower than the production row transfer; its purpose is to
//! measure actual nonzero support for candidate contraction trees.
use vstd::prelude::*;

use crate::boundary::PackedBoundary;
use crate::contract::{keys_strictly_sorted, reduce_sorted_candidates, sort_by_packed_key};
use crate::tensor::{SiteTensorC, sec_vi_c};
use crate::util::message;
use std::collections::HashMap;

verus! {

broadcast use vstd::std_specs::hash::group_hash_axioms;

/// The contraction tree to follow.
#[derive(Clone, Copy, Debug, PartialEq, Eq, Structural)]
pub enum PathKind {
    RowBlocks,
    ColumnBlocks,
    BalancedRectangles,
    SupportAwareGreedy,
}

/// A sparse tensor over numbered binary bonds: the bond of key bit `i` is
/// `indices[i]`.
pub struct SparseTensor {
    pub indices: Vec<u16>,
    pub entries: Vec<(PackedBoundary, u128)>,
}

/// Size and work counters of a contraction path.
#[derive(Clone, Copy, Debug)]
pub struct PathMetrics {
    pub count: u128,
    pub peak_support: usize,
    pub peak_rank: usize,
    pub local_tensor_entries_examined: u128,
    pub local_tensor_entries_accepted: u128,
    pub cartesian_pair_upper_bound: u128,
    pub matching_entry_pairs: u128,
    pub contractions: usize,
}

impl Default for PathMetrics {
    fn default() -> (metrics: Self)
        ensures
            metrics.count == 0,
            metrics.peak_support == 0,
            metrics.peak_rank == 0,
            metrics.local_tensor_entries_examined == 0,
            metrics.local_tensor_entries_accepted == 0,
            metrics.cartesian_pair_upper_bound == 0,
            metrics.matching_entry_pairs == 0,
            metrics.contractions == 0,
    {
        PathMetrics {
            count: 0,
            peak_support: 0,
            peak_rank: 0,
            local_tensor_entries_examined: 0,
            local_tensor_entries_accepted: 0,
            cartesian_pair_upper_bound: 0,
            matching_entry_pairs: 0,
            contractions: 0,
        }
    }
}

/// A partial contraction and the sites it covers.
pub struct Cluster {
    pub tensor: SparseTensor,
    pub sites: Vec<usize>,
}

/// The tensor keys fit `u128`: at most 128 bonds.
pub open spec fn cluster_ok(cluster: Cluster) -> bool {
    cluster.tensor.indices@.len() <= 128
}

proof fn lemma_small_products(n: int, row: int)
    requires
        1 <= n <= 0xffff,
        0 <= row < n,
    ensures
        n * (n - 1) <= 0xffff * 0xffff,
        2 * n * (n - 1) <= 2 * 0xffff * 0xffff,
        (n - 1) * (n - 1) <= 0xffff * 0xffff,
        row * (n - 1) <= 0xffff * 0xffff,
        row * n <= 0xffff * 0xffff,
        0 <= row * (n - 1),
        0 <= n * (n - 1),
{
    assert(n * (n - 1) <= 0xffff * 0xffff) by (nonlinear_arith) requires 1 <= n <= 0xffff;
    assert(2 * n * (n - 1) == 2 * (n * (n - 1))) by (nonlinear_arith);
    assert((n - 1) * (n - 1) <= 0xffff * 0xffff) by (nonlinear_arith) requires 1 <= n <= 0xffff;
    assert(row * (n - 1) <= 0xffff * 0xffff) by (nonlinear_arith) requires 0 <= row < n, n <= 0xffff;
    assert(row * n <= 0xffff * 0xffff) by (nonlinear_arith) requires 0 <= row < n, n <= 0xffff;
    assert(0 <= row * (n - 1)) by (nonlinear_arith) requires 0 <= row, n >= 1;
    assert(0 <= n * (n - 1)) by (nonlinear_arith) requires n >= 1;
}

/// The bond between site `(row, column)` and its right neighbour.
pub fn horizontal_id(n: usize, row: usize, column: usize) -> (id: u16)
    requires
        1 <= n <= 0xffff,
        row < n,
        column < n,
    ensures
        id == ((row * (n - 1) + column) as u128) as u16,
{
    proof {
        lemma_small_products(n as int, row as int);
    }
    ((row as u128 * (n as u128 - 1) + column as u128) as u16)
}

/// The bond between site `(row, column)` and the site below it.
pub fn vertical_id(n: usize, row: usize, column: usize) -> (id: u16)
    requires
        1 <= n <= 0xffff,
        row < n,
        column < n,
    ensures
        id == ((n * (n - 1) + row * n + column) as u128) as u16,
{
    proof {
        lemma_small_products(n as int, row as int);
    }
    ((n as u128 * (n as u128 - 1) + row as u128 * n as u128 + column as u128) as u16)
}

/// The bond between site `(row, column)` and the site below and to the right.
pub fn diag_dr_id(n: usize, row: usize, column: usize) -> (id: u16)
    requires
        1 <= n <= 0xffff,
        row < n,
        column < n,
    ensures
        id == ((2 * n * (n - 1) + row * (n - 1) + column) as u128) as u16,
{
    proof {
        lemma_small_products(n as int, row as int);
    }
    ((2 * (n as u128) * (n as u128 - 1) + row as u128 * (n as u128 - 1) + column as u128) as u16)
}

/// The bond between site `(row, column)` and the site below and to the left.
pub fn diag_dl_id(n: usize, row: usize, column: usize) -> (id: u16)
    requires
        1 <= n <= 0xffff,
        row < n,
        1 <= column < n,
    ensures
        id == ((2 * n * (n - 1) + (n - 1) * (n - 1) + row * (n - 1) + column - 1) as u128) as u16,
{
    proof {
        lemma_small_products(n as int, row as int);
    }
    ((2 * (n as u128) * (n as u128 - 1) + (n as u128 - 1) * (n as u128 - 1) + row as u128 * (n as u128 - 1)
        + column as u128 - 1) as u16)
}

fn push_leg(legs: &mut Vec<(u16, u8)>, id: u16, value: u8)
    ensures
        final(legs)@ == old(legs)@.push((id, value)),
{
    legs.push((id, value));
}


/// Sorts legs by bond with `slice::sort_unstable_by_key`. Stated: the result is
/// a reordering of the input in non-decreasing bond order.
#[verifier::external_body]
fn sort_legs(legs: &mut Vec<(u16, u8)>)
    ensures
        final(legs)@.to_multiset() == old(legs)@.to_multiset(),
        forall|i: int, j: int| 0 <= i <= j < final(legs)@.len() ==> final(legs)@[i].0 <= final(legs)@[j].0,
{
    legs.sort_unstable_by_key(|leg| leg.0);
}

/// Sorts bond numbers with `slice::sort_unstable`. Stated: the result is a
/// reordering of the input in non-decreasing order.
#[verifier::external_body]
fn sort_ids(ids: &mut Vec<u16>)
    ensures
        final(ids)@.to_multiset() == old(ids)@.to_multiset(),
        forall|i: int, j: int| 0 <= i <= j < final(ids)@.len() ==> final(ids)@[i] <= final(ids)@[j],
{
    ids.sort_unstable();
}

/// Sorts site numbers with `slice::sort_unstable`. Stated: the result is a
/// reordering of the input in non-decreasing order.
#[verifier::external_body]
pub(crate) fn sort_sites(sites: &mut Vec<usize>)
    ensures
        final(sites)@.to_multiset() == old(sites)@.to_multiset(),
        forall|i: int, j: int| 0 <= i <= j < final(sites)@.len() ==> final(sites)@[i] <= final(sites)@[j],
{
    sites.sort_unstable();
}

/// Whether two bond lists are equal.
fn same_ids(a: &Vec<u16>, b: &Vec<u16>) -> (same: bool)
    ensures
        same == (a@ == b@),
{
    if a.len() != b.len() {
        return false;
    }
    let mut i: usize = 0;
    while i < a.len()
        invariant
            a@.len() == b@.len(),
            i <= a@.len(),
            forall|k: int| 0 <= k < i ==> a@[k] == b@[k],
        decreases a@.len() - i,
    {
        if a[i] != b[i] {
            return false;
        }
        i = i + 1;
    }
    assert(a@ =~= b@);
    true
}

/// The explicit `C` of site `(row, column)` as a sparse tensor over its
/// internal bonds, and the number of entries that the board boundary admits.
fn site_tensor(n: usize, row: usize, column: usize) -> (site: Result<(SparseTensor, u128), String>)
    requires
        1 <= n <= 0xffff,
        row < n,
        column < n,
    ensures
        site matches Ok((tensor, accepted)) ==> tensor.indices@.len() <= 8 && keys_strictly_sorted(
            tensor.entries@,
        ) && accepted <= 17,
{
    let tensor = SiteTensorC::sec_vi();
    let entries = tensor.entries();
    let mut candidates: Vec<(PackedBoundary, u128)> = Vec::new();
    let mut canonical: Option<Vec<u16>> = None;
    let mut accepted_entries: u128 = 0;
    let mut e: usize = 0;
    while e < entries.len()
        invariant
            1 <= n <= 0xffff,
            row < n,
            column < n,
            entries@ == sec_vi_c(),
            e <= 17,
            accepted_entries <= e,
            candidates@.len() <= e,
            forall|k: int| 0 <= k < candidates@.len() ==> (#[trigger] candidates@[k]).1 <= 1,
            canonical matches Some(ids) ==> ids@.len() <= 8,
        decreases 17 - e,
    {
        let legs = entries[e].legs;
        let value = entries[e].value;
        proof {
            crate::exact_mps::lemma_c_binary(e as int);
        }
        if (row == 0 && legs.column_in != 0) || (row + 1 == n && legs.column_out != 1) || (column == 0
            && legs.row_in != 0) || (column + 1 == n && legs.row_out != 1) || ((row == 0 || column == 0)
            && legs.diag_dr_in != 0) || ((row == 0 || column + 1 == n) && legs.diag_dl_in != 0) {
            e = e + 1;
            continue;
        }
        accepted_entries = accepted_entries + 1;
        let mut site_legs: Vec<(u16, u8)> = Vec::new();
        if row > 0 {
            push_leg(&mut site_legs, vertical_id(n, row - 1, column), legs.column_in);
        }
        if row + 1 < n {
            push_leg(&mut site_legs, vertical_id(n, row, column), legs.column_out);
        }
        if column > 0 {
            push_leg(&mut site_legs, horizontal_id(n, row, column - 1), legs.row_in);
        }
        if column + 1 < n {
            push_leg(&mut site_legs, horizontal_id(n, row, column), legs.row_out);
        }
        if row > 0 && column > 0 {
            push_leg(&mut site_legs, diag_dr_id(n, row - 1, column - 1), legs.diag_dr_in);
        }
        if row + 1 < n && column + 1 < n {
            push_leg(&mut site_legs, diag_dr_id(n, row, column), legs.diag_dr_out);
        }
        if row > 0 && column + 1 < n {
            push_leg(&mut site_legs, diag_dl_id(n, row - 1, column + 1), legs.diag_dl_in);
        }
        if row + 1 < n && column > 0 {
            push_leg(&mut site_legs, diag_dl_id(n, row, column), legs.diag_dl_out);
        }
        assert(site_legs@.len() <= 8);
        let ghost unsorted = site_legs@;
        sort_legs(&mut site_legs);
        proof {
            vstd::seq_lib::to_multiset_len(site_legs@);
            vstd::seq_lib::to_multiset_len(unsorted);
        }
        let mut indices: Vec<u16> = Vec::new();
        let mut key: u128 = 0;
        let mut position: usize = 0;
        while position < site_legs.len()
            invariant
                position <= site_legs@.len(),
                site_legs@.len() <= 8,
                indices@.len() == position,
            decreases site_legs@.len() - position,
        {
            let (id, bit) = site_legs[position];
            indices.push(id);
            key = key | ((bit as u128 & 1) << (position as u128));
            position = position + 1;
        }
        match &canonical {
            Some(expected) => {
                if !same_ids(expected, &indices) {
                    return Err(message("local C entries produced inconsistent virtual indices"));
                }
            },
            None => {
                canonical = Some(indices);
            },
        }
        candidates.push((PackedBoundary(key), value));
        e = e + 1;
    }
    let ghost collected = candidates@;
    sort_by_packed_key(&mut candidates);
    proof {
        assert forall|key: u128| #[trigger] crate::transfer::weighted_sum(candidates@, crate::transfer::indicator(key)) <= u128::MAX by {
            crate::transfer::lemma_weighted_sum_permutation(collected, candidates@, crate::transfer::indicator(key));
            crate::transfer::lemma_indicator_le_total(collected, key);
            crate::ordering_oracle::lemma_unit_weights_total(collected);
        }
    }
    match reduce_sorted_candidates(&mut candidates, row) {
        Ok(()) => {},
        Err(_) => {
            return Err(message("local boundary contraction overflow"));
        },
    }
    let indices = match canonical {
        Some(ids) => ids,
        None => Vec::new(),
    };
    Ok((SparseTensor { indices, entries: candidates }, accepted_entries))
}


/// The bits of `key` at `positions`: bit `t` of the result is bit
/// `positions[t]` of `key`.
pub open spec fn project_bits(key: u128, positions: Seq<usize>) -> u128
    decreases positions.len(),
{
    if positions.len() == 0 {
        0
    } else {
        project_bits(key, positions.drop_last()) | (((key >> (positions.last() as u128)) & 1) << ((
        positions.len() - 1) as u128))
    }
}

/// The bits of `key` at `positions`, packed in order.
fn project_key(key: u128, positions: &Vec<usize>) -> (projected: u128)
    requires
        positions@.len() <= 128,
        forall|i: int| 0 <= i < positions@.len() ==> #[trigger] positions@[i] < 128,
    ensures
        projected == project_bits(key, positions@),
{
    let mut projected: u128 = 0;
    let mut target: usize = 0;
    while target < positions.len()
        invariant
            target <= positions@.len(),
            positions@.len() <= 128,
            forall|i: int| 0 <= i < positions@.len() ==> #[trigger] positions@[i] < 128,
            projected == project_bits(key, positions@.take(target as int)),
        decreases positions@.len() - target,
    {
        proof {
            assert(positions@.take(target + 1).drop_last() =~= positions@.take(target as int));
        }
        let source = positions[target];
        projected = projected | (((key >> (source as u128)) & 1) << (target as u128));
        target = target + 1;
    }
    proof {
        assert(positions@.take(target as int) =~= positions@);
    }
    projected
}

/// The position of bond `id` among `indices`.
fn position_of(indices: &Vec<u16>, id: u16) -> (position: Option<usize>)
    ensures
        position matches Some(p) ==> p < indices@.len() && indices@[p as int] == id,
        position is None ==> forall|i: int| 0 <= i < indices@.len() ==> indices@[i] != id,
{
    let mut i: usize = 0;
    while i < indices.len()
        invariant
            i <= indices@.len(),
            forall|k: int| 0 <= k < i ==> indices@[k] != id,
        decreases indices@.len() - i,
    {
        if indices[i] == id {
            return Some(i);
        }
        i = i + 1;
    }
    None
}

/// `ids` with each run of equal neighbours kept once.
pub open spec fn dedup_runs(ids: Seq<u16>) -> Seq<u16>
    decreases ids.len(),
{
    if ids.len() == 0 {
        Seq::empty()
    } else if ids.len() == 1 || ids.last() != ids[ids.len() - 2] {
        dedup_runs(ids.drop_last()).push(ids.last())
    } else {
        dedup_runs(ids.drop_last())
    }
}

/// The distinct values of a sorted bond list, in increasing order.
fn dedup_ids(ids: &Vec<u16>) -> (distinct: Vec<u16>)
    ensures
        distinct@.len() <= ids@.len(),
        distinct@ == dedup_runs(ids@),
{
    let mut distinct: Vec<u16> = Vec::new();
    let mut i: usize = 0;
    proof {
        assert(ids@.take(0) =~= Seq::<u16>::empty());
    }
    while i < ids.len()
        invariant
            i <= ids@.len(),
            distinct@.len() <= i,
            distinct@ == dedup_runs(ids@.take(i as int)),
        decreases ids@.len() - i,
    {
        proof {
            let t = ids@.take(i + 1);
            assert(t.drop_last() =~= ids@.take(i as int));
            assert(t.last() == ids@[i as int]);
            if i > 0 {
                assert(t[t.len() - 2] == ids@[i - 1]);
            }
        }
        if i == 0 || ids[i] != ids[i - 1] {
            distinct.push(ids[i]);
        }
        i = i + 1;
    }
    proof {
        assert(ids@.take(i as int) =~= ids@);
    }
    distinct
}

/// A contraction step leaves the local tensor counts alone and keeps the
/// matching entry pairs within the candidate pairs.
pub open spec fn counts_kept(before: PathMetrics, after: PathMetrics) -> bool {
    &&& after.local_tensor_entries_examined == before.local_tensor_entries_examined
    &&& after.local_tensor_entries_accepted == before.local_tensor_entries_accepted
    &&& before.matching_entry_pairs <= before.cartesian_pair_upper_bound ==> after.matching_entry_pairs
        <= after.cartesian_pair_upper_bound
}

/// Contract two sparse tensors over their shared bonds, counting candidate and
/// matching entry pairs.
fn contract_pair(left: SparseTensor, right: SparseTensor, metrics: &mut PathMetrics) -> (contracted: Result<
    SparseTensor,
    String,
>)
    requires
        left.indices@.len() <= 128,
        right.indices@.len() <= 128,
    ensures
        contracted matches Ok(t) ==> t.indices@.len() <= 128 && keys_strictly_sorted(t.entries@)
            && final(metrics).contractions == old(metrics).contractions + 1,
        contracted is Ok ==> counts_kept(*old(metrics), *final(metrics)),
{
    let mut left_shared: Vec<usize> = Vec::new();
    let mut right_shared: Vec<usize> = Vec::new();
    let mut left_position: usize = 0;
    while left_position < left.indices.len()
        invariant
            left.indices@.len() <= 128,
            right.indices@.len() <= 128,
            left_position <= left.indices@.len(),
            left_shared@.len() == right_shared@.len(),
            left_shared@.len() <= left_position,
            forall|i: int| 0 <= i < left_shared@.len() ==> #[trigger] left_shared@[i] < left.indices@.len(),
            forall|i: int| 0 <= i < right_shared@.len() ==> #[trigger] right_shared@[i] < right.indices@.len(),
        decreases left.indices@.len() - left_position,
    {
        match position_of(&right.indices, left.indices[left_position]) {
            Some(right_position) => {
                left_shared.push(left_position);
                right_shared.push(right_position);
            },
            None => {},
        }
        left_position = left_position + 1;
    }
    let mut output_indices: Vec<u16> = Vec::new();
    let mut i: usize = 0;
    while i < left.indices.len()
        invariant
            i <= left.indices@.len(),
            output_indices@.len() <= i,
        decreases left.indices@.len() - i,
    {
        if position_of(&right.indices, left.indices[i]).is_none() {
            output_indices.push(left.indices[i]);
        }
        i = i + 1;
    }
    let mut j: usize = 0;
    while j < right.indices.len()
        invariant
            j <= right.indices@.len(),
            output_indices@.len() <= left.indices@.len() + j,
        decreases right.indices@.len() - j,
    {
        if position_of(&left.indices, right.indices[j]).is_none() {
            output_indices.push(right.indices[j]);
        }
        j = j + 1;
    }
    sort_ids(&mut output_indices);
    let output_indices = dedup_ids(&output_indices);
    if output_indices.len() > 128 {
        return Err(message("diagnostic sparse tensor rank exceeds u128 key capacity"));
    }
    let mut from_left: Vec<bool> = Vec::new();
    let mut source_positions: Vec<usize> = Vec::new();
    let mut k: usize = 0;
    while k < output_indices.len()
        invariant
            k <= output_indices@.len(),
            from_left@.len() == k,
            source_positions@.len() == k,
            left.indices@.len() <= 128,
            right.indices@.len() <= 128,
            forall|i: int| 0 <= i < k ==> #[trigger] source_positions@[i] < 128,
        decreases output_indices@.len() - k,
    {
        match position_of(&left.indices, output_indices[k]) {
            Some(p) => {
                from_left.push(true);
                source_positions.push(p);
            },
            None => match position_of(&right.indices, output_indices[k]) {
                Some(p) => {
                    from_left.push(false);
                    source_positions.push(p);
                },
                None => {
                    return Err(message("output index belongs to neither input"));
                },
            },
        }
        k = k + 1;
    }
    let left_count = left.entries.len();
    let right_count = right.entries.len();
    assert((left_count as u128) * (right_count as u128) <= u128::MAX) by (nonlinear_arith)
        requires left_count < 0x1_0000_0000_0000_0000, right_count < 0x1_0000_0000_0000_0000;
    metrics.cartesian_pair_upper_bound = match metrics.cartesian_pair_upper_bound.checked_add(
        (left_count as u128) * (right_count as u128),
    ) {
        Some(v) => v,
        None => {
            return Err(message("diagnostic pair-product counter overflow"));
        },
    };
    let mut right_buckets: HashMap<u128, Vec<(PackedBoundary, u128)>> = HashMap::new();
    let mut r: usize = 0;
    while r < right.entries.len()
        invariant
            r <= right.entries@.len(),
            right_shared@.len() <= 128,
            forall|i: int| 0 <= i < right_shared@.len() ==> #[trigger] right_shared@[i] < right.indices@.len(),
            right.indices@.len() <= 128,
            forall|k: u128| #[trigger] right_buckets@.contains_key(k) ==> right_buckets@[k]@.len() <= r,
        decreases right.entries@.len() - r,
    {
        let shared = project_key(right.entries[r].0.0, &right_shared);
        let ghost before = right_buckets@;
        let mut bucket = match right_buckets.remove(&shared) {
            Some(bucket) => bucket,
            None => Vec::new(),
        };
        proof {
            assert(bucket@.len() <= r);
        }
        bucket.push(right.entries[r]);
        right_buckets.insert(shared, bucket);
        proof {
            assert forall|k: u128| #[trigger] right_buckets@.contains_key(k) implies right_buckets@[k]@.len() <= r + 1 by {
                if k != shared {
                    assert(before.contains_key(k));
                    assert(right_buckets@[k] == before[k]);
                }
            }
        }
        r = r + 1;
    }
    let mut accumulated: HashMap<u128, u128> = HashMap::new();
    let mut keys: Vec<u128> = Vec::new();
    let ghost base = *metrics;
    proof {
        assert(old(metrics).matching_entry_pairs <= old(metrics).cartesian_pair_upper_bound ==> base.matching_entry_pairs
            <= base.cartesian_pair_upper_bound - left_count * right_count);
    }
    let mut l: usize = 0;
    while l < left.entries.len()
        invariant
            l <= left.entries@.len(),
            metrics.contractions == old(metrics).contractions,
            left_count == left.entries@.len(),
            right_count == right.entries@.len(),
            metrics.local_tensor_entries_examined == old(metrics).local_tensor_entries_examined,
            metrics.local_tensor_entries_accepted == old(metrics).local_tensor_entries_accepted,
            metrics.cartesian_pair_upper_bound == base.cartesian_pair_upper_bound,
            metrics.matching_entry_pairs <= base.matching_entry_pairs + l * right_count,
            old(metrics).matching_entry_pairs <= old(metrics).cartesian_pair_upper_bound ==> base.matching_entry_pairs
                <= base.cartesian_pair_upper_bound - left_count * right_count,
            forall|k: u128| #[trigger] right_buckets@.contains_key(k) ==> right_buckets@[k]@.len() <= right_count,
            forall|i: int| 0 <= i < keys@.len() ==> accumulated@.contains_key(#[trigger] keys@[i]),
            left_shared@.len() <= 128,
            forall|i: int| 0 <= i < left_shared@.len() ==> #[trigger] left_shared@[i] < left.indices@.len(),
            left.indices@.len() <= 128,
            from_left@.len() == output_indices@.len(),
            source_positions@.len() == output_indices@.len(),
            output_indices@.len() <= 128,
            forall|i: int| 0 <= i < source_positions@.len() ==> #[trigger] source_positions@[i] < 128,
        decreases left.entries@.len() - l,
    {
        let (left_key, left_value) = left.entries[l];
        let shared_key = project_key(left_key.0, &left_shared);
        proof {
            assert((l + 1) * right_count == l * right_count + right_count) by (nonlinear_arith);
        }
        match right_buckets.get(&shared_key) {
            None => {},
            Some(bucket) => {
                proof {
                    assert(right_buckets@.contains_key(shared_key));
                    assert(bucket@.len() <= right_count);
                }
                metrics.matching_entry_pairs = match metrics.matching_entry_pairs.checked_add(bucket.len() as u128) {
                    Some(v) => v,
                    None => {
                        return Err(message("diagnostic match counter overflow"));
                    },
                };
                let mut r: usize = 0;
                while r < bucket.len()
                    invariant
                        r <= bucket@.len(),
                        forall|i: int| 0 <= i < keys@.len() ==> accumulated@.contains_key(#[trigger] keys@[i]),
                        from_left@.len() == output_indices@.len(),
                        source_positions@.len() == output_indices@.len(),
                        output_indices@.len() <= 128,
                        forall|i: int| 0 <= i < source_positions@.len() ==> #[trigger] source_positions@[i] < 128,
                    decreases bucket@.len() - r,
                {
                    let (right_key, right_value) = bucket[r];
                    let mut output_key: u128 = 0;
                    let mut target: usize = 0;
                    while target < output_indices.len()
                        invariant
                            target <= output_indices@.len(),
                            output_indices@.len() <= 128,
                            from_left@.len() == output_indices@.len(),
                            source_positions@.len() == output_indices@.len(),
                            forall|i: int| 0 <= i < source_positions@.len() ==> #[trigger] source_positions@[i] < 128,
                        decreases output_indices@.len() - target,
                    {
                        let source_key = if from_left[target] {
                            left_key.0
                        } else {
                            right_key.0
                        };
                        let source = source_positions[target];
                        output_key = output_key | (((source_key >> (source as u128)) & 1) << (target as u128));
                        target = target + 1;
                    }
                    let product = match left_value.checked_mul(right_value) {
                        Some(p) => p,
                        None => {
                            return Err(message("diagnostic tensor product overflow"));
                        },
                    };
                    let ghost before = accumulated@;
                    match accumulated.get(&output_key) {
                        Some(current) => {
                            let sum = match current.checked_add(product) {
                                Some(sum) => sum,
                                None => {
                                    return Err(message("diagnostic tensor reduction overflow"));
                                },
                            };
                            accumulated.insert(output_key, sum);
                        },
                        None => {
                            accumulated.insert(output_key, product);
                            keys.push(output_key);
                        },
                    }
                    proof {
                        assert forall|i: int| 0 <= i < keys@.len() implies accumulated@.contains_key(#[trigger] keys@[i]) by {
                            if keys@[i] != output_key {
                                assert(before.contains_key(keys@[i]));
                            }
                        }
                    }
                    r = r + 1;
                }
            },
        }
        l = l + 1;
    }
    let mut products: Vec<(PackedBoundary, u128)> = Vec::new();
    let mut k: usize = 0;
    while k < keys.len()
        invariant
            k <= keys@.len(),
        decreases keys@.len() - k,
    {
        match accumulated.get(&keys[k]) {
            Some(value) => {
                products.push((PackedBoundary(keys[k]), *value));
            },
            None => {},
        }
        k = k + 1;
    }
    sort_by_packed_key(&mut products);
    match reduce_sorted_candidates(&mut products, 0) {
        Ok(()) => {},
        Err(_) => {
            return Err(message("diagnostic tensor reduction overflow"));
        },
    }
    if products.len() > metrics.peak_support {
        metrics.peak_support = products.len();
    }
    if output_indices.len() > metrics.peak_rank {
        metrics.peak_rank = output_indices.len();
    }
    metrics.contractions = match metrics.contractions.checked_add(1) {
        Some(v) => v,
        None => {
            return Err(message("diagnostic contraction counter overflow"));
        },
    };
    Ok(SparseTensor { indices: output_indices, entries: products })
}

/// Contract two clusters into one covering both site sets.
fn contract_clusters(left: Cluster, right: Cluster, metrics: &mut PathMetrics) -> (contracted: Result<
    Cluster,
    String,
>)
    requires
        cluster_ok(left),
        cluster_ok(right),
    ensures
        contracted matches Ok(c) ==> cluster_ok(c) && final(metrics).contractions == old(metrics).contractions + 1,
        contracted is Ok ==> counts_kept(*old(metrics), *final(metrics)),
{
    let tensor = contract_pair(left.tensor, right.tensor, metrics)?;
    let mut sites = left.sites;
    let mut i: usize = 0;
    while i < right.sites.len()
        invariant
            i <= right.sites@.len(),
        decreases right.sites@.len() - i,
    {
        sites.push(right.sites[i]);
        i = i + 1;
    }
    sort_sites(&mut sites);
    Ok(Cluster { tensor, sites })
}


/// A copy of a cluster.
fn copy_cluster(cluster: &Cluster) -> (copy: Cluster)
    ensures
        copy.tensor.indices@ == cluster.tensor.indices@,
        copy.tensor.entries@ == cluster.tensor.entries@,
        copy.sites@ == cluster.sites@,
{
    let mut indices: Vec<u16> = Vec::new();
    let mut i: usize = 0;
    while i < cluster.tensor.indices.len()
        invariant
            i <= cluster.tensor.indices@.len(),
            indices@ == cluster.tensor.indices@.take(i as int),
        decreases cluster.tensor.indices@.len() - i,
    {
        indices.push(cluster.tensor.indices[i]);
        proof {
            assert(cluster.tensor.indices@.take(i as int + 1) =~= cluster.tensor.indices@.take(i as int).push(
                cluster.tensor.indices@[i as int],
            ));
        }
        i = i + 1;
    }
    let mut entries: Vec<(PackedBoundary, u128)> = Vec::new();
    let mut j: usize = 0;
    while j < cluster.tensor.entries.len()
        invariant
            j <= cluster.tensor.entries@.len(),
            entries@ == cluster.tensor.entries@.take(j as int),
        decreases cluster.tensor.entries@.len() - j,
    {
        entries.push(cluster.tensor.entries[j]);
        proof {
            assert(cluster.tensor.entries@.take(j as int + 1) =~= cluster.tensor.entries@.take(j as int).push(
                cluster.tensor.entries@[j as int],
            ));
        }
        j = j + 1;
    }
    let mut sites: Vec<usize> = Vec::new();
    let mut k: usize = 0;
    while k < cluster.sites.len()
        invariant
            k <= cluster.sites@.len(),
            sites@ == cluster.sites@.take(k as int),
        decreases cluster.sites@.len() - k,
    {
        sites.push(cluster.sites[k]);
        proof {
            assert(cluster.sites@.take(k as int + 1) =~= cluster.sites@.take(k as int).push(cluster.sites@[k as int]));
        }
        k = k + 1;
    }
    proof {
        assert(cluster.tensor.indices@.take(cluster.tensor.indices@.len() as int) =~= cluster.tensor.indices@);
        assert(cluster.tensor.entries@.take(cluster.tensor.entries@.len() as int) =~= cluster.tensor.entries@);
        assert(cluster.sites@.take(cluster.sites@.len() as int) =~= cluster.sites@);
    }
    Cluster { tensor: SparseTensor { indices, entries }, sites }
}

/// Every cluster of a list keeps its keys within `u128`.
pub open spec fn clusters_ok(clusters: Seq<Cluster>) -> bool {
    forall|i: int| 0 <= i < clusters.len() ==> cluster_ok(#[trigger] clusters[i])
}

/// Contract a list of clusters from left to right.
fn contract_sequence(clusters: Vec<Cluster>, metrics: &mut PathMetrics) -> (contracted: Result<Cluster, String>)
    requires
        clusters@.len() >= 1,
        clusters_ok(clusters@),
    ensures
        contracted matches Ok(c) ==> cluster_ok(c) && final(metrics).contractions == old(metrics).contractions
            + clusters@.len() - 1,
        contracted is Ok ==> counts_kept(*old(metrics), *final(metrics)),
{
    let count = clusters.len();
    let mut clusters = clusters;
    let mut accumulator = clusters.remove(0);
    let mut done: usize = 1;
    while clusters.len() > 0
        invariant
            clusters_ok(clusters@),
            cluster_ok(accumulator),
            done + clusters@.len() == count,
            metrics.contractions == old(metrics).contractions + done - 1,
            counts_kept(*old(metrics), *metrics),
        decreases clusters@.len(),
    {
        let next = clusters.remove(0);
        accumulator = contract_clusters(accumulator, next, metrics)?;
        done = done + 1;
    }
    Ok(accumulator)
}

/// The grid of site clusters of a board of side `n`.
pub open spec fn grid_ok(grid: Seq<Vec<Cluster>>, n: nat) -> bool {
    &&& grid.len() == n
    &&& forall|r: int| 0 <= r < n ==> (#[trigger] grid[r])@.len() == n && clusters_ok(grid[r]@)
}

/// Contract the rectangle `[row_start, row_end) x [column_start, column_end)`
/// of the grid by halving its longer side.
fn balanced_region(
    grid: &Vec<Vec<Cluster>>,
    row_start: usize,
    row_end: usize,
    column_start: usize,
    column_end: usize,
    metrics: &mut PathMetrics,
) -> (contracted: Result<Cluster, String>)
    requires
        grid_ok(grid@, grid@.len()),
        row_start < row_end <= grid@.len(),
        column_start < column_end <= grid@.len(),
    ensures
        contracted matches Ok(c) ==> cluster_ok(c) && final(metrics).contractions == old(metrics).contractions
            + (row_end - row_start) * (column_end - column_start) - 1,
        contracted is Ok ==> counts_kept(*old(metrics), *final(metrics)),
    decreases (row_end - row_start) + (column_end - column_start),
{
    let height = row_end - row_start;
    let width = column_end - column_start;
    if height == 1 && width == 1 {
        assert(clusters_ok(grid@[row_start as int]@));
        let copy = copy_cluster(&grid[row_start][column_start]);
        assert(cluster_ok(grid@[row_start as int]@[column_start as int]));
        return Ok(copy);
    }
    if width >= height {
        let middle = column_start + width / 2;
        let left = balanced_region(grid, row_start, row_end, column_start, middle, metrics)?;
        let right = balanced_region(grid, row_start, row_end, middle, column_end, metrics)?;
        let merged = contract_clusters(left, right, metrics)?;
        assert(height * (middle - column_start) + height * (column_end - middle) == height * width) by (nonlinear_arith)
            requires width == column_end - column_start, column_start <= middle <= column_end;
        Ok(merged)
    } else {
        let middle = row_start + height / 2;
        let top = balanced_region(grid, row_start, middle, column_start, column_end, metrics)?;
        let bottom = balanced_region(grid, middle, row_end, column_start, column_end, metrics)?;
        let merged = contract_clusters(top, bottom, metrics)?;
        assert((middle - row_start) * width + (row_end - middle) * width == height * width) by (nonlinear_arith)
            requires height == row_end - row_start, row_start <= middle <= row_end;
        Ok(merged)
    }
}

/// The number of entries of `left` that occur in `right`.
pub open spec fn shared_count(left: Seq<u16>, right: Seq<u16>) -> nat
    decreases left.len(),
{
    if left.len() == 0 {
        0
    } else {
        shared_count(left.drop_last(), right) + if right.contains(left.last()) {
            1nat
        } else {
            0nat
        }
    }
}

/// The number of bonds of `left` that `right` also carries.
fn shared_index_count(left: &SparseTensor, right: &SparseTensor) -> (shared: usize)
    ensures
        shared <= left.indices@.len(),
        shared == shared_count(left.indices@, right.indices@),
{
    let mut shared: usize = 0;
    let mut i: usize = 0;
    proof {
        assert(left.indices@.take(0) =~= Seq::<u16>::empty());
    }
    while i < left.indices.len()
        invariant
            i <= left.indices@.len(),
            shared <= i,
            shared == shared_count(left.indices@.take(i as int), right.indices@),
        decreases left.indices@.len() - i,
    {
        proof {
            let t = left.indices@.take(i + 1);
            assert(t.drop_last() =~= left.indices@.take(i as int));
            assert(t.last() == left.indices@[i as int]);
        }
        let ghost id = left.indices@[i as int];
        let found = position_of(&right.indices, left.indices[i]);
        proof {
            if found is Some {
                assert(right.indices@[found->0 as int] == id);
                assert(right.indices@.contains(id));
            }
        }
        if found.is_some() {
            shared = shared + 1;
        }
        i = i + 1;
    }
    proof {
        assert(left.indices@.take(i as int) =~= left.indices@);
    }
    shared
}

/// `a` precedes `b` in lexicographic order.
fn candidate_less(a: (u128, usize, usize, usize), b: (u128, usize, usize, usize)) -> (less: bool)
    ensures
        less == (a.0 < b.0 || (a.0 == b.0 && (a.1 < b.1 || (a.1 == b.1 && (a.2 < b.2 || (a.2 == b.2 && a.3
            < b.3)))))),
{
    a.0 < b.0 || (a.0 == b.0 && (a.1 < b.1 || (a.1 == b.1 && (a.2 < b.2 || (a.2 == b.2 && a.3 < b.3)))))
}

/// Repeatedly contract the pair of clusters with the smallest estimated output
/// support, preferring pairs that share bonds.
fn support_aware_greedy(clusters: Vec<Cluster>, metrics: &mut PathMetrics) -> (contracted: Result<
    Cluster,
    String,
>)
    requires
        clusters@.len() >= 1,
        clusters_ok(clusters@),
    ensures
        contracted matches Ok(c) ==> cluster_ok(c) && final(metrics).contractions == old(metrics).contractions
            + clusters@.len() - 1,
        contracted is Ok ==> counts_kept(*old(metrics), *final(metrics)),
{
    let count = clusters.len();
    let mut clusters = clusters;
    while clusters.len() > 1
        invariant
            clusters@.len() >= 1,
            clusters_ok(clusters@),
            metrics.contractions == old(metrics).contractions + count - clusters@.len(),
            clusters@.len() <= count,
            counts_kept(*old(metrics), *metrics),
        decreases clusters@.len(),
    {
        let length = clusters.len();
        let mut best: Option<(u128, usize, usize, usize)> = None;
        let mut left: usize = 0;
        while left < length
            invariant
                length == clusters@.len(),
                left <= length,
                clusters_ok(clusters@),
                best matches Some(b) ==> b.2 < b.3 < length,
            decreases length - left,
        {
            let mut right: usize = left + 1;
            while right < length
                invariant
                    length == clusters@.len(),
                    left < length,
                    left < right <= length,
                    clusters_ok(clusters@),
                    best matches Some(b) ==> b.2 < b.3 < length,
                decreases length - right,
            {
                let left_tensor = &clusters[left].tensor;
                let right_tensor = &clusters[right].tensor;
                let shared = shared_index_count(left_tensor, right_tensor);
                if !(shared == 0 && length > 2) {
                    assert(cluster_ok(clusters@[left as int]));
                    let total_rank = left_tensor.indices.len() + right_tensor.indices.len();
                    let output_rank = total_rank.saturating_sub(2 * shared);
                    let left_count = left_tensor.entries.len();
                    let right_count = right_tensor.entries.len();
                    assert((left_count as u128) * (right_count as u128) <= u128::MAX) by (nonlinear_arith)
                        requires left_count < 0x1_0000_0000_0000_0000, right_count < 0x1_0000_0000_0000_0000;
                    let support_product = (left_count as u128) * (right_count as u128);
                    let shift: u128 = if shared < 127 {
                        shared as u128
                    } else {
                        127
                    };
                    let estimated_support = support_product >> shift;
                    let score = match estimated_support.checked_mul(output_rank as u128 + 1) {
                        Some(product) => product,
                        None => u128::MAX,
                    };
                    let candidate = (score, output_rank, left, right);
                    let replace = match best {
                        None => true,
                        Some(current) => candidate_less(candidate, current),
                    };
                    if replace {
                        best = Some(candidate);
                    }
                }
                right = right + 1;
            }
            left = left + 1;
        }
        let (left, right) = match best {
            Some(b) => (b.2, b.3),
            None => {
                return Err(message("greedy path search found no legal pair"));
            },
        };
        let ghost before = clusters@;
        let right_cluster = clusters.swap_remove(right);
        let ghost middle = clusters@;
        assert(cluster_ok(before[right as int]));
        assert forall|i: int| 0 <= i < middle.len() implies cluster_ok(#[trigger] middle[i]) by {
            if i == right {
                assert(middle[i] == before.last());
                assert(cluster_ok(before[before.len() - 1]));
            } else {
                assert(middle[i] == before[i]);
            }
        }
        let left_cluster = clusters.swap_remove(left);
        let ghost after = clusters@;
        assert(cluster_ok(middle[left as int]));
        assert forall|i: int| 0 <= i < after.len() implies cluster_ok(#[trigger] after[i]) by {
            if i == left {
                assert(after[i] == middle.last());
                assert(cluster_ok(middle[middle.len() - 1]));
            } else {
                assert(after[i] == middle[i]);
            }
        }
        let merged = contract_clusters(left_cluster, right_cluster, metrics)?;
        clusters.push(merged);
    }
    Ok(clusters.remove(0))
}

/// Contract the board of side `n` along the requested path, measuring the
/// support and rank of every intermediate tensor.
pub fn contract_with_path(n: usize, path: PathKind) -> (result: Result<PathMetrics, String>)
    ensures
        n == 0 ==> (result matches Ok(m) && m.count == 1 && m.peak_support == 1 && m.contractions == 0),
        result matches Ok(m) ==> (n >= 1 ==> m.contractions == n * n - 1),
        result matches Ok(m) ==> (n >= 1 ==> m.local_tensor_entries_examined == 17 * n * n),
        result matches Ok(m) ==> m.matching_entry_pairs <= m.cartesian_pair_upper_bound,
{
    if n == 0 {
        let mut metrics = PathMetrics::default();
        metrics.count = 1;
        metrics.peak_support = 1;
        return Ok(metrics);
    }
    if n > 0xffff {
        return Err(message("diagnostic sparse tensor rank exceeds u128 key capacity"));
    }
    let mut grid: Vec<Vec<Cluster>> = Vec::new();
    let mut all: Vec<Cluster> = Vec::new();
    let mut metrics = PathMetrics::default();
    let mut row: usize = 0;
    while row < n
        invariant
            1 <= n <= 0xffff,
            row <= n,
            grid@.len() == row,
            forall|r: int| 0 <= r < row ==> (#[trigger] grid@[r])@.len() == n && clusters_ok(grid@[r]@),
            all@.len() == row * n,
            clusters_ok(all@),
            metrics.contractions == 0,
            metrics.local_tensor_entries_examined == (row * n) * 17,
            metrics.matching_entry_pairs == 0,
            metrics.cartesian_pair_upper_bound == 0,
            metrics.local_tensor_entries_accepted <= (row * n) * 17,
        decreases n - row,
    {
        let mut grid_row: Vec<Cluster> = Vec::new();
        let mut column: usize = 0;
        while column < n
            invariant
                1 <= n <= 0xffff,
                row < n,
                column <= n,
                grid_row@.len() == column,
                clusters_ok(grid_row@),
                all@.len() == row * n + column,
                clusters_ok(all@),
                metrics.contractions == 0,
                metrics.local_tensor_entries_examined == (row * n + column) * 17,
                metrics.matching_entry_pairs == 0,
                metrics.cartesian_pair_upper_bound == 0,
                metrics.local_tensor_entries_accepted <= (row * n + column) * 17,
            decreases n - column,
        {
            let (tensor, accepted_entries) = site_tensor(n, row, column)?;
            proof {
                assert((row * n + column) * 17 + 17 == (row * n + column + 1) * 17) by (nonlinear_arith);
                assert((row * n + column + 1) * 17 <= 0xffff * 0xffff * 17) by (nonlinear_arith)
                    requires row < n, column < n, n <= 0xffff;
            }
            metrics.local_tensor_entries_examined = metrics.local_tensor_entries_examined + 17;
            metrics.local_tensor_entries_accepted = metrics.local_tensor_entries_accepted + accepted_entries;
            if tensor.entries.len() > metrics.peak_support {
                metrics.peak_support = tensor.entries.len();
            }
            if tensor.indices.len() > metrics.peak_rank {
                metrics.peak_rank = tensor.indices.len();
            }
            proof {
                assert(row * n + column < n * n) by (nonlinear_arith) requires row < n, column < n;
                assert(n * n <= 0xffff * 0xffff) by (nonlinear_arith) requires n <= 0xffff;
            }
            let mut sites: Vec<usize> = Vec::new();
            sites.push(row * n + column);
            let cluster = Cluster { tensor, sites };
            let copy = copy_cluster(&cluster);
            grid_row.push(copy);
            all.push(cluster);
            column = column + 1;
        }
        grid.push(grid_row);
        assert((row + 1) * n == row * n + n) by (nonlinear_arith);
        row = row + 1;
    }
    let final_cluster = match path {
        PathKind::RowBlocks => {
            let mut rows: Vec<Cluster> = Vec::new();
            let mut r: usize = 0;
            while r < n
                invariant
                    1 <= n <= 0xffff,
                    r <= n,
                    grid_ok(grid@, n as nat),
                    rows@.len() == r,
                    clusters_ok(rows@),
                    metrics.contractions == r * (n - 1),
                    metrics.local_tensor_entries_examined == (n * n) * 17,
                    metrics.matching_entry_pairs <= metrics.cartesian_pair_upper_bound,
                decreases n - r,
            {
                let mut sequence: Vec<Cluster> = Vec::new();
                let mut c: usize = 0;
                while c < n
                    invariant
                        r < n,
                        c <= n,
                        grid_ok(grid@, n as nat),
                        sequence@.len() == c,
                        clusters_ok(sequence@),
                    decreases n - c,
                {
                    assert(clusters_ok(grid@[r as int]@));
                    assert(cluster_ok(grid@[r as int]@[c as int]));
                    sequence.push(copy_cluster(&grid[r][c]));
                    c = c + 1;
                }
                let block = contract_sequence(sequence, &mut metrics)?;
                rows.push(block);
                assert((r + 1) * (n - 1) == r * (n - 1) + (n - 1)) by (nonlinear_arith);
                r = r + 1;
            }
            let result = contract_sequence(rows, &mut metrics)?;
            assert(n * (n - 1) + (n - 1) == n * n - 1) by (nonlinear_arith) requires n >= 1;
            result
        },
        PathKind::ColumnBlocks => {
            let mut columns: Vec<Cluster> = Vec::new();
            let mut c: usize = 0;
            while c < n
                invariant
                    1 <= n <= 0xffff,
                    c <= n,
                    grid_ok(grid@, n as nat),
                    columns@.len() == c,
                    clusters_ok(columns@),
                    metrics.contractions == c * (n - 1),
                    metrics.local_tensor_entries_examined == (n * n) * 17,
                    metrics.matching_entry_pairs <= metrics.cartesian_pair_upper_bound,
                decreases n - c,
            {
                let mut sequence: Vec<Cluster> = Vec::new();
                let mut r: usize = 0;
                while r < n
                    invariant
                        c < n,
                        r <= n,
                        grid_ok(grid@, n as nat),
                        sequence@.len() == r,
                        clusters_ok(sequence@),
                    decreases n - r,
                {
                    assert(clusters_ok(grid@[r as int]@));
                    assert(cluster_ok(grid@[r as int]@[c as int]));
                    sequence.push(copy_cluster(&grid[r][c]));
                    r = r + 1;
                }
                let block = contract_sequence(sequence, &mut metrics)?;
                columns.push(block);
                assert((c + 1) * (n - 1) == c * (n - 1) + (n - 1)) by (nonlinear_arith);
                c = c + 1;
            }
            let result = contract_sequence(columns, &mut metrics)?;
            assert(n * (n - 1) + (n - 1) == n * n - 1) by (nonlinear_arith) requires n >= 1;
            result
        },
        PathKind::BalancedRectangles => balanced_region(&grid, 0, n, 0, n, &mut metrics)?,
        PathKind::SupportAwareGreedy => {
            assert(all@.len() == n * n);
            assert(n * n >= 1) by (nonlinear_arith) requires n >= 1;
            let result = support_aware_greedy(all, &mut metrics)?;
            result
        },
    };
    proof {
        assert((n * n) * 17 == 17 * n * n) by (nonlinear_arith);
    }
    if final_cluster.tensor.indices.len() != 0 {
        return Err(message("final diagnostic tensor retained open virtual bonds"));
    }
    let mut count: u128 = 0;
    let mut i: usize = 0;
    while i < final_cluster.tensor.entries.len()
        invariant
            n >= 1,
            i <= final_cluster.tensor.entries@.len(),
        decreases final_cluster.tensor.entries@.len() - i,
    {
        count = match count.checked_add(final_cluster.tensor.entries[i].1) {
            Some(v) => v,
            None => {
                return Err(message("final diagnostic count overflow"));
            },
        };
        i = i + 1;
    }
    metrics.count = count;
    Ok(metrics)
}

} // verus!
