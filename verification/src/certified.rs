//! The certified tail for the explicit Sec. VI occupied entry: completions of
//! a frontier are counted with `u64` arithmetic bounded by a limit, directly
//! on the three signal words, with the last row decided by whether any column
//! is still legal. A count past the limit is abandoned for the exact `u128`
//! recursion.
use vstd::prelude::*;

use crate::boundary::{BoundaryState, board_mask_spec, has_bit, state_fits};
use crate::tensor::occupied_legs;
use crate::transfer::{
    accept, available_spec, cell_free, lemma_available_bit, lemma_lowest_bit, lemma_scan_bounds,
    lemma_scan_step, lemma_successors_skip, lemma_trailing_zeros_of_bit, low_mask, paths, place,
    row_successors, row_successors_upto, sum_paths,
};
use crate::boundary::{PackedBoundary, unpack_spec};
use crate::contract::{ContractionResult, lemma_weighted_sum_take_step};
use crate::entries::{EntryLayout, LayerEntry, terms_of};
use crate::joint::{JointEntry, coefficient_mask, contract_rows_d4_joint_u64_kernel, joint_layout, joint_mask};
use crate::packed_layers::PackedKernelResult;
use crate::recursive_tail::{RecursiveTailRelation, flatten_shards, par_tail_tasks, tail_task_done};
use crate::row::CompiledRowOperator;
use crate::transfer::{board_count, key_paths, layer_total, rooted, weighted_sum};
use crate::util::{elapsed, message, now, peak_rss_bytes, zero_duration};
use rayon::iter::{IntoParallelRefIterator, ParallelIterator};
use std::time::Duration;
use vstd::std_specs::bits::u64_trailing_zeros;

verus! {

broadcast use crate::mirror::lemma_orbit_count_exact;

/// The plan of the certified tail: the relation is the explicit occupied
/// entry of Sec. VI.
#[derive(Clone, Copy, Debug, PartialEq, Eq, Structural)]
pub struct CertifiedSecViTailPlan;

impl CertifiedSecViTailPlan {
    /// Accepts exactly the occupied Sec. VI entry.
    pub fn compile(relation: RecursiveTailRelation) -> (plan: Result<Self, String>)
        ensures
            plan is Ok <==> relation.legs == occupied_legs() && relation.value == 1,
    {
        let legs = relation.legs;
        if legs.column_in != 0 || legs.column_out != 1 || legs.row_in != 0 || legs.row_out != 1
            || legs.diag_dr_in != 0 || legs.diag_dr_out != 1 || legs.diag_dl_in != 0 || legs.diag_dl_out
            != 1 || relation.value != 1 {
            return Err(message("certified tail fast path requires the explicit Sec. VI occupied C entry"));
        }
        Ok(CertifiedSecViTailPlan)
    }
}

/// The number of set bits of `x` below bit `k`.
pub open spec fn used_upto(x: u64, k: nat) -> nat
    decreases k,
{
    if k == 0 {
        0
    } else {
        used_upto(x, (k - 1) as nat) + if has_bit(x, (k - 1) as nat) {
            1nat
        } else {
            0nat
        }
    }
}

/// Bit facts of the certified tail: setting one bit, the bits of a board
/// mask, the bits of an exclusive or, and a word with no set bit.
proof fn lemma_tail_bits(x: u64, b: u64, c: u64, i: u64, n: u64)
    by (bit_vector)
    requires
        c < 64,
        i < 64,
        n < 64,
    ensures
        (((x | (1u64 << c)) >> i) & 1u64 == 1u64) == (((x >> i) & 1u64 == 1u64) || i == c),
        b == ((1u64 << n) - 1u64) as u64 ==> ((((b >> i) & 1u64) == 1u64) == (i < n)),
        ((((x ^ b) >> i) & 1u64) == 1u64) == (((x >> i) & 1u64 == 1u64) != ((b >> i) & 1u64 == 1u64)),
        i < 63 ==> ((x >> ((i + 1) as u64) == 0 && (x >> i) & 1u64 != 1u64) ==> x >> i == 0),
        ((x >> 63u64) & 1u64 != 1u64) ==> x >> 63u64 == 0,
        x >> 0u64 == x,
        (x ^ b) == 0 ==> x == b,
        (x >> n == 0 && n <= i) ==> (x >> i) & 1u64 != 1u64,
        (0u64 >> i) & 1u64 != 1u64,
{
}

/// No bit of zero is set.
pub(crate) proof fn lemma_zero_bit(i: nat)
    requires
        i < 64,
    ensures
        !has_bit(0, i),
{
    lemma_tail_bits(0, 0, 0, i as u64, 0);
}

/// Setting an unset bit `c` adds one below every bound past `c`.
proof fn lemma_used_set(x: u64, c: nat, k: nat)
    requires
        c < 64,
        k <= 64,
        !has_bit(x, c),
    ensures
        used_upto(x | (1u64 << (c as u64)), k) == used_upto(x, k) + if c < k {
            1nat
        } else {
            0nat
        },
    decreases k,
{
    if k > 0 {
        lemma_used_set(x, c, (k - 1) as nat);
        lemma_tail_bits(x, 0, c as u64, (k - 1) as u64, 0);
    }
}

/// A word with no set bit at or above `k` has nothing left after shifting by
/// `k`.
proof fn lemma_no_bits_above(z: u64, k: nat)
    requires
        k < 64,
        forall|i: nat| k <= i < 64 ==> !#[trigger] has_bit(z, i),
    ensures
        z >> (k as u64) == 0,
    decreases 64 - k,
{
    lemma_tail_bits(z, 0, 0, k as u64, 0);
    if k < 63 {
        lemma_no_bits_above(z, k + 1);
        assert(!has_bit(z, k));
    } else {
        assert(!has_bit(z, 63));
    }
}

/// A fitting word with all `n` low bits set is the board mask.
proof fn lemma_full_columns(x: u64, n: nat)
    requires
        1 <= n <= 63,
        x >> (n as u64) == 0,
        used_upto(x, n) == n,
    ensures
        x == board_mask_spec(n),
{
    let b = board_mask_spec(n);
    lemma_used_all(x, n);
    assert forall|i: nat| 0 <= i < 64 implies !#[trigger] has_bit(x ^ b, i) by {
        lemma_full_bit(x, n, i);
    }
    lemma_no_bits_above(x ^ b, 0);
    lemma_tail_bits(x ^ b, 0, 0, 0, 0);
    lemma_tail_bits(x, b, 0, 0, n as u64);
}

proof fn lemma_full_bit(x: u64, n: nat, i: nat)
    requires
        1 <= n <= 63,
        i < 64,
        x >> (n as u64) == 0,
        forall|j: nat| j < n ==> #[trigger] has_bit(x, j),
    ensures
        !has_bit(x ^ board_mask_spec(n), i),
{
    let b = board_mask_spec(n);
    lemma_tail_bits(x, b, 0, i as u64, n as u64);
    if i < n {
        assert(has_bit(x, i));
    }
}

/// When every bit below `k` is counted, every bit below `k` is set.
proof fn lemma_used_all(x: u64, k: nat)
    requires
        used_upto(x, k) == k,
    ensures
        forall|i: nat| i < k ==> #[trigger] has_bit(x, i),
    decreases k,
{
    if k > 0 {
        lemma_used_le(x, (k - 1) as nat);
        lemma_used_all(x, (k - 1) as nat);
    }
}

proof fn lemma_used_le(x: u64, k: nat)
    ensures
        used_upto(x, k) <= k,
    decreases k,
{
    if k > 0 {
        lemma_used_le(x, (k - 1) as nat);
    }
}

/// Placing a queen in a legal column uses one more column.
pub(crate) proof fn lemma_place_used(n: nat, s: BoundaryState, c: nat)
    requires
        c < n <= 63,
        cell_free(s, c),
    ensures
        used_upto(place(n, s, c).columns, n) == used_upto(s.columns, n) + 1,
{
    lemma_used_set(s.columns, c, n);
}

/// Each legal column below `k` is an unused one.
pub(crate) proof fn lemma_successors_unused(n: nat, s: BoundaryState, k: nat)
    ensures
        row_successors_upto(n, s, k).len() + used_upto(s.columns, k) <= k,
    decreases k,
{
    if k > 0 {
        lemma_successors_unused(n, s, (k - 1) as nat);
    }
}

/// With one column left, every frontier below the row is accepted.
proof fn lemma_successors_accepted(n: nat, s: BoundaryState, k: nat)
    requires
        1 <= n <= 63,
        k <= n,
        state_fits(s, n),
        used_upto(s.columns, n) + 1 == n,
    ensures
        forall|i: int|
            0 <= i < row_successors_upto(n, s, k).len() ==> accept(n)(#[trigger] row_successors_upto(
                n,
                s,
                k,
            )[i]) == 1,
    decreases k,
{
    if k > 0 {
        let c = (k - 1) as nat;
        lemma_successors_accepted(n, s, c);
        let prev = row_successors_upto(n, s, c);
        let succ = row_successors_upto(n, s, k);
        if cell_free(s, c) {
            lemma_place_used(n, s, c);
            crate::transfer::lemma_place_fits(n, s, c);
            lemma_full_columns(place(n, s, c).columns, n);
            assert forall|i: int| 0 <= i < succ.len() implies accept(n)(#[trigger] succ[i]) == 1 by {
                if i < prev.len() {
                    assert(succ[i] == prev[i]);
                }
            }
        } else {
            assert(succ == prev);
        }
    }
}

/// A path sum of zero further rows over frontiers that are all accepted is
/// their number.
proof fn lemma_sum_accepted(n: nat, states: Seq<BoundaryState>)
    requires
        forall|i: int| 0 <= i < states.len() ==> accept(n)(#[trigger] states[i]) == 1,
    ensures
        sum_paths(n, 0, states, accept(n)) == states.len(),
    decreases states.len(),
{
    if states.len() > 0 {
        let a = states.drop_last();
        assert forall|i: int| 0 <= i < a.len() implies accept(n)(#[trigger] a[i]) == 1 by {
            assert(a[i] == states[i]);
        }
        lemma_sum_accepted(n, a);
        assert(accept(n)(states[states.len() - 1]) == 1);
        assert(paths(n, 0, states.last(), accept(n)) == accept(n)(states.last()));
    }
}

/// With one column left, the last row completes exactly when some column is
/// still legal.
pub proof fn lemma_last_row(n: nat, s: BoundaryState)
    requires
        1 <= n <= 63,
        state_fits(s, n),
        used_upto(s.columns, n) + 1 == n,
    ensures
        paths(n, 1, s, accept(n)) == if available_spec(n, s) != 0 {
            1nat
        } else {
            0nat
        },
{
    let succ = row_successors(n, s);
    lemma_successors_accepted(n, s, n);
    lemma_sum_accepted(n, succ);
    lemma_successors_unused(n, s, n);
    assert(paths(n, 1, s, accept(n)) == sum_paths(n, 0, succ, accept(n)));
    let a = available_spec(n, s);
    if a != 0 {
        vstd::std_specs::bits::axiom_u64_trailing_zeros(a);
        let t = u64_trailing_zeros(a) as nat;
        lemma_tail_bits(a, 0, 0, t as u64, 0);
        assert(has_bit(a, t)) by {
            let negated = 0u64.wrapping_sub(a) as u64;
            lemma_lowest_bit(a, (0x1_0000_0000_0000_0000int - a) as u64);
        }
        lemma_available_bit(n, s, t);
        crate::recursive_tail::lemma_successors_prefix(n, s, t + 1, n);
        assert(row_successors_upto(n, s, t + 1) =~= row_successors_upto(n, s, t).push(place(n, s, t)));
        assert(succ.len() >= 1);
    } else {
        assert forall|c: nat| 0 <= c < n implies !#[trigger] cell_free(s, c) by {
            lemma_available_bit(n, s, c);
            lemma_tail_bits(0, 0, 0, c as u64, 0);
        }
        lemma_successors_skip(n, s, 0, n);
    }
}

/// Steps the scan of the legal columns of `s` past its lowest set bit.
pub(crate) proof fn lemma_scan_next(n: nat, s: BoundaryState, avail: u64, positions: u64, negated: u64, k: nat) -> (t: nat)
    requires
        1 <= n <= 63,
        k <= n,
        avail == available_spec(n, s),
        positions == avail & !low_mask(k),
        positions != 0,
        negated as int + positions as int == 0x1_0000_0000_0000_0000int,
    ensures
        k <= t < n,
        cell_free(s, t),
        t == u64_trailing_zeros(positions),
        positions & negated == 1u64 << (t as u64),
        positions & ((positions - 1) as u64) == avail & !low_mask(t + 1),
        positions & ((positions - 1) as u64) < positions,
        row_successors_upto(n, s, t + 1) == row_successors_upto(n, s, k).push(place(n, s, t)),
        forall|c: nat| k <= c < t ==> !#[trigger] cell_free(s, c),
{
    lemma_lowest_bit(positions, negated);
    lemma_trailing_zeros_of_bit(u64_trailing_zeros(positions) as u64);
    lemma_scan_bounds(avail, positions, k);
    let t = u64_trailing_zeros(positions) as nat;
    lemma_scan_step(avail, positions, k, t);
    lemma_available_bit(n, s, t);
    assert forall|c: nat| k <= c < t implies !#[trigger] cell_free(s, c) by {
        lemma_available_bit(n, s, c);
    }
    lemma_successors_skip(n, s, k, t);
    assert(row_successors_upto(n, s, t + 1) =~= row_successors_upto(n, s, t).push(place(n, s, t)));
    t
}

/// The scan of the legal columns of `s` is finished.
pub(crate) proof fn lemma_scan_done(n: nat, s: BoundaryState, avail: u64, k: nat)
    requires
        1 <= n <= 63,
        k <= n,
        avail == available_spec(n, s),
        avail & !low_mask(k) == 0,
    ensures
        row_successors_upto(n, s, k) == row_successors(n, s),
{
    lemma_scan_bounds(avail, avail & !low_mask(k), k);
    assert forall|c: nat| k <= c < n implies !#[trigger] cell_free(s, c) by {
        lemma_available_bit(n, s, c);
    }
    lemma_successors_skip(n, s, k, n);
}

/// The frontier after a queen in the column of the single set bit of
/// `selected`.
pub(crate) fn certified_tail_successor(columns: u64, diag_dr: u64, diag_dl: u64, selected: u64, board_mask: u64) -> (next: (
    u64,
    u64,
    u64,
))
    ensures
        forall|n: nat, c: nat|
            board_mask == board_mask_spec(n) && c < n && n < 64 && selected == 1u64 << (c as u64) ==> {
                let p = #[trigger] place(n, BoundaryState { columns, diag_dr, diag_dl }, c);
                next == (p.columns, p.diag_dr, p.diag_dl)
            },
{
    (columns | selected, ((diag_dr | selected) << 1u64) & board_mask, (diag_dl | selected) >> 1u64)
}

/// The legal columns of three signal words, as the tail computes them.
pub(crate) proof fn lemma_available_words(c: u64, d: u64, e: u64, b: u64)
    by (bit_vector)
    ensures
        !(c | d | e) & b == (!c & b) & (!d & b) & (!e & b),
{
}

/// The frontier of three signal words.
pub open spec fn words(columns: u64, diag_dr: u64, diag_dl: u64) -> BoundaryState {
    BoundaryState { columns, diag_dr, diag_dl }
}

/// What a certified count returns: the completions of the frontier over the
/// remaining rows, present exactly when they are at most the limit.
pub open spec fn certified_done(n: nat, remaining: nat, s: BoundaryState, limit: nat, result: Option<u64>) -> bool {
    &&& result matches Some(c) ==> c == paths(n, remaining, s, accept(n))
    &&& result is Some <==> paths(n, remaining, s, accept(n)) <= limit
}

/// The frontier is one reached after `n - remaining` rows: it fits, and it
/// uses exactly that many columns.
pub open spec fn tail_ready(n: nat, remaining: nat, s: BoundaryState) -> bool {
    &&& 1 <= n <= 63
    &&& remaining <= n
    &&& state_fits(s, n)
    &&& used_upto(s.columns, n) + remaining == n
}

/// Count the completions of a frontier over `remaining_rows` rows with `u64`
/// sums bounded by `coefficient_limit`, or `None` once one passes it.
pub fn contract_certified_tail_u64(
    Ghost(n): Ghost<nat>,
    remaining_rows: usize,
    columns: u64,
    diag_dr: u64,
    diag_dl: u64,
    board_mask: u64,
    coefficient_limit: u64,
) -> (count: Option<u64>)
    requires
        tail_ready(n, remaining_rows as nat, words(columns, diag_dr, diag_dl)),
        board_mask == board_mask_spec(n),
        coefficient_limit >= 1,
    ensures
        certified_done(n, remaining_rows as nat, words(columns, diag_dr, diag_dl), coefficient_limit as nat, count),
    decreases remaining_rows,
{
    let ghost s = words(columns, diag_dr, diag_dl);
    let ghost f = accept(n);
    if remaining_rows == 0 {
        if columns == board_mask {
            return Some(1);
        } else {
            return Some(0);
        }
    }
    let mut positions = !(columns | diag_dr | diag_dl) & board_mask;
    let ghost avail = available_spec(n, s);
    proof {
        lemma_available_words(columns, diag_dr, diag_dl, board_mask);
        crate::sitewise::lemma_no_low_bits(avail);
    }
    if remaining_rows == 1 {
        proof {
            lemma_last_row(n, s);
        }
        if positions != 0 {
            return Some(1);
        } else {
            return Some(0);
        }
    }
    let mut count: u64 = 0;
    let ghost mut k: nat = 0;
    let ghost r = (remaining_rows - 1) as nat;
    while positions != 0
        invariant
            tail_ready(n, remaining_rows as nat, s),
            s == words(columns, diag_dr, diag_dl),
            f == accept(n),
            board_mask == board_mask_spec(n),
            coefficient_limit >= 1,
            remaining_rows >= 2,
            r == remaining_rows - 1,
            k <= n,
            avail == available_spec(n, s),
            positions == avail & !low_mask(k),
            count == sum_paths(n, r, row_successors_upto(n, s, k), f),
            count <= coefficient_limit,
        decreases positions,
    {
        let negated = 0u64.wrapping_sub(positions);
        let selected = positions & negated;
        let ghost t = lemma_scan_next(n, s, avail, positions, negated, k);
        positions = positions & (positions - 1);
        let (next_columns, next_dr, next_dl) = certified_tail_successor(columns, diag_dr, diag_dl, selected, board_mask);
        let ghost child_state = place(n, s, t);
        proof {
            assert(words(next_columns, next_dr, next_dl) == child_state);
            lemma_place_used(n, s, t);
            crate::transfer::lemma_place_fits(n, s, t);
            let succ = row_successors_upto(n, s, t + 1);
            assert(succ.drop_last() == row_successors_upto(n, s, k));
            assert(sum_paths(n, r, succ, f) == count + paths(n, r, child_state, f));
            crate::recursive_tail::lemma_partial_le_paths(n, r, s, t + 1, f);
            assert(paths(n, remaining_rows as nat, s, f) == paths(n, (r + 1) as nat, s, f));
        }
        let child = match contract_certified_tail_u64(
            Ghost(n),
            remaining_rows - 1,
            next_columns,
            next_dr,
            next_dl,
            board_mask,
            coefficient_limit,
        ) {
            Some(c) => c,
            None => {
                return None;
            },
        };
        count = match count.checked_add(child) {
            Some(sum) => {
                if sum <= coefficient_limit {
                    sum
                } else {
                    return None;
                }
            },
            None => {
                return None;
            },
        };
        proof {
            k = t + 1;
        }
    }
    proof {
        lemma_scan_done(n, s, avail, k);
        assert(paths(n, remaining_rows as nat, s, f) == paths(n, (r + 1) as nat, s, f));
    }
    Some(count)
}

/// Count the completions over the last two to four rows with three nested
/// column scans, each innermost frontier decided by its last legal column.
pub fn contract_certified_last_four_u64(
    Ghost(n): Ghost<nat>,
    remaining_rows: usize,
    columns: u64,
    diag_dr: u64,
    diag_dl: u64,
    board_mask: u64,
    coefficient_limit: u64,
) -> (count: Option<u64>)
    requires
        2 <= remaining_rows <= 4,
        tail_ready(n, remaining_rows as nat, words(columns, diag_dr, diag_dl)),
        board_mask == board_mask_spec(n),
        coefficient_limit >= 1,
    ensures
        certified_done(n, remaining_rows as nat, words(columns, diag_dr, diag_dl), coefficient_limit as nat, count),
{
    let ghost s = words(columns, diag_dr, diag_dl);
    let ghost f = accept(n);
    let ghost r = remaining_rows as nat;
    let ghost total = paths(n, r, s, f);
    let mut count: u64 = 0;
    let mut first = !(columns | diag_dr | diag_dl) & board_mask;
    let ghost avail = available_spec(n, s);
    proof {
        lemma_available_words(columns, diag_dr, diag_dl, board_mask);
        crate::sitewise::lemma_no_low_bits(avail);
        assert(total == paths(n, ((r - 1) + 1) as nat, s, f));
    }
    let ghost mut k1: nat = 0;
    while first != 0
        invariant
            tail_ready(n, r, s),
            s == words(columns, diag_dr, diag_dl),
            f == accept(n),
            r == remaining_rows,
            2 <= r <= 4,
            total == paths(n, r, s, f),
            total == paths(n, ((r - 1) + 1) as nat, s, f),
            board_mask == board_mask_spec(n),
            coefficient_limit >= 1,
            k1 <= n,
            avail == available_spec(n, s),
            first == avail & !low_mask(k1),
            count == sum_paths(n, (r - 1) as nat, row_successors_upto(n, s, k1), f),
            count <= coefficient_limit,
        decreases first,
    {
        let negated1 = 0u64.wrapping_sub(first);
        let q1 = first & negated1;
        let ghost t1 = lemma_scan_next(n, s, avail, first, negated1, k1);
        first = first & (first - 1);
        let (columns1, diag_dr1, diag_dl1) = certified_tail_successor(columns, diag_dr, diag_dl, q1, board_mask);
        let ghost s1 = place(n, s, t1);
        let ghost base1 = count as nat;
        proof {
            assert(words(columns1, diag_dr1, diag_dl1) == s1);
            lemma_place_used(n, s, t1);
            crate::transfer::lemma_place_fits(n, s, t1);
            let succ = row_successors_upto(n, s, t1 + 1);
            assert(succ.drop_last() == row_successors_upto(n, s, k1));
            assert(sum_paths(n, (r - 1) as nat, succ, f) == base1 + paths(n, (r - 1) as nat, s1, f));
            crate::recursive_tail::lemma_partial_le_paths(n, (r - 1) as nat, s, t1 + 1, f);
        }
        let mut second = !(columns1 | diag_dr1 | diag_dl1) & board_mask;
        let ghost avail1 = available_spec(n, s1);
        proof {
            lemma_available_words(columns1, diag_dr1, diag_dl1, board_mask);
            crate::sitewise::lemma_no_low_bits(avail1);
        }
        if remaining_rows == 2 {
            proof {
                lemma_last_row(n, s1);
            }
            let add: u64 = if second != 0 {
                1
            } else {
                0
            };
            count = match count.checked_add(add) {
                Some(sum) => {
                    if sum <= coefficient_limit {
                        sum
                    } else {
                        return None;
                    }
                },
                None => {
                    return None;
                },
            };
            proof {
                k1 = t1 + 1;
            }
            continue;
        }
        let ghost mut k2: nat = 0;
        proof {
            assert(paths(n, (r - 1) as nat, s1, f) == paths(n, ((r - 2) + 1) as nat, s1, f));
        }
        while second != 0
            invariant
                tail_ready(n, r, s),
                tail_ready(n, (r - 1) as nat, s1),
                s == words(columns, diag_dr, diag_dl),
                s1 == words(columns1, diag_dr1, diag_dl1),
                f == accept(n),
                r == remaining_rows,
                3 <= r <= 4,
                total == paths(n, r, s, f),
                board_mask == board_mask_spec(n),
                coefficient_limit >= 1,
                t1 < n,
                avail == available_spec(n, s),
                first == avail & !low_mask(t1 + 1),
                base1 + paths(n, (r - 1) as nat, s1, f) == sum_paths(
                    n,
                    (r - 1) as nat,
                    row_successors_upto(n, s, t1 + 1),
                    f,
                ),
                sum_paths(n, (r - 1) as nat, row_successors_upto(n, s, t1 + 1), f) <= total,
                paths(n, (r - 1) as nat, s1, f) == paths(n, ((r - 2) + 1) as nat, s1, f),
                k2 <= n,
                avail1 == available_spec(n, s1),
                second == avail1 & !low_mask(k2),
                count == base1 + sum_paths(n, (r - 2) as nat, row_successors_upto(n, s1, k2), f),
                count <= coefficient_limit,
            decreases second,
        {
            let negated2 = 0u64.wrapping_sub(second);
            let q2 = second & negated2;
            let ghost t2 = lemma_scan_next(n, s1, avail1, second, negated2, k2);
            second = second & (second - 1);
            let (columns2, diag_dr2, diag_dl2) = certified_tail_successor(
                columns1,
                diag_dr1,
                diag_dl1,
                q2,
                board_mask,
            );
            let ghost s2 = place(n, s1, t2);
            let ghost base2 = count as nat;
            proof {
                assert(words(columns2, diag_dr2, diag_dl2) == s2);
                lemma_place_used(n, s1, t2);
                crate::transfer::lemma_place_fits(n, s1, t2);
                let succ = row_successors_upto(n, s1, t2 + 1);
                assert(succ.drop_last() == row_successors_upto(n, s1, k2));
                assert(sum_paths(n, (r - 2) as nat, succ, f) == (base2 - base1) + paths(n, (r - 2) as nat, s2, f));
                crate::recursive_tail::lemma_partial_le_paths(n, (r - 2) as nat, s1, t2 + 1, f);
            }
            let mut third = !(columns2 | diag_dr2 | diag_dl2) & board_mask;
            let ghost avail2 = available_spec(n, s2);
            proof {
                lemma_available_words(columns2, diag_dr2, diag_dl2, board_mask);
                crate::sitewise::lemma_no_low_bits(avail2);
            }
            if remaining_rows == 3 {
                proof {
                    lemma_last_row(n, s2);
                }
                let add: u64 = if third != 0 {
                    1
                } else {
                    0
                };
                count = match count.checked_add(add) {
                    Some(sum) => {
                        if sum <= coefficient_limit {
                            sum
                        } else {
                            return None;
                        }
                    },
                    None => {
                        return None;
                    },
                };
                proof {
                    k2 = t2 + 1;
                }
                continue;
            }
            let ghost mut k3: nat = 0;
            proof {
                assert(paths(n, 2, s2, f) == paths(n, (1 + 1) as nat, s2, f));
            }
            while third != 0
                invariant
                    tail_ready(n, 4, s),
                    tail_ready(n, 3, s1),
                    tail_ready(n, 2, s2),
                    s == words(columns, diag_dr, diag_dl),
                    s1 == words(columns1, diag_dr1, diag_dl1),
                    s2 == words(columns2, diag_dr2, diag_dl2),
                    f == accept(n),
                    r == remaining_rows,
                    r == 4,
                    total == paths(n, r, s, f),
                    board_mask == board_mask_spec(n),
                    coefficient_limit >= 1,
                    t1 < n,
                    t2 < n,
                    avail == available_spec(n, s),
                    first == avail & !low_mask(t1 + 1),
                    avail1 == available_spec(n, s1),
                    second == avail1 & !low_mask(t2 + 1),
                    base1 + paths(n, 3, s1, f) == sum_paths(n, 3, row_successors_upto(n, s, t1 + 1), f),
                    sum_paths(n, 3, row_successors_upto(n, s, t1 + 1), f) <= total,
                    paths(n, 3, s1, f) == paths(n, (2 + 1) as nat, s1, f),
                    (base2 - base1) + paths(n, 2, s2, f) == sum_paths(n, 2, row_successors_upto(n, s1, t2 + 1), f),
                    sum_paths(n, 2, row_successors_upto(n, s1, t2 + 1), f) <= paths(n, 3, s1, f),
                    base1 <= base2,
                    paths(n, 2, s2, f) == paths(n, (1 + 1) as nat, s2, f),
                    k3 <= n,
                    avail2 == available_spec(n, s2),
                    third == avail2 & !low_mask(k3),
                    count == base2 + sum_paths(n, 1, row_successors_upto(n, s2, k3), f),
                    count <= coefficient_limit,
                decreases third,
            {
                let negated3 = 0u64.wrapping_sub(third);
                let q3 = third & negated3;
                let ghost t3 = lemma_scan_next(n, s2, avail2, third, negated3, k3);
                third = third & (third - 1);
                let (columns3, diag_dr3, diag_dl3) = certified_tail_successor(
                    columns2,
                    diag_dr2,
                    diag_dl2,
                    q3,
                    board_mask,
                );
                let ghost s3 = place(n, s2, t3);
                proof {
                    assert(words(columns3, diag_dr3, diag_dl3) == s3);
                    lemma_place_used(n, s2, t3);
                    crate::transfer::lemma_place_fits(n, s2, t3);
                    let succ = row_successors_upto(n, s2, t3 + 1);
                    assert(succ.drop_last() == row_successors_upto(n, s2, k3));
                    assert(sum_paths(n, 1, succ, f) == (count - base2) + paths(n, 1, s3, f));
                    crate::recursive_tail::lemma_partial_le_paths(n, 1, s2, t3 + 1, f);
                    lemma_last_row(n, s3);
                }
                let fourth = !(columns3 | diag_dr3 | diag_dl3) & board_mask;
                proof {
                    lemma_available_words(columns3, diag_dr3, diag_dl3, board_mask);
                }
                let add: u64 = if fourth != 0 {
                    1
                } else {
                    0
                };
                count = match count.checked_add(add) {
                    Some(sum) => {
                        if sum <= coefficient_limit {
                            sum
                        } else {
                            return None;
                        }
                    },
                    None => {
                        return None;
                    },
                };
                proof {
                    k3 = t3 + 1;
                }
            }
            proof {
                lemma_scan_done(n, s2, avail2, k3);
                k2 = t2 + 1;
            }
        }
        proof {
            lemma_scan_done(n, s1, avail1, k2);
            k1 = t1 + 1;
        }
    }
    proof {
        lemma_scan_done(n, s, avail, k1);
    }
    Some(count)
}

/// Count the completions over the last five rows: one column scan over the
/// four-row kernel.
pub fn contract_certified_last_five_u64(
    Ghost(n): Ghost<nat>,
    columns: u64,
    diag_dr: u64,
    diag_dl: u64,
    board_mask: u64,
    coefficient_limit: u64,
) -> (count: Option<u64>)
    requires
        tail_ready(n, 5, words(columns, diag_dr, diag_dl)),
        board_mask == board_mask_spec(n),
        coefficient_limit >= 1,
    ensures
        certified_done(n, 5, words(columns, diag_dr, diag_dl), coefficient_limit as nat, count),
{
    let ghost s = words(columns, diag_dr, diag_dl);
    let ghost f = accept(n);
    let mut count: u64 = 0;
    let mut first = !(columns | diag_dr | diag_dl) & board_mask;
    let ghost avail = available_spec(n, s);
    proof {
        lemma_available_words(columns, diag_dr, diag_dl, board_mask);
        crate::sitewise::lemma_no_low_bits(avail);
        assert(paths(n, 5, s, f) == paths(n, (4 + 1) as nat, s, f));
    }
    let ghost mut k: nat = 0;
    while first != 0
        invariant
            tail_ready(n, 5, s),
            s == words(columns, diag_dr, diag_dl),
            f == accept(n),
            paths(n, 5, s, f) == paths(n, (4 + 1) as nat, s, f),
            board_mask == board_mask_spec(n),
            coefficient_limit >= 1,
            k <= n,
            avail == available_spec(n, s),
            first == avail & !low_mask(k),
            count == sum_paths(n, 4, row_successors_upto(n, s, k), f),
            count <= coefficient_limit,
        decreases first,
    {
        let negated = 0u64.wrapping_sub(first);
        let selected = first & negated;
        let ghost t = lemma_scan_next(n, s, avail, first, negated, k);
        first = first & (first - 1);
        let (next_columns, next_dr, next_dl) = certified_tail_successor(columns, diag_dr, diag_dl, selected, board_mask);
        let ghost child_state = place(n, s, t);
        proof {
            assert(words(next_columns, next_dr, next_dl) == child_state);
            lemma_place_used(n, s, t);
            crate::transfer::lemma_place_fits(n, s, t);
            let succ = row_successors_upto(n, s, t + 1);
            assert(succ.drop_last() == row_successors_upto(n, s, k));
            assert(sum_paths(n, 4, succ, f) == count + paths(n, 4, child_state, f));
            crate::recursive_tail::lemma_partial_le_paths(n, 4, s, t + 1, f);
        }
        let child = match contract_certified_last_four_u64(
            Ghost(n),
            4,
            next_columns,
            next_dr,
            next_dl,
            board_mask,
            coefficient_limit,
        ) {
            Some(c) => c,
            None => {
                return None;
            },
        };
        count = match count.checked_add(child) {
            Some(sum) => {
                if sum <= coefficient_limit {
                    sum
                } else {
                    return None;
                }
            },
            None => {
                return None;
            },
        };
        proof {
            k = t + 1;
        }
    }
    proof {
        lemma_scan_done(n, s, avail, k);
    }
    Some(count)
}

/// Count the completions over the last six rows: one column scan over the
/// five-row kernel.
pub fn contract_certified_last_six_u64(
    Ghost(n): Ghost<nat>,
    columns: u64,
    diag_dr: u64,
    diag_dl: u64,
    board_mask: u64,
    coefficient_limit: u64,
) -> (count: Option<u64>)
    requires
        tail_ready(n, 6, words(columns, diag_dr, diag_dl)),
        board_mask == board_mask_spec(n),
        coefficient_limit >= 1,
    ensures
        certified_done(n, 6, words(columns, diag_dr, diag_dl), coefficient_limit as nat, count),
{
    let ghost s = words(columns, diag_dr, diag_dl);
    let ghost f = accept(n);
    let mut count: u64 = 0;
    let mut first = !(columns | diag_dr | diag_dl) & board_mask;
    let ghost avail = available_spec(n, s);
    proof {
        lemma_available_words(columns, diag_dr, diag_dl, board_mask);
        crate::sitewise::lemma_no_low_bits(avail);
        assert(paths(n, 6, s, f) == paths(n, (5 + 1) as nat, s, f));
    }
    let ghost mut k: nat = 0;
    while first != 0
        invariant
            tail_ready(n, 6, s),
            s == words(columns, diag_dr, diag_dl),
            f == accept(n),
            paths(n, 6, s, f) == paths(n, (5 + 1) as nat, s, f),
            board_mask == board_mask_spec(n),
            coefficient_limit >= 1,
            k <= n,
            avail == available_spec(n, s),
            first == avail & !low_mask(k),
            count == sum_paths(n, 5, row_successors_upto(n, s, k), f),
            count <= coefficient_limit,
        decreases first,
    {
        let negated = 0u64.wrapping_sub(first);
        let selected = first & negated;
        let ghost t = lemma_scan_next(n, s, avail, first, negated, k);
        first = first & (first - 1);
        let (next_columns, next_dr, next_dl) = certified_tail_successor(columns, diag_dr, diag_dl, selected, board_mask);
        let ghost child_state = place(n, s, t);
        proof {
            assert(words(next_columns, next_dr, next_dl) == child_state);
            lemma_place_used(n, s, t);
            crate::transfer::lemma_place_fits(n, s, t);
            let succ = row_successors_upto(n, s, t + 1);
            assert(succ.drop_last() == row_successors_upto(n, s, k));
            assert(sum_paths(n, 5, succ, f) == count + paths(n, 5, child_state, f));
            crate::recursive_tail::lemma_partial_le_paths(n, 5, s, t + 1, f);
        }
        let child = match contract_certified_last_five_u64(
            Ghost(n),
            next_columns,
            next_dr,
            next_dl,
            board_mask,
            coefficient_limit,
        ) {
            Some(c) => c,
            None => {
                return None;
            },
        };
        count = match count.checked_add(child) {
            Some(sum) => {
                if sum <= coefficient_limit {
                    sum
                } else {
                    return None;
                }
            },
            None => {
                return None;
            },
        };
        proof {
            k = t + 1;
        }
    }
    proof {
        lemma_scan_done(n, s, avail, k);
    }
    Some(count)
}

/// Count the completions with the recursion, handing the last `LAST_K` rows
/// (at most six) to the unrolled kernels.
pub fn contract_certified_tail_last_k_u64<const LAST_K: usize>(
    Ghost(n): Ghost<nat>,
    remaining_rows: usize,
    columns: u64,
    diag_dr: u64,
    diag_dl: u64,
    board_mask: u64,
    coefficient_limit: u64,
) -> (count: Option<u64>)
    requires
        LAST_K <= 6,
        tail_ready(n, remaining_rows as nat, words(columns, diag_dr, diag_dl)),
        board_mask == board_mask_spec(n),
        coefficient_limit >= 1,
    ensures
        certified_done(n, remaining_rows as nat, words(columns, diag_dr, diag_dl), coefficient_limit as nat, count),
    decreases remaining_rows,
{
    let ghost s = words(columns, diag_dr, diag_dl);
    let ghost f = accept(n);
    if remaining_rows == 0 {
        if columns == board_mask {
            return Some(1);
        } else {
            return Some(0);
        }
    }
    let mut positions = !(columns | diag_dr | diag_dl) & board_mask;
    let ghost avail = available_spec(n, s);
    proof {
        lemma_available_words(columns, diag_dr, diag_dl, board_mask);
        crate::sitewise::lemma_no_low_bits(avail);
    }
    if remaining_rows == 1 {
        proof {
            lemma_last_row(n, s);
        }
        if positions != 0 {
            return Some(1);
        } else {
            return Some(0);
        }
    }
    if remaining_rows <= LAST_K {
        if remaining_rows <= 4 {
            return contract_certified_last_four_u64(
                Ghost(n),
                remaining_rows,
                columns,
                diag_dr,
                diag_dl,
                board_mask,
                coefficient_limit,
            );
        } else if remaining_rows == 5 {
            return contract_certified_last_five_u64(Ghost(n), columns, diag_dr, diag_dl, board_mask, coefficient_limit);
        } else {
            return contract_certified_last_six_u64(Ghost(n), columns, diag_dr, diag_dl, board_mask, coefficient_limit);
        }
    }
    let mut count: u64 = 0;
    let ghost mut k: nat = 0;
    let ghost r = (remaining_rows - 1) as nat;
    while positions != 0
        invariant
            tail_ready(n, remaining_rows as nat, s),
            s == words(columns, diag_dr, diag_dl),
            f == accept(n),
            board_mask == board_mask_spec(n),
            coefficient_limit >= 1,
            LAST_K <= 6,
            remaining_rows >= 2,
            r == remaining_rows - 1,
            k <= n,
            avail == available_spec(n, s),
            positions == avail & !low_mask(k),
            count == sum_paths(n, r, row_successors_upto(n, s, k), f),
            count <= coefficient_limit,
        decreases positions,
    {
        let negated = 0u64.wrapping_sub(positions);
        let selected = positions & negated;
        let ghost t = lemma_scan_next(n, s, avail, positions, negated, k);
        positions = positions & (positions - 1);
        let (next_columns, next_dr, next_dl) = certified_tail_successor(columns, diag_dr, diag_dl, selected, board_mask);
        let ghost child_state = place(n, s, t);
        proof {
            assert(words(next_columns, next_dr, next_dl) == child_state);
            lemma_place_used(n, s, t);
            crate::transfer::lemma_place_fits(n, s, t);
            let succ = row_successors_upto(n, s, t + 1);
            assert(succ.drop_last() == row_successors_upto(n, s, k));
            assert(sum_paths(n, r, succ, f) == count + paths(n, r, child_state, f));
            crate::recursive_tail::lemma_partial_le_paths(n, r, s, t + 1, f);
            assert(paths(n, remaining_rows as nat, s, f) == paths(n, (r + 1) as nat, s, f));
        }
        let child = match contract_certified_tail_last_k_u64::<LAST_K>(
            Ghost(n),
            remaining_rows - 1,
            next_columns,
            next_dr,
            next_dl,
            board_mask,
            coefficient_limit,
        ) {
            Some(c) => c,
            None => {
                return None;
            },
        };
        count = match count.checked_add(child) {
            Some(sum) => {
                if sum <= coefficient_limit {
                    sum
                } else {
                    return None;
                }
            },
            None => {
                return None;
            },
        };
        proof {
            k = t + 1;
        }
    }
    proof {
        lemma_scan_done(n, s, avail, k);
        assert(paths(n, remaining_rows as nat, s, f) == paths(n, (r + 1) as nat, s, f));
    }
    Some(count)
}

/// The number of set bits of `columns` below bit `n`.
fn used_columns(columns: u64, n: usize) -> (used: usize)
    requires
        n <= 63,
    ensures
        used == used_upto(columns, n as nat),
{
    let mut used: usize = 0;
    let mut c: usize = 0;
    while c < n
        invariant
            c <= n <= 63,
            used == used_upto(columns, c as nat),
            used <= c,
        decreases n - c,
    {
        proof {
            lemma_used_le(columns, c as nat);
        }
        if (columns >> (c as u64)) & 1u64 == 1u64 {
            used = used + 1;
        }
        c = c + 1;
    }
    used
}

/// What the certified count of one prefix entry returns: its coefficient
/// times its completions; for a frontier reached after `cut` rows and a
/// supported kernel, present exactly when both are at most the limit.
pub open spec fn certified_task_done(
    term: (PackedBoundary, u128),
    n: nat,
    cut: nat,
    limit: nat,
    microkernel_rows: nat,
    result: Option<u64>,
) -> bool {
    let s = unpack_spec(term.0.0, n);
    let completions = paths(n, (n - cut) as nat, s, accept(n));
    &&& result matches Some(v) ==> v == (term.1 as nat) * completions
    &&& microkernel_rows <= 4 && used_upto(s.columns, n) == cut ==> (result is Some <==> completions <= limit
        && (term.1 as nat) * completions <= limit)
}

/// Count the completions of one prefix entry with the kernel chosen by
/// `microkernel_rows` (the plain recursion for 0 or 1, the last-k kernels
/// for 2 to 4) and weight them by its coefficient, all within the limit. A
/// frontier that does not use exactly `cut` columns is not counted here.
pub fn certified_task(
    entry: JointEntry,
    n: usize,
    cut: usize,
    layout: EntryLayout,
    coefficient_limit: u64,
    board_mask: u64,
    microkernel_rows: usize,
) -> (result: Option<u64>)
    requires
        1 <= n <= 21,
        cut <= n,
        JointEntry::layout_ok(layout),
        board_mask == board_mask_spec(n as nat),
        coefficient_limit >= 1,
    ensures
        certified_task_done(entry.term(layout), n as nat, cut as nat, coefficient_limit as nat, microkernel_rows as nat, result),
{
    let key = entry.stored_key(layout);
    let weight = entry.stored_weight(layout) as u64;
    let state = PackedBoundary(key as u128).unpack(n);
    let ghost nn = n as nat;
    if used_columns(state.columns, n) != cut {
        return None;
    }
    let remaining = n - cut;
    let completions = if microkernel_rows <= 1 {
        contract_certified_tail_u64(Ghost(nn), remaining, state.columns, state.diag_dr, state.diag_dl, board_mask, coefficient_limit)
    } else if microkernel_rows == 2 {
        contract_certified_tail_last_k_u64::<2>(Ghost(nn), remaining, state.columns, state.diag_dr, state.diag_dl, board_mask, coefficient_limit)
    } else if microkernel_rows == 3 {
        contract_certified_tail_last_k_u64::<3>(Ghost(nn), remaining, state.columns, state.diag_dr, state.diag_dl, board_mask, coefficient_limit)
    } else if microkernel_rows == 4 {
        contract_certified_tail_last_k_u64::<4>(Ghost(nn), remaining, state.columns, state.diag_dr, state.diag_dl, board_mask, coefficient_limit)
    } else {
        None
    };
    let completions = match completions {
        Some(c) => c,
        None => {
            return None;
        },
    };
    proof {
        assert(completions * weight == weight * completions) by (nonlinear_arith);
    }
    match completions.checked_mul(weight) {
        Some(weighted) => {
            if weighted <= coefficient_limit {
                Some(weighted)
            } else {
                None
            }
        },
        None => None,
    }
}

/// Counts each prefix entry with `certified_task`, the entries in parallel
/// through rayon's `par_iter`, `map` and `collect`, which calls the closure
/// once on each entry and returns the results in the order of the entries.
/// Stated: one result per entry, each what `certified_task` ensures of it.
#[verifier::external_body]
fn par_certified_tasks(
    tasks: &Vec<JointEntry>,
    n: usize,
    cut: usize,
    layout: EntryLayout,
    coefficient_limit: u64,
    board_mask: u64,
    microkernel_rows: usize,
) -> (results: Vec<Option<u64>>)
    requires
        1 <= n <= 21,
        cut <= n,
        JointEntry::layout_ok(layout),
        board_mask == board_mask_spec(n as nat),
        coefficient_limit >= 1,
    ensures
        results@.len() == tasks@.len(),
        forall|i: int|
            0 <= i < tasks@.len() ==> certified_task_done(
                (#[trigger] tasks@[i]).term(layout),
                n as nat,
                cut as nat,
                coefficient_limit as nat,
                microkernel_rows as nat,
                results@[i],
            ),
{
    tasks.par_iter().map(
        |&entry| certified_task(entry, n, cut, layout, coefficient_limit, board_mask, microkernel_rows),
    ).collect()
}

/// The certified count over all prefix entries, within the limit; `None`
/// once anything passes it or for an unsupported kernel.
/// Each prefix entry is a frontier that uses exactly `cut` columns.
pub open spec fn tasks_at_cut(tasks: Seq<JointEntry>, layout: EntryLayout, n: nat, cut: nat) -> bool {
    forall|i: int|
        0 <= i < tasks.len() ==> used_upto(unpack_spec((#[trigger] tasks[i]).term(layout).0.0, n).columns, n) == cut
}

/// The prefix entries can be completed within `limit`: their weighted
/// completions and the completions of each are within it.
pub open spec fn tasks_within(tasks: Seq<JointEntry>, layout: EntryLayout, n: nat, cut: nat, limit: nat) -> bool {
    &&& weighted_sum(terms_of(tasks, layout), key_paths(n, (n - cut) as nat, accept(n))) <= limit
    &&& forall|i: int|
        0 <= i < tasks.len() ==> paths(
            n,
            (n - cut) as nat,
            unpack_spec((#[trigger] tasks[i]).term(layout).0.0, n),
            accept(n),
        ) <= limit
}

pub fn contract_certified_tail_tasks_u64(
    tasks: &Vec<JointEntry>,
    n: usize,
    cut: usize,
    layout: EntryLayout,
    coefficient_limit: u64,
    board_mask: u64,
    microkernel_rows: usize,
) -> (total: Option<u64>)
    requires
        1 <= n <= 21,
        cut <= n,
        JointEntry::layout_ok(layout),
        board_mask == board_mask_spec(n as nat),
        coefficient_limit >= 1,
    ensures
        total matches Some(t) ==> t == weighted_sum(
            terms_of(tasks@, layout),
            key_paths(n as nat, (n - cut) as nat, accept(n as nat)),
        ) && t <= coefficient_limit,
        microkernel_rows > 4 ==> total is None,
        microkernel_rows <= 4 && tasks_at_cut(tasks@, layout, n as nat, cut as nat) ==> (total is Some <==> tasks_within(
            tasks@,
            layout,
            n as nat,
            cut as nat,
            coefficient_limit as nat,
        )),
{
    if microkernel_rows > 4 {
        return None;
    }
    let results = par_certified_tasks(tasks, n, cut, layout, coefficient_limit, board_mask, microkernel_rows);
    let ghost terms = terms_of(tasks@, layout);
    let ghost g = key_paths(n as nat, (n - cut) as nat, accept(n as nat));
    let mut total: u64 = 0;
    let mut i: usize = 0;
    while i < results.len()
        invariant
            1 <= n <= 21,
            cut <= n,
            results@.len() == tasks@.len(),
            terms == terms_of(tasks@, layout),
            g == key_paths(n as nat, (n - cut) as nat, accept(n as nat)),
            forall|t: int|
                0 <= t < tasks@.len() ==> certified_task_done(
                    (#[trigger] tasks@[t]).term(layout),
                    n as nat,
                    cut as nat,
                    coefficient_limit as nat,
                    microkernel_rows as nat,
                    results@[t],
                ),
            i <= results@.len(),
            total == weighted_sum(terms.take(i as int), g),
            total <= coefficient_limit,
            microkernel_rows <= 4,
            tasks_at_cut(tasks@, layout, n as nat, cut as nat) ==> forall|t: int|
                0 <= t < i ==> paths(
                    n as nat,
                    (n - cut) as nat,
                    unpack_spec((#[trigger] tasks@[t]).term(layout).0.0, n as nat),
                    accept(n as nat),
                ) <= coefficient_limit,
        decreases results@.len() - i,
    {
        let ghost c = paths(
            n as nat,
            (n - cut) as nat,
            unpack_spec(tasks@[i as int].term(layout).0.0, n as nat),
            accept(n as nat),
        );
        let ghost w = tasks@[i as int].term(layout).1 as nat;
        proof {
            lemma_weighted_sum_take_step(terms, i as int, g);
            assert(terms[i as int] == tasks@[i as int].term(layout));
            crate::contract::lemma_weighted_sum_prefix_le(terms, i + 1, g);
            assert(terms.len() == tasks@.len());
            assert(weighted_sum(terms.take(i + 1), g) == total + w * c);
        }
        let value = match results[i] {
            Some(v) => v,
            None => {
                proof {
                    if tasks_at_cut(tasks@, layout, n as nat, cut as nat) {
                        if c <= coefficient_limit {
                            assert(w * c > coefficient_limit);
                        }
                        assert(!tasks_within(tasks@, layout, n as nat, cut as nat, coefficient_limit as nat));
                    }
                }
                return None;
            },
        };
        proof {
            assert(value == w * c);
        }
        total = match total.checked_add(value) {
            Some(sum) => {
                if sum <= coefficient_limit {
                    sum
                } else {
                    return None;
                }
            },
            None => {
                return None;
            },
        };
        proof {
            if tasks_at_cut(tasks@, layout, n as nat, cut as nat) {
                assert(c <= coefficient_limit);
            }
        }
        i = i + 1;
    }
    proof {
        assert(terms.take(i as int) =~= terms);
    }
    Some(total)
}

/// Replays every prefix entry with the exact `u128` recursion, summing the
/// counts and the recursion work.
fn replay_tasks(
    tasks: &Vec<JointEntry>,
    n: usize,
    cut: usize,
    relation: RecursiveTailRelation,
    board_mask: u64,
    layout: EntryLayout,
    adaptive: bool,
) -> (replayed: Result<(u128, u128, u128), String>)
    requires
        1 <= n <= 21,
        cut <= n,
        relation.legs == occupied_legs(),
        relation.value == 1,
        board_mask == board_mask_spec(n as nat),
        JointEntry::layout_ok(layout),
    ensures
        replayed matches Ok(r) ==> r.0 == weighted_sum(
            terms_of(tasks@, layout),
            key_paths(n as nat, (n - cut) as nat, accept(n as nat)),
        ),
        replayed is Ok <==> tasks_within(tasks@, layout, n as nat, cut as nat, u128::MAX as nat),
{
    let results = par_tail_tasks(tasks, n, cut, relation, board_mask, layout);
    let ghost terms = terms_of(tasks@, layout);
    let ghost g = key_paths(n as nat, (n - cut) as nat, accept(n as nat));
    let mut count: u128 = 0;
    let mut nodes: u128 = 0;
    let mut accepted: u128 = 0;
    let mut i: usize = 0;
    while i < results.len()
        invariant
            1 <= n <= 21,
            cut <= n,
            results@.len() == tasks@.len(),
            terms == terms_of(tasks@, layout),
            g == key_paths(n as nat, (n - cut) as nat, accept(n as nat)),
            forall|t: int|
                0 <= t < tasks@.len() ==> tail_task_done(
                    (#[trigger] tasks@[t]).term(layout),
                    n as nat,
                    cut as nat,
                    results@[t],
                ),
            i <= results@.len(),
            count == weighted_sum(terms.take(i as int), g),
            forall|t: int|
                0 <= t < i ==> paths(
                    n as nat,
                    (n - cut) as nat,
                    unpack_spec((#[trigger] tasks@[t]).term(layout).0.0, n as nat),
                    accept(n as nat),
                ) <= u128::MAX,
        decreases results@.len() - i,
    {
        let ghost c = paths(
            n as nat,
            (n - cut) as nat,
            unpack_spec(tasks@[i as int].term(layout).0.0, n as nat),
            accept(n as nat),
        );
        let ghost w = tasks@[i as int].term(layout).1 as nat;
        proof {
            lemma_weighted_sum_take_step(terms, i as int, g);
            assert(terms[i as int] == tasks@[i as int].term(layout));
            crate::contract::lemma_weighted_sum_prefix_le(terms, i + 1, g);
            assert(terms.len() == tasks@.len());
            assert(weighted_sum(terms.take(i + 1), g) == count + w * c);
            assert(tail_task_done(tasks@[i as int].term(layout), n as nat, cut as nat, results@[i as int]));
        }
        let (weighted, metrics) = match &results[i] {
            Ok(done) => *done,
            Err(error) => {
                proof {
                    if c <= u128::MAX {
                        assert(w * c > u128::MAX);
                    }
                    assert(!tasks_within(tasks@, layout, n as nat, cut as nat, u128::MAX as nat));
                }
                return Err(error.clone());
            },
        };
        count = match count.checked_add(weighted) {
            Some(c) => c,
            None => {
                if adaptive {
                    return Err(message("coefficient overflow reducing profiled adaptive tail"));
                }
                return Err(message("coefficient overflow reducing profiled certified tail"));
            },
        };
        nodes = nodes.saturating_add(metrics.nodes);
        accepted = accepted.saturating_add(metrics.accepted_entries);
        i = i + 1;
    }
    proof {
        assert(terms.take(i as int) =~= terms);
    }
    Ok((count, nodes, accepted))
}

/// A contraction whose tail is counted by the certified `u64` kernels, with
/// the exact replay used when they give up.
#[derive(Debug)]
pub struct CertifiedFastTailResult {
    pub contraction: ContractionResult,
    pub cut: usize,
    pub used_u64_fast_path: bool,
    pub promotion_reason: Option<String>,
    pub prefix_elapsed: Duration,
    pub tail_elapsed: Duration,
    pub profile_replay_elapsed: Duration,
    pub prefix_support: usize,
    pub tail_tasks: usize,
    pub recursive_nodes: u128,
    pub recursive_accepted_entries: u128,
    pub coefficient_bits: u32,
    pub max_prefix_coefficient: u64,
}

/// The report of a certified tail cut at `cut` on the `n`-by-`n` board: the
/// exact count, the prefix layers, and a promotion reason exactly when the
/// `u64` kernels gave up.
pub open spec fn certified_report(n: nat, cut: nat, r: CertifiedFastTailResult) -> bool {
    &&& r.cut == cut
    &&& r.contraction.n == n
    &&& r.contraction.count == board_count(n, false)
    &&& r.contraction.layers@.len() == cut
    &&& forall|k: int|
        0 <= k < cut ==> (#[trigger] r.contraction.layers@[k]).row == k
            && r.contraction.layers@[k].output_weight == layer_total(n, (k + 1) as nat, true)
    &&& r.used_u64_fast_path <==> r.promotion_reason is None
}

/// `n` to the power `k`.
pub open spec fn power_of(n: nat, k: nat) -> nat
    decreases k,
{
    if k == 0 {
        1
    } else {
        n * power_of(n, (k - 1) as nat)
    }
}

/// Any frontier has at most `n^k` completions over `k` rows: each row offers
/// at most `n` columns.
pub proof fn lemma_paths_power(n: nat, k: nat, s: BoundaryState)
    ensures
        paths(n, k, s, accept(n)) <= power_of(n, k),
    decreases k, 0nat,
{
    if k > 0 {
        let succ = row_successors(n, s);
        let p = power_of(n, (k - 1) as nat);
        crate::transfer::lemma_successors_len(n, s, n);
        lemma_sum_paths_power(n, (k - 1) as nat, succ);
        assert(succ.len() * p <= n * p) by (nonlinear_arith)
            requires
                succ.len() <= n,
        ;
    }
}

proof fn lemma_sum_paths_power(n: nat, j: nat, states: Seq<BoundaryState>)
    ensures
        sum_paths(n, j, states, accept(n)) <= states.len() * power_of(n, j),
    decreases j, states.len() + 1,
{
    if states.len() > 0 {
        let p = power_of(n, j);
        lemma_sum_paths_power(n, j, states.drop_last());
        lemma_paths_power(n, j, states.last());
        assert(states.drop_last().len() * p + p == states.len() * p) by (nonlinear_arith)
            requires
                states.drop_last().len() + 1 == states.len(),
        ;
    }
}

pub(crate) proof fn lemma_power_monotone(m: nat, n: nat, j: nat, k: nat)
    requires
        1 <= m <= n,
        j <= k,
    ensures
        power_of(m, j) <= power_of(n, k),
    decreases k,
{
    if k > j {
        lemma_power_monotone(m, n, j, (k - 1) as nat);
        assert(power_of(n, (k - 1) as nat) <= n * power_of(n, (k - 1) as nat)) by (nonlinear_arith)
            requires
                n >= 1,
        ;
    } else if k > 0 {
        lemma_power_monotone(m, n, (j - 1) as nat, (k - 1) as nat);
        assert(m * power_of(m, (j - 1) as nat) <= n * power_of(n, (k - 1) as nat)) by (nonlinear_arith)
            requires
                m <= n,
                power_of(m, (j - 1) as nat) <= power_of(n, (k - 1) as nat),
        ;
    }
}

/// Any frontier has at most `n^k` placements of `k` further rows: each row
/// offers at most `n` columns.
proof fn lemma_unit_paths_power(n: nat, k: nat, s: crate::boundary::BoundaryState)
    ensures
        crate::transfer::paths(n, k, s, crate::transfer::unit()) <= power_of(n, k),
    decreases k, 0nat,
{
    if k > 0 {
        let succ = crate::transfer::row_successors(n, s);
        let p = power_of(n, (k - 1) as nat);
        crate::transfer::lemma_successors_len(n, s, n);
        lemma_unit_sum_paths_power(n, (k - 1) as nat, succ);
        assert(succ.len() * p <= n * p) by (nonlinear_arith)
            requires
                succ.len() <= n,
        ;
    }
}

proof fn lemma_unit_sum_paths_power(n: nat, j: nat, states: Seq<crate::boundary::BoundaryState>)
    ensures
        crate::transfer::sum_paths(n, j, states, crate::transfer::unit()) <= states.len()
            * power_of(n, j),
    decreases j, states.len() + 1,
{
    if states.len() > 0 {
        let p = power_of(n, j);
        lemma_unit_sum_paths_power(n, j, states.drop_last());
        lemma_unit_paths_power(n, j, states.last());
        assert(states.drop_last().len() * p + p == states.len() * p) by (nonlinear_arith)
            requires
                states.drop_last().len() + 1 == states.len(),
        ;
    }
}

proof fn lemma_unit_orbit_sum_power(n: nat, j: nat, m: nat)
    ensures
        crate::transfer::orbit_sum(n, j, crate::transfer::unit(), m) <= 2 * m * power_of(
            n,
            j,
        ),
    decreases m,
{
    if m > 0 {
        let p = power_of(n, j);
        let c = (m - 1) as nat;
        lemma_unit_orbit_sum_power(n, j, c);
        lemma_unit_paths_power(n, j, crate::transfer::place(n, crate::boundary::empty_state(), c));
        let w = crate::transfer::orbit_weight(n, c);
        let q = crate::transfer::paths(n, j, crate::transfer::place(n, crate::boundary::empty_state(), c), crate::transfer::unit());
        assert(w * q <= 2 * p) by (nonlinear_arith)
            requires
                w <= 2,
                q <= p,
        ;
        assert(2 * c * p + 2 * p == 2 * m * p) by (nonlinear_arith)
            requires
                c + 1 == m,
        ;
    }
}

/// On boards of side at most 21 every layer's total weight fits `u128`,
/// plain or sliced by reflection orbits: each is at most `2 * 21^21`.
pub proof fn lemma_layers_fit_small(n: nat, symmetric: bool)
    ensures
        n <= 21 ==> crate::contract::layers_fit(n, symmetric),
{
    if n <= 21 {
        assert forall|k: nat| 1 <= k <= n implies #[trigger] crate::transfer::layer_total(n, k, symmetric) <= u128::MAX by {
            lemma_power_monotone(n, 21, k, 21);
            lemma_power_21();
            if symmetric {
                lemma_unit_orbit_sum_power(n, (k - 1) as nat, n);
                lemma_power_monotone(n, 21, (k - 1) as nat, 21);
                assert(2 * n * power_of(n, (k - 1) as nat) <= 42 * power_of(21, 21))
                    by (nonlinear_arith)
                    requires
                        n <= 21,
                        power_of(n, (k - 1) as nat) <= power_of(21, 21),
                ;
            } else {
                lemma_unit_paths_power(n, k, crate::boundary::empty_state());
            }
        }
    }
}

pub(crate) proof fn lemma_power_21()
    ensures
        power_of(21, 21) == 5842587018385982521381124421nat,
{
    assert(power_of(21, 0) == 1);
    assert(power_of(21, 1) == 21nat);
    assert(power_of(21, 2) == 441nat);
    assert(power_of(21, 3) == 9261nat);
    assert(power_of(21, 4) == 194481nat);
    assert(power_of(21, 5) == 4084101nat);
    assert(power_of(21, 6) == 85766121nat);
    assert(power_of(21, 7) == 1801088541nat);
    assert(power_of(21, 8) == 37822859361nat);
    assert(power_of(21, 9) == 794280046581nat);
    assert(power_of(21, 10) == 16679880978201nat);
    assert(power_of(21, 11) == 350277500542221nat);
    assert(power_of(21, 12) == 7355827511386641nat);
    assert(power_of(21, 13) == 154472377739119461nat);
    assert(power_of(21, 14) == 3243919932521508681nat);
    assert(power_of(21, 15) == 68122318582951682301nat);
    assert(power_of(21, 16) == 1430568690241985328321nat);
    assert(power_of(21, 17) == 30041942495081691894741nat);
    assert(power_of(21, 18) == 630880792396715529789561nat);
    assert(power_of(21, 19) == 13248496640331026125580781nat);
    assert(power_of(21, 20) == 278218429446951548637196401nat);
    assert(power_of(21, 21) == 5842587018385982521381124421nat);
}

/// Finish a certified tail on the prefix layer after `cut` rows: the
/// certified count, replayed exactly when asked or when the kernels gave up.
fn finish_certified_tail(
    n: usize,
    cut: usize,
    profile_replay: bool,
    coefficient_bits: u32,
    layout: EntryLayout,
    relation: RecursiveTailRelation,
    prefix: PackedKernelResult<JointEntry>,
    total_start: std::time::Instant,
    prefix_elapsed: Duration,
    microkernel_rows: usize,
    coefficient_limit: u64,
    adaptive: bool,
) -> (result: Result<CertifiedFastTailResult, String>)
    requires
        1 <= n <= 21,
        1 <= cut <= n,
        coefficient_limit >= 1,
        layout == joint_layout(coefficient_bits as nat),
        JointEntry::layout_ok(layout),
        relation.legs == occupied_legs(),
        relation.value == 1,
        crate::packed_layers::prefix_contraction(n as nat, cut as nat, prefix.parallel.contraction),
        crate::packed_layers::prefix_boundary(n as nat, cut as nat, layout, prefix.boundary@),
    ensures
        result matches Ok(r) ==> certified_report(n as nat, cut as nat, r),
        result matches Ok(r) ==> (r.used_u64_fast_path ==> board_count(n as nat, true) <= coefficient_limit),
        result is Ok,
{
    let ghost nn = n as nat;
    let board_mask = crate::boundary::board_mask(n);
    let tasks = flatten_shards(&prefix.boundary, layout);
    proof {
        let g = key_paths(nn, (n - cut) as nat, accept(nn));
        assert(crate::entries::entries_sum(prefix.boundary@, layout, g) == rooted(nn, (cut + (n - cut)) as nat, true, accept(nn)));
        assert(weighted_sum(terms_of(tasks@, layout), g) == board_count(nn, true));
        crate::wide::lemma_board_count_factorial(nn, true);
        crate::wide::lemma_factorial_at_most_21(nn);
        lemma_power_21();
        assert forall|t: int| 0 <= t < tasks@.len() implies paths(
            nn,
            (n - cut) as nat,
            unpack_spec((#[trigger] tasks@[t]).term(layout).0.0, nn),
            accept(nn),
        ) <= u128::MAX by {
            lemma_paths_power(nn, (n - cut) as nat, unpack_spec(tasks@[t].term(layout).0.0, nn));
            lemma_power_monotone(nn, 21, (n - cut) as nat, 21);
        }
        assert(tasks_within(tasks@, layout, nn, cut as nat, u128::MAX as nat));
    }
    let prefix_support = tasks.len();
    let tail_start = now();
    let fast_count = contract_certified_tail_tasks_u64(&tasks, n, cut, layout, coefficient_limit, board_mask, microkernel_rows);
    let tail_elapsed = elapsed(&tail_start);
    let fast_elapsed = elapsed(&total_start);
    let should_replay = profile_replay || fast_count.is_none();
    let profile_start = now();
    let mut recursive_nodes: u128 = 0;
    let mut recursive_accepted_entries: u128 = 0;
    let mut replay_count: u128 = 0;
    let mut replayed = false;
    if should_replay {
        let (count, nodes, accepted) = replay_tasks(&tasks, n, cut, relation, board_mask, layout, adaptive)?;
        replay_count = count;
        recursive_nodes = nodes;
        recursive_accepted_entries = accepted;
        replayed = true;
    }
    let profile_replay_elapsed = elapsed(&profile_start);
    let count = match fast_count {
        Some(count) => {
            if profile_replay && replay_count != count as u128 {
                if adaptive {
                    return Err(message("adaptive u64 tail disagrees with u128 profile replay"));
                }
                return Err(message("u64 certified tail disagrees with u128 profile replay"));
            }
            count as u128
        },
        None => replay_count,
    };
    let used_u64_fast_path = fast_count.is_some();
    let promotion_reason = if used_u64_fast_path {
        None
    } else if adaptive {
        Some(message("checked u64 adaptive tail overflow; exact u128 replay used"))
    } else {
        Some(message("checked u64 tail overflow; exact u128 replay used"))
    };
    let mut contraction = prefix.parallel.contraction;
    contraction.count = count;
    contraction.elapsed = if used_u64_fast_path {
        fast_elapsed
    } else {
        elapsed(&total_start)
    };
    contraction.peak_rss_bytes = peak_rss_bytes();
    contraction.row_operator_candidates = contraction.row_operator_candidates.saturating_add(recursive_accepted_entries);
    contraction.row_operator_matched = contraction.row_operator_matched.saturating_add(recursive_accepted_entries);
    Ok(
        CertifiedFastTailResult {
            contraction,
            cut,
            used_u64_fast_path,
            promotion_reason,
            prefix_elapsed,
            tail_elapsed,
            profile_replay_elapsed,
            prefix_support,
            tail_tasks: prefix_support,
            recursive_nodes,
            recursive_accepted_entries,
            coefficient_bits,
            max_prefix_coefficient: prefix.max_coefficient_observed as u64,
        },
    )
}

/// The report of the empty board.
fn empty_certified(cut: usize) -> (r: CertifiedFastTailResult)
    ensures
        r.cut == cut,
        r.contraction.n == 0,
        r.contraction.count == 1,
        r.contraction.layers@.len() == 0,
        r.used_u64_fast_path,
        r.promotion_reason is None,
{
    proof {
        crate::sitewise::lemma_empty_board();
    }
    CertifiedFastTailResult {
        contraction: ContractionResult {
            n: 0,
            count: 1,
            elapsed: zero_duration(),
            peak_states: 1,
            tensor_entries_examined: 17,
            tensor_entries_matched: 17,
            row_operator_candidates: 0,
            row_operator_matched: 0,
            peak_rss_bytes: peak_rss_bytes(),
            layers: Vec::new(),
        },
        cut,
        used_u64_fast_path: true,
        promotion_reason: None,
        prefix_elapsed: zero_duration(),
        tail_elapsed: zero_duration(),
        profile_replay_elapsed: zero_duration(),
        prefix_support: 1,
        tail_tasks: 1,
        recursive_nodes: 1,
        recursive_accepted_entries: 0,
        coefficient_bits: 64,
        max_prefix_coefficient: 1,
    }
}

/// What the certified fast tail returns: the empty board is counted for any
/// cut; otherwise an error for boards wider than 21 or a cut outside
/// `1..=n`, and on success the exact report, whose `u64` path is taken only
/// when the reflection-sliced count is within the limit.
pub open spec fn certified_spec(n: nat, cut: nat, limit: nat, result: Result<CertifiedFastTailResult, String>) -> bool {
    &&& n == 0 ==> (result matches Ok(r) && r.contraction.count == 1 && r.cut == cut)
    &&& n > 21 || (n >= 1 && (cut == 0 || cut > n)) || (n >= 1 && limit == 0) ==> result is Err
    &&& n >= 1 ==> (result matches Ok(r) ==> certified_report(n, cut, r))
    &&& n >= 1 ==> (result matches Ok(r) ==> (r.used_u64_fast_path ==> board_count(n, true) <= limit))
}

/// Certified fast tail with `u64` coefficients at most `coefficient_limit`.
pub fn contract_rows_certified_fast_tail_with_limit(
    n: usize,
    shards: usize,
    cut: usize,
    profile_replay: bool,
    coefficient_limit: u64,
) -> (result: Result<CertifiedFastTailResult, String>)
    ensures
        certified_spec(n as nat, cut as nat, coefficient_limit as nat, result),
        1 <= n <= 21 && 1 <= cut <= n && coefficient_limit >= 1 && crate::sharded::valid_shards(shards as nat)
            && crate::packed_layers::coefficients_within(n as nat, cut as nat, joint_mask((64 - 3 * n) as nat) as nat)
            ==> result is Ok,
{
    if n == 0 {
        return Ok(empty_certified(cut));
    }
    if n > 21 {
        return Err(message("certified fast-tail backend supports N <= 21"));
    }
    if cut == 0 || cut > n {
        return Err(message("certified fast-tail cut must be in 1..=N"));
    }
    if coefficient_limit == 0 {
        return Err(message("certified fast-tail coefficient limit must be positive"));
    }
    let total_start = now();
    let coefficient_bits: u32 = 64 - (3 * n) as u32;
    let mask = coefficient_mask(coefficient_bits);
    let layout = EntryLayout { bits: coefficient_bits, mask };
    proof {
        crate::joint::lemma_joint_mask_positive(coefficient_bits as nat);
    }
    let tensor = crate::tensor::SiteTensorC::sec_vi();
    let operator = CompiledRowOperator::compile(&tensor)?;
    let relation = RecursiveTailRelation::compile(&operator)?;
    let _plan = CertifiedSecViTailPlan::compile(relation)?;
    let prefix = match contract_rows_d4_joint_u64_kernel(n, shards, coefficient_bits, true, cut) {
        Ok(prefix) => prefix,
        Err(failure) => {
            return Err(failure.message);
        },
    };
    let prefix_elapsed = elapsed(&total_start);
    finish_certified_tail(
        n,
        cut,
        profile_replay,
        coefficient_bits,
        layout,
        relation,
        prefix,
        total_start,
        prefix_elapsed,
        0,
        coefficient_limit,
        false,
    )
}

/// Certified fast tail with `u64` coefficients, cut after `cut` rows, with
/// an exact replay when `profile_replay`.
pub fn contract_rows_certified_fast_tail(n: usize, shards: usize, cut: usize, profile_replay: bool) -> (result:
    Result<CertifiedFastTailResult, String>)
    ensures
        certified_spec(n as nat, cut as nat, u64::MAX as nat, result),
        1 <= n <= 21 && 1 <= cut <= n && crate::sharded::valid_shards(shards as nat)
            && crate::packed_layers::coefficients_within(n as nat, cut as nat, joint_mask((64 - 3 * n) as nat) as nat)
            ==> result is Ok,
{
    contract_rows_certified_fast_tail_with_limit(n, shards, cut, profile_replay, u64::MAX)
}

/// One prefix cut tried by the adaptive selection.
#[derive(Debug)]
pub struct AdaptiveCutProbe {
    pub cut: usize,
    pub prefix_support: usize,
    pub prefix_elapsed: Duration,
    pub prefix_accepted_entries: u128,
}

/// A certified fast tail whose cut was chosen as the shallowest one with
/// enough frontiers for the workers.
#[derive(Debug)]
pub struct AdaptiveFastTailResult {
    pub fast: CertifiedFastTailResult,
    pub selected_cut: usize,
    pub target_tail_tasks: usize,
    pub selection_elapsed: Duration,
    pub probes: Vec<AdaptiveCutProbe>,
}

/// What an adaptive fast tail returns: the empty board is counted; wider
/// boards than 21 are refused; on success the exact report at the selected
/// cut, which is the cut of the last probe.
pub open spec fn adaptive_spec(n: nat, limit: nat, rows: nat, result: Result<AdaptiveFastTailResult, String>) -> bool {
    &&& n == 0 ==> (result matches Ok(r) && r.fast.contraction.count == 1 && r.selected_cut == 0)
    &&& n > 21 || (n >= 1 && limit == 0) ==> result is Err
    &&& n >= 1 ==> (result matches Ok(r) ==> {
        &&& certified_report(n, r.selected_cut as nat, r.fast)
        &&& 1 <= r.selected_cut <= n
        &&& r.probes@.len() >= 1
        &&& r.probes@[r.probes@.len() - 1].cut == r.selected_cut
    })
}

/// The first cut an adaptive fast tail probes.
pub open spec fn adaptive_start(n: nat) -> nat {
    if n > 12 {
        (n - 11) as nat
    } else {
        1
    }
}

/// The cut selection of an adaptive fast tail: the probes are the cuts from
/// `adaptive_start(n)` on, one row deeper each time; every probe but the last
/// left fewer frontiers than the target, and the last one reached the target
/// or the bottom row.
pub open spec fn adaptive_selection(n: nat, r: AdaptiveFastTailResult) -> bool {
    &&& r.probes@.len() >= 1
    &&& forall|i: int| 0 <= i < r.probes@.len() ==> (#[trigger] r.probes@[i]).cut == adaptive_start(n) + i
    &&& forall|i: int|
        0 <= i < r.probes@.len() - 1 ==> (#[trigger] r.probes@[i]).prefix_support < r.target_tail_tasks
    &&& r.probes@[r.probes@.len() - 1].prefix_support >= r.target_tail_tasks || r.selected_cut == n
}

/// The adaptive fast tail: starting at the cut `n - 11` (at least one), the
/// cut deepens until the prefix layer holds at least 512 frontiers per
/// worker or reaches the bottom row; the tail is then counted with the
/// kernel chosen by `microkernel_rows` and coefficients at most
/// `coefficient_limit`.
pub fn contract_rows_adaptive_fast_tail_impl(
    n: usize,
    shards: usize,
    profile_replay: bool,
    microkernel_rows: usize,
    coefficient_limit: u64,
) -> (result: Result<AdaptiveFastTailResult, String>)
    ensures
        adaptive_spec(n as nat, coefficient_limit as nat, microkernel_rows as nat, result),
        n >= 1 ==> (result matches Ok(r) ==> adaptive_selection(n as nat, r)),
        1 <= n <= 21 && coefficient_limit >= 1 && crate::sharded::valid_shards(shards as nat)
            && crate::packed_layers::coefficients_within(n as nat, n as nat, joint_mask((64 - 3 * n) as nat) as nat)
            ==> result is Ok,
{
    if n == 0 {
        let fast = empty_certified(0);
        return Ok(
            AdaptiveFastTailResult {
                fast,
                selected_cut: 0,
                target_tail_tasks: 1,
                selection_elapsed: zero_duration(),
                probes: Vec::new(),
            },
        );
    }
    if n > 21 {
        return Err(message("adaptive fast-tail backend supports N <= 21"));
    }
    if coefficient_limit == 0 {
        return Err(message("adaptive fast-tail coefficient limit must be positive"));
    }
    let selection_start = now();
    let workers = crate::packed_layers::worker_count();
    let worker_count = if workers == 0 {
        1
    } else {
        workers
    };
    let target_tail_tasks = match worker_count.checked_mul(512) {
        Some(target) => target,
        None => usize::MAX,
    };
    let coefficient_bits: u32 = 64 - (3 * n) as u32;
    let mask = coefficient_mask(coefficient_bits);
    let layout = EntryLayout { bits: coefficient_bits, mask };
    proof {
        crate::joint::lemma_joint_mask_positive(coefficient_bits as nat);
        assert(layout == joint_layout(coefficient_bits as nat));
    }
    let mut selected_cut: usize = if n > 12 {
        n - 11
    } else {
        1
    };
    let mut probes: Vec<AdaptiveCutProbe> = Vec::new();
    let mut selected: Option<PackedKernelResult<JointEntry>> = None;
    loop
        invariant_except_break
            1 <= n <= 21,
            1 <= selected_cut <= n,
            selected is None,
            layout == joint_layout(coefficient_bits as nat),
            coefficient_bits == 64 - 3 * n,
            probes@.len() >= 1 ==> probes@[probes@.len() - 1].cut + 1 == selected_cut,
            selected_cut == adaptive_start(n as nat) + probes@.len(),
            forall|i: int| 0 <= i < probes@.len() ==> (#[trigger] probes@[i]).cut == adaptive_start(n as nat) + i,
            forall|i: int| 0 <= i < probes@.len() ==> (#[trigger] probes@[i]).prefix_support < target_tail_tasks,
        ensures
            1 <= selected_cut <= n,
            selected matches Some(p) && crate::packed_layers::prefix_contraction(
                n as nat,
                selected_cut as nat,
                p.parallel.contraction,
            ) && crate::packed_layers::prefix_boundary(n as nat, selected_cut as nat, layout, p.boundary@),
            probes@.len() >= 1,
            probes@[probes@.len() - 1].cut == selected_cut,
            forall|i: int| 0 <= i < probes@.len() ==> (#[trigger] probes@[i]).cut == adaptive_start(n as nat) + i,
            forall|i: int|
                0 <= i < probes@.len() - 1 ==> (#[trigger] probes@[i]).prefix_support < target_tail_tasks,
            probes@[probes@.len() - 1].prefix_support >= target_tail_tasks || selected_cut == n,
        decreases n - selected_cut,
    {
        let probe_start = now();
        let prefix = match contract_rows_d4_joint_u64_kernel(n, shards, coefficient_bits, true, selected_cut) {
            Ok(prefix) => prefix,
            Err(failure) => {
                return Err(failure.message);
            },
        };
        let prefix_support = crate::packed_layers::total_entries(&prefix.boundary);
        probes.push(
            AdaptiveCutProbe {
                cut: selected_cut,
                prefix_support,
                prefix_elapsed: elapsed(&probe_start),
                prefix_accepted_entries: prefix.parallel.contraction.row_operator_matched,
            },
        );
        if prefix_support >= target_tail_tasks || selected_cut == n {
            proof {
                assert(layout == joint_layout(coefficient_bits as nat));
            }
            selected = Some(prefix);
            break;
        }
        selected_cut = selected_cut + 1;
    }
    let prefix = match selected {
        Some(prefix) => prefix,
        None => {
            return Err(message("adaptive fast-tail selected no prefix"));
        },
    };
    let selection_elapsed = elapsed(&selection_start);
    let tensor = crate::tensor::SiteTensorC::sec_vi();
    let operator = CompiledRowOperator::compile(&tensor)?;
    let relation = RecursiveTailRelation::compile(&operator)?;
    let _plan = CertifiedSecViTailPlan::compile(relation)?;
    let selected_prefix_elapsed = probes[probes.len() - 1].prefix_elapsed;
    let fast = finish_certified_tail(
        n,
        selected_cut,
        profile_replay,
        coefficient_bits,
        layout,
        relation,
        prefix,
        selection_start,
        selected_prefix_elapsed,
        microkernel_rows,
        coefficient_limit,
        true,
    )?;
    Ok(AdaptiveFastTailResult { fast, selected_cut, target_tail_tasks, selection_elapsed, probes })
}

/// The adaptive fast tail with the plain certified recursion.
pub fn contract_rows_adaptive_fast_tail(n: usize, shards: usize, profile_replay: bool) -> (result: Result<
    AdaptiveFastTailResult,
    String,
>)
    ensures
        adaptive_spec(n as nat, u64::MAX as nat, 0, result),
        n >= 1 ==> (result matches Ok(r) ==> adaptive_selection(n as nat, r)),
        1 <= n <= 21 && crate::sharded::valid_shards(shards as nat)
            && crate::packed_layers::coefficients_within(n as nat, n as nat, joint_mask((64 - 3 * n) as nat) as nat)
            ==> result is Ok,
{
    contract_rows_adaptive_fast_tail_impl(n, shards, profile_replay, 0, u64::MAX)
}

/// The adaptive fast tail with the last `microkernel_rows` rows (two to
/// four) unrolled.
pub fn contract_rows_adaptive_last_k_tail_with_rows(
    n: usize,
    shards: usize,
    profile_replay: bool,
    microkernel_rows: usize,
) -> (result: Result<AdaptiveFastTailResult, String>)
    ensures
        !(2 <= microkernel_rows <= 4) ==> result is Err,
        2 <= microkernel_rows <= 4 ==> adaptive_spec(n as nat, u64::MAX as nat, microkernel_rows as nat, result),
        n >= 1 ==> (result matches Ok(r) ==> adaptive_selection(n as nat, r)),
        2 <= microkernel_rows <= 4 && 1 <= n <= 21 && crate::sharded::valid_shards(shards as nat)
            && crate::packed_layers::coefficients_within(n as nat, n as nat, joint_mask((64 - 3 * n) as nat) as nat)
            ==> result is Ok,
{
    if microkernel_rows < 2 || microkernel_rows > 4 {
        return Err(message("last-k microkernel rows must be in 2..=4"));
    }
    contract_rows_adaptive_fast_tail_impl(n, shards, profile_replay, microkernel_rows, u64::MAX)
}

/// The adaptive fast tail with the last four rows unrolled.
pub fn contract_rows_adaptive_last_k_tail(n: usize, shards: usize, profile_replay: bool) -> (result: Result<
    AdaptiveFastTailResult,
    String,
>)
    ensures
        adaptive_spec(n as nat, u64::MAX as nat, 4, result),
        n >= 1 ==> (result matches Ok(r) ==> adaptive_selection(n as nat, r)),
        1 <= n <= 21 && crate::sharded::valid_shards(shards as nat)
            && crate::packed_layers::coefficients_within(n as nat, n as nat, joint_mask((64 - 3 * n) as nat) as nat)
            ==> result is Ok,
{
    contract_rows_adaptive_last_k_tail_with_rows(n, shards, profile_replay, 4)
}

} // verus!
