//! The reference row contraction: the explicit sparse `C` is applied at every
//! site of a row, carrying the open row signal from left to right, and the
//! completed rows are those whose row signal leaves the right edge set.
use vstd::prelude::*;

use crate::boundary::{BoundaryState, bit, board_mask_spec, has_bit, set_bit, state_fits};
use crate::row::RowCounters;
use crate::tensor::{CEntry, SiteTensorC, VirtualLegs, lemma_c_matching, occupied_legs, pass_legs};
use crate::transfer::{cell_free, low_mask, place, row_successors, row_successors_upto, with_weight};
use crate::util::message;

verus! {

/// `state` with every signal outside the `n` columns of the board dropped.
pub open spec fn restrict_state(state: BoundaryState, n: nat) -> BoundaryState {
    BoundaryState {
        columns: state.columns & board_mask_spec(n),
        diag_dr: state.diag_dr & board_mask_spec(n),
        diag_dl: state.diag_dl & board_mask_spec(n),
    }
}

/// A row contracted up to some column: the outgoing signals fixed so far, the
/// row signal leaving the last contracted site and the accumulated weight.
#[derive(Clone, Copy, Debug)]
struct PartialRow {
    columns_out: u64,
    diag_dr_out: u64,
    diag_dl_out: u64,
    row_signal: u8,
    weight: u128,
}

/// The partial row after the first `c` columns below `x`, with the sites of
/// `mark` occupied: the outgoing signals of those columns, the diagonal ones
/// moved one column on and dropped where they leave the board.
spec fn prefix_row(x: BoundaryState, mark: u64, c: nat, n: nat, signal: u8, weight: u128) -> PartialRow {
    PartialRow {
        columns_out: (x.columns | mark) & low_mask(c),
        diag_dr_out: (((x.diag_dr | mark) & low_mask(c)) << 1u64) & board_mask_spec(n),
        diag_dl_out: ((x.diag_dl | mark) & low_mask(c)) >> 1u64,
        row_signal: signal,
        weight,
    }
}

/// The legal queen columns below `x` among `[0, k)`, in increasing order.
spec fn queen_cols(x: BoundaryState, k: nat) -> Seq<nat>
    decreases k,
{
    if k == 0 {
        Seq::empty()
    } else {
        queen_cols(x, (k - 1) as nat) + if cell_free(x, (k - 1) as nat) {
            seq![(k - 1) as nat]
        } else {
            Seq::empty()
        }
    }
}

/// The partial rows after `c` columns whose queen stands in a legal column
/// below `k`.
spec fn queen_rows(x: BoundaryState, n: nat, c: nat, k: nat, weight: u128) -> Seq<PartialRow> {
    queen_cols(x, k).map_values(|q: nat| prefix_row(x, 1u64 << (q as u64), c, n, 1, weight))
}

/// The partial rows after `c` columns, in the order the contraction keeps
/// them: the empty row first, then the rows with a queen, latest column first.
spec fn partials_at(x: BoundaryState, n: nat, c: nat, weight: u128) -> Seq<PartialRow> {
    seq![prefix_row(x, 0, c, n, 0, weight)] + queen_rows(x, n, c, c, weight).reverse()
}

/// The partial row that `entry` makes of `p` at column `c`.
spec fn step(p: PartialRow, entry: CEntry, c: nat, n: nat) -> PartialRow {
    PartialRow {
        columns_out: if entry.legs.column_out == 1 {
            p.columns_out | (1u64 << (c as u64))
        } else {
            p.columns_out
        },
        diag_dr_out: if c + 1 < n && entry.legs.diag_dr_out == 1 {
            p.diag_dr_out | (1u64 << ((c + 1) as u64))
        } else {
            p.diag_dr_out
        },
        diag_dl_out: if c > 0 && entry.legs.diag_dl_out == 1 {
            p.diag_dl_out | (1u64 << ((c - 1) as u64))
        } else {
            p.diag_dl_out
        },
        row_signal: entry.legs.row_out,
        weight: p.weight,
    }
}

/// One site of a prefix: the outgoing signals of column `c` join those of the
/// columns before it.
proof fn lemma_site_bits(y: u64, c: u64, n: u64)
    by (bit_vector)
    requires
        c < n,
        n < 64,
    ensures
        (if (y >> c) & 1u64 == 1u64 {
            (y & (((1u64 << c) - 1u64) as u64)) | (1u64 << c)
        } else {
            y & (((1u64 << c) - 1u64) as u64)
        }) == y & (((1u64 << ((c + 1) as u64)) - 1u64) as u64),
        (if c + 1 < n && (y >> c) & 1u64 == 1u64 {
            (((y & (((1u64 << c) - 1u64) as u64)) << 1u64) & (((1u64 << n) - 1u64) as u64)) | (1u64
                << ((c + 1) as u64))
        } else {
            ((y & (((1u64 << c) - 1u64) as u64)) << 1u64) & (((1u64 << n) - 1u64) as u64)
        }) == ((y & (((1u64 << ((c + 1) as u64)) - 1u64) as u64)) << 1u64) & (((1u64 << n) - 1u64)
            as u64),
        (if c > 0 && (y >> c) & 1u64 == 1u64 {
            ((y & (((1u64 << c) - 1u64) as u64)) >> 1u64) | (1u64 << ((c - 1) as u64))
        } else {
            (y & (((1u64 << c) - 1u64) as u64)) >> 1u64
        }) == (y & (((1u64 << ((c + 1) as u64)) - 1u64) as u64)) >> 1u64,
{
}

/// How a marked column reads and how a mask is cut to the board.
proof fn lemma_mark_bits(x: u64, c: u64, q: u64, n: u64)
    by (bit_vector)
    requires
        c < 64,
        q < 64,
        n < 64,
    ensures
        (x | (1u64 << c)) & (((1u64 << c) - 1u64) as u64) == x & (((1u64 << c) - 1u64) as u64),
        ((x | (1u64 << c)) >> c) & 1u64 == 1u64,
        q < c ==> ((x | (1u64 << q)) >> c) & 1u64 == (x >> c) & 1u64,
        q < n ==> (x | (1u64 << q)) & (((1u64 << n) - 1u64) as u64) == (x & (((1u64 << n) - 1u64)
            as u64)) | (1u64 << q),
        c < n ==> ((x & (((1u64 << n) - 1u64) as u64)) >> c) & 1u64 == (x >> c) & 1u64,
        x >> n == 0 ==> x & (((1u64 << n) - 1u64) as u64) == x,
        (x | 0u64) == x,
        ((1u64 << 0u64) - 1u64) as u64 == 0,
        x & 0u64 == 0,
        0u64 & x == 0,
        x & !0u64 == x,
        0u64 >> n == 0,
        0u64 << 1u64 == 0,
        0u64 >> 1u64 == 0,
{
}

/// A frontier that lies on the board is its own restriction.
pub proof fn lemma_restrict_fits(state: BoundaryState, n: nat)
    requires
        n < 64,
        state_fits(state, n),
    ensures
        restrict_state(state, n) == state,
{
    lemma_mark_bits(state.columns, 0, 0, n as u64);
    lemma_mark_bits(state.diag_dr, 0, 0, n as u64);
    lemma_mark_bits(state.diag_dl, 0, 0, n as u64);
}

/// The board of width zero has no columns.
pub proof fn lemma_empty_board()
    ensures
        board_mask_spec(0) == 0,
{
    lemma_mark_bits(0, 0, 0, 0);
}

/// The empty frontier lies on every board.
pub proof fn lemma_zero_shift(n: nat)
    requires
        n < 64,
    ensures
        (0u64 >> (n as u64)) == 0,
{
    lemma_mark_bits(0, 0, 0, n as u64);
}

/// No bit lies below column zero.
pub proof fn lemma_no_low_bits(x: u64)
    ensures
        low_mask(0) == 0,
        x & !low_mask(0) == x,
{
    lemma_mark_bits(x, 0, 0, 0);
    assert(low_mask(0) == ((1u64 << 0u64) - 1u64) as u64);
}

/// Restricting to the board does not change which columns are legal.
proof fn lemma_restrict_cell_free(x: BoundaryState, n: nat, q: nat)
    requires
        q < n < 64,
    ensures
        cell_free(restrict_state(x, n), q) == cell_free(x, q),
{
    lemma_mark_bits(x.columns, q as u64, 0, n as u64);
    lemma_mark_bits(x.diag_dr, q as u64, 0, n as u64);
    lemma_mark_bits(x.diag_dl, q as u64, 0, n as u64);
}

/// Every listed queen column is legal and below `k`.
proof fn lemma_queen_cols(x: BoundaryState, k: nat)
    ensures
        forall|j: int|
            0 <= j < queen_cols(x, k).len() ==> #[trigger] queen_cols(x, k)[j] < k && cell_free(
                x,
                queen_cols(x, k)[j],
            ),
        queen_cols(x, k).len() <= k,
    decreases k,
{
    if k > 0 {
        lemma_queen_cols(x, (k - 1) as nat);
    }
}

/// The completed rows with a queen are the compiled row successors of the
/// restricted frontier.
proof fn lemma_queen_successors(x: BoundaryState, n: nat, k: nat)
    requires
        k <= n < 64,
    ensures
        row_successors_upto(n, restrict_state(x, n), k) == queen_cols(x, k).map_values(
            |q: nat| place(n, restrict_state(x, n), q),
        ),
    decreases k,
{
    if k > 0 {
        lemma_queen_successors(x, n, (k - 1) as nat);
        lemma_restrict_cell_free(x, n, (k - 1) as nat);
        assert(row_successors_upto(n, restrict_state(x, n), k) =~= queen_cols(x, k).map_values(
            |q: nat| place(n, restrict_state(x, n), q),
        ));
    }
}

/// A completed row with its queen in column `q` is the frontier that the
/// compiled transfer places there.
proof fn lemma_completed_row(x: BoundaryState, n: nat, q: nat, weight: u128)
    requires
        q < n < 64,
    ensures
        ({
            let p = prefix_row(x, 1u64 << (q as u64), n, n, 1, weight);
            BoundaryState { columns: p.columns_out, diag_dr: p.diag_dr_out, diag_dl: p.diag_dl_out }
        }) == place(n, restrict_state(x, n), q),
{
    let nn = n as u64;
    let qq = q as u64;
    lemma_mark_bits(x.columns, 0, qq, nn);
    lemma_mark_bits(x.diag_dr, 0, qq, nn);
    lemma_mark_bits(x.diag_dl, 0, qq, nn);
    assert(low_mask(n) == board_mask_spec(n));
}

/// A pass-through site leaves a partial row's prefix extended by the
/// incoming signals of column `c`.
proof fn lemma_pass_step(x: BoundaryState, mark: u64, c: nat, n: nat, signal: u8, weight: u128, key: int)
    requires
        c < n < 64,
        signal <= 1,
        has_bit(x.columns | mark, c) == has_bit(x.columns, c),
        has_bit(x.diag_dr | mark, c) == has_bit(x.diag_dr, c),
        has_bit(x.diag_dl | mark, c) == has_bit(x.diag_dl, c),
        key == (if has_bit(x.columns, c) {
            1int
        } else {
            0int
        }) + 2 * signal + 4 * (if has_bit(x.diag_dr, c) {
            1int
        } else {
            0int
        }) + 8 * (if has_bit(x.diag_dl, c) {
            1int
        } else {
            0int
        }),
    ensures
        step(prefix_row(x, mark, c, n, signal, weight), CEntry { legs: pass_legs(key), value: 1 }, c, n)
            == prefix_row(x, mark, c + 1, n, signal, weight),
{
    let cc = c as u64;
    let nn = n as u64;
    lemma_site_bits(x.columns | mark, cc, nn);
    lemma_site_bits(x.diag_dr | mark, cc, nn);
    lemma_site_bits(x.diag_dl | mark, cc, nn);
    let legs = pass_legs(key);
    assert(legs.column_out == 1 <==> has_bit(x.columns, c));
    assert(legs.row_out == signal);
    assert(legs.diag_dr_out == 1 <==> has_bit(x.diag_dr, c));
    assert(legs.diag_dl_out == 1 <==> has_bit(x.diag_dl, c));
}

/// The occupied site turns the empty partial row into the row with its queen
/// in column `c`.
proof fn lemma_occupied_step(x: BoundaryState, c: nat, n: nat, weight: u128)
    requires
        c < n < 64,
    ensures
        step(prefix_row(x, 0, c, n, 0, weight), CEntry { legs: occupied_legs(), value: 1 }, c, n)
            == prefix_row(x, 1u64 << (c as u64), c + 1, n, 1, weight),
{
    let cc = c as u64;
    let nn = n as u64;
    let b = 1u64 << cc;
    lemma_mark_bits(x.columns, cc, 0, nn);
    lemma_mark_bits(x.diag_dr, cc, 0, nn);
    lemma_mark_bits(x.diag_dl, cc, 0, nn);
    lemma_site_bits(x.columns | b, cc, nn);
    lemma_site_bits(x.diag_dr | b, cc, nn);
    lemma_site_bits(x.diag_dl | b, cc, nn);
}

/// The rows whose queen stands in a legal column below `k`, as the partial
/// rows after `c` columns, advance by one column together.
proof fn lemma_queen_rows_advance(x: BoundaryState, n: nat, c: nat, weight: u128, j: int)
    requires
        c < n < 64,
        0 <= j < queen_cols(x, c).len(),
    ensures
        ({
            let q = queen_cols(x, c)[j];
            let key = (if has_bit(x.columns, c) {
                1int
            } else {
                0int
            }) + 2 + 4 * (if has_bit(x.diag_dr, c) {
                1int
            } else {
                0int
            }) + 8 * (if has_bit(x.diag_dl, c) {
                1int
            } else {
                0int
            });
            step(queen_rows(x, n, c, c, weight)[j], CEntry { legs: pass_legs(key), value: 1 }, c, n)
                == queen_rows(x, n, c + 1, c, weight)[j]
        }),
{
    lemma_queen_cols(x, c);
    let q = queen_cols(x, c)[j];
    let b = 1u64 << (q as u64);
    lemma_mark_bits(x.columns, c as u64, q as u64, n as u64);
    lemma_mark_bits(x.diag_dr, c as u64, q as u64, n as u64);
    lemma_mark_bits(x.diag_dl, c as u64, q as u64, n as u64);
    let key = (if has_bit(x.columns, c) {
        1int
    } else {
        0int
    }) + 2 + 4 * (if has_bit(x.diag_dr, c) {
        1int
    } else {
        0int
    }) + 8 * (if has_bit(x.diag_dl, c) {
        1int
    } else {
        0int
    });
    lemma_pass_step(x, b, c, n, 1, weight, key);
}

/// Contract one row by applying the explicit sparse `C` tensor at every site.
///
/// Channel orientation:
/// - row: left -> right;
/// - column: top -> bottom;
/// - `diag_dr`: top-left -> bottom-right;
/// - `diag_dl`: top-right -> bottom-left.
///
/// The left row boundary admits only the row signal 0 and the right one only
/// the signal 1, so every completed row holds exactly one queen. A diagonal
/// signal leaving the board is summed over and kept nowhere. The completed
/// rows come out latest queen column first.
pub fn contract_one_row_sitewise(
    n: usize,
    tensor: &SiteTensorC,
    parent: BoundaryState,
    parent_weight: u128,
    counters: &mut RowCounters,
) -> (terms: Result<Vec<(BoundaryState, u128)>, String>)
    requires
        n < 64,
        old(counters).tensor_examined + 0x1_0000 <= u128::MAX,
        old(counters).tensor_matched + 0x1_0000 <= u128::MAX,
    ensures
        terms matches Ok(v) && v@ == with_weight(
            row_successors(n as nat, restrict_state(parent, n as nat)),
            parent_weight,
        ).reverse(),
        final(counters).tensor_examined - old(counters).tensor_examined == final(counters).tensor_matched
            - old(counters).tensor_matched,
        old(counters).tensor_matched <= final(counters).tensor_matched <= old(counters).tensor_matched
            + 0x1_0000,
        final(counters).operator_candidates == old(counters).operator_candidates,
        final(counters).operator_matched == old(counters).operator_matched,
{
    let ghost nn = n as nat;
    let ghost w = parent_weight;
    proof {
        lemma_c_matching();
        lemma_mark_bits(parent.columns, 0, 0, 0);
        lemma_mark_bits(parent.diag_dr, 0, 0, 0);
        lemma_mark_bits(parent.diag_dl, 0, 0, 0);
        assert(low_mask(0) == ((1u64 << 0u64) - 1u64) as u64);
        assert(low_mask(0) == 0);
        lemma_mark_bits(board_mask_spec(nn), 0, 0, 0);
        let p0 = prefix_row(parent, 0, 0, nn, 0, w);
        assert(p0.columns_out == 0);
        assert(((parent.diag_dr | 0u64) & low_mask(0)) == 0);
        assert(p0.diag_dr_out == 0);
        assert(p0.diag_dl_out == 0);
        assert(prefix_row(parent, 0, 0, nn, 0, w) == PartialRow {
            columns_out: 0,
            diag_dr_out: 0,
            diag_dl_out: 0,
            row_signal: 0,
            weight: parent_weight,
        });
    }
    let mut partials: Vec<PartialRow> = Vec::new();
    partials.push(PartialRow { columns_out: 0, diag_dr_out: 0, diag_dl_out: 0, row_signal: 0, weight: parent_weight });
    proof {
        assert(queen_rows(parent, nn, 0, 0, w).reverse() =~= Seq::<PartialRow>::empty());
        assert(partials@ =~= partials_at(parent, nn, 0, w));
    }
    let mut column: usize = 0;
    while column < n
        invariant
            n < 64,
            nn == n,
            w == parent_weight,
            column <= n,
            partials@ == partials_at(parent, nn, column as nat, w),
            counters.tensor_examined - old(counters).tensor_examined == counters.tensor_matched
                - old(counters).tensor_matched,
            old(counters).tensor_matched <= counters.tensor_matched <= old(counters).tensor_matched
                + column * 1024,
            old(counters).tensor_examined + 0x1_0000 <= u128::MAX,
            old(counters).tensor_matched + 0x1_0000 <= u128::MAX,
            counters.operator_candidates == old(counters).operator_candidates,
            counters.operator_matched == old(counters).operator_matched,
            forall|k: int|
                0 <= k < 16 ==> #[trigger] crate::tensor::c_matching(k) == if k == 0 {
                    seq![CEntry { legs: pass_legs(0), value: 1 }, CEntry { legs: occupied_legs(), value: 1 }]
                } else {
                    seq![CEntry { legs: pass_legs(k), value: 1 }]
                },
        decreases n - column,
    {
        let column_in = bit(parent.columns, column);
        let diag_dr_in = bit(parent.diag_dr, column);
        let diag_dl_in = bit(parent.diag_dl, column);
        let ghost c = column as nat;
        let ghost free = cell_free(parent, c);
        let ghost head = seq![prefix_row(parent, 0, c + 1, nn, 0, w)] + if free {
            seq![prefix_row(parent, 1u64 << (c as u64), c + 1, nn, 1, w)]
        } else {
            Seq::<PartialRow>::empty()
        };
        let ghost rest = queen_rows(parent, nn, c + 1, c, w).reverse();
        let ghost current = queen_rows(parent, nn, c, c, w).reverse();
        proof {
            lemma_queen_cols(parent, c);
            assert(current.len() <= c);
        }
        let mut next: Vec<PartialRow> = Vec::new();
        let mut i: usize = 0;
        while i < partials.len()
            invariant
                n < 64,
                nn == n,
                w == parent_weight,
                column < n,
                c == column,
                free == cell_free(parent, c),
                head == seq![prefix_row(parent, 0, c + 1, nn, 0, w)] + if free {
                    seq![prefix_row(parent, 1u64 << (c as u64), c + 1, nn, 1, w)]
                } else {
                    Seq::<PartialRow>::empty()
                },
                column_in <= 1 && (column_in == 1) == has_bit(parent.columns, c),
                diag_dr_in <= 1 && (diag_dr_in == 1) == has_bit(parent.diag_dr, c),
                diag_dl_in <= 1 && (diag_dl_in == 1) == has_bit(parent.diag_dl, c),
                partials@ == partials_at(parent, nn, c, w),
                current == queen_rows(parent, nn, c, c, w).reverse(),
                rest == queen_rows(parent, nn, c + 1, c, w).reverse(),
                current.len() <= c,
                partials@.len() == current.len() + 1,
                i <= partials@.len(),
                i == 0 ==> next@.len() == 0,
                i >= 1 ==> next@ == head + rest.take(i - 1),
                counters.tensor_examined - old(counters).tensor_examined == counters.tensor_matched
                    - old(counters).tensor_matched,
                old(counters).tensor_matched <= counters.tensor_matched <= old(counters).tensor_matched
                    + column * 1024 + i * 2,
                old(counters).tensor_examined + 0x1_0000 <= u128::MAX,
                old(counters).tensor_matched + 0x1_0000 <= u128::MAX,
                counters.operator_candidates == old(counters).operator_candidates,
                counters.operator_matched == old(counters).operator_matched,
                forall|k: int|
                    0 <= k < 16 ==> #[trigger] crate::tensor::c_matching(k) == if k == 0 {
                        seq![CEntry { legs: pass_legs(0), value: 1 }, CEntry { legs: occupied_legs(), value: 1 }]
                    } else {
                        seq![CEntry { legs: pass_legs(k), value: 1 }]
                    },
            decreases partials@.len() - i,
        {
            let partial = partials[i];
            let ghost key = column_in + 2 * partial.row_signal + 4 * diag_dr_in + 8 * diag_dl_in;
            proof {
                if i >= 1 {
                    assert(partial == current[i - 1]);
                    lemma_queen_cols(parent, c);
                    assert(partial.row_signal == 1);
                } else {
                    assert(partial == prefix_row(parent, 0, c, nn, 0, w));
                }
            }
            let matching = tensor.matching_entries(column_in, partial.row_signal, diag_dr_in, diag_dl_in);
            let ghost successors = if i == 0 {
                if free {
                    seq![prefix_row(parent, 0, c + 1, nn, 0, w), prefix_row(parent, 1u64 << (c as u64), c + 1, nn, 1, w)]
                } else {
                    seq![prefix_row(parent, 0, c + 1, nn, 0, w)]
                }
            } else {
                seq![rest[i - 1]]
            };
            proof {
                assert(key == 0 <==> (i == 0 && free));
                assert(matching@.len() <= 2);
                let mark = if i == 0 {
                    0u64
                } else {
                    1u64 << (queen_cols(parent, c)[current.len() - i] as u64)
                };
                if i == 0 {
                    lemma_mark_bits(parent.columns, c as u64, 0, nn as u64);
                    lemma_mark_bits(parent.diag_dr, c as u64, 0, nn as u64);
                    lemma_mark_bits(parent.diag_dl, c as u64, 0, nn as u64);
                    lemma_pass_step(parent, 0, c, nn, 0, w, key);
                    if free {
                        lemma_occupied_step(parent, c, nn, w);
                        assert(key == 0);
                    }
                } else {
                    let j = current.len() - i;
                    lemma_queen_rows_advance(parent, nn, c, w, j);
                    assert(current[i - 1] == queen_rows(parent, nn, c, c, w)[j]);
                    assert(rest[i - 1] == queen_rows(parent, nn, c + 1, c, w)[j]);
                }
            }
            counters.tensor_examined = counters.tensor_examined + matching.len() as u128;
            let ghost before = next@;
            let mut e: usize = 0;
            while e < matching.len()
                invariant
                    n < 64,
                    nn == n,
                    column < n,
                    c == column,
                    e <= matching@.len(),
                    matching@.len() <= 2,
                    i < 64,
                    forall|t: int|
                        0 <= t < matching@.len() ==> #[trigger] matching@[t].value == 1
                            && step(partial, matching@[t], c, nn) == successors[t],
                    successors.len() == matching@.len(),
                    next@ == before + successors.take(e as int),
                    counters.tensor_examined - old(counters).tensor_examined == counters.tensor_matched
                        + (matching@.len() - e) - old(counters).tensor_matched,
                    old(counters).tensor_matched <= counters.tensor_matched <= old(counters).tensor_matched
                        + column * 1024 + i * 2 + e,
                    old(counters).tensor_matched + 0x1_0000 <= u128::MAX,
                    counters.operator_candidates == old(counters).operator_candidates,
                    counters.operator_matched == old(counters).operator_matched,
                decreases matching@.len() - e,
            {
                let entry = matching[e];
                proof {
                    assert(entry == matching@[e as int]);
                    assert(matching@[e as int].value == 1);
                }
                counters.tensor_matched = counters.tensor_matched + 1;
                let weight = match partial.weight.checked_mul(entry.value) {
                    Some(v) => v,
                    None => {
                        return Err(message("coefficient overflow in local C contraction"));
                    },
                };
                let mut successor = PartialRow {
                    columns_out: partial.columns_out,
                    diag_dr_out: partial.diag_dr_out,
                    diag_dl_out: partial.diag_dl_out,
                    row_signal: entry.legs.row_out,
                    weight,
                };
                set_bit(&mut successor.columns_out, column, entry.legs.column_out);
                if column + 1 < n {
                    set_bit(&mut successor.diag_dr_out, column + 1, entry.legs.diag_dr_out);
                    assert(successor.diag_dr_out == if entry.legs.diag_dr_out == 1 {
                        partial.diag_dr_out | (1u64 << ((column + 1) as u64))
                    } else {
                        partial.diag_dr_out
                    });
                }
                if column > 0 {
                    set_bit(&mut successor.diag_dl_out, column - 1, entry.legs.diag_dl_out);
                }
                proof {
                    assert(weight == partial.weight) by {
                        assert(partial.weight * entry.value == partial.weight) by (nonlinear_arith)
                            requires
                                entry.value == 1,
                        ;
                    }
                    let expected = step(partial, entry, c, nn);
                    assert(successor.columns_out == expected.columns_out);
                    assert(successor.diag_dr_out == expected.diag_dr_out);
                    assert(successor.diag_dl_out == expected.diag_dl_out);
                    assert(successor.row_signal == expected.row_signal);
                    assert(successor.weight == expected.weight);
                    assert(successor == step(partial, entry, c, nn));
                }
                next.push(successor);
                proof {
                    assert(successors.take(e as int + 1) =~= successors.take(e as int).push(successor));
                }
                e = e + 1;
            }
            proof {
                assert(successors.take(e as int) =~= successors);
                if i == 0 {
                    assert(before.len() == 0);
                    assert(next@ =~= successors);
                    if free {
                        assert(successors =~= head);
                    } else {
                        assert(successors =~= head);
                    }
                    assert(next@ =~= head + rest.take(0));
                } else {
                    assert(rest.take(i as int) =~= rest.take(i - 1).push(rest[i - 1]));
                    assert(next@ =~= head + rest.take(i as int));
                }
            }
            i = i + 1;
        }
        proof {
            assert(rest.take(i - 1) =~= rest) by {
                assert(rest.len() == current.len());
                assert(partials@.len() == current.len() + 1);
            }
            let qc = queen_cols(parent, c + 1);
            assert(qc =~= queen_cols(parent, c) + if free {
                seq![c]
            } else {
                Seq::<nat>::empty()
            });
            assert(queen_rows(parent, nn, c + 1, c + 1, w) =~= queen_rows(parent, nn, c + 1, c, w) + if free {
                seq![prefix_row(parent, 1u64 << (c as u64), c + 1, nn, 1, w)]
            } else {
                Seq::<PartialRow>::empty()
            });
            assert(next@ =~= partials_at(parent, nn, c + 1, w));
        }
        partials = next;
        column = column + 1;
    }
    let ghost finals = queen_rows(parent, nn, nn, nn, w).reverse();
    let mut completed: Vec<(BoundaryState, u128)> = Vec::new();
    let mut i: usize = 0;
    while i < partials.len()
        invariant
            n < 64,
            nn == n,
            partials@ == partials_at(parent, nn, nn, w),
            finals == queen_rows(parent, nn, nn, nn, w).reverse(),
            i <= partials@.len(),
            i == 0 ==> completed@.len() == 0,
            i >= 1 ==> completed@ == finals.take(i - 1).map_values(
                |p: PartialRow| (BoundaryState { columns: p.columns_out, diag_dr: p.diag_dr_out, diag_dl: p.diag_dl_out }, p.weight),
            ),
        decreases partials@.len() - i,
    {
        let partial = partials[i];
        if partial.row_signal == 1 {
            completed.push(
                (
                    BoundaryState {
                        columns: partial.columns_out,
                        diag_dr: partial.diag_dr_out,
                        diag_dl: partial.diag_dl_out,
                    },
                    partial.weight,
                ),
            );
        }
        proof {
            if i >= 1 {
                assert(partial == finals[i - 1]);
                assert(partial.row_signal == 1);
                assert(finals.take(i as int) =~= finals.take(i - 1).push(finals[i - 1]));
            }
            assert(completed@ =~= finals.take(i as int).map_values(
                |p: PartialRow| (BoundaryState { columns: p.columns_out, diag_dr: p.diag_dr_out, diag_dl: p.diag_dl_out }, p.weight),
            ));
        }
        i = i + 1;
    }
    proof {
        assert(finals.take(i - 1) =~= finals);
        lemma_queen_cols(parent, nn);
        lemma_queen_successors(parent, nn, nn);
        let qs = queen_cols(parent, nn);
        assert forall|t: int| 0 <= t < qs.len() implies ({
            let p = prefix_row(parent, 1u64 << (qs[t] as u64), nn, nn, 1, w);
            (BoundaryState { columns: p.columns_out, diag_dr: p.diag_dr_out, diag_dl: p.diag_dl_out }, p.weight)
        }) == (place(nn, restrict_state(parent, nn), #[trigger] qs[t]), w) by {
            lemma_completed_row(parent, nn, qs[t], w);
        }
        assert(completed@ =~= with_weight(row_successors(nn, restrict_state(parent, nn)), parent_weight).reverse());
    }
    Ok(completed)
}

} // verus!
