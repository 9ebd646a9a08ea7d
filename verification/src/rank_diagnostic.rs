//! Exact finite-field flattening-rank diagnostic for PEPS boundary tensors.
use vstd::prelude::*;

use crate::boundary::{BoundaryState, PackedBoundary, empty_state, lemma_pack_round_trip, pack_spec, unpack_spec};
use crate::contract::{expand_layer, lemma_empty_fits, lemma_weighted_sum_take_step, reduce_sorted_candidates, sort_by_packed_key};
use crate::transfer::{key_paths, lemma_weighted_sum_permutation, rooted, weighted_sum};
use crate::row::{CompiledRowOperator, PositionMode, RowCounters};
use crate::tensor::SiteTensorC;
use crate::util::{elapsed, message, now, peak_rss_bytes};
use std::time::Duration;
use vstd::arithmetic::div_mod::{lemma_mul_mod_noop_left, lemma_mul_mod_noop_right};
use vstd::arithmetic::power::{
    lemma_pow0, lemma_pow1, lemma_pow_adds, lemma_pow_mod_noop, lemma_pow_multiplies, pow,
};

verus! {

/// The two primes over which the flattening rank is computed.
pub const RANK_PRIMES: [u64; 2] = [1_000_000_007, 1_000_000_009];

/// One halving step of square-and-multiply keeps the invariant
/// `result * base^e = target (mod m)`.
proof fn lemma_square_step(result: int, base: int, e: nat, m: int)
    requires
        m > 1,
        result >= 0,
        base >= 0,
    ensures
        e % 2 == 1 ==> ((result * base) % m) * pow((base * base) % m, e / 2) % m == (result * pow(base, e))
            % m,
        e % 2 == 0 ==> result * pow((base * base) % m, e / 2) % m == (result * pow(base, e)) % m,
{
    let half = e / 2;
    lemma_pow_multiplies(base, 2, half);
    assert(pow(base, 2) == base * base) by {
        lemma_pow_adds(base, 1, 1);
        lemma_pow1(base);
    }
    assert(pow(base * base, half) == pow(base, 2 * half));
    lemma_pow_mod_noop(base * base, half, m);
    let q = pow((base * base) % m, half);
    let r = pow(base * base, half);
    assert(q % m == r % m);
    if e % 2 == 1 {
        lemma_pow_adds(base, 1, 2 * half);
        lemma_pow1(base);
        assert(e == 1 + 2 * half);
        assert(pow(base, e) == base * r);
        lemma_mul_mod_noop_left(result * base, q, m);
        lemma_mul_mod_noop_right(result * base, q, m);
        lemma_mul_mod_noop_right(result * base, r, m);
        assert((result * base) * r == result * (base * r)) by (nonlinear_arith);
    } else {
        assert(e == 2 * half);
        lemma_mul_mod_noop_right(result, q, m);
        lemma_mul_mod_noop_right(result, r, m);
    }
}

/// `base^exponent mod prime` by square-and-multiply.
pub fn mod_pow(base: u64, exponent: u64, prime: u64) -> (power: u64)
    requires
        prime > 1,
    ensures
        power == pow(base as int, exponent as nat) % (prime as int),
{
    let ghost target = pow(base as int, exponent as nat) % (prime as int);
    proof {
        assert(1 * pow(base as int, exponent as nat) == pow(base as int, exponent as nat));
    }
    let mut base = base;
    let mut exponent = exponent;
    let mut result: u64 = 1;
    while exponent != 0
        invariant
            prime > 1,
            result < prime,
            (result * pow(base as int, exponent as nat)) % (prime as int) == target,
        decreases exponent,
    {
        proof {
            lemma_square_step(result as int, base as int, exponent as nat, prime as int);
            assert((exponent & 1 == 1) == (exponent % 2 == 1)) by (bit_vector);
            assert(exponent >> 1 == exponent / 2) by (bit_vector);
        }
        assert((result as u128) * (base as u128) <= u128::MAX) by (nonlinear_arith)
            requires
                result < 0x1_0000_0000_0000_0000,
                base < 0x1_0000_0000_0000_0000,
        ;
        assert((base as u128) * (base as u128) <= u128::MAX) by (nonlinear_arith)
            requires
                base < 0x1_0000_0000_0000_0000,
        ;
        if exponent & 1 == 1 {
            result = (((result as u128) * (base as u128)) % (prime as u128)) as u64;
        }
        base = (((base as u128) * (base as u128)) % (prime as u128)) as u64;
        exponent = exponent >> 1;
    }
    proof {
        lemma_pow0(base as int);
        assert(result * pow(base as int, exponent as nat) == result as int);
        vstd::arithmetic::div_mod::lemma_small_mod(result as nat, prime as nat);
    }
    result
}


/// The columns of a sparse row strictly increase.
pub open spec fn cols_increasing(row: Seq<(u64, u64)>) -> bool {
    forall|i: int, j: int| 0 <= i < j < row.len() ==> row[i].0 < row[j].0
}

/// Every value of a sparse row is reduced modulo `prime`.
pub open spec fn values_below(row: Seq<(u64, u64)>, prime: u64) -> bool {
    forall|i: int| 0 <= i < row.len() ==> (#[trigger] row[i]).1 < prime
}

/// Every column of a sparse row lies above `column`.
pub open spec fn cols_above(row: Seq<(u64, u64)>, column: u64) -> bool {
    forall|i: int| 0 <= i < row.len() ==> (#[trigger] row[i]).0 > column
}

/// A sparse row over the field of `prime`.
pub open spec fn sparse_row(row: Seq<(u64, u64)>, prime: u64) -> bool {
    cols_increasing(row) && values_below(row, prime)
}

/// `a * b mod prime`.
fn mul_mod(a: u64, b: u64, prime: u64) -> (product: u64)
    requires
        prime > 0,
    ensures
        product == (a * b) % (prime as int),
        product < prime,
{
    assert((a as u128) * (b as u128) <= u128::MAX) by (nonlinear_arith)
        requires
            a < 0x1_0000_0000_0000_0000,
            b < 0x1_0000_0000_0000_0000,
    ;
    (((a as u128) * (b as u128)) % (prime as u128)) as u64
}

/// The value of a sparse row in column `c`: its entry there, zero where it
/// has none.
pub open spec fn row_value(row: Seq<(u64, u64)>, c: u64) -> int
    decreases row.len(),
{
    if row.len() == 0 {
        0
    } else if row.last().0 == c {
        row.last().1 as int
    } else {
        row_value(row.drop_last(), c)
    }
}

/// A row none of whose columns is `c` has value zero there.
proof fn lemma_row_value_absent(row: Seq<(u64, u64)>, c: u64)
    requires
        forall|k: int| 0 <= k < row.len() ==> (#[trigger] row[k]).0 != c,
    ensures
        row_value(row, c) == 0,
    decreases row.len(),
{
    if row.len() > 0 {
        let d = row.drop_last();
        assert forall|k: int| 0 <= k < d.len() implies (#[trigger] d[k]).0 != c by {
            assert(d[k] == row[k]);
        }
        lemma_row_value_absent(d, c);
    }
}

/// Extending a prefix by one entry changes the value only in its column.
proof fn lemma_row_value_step(row: Seq<(u64, u64)>, i: int, c: u64)
    requires
        0 <= i < row.len(),
    ensures
        row_value(row.take(i + 1), c) == if row[i].0 == c {
            row[i].1 as int
        } else {
            row_value(row.take(i), c)
        },
{
    assert(row.take(i + 1).drop_last() =~= row.take(i));
}

/// `(a - x) mod p` by the wrapped subtraction the elimination computes.
proof fn lemma_sub_mod(a: int, x: int, p: int)
    requires
        p > 0,
        0 <= a < p,
    ensures
        (a + p - x % p) % p == (a - x) % p,
{
    vstd::arithmetic::div_mod::lemma_fundamental_div_mod(x, p);
    assert(a + p - x % p == (a - x) + p * (1 + x / p)) by (nonlinear_arith)
        requires
            x == p * (x / p) + x % p,
    ;
    vstd::arithmetic::div_mod::lemma_mod_multiples_vanish(1 + x / p, a - x, p);
}

/// `row - factor * pivot` over the field of `prime`, dropping the columns that
/// cancel. The pivot row leads with a one in the leading column of `row`,
/// whose entry is `factor`, so that column cancels.
fn subtract_scaled(row: &Vec<(u64, u64)>, pivot: &Vec<(u64, u64)>, factor: u64, prime: u64) -> (reduced: Vec<(u64, u64)>)
    requires
        prime > 1,
        sparse_row(row@, prime),
        sparse_row(pivot@, prime),
        row@.len() > 0,
        pivot@.len() > 0,
        row@[0].0 == pivot@[0].0,
        row@[0].1 == factor,
        pivot@[0].1 == 1,
    ensures
        sparse_row(reduced@, prime),
        cols_above(reduced@, row@[0].0),
        reduced@.len() <= row@.len() + pivot@.len(),
        forall|c: u64|
            #[trigger] row_value(reduced@, c) == (row_value(row@, c) - factor * row_value(pivot@, c)) % (prime as int),
{
    let column = row[0].0;
    let mut reduced: Vec<(u64, u64)> = Vec::new();
    let mut i: usize = 1;
    let mut j: usize = 1;
    let ghost p = prime as int;
    proof {
        assert forall|c: u64| #[trigger] row_value(reduced@, c) == (row_value(row@.take(1), c) - factor * row_value(
            pivot@.take(1),
            c,
        )) % p by {
            lemma_row_value_step(row@, 0, c);
            lemma_row_value_step(pivot@, 0, c);
            assert(row@.take(0).len() == 0);
            assert(pivot@.take(0).len() == 0);
            if c == column {
                assert((factor - factor * 1) % p == 0) by (nonlinear_arith)
                    requires
                        p > 1,
                ;
            } else {
                assert((0 - factor * 0) % p == 0) by (nonlinear_arith)
                    requires
                        p > 1,
                ;
            }
        }
    }
    while i < row.len() || j < pivot.len()
        invariant
            prime > 1,
            sparse_row(row@, prime),
            sparse_row(pivot@, prime),
            row@.len() > 0,
            pivot@.len() > 0,
            column == row@[0].0,
            column == pivot@[0].0,
            1 <= i <= row@.len(),
            1 <= j <= pivot@.len(),
            sparse_row(reduced@, prime),
            cols_above(reduced@, column),
            reduced@.len() <= (i - 1) + (j - 1),
            reduced@.len() > 0 && i < row@.len() ==> reduced@.last().0 < row@[i as int].0,
            reduced@.len() > 0 && j < pivot@.len() ==> reduced@.last().0 < pivot@[j as int].0,
            p == prime,
            factor == row@[0].1,
            i < row@.len() ==> forall|k: int| 0 <= k < j ==> (#[trigger] pivot@[k]).0 < row@[i as int].0,
            j < pivot@.len() ==> forall|k: int| 0 <= k < i ==> (#[trigger] row@[k]).0 < pivot@[j as int].0,
            forall|c: u64| #[trigger] row_value(reduced@, c) == (row_value(row@.take(i as int), c) - factor * row_value(
                pivot@.take(j as int),
                c,
            )) % p,
        decreases (row@.len() - i) + (pivot@.len() - j),
    {
        let ghost old_reduced = reduced@;
        let ghost oi = i as int;
        let ghost oj = j as int;
        if j == pivot.len() || (i < row.len() && row[i].0 < pivot[j].0) {
            let entry = row[i];
            reduced.push(entry);
            i = i + 1;
            proof {
                assert forall|c: u64| #[trigger] row_value(reduced@, c) == (row_value(row@.take(i as int), c) - factor
                    * row_value(pivot@.take(j as int), c)) % p by {
                    lemma_row_value_step(row@, oi, c);
                    assert(reduced@.drop_last() =~= old_reduced);
                    assert(reduced@.last() == entry);
                    assert(row@[oi] == entry);
                    assert(oi + 1 == i);
                    if c == entry.0 {
                        assert forall|k: int| 0 <= k < pivot@.take(j as int).len() implies (#[trigger] pivot@.take(
                            j as int,
                        )[k]).0 != c by {
                            assert(pivot@.take(j as int)[k] == pivot@[k]);
                        }
                        lemma_row_value_absent(pivot@.take(j as int), c);
                        assert(entry.1 < p);
                        assert(factor * 0 == 0) by (nonlinear_arith);
                        vstd::arithmetic::div_mod::lemma_small_mod(entry.1 as nat, p as nat);
                        assert(row_value(reduced@, c) == entry.1 as int);
                        assert(row_value(row@.take(i as int), c) == entry.1 as int);
                    } else {
                        assert(row_value(reduced@, c) == row_value(old_reduced, c));
                        assert(row_value(row@.take(i as int), c) == row_value(row@.take(oi), c));
                    }
                }
            }
        } else if i == row.len() || pivot[j].0 < row[i].0 {
            let subtraction = mul_mod(factor, pivot[j].1, prime);
            let updated = (prime - subtraction) % prime;
            let ghost col = pivot@[oj].0;
            proof {
                assert forall|k: int| 0 <= k < row@.take(oi).len() implies (#[trigger] row@.take(oi)[k]).0 != col by {
                    assert(row@.take(oi)[k] == row@[k]);
                }
                lemma_row_value_absent(row@.take(oi), col);
                lemma_sub_mod(0, factor * pivot@[oj].1, p);
                if subtraction == 0 {
                    vstd::arithmetic::div_mod::lemma_mod_self_0(p);
                } else {
                    vstd::arithmetic::div_mod::lemma_small_mod((p - subtraction) as nat, p as nat);
                }
                assert(subtraction == (factor * pivot@[oj].1) % p);
                assert(updated == (0 - factor * pivot@[oj].1) % p);
                assert forall|k: int| 0 <= k < old_reduced.len() implies (#[trigger] old_reduced[k]).0 != col by {
                    if old_reduced.len() > 0 {
                        assert(old_reduced[k].0 <= old_reduced.last().0);
                    }
                }
                lemma_row_value_absent(old_reduced, col);
            }
            if updated != 0 {
                reduced.push((pivot[j].0, updated));
            }
            j = j + 1;
            proof {
                assert forall|c: u64| #[trigger] row_value(reduced@, c) == (row_value(row@.take(i as int), c) - factor
                    * row_value(pivot@.take(j as int), c)) % p by {
                    lemma_row_value_step(pivot@, oj, c);
                    assert(oj + 1 == j);
                    if reduced@.len() > old_reduced.len() {
                        assert(reduced@.drop_last() =~= old_reduced);
                        assert(reduced@.last() == (col, updated));
                    } else {
                        assert(reduced@ == old_reduced);
                    }
                    if c == col {
                        assert(row_value(pivot@.take(j as int), c) == pivot@[oj].1 as int);
                        assert(row_value(reduced@, c) == updated as int);
                    } else {
                        assert(row_value(pivot@.take(j as int), c) == row_value(pivot@.take(oj), c));
                        assert(row_value(reduced@, c) == row_value(old_reduced, c));
                    }
                }
            }
        } else {
            let subtraction = mul_mod(factor, pivot[j].1, prime);
            let updated = ((row[i].1 as u128 + prime as u128 - subtraction as u128) % prime as u128) as u64;
            let ghost col = row@[oi].0;
            proof {
                lemma_sub_mod(row@[oi].1 as int, factor * pivot@[oj].1, p);
                assert forall|k: int| 0 <= k < old_reduced.len() implies (#[trigger] old_reduced[k]).0 != col by {
                    if old_reduced.len() > 0 {
                        assert(old_reduced[k].0 <= old_reduced.last().0);
                    }
                }
                lemma_row_value_absent(old_reduced, col);
            }
            if updated != 0 {
                reduced.push((row[i].0, updated));
            }
            i = i + 1;
            j = j + 1;
            proof {
                assert forall|c: u64| #[trigger] row_value(reduced@, c) == (row_value(row@.take(i as int), c) - factor
                    * row_value(pivot@.take(j as int), c)) % p by {
                    lemma_row_value_step(row@, oi, c);
                    lemma_row_value_step(pivot@, oj, c);
                    assert(oi + 1 == i);
                    assert(oj + 1 == j);
                    if reduced@.len() > old_reduced.len() {
                        assert(reduced@.drop_last() =~= old_reduced);
                        assert(reduced@.last() == (col, updated));
                    } else {
                        assert(reduced@ == old_reduced);
                    }
                    if c == col {
                        assert(pivot@[oj].0 == col);
                        assert(row_value(reduced@, c) == updated as int);
                    } else {
                        assert(row_value(reduced@, c) == row_value(old_reduced, c));
                    }
                }
            }
        }
    }
    proof {
        assert(row@.take(i as int) =~= row@);
        assert(pivot@.take(j as int) =~= pivot@);
    }
    reduced
}

/// Scale every value of a row by `scale` over the field of `prime`.
fn scale_row(row: &Vec<(u64, u64)>, scale: u64, prime: u64) -> (scaled: Vec<(u64, u64)>)
    requires
        prime > 1,
    ensures
        scaled@.len() == row@.len(),
        values_below(scaled@, prime),
        forall|i: int| 0 <= i < row@.len() ==> (#[trigger] scaled@[i]).0 == row@[i].0 && scaled@[i].1 == (
        row@[i].1 * scale) % (prime as int),
{
    let mut scaled: Vec<(u64, u64)> = Vec::new();
    let mut i: usize = 0;
    while i < row.len()
        invariant
            prime > 1,
            i <= row@.len(),
            scaled@.len() == i,
            values_below(scaled@, prime),
            forall|k: int| 0 <= k < i ==> (#[trigger] scaled@[k]).0 == row@[k].0 && scaled@[k].1 == (
            row@[k].1 * scale) % (prime as int),
        decreases row@.len() - i,
    {
        scaled.push((row[i].0, mul_mod(row[i].1, scale, prime)));
        i = i + 1;
    }
    scaled
}


/// The matrix entries in row-then-column order.
pub open spec fn entries_sorted(entries: Seq<(u64, u64, u64)>) -> bool {
    forall|i: int, j: int|
        0 <= i <= j < entries.len() ==> (entries[i].0 < entries[j].0 || (entries[i].0 == entries[j].0
            && entries[i].1 <= entries[j].1))
}

/// Sorts matrix entries by row and then column with
/// `slice::sort_unstable_by_key`. Stated: the result is a reordering of the
/// input in that order; which of two entries of one position comes first is
/// not stated.
#[verifier::external_body]
fn sort_entries(entries: &mut Vec<(u64, u64, u64)>)
    ensures
        final(entries)@.to_multiset() == old(entries)@.to_multiset(),
        entries_sorted(final(entries)@),
{
    entries.sort_unstable_by_key(|entry| (entry.0, entry.1));
}

/// Sorts sparse rows by their number of entries with
/// `slice::sort_unstable_by_key`. Stated: the result is a reordering of the
/// input by non-decreasing length; which of two rows of one length comes first
/// is not stated.
#[verifier::external_body]
fn sort_rows_by_len(rows: &mut Vec<Vec<(u64, u64)>>)
    ensures
        final(rows)@.to_multiset() == old(rows)@.to_multiset(),
        forall|i: int, j: int| 0 <= i <= j < final(rows)@.len() ==> final(rows)@[i]@.len() <= final(rows)@[j]@.len(),
{
    rows.sort_unstable_by_key(|row| row.len());
}

/// The sum of the coefficients that `entries` place in row `l`, column `c`.
pub open spec fn matrix_entry(entries: Seq<(u64, u64, u128)>, l: u64, c: u64) -> int
    decreases entries.len(),
{
    if entries.len() == 0 {
        0
    } else {
        matrix_entry(entries.drop_last(), l, c) + if entries.last().0 == l && entries.last().1 == c {
            entries.last().2 as int
        } else {
            0
        }
    }
}

/// Row `l` of the matrix of `entries`, as a function of the column.
pub open spec fn matrix_row(entries: Seq<(u64, u64, u128)>, l: u64) -> spec_fn(u64) -> int {
    |c: u64| matrix_entry(entries, l, c)
}

/// The sum of the reduced values that `t` places in row `l`, column `c`.
pub open spec fn triple_sum(t: Seq<(u64, u64, u64)>, l: u64, c: u64) -> int
    decreases t.len(),
{
    if t.len() == 0 {
        0
    } else {
        triple_sum(t.drop_last(), l, c) + if t.last().0 == l && t.last().1 == c {
            t.last().2 as int
        } else {
            0
        }
    }
}

/// Removing one triple removes its value from its position's sum.
proof fn lemma_triple_sum_remove(t: Seq<(u64, u64, u64)>, i: int, l: u64, c: u64)
    requires
        0 <= i < t.len(),
    ensures
        triple_sum(t, l, c) == triple_sum(t.remove(i), l, c) + if t[i].0 == l && t[i].1 == c {
            t[i].2 as int
        } else {
            0
        },
    decreases t.len(),
{
    if i < t.len() - 1 {
        lemma_triple_sum_remove(t.drop_last(), i, l, c);
        assert(t.remove(i).drop_last() =~= t.drop_last().remove(i));
        assert(t.remove(i).last() == t.last());
    } else {
        assert(t.remove(i) =~= t.drop_last());
    }
}

/// Reordering triples keeps every position's sum.
proof fn lemma_triple_sum_permutation(a: Seq<(u64, u64, u64)>, b: Seq<(u64, u64, u64)>, l: u64, c: u64)
    requires
        a.to_multiset() == b.to_multiset(),
    ensures
        triple_sum(a, l, c) == triple_sum(b, l, c),
    decreases a.len(),
{
    broadcast use vstd::seq_lib::group_seq_properties;
    broadcast use vstd::multiset::group_multiset_axioms;

    a.to_multiset_ensures();
    b.to_multiset_ensures();
    if a.len() == 0 {
        assert(b.len() == 0);
    } else {
        let x = a.last();
        assert(a.to_multiset().count(x) > 0) by {
            assert(a.contains(x)) by {
                assert(a[a.len() - 1] == x);
            }
        }
        assert(b.contains(x));
        let i = b.index_of(x);
        assert(b[i] == x);
        let b2 = b.remove(i);
        let a2 = a.drop_last();
        assert(a =~= a2.push(x));
        assert(b2.to_multiset() =~= b.to_multiset().remove(x));
        a2.to_multiset_ensures();
        assert(a2.to_multiset() =~= a.to_multiset().remove(x));
        lemma_triple_sum_permutation(a2, b2, l, c);
        lemma_triple_sum_remove(b, i, l, c);
    }
}

/// Triples of other rows than `l` add nothing to row `l`.
proof fn lemma_triple_sum_other_rows(t: Seq<(u64, u64, u64)>, l: u64, c: u64)
    requires
        forall|m: int| 0 <= m < t.len() ==> (#[trigger] t[m]).0 != l,
    ensures
        triple_sum(t, l, c) == 0,
    decreases t.len(),
{
    if t.len() > 0 {
        let d = t.drop_last();
        assert forall|m: int| 0 <= m < d.len() implies (#[trigger] d[m]).0 != l by {
            assert(d[m] == t[m]);
        }
        lemma_triple_sum_other_rows(d, l, c);
        assert(t.last() == t[t.len() - 1]);
    }
}

/// The sum over a list is the sum over a prefix when the rest lies in other
/// rows.
proof fn lemma_triple_sum_prefix(t: Seq<(u64, u64, u64)>, k: int, l: u64, c: u64)
    requires
        0 <= k <= t.len(),
        forall|m: int| k <= m < t.len() ==> (#[trigger] t[m]).0 != l,
    ensures
        triple_sum(t, l, c) == triple_sum(t.take(k), l, c),
    decreases t.len() - k,
{
    if k < t.len() {
        lemma_triple_sum_prefix(t, k + 1, l, c);
        assert(t.take(k + 1).drop_last() =~= t.take(k));
        assert(t.take(k + 1).last() == t[k]);
    } else {
        assert(t.take(k) =~= t);
    }
}

/// Modulo `p`, row `l` of the reduced triples `t` is zero, or it is one of
/// `rows`.
pub open spec fn triple_row_collected(rows: Seq<Vec<(u64, u64)>>, t: Seq<(u64, u64, u64)>, l: u64, p: int) -> bool {
    ||| triple_row_zero(t, l, p)
    ||| exists|i: int| 0 <= i < rows.len() && #[trigger] triple_row_is(rows[i]@, t, l, p)
}

/// Modulo `p`, row `l` of the reduced triples `t` is zero.
pub open spec fn triple_row_zero(t: Seq<(u64, u64, u64)>, l: u64, p: int) -> bool {
    forall|c: u64| #[trigger] triple_sum(t, l, c) % p == 0
}

/// The sparse row `row` is row `l` of the reduced triples `t` modulo `p`.
pub open spec fn triple_row_is(row: Seq<(u64, u64)>, t: Seq<(u64, u64, u64)>, l: u64, p: int) -> bool {
    forall|c: u64| #[trigger] row_value(row, c) == triple_sum(t, l, c) % p
}

/// The sparse row `row` is some row of the reduced triples `t` modulo `p`.
pub open spec fn triple_row_of(row: Seq<(u64, u64)>, t: Seq<(u64, u64, u64)>, p: int) -> bool {
    exists|l: u64| #[trigger] triple_row_is(row, t, l, p)
}

/// The sparse row `row` is some row of the matrix of `entries` modulo
/// `prime`.
pub open spec fn matrix_row_of(row: Seq<(u64, u64)>, entries: Seq<(u64, u64, u128)>, prime: u64) -> bool {
    exists|l: u64| #[trigger] matrix_row_is(row, entries, l, prime)
}

/// Modulo `prime`, row `l` of the matrix of `entries` is zero.
pub open spec fn matrix_row_zero(entries: Seq<(u64, u64, u128)>, l: u64, prime: u64) -> bool {
    forall|c: u64| #[trigger] matrix_entry(entries, l, c) % (prime as int) == 0
}

/// The sparse row `row` is row `l` of the matrix of `entries` modulo `prime`.
pub open spec fn matrix_row_is(row: Seq<(u64, u64)>, entries: Seq<(u64, u64, u128)>, l: u64, prime: u64) -> bool {
    forall|c: u64| #[trigger] row_value(row, c) == matrix_entry(entries, l, c) % (prime as int)
}

/// Modulo `prime`, row `l` of the matrix of `entries` is zero, or it is one
/// of `rows`.
pub open spec fn row_collected(rows: Seq<Vec<(u64, u64)>>, entries: Seq<(u64, u64, u128)>, l: u64, prime: u64) -> bool {
    ||| matrix_row_zero(entries, l, prime)
    ||| exists|i: int| 0 <= i < rows.len() && #[trigger] matrix_row_is(rows[i]@, entries, l, prime)
}

/// A row found among some rows is found among rows that extend them.
proof fn lemma_collected_extend(
    old_rows: Seq<Vec<(u64, u64)>>,
    new_rows: Seq<Vec<(u64, u64)>>,
    t: Seq<(u64, u64, u64)>,
    l: u64,
    p: int,
)
    requires
        old_rows.len() <= new_rows.len(),
        forall|j: int| 0 <= j < old_rows.len() ==> #[trigger] new_rows[j] == old_rows[j],
        triple_row_collected(old_rows, t, l, p),
    ensures
        triple_row_collected(new_rows, t, l, p),
{
    if !triple_row_zero(t, l, p) {
        let j = choose|j: int| 0 <= j < old_rows.len() && #[trigger] triple_row_is(old_rows[j]@, t, l, p);
        assert(new_rows[j] == old_rows[j]);
        assert(triple_row_is(new_rows[j]@, t, l, p));
    }
}

/// Adding congruent values to congruent values gives congruent sums.
proof fn lemma_mod_step(a: int, b: int, x: int, y: int, p: int)
    requires
        p > 0,
        a % p == b % p,
        x % p == y % p,
    ensures
        (a + x) % p == (b + y) % p,
{
    vstd::arithmetic::div_mod::lemma_add_mod_noop(a, x, p);
    vstd::arithmetic::div_mod::lemma_add_mod_noop(b, y, p);
}

/// The sparse rows of the matrix with the given entries, each position
/// summed modulo `prime`, zero values dropped.
fn collect_rows(entries: &[(u64, u64, u128)], prime: u64) -> (rows: Vec<Vec<(u64, u64)>>)
    requires
        prime > 1,
    ensures
        forall|r: int| 0 <= r < rows@.len() ==> sparse_row((#[trigger] rows@[r])@, prime),
        rows@.len() <= entries@.len(),
        forall|l: u64| #[trigger] row_collected(rows@, entries@, l, prime),
        forall|r: int| 0 <= r < rows@.len() ==> #[trigger] matrix_row_of(rows@[r]@, entries@, prime),
{
    let ghost p = prime as int;
    let mut reduced: Vec<(u64, u64, u64)> = Vec::new();
    let mut i: usize = 0;
    while i < entries.len()
        invariant
            prime > 1,
            p == prime,
            i <= entries@.len(),
            reduced@.len() <= i,
            forall|k: int| 0 <= k < reduced@.len() ==> (#[trigger] reduced@[k]).2 < prime,
            forall|l: u64, c: u64| #[trigger] matrix_entry(entries@.take(i as int), l, c) % p == triple_sum(reduced@, l, c) % p,
        decreases entries@.len() - i,
    {
        let (row_key, column_key, coefficient) = entries[i];
        let value = (coefficient % (prime as u128)) as u64;
        let ghost before = reduced@;
        if value != 0 {
            reduced.push((row_key, column_key, value));
        }
        proof {
            assert(entries@.take(i as int + 1).drop_last() =~= entries@.take(i as int));
            assert(entries@.take(i as int + 1).last() == entries@[i as int]);
            assert forall|l: u64, c: u64| #[trigger] matrix_entry(entries@.take(i as int + 1), l, c) % p == triple_sum(
                reduced@,
                l,
                c,
            ) % p by {
                let hit = row_key == l && column_key == c;
                let x: int = if hit { coefficient as int } else { 0 };
                let y: int = if hit && value != 0 { value as int } else { 0 };
                if value != 0 {
                    assert(reduced@.drop_last() =~= before);
                    assert(reduced@.last() == (row_key, column_key, value));
                } else {
                    assert(reduced@ == before);
                }
                assert(value == (coefficient as int) % (prime as int));
                vstd::arithmetic::div_mod::lemma_mod_twice(coefficient as int, p);
                if hit {
                    if value == 0 {
                        assert(x % p == 0);
                        vstd::arithmetic::div_mod::lemma_small_mod(0, p as nat);
                    } else {
                        vstd::arithmetic::div_mod::lemma_small_mod(value as nat, p as nat);
                    }
                } else {
                    vstd::arithmetic::div_mod::lemma_small_mod(0, p as nat);
                }
                assert(x % p == y % p);
                lemma_mod_step(matrix_entry(entries@.take(i as int), l, c), triple_sum(before, l, c), x, y, p);
            }
        }
        i = i + 1;
    }
    proof {
        assert(entries@.take(i as int) =~= entries@);
    }
    let ghost unsorted = reduced@;
    sort_entries(&mut reduced);
    proof {
        assert forall|k: int| 0 <= k < reduced@.len() implies (#[trigger] reduced@[k]).2 < prime by {
            broadcast use vstd::seq_lib::to_multiset_contains;
            assert(reduced@.contains(reduced@[k]));
            assert(reduced@.to_multiset().count(reduced@[k]) > 0);
            assert(unsorted.to_multiset().count(reduced@[k]) > 0);
            assert(unsorted.contains(reduced@[k]));
        }
        vstd::seq_lib::to_multiset_len(reduced@);
        vstd::seq_lib::to_multiset_len(unsorted);
        assert(reduced@.len() == unsorted.len());
        assert forall|l: u64, c: u64| #[trigger] matrix_entry(entries@, l, c) % p == triple_sum(reduced@, l, c) % p by {
            lemma_triple_sum_permutation(unsorted, reduced@, l, c);
        }
    }
    let mut rows: Vec<Vec<(u64, u64)>> = Vec::new();
    let mut current: Vec<(u64, u64)> = Vec::new();
    let mut current_key: u64 = 0;
    let mut k: usize = 0;
    proof {
        assert forall|c: u64| #[trigger] row_value(current@, c) == triple_sum(reduced@.take(0), current_key, c) % p by {
            assert(reduced@.take(0).len() == 0);
            vstd::arithmetic::div_mod::lemma_small_mod(0, p as nat);
        }
    }
    while k < reduced.len()
        invariant
            prime > 1,
            p == prime,
            k <= reduced@.len(),
            entries_sorted(reduced@),
            forall|m: int| 0 <= m < reduced@.len() ==> (#[trigger] reduced@[m]).2 < prime,
            forall|r: int| 0 <= r < rows@.len() ==> sparse_row((#[trigger] rows@[r])@, prime),
            sparse_row(current@, prime),
            k == 0 ==> current@.len() == 0 && rows@.len() == 0,
            k > 0 ==> current_key == reduced@[k - 1].0,
            k > 0 && current@.len() > 0 ==> current@.last().0 <= reduced@[k - 1].1,
            rows@.len() + (if k > 0 { 1int } else { 0 }) <= k,
            forall|c: u64| #[trigger] row_value(current@, c) == triple_sum(reduced@.take(k as int), current_key, c) % p,
            forall|l: u64| k > 0 && l < current_key ==> #[trigger] triple_row_collected(rows@, reduced@, l, p),
            forall|r: int| 0 <= r < rows@.len() ==> #[trigger] triple_row_of(rows@[r]@, reduced@, p),
        decreases reduced@.len() - k,
    {
        let (row_key, column_key, value) = reduced[k];
        proof {
            if k > 0 {
                assert(reduced@[k - 1].0 < row_key || (reduced@[k - 1].0 == row_key && reduced@[k - 1].1
                    <= column_key));
            }
        }
        if k > 0 && row_key != current_key {
            let ghost old_rows = rows@;
            let ghost old_current = current@;
            let ghost old_key = current_key;
            if current.len() > 0 {
                rows.push(current);
            }
            proof {
                assert(old_key < row_key);
                assert forall|m: int| k <= m < reduced@.len() implies (#[trigger] reduced@[m]).0 != old_key by {
                    assert(reduced@[k as int].0 <= reduced@[m].0 || m == k);
                }
                assert forall|l: u64| l < row_key implies #[trigger] triple_row_collected(rows@, reduced@, l, p) by {
                    if l < old_key {
                        assert(triple_row_collected(old_rows, reduced@, l, p));
                        lemma_collected_extend(old_rows, rows@, reduced@, l, p);
                    } else if l == old_key {
                        assert forall|c: u64| #[trigger] triple_sum(reduced@, l, c) == triple_sum(reduced@.take(k as int), l, c) by {
                            lemma_triple_sum_prefix(reduced@, k as int, l, c);
                        }
                        if old_current.len() > 0 {
                            let j = old_rows.len() as int;
                            assert(rows@[j]@ == old_current);
                            assert(triple_row_is(rows@[j]@, reduced@, l, p));
                        } else {
                            assert forall|c: u64| #[trigger] triple_sum(reduced@, l, c) % p == 0 by {
                                assert(row_value(old_current, c) == 0);
                            }
                            assert(triple_row_zero(reduced@, l, p));
                        }
                    } else {
                        assert forall|m: int| 0 <= m < reduced@.len() implies (#[trigger] reduced@[m]).0 != l by {
                            if m < k {
                                assert(reduced@[m].0 <= reduced@[k - 1].0);
                            } else {
                                assert(reduced@[k as int].0 <= reduced@[m].0 || m == k);
                            }
                        }
                        assert forall|c: u64| #[trigger] triple_sum(reduced@, l, c) % p == 0 by {
                            lemma_triple_sum_other_rows(reduced@, l, c);
                            vstd::arithmetic::div_mod::lemma_small_mod(0, p as nat);
                        }
                        assert(triple_row_zero(reduced@, l, p));
                    }
                }
                assert forall|r: int| 0 <= r < rows@.len() implies #[trigger] triple_row_of(rows@[r]@, reduced@, p) by {
                    if r < old_rows.len() {
                        assert(rows@[r] == old_rows[r]);
                        assert(triple_row_of(old_rows[r]@, reduced@, p));
                    } else {
                        assert(rows@[r]@ == old_current);
                        assert forall|c: u64| #[trigger] triple_sum(reduced@, old_key, c) == triple_sum(
                            reduced@.take(k as int),
                            old_key,
                            c,
                        ) by {
                            lemma_triple_sum_prefix(reduced@, k as int, old_key, c);
                        }
                        assert(triple_row_is(rows@[r]@, reduced@, old_key, p));
                    }
                }
            }
            current = Vec::new();
            proof {
                assert forall|c: u64| #[trigger] row_value(current@, c) == triple_sum(reduced@.take(k as int), row_key, c) % p by {
                    assert forall|m: int| 0 <= m < reduced@.take(k as int).len() implies (#[trigger] reduced@.take(
                        k as int,
                    )[m]).0 != row_key by {
                        assert(reduced@.take(k as int)[m] == reduced@[m]);
                        assert(reduced@[m].0 <= reduced@[k - 1].0);
                    }
                    lemma_triple_sum_other_rows(reduced@.take(k as int), row_key, c);
                    vstd::arithmetic::div_mod::lemma_small_mod(0, p as nat);
                }
            }
        }
        proof {
            if k == 0 {
                assert forall|l: u64| l < row_key implies #[trigger] triple_row_collected(rows@, reduced@, l, p) by {
                    assert forall|m: int| 0 <= m < reduced@.len() implies (#[trigger] reduced@[m]).0 != l by {
                        assert(reduced@[0].0 <= reduced@[m].0 || m == 0);
                    }
                    assert forall|c: u64| #[trigger] triple_sum(reduced@, l, c) % p == 0 by {
                        lemma_triple_sum_other_rows(reduced@, l, c);
                        vstd::arithmetic::div_mod::lemma_small_mod(0, p as nat);
                    }
                    assert(triple_row_zero(reduced@, l, p));
                }
                assert(reduced@.take(0).len() == 0);
                assert forall|c: u64| #[trigger] row_value(current@, c) == triple_sum(reduced@.take(k as int), row_key, c) % p by {
                    vstd::arithmetic::div_mod::lemma_small_mod(0, p as nat);
                }
            }
            assert forall|c: u64| #[trigger] row_value(current@, c) == triple_sum(reduced@.take(k as int), row_key, c) % p by {}
        }
        current_key = row_key;
        let ghost before = current@;
        let ghost next = reduced@.take(k as int + 1);
        proof {
            assert(next.drop_last() =~= reduced@.take(k as int));
            assert(next.last() == (row_key, column_key, value));
        }
        let length = current.len();
        if length > 0 && current[length - 1].0 == column_key {
            let sum = ((current[length - 1].1 as u128 + value as u128) % (prime as u128)) as u64;
            proof {
                assert(before.last() == before[length - 1]);
                assert(row_value(before, column_key) == before[length - 1].1);
                vstd::arithmetic::div_mod::lemma_add_mod_noop(triple_sum(reduced@.take(k as int), row_key, column_key), value as int, p);
                vstd::arithmetic::div_mod::lemma_mod_twice(triple_sum(reduced@.take(k as int), row_key, column_key), p);
                vstd::arithmetic::div_mod::lemma_small_mod(value as nat, p as nat);
                assert(sum == triple_sum(next, row_key, column_key) % p);
            }
            if sum == 0 {
                current.pop();
                proof {
                    assert(current@ =~= before.drop_last());
                    assert forall|c: u64| #[trigger] row_value(current@, c) == triple_sum(next, row_key, c) % p by {
                        if c == column_key {
                            assert forall|q: int| 0 <= q < current@.len() implies (#[trigger] current@[q]).0 != c by {
                                assert(current@[q] == before[q]);
                                assert(before[q].0 < before[length - 1].0);
                            }
                            lemma_row_value_absent(current@, c);
                        } else {
                            assert(row_value(before, c) == row_value(before.drop_last(), c));
                            assert(triple_sum(next, row_key, c) == triple_sum(reduced@.take(k as int), row_key, c));
                        }
                    }
                }
            } else {
                current.set(length - 1, (column_key, sum));
                proof {
                    assert(current@.drop_last() =~= before.drop_last());
                    assert(current@.last() == (column_key, sum));
                    assert forall|c: u64| #[trigger] row_value(current@, c) == triple_sum(next, row_key, c) % p by {
                        if c != column_key {
                            assert(row_value(current@, c) == row_value(before.drop_last(), c));
                            assert(row_value(before, c) == row_value(before.drop_last(), c));
                            assert(triple_sum(next, row_key, c) == triple_sum(reduced@.take(k as int), row_key, c));
                        }
                    }
                }
            }
        } else {
            current.push((column_key, value));
            proof {
                assert(current@.drop_last() =~= before);
                assert(current@.last() == (column_key, value));
                if before.len() > 0 {
                    assert(k > 0);
                    assert(before.last() == before[length - 1]);
                    assert(before[length - 1].0 != column_key);
                    assert(before[length - 1].0 <= reduced@[k - 1].1);
                    assert(reduced@[k - 1].0 == row_key);
                    assert(reduced@[k - 1].1 <= column_key);
                }
                assert forall|q: int| 0 <= q < before.len() implies (#[trigger] before[q]).0 != column_key by {
                    if q < length - 1 {
                        assert(before[q].0 < before[length - 1].0);
                    }
                }
                lemma_row_value_absent(before, column_key);
                let S = triple_sum(reduced@.take(k as int), row_key, column_key);
                assert(S % p == 0);
                vstd::arithmetic::div_mod::lemma_add_mod_noop(S, value as int, p);
                vstd::arithmetic::div_mod::lemma_small_mod(value as nat, p as nat);
                vstd::arithmetic::div_mod::lemma_small_mod(0, p as nat);
                assert((S + value) % p == value);
                assert forall|c: u64| #[trigger] row_value(current@, c) == triple_sum(next, row_key, c) % p by {
                    if c == column_key {
                        assert(row_value(current@, c) == value);
                        assert(triple_sum(next, row_key, c) == S + value);
                    } else {
                        assert(row_value(current@, c) == row_value(before, c));
                        assert(triple_sum(next, row_key, c) == triple_sum(reduced@.take(k as int), row_key, c));
                    }
                }
            }
        }
        k = k + 1;
    }
    let ghost final_rows = rows@;
    let ghost final_current = current@;
    if current.len() > 0 {
        rows.push(current);
    }
    proof {
        assert(reduced@.take(k as int) =~= reduced@);
        assert forall|r: int| 0 <= r < rows@.len() implies #[trigger] matrix_row_of(rows@[r]@, entries@, prime) by {
            let l = if r < final_rows.len() {
                assert(rows@[r] == final_rows[r]);
                assert(triple_row_of(final_rows[r]@, reduced@, p));
                choose|l: u64| #[trigger] triple_row_is(final_rows[r]@, reduced@, l, p)
            } else {
                assert(rows@[r]@ == final_current);
                assert(triple_row_is(rows@[r]@, reduced@, current_key, p));
                current_key
            };
            assert(triple_row_is(rows@[r]@, reduced@, l, p));
            assert forall|c: u64| #[trigger] row_value(rows@[r]@, c) == matrix_entry(entries@, l, c) % p by {
                assert(row_value(rows@[r]@, c) == triple_sum(reduced@, l, c) % p);
            }
            assert(matrix_row_is(rows@[r]@, entries@, l, prime));
        }
        assert forall|l: u64| #[trigger] triple_row_collected(rows@, reduced@, l, p) by {
            if k > 0 && l < current_key {
                assert(triple_row_collected(final_rows, reduced@, l, p));
                lemma_collected_extend(final_rows, rows@, reduced@, l, p);
            } else if k > 0 && l == current_key {
                if final_current.len() > 0 {
                    let j = final_rows.len() as int;
                    assert(rows@[j]@ == final_current);
                    assert(triple_row_is(rows@[j]@, reduced@, l, p));
                } else {
                    assert forall|c: u64| #[trigger] triple_sum(reduced@, l, c) % p == 0 by {
                        assert(row_value(final_current, c) == 0);
                    }
                    assert(triple_row_zero(reduced@, l, p));
                }
            } else {
                assert forall|m: int| 0 <= m < reduced@.len() implies (#[trigger] reduced@[m]).0 != l by {
                    assert(reduced@[m].0 <= reduced@[k - 1].0);
                }
                assert forall|c: u64| #[trigger] triple_sum(reduced@, l, c) % p == 0 by {
                    lemma_triple_sum_other_rows(reduced@, l, c);
                    vstd::arithmetic::div_mod::lemma_small_mod(0, p as nat);
                }
                assert(triple_row_zero(reduced@, l, p));
            }
        }
        assert forall|l: u64| #[trigger] row_collected(rows@, entries@, l, prime) by {
            assert(triple_row_collected(rows@, reduced@, l, p));
            if triple_row_zero(reduced@, l, p) {
                assert forall|c: u64| #[trigger] matrix_entry(entries@, l, c) % p == 0 by {
                    assert(triple_sum(reduced@, l, c) % p == 0);
                }
                assert(matrix_row_zero(entries@, l, prime));
            } else {
                let j = choose|j: int| 0 <= j < rows@.len() && #[trigger] triple_row_is(rows@[j]@, reduced@, l, p);
                assert forall|c: u64| #[trigger] row_value(rows@[j]@, c) == matrix_entry(entries@, l, c) % p by {
                    assert(row_value(rows@[j]@, c) == triple_sum(reduced@, l, c) % p);
                }
                assert(matrix_row_is(rows@[j]@, entries@, l, prime));
            }
        }
    }
    rows
}


/// A copy of a sparse row.
fn copy_row(row: &Vec<(u64, u64)>) -> (copy: Vec<(u64, u64)>)
    ensures
        copy@ == row@,
{
    let mut copy: Vec<(u64, u64)> = Vec::new();
    let mut i: usize = 0;
    while i < row.len()
        invariant
            i <= row@.len(),
            copy@ == row@.take(i as int),
        decreases row@.len() - i,
    {
        copy.push(row[i]);
        proof {
            assert(row@.take(i as int + 1) =~= row@.take(i as int).push(row@[i as int]));
        }
        i = i + 1;
    }
    proof {
        assert(row@.take(row@.len() as int) =~= row@);
    }
    copy
}

/// Work and size counters of one sparse elimination.
#[derive(Clone, Copy, Debug, PartialEq, Eq)]
pub struct SparseFactorMetrics {
    pub rank: usize,
    pub peak_row_nnz: usize,
    pub left_factor_nnz: usize,
    pub right_factor_nnz: usize,
    pub reconstruction_products: u128,
}

/// A pivot row: it leads with a one in its pivot column.
pub open spec fn pivot_row(column: u64, row: Seq<(u64, u64)>, prime: u64) -> bool {
    &&& sparse_row(row, prime)
    &&& row.len() > 0
    &&& row[0] == (column, 1u64)
}

/// `sum_q coeffs[q] * basis[q][c]` over the first `coeffs.len()` rows of
/// `basis`.
pub open spec fn combination(basis: Seq<Seq<(u64, u64)>>, coeffs: Seq<int>, c: u64) -> int
    decreases coeffs.len(),
{
    if coeffs.len() == 0 {
        0
    } else {
        combination(basis, coeffs.drop_last(), c) + coeffs.last() * row_value(basis[coeffs.len() - 1], c)
    }
}

/// Modulo `p`, the row `row_at` is the combination of the rows of `basis`
/// with `coeffs`.
pub open spec fn combines(basis: Seq<Seq<(u64, u64)>>, row_at: spec_fn(u64) -> int, coeffs: Seq<int>, p: int) -> bool {
    &&& coeffs.len() <= basis.len()
    &&& forall|c: u64| #[trigger] row_at(c) % p == combination(basis, coeffs, c) % p
}

/// Modulo `p`, the row `row_at` is a combination of the rows of `basis`.
pub open spec fn spans(basis: Seq<Seq<(u64, u64)>>, row_at: spec_fn(u64) -> int, p: int) -> bool {
    exists|coeffs: Seq<int>| #[trigger] combines(basis, row_at, coeffs, p)
}

/// Modulo `p`, every row of the matrix `rows_of` is a combination of the
/// rows of `basis`.
pub open spec fn spans_all(basis: Seq<Seq<(u64, u64)>>, rows_of: spec_fn(u64) -> spec_fn(u64) -> int, p: int) -> bool {
    forall|l: u64| #[trigger] spans(basis, rows_of(l), p)
}

/// Over the field of `p` the matrix whose row `l` is `rows_of(l)` has rank at
/// most `k`: its rows all lie in the span of `k` rows.
pub open spec fn rank_at_most(rows_of: spec_fn(u64) -> spec_fn(u64) -> int, p: int, k: nat) -> bool {
    exists|basis: Seq<Seq<(u64, u64)>>| basis.len() == k && #[trigger] spans_all(basis, rows_of, p)
}

/// The matrix of `entries`, row by row.
pub open spec fn matrix_rows(entries: Seq<(u64, u64, u128)>) -> spec_fn(u64) -> spec_fn(u64) -> int {
    |l: u64| matrix_row(entries, l)
}

/// The value of a sparse row as a function of the column.
pub open spec fn row_at(row: Seq<(u64, u64)>) -> spec_fn(u64) -> int {
    |c: u64| row_value(row, c)
}

/// The views of a list of sparse rows.
pub open spec fn row_views(rows: Seq<Vec<(u64, u64)>>) -> Seq<Seq<(u64, u64)>> {
    rows.map_values(|r: Vec<(u64, u64)>| r@)
}

/// A combination only reads the rows its coefficients reach.
proof fn lemma_combination_prefix(a: Seq<Seq<(u64, u64)>>, b: Seq<Seq<(u64, u64)>>, coeffs: Seq<int>, c: u64)
    requires
        coeffs.len() <= a.len(),
        coeffs.len() <= b.len(),
        forall|q: int| 0 <= q < coeffs.len() ==> #[trigger] a[q] == b[q],
    ensures
        combination(a, coeffs, c) == combination(b, coeffs, c),
    decreases coeffs.len(),
{
    if coeffs.len() > 0 {
        lemma_combination_prefix(a, b, coeffs.drop_last(), c);
        assert(a[coeffs.len() - 1] == b[coeffs.len() - 1]);
    }
}

/// Raising one coefficient by `x` raises the combination by `x` times that
/// row.
proof fn lemma_combination_bump(basis: Seq<Seq<(u64, u64)>>, coeffs: Seq<int>, f: int, x: int, c: u64)
    requires
        0 <= f < coeffs.len(),
    ensures
        combination(basis, coeffs.update(f, coeffs[f] + x), c) == combination(basis, coeffs, c) + x * row_value(
            basis[f],
            c,
        ),
    decreases coeffs.len(),
{
    let bumped = coeffs.update(f, coeffs[f] + x);
    let v = row_value(basis[f], c);
    if f == coeffs.len() - 1 {
        assert(bumped.drop_last() =~= coeffs.drop_last());
        assert((coeffs[f] + x) * v == coeffs[f] * v + x * v) by (nonlinear_arith);
    } else {
        lemma_combination_bump(basis, coeffs.drop_last(), f, x, c);
        assert(bumped.drop_last() =~= coeffs.drop_last().update(f, coeffs[f] + x));
    }
}

/// Zero coefficients give the zero combination.
proof fn lemma_combination_zero(basis: Seq<Seq<(u64, u64)>>, k: nat, c: u64)
    ensures
        combination(basis, Seq::new(k, |q: int| 0int), c) == 0,
    decreases k,
{
    if k > 0 {
        lemma_combination_zero(basis, (k - 1) as nat, c);
        let z = Seq::new(k, |q: int| 0int);
        assert(z.drop_last() =~= Seq::new((k - 1) as nat, |q: int| 0int));
        assert(z.last() == z[k - 1]);
        assert(z.last() == 0);
        assert(z.last() * row_value(basis[k - 1], c) == 0);
    }
}

/// A sparse row's values lie in `[0, prime)`.
proof fn lemma_row_value_below(row: Seq<(u64, u64)>, prime: u64, c: u64)
    requires
        values_below(row, prime),
        prime > 0,
    ensures
        0 <= row_value(row, c) < prime,
    decreases row.len(),
{
    if row.len() > 0 {
        let d = row.drop_last();
        assert forall|i: int| 0 <= i < d.len() implies (#[trigger] d[i]).1 < prime by {
            assert(d[i] == row[i]);
        }
        lemma_row_value_below(d, prime, c);
        assert(row.last() == row[row.len() - 1]);
    }
}

/// Scaling every value of a row scales its value in every column.
proof fn lemma_scaled_value(row: Seq<(u64, u64)>, scaled: Seq<(u64, u64)>, scale: u64, p: int, c: u64)
    requires
        p > 0,
        scaled.len() == row.len(),
        forall|i: int| 0 <= i < row.len() ==> (#[trigger] scaled[i]).0 == row[i].0 && scaled[i].1 == (row[i].1
            * scale) % p,
    ensures
        row_value(scaled, c) == (row_value(row, c) * scale) % p,
    decreases row.len(),
{
    if row.len() > 0 {
        let r2 = row.drop_last();
        let s2 = scaled.drop_last();
        assert forall|i: int| 0 <= i < r2.len() implies (#[trigger] s2[i]).0 == r2[i].0 && s2[i].1 == (r2[i].1
            * scale) % p by {
            assert(s2[i] == scaled[i]);
            assert(r2[i] == row[i]);
        }
        lemma_scaled_value(r2, s2, scale, p, c);
        assert(scaled.last() == scaled[row.len() - 1]);
        assert(row.last() == row[row.len() - 1]);
    } else {
        assert(0 * scale == 0);
        vstd::arithmetic::div_mod::lemma_small_mod(0, p as nat);
    }
}

/// Subtracting `x` and adding it back leaves the class modulo `p`.
proof fn lemma_sub_add_mod(a: int, x: int, y: int, p: int)
    requires
        p > 0,
    ensures
        ((a - x) % p + (y + x)) % p == (a + y) % p,
{
    vstd::arithmetic::div_mod::lemma_add_mod_noop((a - x) % p, y + x, p);
    vstd::arithmetic::div_mod::lemma_mod_twice(a - x, p);
    vstd::arithmetic::div_mod::lemma_add_mod_noop(a - x, y + x, p);
    assert((a - x) + (y + x) == a + y);
}

/// A value below `p` scaled by the inverse of `s` and then by `s` is itself.
proof fn lemma_unscale(v: int, s: int, inv: int, p: int)
    requires
        p > 0,
        0 <= v < p,
        (s * inv) % p == 1,
    ensures
        (s * ((v * inv) % p)) % p == v,
{
    vstd::arithmetic::div_mod::lemma_mul_mod_noop_right(s, v * inv, p);
    assert(s * (v * inv) == v * (s * inv)) by (nonlinear_arith);
    vstd::arithmetic::div_mod::lemma_mul_mod_noop_right(v, s * inv, p);
    assert(v * 1 == v);
    vstd::arithmetic::div_mod::lemma_small_mod(v as nat, p as nat);
}

/// `sum_t coeffs[t] * rows_of(keys[t])(c)`: a combination of rows of the
/// matrix whose row `l` is `rows_of(l)`.
pub open spec fn row_space_value(
    rows_of: spec_fn(u64) -> spec_fn(u64) -> int,
    keys: Seq<u64>,
    coeffs: Seq<int>,
    c: u64,
) -> int
    decreases coeffs.len(),
{
    if coeffs.len() == 0 || keys.len() == 0 {
        0
    } else {
        row_space_value(rows_of, keys.drop_last(), coeffs.drop_last(), c) + coeffs.last() * rows_of(keys.last())(c)
    }
}

/// A matrix row is its own combination with coefficient one.
proof fn lemma_single_row_space(orig: Seq<(u64, u64)>, entries: Seq<(u64, u64, u128)>, key: u64, prime: u64)
    requires
        prime > 2,
        matrix_row_is(orig, entries, key, prime),
    ensures
        forall|c: u64| #[trigger] row_value(orig, c) % (prime as int) == row_space_value(
            matrix_rows(entries),
            seq![key],
            seq![1int],
            c,
        ) % (prime as int),
{
    let p = prime as int;
    let m = matrix_rows(entries);
    let rk = seq![key];
    let rc = seq![1int];
    assert forall|c: u64| #[trigger] row_value(orig, c) % p == row_space_value(m, rk, rc, c) % p by {
        assert(rk.drop_last().len() == 0);
        assert(rc.drop_last().len() == 0);
        assert(rc.last() == 1);
        assert(rk.last() == key);
        assert(row_space_value(m, rk.drop_last(), rc.drop_last(), c) == 0);
        assert(row_space_value(m, rk, rc, c) == row_space_value(m, rk.drop_last(), rc.drop_last(), c)
            + rc.last() * m(rk.last())(c));
        assert(m(key)(c) == matrix_entry(entries, key, c));
        assert(row_space_value(m, rk, rc, c) == matrix_entry(entries, key, c));
        assert(row_value(orig, c) == matrix_entry(entries, key, c) % p);
        vstd::arithmetic::div_mod::lemma_mod_twice(matrix_entry(entries, key, c), p);
    }
}

/// Modulo `p`, the sparse row `row` is the combination of the matrix rows
/// `keys` with `coeffs`.
pub open spec fn represents(
    rows_of: spec_fn(u64) -> spec_fn(u64) -> int,
    row: Seq<(u64, u64)>,
    keys: Seq<u64>,
    coeffs: Seq<int>,
    p: int,
) -> bool {
    &&& keys.len() == coeffs.len()
    &&& forall|c: u64| #[trigger] row_value(row, c) % p == row_space_value(rows_of, keys, coeffs, c) % p
}

/// Modulo `p`, the sparse row `row` lies in the row space of the matrix.
pub open spec fn in_row_space(rows_of: spec_fn(u64) -> spec_fn(u64) -> int, row: Seq<(u64, u64)>, p: int) -> bool {
    exists|keys: Seq<u64>, coeffs: Seq<int>| #[trigger] represents(rows_of, row, keys, coeffs, p)
}

/// The rows of `basis` are in echelon form: each leads with a one and has no
/// entry left of its leading column, and no two share a leading column. Such
/// rows are linearly independent over any field.
pub open spec fn echelon(basis: Seq<Seq<(u64, u64)>>) -> bool {
    &&& forall|q: int|
        0 <= q < basis.len() ==> (#[trigger] basis[q]).len() > 0 && basis[q][0].1 == 1 && cols_increasing(basis[q])
    &&& forall|q1: int, q2: int|
        0 <= q1 < basis.len() && 0 <= q2 < basis.len() && q1 != q2 ==> #[trigger] basis[q1][0].0
            != #[trigger] basis[q2][0].0
}

/// The rows of `basis` are in echelon form and lie in the row space of the
/// matrix.
pub open spec fn independent_rows_in(
    basis: Seq<Seq<(u64, u64)>>,
    rows_of: spec_fn(u64) -> spec_fn(u64) -> int,
    p: int,
) -> bool {
    &&& echelon(basis)
    &&& forall|q: int| 0 <= q < basis.len() ==> #[trigger] in_row_space(rows_of, basis[q], p)
}

/// Over the field of `p` the matrix has rank at least `k`: its row space
/// holds `k` rows in echelon form.
pub open spec fn rank_at_least(rows_of: spec_fn(u64) -> spec_fn(u64) -> int, p: int, k: nat) -> bool {
    exists|basis: Seq<Seq<(u64, u64)>>| basis.len() == k && #[trigger] independent_rows_in(basis, rows_of, p)
}

/// Concatenated combinations add.
proof fn lemma_row_space_concat(
    rows_of: spec_fn(u64) -> spec_fn(u64) -> int,
    k1: Seq<u64>,
    c1: Seq<int>,
    k2: Seq<u64>,
    c2: Seq<int>,
    c: u64,
)
    requires
        k1.len() == c1.len(),
        k2.len() == c2.len(),
    ensures
        row_space_value(rows_of, k1 + k2, c1 + c2, c) == row_space_value(rows_of, k1, c1, c) + row_space_value(
            rows_of,
            k2,
            c2,
            c,
        ),
    decreases k2.len(),
{
    if k2.len() == 0 {
        assert(k1 + k2 =~= k1);
        assert(c1 + c2 =~= c1);
    } else {
        lemma_row_space_concat(rows_of, k1, c1, k2.drop_last(), c2.drop_last(), c);
        assert((k1 + k2).drop_last() =~= k1 + k2.drop_last());
        assert((c1 + c2).drop_last() =~= c1 + c2.drop_last());
    }
}

/// The coefficients `coeffs`, each times `a`.
pub open spec fn scaled_coeffs(coeffs: Seq<int>, a: int) -> Seq<int> {
    Seq::new(coeffs.len(), |t: int| a * coeffs[t])
}

/// Scaling the coefficients scales the combination.
proof fn lemma_row_space_scale(
    rows_of: spec_fn(u64) -> spec_fn(u64) -> int,
    keys: Seq<u64>,
    coeffs: Seq<int>,
    a: int,
    c: u64,
)
    requires
        keys.len() == coeffs.len(),
    ensures
        row_space_value(rows_of, keys, scaled_coeffs(coeffs, a), c) == a * row_space_value(rows_of, keys, coeffs, c),
    decreases coeffs.len(),
{
    if coeffs.len() > 0 {
        lemma_row_space_scale(rows_of, keys.drop_last(), coeffs.drop_last(), a, c);
        assert(scaled_coeffs(coeffs, a).drop_last() =~= scaled_coeffs(coeffs.drop_last(), a));
        let r = row_space_value(rows_of, keys.drop_last(), coeffs.drop_last(), c);
        let x = coeffs.last();
        let v = rows_of(keys.last())(c);
        assert(a * r + (a * x) * v == a * (r + x * v)) by (nonlinear_arith);
    }
}

/// Every pivot row is tracked as a combination of matrix rows, and no two
/// pivots share a column.
pub open spec fn pivots_tracked(
    rows_of: spec_fn(u64) -> spec_fn(u64) -> int,
    pivot_rows: Seq<Vec<(u64, u64)>>,
    pivot_columns: Seq<u64>,
    keys: Seq<Seq<u64>>,
    coeffs: Seq<Seq<int>>,
    p: int,
) -> bool {
    &&& keys.len() == pivot_rows.len()
    &&& coeffs.len() == pivot_rows.len()
    &&& forall|q: int| 0 <= q < pivot_rows.len() ==> #[trigger] represents(rows_of, pivot_rows[q]@, keys[q], coeffs[q], p)
    &&& forall|q1: int, q2: int|
        0 <= q1 < pivot_columns.len() && 0 <= q2 < pivot_columns.len() && q1 != q2 ==> #[trigger] pivot_columns[q1]
            != #[trigger] pivot_columns[q2]
}

proof fn lemma_scaled_identity(p: int, qa: int, qx: int, qb: int, qy: int, r1: int, r2: int, f: int)
    by (nonlinear_arith)
    ensures
        (p * qa + r1) - f * (p * qb + r2) == p * ((qa - qx) - f * (qb - qy)) + ((p * qx + r1) + (-f) * (p
            * qy + r2)),
{
}

/// Congruences survive `a - f * b`.
proof fn lemma_sub_scaled_mod(a: int, b: int, x: int, y: int, f: int, p: int)
    requires
        p > 0,
        a % p == x % p,
        b % p == y % p,
    ensures
        ((a - f * b) % p) % p == (x + (-f) * y) % p,
{
    vstd::arithmetic::div_mod::lemma_fundamental_div_mod(a, p);
    vstd::arithmetic::div_mod::lemma_fundamental_div_mod(x, p);
    vstd::arithmetic::div_mod::lemma_fundamental_div_mod(b, p);
    vstd::arithmetic::div_mod::lemma_fundamental_div_mod(y, p);
    let qa = a / p;
    let qx = x / p;
    let qb = b / p;
    let qy = y / p;
    let r1 = a % p;
    let r2 = b % p;
    let m = (qa - qx) - f * (qb - qy);
    lemma_scaled_identity(p, qa, qx, qb, qy, r1, r2, f);
    assert(a == p * qa + r1);
    assert(x == p * qx + r1);
    assert(b == p * qb + r2);
    assert(y == p * qy + r2);
    assert(a - f * b == p * m + (x + (-f) * y));
    vstd::arithmetic::div_mod::lemma_mod_multiples_vanish(m, x + (-f) * y, p);
    vstd::arithmetic::div_mod::lemma_mod_twice(a - f * b, p);
}

/// Congruences survive scaling.
proof fn lemma_scale_mod(a: int, x: int, s: int, p: int)
    requires
        p > 0,
        a % p == x % p,
    ensures
        ((a * s) % p) % p == (s * x) % p,
{
    vstd::arithmetic::div_mod::lemma_fundamental_div_mod(a, p);
    vstd::arithmetic::div_mod::lemma_fundamental_div_mod(x, p);
    let m = (a / p - x / p) * s;
    assert(a * s == p * m + s * x) by (nonlinear_arith)
        requires
            a == p * (a / p) + a % p,
            x == p * (x / p) + x % p,
            a % p == x % p,
            m == (a / p - x / p) * s,
    ;
    vstd::arithmetic::div_mod::lemma_mod_multiples_vanish(m, s * x, p);
    vstd::arithmetic::div_mod::lemma_mod_twice(a * s, p);
}

/// The sparse factor of the matrix: eliminate its rows one by one against the
/// pivot rows found so far, over the field of `prime`.
pub fn sparse_factor_metrics(entries: &[(u64, u64, u128)], prime: u64) -> (metrics: Result<
    SparseFactorMetrics,
    String,
>)
    requires
        prime > 2,
    ensures
        metrics matches Ok(m) ==> m.rank <= entries@.len(),
        metrics matches Ok(m) ==> rank_at_most(matrix_rows(entries@), prime as int, m.rank as nat),
        metrics matches Ok(m) ==> rank_at_least(matrix_rows(entries@), prime as int, m.rank as nat),
{
    let mut rows = collect_rows(entries, prime);
    let ghost collected = rows@;
    sort_rows_by_len(&mut rows);
    proof {
        broadcast use vstd::seq_lib::to_multiset_contains;
        assert forall|r: int| 0 <= r < rows@.len() implies sparse_row((#[trigger] rows@[r])@, prime) by {
            assert(rows@.contains(rows@[r]));
            assert(rows@.to_multiset().count(rows@[r]) > 0);
            assert(collected.to_multiset().count(rows@[r]) > 0);
            assert(collected.contains(rows@[r]));
        }
        assert forall|r: int| 0 <= r < rows@.len() implies #[trigger] matrix_row_of(rows@[r]@, entries@, prime) by {
            assert(rows@.contains(rows@[r]));
            assert(rows@.to_multiset().count(rows@[r]) > 0);
            assert(collected.to_multiset().count(rows@[r]) > 0);
            assert(collected.contains(rows@[r]));
            let i = choose|i: int| 0 <= i < collected.len() && collected[i] == rows@[r];
            assert(matrix_row_of(collected[i]@, entries@, prime));
        }
        vstd::seq_lib::to_multiset_len(rows@);
        vstd::seq_lib::to_multiset_len(collected);
        assert(rows@.len() == collected.len());
    }
    let mut peak_row_nnz: usize = 0;
    let mut r: usize = 0;
    while r < rows.len()
        invariant
            r <= rows@.len(),
        decreases rows@.len() - r,
    {
        if rows[r].len() > peak_row_nnz {
            peak_row_nnz = rows[r].len();
        }
        r = r + 1;
    }
    let mut pivot_columns: Vec<u64> = Vec::new();
    let mut pivot_rows: Vec<Vec<(u64, u64)>> = Vec::new();
    let mut pivot_left_counts: Vec<usize> = Vec::new();
    let mut left_factor_nnz: usize = 0;
    let ghost p = prime as int;
    let ghost mut reps: Seq<Seq<int>> = Seq::empty();
    let ghost m = matrix_rows(entries@);
    let ghost mut pk: Seq<Seq<u64>> = Seq::empty();
    let ghost mut pc: Seq<Seq<int>> = Seq::empty();
    let mut index: usize = 0;
    while index < rows.len()
        invariant
            prime > 2,
            p == prime,
            m == matrix_rows(entries@),
            pivots_tracked(m, pivot_rows@, pivot_columns@, pk, pc, p),
            forall|q: int| 0 <= q < rows@.len() ==> #[trigger] matrix_row_of(rows@[q]@, entries@, prime),
            reps.len() == index,
            forall|i: int| 0 <= i < index ==> (#[trigger] reps[i]).len() <= pivot_rows@.len(),
            forall|i: int, c: u64|
                0 <= i < index ==> #[trigger] row_value(rows@[i]@, c) % p == combination(
                    row_views(pivot_rows@),
                    reps[i],
                    c,
                ) % p,
            index <= rows@.len(),
            rows@.len() <= entries@.len(),
            forall|q: int| 0 <= q < rows@.len() ==> sparse_row((#[trigger] rows@[q])@, prime),
            pivot_columns@.len() == pivot_rows@.len(),
            pivot_left_counts@.len() == pivot_rows@.len(),
            pivot_rows@.len() <= index,
            forall|q: int| 0 <= q < pivot_rows@.len() ==> pivot_row(
                pivot_columns@[q],
                (#[trigger] pivot_rows@[q])@,
                prime,
            ),
        decreases rows@.len() - index,
    {
        let mut row = copy_row(&rows[index]);
        let mut row_factor_nnz: usize = 0;
        let ghost orig = rows@[index as int]@;
        let ghost mut acc: Seq<int> = Seq::new(pivot_rows@.len(), |q: int| 0int);
        let ghost mut rk: Seq<u64> = Seq::empty();
        let ghost mut rc: Seq<int> = Seq::empty();
        proof {
            assert(matrix_row_of(orig, entries@, prime));
            let key = choose|l: u64| #[trigger] matrix_row_is(orig, entries@, l, prime);
            rk = seq![key];
            rc = seq![1int];
            lemma_single_row_space(orig, entries@, key, prime);
            assert(represents(m, row@, rk, rc, p));
            assert forall|c: u64| #[trigger] row_value(orig, c) % p == (row_value(row@, c) + combination(
                row_views(pivot_rows@),
                acc,
                c,
            )) % p by {
                lemma_combination_zero(row_views(pivot_rows@), pivot_rows@.len(), c);
            }
        }
        loop
            invariant_except_break
                pivot_rows@.len() <= index,
                forall|c: u64| #[trigger] row_value(orig, c) % p == (row_value(row@, c) + combination(
                    row_views(pivot_rows@),
                    acc,
                    c,
                )) % p,
                represents(m, row@, rk, rc, p),
            invariant
                prime > 2,
                p == prime,
                m == matrix_rows(entries@),
                pivots_tracked(m, pivot_rows@, pivot_columns@, pk, pc, p),
                forall|q: int| 0 <= q < rows@.len() ==> #[trigger] matrix_row_of(rows@[q]@, entries@, prime),
                orig == rows@[index as int]@,
                acc.len() == pivot_rows@.len(),
                reps.len() == index,
                forall|i: int| 0 <= i < index ==> (#[trigger] reps[i]).len() <= pivot_rows@.len(),
                forall|i: int, c: u64|
                    0 <= i < index ==> #[trigger] row_value(rows@[i]@, c) % p == combination(
                        row_views(pivot_rows@),
                        reps[i],
                        c,
                    ) % p,
                sparse_row(row@, prime),
                pivot_columns@.len() == pivot_rows@.len(),
                pivot_left_counts@.len() == pivot_rows@.len(),
                pivot_rows@.len() <= index + 1,
                index < rows@.len(),
                forall|q: int| 0 <= q < pivot_rows@.len() ==> pivot_row(
                    pivot_columns@[q],
                    (#[trigger] pivot_rows@[q])@,
                    prime,
                ),
            ensures
                pivot_columns@.len() == pivot_rows@.len(),
                pivot_left_counts@.len() == pivot_rows@.len(),
                pivot_rows@.len() <= index + 1,
                forall|c: u64| #[trigger] row_value(orig, c) % p == combination(row_views(pivot_rows@), acc, c) % p,
                forall|q: int| 0 <= q < pivot_rows@.len() ==> pivot_row(
                    pivot_columns@[q],
                    (#[trigger] pivot_rows@[q])@,
                    prime,
                ),
            decreases if row@.len() == 0 {
                0
            } else {
                0x1_0000_0000_0000_0000 - row@[0].0
            },
        {
            if row.len() == 0 {
                proof {
                    assert forall|c: u64| #[trigger] row_value(orig, c) % p == combination(
                        row_views(pivot_rows@),
                        acc,
                        c,
                    ) % p by {
                        assert(row_value(row@, c) == 0);
                    }
                }
                break;
            }
            let pivot_column = row[0].0;
            let mut found: Option<usize> = None;
            let mut q: usize = 0;
            while q < pivot_columns.len()
                invariant
                    q <= pivot_columns@.len(),
                    found matches Some(f) ==> f < pivot_columns@.len() && pivot_columns@[f as int]
                        == pivot_column,
                    found is None ==> forall|q2: int| 0 <= q2 < q ==> pivot_columns@[q2] != pivot_column,
                ensures
                    found matches Some(f) ==> f < pivot_columns@.len() && pivot_columns@[f as int] == pivot_column,
                    found is None ==> forall|q2: int| 0 <= q2 < pivot_columns@.len() ==> pivot_columns@[q2] != pivot_column,
                decreases pivot_columns@.len() - q,
            {
                if pivot_columns[q] == pivot_column {
                    found = Some(q);
                    break;
                }
                q = q + 1;
            }
            match found {
                Some(f) => {
                    let factor = row[0].1;
                    row_factor_nnz = match row_factor_nnz.checked_add(1) {
                        Some(v) => v,
                        None => {
                            return Err(message("sparse factor counter overflow"));
                        },
                    };
                    let count = pivot_left_counts[f];
                    let bumped = match count.checked_add(1) {
                        Some(v) => v,
                        None => {
                            return Err(message("sparse factor counter overflow"));
                        },
                    };
                    pivot_left_counts.set(f, bumped);
                    assert(pivot_row(pivot_columns@[f as int], pivot_rows@[f as int]@, prime));
                    let ghost old_row = row@;
                    let ghost old_acc = acc;
                    row = subtract_scaled(&row, &pivot_rows[f], factor, prime);
                    proof {
                        let fi = f as int;
                        assert(represents(m, pivot_rows@[fi]@, pk[fi], pc[fi], p));
                        let new_rk = rk + pk[fi];
                        let new_rc = rc + scaled_coeffs(pc[fi], -(factor as int));
                        assert forall|c: u64| #[trigger] row_value(row@, c) % p == row_space_value(m, new_rk, new_rc, c) % p by {
                            let a = row_value(old_row, c);
                            let b = row_value(pivot_rows@[fi]@, c);
                            let x = row_space_value(m, rk, rc, c);
                            let y = row_space_value(m, pk[fi], pc[fi], c);
                            assert(a % p == x % p);
                            assert(b % p == y % p);
                            lemma_sub_scaled_mod(a, b, x, y, factor as int, p);
                            lemma_row_space_scale(m, pk[fi], pc[fi], -(factor as int), c);
                            lemma_row_space_concat(m, rk, rc, pk[fi], scaled_coeffs(pc[fi], -(factor as int)), c);
                        }
                        rk = new_rk;
                        rc = new_rc;
                        assert(represents(m, row@, rk, rc, p));
                        acc = acc.update(f as int, acc[f as int] + factor);
                        assert forall|c: u64| #[trigger] row_value(orig, c) % p == (row_value(row@, c) + combination(
                            row_views(pivot_rows@),
                            acc,
                            c,
                        )) % p by {
                            let views = row_views(pivot_rows@);
                            lemma_combination_bump(views, old_acc, f as int, factor as int, c);
                            assert(views[f as int] == pivot_rows@[f as int]@);
                            let x = factor * row_value(pivot_rows@[f as int]@, c);
                            lemma_sub_add_mod(row_value(old_row, c), x, combination(views, old_acc, c), p);
                        }
                    }
                    if row.len() > peak_row_nnz {
                        peak_row_nnz = row.len();
                    }
                },
                None => {
                    let scale = row[0].1;
                    let inverse = mod_pow(scale, prime - 2, prime);
                    if mul_mod(scale, inverse, prime) != 1 {
                        return Err(message("sparse factor pivot has no field inverse"));
                    }
                    let normalized = scale_row(&row, inverse, prime);
                    if normalized.len() > peak_row_nnz {
                        peak_row_nnz = normalized.len();
                    }
                    proof {
                        assert(normalized@[0].1 == (scale * inverse) % (prime as int));
                        assert(normalized@[0] == (pivot_column, 1u64));
                        assert(cols_increasing(normalized@));
                    }
                    row_factor_nnz = match row_factor_nnz.checked_add(1) {
                        Some(v) => v,
                        None => {
                            return Err(message("sparse factor counter overflow"));
                        },
                    };
                    let ghost old_views = row_views(pivot_rows@);
                    let ghost old_acc = acc;
                    let ghost old_pivots = pivot_rows@;
                    let ghost old_columns = pivot_columns@;
                    pivot_columns.push(pivot_column);
                    pivot_rows.push(normalized);
                    pivot_left_counts.push(1);
                    proof {
                        let new_rc = scaled_coeffs(rc, inverse as int);
                        assert forall|c: u64| #[trigger] row_value(normalized@, c) % p == row_space_value(m, rk, new_rc, c) % p by {
                            lemma_scaled_value(row@, normalized@, inverse, p, c);
                            lemma_scale_mod(row_value(row@, c), row_space_value(m, rk, rc, c), inverse as int, p);
                            lemma_row_space_scale(m, rk, rc, inverse as int, c);
                        }
                        pk = pk.push(rk);
                        pc = pc.push(new_rc);
                        assert forall|q: int| 0 <= q < pivot_rows@.len() implies #[trigger] represents(
                            m,
                            pivot_rows@[q]@,
                            pk[q],
                            pc[q],
                            p,
                        ) by {
                            if q < old_pivots.len() {
                                assert(pivot_rows@[q] == old_pivots[q]);
                                assert(represents(m, old_pivots[q]@, pk[q], pc[q], p));
                            }
                        }
                        assert forall|q1: int, q2: int|
                            0 <= q1 < pivot_columns@.len() && 0 <= q2 < pivot_columns@.len() && q1 != q2 implies #[trigger] pivot_columns@[q1]
                                != #[trigger] pivot_columns@[q2] by {
                            if q1 < old_columns.len() && q2 < old_columns.len() {
                                assert(old_columns[q1] != old_columns[q2]);
                            } else if q1 < old_columns.len() {
                                assert(old_columns[q1] != pivot_column);
                            } else if q2 < old_columns.len() {
                                assert(old_columns[q2] != pivot_column);
                            }
                        }
                        assert(pivots_tracked(m, pivot_rows@, pivot_columns@, pk, pc, p));
                        acc = acc.push(scale as int);
                        let views = row_views(pivot_rows@);
                        assert(views =~= old_views.push(normalized@));
                        assert forall|c: u64| #[trigger] row_value(orig, c) % p == combination(views, acc, c) % p by {
                            lemma_combination_prefix(views, old_views, old_acc, c);
                            assert(acc.drop_last() =~= old_acc);
                            lemma_scaled_value(row@, normalized@, inverse, p, c);
                            lemma_row_value_below(row@, prime, c);
                            lemma_unscale(row_value(row@, c), scale as int, inverse as int, p);
                            let comb = combination(old_views, old_acc, c);
                            let v = row_value(row@, c);
                            let w = scale * row_value(normalized@, c);
                            assert(v == w % p);
                            vstd::arithmetic::div_mod::lemma_add_mod_noop_right(comb, w, p);
                            assert(v + comb == comb + w % p);
                        }
                        assert forall|i: int, c: u64|
                            0 <= i < index implies #[trigger] row_value(rows@[i]@, c) % p == combination(
                                views,
                                reps[i],
                                c,
                            ) % p by {
                            lemma_combination_prefix(views, old_views, reps[i], c);
                        }
                    }
                    break;
                },
            }
        }
        left_factor_nnz = match left_factor_nnz.checked_add(row_factor_nnz) {
            Some(v) => v,
            None => {
                return Err(message("sparse factor counter overflow"));
            },
        };
        proof {
            reps = reps.push(acc);
            assert forall|i: int, c: u64|
                0 <= i < index + 1 implies #[trigger] row_value(rows@[i]@, c) % p == combination(
                    row_views(pivot_rows@),
                    reps[i],
                    c,
                ) % p by {
                if i == index {
                    assert(reps[i] == acc);
                }
            }
        }
        index = index + 1;
    }
    let mut right_factor_nnz: usize = 0;
    let mut reconstruction_products: u128 = 0;
    let mut p: usize = 0;
    while p < pivot_rows.len()
        invariant
            p <= pivot_rows@.len(),
            pivot_left_counts@.len() == pivot_rows@.len(),
        decreases pivot_rows@.len() - p,
    {
        right_factor_nnz = match right_factor_nnz.checked_add(pivot_rows[p].len()) {
            Some(v) => v,
            None => {
                return Err(message("sparse factor counter overflow"));
            },
        };
        assert((pivot_left_counts@[p as int] as u128) * (pivot_rows@[p as int]@.len() as u128) <= u128::MAX)
            by (nonlinear_arith)
            requires
                pivot_left_counts@[p as int] < 0x1_0000_0000_0000_0000,
                pivot_rows@[p as int]@.len() < 0x1_0000_0000_0000_0000,
        ;
        let products = (pivot_left_counts[p] as u128) * (pivot_rows[p].len() as u128);
        reconstruction_products = match reconstruction_products.checked_add(products) {
            Some(v) => v,
            None => {
                return Err(message("sparse factor counter overflow"));
            },
        };
        p = p + 1;
    }
    proof {
        let basis = row_views(pivot_rows@);
        let q = prime as int;
        assert forall|l: u64| #[trigger] spans(basis, matrix_rows(entries@)(l), q) by {
            let f = matrix_rows(entries@)(l);
            assert(row_collected(collected, entries@, l, prime));
            if matrix_row_zero(entries@, l, prime) {
                let w = Seq::<int>::empty();
                assert forall|c: u64| #[trigger] f(c) % q == combination(basis, w, c) % q by {
                    assert(matrix_entry(entries@, l, c) % q == 0);
                    vstd::arithmetic::div_mod::lemma_small_mod(0, q as nat);
                }
                assert(combines(basis, f, w, q));
            } else {
                let i = choose|i: int| 0 <= i < collected.len() && #[trigger] matrix_row_is(collected[i]@, entries@, l, prime);
                assert(collected.contains(collected[i]));
                assert(collected.to_multiset().count(collected[i]) > 0) by {
                    broadcast use vstd::seq_lib::to_multiset_contains;
                }
                assert(rows@.to_multiset().count(collected[i]) > 0);
                assert(rows@.contains(collected[i])) by {
                    broadcast use vstd::seq_lib::to_multiset_contains;
                }
                let j = choose|j: int| 0 <= j < rows@.len() && rows@[j] == collected[i];
                let w = reps[j];
                assert forall|c: u64| #[trigger] f(c) % q == combination(basis, w, c) % q by {
                    assert(row_value(rows@[j]@, c) % q == combination(basis, w, c) % q);
                    assert(row_value(collected[i]@, c) == matrix_entry(entries@, l, c) % q);
                    vstd::arithmetic::div_mod::lemma_mod_twice(matrix_entry(entries@, l, c), q);
                }
                assert(combines(basis, f, w, q));
            }
        }
        assert(spans_all(basis, matrix_rows(entries@), q));
        assert forall|t: int| 0 <= t < basis.len() implies #[trigger] in_row_space(matrix_rows(entries@), basis[t], q) by {
            assert(represents(m, pivot_rows@[t]@, pk[t], pc[t], q));
        }
        assert forall|t: int| 0 <= t < basis.len() implies (#[trigger] basis[t]).len() > 0 && basis[t][0].1 == 1
            && cols_increasing(basis[t]) by {
            assert(pivot_row(pivot_columns@[t], pivot_rows@[t]@, prime));
        }
        assert forall|t1: int, t2: int| 0 <= t1 < basis.len() && 0 <= t2 < basis.len() && t1 != t2 implies #[trigger] basis[t1][0].0
            != #[trigger] basis[t2][0].0 by {
            assert(pivot_row(pivot_columns@[t1], pivot_rows@[t1]@, prime));
            assert(pivot_row(pivot_columns@[t2], pivot_rows@[t2]@, prime));
            assert(pivot_columns@[t1] != pivot_columns@[t2]);
        }
        assert(independent_rows_in(basis, matrix_rows(entries@), q));
    }
    Ok(
        SparseFactorMetrics {
            rank: pivot_rows.len(),
            peak_row_nnz,
            left_factor_nnz,
            right_factor_nnz,
            reconstruction_products,
        },
    )
}

/// The rank of the matrix over the field of `prime` and the largest row met
/// during its elimination.
pub fn sparse_rank(entries: &[(u64, u64, u128)], prime: u64) -> (ranked: Result<(usize, usize), String>)
    requires
        prime > 2,
    ensures
        ranked matches Ok((rank, _)) ==> rank <= entries@.len(),
{
    let metrics = sparse_factor_metrics(entries, prime)?;
    Ok((metrics.rank, metrics.peak_row_nnz))
}


/// Bit `j` of `x`.
pub open spec fn bit_of(x: u64, j: nat) -> u64 {
    (x >> (j as u64)) & 1
}

proof fn lemma_or_bit(x: u64, b: u64, k: u64, j: u64)
    by (bit_vector)
    requires
        b <= 1,
        k < 64,
        j < 64,
    ensures
        ((x | (b << k)) >> j) & 1 == if j == k {
            ((x >> j) & 1) | b
        } else {
            (x >> j) & 1
        },
{
}

proof fn lemma_bit_small(x: u64, j: u64)
    by (bit_vector)
    ensures
        (x >> j) & 1 <= 1,
        0u64 >> j & 1 == 0,
{
}

/// The signal of the frontier half at flattened position `j`: family `j / width`
/// (columns, down-right, down-left) at column `start + j % width`.
pub open spec fn flattened_bit(state: BoundaryState, start: nat, width: nat, j: nat) -> u64 {
    let family = j / width;
    let column = (start + j % width) as nat;
    if family == 0 {
        bit_of(state.columns, column)
    } else if family == 1 {
        bit_of(state.diag_dr, column)
    } else if family == 2 {
        bit_of(state.diag_dl, column)
    } else {
        0
    }
}

/// The first `m` flattened signals of a frontier half, bit `j` of the key
/// holding signal `j`.
pub open spec fn half_key(state: BoundaryState, start: nat, width: nat, m: nat) -> u64
    decreases m,
{
    if m == 0 {
        0
    } else {
        half_key(state, start, width, (m - 1) as nat) | (flattened_bit(state, start, width, (m - 1) as nat)
            << ((m - 1) as u64))
    }
}

/// The left and right keys of the spatial flattening of a frontier of a
/// board of side `n`: columns `[0, n / 2)` and `[n / 2, n)`.
pub open spec fn flatten_spec(state: BoundaryState, n: nat) -> (u64, u64) {
    (half_key(state, 0, n / 2, 3 * (n / 2)), half_key(state, n / 2, (n - n / 2) as nat, 3 * (n - n / 2) as nat))
}

/// The key of one spatial half of a frontier: the three signal families of
/// columns `[start, start + width)`, family after family.
fn flatten_half(state: BoundaryState, start: usize, width: usize) -> (key: u64)
    requires
        start + width <= 21,
    ensures
        forall|j: nat| j < 64 ==> #[trigger] bit_of(key, j) == if j < 3 * width {
            flattened_bit(state, start as nat, width as nat, j)
        } else {
            0
        },
        key == half_key(state, start as nat, width as nat, 3 * width as nat),
{
    let mut key: u64 = 0;
    let masks = [state.columns, state.diag_dr, state.diag_dl];
    let mut family: usize = 0;
    proof {
        assert forall|j: nat| j < 64 implies #[trigger] bit_of(key, j) == 0 by {
            lemma_bit_small(0, j as u64);
        }
    }
    while family < 3
        invariant
            start + width <= 21,
            family <= 3,
            masks@ == seq![state.columns, state.diag_dr, state.diag_dl],
            forall|j: nat| j < 64 ==> #[trigger] bit_of(key, j) == if j < family * width {
                flattened_bit(state, start as nat, width as nat, j)
            } else {
                0
            },
            key == half_key(state, start as nat, width as nat, (family * width) as nat),
        decreases 3 - family,
    {
        let mask = masks[family];
        let mut column: usize = 0;
        while column < width
            invariant
                start + width <= 21,
                family < 3,
                column <= width,
                mask == masks@[family as int],
                masks@ == seq![state.columns, state.diag_dr, state.diag_dl],
                forall|j: nat| j < 64 ==> #[trigger] bit_of(key, j) == if j < family * width + column {
                    flattened_bit(state, start as nat, width as nat, j)
                } else {
                    0
                },
                key == half_key(state, start as nat, width as nat, (family * width + column) as nat),
            decreases width - column,
        {
            assert(family * width + column < 63) by (nonlinear_arith)
                requires
                    family < 3,
                    column < width,
                    width <= 21,
            ;
            let position = family * width + column;
            let b = (mask >> ((start + column) as u64)) & 1;
            proof {
                lemma_bit_small(mask, (start + column) as u64);
                assert forall|j: nat| j < 64 implies #[trigger] bit_of(key | (b << (position as u64)), j) == if j
                    < family * width + column + 1 {
                    flattened_bit(state, start as nat, width as nat, j)
                } else {
                    0
                } by {
                    lemma_or_bit(key, b, position as u64, j as u64);
                    assert(bit_of(key, j) == if j < family * width + column {
                        flattened_bit(state, start as nat, width as nat, j)
                    } else {
                        0
                    });
                    if j == position {
                        assert(bit_of(key, j) == 0);
                        assert((0u64 | b) == b) by (bit_vector);
                        vstd::arithmetic::div_mod::lemma_fundamental_div_mod_converse_div(
                            j as int,
                            width as int,
                            family as int,
                            column as int,
                        );
                        vstd::arithmetic::div_mod::lemma_fundamental_div_mod_converse_mod(
                            j as int,
                            width as int,
                            family as int,
                            column as int,
                        );
                        assert(j / (width as nat) == family);
                        assert(j % (width as nat) == column);
                        assert(mask == if family == 0 {
                            state.columns
                        } else if family == 1 {
                            state.diag_dr
                        } else {
                            state.diag_dl
                        });
                        assert(b == bit_of(mask, (start + column) as nat));
                    }
                }
            }
            proof {
                vstd::arithmetic::div_mod::lemma_fundamental_div_mod_converse_div(
                    position as int,
                    width as int,
                    family as int,
                    column as int,
                );
                vstd::arithmetic::div_mod::lemma_fundamental_div_mod_converse_mod(
                    position as int,
                    width as int,
                    family as int,
                    column as int,
                );
                assert((position as nat) / (width as nat) == family);
                assert((position as nat) % (width as nat) == column);
                assert(mask == if family == 0 {
                    state.columns
                } else if family == 1 {
                    state.diag_dr
                } else {
                    state.diag_dl
                });
                assert(b == flattened_bit(state, start as nat, width as nat, position as nat));
                assert(half_key(state, start as nat, width as nat, (position + 1) as nat) == key | (b << (
                position as u64)));
            }
            key = key | (b << (position as u64));
            column = column + 1;
        }
        assert(family * width + width == (family + 1) * width) by (nonlinear_arith);
        family = family + 1;
    }
    key
}

/// The left and right spatial halves of a frontier of a board of side `n`:
/// columns `[0, n / 2)` and `[n / 2, n)`.
pub fn spatial_flatten_key(state: BoundaryState, n: usize) -> (keys: (u64, u64))
    requires
        1 <= n <= 21,
    ensures
        forall|j: nat| j < 64 ==> #[trigger] bit_of(keys.0, j) == if j < 3 * (n / 2) {
            flattened_bit(state, 0, (n / 2) as nat, j)
        } else {
            0
        },
        forall|j: nat| j < 64 ==> #[trigger] bit_of(keys.1, j) == if j < 3 * (n - n / 2) {
            flattened_bit(state, (n / 2) as nat, (n - n / 2) as nat, j)
        } else {
            0
        },
        keys == flatten_spec(state, n as nat),
{
    let left_width = n / 2;
    let right_width = n - left_width;
    (flatten_half(state, 0, left_width), flatten_half(state, left_width, right_width))
}


/// The flattening-rank diagnostic of the widest boundary of the contraction.
#[derive(Debug)]
pub struct RankDiagnosticResult {
    pub n: usize,
    pub selected_row: usize,
    pub support: usize,
    pub left_patterns: usize,
    pub right_patterns: usize,
    pub ranks: [usize; 2],
    pub peak_elimination_row_nnz: [usize; 2],
    pub left_factor_nnz: [usize; 2],
    pub right_factor_nnz: [usize; 2],
    pub reconstruction_products: [u128; 2],
    pub row_operator_candidates: u128,
    pub row_operator_matched: u128,
    pub elapsed: Duration,
    pub peak_rss_bytes: u64,
}

/// Sorts keys with `slice::sort_unstable`. Stated: the result is a reordering
/// of the input in non-decreasing order.
#[verifier::external_body]
fn sort_keys(keys: &mut Vec<u64>)
    ensures
        final(keys)@.to_multiset() == old(keys)@.to_multiset(),
        forall|i: int, j: int| 0 <= i <= j < final(keys)@.len() ==> final(keys)@[i] <= final(keys)@[j],
{
    keys.sort_unstable();
}

/// The number of distinct keys.
fn count_distinct(keys: Vec<u64>) -> (count: usize)
    ensures
        count <= keys@.len(),
        count == keys@.to_set().len(),
{
    let mut sorted = keys;
    sort_keys(&mut sorted);
    let mut count: usize = 0;
    let mut i: usize = 0;
    proof {
        assert(sorted@.take(0).to_set() =~= Set::<u64>::empty());
    }
    while i < sorted.len()
        invariant
            i <= sorted@.len(),
            count <= i,
            forall|a: int, b: int| 0 <= a <= b < sorted@.len() ==> sorted@[a] <= sorted@[b],
            count == sorted@.take(i as int).to_set().len(),
        decreases sorted@.len() - i,
    {
        let ghost before = sorted@.take(i as int);
        let ghost after = sorted@.take(i + 1);
        proof {
            assert(after =~= before.push(sorted@[i as int]));
            before.lemma_push_to_set_commute(sorted@[i as int]);
            assert(after.to_set() =~= before.to_set().insert(sorted@[i as int]));
            vstd::seq_lib::seq_to_set_is_finite(before);
            if i > 0 && sorted@[i as int] == sorted@[i - 1] {
                assert(before[i - 1] == sorted@[i as int]);
                assert(before.to_set().contains(sorted@[i as int]));
            }
            if i == 0 || sorted@[i as int] != sorted@[i - 1] {
                assert(!before.to_set().contains(sorted@[i as int])) by {
                    if before.to_set().contains(sorted@[i as int]) {
                        let j = choose|j: int| 0 <= j < before.len() && before[j] == sorted@[i as int];
                        assert(sorted@[j] <= sorted@[i - 1]);
                    }
                }
            }
        }
        if i == 0 || sorted[i] != sorted[i - 1] {
            count = count + 1;
        }
        i = i + 1;
    }
    proof {
        vstd::seq_lib::to_multiset_len(sorted@);
        vstd::seq_lib::to_multiset_len(keys@);
        assert(sorted@.take(i as int) =~= sorted@);
        assert forall|x: u64| #[trigger] sorted@.to_set().contains(x) == keys@.to_set().contains(x) by {
            vstd::seq_lib::to_multiset_contains(sorted@, x);
            vstd::seq_lib::to_multiset_contains(keys@, x);
        }
        assert(sorted@.to_set() =~= keys@.to_set());
    }
    count
}

/// A copy of a list of boundary terms.
fn copy_terms(terms: &Vec<(PackedBoundary, u128)>) -> (copy: Vec<(PackedBoundary, u128)>)
    ensures
        copy@ == terms@,
{
    let mut copy: Vec<(PackedBoundary, u128)> = Vec::new();
    let mut i: usize = 0;
    while i < terms.len()
        invariant
            i <= terms@.len(),
            copy@ == terms@.take(i as int),
        decreases terms@.len() - i,
    {
        copy.push(terms[i]);
        proof {
            assert(terms@.take(i as int + 1) =~= terms@.take(i as int).push(terms@[i as int]));
        }
        i = i + 1;
    }
    proof {
        assert(terms@.take(terms@.len() as int) =~= terms@);
    }
    copy
}

/// The frontiers whose spatial flattening is `(l, c)`.
pub open spec fn flat_class(n: nat, l: u64, c: u64) -> spec_fn(BoundaryState) -> nat {
    |s: BoundaryState| if flatten_spec(s, n) == (l, c) {
        1nat
    } else {
        0nat
    }
}

/// The flattening matrix of the layer of frontiers after `rows` rows, the
/// first row sliced by reflection orbits: entry `(l, c)` is the total weight
/// of the frontiers whose left half flattens to `l` and right half to `c`.
pub open spec fn layer_flattening(n: nat, rows: nat) -> spec_fn(u64) -> spec_fn(u64) -> int {
    |l: u64| |c: u64| rooted(n, rows, true, flat_class(n, l, c)) as int
}

/// A rank bound carries over to a matrix with the same entries.
proof fn lemma_rank_same_entries(
    a: spec_fn(u64) -> spec_fn(u64) -> int,
    b: spec_fn(u64) -> spec_fn(u64) -> int,
    p: int,
    k: nat,
)
    requires
        rank_at_most(a, p, k),
        forall|l: u64, c: u64| #[trigger] a(l)(c) == b(l)(c),
    ensures
        rank_at_most(b, p, k),
{
    let basis = choose|basis: Seq<Seq<(u64, u64)>>| basis.len() == k && #[trigger] spans_all(basis, a, p);
    assert forall|l: u64| #[trigger] spans(basis, b(l), p) by {
        assert(spans(basis, a(l), p));
        let coeffs = choose|coeffs: Seq<int>| #[trigger] combines(basis, a(l), coeffs, p);
        assert forall|c: u64| #[trigger] b(l)(c) % p == combination(basis, coeffs, c) % p by {
            assert(a(l)(c) == b(l)(c));
        }
        assert(combines(basis, b(l), coeffs, p));
    }
    assert(spans_all(basis, b, p));
}

/// Combinations of rows of matrices with the same entries agree.
proof fn lemma_row_space_same_entries(
    a: spec_fn(u64) -> spec_fn(u64) -> int,
    b: spec_fn(u64) -> spec_fn(u64) -> int,
    keys: Seq<u64>,
    coeffs: Seq<int>,
    c: u64,
)
    requires
        forall|l: u64, d: u64| #[trigger] a(l)(d) == b(l)(d),
    ensures
        row_space_value(a, keys, coeffs, c) == row_space_value(b, keys, coeffs, c),
    decreases coeffs.len(),
{
    if coeffs.len() > 0 && keys.len() > 0 {
        lemma_row_space_same_entries(a, b, keys.drop_last(), coeffs.drop_last(), c);
        assert(a(keys.last())(c) == b(keys.last())(c));
    }
}

/// A lower rank bound carries over to a matrix with the same entries.
proof fn lemma_rank_least_same_entries(
    a: spec_fn(u64) -> spec_fn(u64) -> int,
    b: spec_fn(u64) -> spec_fn(u64) -> int,
    p: int,
    k: nat,
)
    requires
        rank_at_least(a, p, k),
        forall|l: u64, c: u64| #[trigger] a(l)(c) == b(l)(c),
    ensures
        rank_at_least(b, p, k),
{
    let basis = choose|basis: Seq<Seq<(u64, u64)>>| basis.len() == k && #[trigger] independent_rows_in(basis, a, p);
    assert forall|q: int| 0 <= q < basis.len() implies #[trigger] in_row_space(b, basis[q], p) by {
        assert(in_row_space(a, basis[q], p));
        let (keys, coeffs) = choose|keys: Seq<u64>, coeffs: Seq<int>| #[trigger] represents(a, basis[q], keys, coeffs, p);
        assert forall|c: u64| #[trigger] row_value(basis[q], c) % p == row_space_value(b, keys, coeffs, c) % p by {
            lemma_row_space_same_entries(a, b, keys, coeffs, c);
        }
        assert(represents(b, basis[q], keys, coeffs, p));
    }
    assert(independent_rows_in(basis, b, p));
}

/// Contract the board of side `n` row by row, keep the boundary with the
/// largest support, flatten it into a matrix between its left and right
/// column halves, and compute that matrix's rank over both rank primes.
pub fn diagnose_peak_layer_rank(n: usize) -> (result: Result<RankDiagnosticResult, String>)
    ensures
        n == 0 || n > 21 ==> result is Err,
        result matches Ok(r) ==> {
            &&& r.n == n
            &&& r.selected_row <= n
            &&& 1 <= r.support
            &&& r.ranks[0] <= r.support
            &&& r.ranks[1] <= r.support
            &&& r.left_patterns <= r.support
            &&& r.right_patterns <= r.support
            &&& rank_at_most(layer_flattening(n as nat, r.selected_row as nat), 1_000_000_007, r.ranks[0] as nat)
            &&& rank_at_most(layer_flattening(n as nat, r.selected_row as nat), 1_000_000_009, r.ranks[1] as nat)
            &&& rank_at_least(layer_flattening(n as nat, r.selected_row as nat), 1_000_000_007, r.ranks[0] as nat)
            &&& rank_at_least(layer_flattening(n as nat, r.selected_row as nat), 1_000_000_009, r.ranks[1] as nat)
        },
{
    if n == 0 || n > 21 {
        return Err(message("rank diagnostic supports 1 <= N <= 21"));
    }
    let start = now();
    let operator = CompiledRowOperator::compile(&SiteTensorC::sec_vi())?;
    let initial = PackedBoundary::pack(BoundaryState { columns: 0, diag_dr: 0, diag_dl: 0 }, n);
    let mut boundary: Vec<(PackedBoundary, u128)> = vec![(initial, 1u128)];
    let mut selected_row: usize = 0;
    let mut selected = copy_terms(&boundary);
    let ghost nn = n as nat;
    proof {
        lemma_empty_fits(nn);
        lemma_pack_round_trip(empty_state(), nn);
        assert(selected@.len() == 1);
        assert(selected@.drop_last().len() == 0);
        assert forall|f: spec_fn(BoundaryState) -> nat| #[trigger] weighted_sum(selected@, key_paths(nn, 0, f))
            == rooted(nn, selected_row as nat, true, f) by {
            assert(selected@.last() == (initial, 1u128));
            assert(unpack_spec(initial.0, nn) == empty_state());
            assert(weighted_sum(selected@.drop_last(), key_paths(nn, 0, f)) == 0);
            assert(1 * f(empty_state()) == f(empty_state()));
        }
    }
    let mut total_candidates: u128 = 0;
    let mut total_matched: u128 = 0;
    let mut row: usize = 0;
    while row < n
        invariant
            1 <= n <= 21,
            row <= n,
            selected_row <= n,
            1 <= selected@.len(),
            row == 0 ==> boundary@ == seq![(PackedBoundary(pack_spec(empty_state(), n as nat)), 1u128)],
            total_candidates <= row * 0x1_0000_0000_0000_0000_0000,
            total_matched <= row * 0x1_0000_0000_0000_0000_0000,
            nn == n,
            row > 0 ==> forall|j: nat, f: spec_fn(BoundaryState) -> nat|
                #[trigger] weighted_sum(boundary@, key_paths(nn, j, f)) == rooted(nn, (row + j) as nat, true, f),
            forall|f: spec_fn(BoundaryState) -> nat| #[trigger] weighted_sum(selected@, key_paths(nn, 0, f)) == rooted(
                nn,
                selected_row as nat,
                true,
                f,
            ),
        decreases n - row,
    {
        let mut counters = RowCounters::new();
        let mut completed: u128 = 0;
        let mut candidates = expand_layer(
            n,
            row,
            true,
            PositionMode::Dense,
            &operator,
            &boundary,
            &mut counters,
            &mut completed,
        )?;
        let ghost expanded = candidates@;
        sort_by_packed_key(&mut candidates);
        let ghost sorted = candidates@;
        match reduce_sorted_candidates(&mut candidates, row) {
            Ok(()) => {},
            Err(_) => {
                return Err(message("rank diagnostic coefficient overflow"));
            },
        }
        proof {
            assert forall|j: nat, f: spec_fn(BoundaryState) -> nat| #[trigger] weighted_sum(
                candidates@,
                key_paths(nn, j, f),
            ) == rooted(nn, (row + 1 + j) as nat, true, f) by {
                lemma_weighted_sum_permutation(expanded, sorted, key_paths(nn, j, f));
                assert(weighted_sum(candidates@, key_paths(nn, j, f)) == weighted_sum(sorted, key_paths(nn, j, f)));
                if row > 0 {
                    assert(weighted_sum(boundary@, key_paths(nn, j + 1, f)) == rooted(
                        nn,
                        (row + (j + 1)) as nat,
                        true,
                        f,
                    ));
                }
            }
        }
        let parents = boundary.len();
        proof {
            assert(parents <= 0xffff_ffff_ffff_ffff);
            assert(parents * 64 <= 0x1_0000_0000_0000_0000_0000) by (nonlinear_arith)
                requires parents <= 0xffff_ffff_ffff_ffff;
        }
        boundary = candidates;
        total_candidates = total_candidates + counters.operator_candidates;
        total_matched = total_matched + counters.operator_matched;
        if boundary.len() > selected.len() {
            selected_row = row + 1;
            selected = copy_terms(&boundary);
        }
        assert((row + 1) * 0x1_0000_0000_0000_0000_0000 == row * 0x1_0000_0000_0000_0000_0000
            + 0x1_0000_0000_0000_0000_0000) by (nonlinear_arith);
        row = row + 1;
    }
    let mut entries: Vec<(u64, u64, u128)> = Vec::new();
    let mut lefts: Vec<u64> = Vec::new();
    let mut rights: Vec<u64> = Vec::new();
    let mut i: usize = 0;
    while i < selected.len()
        invariant
            1 <= n <= 21,
            nn == n,
            i <= selected@.len(),
            entries@.len() == i,
            lefts@.len() == i,
            rights@.len() == i,
            forall|l: u64, c: u64| #[trigger] matrix_entry(entries@, l, c) == weighted_sum(
                selected@.take(i as int),
                key_paths(nn, 0, flat_class(nn, l, c)),
            ),
        decreases selected@.len() - i,
    {
        let (packed, coefficient) = selected[i];
        let (left, right) = spatial_flatten_key(packed.unpack(n), n);
        let ghost before = entries@;
        entries.push((left, right, coefficient));
        proof {
            assert(entries@.drop_last() =~= before);
            assert(entries@.last() == (left, right, coefficient));
            assert forall|l: u64, c: u64| #[trigger] matrix_entry(entries@, l, c) == weighted_sum(
                selected@.take(i as int + 1),
                key_paths(nn, 0, flat_class(nn, l, c)),
            ) by {
                let g = key_paths(nn, 0, flat_class(nn, l, c));
                lemma_weighted_sum_take_step(selected@, i as int, g);
                assert(selected@[i as int] == (packed, coefficient));
                assert(matrix_entry(before, l, c) == weighted_sum(selected@.take(i as int), g));
                assert((left, right) == flatten_spec(unpack_spec(packed.0, nn), nn));
                assert(g(packed.0) == flat_class(nn, l, c)(unpack_spec(packed.0, nn)));
                if left == l && right == c {
                    assert(g(packed.0) == 1);
                    assert((coefficient as nat) * 1 == coefficient);
                } else {
                    assert(g(packed.0) == 0);
                    assert((coefficient as nat) * 0 == 0);
                }
            }
        }
        lefts.push(left);
        rights.push(right);
        i = i + 1;
    }
    proof {
        assert(selected@.take(i as int) =~= selected@);
        assert forall|l: u64, c: u64| #[trigger] matrix_rows(entries@)(l)(c) == layer_flattening(
            nn,
            selected_row as nat,
        )(l)(c) by {
            assert(weighted_sum(selected@, key_paths(nn, 0, flat_class(nn, l, c))) == rooted(
                nn,
                selected_row as nat,
                true,
                flat_class(nn, l, c),
            ));
        }
    }
    let left_patterns = count_distinct(lefts);
    let right_patterns = count_distinct(rights);
    let first = sparse_factor_metrics(entries.as_slice(), RANK_PRIMES[0])?;
    let second = sparse_factor_metrics(entries.as_slice(), RANK_PRIMES[1])?;
    proof {
        assert(RANK_PRIMES[0] == 1_000_000_007);
        assert(RANK_PRIMES[1] == 1_000_000_009);
        lemma_rank_same_entries(matrix_rows(entries@), layer_flattening(nn, selected_row as nat), 1_000_000_007, first.rank as nat);
        lemma_rank_same_entries(matrix_rows(entries@), layer_flattening(nn, selected_row as nat), 1_000_000_009, second.rank as nat);
        lemma_rank_least_same_entries(matrix_rows(entries@), layer_flattening(nn, selected_row as nat), 1_000_000_007, first.rank as nat);
        lemma_rank_least_same_entries(matrix_rows(entries@), layer_flattening(nn, selected_row as nat), 1_000_000_009, second.rank as nat);
    }
    Ok(
        RankDiagnosticResult {
            n,
            selected_row,
            support: selected.len(),
            left_patterns,
            right_patterns,
            ranks: [first.rank, second.rank],
            peak_elimination_row_nnz: [first.peak_row_nnz, second.peak_row_nnz],
            left_factor_nnz: [first.left_factor_nnz, second.left_factor_nnz],
            right_factor_nnz: [first.right_factor_nnz, second.right_factor_nnz],
            reconstruction_products: [first.reconstruction_products, second.reconstruction_products],
            row_operator_candidates: total_candidates,
            row_operator_matched: total_matched,
            elapsed: elapsed(&start),
            peak_rss_bytes: peak_rss_bytes(),
        },
    )
}

} // verus!
