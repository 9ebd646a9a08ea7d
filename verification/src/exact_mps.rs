//! Experimental streaming exact finite-field MPS contraction.
//!
//! The row MPO is generated directly from the explicit 17-entry `C`. No
//! production step materializes the full `8^N` boundary coefficient vector.
use vstd::prelude::*;

use crate::rank_diagnostic::mod_pow;
use crate::tensor::{SiteTensorC, sec_vi_c};
use crate::util::{elapsed, message, now, peak_rss_bytes, zero_duration};
use std::time::Duration;
use vstd::arithmetic::div_mod::{
    lemma_add_mod_noop, lemma_add_mod_noop_right, lemma_fundamental_div_mod, lemma_mod_multiples_vanish,
    lemma_mul_mod_noop_left, lemma_mul_mod_noop_right, lemma_small_mod,
};

verus! {

/// The prime field of the contraction.
pub const FIELD_PRIME: u64 = 1_000_000_007;

/// `a + b` in the field.
pub fn add(a: u64, b: u64) -> (sum: u64)
    requires
        a < FIELD_PRIME,
        b < FIELD_PRIME,
    ensures
        sum == (a + b) % (FIELD_PRIME as int),
        sum < FIELD_PRIME,
{
    let sum = a + b;
    if sum >= FIELD_PRIME {
        proof {
            lemma_mod_multiples_vanish(1, sum - FIELD_PRIME, FIELD_PRIME as int);
            lemma_small_mod((sum - FIELD_PRIME) as nat, FIELD_PRIME as nat);
        }
        sum - FIELD_PRIME
    } else {
        proof {
            lemma_small_mod(sum as nat, FIELD_PRIME as nat);
        }
        sum
    }
}

/// `a - b` in the field.
pub fn sub(a: u64, b: u64) -> (difference: u64)
    requires
        a < FIELD_PRIME,
        b < FIELD_PRIME,
    ensures
        difference == (a - b) % (FIELD_PRIME as int),
        difference < FIELD_PRIME,
{
    if a >= b {
        proof {
            lemma_small_mod((a - b) as nat, FIELD_PRIME as nat);
        }
        a - b
    } else {
        proof {
            lemma_mod_multiples_vanish(-1, a + FIELD_PRIME - b, FIELD_PRIME as int);
            lemma_small_mod((a + FIELD_PRIME - b) as nat, FIELD_PRIME as nat);
        }
        a + FIELD_PRIME - b
    }
}

/// `a * b` in the field.
pub fn mul(a: u64, b: u64) -> (product: u64)
    ensures
        product == (a * b) % (FIELD_PRIME as int),
        product < FIELD_PRIME,
{
    assert((a as u128) * (b as u128) <= u128::MAX) by (nonlinear_arith)
        requires
            a < 0x1_0000_0000_0000_0000,
            b < 0x1_0000_0000_0000_0000,
    ;
    (((a as u128) * (b as u128)) % (FIELD_PRIME as u128)) as u64
}

/// `base^exponent` in the field.
pub fn pow(base: u64, exponent: u64) -> (power: u64)
    ensures
        power == vstd::arithmetic::power::pow(base as int, exponent as nat) % (FIELD_PRIME as int),
{
    mod_pow(base, exponent, FIELD_PRIME)
}

/// The inverse of a non-zero element by Fermat's little theorem:
/// `value^(p - 2)`.
pub fn inverse(value: u64) -> (inverted: u64)
    requires
        value != 0,
    ensures
        inverted == vstd::arithmetic::power::pow(value as int, (FIELD_PRIME - 2) as nat) % (FIELD_PRIME as int),
{
    self::pow(value, FIELD_PRIME - 2)
}


/// Every value of `values` is a field element.
pub open spec fn field_values(values: Seq<u64>) -> bool {
    forall|i: int| 0 <= i < values.len() ==> (#[trigger] values[i]) < FIELD_PRIME
}

/// `sum_{k < count} left[row * rank + k] * right[k * columns + column]`: entry
/// `(row, column)` of the product of a `rows x rank` and a `rank x columns`
/// row-major matrix, before reduction.
pub open spec fn product_sum(
    left: Seq<u64>,
    right: Seq<u64>,
    rank: int,
    columns: int,
    row: int,
    column: int,
    count: int,
) -> int
    decreases count,
{
    if count <= 0 {
        0
    } else {
        product_sum(left, right, rank, columns, row, column, count - 1) + left[row * rank + count - 1]
            * right[(count - 1) * columns + column]
    }
}

/// `left * right` reconstructs the `rows x columns` row-major `matrix` over the
/// field.
pub open spec fn reconstructs(
    matrix: Seq<u64>,
    left: Seq<u64>,
    right: Seq<u64>,
    rows: int,
    columns: int,
    rank: int,
) -> bool {
    forall|row: int, column: int|
        0 <= row < rows && 0 <= column < columns ==> #[trigger] product_sum(
            left,
            right,
            rank,
            columns,
            row,
            column,
            rank,
        ) % (FIELD_PRIME as int) == matrix[row * columns + column]
}

/// `sum_{k < count} coefficients[k] * basis[k][row]`.
pub open spec fn combination(basis: Seq<Vec<u64>>, coefficients: Seq<u64>, row: int, count: int) -> int
    decreases count,
{
    if count <= 0 {
        0
    } else {
        combination(basis, coefficients, row, count - 1) + coefficients[count - 1] * basis[count - 1]@[row]
    }
}

/// One elimination step against a basis vector keeps the residual plus the
/// combination congruent to the column.
proof fn lemma_eliminate_step(residual: int, factor: int, entry: int, combined: int)
    requires
        0 <= residual < FIELD_PRIME,
        0 <= factor < FIELD_PRIME,
        0 <= entry < FIELD_PRIME,
    ensures
        (((residual - (factor * entry) % (FIELD_PRIME as int)) % (FIELD_PRIME as int)) + combined + factor
            * entry) % (FIELD_PRIME as int) == (residual + combined) % (FIELD_PRIME as int),
{
    let p = FIELD_PRIME as int;
    let m = (factor * entry) % p;
    lemma_fundamental_div_mod(factor * entry, p);
    let q = (factor * entry) / p;
    assert(factor * entry == p * q + m);
    let d = (residual - m) % p;
    lemma_fundamental_div_mod(residual - m, p);
    let t = (residual - m) / p;
    assert(residual - m == p * t + d);
    assert(d + combined + factor * entry == p * (q - t) + (residual + combined)) by (nonlinear_arith)
        requires
            factor * entry == p * q + m,
            residual - m == p * t + d,
    ;
    lemma_mod_multiples_vanish(q - t, residual + combined, p);
}

/// A new basis vector, the residual scaled by the inverse of its pivot value,
/// times that pivot value gives the residual back.
proof fn lemma_new_basis(residual: int, scale: int, inverted: int, combined: int)
    requires
        0 <= residual < FIELD_PRIME,
        0 <= scale,
        0 <= inverted,
        (scale * inverted) % (FIELD_PRIME as int) == 1,
    ensures
        (combined + scale * ((residual * inverted) % (FIELD_PRIME as int))) % (FIELD_PRIME as int) == (
        combined + residual) % (FIELD_PRIME as int),
{
    let p = FIELD_PRIME as int;
    lemma_mul_mod_noop_right(scale, residual * inverted, p);
    assert(scale * (residual * inverted) == residual * (scale * inverted)) by (nonlinear_arith);
    lemma_mul_mod_noop_right(residual, scale * inverted, p);
    assert(residual * 1 == residual);
    lemma_small_mod(residual as nat, p as nat);
    assert((scale * ((residual * inverted) % p)) % p == residual);
    lemma_add_mod_noop_right(combined, scale * ((residual * inverted) % p), p);
    lemma_add_mod_noop_right(combined, residual, p);
}

/// Return `matrix = left * right` using a deterministic exact column basis.
/// Fermat's little theorem for the field: `x^(p-2)` is an inverse of every
/// nonzero `x` modulo `FIELD_PRIME`.
pub open spec fn field_inverses_hold() -> bool {
    forall|x: int|
        1 <= x < FIELD_PRIME ==> #[trigger] ((x * (vstd::arithmetic::power::pow(x, (FIELD_PRIME - 2) as nat) % (
        FIELD_PRIME as int))) % (FIELD_PRIME as int)) == 1
}

pub fn rank_factor(matrix: &[u64], rows: usize, columns: usize) -> (factored: Result<
    (Vec<u64>, Vec<u64>, usize),
    String,
>)
    requires
        field_values(matrix@),
    ensures
        matrix@.len() != rows * columns ==> factored is Err,
        matrix@.len() == rows * columns && field_inverses_hold() ==> factored is Ok,
        factored matches Ok((_, _, rank)) ==> rank <= columns || rank == 1,
        factored matches Ok((left, right, rank)) ==> {
            &&& 1 <= rank
            &&& left@.len() == rows * rank
            &&& right@.len() == rank * columns
            &&& reconstructs(matrix@, left@, right@, rows as int, columns as int, rank as int)
            &&& field_values(left@)
            &&& field_values(right@)
        },
{
    let total = matrix.len();
    assert((rows as u128) * (columns as u128) <= u128::MAX) by (nonlinear_arith)
        requires
            rows < 0x1_0000_0000_0000_0000,
            columns < 0x1_0000_0000_0000_0000,
    ;
    if total as u128 != rows as u128 * columns as u128 {
        return Err(message("rank-factor matrix shape mismatch"));
    }
    let mut basis: Vec<Vec<u64>> = Vec::new();
    let mut pivots: Vec<usize> = Vec::new();
    let mut coefficients_by_column: Vec<Vec<u64>> = Vec::new();
    let mut column: usize = 0;
    while column < columns
        invariant
            field_values(matrix@),
            matrix@.len() == rows * columns,
            total == matrix@.len(),
            column <= columns,
            pivots@.len() == basis@.len(),
            basis@.len() <= column,
            coefficients_by_column@.len() == column,
            forall|k: int| 0 <= k < basis@.len() ==> (#[trigger] basis@[k])@.len() == rows && field_values(
                basis@[k]@,
            ),
            forall|k: int| 0 <= k < pivots@.len() ==> (#[trigger] pivots@[k]) < rows,
            forall|c: int| 0 <= c < column ==> (#[trigger] coefficients_by_column@[c])@.len() <= basis@.len()
                && field_values(coefficients_by_column@[c]@),
            forall|c: int, r: int|
                0 <= c < column && 0 <= r < rows ==> #[trigger] combination(
                    basis@,
                    coefficients_by_column@[c]@,
                    r,
                    coefficients_by_column@[c]@.len() as int,
                ) % (FIELD_PRIME as int) == matrix@[r * columns + c],
        decreases columns - column,
    {
        let mut residual: Vec<u64> = Vec::new();
        let mut r: usize = 0;
        while r < rows
            invariant
                field_values(matrix@),
                matrix@.len() == rows * columns,
                total == matrix@.len(),
                column < columns,
                r <= rows,
                residual@.len() == r,
                forall|q: int| 0 <= q < r ==> #[trigger] residual@[q] == matrix@[q * columns + column],
            decreases rows - r,
        {
            proof {
                assert(r * columns + column < rows * columns) by (nonlinear_arith)
                    requires r < rows, column < columns;
            }
            residual.push(matrix[r * columns + column]);
            r = r + 1;
        }
        proof {
            assert forall|q: int| 0 <= q < rows implies (#[trigger] residual@[q] + combination(
                basis@,
                Seq::<u64>::empty(),
                q,
                0,
            )) % (FIELD_PRIME as int) == matrix@[q * columns + column] by {
                assert(0 <= q * columns + column < rows * columns) by (nonlinear_arith)
                    requires 0 <= q < rows, column < columns;
                lemma_small_mod(residual@[q] as nat, FIELD_PRIME as nat);
            }
            assert forall|q: int| 0 <= q < residual@.len() implies (#[trigger] residual@[q]) < FIELD_PRIME by {
                assert(0 <= q * columns + column < rows * columns) by (nonlinear_arith)
                    requires 0 <= q < rows, column < columns;
            }
        }
        let mut coefficients: Vec<u64> = Vec::new();
        assert(coefficients@ =~= Seq::<u64>::empty());
        let mut k: usize = 0;
        while k < basis.len()
            invariant
                field_values(matrix@),
                matrix@.len() == rows * columns,
                column < columns,
                k <= basis@.len(),
                pivots@.len() == basis@.len(),
                residual@.len() == rows,
                coefficients@.len() == k,
                field_values(residual@),
                field_values(coefficients@),
                forall|b: int| 0 <= b < basis@.len() ==> (#[trigger] basis@[b])@.len() == rows && field_values(
                    basis@[b]@,
                ),
                forall|b: int| 0 <= b < pivots@.len() ==> (#[trigger] pivots@[b]) < rows,
                forall|q: int|
                    0 <= q < rows ==> (#[trigger] residual@[q] + combination(basis@, coefficients@, q, k as int))
                        % (FIELD_PRIME as int) == matrix@[q * columns + column],
            decreases basis@.len() - k,
        {
            let factor = residual[pivots[k]];
            let ghost old_coefficients = coefficients@;
            coefficients.push(factor);
            proof {
                assert forall|x: int| 0 <= x < rows implies #[trigger] combination(basis@, coefficients@, x, k + 1)
                    == combination(basis@, old_coefficients, x, k as int) + factor * basis@[k as int]@[x] by {
                    lemma_combination_coefficients_extend(basis@, old_coefficients, coefficients@, x, k as int);
                    lemma_combination_prefix(basis@, coefficients@, x, k as int);
                }
            }
            if factor != 0 {
                let ghost before = residual@;
                let mut q: usize = 0;
                while q < rows
                    invariant
                        k < basis@.len(),
                        q <= rows,
                        residual@.len() == rows,
                        basis@[k as int]@.len() == rows,
                        field_values(basis@[k as int]@),
                        field_values(before),
                        before.len() == rows,
                        factor < FIELD_PRIME,
                        forall|x: int| q <= x < rows ==> #[trigger] residual@[x] == before[x],
                        forall|x: int|
                            0 <= x < q ==> #[trigger] residual@[x] == (before[x] - (factor
                                * basis@[k as int]@[x]) % (FIELD_PRIME as int)) % (FIELD_PRIME as int),
                    decreases rows - q,
                {
                    let value = self::sub(residual[q], self::mul(factor, basis[k][q]));
                    residual.set(q, value);
                    q = q + 1;
                }
                proof {
                    assert forall|x: int| 0 <= x < rows implies (#[trigger] residual@[x] + combination(
                        basis@,
                        coefficients@,
                        x,
                        k + 1,
                    )) % (FIELD_PRIME as int) == matrix@[x * columns + column] by {
                        assert(coefficients@.take(k as int) =~= coefficients@.take(k as int));
                        lemma_combination_prefix(basis@, coefficients@, x, k as int);
                        lemma_eliminate_step(
                            before[x] as int,
                            factor as int,
                            basis@[k as int]@[x] as int,
                            combination(basis@, coefficients@, x, k as int),
                        );
                    }
                }
            } else {
                proof {
                    assert forall|x: int| 0 <= x < rows implies (#[trigger] residual@[x] + combination(
                        basis@,
                        coefficients@,
                        x,
                        k + 1,
                    )) % (FIELD_PRIME as int) == matrix@[x * columns + column] by {
                        assert(combination(basis@, coefficients@, x, k + 1) == combination(basis@, old_coefficients, x, k as int) + factor * basis@[k as int]@[x]);
                        assert(factor * basis@[k as int]@[x] == 0);
                    }
                }
            }
            k = k + 1;
        }
        let mut pivot: usize = 0;
        while pivot < rows && residual[pivot] == 0
            invariant
                pivot <= rows,
                residual@.len() == rows,
                forall|x: int| 0 <= x < pivot ==> #[trigger] residual@[x] == 0,
            decreases rows - pivot,
        {
            pivot = pivot + 1;
        }
        if pivot < rows {
            let scale = residual[pivot];
            let scale_inverse = self::inverse(scale);
            proof {
                if field_inverses_hold() {
                    assert(((scale as int) * (vstd::arithmetic::power::pow(scale as int, (FIELD_PRIME - 2) as nat) % (
                    FIELD_PRIME as int))) % (FIELD_PRIME as int) == 1);
                }
            }
            if self::mul(scale, scale_inverse) != 1 {
                return Err(message("rank-factor pivot has no field inverse"));
            }
            let mut normalized: Vec<u64> = Vec::new();
            let mut q: usize = 0;
            while q < rows
                invariant
                    q <= rows,
                    residual@.len() == rows,
                    normalized@.len() == q,
                    forall|x: int| 0 <= x < q ==> #[trigger] normalized@[x] == (residual@[x]
                        * scale_inverse) % (FIELD_PRIME as int),
                decreases rows - q,
            {
                normalized.push(self::mul(residual[q], scale_inverse));
                q = q + 1;
            }
            let ghost old_basis = basis@;
            let ghost old_coefficients = coefficients@;
            basis.push(normalized);
            pivots.push(pivot);
            coefficients.push(scale);
            proof {
                assert forall|x: int| 0 <= x < rows implies #[trigger] combination(
                    basis@,
                    coefficients@,
                    x,
                    coefficients@.len() as int,
                ) % (FIELD_PRIME as int) == matrix@[x * columns + column] by {
                    lemma_combination_extend(old_basis, basis@, old_coefficients, coefficients@, x, k as int);
                    lemma_new_basis(
                        residual@[x] as int,
                        scale as int,
                        scale_inverse as int,
                        combination(old_basis, old_coefficients, x, k as int),
                    );
                    lemma_add_mod_noop_right(0, residual@[x] as int + combination(old_basis, old_coefficients, x, k as int), FIELD_PRIME as int);
                }
                assert forall|c: int, x: int|
                    0 <= c < column && 0 <= x < rows implies #[trigger] combination(
                        basis@,
                        coefficients_by_column@[c]@,
                        x,
                        coefficients_by_column@[c]@.len() as int,
                    ) % (FIELD_PRIME as int) == matrix@[x * columns + c] by {
                    lemma_combination_basis_extend(
                        old_basis,
                        basis@,
                        coefficients_by_column@[c]@,
                        x,
                        coefficients_by_column@[c]@.len() as int,
                    );
                }
            }
        } else {
            proof {
                assert forall|x: int| 0 <= x < rows implies #[trigger] combination(
                    basis@,
                    coefficients@,
                    x,
                    coefficients@.len() as int,
                ) % (FIELD_PRIME as int) == matrix@[x * columns + column] by {
                    assert(residual@[x] == 0);
                }
            }
        }
        coefficients_by_column.push(coefficients);
        column = column + 1;
    }
    let rank = basis.len();
    if rank == 0 {
        let mut left: Vec<u64> = Vec::new();
        let mut q: usize = 0;
        while q < rows
            invariant
                q <= rows,
                left@.len() == q,
                forall|x: int| 0 <= x < q ==> #[trigger] left@[x] == 0,
            decreases rows - q,
        {
            left.push(0);
            q = q + 1;
        }
        let mut right: Vec<u64> = Vec::new();
        let mut c: usize = 0;
        while c < columns
            invariant
                c <= columns,
                right@.len() == c,
                forall|x: int| 0 <= x < c ==> #[trigger] right@[x] == 0,
            decreases columns - c,
        {
            right.push(0);
            c = c + 1;
        }
        proof {
            assert forall|row: int, col: int| 0 <= row < rows && 0 <= col < columns implies #[trigger] product_sum(
                left@,
                right@,
                1,
                columns as int,
                row,
                col,
                1,
            ) % (FIELD_PRIME as int) == matrix@[row * columns + col] by {
                assert(row * 1 + 1 - 1 == row);
                assert((1 - 1) * columns + col == col) by (nonlinear_arith);
                assert(left@[row * 1 + 1 - 1] == 0);
                assert(right@[(1 - 1) * columns + col] == 0);
                assert(product_sum(left@, right@, 1, columns as int, row, col, 0) == 0);
                assert(coefficients_by_column@[col]@.len() == 0);
                assert(combination(basis@, coefficients_by_column@[col]@, row, 0) == 0);
            }
        }
        return Ok((left, right, 1));
    }
    let mut left: Vec<u64> = Vec::new();
    let mut r: usize = 0;
    while r < rows
        invariant
            1 <= rank == basis@.len(),
            r <= rows,
            left@.len() == r * rank,
            forall|k: int| 0 <= k < basis@.len() ==> (#[trigger] basis@[k])@.len() == rows,
            forall|x: int| 0 <= x < left@.len() ==> #[trigger] left@[x] == basis@[x % (rank as int)]@[x / (rank as int)],
            forall|b: int| 0 <= b < basis@.len() ==> field_values((#[trigger] basis@[b])@),
            field_values(left@),
        decreases rows - r,
    {
        let mut k: usize = 0;
        while k < rank
            invariant
                1 <= rank == basis@.len(),
                r < rows,
                k <= rank,
                left@.len() == r * rank + k,
                forall|b: int| 0 <= b < basis@.len() ==> (#[trigger] basis@[b])@.len() == rows,
                forall|x: int| 0 <= x < left@.len() ==> #[trigger] left@[x] == basis@[x % (rank as int)]@[x / (rank as int)],
                forall|b: int| 0 <= b < basis@.len() ==> field_values((#[trigger] basis@[b])@),
                field_values(left@),
            decreases rank - k,
        {
            proof {
                lemma_index_split((r * rank + k) as int, rank as int, r as int, k as int);
            }
            left.push(basis[k][r]);
            k = k + 1;
        }
        assert((r + 1) * rank == r * rank + rank) by (nonlinear_arith);
        r = r + 1;
    }
    let mut right: Vec<u64> = Vec::new();
    let mut k: usize = 0;
    while k < rank
        invariant
            1 <= rank == basis@.len(),
            k <= rank,
            coefficients_by_column@.len() == columns,
            right@.len() == k * columns,
            forall|x: int| 0 <= x < right@.len() ==> #[trigger] right@[x] == coefficient_at(
                coefficients_by_column@[x % (columns as int)]@,
                x / (columns as int),
            ),
            forall|c: int| 0 <= c < columns ==> field_values((#[trigger] coefficients_by_column@[c])@),
            field_values(right@),
        decreases rank - k,
    {
        let mut c: usize = 0;
        while c < columns
            invariant
                1 <= rank == basis@.len(),
                k < rank,
                c <= columns,
                coefficients_by_column@.len() == columns,
                right@.len() == k * columns + c,
                forall|x: int| 0 <= x < right@.len() ==> #[trigger] right@[x] == coefficient_at(
                    coefficients_by_column@[x % (columns as int)]@,
                    x / (columns as int),
                ),
                forall|cc: int| 0 <= cc < columns ==> field_values((#[trigger] coefficients_by_column@[cc])@),
                field_values(right@),
            decreases columns - c,
        {
            proof {
                lemma_index_split((k * columns + c) as int, columns as int, k as int, c as int);
            }
            let coefficients = &coefficients_by_column[c];
            let value = if k < coefficients.len() {
                coefficients[k]
            } else {
                0
            };
            right.push(value);
            c = c + 1;
        }
        assert((k + 1) * columns == k * columns + columns) by (nonlinear_arith);
        k = k + 1;
    }
    proof {
        assert forall|row: int, col: int| 0 <= row < rows && 0 <= col < columns implies #[trigger] product_sum(
            left@,
            right@,
            rank as int,
            columns as int,
            row,
            col,
            rank as int,
        ) % (FIELD_PRIME as int) == matrix@[row * columns + col] by {
            assert forall|b: int| 0 <= b < rank implies #[trigger] product_term_ok(
                left@,
                right@,
                basis@,
                coefficients_by_column@[col]@,
                rank as int,
                columns as int,
                row,
                col,
                b,
            ) by {
                assert(0 <= row * rank + b < rows * rank) by (nonlinear_arith)
                    requires 0 <= row < rows, 0 <= b < rank;
                assert(0 <= b * columns + col < rank * columns) by (nonlinear_arith)
                    requires 0 <= b < rank, 0 <= col < columns;
                lemma_index_split(row * rank + b, rank as int, row, b);
                lemma_index_split(b * columns + col, columns as int, b, col);
            }
            lemma_product_matches(
                left@,
                right@,
                basis@,
                coefficients_by_column@[col]@,
                rank as int,
                columns as int,
                row,
                col,
                rank as int,
            );
        }
    }
    Ok((left, right, rank))
}

/// The `k`-th coefficient of a column, zero past the basis it was computed
/// against.
pub open spec fn coefficient_at(coefficients: Seq<u64>, k: int) -> u64 {
    if 0 <= k < coefficients.len() {
        coefficients[k]
    } else {
        0
    }
}

proof fn lemma_index_split(x: int, width: int, q: int, r: int)
    requires
        width > 0,
        0 <= r < width,
        x == q * width + r,
    ensures
        x / width == q,
        x % width == r,
{
    vstd::arithmetic::div_mod::lemma_fundamental_div_mod_converse_div(x, width, q, r);
    vstd::arithmetic::div_mod::lemma_fundamental_div_mod_converse_mod(x, width, q, r);
}

/// Term `b` of the flat product at `(row, column)` is the basis entry times the
/// column's coefficient.
pub open spec fn product_term_ok(
    left: Seq<u64>,
    right: Seq<u64>,
    basis: Seq<Vec<u64>>,
    coefficients: Seq<u64>,
    rank: int,
    columns: int,
    row: int,
    column: int,
    b: int,
) -> bool {
    left[row * rank + b] == basis[b]@[row] && right[b * columns + column] == coefficient_at(coefficients, b)
}

/// The flat product sum is the combination of the basis columns, the
/// coefficients past the column's basis being zero.
proof fn lemma_product_matches(
    left: Seq<u64>,
    right: Seq<u64>,
    basis: Seq<Vec<u64>>,
    coefficients: Seq<u64>,
    rank: int,
    columns: int,
    row: int,
    column: int,
    count: int,
)
    requires
        0 <= count <= rank,
        coefficients.len() <= rank,
        forall|b: int| 0 <= b < rank ==> #[trigger] product_term_ok(left, right, basis, coefficients, rank, columns, row, column, b),
    ensures
        product_sum(left, right, rank, columns, row, column, count) == combination(
            basis,
            coefficients,
            row,
            if count < coefficients.len() {
                count
            } else {
                coefficients.len() as int
            },
        ),
    decreases count,
{
    if count > 0 {
        lemma_product_matches(left, right, basis, coefficients, rank, columns, row, column, count - 1);
        let b = count - 1;
        assert(product_term_ok(left, right, basis, coefficients, rank, columns, row, column, b));
        if b < coefficients.len() {
            assert(basis[b]@[row] * coefficients[b] == coefficients[b] * basis[b]@[row]) by (nonlinear_arith);
        }
    }
}

/// The combination over one more basis vector adds its term.
proof fn lemma_combination_prefix(basis: Seq<Vec<u64>>, coefficients: Seq<u64>, row: int, k: int)
    requires
        0 <= k < coefficients.len(),
    ensures
        combination(basis, coefficients, row, k + 1) == combination(basis, coefficients, row, k)
            + coefficients[k] * basis[k]@[row],
{
}

/// Appending to the basis and the coefficients leaves the earlier terms alone.
proof fn lemma_combination_extend(
    old_basis: Seq<Vec<u64>>,
    basis: Seq<Vec<u64>>,
    old_coefficients: Seq<u64>,
    coefficients: Seq<u64>,
    row: int,
    k: int,
)
    requires
        0 <= k,
        old_coefficients.len() == k,
        coefficients.len() == k + 1,
        basis.len() == old_basis.len() + 1,
        k <= old_basis.len(),
        forall|j: int| 0 <= j < old_basis.len() ==> basis[j] == old_basis[j],
        forall|j: int| 0 <= j < k ==> coefficients[j] == old_coefficients[j],
    ensures
        combination(basis, coefficients, row, k + 1) == combination(old_basis, old_coefficients, row, k)
            + coefficients[k] * basis[k]@[row],
{
    lemma_combination_basis_extend(old_basis, basis, old_coefficients, row, k);
    lemma_combination_coefficients_extend(basis, old_coefficients, coefficients, row, k);
}

proof fn lemma_combination_basis_extend(
    old_basis: Seq<Vec<u64>>,
    basis: Seq<Vec<u64>>,
    coefficients: Seq<u64>,
    row: int,
    k: int,
)
    requires
        0 <= k <= old_basis.len(),
        old_basis.len() <= basis.len(),
        forall|j: int| 0 <= j < old_basis.len() ==> basis[j] == old_basis[j],
    ensures
        combination(basis, coefficients, row, k) == combination(old_basis, coefficients, row, k),
    decreases k,
{
    if k > 0 {
        lemma_combination_basis_extend(old_basis, basis, coefficients, row, k - 1);
    }
}

proof fn lemma_combination_coefficients_extend(
    basis: Seq<Vec<u64>>,
    old_coefficients: Seq<u64>,
    coefficients: Seq<u64>,
    row: int,
    k: int,
)
    requires
        0 <= k <= old_coefficients.len(),
        k <= coefficients.len(),
        forall|j: int| 0 <= j < k ==> coefficients[j] == old_coefficients[j],
    ensures
        combination(basis, coefficients, row, k) == combination(basis, old_coefficients, row, k),
    decreases k,
{
    if k > 0 {
        lemma_combination_coefficients_extend(basis, old_coefficients, coefficients, row, k - 1);
    }
}


/// A three-index tensor `(left, physical, right)` stored row-major.
#[derive(Debug)]
pub struct Tensor3 {
    pub left: usize,
    pub physical: usize,
    pub right: usize,
    pub data: Vec<u64>,
}

/// The flat position of `(l, p, r)` in a tensor of the given shape.
pub open spec fn flat_index(physical: int, right: int, l: int, p: int, r: int) -> int {
    (l * physical + p) * right + r
}

proof fn lemma_flat_index(left: int, physical: int, right: int, l: int, p: int, r: int)
    requires
        0 <= l < left,
        0 <= p < physical,
        0 <= r < right,
    ensures
        0 <= flat_index(physical, right, l, p, r) < left * physical * right,
        l * physical + p < left * physical,
{
    assert(l * physical + p < left * physical) by (nonlinear_arith)
        requires 0 <= l < left, 0 <= p < physical;
    assert(0 <= l * physical + p) by (nonlinear_arith)
        requires 0 <= l, 0 <= p, 0 <= physical;
    assert((l * physical + p) * right + r < left * physical * right) by (nonlinear_arith)
        requires l * physical + p < left * physical, 0 <= r < right, 0 <= l * physical + p;
    assert(0 <= (l * physical + p) * right) by (nonlinear_arith)
        requires 0 <= l * physical + p, 0 <= right;
}

impl Tensor3 {
    /// The data holds one field element per index triple.
    pub open spec fn wf(&self) -> bool {
        &&& self.data@.len() == self.left * self.physical * self.right
        &&& field_values(self.data@)
    }

    /// A zero tensor of the given shape; an error when its size does not fit
    /// `usize`.
    pub fn zeros(left: usize, physical: usize, right: usize) -> (tensor: Result<Self, String>)
        ensures
            tensor matches Ok(t) ==> t.wf() && t.left == left && t.physical == physical && t.right == right
                && forall|i: int| 0 <= i < t.data@.len() ==> #[trigger] t.data@[i] == 0,
            tensor is Ok <==> left * physical <= usize::MAX && left * physical * right <= usize::MAX,
    {
        let size = match left.checked_mul(physical) {
            Some(v) => match v.checked_mul(right) {
                Some(w) => w,
                None => {
                    return Err(message("MPS tensor size overflow"));
                },
            },
            None => {
                return Err(message("MPS tensor size overflow"));
            },
        };
        let mut data: Vec<u64> = Vec::new();
        let mut i: usize = 0;
        while i < size
            invariant
                i <= size,
                data@.len() == i,
                forall|k: int| 0 <= k < i ==> #[trigger] data@[k] == 0,
            decreases size - i,
        {
            data.push(0);
            i = i + 1;
        }
        Ok(Tensor3 { left, physical, right, data })
    }

    fn index(&self, left: usize, physical: usize, right: usize) -> (position: usize)
        requires
            self.wf(),
            left < self.left,
            physical < self.physical,
            right < self.right,
        ensures
            position == flat_index(self.physical as int, self.right as int, left as int, physical as int, right as int),
            position < self.data@.len(),
    {
        let length = self.data.len();
        proof {
            lemma_flat_index(self.left as int, self.physical as int, self.right as int, left as int, physical as int, right as int);
            assert(length == self.data@.len());
            assert(left * self.physical <= left * self.physical + physical);
            assert(left * self.physical + physical <= (left * self.physical + physical) * self.right) by (nonlinear_arith)
                requires self.right >= 1, left * self.physical + physical >= 0;
            assert((left * self.physical + physical) * self.right <= (left * self.physical + physical) * self.right + right);
        }
        (left * self.physical + physical) * self.right + right
    }

    fn get(&self, left: usize, physical: usize, right: usize) -> (value: u64)
        requires
            self.wf(),
            left < self.left,
            physical < self.physical,
            right < self.right,
        ensures
            value == self.data@[flat_index(self.physical as int, self.right as int, left as int, physical as int, right as int)],
            value < FIELD_PRIME,
    {
        let position = self.index(left, physical, right);
        self.data[position]
    }

    fn add_at(&mut self, left: usize, physical: usize, right: usize, value: u64)
        requires
            old(self).wf(),
            left < old(self).left,
            physical < old(self).physical,
            right < old(self).right,
            value < FIELD_PRIME,
        ensures
            final(self).wf(),
            final(self).left == old(self).left,
            final(self).physical == old(self).physical,
            final(self).right == old(self).right,
            final(self).data@ == old(self).data@.update(
                flat_index(old(self).physical as int, old(self).right as int, left as int, physical as int, right as int),
                ((old(self).data@[flat_index(
                    old(self).physical as int,
                    old(self).right as int,
                    left as int,
                    physical as int,
                    right as int,
                )] + value) % (FIELD_PRIME as int)) as u64,
            ),
    {
        let position = self.index(left, physical, right);
        let updated = self::add(self.data[position], value);
        self.data.set(position, updated);
    }
}

/// A matrix product state: one tensor per site, left to right.
#[derive(Debug)]
pub struct Mps {
    pub sites: Vec<Tensor3>,
}

/// Every site tensor of `sites` is well formed.
pub open spec fn sites_wf(sites: Seq<Tensor3>) -> bool {
    forall|i: int| 0 <= i < sites.len() ==> (#[trigger] sites[i]).wf()
}

/// A placeholder tensor of size zero.
fn empty_tensor() -> (tensor: Tensor3)
    ensures
        tensor.wf(),
{
    Tensor3 { left: 0, physical: 0, right: 0, data: Vec::new() }
}

/// Compress the bond between two neighbouring sites to its exact rank over
/// the field: the left site becomes the column basis, and the right site
/// absorbs the transfer matrix.
/// Two bonded sites whose compression fits `usize`: the left site as a
/// matrix of `left * physical` rows, and the right site rebuilt with up to
/// one more left index than it has.
pub open spec fn compress_fits(left_site: Tensor3, right_site: Tensor3) -> bool {
    &&& left_site.right == right_site.left
    &&& left_site.left * left_site.physical <= usize::MAX
    &&& (right_site.left + 1) * right_site.physical <= usize::MAX
    &&& (right_site.left + 1) * right_site.physical * right_site.right <= usize::MAX
}

fn compress_bond(left_site: &mut Tensor3, right_site: &mut Tensor3) -> (compressed: Result<(), String>)
    requires
        old(left_site).wf(),
        old(right_site).wf(),
    ensures
        final(left_site).wf(),
        final(right_site).wf(),
        compressed is Ok ==> final(left_site).right == final(right_site).left && final(left_site).left
            == old(left_site).left && final(right_site).right == old(right_site).right
            && final(left_site).physical == old(left_site).physical && final(right_site).physical
            == old(right_site).physical,
        compressed is Err ==> *final(left_site) == *old(left_site) && *final(right_site) == *old(right_site),
        compress_fits(*old(left_site), *old(right_site)) && field_inverses_hold() ==> compressed is Ok,
{
    if left_site.right != right_site.left {
        return Err(message("MPS bond mismatch before compression"));
    }
    let rows = match left_site.left.checked_mul(left_site.physical) {
        Some(r) => r,
        None => {
            return Err(message("MPS tensor size overflow"));
        },
    };
    let columns = left_site.right;
    proof {
        assert(left_site.left * left_site.physical * left_site.right == rows * columns);
    }
    let (left_factor, transfer, rank) = rank_factor(left_site.data.as_slice(), rows, columns)?;
    proof {
        if compress_fits(*old(left_site), *old(right_site)) {
            let p = right_site.physical as int;
            let r = right_site.right as int;
            let b = right_site.left as int + 1;
            assert(rank <= b);
            assert(rank * p <= b * p && rank * p * r <= b * p * r) by (nonlinear_arith)
                requires
                    0 <= rank <= b,
                    p >= 0,
                    r >= 0,
            ;
        }
    }
    let transfer_length = transfer.len();
    let mut new_right = Tensor3::zeros(rank, right_site.physical, right_site.right)?;
    let mut new_left: usize = 0;
    while new_left < rank
        invariant
            new_left <= rank,
            right_site.wf(),
            new_right.wf(),
            new_right.left == rank,
            new_right.physical == right_site.physical,
            new_right.right == right_site.right,
            transfer@.len() == rank * columns,
            transfer_length == transfer@.len(),
            columns == right_site.left,
            field_values(transfer@),
        decreases rank - new_left,
    {
        let mut old_left: usize = 0;
        while old_left < right_site.left
            invariant
                new_left < rank,
                old_left <= right_site.left,
                right_site.wf(),
                new_right.wf(),
                new_right.left == rank,
                new_right.physical == right_site.physical,
                new_right.right == right_site.right,
                transfer@.len() == rank * columns,
                transfer_length == transfer@.len(),
                columns == right_site.left,
                field_values(transfer@),
            decreases right_site.left - old_left,
        {
            proof {
                assert(new_left * columns + old_left < rank * columns) by (nonlinear_arith)
                    requires new_left < rank, old_left < columns;
                assert(new_left * columns <= new_left * columns + old_left);
            }
            let coefficient = transfer[new_left * columns + old_left];
            if coefficient != 0 {
                let mut physical: usize = 0;
                while physical < right_site.physical
                    invariant
                        new_left < rank,
                        old_left < right_site.left,
                        physical <= right_site.physical,
                        right_site.wf(),
                        new_right.wf(),
                        new_right.left == rank,
                        new_right.physical == right_site.physical,
                        new_right.right == right_site.right,
                    decreases right_site.physical - physical,
                {
                    let mut right: usize = 0;
                    while right < right_site.right
                        invariant
                            new_left < rank,
                            old_left < right_site.left,
                            physical < right_site.physical,
                            right <= right_site.right,
                            right_site.wf(),
                            new_right.wf(),
                            new_right.left == rank,
                            new_right.physical == right_site.physical,
                            new_right.right == right_site.right,
                        decreases right_site.right - right,
                    {
                        let value = self::mul(coefficient, right_site.get(old_left, physical, right));
                        new_right.add_at(new_left, physical, right, value);
                        right = right + 1;
                    }
                    physical = physical + 1;
                }
            }
            old_left = old_left + 1;
        }
        new_left = new_left + 1;
    }
    proof {
        assert(left_factor@.len() == left_site.left * left_site.physical * rank) by (nonlinear_arith)
            requires left_factor@.len() == rows * rank, rows == left_site.left * left_site.physical;
    }
    left_site.right = rank;
    left_site.data = left_factor;
    *right_site = new_right;
    Ok(())
}

/// Compress every bond of the state from left to right.
fn compress_all(mps: &mut Mps) -> (compressed: Result<(), String>)
    requires
        sites_wf(old(mps).sites@),
    ensures
        sites_wf(final(mps).sites@),
        final(mps).sites@.len() == old(mps).sites@.len(),
        forall|i: int| 0 <= i < old(mps).sites@.len() ==> (#[trigger] final(mps).sites@[i]).physical == old(
            mps,
        ).sites@[i].physical,
{
    let count = mps.sites.len();
    if count == 0 {
        return Ok(());
    }
    let mut bond: usize = 0;
    while bond < count - 1
        invariant
            count == mps.sites@.len(),
            count == old(mps).sites@.len(),
            count >= 1,
            sites_wf(mps.sites@),
            forall|i: int| 0 <= i < count ==> (#[trigger] mps.sites@[i]).physical == old(mps).sites@[i].physical,
        decreases count - bond,
    {
        let mut left = empty_tensor();
        let mut right = empty_tensor();
        std::mem::swap(&mut left, &mut mps.sites[bond]);
        std::mem::swap(&mut right, &mut mps.sites[bond + 1]);
        let outcome = compress_bond(&mut left, &mut right);
        std::mem::swap(&mut left, &mut mps.sites[bond]);
        std::mem::swap(&mut right, &mut mps.sites[bond + 1]);
        assert(mps.sites@.len() == count);
        if outcome.is_err() {
            return outcome;
        }
        bond = bond + 1;
    }
    Ok(())
}


/// A zero vector of `length` field elements.
fn zero_vector(length: usize) -> (values: Vec<u64>)
    ensures
        values@.len() == length,
        field_values(values@),
        forall|i: int| 0 <= i < length ==> #[trigger] values@[i] == 0,
{
    let mut values: Vec<u64> = Vec::new();
    let mut i: usize = 0;
    while i < length
        invariant
            i <= length,
            values@.len() == i,
            forall|k: int| 0 <= k < i ==> #[trigger] values@[k] == 0,
        decreases length - i,
    {
        values.push(0);
        i = i + 1;
    }
    values
}

/// The position of entry `(row, column)` of a row-major matrix with `columns`
/// columns, checked against its length.
fn matrix_position(length: usize, rows: usize, columns: usize, row: usize, column: usize) -> (position: usize)
    requires
        length == rows * columns,
        row < rows,
        column < columns,
    ensures
        position == row * columns + column,
        position < length,
{
    proof {
        assert(row * columns + column < rows * columns) by (nonlinear_arith)
            requires row < rows, column < columns;
        assert(row * columns <= row * columns + column);
    }
    row * columns + column
}

/// Store a field element at entry `(row, column)` of a row-major matrix.
fn set_entry(matrix: &mut Vec<u64>, rows: usize, columns: usize, row: usize, column: usize, value: u64)
    requires
        old(matrix)@.len() == rows * columns,
        field_values(old(matrix)@),
        row < rows,
        column < columns,
        value < FIELD_PRIME,
    ensures
        final(matrix)@.len() == rows * columns,
        field_values(final(matrix)@),
        final(matrix)@ == old(matrix)@.update(row * columns + column, value),
{
    let position = matrix_position(matrix.len(), rows, columns, row, column);
    matrix.set(position, value);
}

/// Entry `(row, column)` of a row-major matrix.
fn entry(matrix: &Vec<u64>, rows: usize, columns: usize, row: usize, column: usize) -> (value: u64)
    requires
        matrix@.len() == rows * columns,
        field_values(matrix@),
        row < rows,
        column < columns,
    ensures
        value < FIELD_PRIME,
        value == matrix@[row * columns + column],
{
    let position = matrix_position(matrix.len(), rows, columns, row, column);
    matrix[position]
}

/// `a * b`, an error when the product does not fit `usize`.
fn checked_size(a: usize, b: usize) -> (size: Result<usize, String>)
    ensures
        size is Ok <==> a * b <= usize::MAX,
        size matches Ok(v) ==> v == a * b,
{
    match a.checked_mul(b) {
        Some(v) => Ok(v),
        None => Err(message("MPS tensor size overflow")),
    }
}

/// Every leg of every entry of `C` carries 0 or 1.
pub(crate) proof fn lemma_c_binary(i: int)
    requires
        0 <= i < 17,
    ensures
        crate::tensor::legs_binary(sec_vi_c()[i].legs),
{
    if i != 8 {
        let s = if i < 8 { i } else { i - 1 };
        assert(s % 2 <= 1 && (s / 2) % 2 <= 1 && (s / 4) % 2 <= 1 && (s / 8) % 2 <= 1);
    }
}

/// The occupied entry of `C`: every channel goes from 0 to 1.
fn is_occupied_entry(legs: crate::tensor::VirtualLegs) -> (occupied: bool)
    ensures
        occupied == (legs == crate::tensor::occupied_legs()),
{
    legs.column_in == 0 && legs.column_out == 1 && legs.row_in == 0 && legs.row_out == 1
        && legs.diag_dr_in == 0 && legs.diag_dr_out == 1 && legs.diag_dl_in == 0 && legs.diag_dl_out == 1
}

/// Apply the row MPO of `C` to the boundary state: the horizontal bond becomes
/// part of the site bonds, the physical index maps incoming signals to
/// outgoing ones. On the first row the occupied entries are weighted by their
/// vertical-reflection orbit.
fn apply_row_mpo(mps: &Mps, n: usize, row: usize) -> (applied: Result<(Mps, u128, u128), String>)
    requires
        sites_wf(mps.sites@),
    ensures
        applied matches Ok((result, _, _)) ==> sites_wf(result.sites@) && result.sites@.len() == n && forall|i: int|
            0 <= i < n ==> (#[trigger] result.sites@[i]).physical == 8,
        applied matches Ok((_, examined, accepted)) ==> accepted <= examined,
{
    if mps.sites.len() != n {
        return Err(message("row MPO expects N physical-dimension-8 MPS sites"));
    }
    let mut check: usize = 0;
    while check < n
        invariant
            check <= n,
            n == mps.sites@.len(),
            forall|i: int| 0 <= i < check ==> (#[trigger] mps.sites@[i]).physical == 8,
        decreases n - check,
    {
        if mps.sites[check].physical != 8 {
            return Err(message("row MPO expects N physical-dimension-8 MPS sites"));
        }
        check = check + 1;
    }
    let tensor = SiteTensorC::sec_vi();
    let entries = tensor.entries();
    let mut output: Vec<Tensor3> = Vec::new();
    let mut entries_examined: u128 = 0;
    let mut entries_accepted: u128 = 0;
    let mut column: usize = 0;
    while column < n
        invariant
            column <= n,
            n == mps.sites@.len(),
            sites_wf(mps.sites@),
            forall|i: int| 0 <= i < n ==> (#[trigger] mps.sites@[i]).physical == 8,
            entries@ == sec_vi_c(),
            output@.len() == column,
            sites_wf(output@),
            forall|i: int| 0 <= i < column ==> (#[trigger] output@[i]).physical == 8,
            entries_examined <= column * 17,
            entries_accepted <= column * 17,
            entries_accepted <= entries_examined,
        decreases n - column,
    {
        let input = &mps.sites[column];
        assert(input.wf() && input.physical == 8);
        let left_states: usize = if column == 0 { 1 } else { 2 };
        let right_states: usize = if column + 1 == n { 1 } else { 2 };
        let left_dimension = checked_size(input.left, left_states)?;
        let right_dimension = checked_size(input.right, right_states)?;
        let mut site = Tensor3::zeros(left_dimension, 8, right_dimension)?;
        let mut e: usize = 0;
        while e < entries.len()
            invariant
                column < n,
                n == mps.sites@.len(),
                input == mps.sites@[column as int],
                input.wf(),
                input.physical == 8,
                entries@ == sec_vi_c(),
                e <= 17,
                site.wf(),
                site.physical == 8,
                site.left == left_dimension,
                site.right == right_dimension,
                left_dimension == input.left * left_states,
                right_dimension == input.right * right_states,
                left_states == if column == 0 { 1usize } else { 2usize },
                right_states == if column + 1 == n { 1usize } else { 2usize },
                entries_examined <= column * 17 + e,
                entries_accepted <= column * 17 + e,
                entries_accepted <= entries_examined,
            decreases 17 - e,
        {
            let entry = entries[e];
            let legs = entry.legs;
            proof {
                lemma_c_binary(e as int);
            }
            entries_examined = entries_examined + 1;
            let occupied = is_occupied_entry(legs);
            let orbit_weight: u64 = if row == 0 && occupied {
                let mirror = n - 1 - column;
                if column > mirror {
                    e = e + 1;
                    continue;
                } else if column == mirror {
                    1
                } else {
                    2
                }
            } else {
                1
            };
            let left_mpo: usize = if legs.row_in == 0 {
                0
            } else if column > 0 {
                1
            } else {
                e = e + 1;
                continue;
            };
            let right_mpo: usize = if column + 1 == n {
                if legs.row_out == 1 {
                    0
                } else {
                    e = e + 1;
                    continue;
                }
            } else {
                legs.row_out as usize
            };
            entries_accepted = entries_accepted + 1;
            let physical_in = legs.column_in as usize + 2 * (legs.diag_dr_in as usize) + 4 * (legs.diag_dl_in as usize);
            let physical_out = legs.column_out as usize + 2 * (legs.diag_dr_out as usize) + 4 * (legs.diag_dl_out as usize);
            let local_value = self::mul((entry.value % (FIELD_PRIME as u128)) as u64, orbit_weight);
            let mut input_left: usize = 0;
            while input_left < input.left
                invariant
                    input.wf(),
                    input.physical == 8,
                    site.wf(),
                    site.physical == 8,
                    site.left == left_dimension,
                    site.right == right_dimension,
                    left_dimension == input.left * left_states,
                    right_dimension == input.right * right_states,
                    left_mpo < left_states,
                    right_mpo < right_states,
                    physical_in < 8,
                    physical_out < 8,
                    local_value < FIELD_PRIME,
                    input_left <= input.left,
                decreases input.left - input_left,
            {
                let mut input_right: usize = 0;
                while input_right < input.right
                    invariant
                        input.wf(),
                        input.physical == 8,
                        site.wf(),
                        site.physical == 8,
                        site.left == left_dimension,
                        site.right == right_dimension,
                        left_dimension == input.left * left_states,
                        right_dimension == input.right * right_states,
                        left_mpo < left_states,
                        right_mpo < right_states,
                        physical_in < 8,
                        physical_out < 8,
                        local_value < FIELD_PRIME,
                        input_left < input.left,
                        input_right <= input.right,
                    decreases input.right - input_right,
                {
                    let amplitude = input.get(input_left, physical_in, input_right);
                    if amplitude != 0 {
                        let target_left = matrix_position(left_dimension, input.left, left_states, input_left, left_mpo);
                        let target_right = matrix_position(right_dimension, input.right, right_states, input_right, right_mpo);
                        site.add_at(target_left, physical_out, target_right, self::mul(amplitude, local_value));
                    }
                    input_right = input_right + 1;
                }
                input_left = input_left + 1;
            }
            e = e + 1;
        }
        output.push(site);
        assert((column + 1) * 17 == column * 17 + 17);
        column = column + 1;
    }
    let mut result = Mps { sites: output };
    compress_all(&mut result)?;
    assert(forall|i: int| 0 <= i < n ==> (#[trigger] result.sites@[i]).physical == 8);
    Ok((result, entries_examined, entries_accepted))
}


/// Split an eight-dimensional site into its column, down-right and down-left
/// qubits by two exact rank factorizations.
/// A site of eight physical values whose two factorizations fit `usize`:
/// the first matrix of `2 left` rows and `4 right` columns, the second of at
/// most `2 (4 right + 1)` rows and `2 right` columns.
pub open spec fn split_fits(site: Tensor3) -> bool {
    &&& site.physical == 8
    &&& site.left * 2 <= usize::MAX
    &&& 4 * site.right <= usize::MAX
    &&& site.left * 2 * (4 * site.right) <= usize::MAX
    &&& (4 * site.right + 1) * 2 <= usize::MAX
    &&& (4 * site.right + 1) * 2 * (2 * site.right) <= usize::MAX
}

fn split_site(site: Tensor3) -> (split: Result<(Tensor3, Tensor3, Tensor3), String>)
    requires
        site.wf(),
    ensures
        split matches Ok((a, b, c)) ==> {
            &&& a.wf() && b.wf() && c.wf()
            &&& a.physical == 2 && b.physical == 2 && c.physical == 2
            &&& a.left == site.left && a.right == b.left && b.right == c.left && c.right == site.right
        },
        split_fits(site) && field_inverses_hold() ==> split is Ok,
{
    if site.physical != 8 {
        return Err(message("split_site expects physical dimension 8"));
    }
    let first_rows = checked_size(site.left, 2)?;
    let first_columns = checked_size(4, site.right)?;
    let first_size = checked_size(first_rows, first_columns)?;
    let mut first_matrix = zero_vector(first_size);
    let mut left: usize = 0;
    while left < site.left
        invariant
            site.wf(),
            site.physical == 8,
            first_rows == site.left * 2,
            first_columns == 4 * site.right,
            first_matrix@.len() == first_rows * first_columns,
            field_values(first_matrix@),
            left <= site.left,
        decreases site.left - left,
    {
        let mut column_bit: usize = 0;
        while column_bit < 2
            invariant
                site.wf(),
                site.physical == 8,
                first_rows == site.left * 2,
                first_columns == 4 * site.right,
                first_matrix@.len() == first_rows * first_columns,
                field_values(first_matrix@),
                left < site.left,
                column_bit <= 2,
            decreases 2 - column_bit,
        {
            let mut rest: usize = 0;
            while rest < 4
                invariant
                    site.wf(),
                    site.physical == 8,
                    first_rows == site.left * 2,
                    first_columns == 4 * site.right,
                    first_matrix@.len() == first_rows * first_columns,
                    field_values(first_matrix@),
                    left < site.left,
                    column_bit < 2,
                    rest <= 4,
                decreases 4 - rest,
            {
                let mut right: usize = 0;
                while right < site.right
                    invariant
                        site.wf(),
                        site.physical == 8,
                        first_rows == site.left * 2,
                        first_columns == 4 * site.right,
                        first_matrix@.len() == first_rows * first_columns,
                        field_values(first_matrix@),
                        left < site.left,
                        column_bit < 2,
                        rest < 4,
                        right <= site.right,
                    decreases site.right - right,
                {
                    let row_position = matrix_position(first_rows, site.left, 2, left, column_bit);
                    let column_position = matrix_position(first_columns, 4, site.right, rest, right);
                    let value = site.get(left, column_bit + 2 * rest, right);
                    set_entry(&mut first_matrix, first_rows, first_columns, row_position, column_position, value);
                    right = right + 1;
                }
                rest = rest + 1;
            }
            column_bit = column_bit + 1;
        }
        left = left + 1;
    }
    let (first, remainder, rank_one) = rank_factor(first_matrix.as_slice(), first_rows, first_columns)?;
    proof {
        if split_fits(site) {
            assert(rank_one <= 4 * site.right + 1);
            assert(rank_one * 2 * (2 * site.right) <= (4 * site.right + 1) * 2 * (2 * site.right)) by (nonlinear_arith)
                requires
                    rank_one <= 4 * site.right + 1,
            ;
        }
    }
    proof {
        assert(first@.len() == site.left * 2 * rank_one) by (nonlinear_arith)
            requires first@.len() == first_rows * rank_one, first_rows == site.left * 2;
    }
    let column_site = Tensor3 { left: site.left, physical: 2, right: rank_one, data: first };
    let second_rows = checked_size(rank_one, 2)?;
    let second_columns = checked_size(2, site.right)?;
    let second_size = checked_size(second_rows, second_columns)?;
    let mut second_matrix = zero_vector(second_size);
    let mut left: usize = 0;
    while left < rank_one
        invariant
            site.wf(),
            remainder@.len() == rank_one * first_columns,
            field_values(remainder@),
            first_columns == 4 * site.right,
            second_rows == rank_one * 2,
            second_columns == 2 * site.right,
            second_matrix@.len() == second_rows * second_columns,
            field_values(second_matrix@),
            left <= rank_one,
        decreases rank_one - left,
    {
        let mut diag_right: usize = 0;
        while diag_right < 2
            invariant
                site.wf(),
                remainder@.len() == rank_one * first_columns,
                field_values(remainder@),
                first_columns == 4 * site.right,
                second_rows == rank_one * 2,
                second_columns == 2 * site.right,
                second_matrix@.len() == second_rows * second_columns,
                field_values(second_matrix@),
                left < rank_one,
                diag_right <= 2,
            decreases 2 - diag_right,
        {
            let mut diag_left: usize = 0;
            while diag_left < 2
                invariant
                    site.wf(),
                    remainder@.len() == rank_one * first_columns,
                    field_values(remainder@),
                    first_columns == 4 * site.right,
                    second_rows == rank_one * 2,
                    second_columns == 2 * site.right,
                    second_matrix@.len() == second_rows * second_columns,
                    field_values(second_matrix@),
                    left < rank_one,
                    diag_right < 2,
                    diag_left <= 2,
                decreases 2 - diag_left,
            {
                let mut right: usize = 0;
                while right < site.right
                    invariant
                        site.wf(),
                        remainder@.len() == rank_one * first_columns,
                        field_values(remainder@),
                        first_columns == 4 * site.right,
                        second_rows == rank_one * 2,
                        second_columns == 2 * site.right,
                        second_matrix@.len() == second_rows * second_columns,
                        field_values(second_matrix@),
                        left < rank_one,
                        diag_right < 2,
                        diag_left < 2,
                        right <= site.right,
                    decreases site.right - right,
                {
                    let source_column = matrix_position(first_columns, 4, site.right, diag_right + 2 * diag_left, right);
                    let value = entry(&remainder, rank_one, first_columns, left, source_column);
                    let row_position = matrix_position(second_rows, rank_one, 2, left, diag_right);
                    let column_position = matrix_position(second_columns, 2, site.right, diag_left, right);
                    set_entry(&mut second_matrix, second_rows, second_columns, row_position, column_position, value);
                    right = right + 1;
                }
                diag_left = diag_left + 1;
            }
            diag_right = diag_right + 1;
        }
        left = left + 1;
    }
    let (second, third, rank_two) = rank_factor(second_matrix.as_slice(), second_rows, second_columns)?;
    proof {
        assert(second@.len() == rank_one * 2 * rank_two) by (nonlinear_arith)
            requires second@.len() == second_rows * rank_two, second_rows == rank_one * 2;
        assert(third@.len() == rank_two * 2 * site.right) by (nonlinear_arith)
            requires third@.len() == rank_two * second_columns, second_columns == 2 * site.right;
    }
    Ok(
        (
            column_site,
            Tensor3 { left: rank_one, physical: 2, right: rank_two, data: second },
            Tensor3 { left: rank_two, physical: 2, right: site.right, data: third },
        ),
    )
}

/// The qubit that a site of the split state carries.
#[derive(Clone, Copy, Debug, PartialEq, Eq, Structural)]
pub enum QubitLabel {
    Column(usize),
    DiagRight(usize),
    DiagLeft(usize),
    NewDiagRight,
    NewDiagLeft,
}

/// Site `c` of the state became the qubits `3c`, `3c + 1`, `3c + 2`.
pub open spec fn labels_split(labels: Seq<QubitLabel>, c: int) -> bool {
    &&& labels[3 * c] == QubitLabel::Column(c as usize)
    &&& labels[3 * c + 1] == QubitLabel::DiagRight(c as usize)
    &&& labels[3 * c + 2] == QubitLabel::DiagLeft(c as usize)
}

/// Split every site of the state into three qubits, labelled by the signal
/// each carries.
fn split_all(mps: Mps) -> (split: Result<(Mps, Vec<QubitLabel>), String>)
    requires
        sites_wf(mps.sites@),
    ensures
        split matches Ok((qubits, labels)) ==> {
            &&& sites_wf(qubits.sites@)
            &&& qubits.sites@.len() == 3 * mps.sites@.len()
            &&& labels@.len() == qubits.sites@.len()
            &&& forall|i: int| 0 <= i < qubits.sites@.len() ==> (#[trigger] qubits.sites@[i]).physical == 2
            &&& forall|c: int| 0 <= c < mps.sites@.len() ==> #[trigger] labels_split(labels@, c)
        },
        (forall|i: int| 0 <= i < mps.sites@.len() ==> split_fits(#[trigger] mps.sites@[i])) && field_inverses_hold()
            ==> split is Ok,
{
    let count = mps.sites.len();
    let mut remaining = mps.sites;
    let mut sites: Vec<Tensor3> = Vec::new();
    let mut labels: Vec<QubitLabel> = Vec::new();
    let mut column: usize = 0;
    while column < count
        invariant
            count == remaining@.len(),
            count == mps.sites@.len(),
            column <= count,
            forall|i: int| column <= i < count ==> (#[trigger] remaining@[i]).wf(),
            forall|i: int| column <= i < count ==> #[trigger] remaining@[i] == mps.sites@[i],
            sites_wf(sites@),
            sites@.len() == 3 * column,
            labels@.len() == 3 * column,
            forall|i: int| 0 <= i < sites@.len() ==> (#[trigger] sites@[i]).physical == 2,
            forall|c: int| 0 <= c < column ==> #[trigger] labels_split(labels@, c),
        decreases count - column,
    {
        let mut site = empty_tensor();
        std::mem::swap(&mut site, &mut remaining[column]);
        let (a, b, c) = split_site(site)?;
        sites.push(a);
        sites.push(b);
        sites.push(c);
        let ghost before = labels@;
        labels.push(QubitLabel::Column(column));
        labels.push(QubitLabel::DiagRight(column));
        labels.push(QubitLabel::DiagLeft(column));
        proof {
            assert forall|k: int| 0 <= k < column + 1 implies #[trigger] labels_split(labels@, k) by {
                if k < column {
                    assert(labels_split(before, k));
                    assert(labels@[3 * k] == before[3 * k]);
                    assert(labels@[3 * k + 1] == before[3 * k + 1]);
                    assert(labels@[3 * k + 2] == before[3 * k + 2]);
                }
            }
        }
        column = column + 1;
    }
    Ok((Mps { sites }, labels))
}


/// Every site of the state is a well-formed qubit.
pub open spec fn qubits_wf(sites: Seq<Tensor3>) -> bool {
    sites_wf(sites) && forall|i: int| 0 <= i < sites.len() ==> (#[trigger] sites[i]).physical == 2
}

/// Exchange the qubits at `left_index` and `left_index + 1`, refactoring the
/// two-site block exactly.
fn swap_adjacent(mps: &mut Mps, left_index: usize) -> (swapped: Result<(), String>)
    requires
        qubits_wf(old(mps).sites@),
        left_index + 1 < old(mps).sites@.len(),
    ensures
        qubits_wf(final(mps).sites@),
        final(mps).sites@.len() == old(mps).sites@.len(),
{
    let count = mps.sites.len();
    assert(left_index + 1 < count);
    let left_site = &mps.sites[left_index];
    let right_site = &mps.sites[left_index + 1];
    if left_site.right != right_site.left || left_site.physical != 2 || right_site.physical != 2 {
        return Err(message("adjacent swap expects two bonded qubit sites"));
    }
    let rows = checked_size(left_site.left, 2)?;
    let columns = checked_size(2, right_site.right)?;
    let size = checked_size(rows, columns)?;
    let mut matrix = zero_vector(size);
    let mut outer_left: usize = 0;
    while outer_left < left_site.left
        invariant
            left_site.wf(),
            right_site.wf(),
            left_site.physical == 2,
            right_site.physical == 2,
            left_site.right == right_site.left,
            rows == left_site.left * 2,
            columns == 2 * right_site.right,
            matrix@.len() == rows * columns,
            field_values(matrix@),
            outer_left <= left_site.left,
        decreases left_site.left - outer_left,
    {
        let mut old_left_physical: usize = 0;
        while old_left_physical < 2
            invariant
                left_site.wf(),
                right_site.wf(),
                left_site.physical == 2,
                right_site.physical == 2,
                left_site.right == right_site.left,
                rows == left_site.left * 2,
                columns == 2 * right_site.right,
                matrix@.len() == rows * columns,
                field_values(matrix@),
                outer_left < left_site.left,
                old_left_physical <= 2,
            decreases 2 - old_left_physical,
        {
            let mut old_right_physical: usize = 0;
            while old_right_physical < 2
                invariant
                    left_site.wf(),
                    right_site.wf(),
                    left_site.physical == 2,
                    right_site.physical == 2,
                    left_site.right == right_site.left,
                    rows == left_site.left * 2,
                    columns == 2 * right_site.right,
                    matrix@.len() == rows * columns,
                    field_values(matrix@),
                    outer_left < left_site.left,
                    old_left_physical < 2,
                    old_right_physical <= 2,
                decreases 2 - old_right_physical,
            {
                let mut outer_right: usize = 0;
                while outer_right < right_site.right
                    invariant
                        left_site.wf(),
                        right_site.wf(),
                        left_site.physical == 2,
                        right_site.physical == 2,
                        left_site.right == right_site.left,
                        rows == left_site.left * 2,
                        columns == 2 * right_site.right,
                        matrix@.len() == rows * columns,
                        field_values(matrix@),
                        outer_left < left_site.left,
                        old_left_physical < 2,
                        old_right_physical < 2,
                        outer_right <= right_site.right,
                    decreases right_site.right - outer_right,
                {
                    let mut value: u64 = 0;
                    let mut middle: usize = 0;
                    while middle < left_site.right
                        invariant
                            left_site.wf(),
                            right_site.wf(),
                            left_site.physical == 2,
                            right_site.physical == 2,
                            left_site.right == right_site.left,
                            outer_left < left_site.left,
                            old_left_physical < 2,
                            old_right_physical < 2,
                            outer_right < right_site.right,
                            middle <= left_site.right,
                            value < FIELD_PRIME,
                        decreases left_site.right - middle,
                    {
                        value = self::add(
                            value,
                            self::mul(
                                left_site.get(outer_left, old_left_physical, middle),
                                right_site.get(middle, old_right_physical, outer_right),
                            ),
                        );
                        middle = middle + 1;
                    }
                    let row_position = matrix_position(rows, left_site.left, 2, outer_left, old_right_physical);
                    let column_position = matrix_position(columns, 2, right_site.right, old_left_physical, outer_right);
                    set_entry(&mut matrix, rows, columns, row_position, column_position, value);
                    outer_right = outer_right + 1;
                }
                old_right_physical = old_right_physical + 1;
            }
            old_left_physical = old_left_physical + 1;
        }
        outer_left = outer_left + 1;
    }
    let (left, right, rank) = rank_factor(matrix.as_slice(), rows, columns)?;
    let new_left_site = Tensor3 { left: left_site.left, physical: 2, right: rank, data: left };
    let new_right_site = Tensor3 { left: rank, physical: 2, right: right_site.right, data: right };
    proof {
        assert(new_left_site.data@.len() == left_site.left * 2 * rank) by (nonlinear_arith)
            requires new_left_site.data@.len() == rows * rank, rows == left_site.left * 2;
        assert(new_right_site.data@.len() == rank * 2 * right_site.right) by (nonlinear_arith)
            requires new_right_site.data@.len() == rank * columns, columns == 2 * right_site.right;
    }
    mps.sites.set(left_index, new_left_site);
    mps.sites.set(left_index + 1, new_right_site);
    Ok(())
}

/// Sum out the qubit at `index` against the all-ones vector, merging the
/// resulting bond matrix into a neighbouring site.
/// The qubit at `index` can be summed out and merged into a neighbour: into
/// the next site when there is one, else into the previous site when the
/// qubit closes the chain, each merged tensor fitting `usize`.
pub open spec fn removal_fits(sites: Seq<Tensor3>, index: int) -> bool {
    let s = sites[index];
    &&& s.left * s.right <= usize::MAX
    &&& if index + 1 < sites.len() {
        let next = sites[index + 1];
        &&& s.right == next.left
        &&& s.left * next.physical <= usize::MAX
        &&& s.left * next.physical * next.right <= usize::MAX
    } else {
        let previous = sites[index - 1];
        &&& index > 0
        &&& previous.right == s.left
        &&& s.right == 1
        &&& previous.left * previous.physical <= usize::MAX
        &&& previous.left * previous.physical * 1 <= usize::MAX
    }
}

fn remove_with_ones(mps: &mut Mps, index: usize) -> (removed: Result<(), String>)
    requires
        qubits_wf(old(mps).sites@),
        index < old(mps).sites@.len(),
    ensures
        qubits_wf(final(mps).sites@),
        removed is Ok ==> final(mps).sites@.len() + 1 == old(mps).sites@.len(),
        removed is Err ==> final(mps).sites@.len() == old(mps).sites@.len(),
        removed is Ok <==> removal_fits(old(mps).sites@, index as int),
{
    let count = mps.sites.len();
    let removed_site = &mps.sites[index];
    if removed_site.physical != 2 {
        return Err(message("diagonal boundary removal expects a qubit"));
    }
    let size = checked_size(removed_site.left, removed_site.right)?;
    let mut matrix = zero_vector(size);
    let mut left: usize = 0;
    while left < removed_site.left
        invariant
            removed_site.wf(),
            removed_site.physical == 2,
            matrix@.len() == removed_site.left * removed_site.right,
            field_values(matrix@),
            left <= removed_site.left,
        decreases removed_site.left - left,
    {
        let mut right: usize = 0;
        while right < removed_site.right
            invariant
                removed_site.wf(),
                removed_site.physical == 2,
                matrix@.len() == removed_site.left * removed_site.right,
                field_values(matrix@),
                left < removed_site.left,
                right <= removed_site.right,
            decreases removed_site.right - right,
        {
            let value = self::add(removed_site.get(left, 0, right), removed_site.get(left, 1, right));
            set_entry(&mut matrix, removed_site.left, removed_site.right, left, right, value);
            right = right + 1;
        }
        left = left + 1;
    }
    let removed_left = removed_site.left;
    let removed_right = removed_site.right;
    if index + 1 < count {
        let next = &mps.sites[index + 1];
        if removed_right != next.left {
            return Err(message("right bond mismatch while removing qubit"));
        }
        let mut merged = Tensor3::zeros(removed_left, next.physical, next.right)?;
        let mut left: usize = 0;
        while left < removed_left
            invariant
                next.wf(),
                next.physical == 2,
                next.left == removed_right,
                matrix@.len() == removed_left * removed_right,
                field_values(matrix@),
                merged.wf(),
                merged.left == removed_left,
                merged.physical == next.physical,
                merged.right == next.right,
                left <= removed_left,
            decreases removed_left - left,
        {
            let mut middle: usize = 0;
            while middle < removed_right
                invariant
                    next.wf(),
                    next.physical == 2,
                    next.left == removed_right,
                    matrix@.len() == removed_left * removed_right,
                    field_values(matrix@),
                    merged.wf(),
                    merged.left == removed_left,
                    merged.physical == next.physical,
                    merged.right == next.right,
                    left < removed_left,
                    middle <= removed_right,
                decreases removed_right - middle,
            {
                let coefficient = entry(&matrix, removed_left, removed_right, left, middle);
                let mut physical: usize = 0;
                while physical < next.physical
                    invariant
                        next.wf(),
                        merged.wf(),
                        merged.left == removed_left,
                        merged.physical == next.physical,
                        merged.right == next.right,
                        next.left == removed_right,
                        left < removed_left,
                        middle < removed_right,
                        physical <= next.physical,
                        coefficient < FIELD_PRIME,
                    decreases next.physical - physical,
                {
                    let mut right: usize = 0;
                    while right < next.right
                        invariant
                            next.wf(),
                            merged.wf(),
                            merged.left == removed_left,
                            merged.physical == next.physical,
                            merged.right == next.right,
                            next.left == removed_right,
                            left < removed_left,
                            middle < removed_right,
                            physical < next.physical,
                            right <= next.right,
                        decreases next.right - right,
                    {
                        merged.add_at(left, physical, right, self::mul(coefficient, next.get(middle, physical, right)));
                        right = right + 1;
                    }
                    physical = physical + 1;
                }
                middle = middle + 1;
            }
            left = left + 1;
        }
        mps.sites.set(index + 1, merged);
        mps.sites.remove(index);
    } else if index > 0 {
        let previous = &mps.sites[index - 1];
        if previous.right != removed_left || removed_right != 1 {
            return Err(message("left bond mismatch while removing final qubit"));
        }
        let mut merged = Tensor3::zeros(previous.left, previous.physical, 1)?;
        let mut left: usize = 0;
        while left < previous.left
            invariant
                previous.wf(),
                previous.physical == 2,
                previous.right == removed_left,
                removed_right == 1,
                matrix@.len() == removed_left * removed_right,
                field_values(matrix@),
                merged.wf(),
                merged.left == previous.left,
                merged.physical == previous.physical,
                merged.right == 1,
                left <= previous.left,
            decreases previous.left - left,
        {
            let mut physical: usize = 0;
            while physical < previous.physical
                invariant
                    previous.wf(),
                    previous.physical == 2,
                    previous.right == removed_left,
                    removed_right == 1,
                    matrix@.len() == removed_left * removed_right,
                    field_values(matrix@),
                    merged.wf(),
                    merged.left == previous.left,
                    merged.physical == previous.physical,
                    merged.right == 1,
                    left < previous.left,
                    physical <= previous.physical,
                decreases previous.physical - physical,
            {
                let mut value: u64 = 0;
                let mut middle: usize = 0;
                while middle < previous.right
                    invariant
                        previous.wf(),
                        previous.right == removed_left,
                        removed_right == 1,
                        matrix@.len() == removed_left * removed_right,
                        field_values(matrix@),
                        left < previous.left,
                        physical < previous.physical,
                        middle <= previous.right,
                        value < FIELD_PRIME,
                    decreases previous.right - middle,
                {
                    let weight = entry(&matrix, removed_left, removed_right, middle, 0);
                    value = self::add(value, self::mul(previous.get(left, physical, middle), weight));
                    middle = middle + 1;
                }
                merged.add_at(left, physical, 0, value);
                physical = physical + 1;
            }
            left = left + 1;
        }
        mps.sites.set(index - 1, merged);
        mps.sites.remove(index);
    } else {
        return Err(message("cannot remove the only MPS site"));
    }
    Ok(())
}

/// Append a qubit fixed to zero at the open right end of the state.
fn append_fixed_zero(mps: &mut Mps) -> (appended: Result<(), String>)
    requires
        qubits_wf(old(mps).sites@),
    ensures
        qubits_wf(final(mps).sites@),
        appended is Ok ==> final(mps).sites@.len() == old(mps).sites@.len() + 1,
        appended is Err ==> final(mps).sites@.len() == old(mps).sites@.len(),
        appended is Ok <==> old(mps).sites@.len() > 0 && old(mps).sites@.last().right == 1,
        appended is Ok ==> final(mps).sites@.drop_last() == old(mps).sites@ && final(mps).sites@.last().left == 1
            && final(mps).sites@.last().right == 1 && final(mps).sites@.last().data@ == seq![1u64, 0u64],
        appended is Err ==> final(mps).sites@ == old(mps).sites@,
{
    let count = mps.sites.len();
    if count == 0 {
        return Err(message("cannot append to empty MPS"));
    }
    if mps.sites[count - 1].right != 1 {
        return Err(message("open-boundary MPS must end in rank one"));
    }
    let mut site = Tensor3::zeros(1, 2, 1)?;
    proof {
        assert(flat_index(2, 1, 0, 0, 0) == 0);
        assert(site.data@.len() == 2);
        vstd::arithmetic::div_mod::lemma_small_mod(1, FIELD_PRIME as nat);
    }
    site.add_at(0, 0, 0, 1);
    proof {
        assert(site.data@ =~= seq![1u64, 0u64]);
    }
    let ghost before = mps.sites@;
    mps.sites.push(site);
    proof {
        assert(mps.sites@.drop_last() =~= before);
    }
    Ok(())
}

/// The product of the three qubit entries met by grouped physical value `q`
/// (bit 0 the first qubit, bit 1 the second, bit 2 the third) through inner
/// bonds `m1` and `m2`.
pub open spec fn triple_term(first: Tensor3, second: Tensor3, third: Tensor3, l: int, q: int, r: int, m1: int, m2: int) -> int {
    first.data@[flat_index(2, first.right as int, l, q % 2, m1)] as int * second.data@[flat_index(
        2,
        second.right as int,
        m1,
        (q / 2) % 2,
        m2,
    )] as int * third.data@[flat_index(2, third.right as int, m2, q / 4, r)] as int
}

/// `triple_term` summed over the second inner bond below `upto`.
pub open spec fn inner_sum(first: Tensor3, second: Tensor3, third: Tensor3, l: int, q: int, r: int, m1: int, upto: int) -> int
    decreases upto,
{
    if upto <= 0 {
        0
    } else {
        inner_sum(first, second, third, l, q, r, m1, upto - 1) + triple_term(first, second, third, l, q, r, m1, upto - 1)
    }
}

/// `triple_term` summed over the first inner bond below `upto` and the whole
/// second inner bond.
pub open spec fn outer_sum(first: Tensor3, second: Tensor3, third: Tensor3, l: int, q: int, r: int, upto: int) -> int
    decreases upto,
{
    if upto <= 0 {
        0
    } else {
        outer_sum(first, second, third, l, q, r, upto - 1) + inner_sum(
            first,
            second,
            third,
            l,
            q,
            r,
            upto - 1,
            second.right as int,
        )
    }
}

/// The entry of the grouped site at `(l, q, r)`: the contraction over both
/// inner bonds, modulo the field prime.
pub open spec fn grouped_entry(first: Tensor3, second: Tensor3, third: Tensor3, l: int, q: int, r: int) -> int {
    outer_sum(first, second, third, l, q, r, first.right as int) % (FIELD_PRIME as int)
}

/// The position of `(l, q, r)` among eight physical values and `right`
/// right indices decodes back to it.
proof fn lemma_flat_decode(right: int, l: int, q: int, r: int)
    requires
        right >= 1,
        l >= 0,
        0 <= q < 8,
        0 <= r < right,
    ensures
        flat_index(8, right, l, q, r) / right == l * 8 + q,
        flat_index(8, right, l, q, r) % right == r,
        (l * 8 + q) / 8 == l,
        (l * 8 + q) % 8 == q,
{
    vstd::arithmetic::div_mod::lemma_fundamental_div_mod_converse(flat_index(8, right, l, q, r), right, l * 8 + q, r);
    vstd::arithmetic::div_mod::lemma_fundamental_div_mod_converse(l * 8 + q, 8, l, q);
}

/// Contract three consecutive qubits back into one eight-dimensional site.
fn group_three(first: &Tensor3, second: &Tensor3, third: &Tensor3) -> (grouped: Result<Tensor3, String>)
    requires
        first.wf(),
        second.wf(),
        third.wf(),
    ensures
        grouped matches Ok(t) ==> t.wf() && t.physical == 8 && t.left == first.left && t.right == third.right,
        grouped is Ok <==> first.physical == 2 && second.physical == 2 && third.physical == 2 && first.right
            == second.left && second.right == third.left && first.left * 8 <= usize::MAX && first.left * 8
            * third.right <= usize::MAX,
        grouped matches Ok(t) ==> forall|l: int, q: int, r: int|
            0 <= l < first.left && 0 <= q < 8 && 0 <= r < third.right ==> t.data@[#[trigger] flat_index(
                8,
                third.right as int,
                l,
                q,
                r,
            )] == grouped_entry(*first, *second, *third, l, q, r),
{
    if first.physical != 2 || second.physical != 2 || third.physical != 2 || first.right != second.left
        || second.right != third.left {
        return Err(message("group_three expects three consecutive bonded qubits"));
    }
    let mut grouped = Tensor3::zeros(first.left, 8, third.right)?;
    let ghost rr = third.right as int;
    let ghost pr = FIELD_PRIME as int;
    let mut left: usize = 0;
    proof {
        assert(flat_index(8, rr, 0, 0, 0) == 0) by (nonlinear_arith);
    }
    while left < first.left
        invariant
            first.wf(),
            second.wf(),
            third.wf(),
            first.physical == 2,
            second.physical == 2,
            third.physical == 2,
            first.right == second.left,
            second.right == third.left,
            grouped.wf(),
            grouped.physical == 8,
            grouped.left == first.left,
            grouped.right == third.right,
            left <= first.left,
            rr == third.right,
            pr == FIELD_PRIME,
            forall|i: int|
                0 <= i < grouped.data@.len() ==> #[trigger] grouped.data@[i] == if i < flat_index(8, rr, left as int, 0, 0) {
                    grouped_entry(*first, *second, *third, (i / rr) / 8, (i / rr) % 8, i % rr)
                } else {
                    0
                },
        decreases first.left - left,
    {
        let mut physical: usize = 0;
        while physical < 8
            invariant
                first.wf(),
                second.wf(),
                third.wf(),
                first.physical == 2,
                second.physical == 2,
                third.physical == 2,
                first.right == second.left,
                second.right == third.left,
                grouped.wf(),
                grouped.physical == 8,
                grouped.left == first.left,
                grouped.right == third.right,
                left < first.left,
                physical <= 8,
                rr == third.right,
                pr == FIELD_PRIME,
                forall|i: int|
                    0 <= i < grouped.data@.len() ==> #[trigger] grouped.data@[i] == if i < flat_index(
                        8,
                        rr,
                        left as int,
                        physical as int,
                        0,
                    ) {
                        grouped_entry(*first, *second, *third, (i / rr) / 8, (i / rr) % 8, i % rr)
                    } else {
                        0
                    },
            decreases 8 - physical,
        {
            let column = physical % 2;
            let diag_right = (physical / 2) % 2;
            let diag_left = physical / 4;
            let mut right: usize = 0;
            while right < third.right
                invariant
                    first.wf(),
                    second.wf(),
                    third.wf(),
                    first.physical == 2,
                    second.physical == 2,
                    third.physical == 2,
                    first.right == second.left,
                    second.right == third.left,
                    grouped.wf(),
                    grouped.physical == 8,
                    grouped.left == first.left,
                    grouped.right == third.right,
                    left < first.left,
                    physical < 8,
                    column == physical % 2,
                    diag_right == (physical / 2) % 2,
                    diag_left == physical / 4,
                    right <= third.right,
                    rr == third.right,
                    pr == FIELD_PRIME,
                    forall|i: int|
                        0 <= i < grouped.data@.len() ==> #[trigger] grouped.data@[i] == if i < flat_index(
                            8,
                            rr,
                            left as int,
                            physical as int,
                            right as int,
                        ) {
                            grouped_entry(*first, *second, *third, (i / rr) / 8, (i / rr) % 8, i % rr)
                        } else {
                            0
                        },
                decreases third.right - right,
            {
                let mut value: u64 = 0;
                let mut middle_one: usize = 0;
                while middle_one < first.right
                    invariant
                        first.wf(),
                        second.wf(),
                        third.wf(),
                        first.physical == 2,
                        second.physical == 2,
                        third.physical == 2,
                        first.right == second.left,
                        second.right == third.left,
                        left < first.left,
                        physical < 8,
                        column == physical % 2,
                        diag_right == (physical / 2) % 2,
                        diag_left == physical / 4,
                        right < third.right,
                        middle_one <= first.right,
                        value < FIELD_PRIME,
                        pr == FIELD_PRIME,
                        value == outer_sum(
                            *first,
                            *second,
                            *third,
                            left as int,
                            physical as int,
                            right as int,
                            middle_one as int,
                        ) % pr,
                    decreases first.right - middle_one,
                {
                    let mut middle_two: usize = 0;
                    proof {
                        vstd::arithmetic::div_mod::lemma_mod_twice(
                            outer_sum(*first, *second, *third, left as int, physical as int, right as int, middle_one as int),
                            pr,
                        );
                    }
                    while middle_two < second.right
                        invariant
                            first.wf(),
                            second.wf(),
                            third.wf(),
                            first.physical == 2,
                            second.physical == 2,
                            third.physical == 2,
                            first.right == second.left,
                            second.right == third.left,
                            left < first.left,
                            physical < 8,
                            column == physical % 2,
                            diag_right == (physical / 2) % 2,
                            diag_left == physical / 4,
                            right < third.right,
                            middle_one < first.right,
                            middle_two <= second.right,
                            value < FIELD_PRIME,
                            pr == FIELD_PRIME,
                            value == (outer_sum(
                                *first,
                                *second,
                                *third,
                                left as int,
                                physical as int,
                                right as int,
                                middle_one as int,
                            ) + inner_sum(
                                *first,
                                *second,
                                *third,
                                left as int,
                                physical as int,
                                right as int,
                                middle_one as int,
                                middle_two as int,
                            )) % pr,
                        decreases second.right - middle_two,
                    {
                        let a = first.get(left, column, middle_one);
                        let b = second.get(middle_one, diag_right, middle_two);
                        let c = third.get(middle_two, diag_left, right);
                        let ghost x = outer_sum(
                            *first,
                            *second,
                            *third,
                            left as int,
                            physical as int,
                            right as int,
                            middle_one as int,
                        ) + inner_sum(
                            *first,
                            *second,
                            *third,
                            left as int,
                            physical as int,
                            right as int,
                            middle_one as int,
                            middle_two as int,
                        );
                        let ghost term = triple_term(
                            *first,
                            *second,
                            *third,
                            left as int,
                            physical as int,
                            right as int,
                            middle_one as int,
                            middle_two as int,
                        );
                        proof {
                            assert(term == (a as int) * (b as int) * (c as int));
                            lemma_mul_mod_noop_left((a as int) * (b as int), c as int, pr);
                            lemma_add_mod_noop(x, term, pr);
                            vstd::arithmetic::div_mod::lemma_mod_twice(term, pr);
                        }
                        value = self::add(value, self::mul(self::mul(a, b), c));
                        middle_two = middle_two + 1;
                    }
                    middle_one = middle_one + 1;
                }
                let ghost position = flat_index(8, rr, left as int, physical as int, right as int);
                let ghost before = grouped.data@;
                proof {
                    lemma_flat_index(first.left as int, 8, rr, left as int, physical as int, right as int);
                    lemma_flat_decode(rr, left as int, physical as int, right as int);
                    vstd::arithmetic::div_mod::lemma_small_mod(value as nat, pr as nat);
                }
                grouped.add_at(left, physical, right, value);
                right = right + 1;
                proof {
                    assert(flat_index(8, rr, left as int, physical as int, right as int) == position + 1);
                    assert forall|i: int| 0 <= i < grouped.data@.len() implies #[trigger] grouped.data@[i] == if i
                        < flat_index(8, rr, left as int, physical as int, right as int) {
                        grouped_entry(*first, *second, *third, (i / rr) / 8, (i / rr) % 8, i % rr)
                    } else {
                        0
                    } by {
                        if i != position {
                            assert(grouped.data@[i] == before[i]);
                        }
                    }
                }
            }
            proof {
                assert(flat_index(8, rr, left as int, physical as int, rr) == flat_index(
                    8,
                    rr,
                    left as int,
                    physical + 1,
                    0,
                )) by (nonlinear_arith);
            }
            physical = physical + 1;
        }
        proof {
            assert(flat_index(8, rr, left as int, 8, 0) == flat_index(8, rr, left + 1, 0, 0)) by (nonlinear_arith);
        }
        left = left + 1;
    }
    proof {
        assert forall|l: int, q: int, r: int|
            0 <= l < first.left && 0 <= q < 8 && 0 <= r < third.right implies grouped.data@[#[trigger] flat_index(
            8,
            third.right as int,
            l,
            q,
            r,
        )] == grouped_entry(*first, *second, *third, l, q, r) by {
            lemma_flat_index(first.left as int, 8, rr, l, q, r);
            lemma_flat_decode(rr, l, q, r);
            assert(flat_index(8, rr, l, q, r) < flat_index(8, rr, first.left as int, 0, 0)) by (nonlinear_arith)
                requires
                    0 <= l < first.left,
                    0 <= q < 8,
                    0 <= r < rr,
            ;
        }
    }
    Ok(grouped)
}


/// The position of `target` among the labels.
fn find_label(labels: &Vec<QubitLabel>, target: QubitLabel) -> (position: Option<usize>)
    ensures
        position matches Some(i) ==> i < labels@.len() && labels@[i as int] == target,
        position is None ==> forall|i: int| 0 <= i < labels@.len() ==> labels@[i] != target,
{
    let mut i: usize = 0;
    while i < labels.len()
        invariant
            i <= labels@.len(),
            forall|k: int| 0 <= k < i ==> labels@[k] != target,
        decreases labels@.len() - i,
    {
        if labels[i] == target {
            return Some(i);
        }
        i = i + 1;
    }
    None
}

/// Move the diagonal signals one column on: the down-right signal leaving
/// the last column and the down-left signal leaving the first are summed out,
/// fresh zero signals enter at the other ends, and the qubits are permuted
/// into the order of the next row before being grouped into sites again.
fn shift_diagonals(mps: Mps, n: usize) -> (shifted: Result<Mps, String>)
    requires
        sites_wf(mps.sites@),
        mps.sites@.len() == n,
        n >= 1,
    ensures
        shifted matches Ok(result) ==> sites_wf(result.sites@) && result.sites@.len() == n && forall|i: int|
            0 <= i < n ==> (#[trigger] result.sites@[i]).physical == 8,
{
    let (mut qubits, mut labels) = split_all(mps)?;
    let down_right = match find_label(&labels, QubitLabel::DiagRight(n - 1)) {
        Some(position) => position,
        None => {
            proof {
                assert(labels_split(labels@, n - 1));
                assert(labels@[3 * (n - 1) + 1] == QubitLabel::DiagRight((n - 1) as usize));
            }
            return Err(message("last down-right leg is missing"));
        },
    };
    let down_left = match find_label(&labels, QubitLabel::DiagLeft(0)) {
        Some(position) => position,
        None => {
            proof {
                assert(labels_split(labels@, 0));
                assert(labels@[2] == QubitLabel::DiagLeft(0));
            }
            return Err(message("first down-left leg is missing"));
        },
    };
    let (first, second) = if down_right > down_left {
        (down_right, down_left)
    } else {
        (down_left, down_right)
    };
    assert(first != second);
    remove_with_ones(&mut qubits, first)?;
    labels.remove(first);
    remove_with_ones(&mut qubits, second)?;
    labels.remove(second);
    append_fixed_zero(&mut qubits)?;
    labels.push(QubitLabel::NewDiagRight);
    append_fixed_zero(&mut qubits)?;
    labels.push(QubitLabel::NewDiagLeft);
    let mut target: Vec<QubitLabel> = Vec::new();
    let mut column: usize = 0;
    while column < n
        invariant
            column <= n,
            target@.len() == 3 * column,
        decreases n - column,
    {
        target.push(QubitLabel::Column(column));
        target.push(if column == 0 {
            QubitLabel::NewDiagRight
        } else {
            QubitLabel::DiagRight(column - 1)
        });
        target.push(if column + 1 == n {
            QubitLabel::NewDiagLeft
        } else {
            QubitLabel::DiagLeft(column + 1)
        });
        column = column + 1;
    }
    let mut target_index: usize = 0;
    while target_index < target.len()
        invariant
            target_index <= target@.len(),
            qubits_wf(qubits.sites@),
            qubits.sites@.len() == labels@.len(),
            labels@.len() == 3 * n,
        decreases target@.len() - target_index,
    {
        let mut current = match find_label(&labels, target[target_index]) {
            Some(position) => position,
            None => {
                return Err(message("diagonal permutation lost a qubit label"));
            },
        };
        while current > target_index
            invariant
                current < labels@.len(),
                qubits_wf(qubits.sites@),
                qubits.sites@.len() == labels@.len(),
                labels@.len() == 3 * n,
            decreases current,
        {
            swap_adjacent(&mut qubits, current - 1)?;
            let moved = labels[current];
            let displaced = labels[current - 1];
            labels.set(current - 1, moved);
            labels.set(current, displaced);
            current = current - 1;
        }
        target_index = target_index + 1;
    }
    let mut grouped: Vec<Tensor3> = Vec::new();
    let total = qubits.sites.len();
    let mut column: usize = 0;
    while column < n
        invariant
            column <= n,
            qubits_wf(qubits.sites@),
            qubits.sites@.len() == 3 * n,
            total == qubits.sites@.len(),
            grouped@.len() == column,
            sites_wf(grouped@),
            forall|i: int| 0 <= i < column ==> (#[trigger] grouped@[i]).physical == 8,
        decreases n - column,
    {
        let site = group_three(&qubits.sites[3 * column], &qubits.sites[3 * column + 1], &qubits.sites[3 * column + 2])?;
        grouped.push(site);
        column = column + 1;
    }
    let mut result = Mps { sites: grouped };
    compress_all(&mut result)?;
    Ok(result)
}

/// Close the last row: sum every site's physical index over the states whose
/// column signal is set, and contract the bonds left to right.
/// The bond entering site `i` of a chain that starts from a scalar.
pub open spec fn chain_left(sites: Seq<Tensor3>, i: int) -> usize {
    if i == 0 {
        1
    } else {
        sites[i - 1].right
    }
}

/// The sites of `sites` below `upto` have eight physical values and bonds
/// that chain from a scalar left boundary.
pub open spec fn chain_ok(sites: Seq<Tensor3>, upto: int) -> bool {
    forall|i: int| 0 <= i < upto ==> (#[trigger] sites[i]).physical == 8 && sites[i].left == chain_left(sites, i)
}

/// The entries of `site` at left index `l` and right index `r` over the odd
/// physical values below `q`.
pub open spec fn odd_sum(site: Tensor3, l: int, r: int, q: int) -> int
    decreases q,
{
    if q <= 1 {
        0
    } else {
        odd_sum(site, l, r, q - 2) + site.data@[flat_index(8, site.right as int, l, q - 2, r)] as int
    }
}

/// `sum_{l < upto} v[l] * odd_sum(site, l, r, 9)`.
pub open spec fn site_step(v: Seq<int>, site: Tensor3, upto: int, r: int) -> int
    decreases upto,
{
    if upto <= 0 {
        0
    } else {
        site_step(v, site, upto - 1, r) + v[upto - 1] * odd_sum(site, upto - 1, r, 9)
    }
}

/// The boundary vector after the first `s` sites, starting from the scalar
/// one: at each site, over the left bond and the odd physical values, the
/// incoming component times the entry, modulo the field prime.
pub open spec fn boundary_vector(sites: Seq<Tensor3>, s: int) -> Seq<int>
    decreases s,
{
    if s <= 0 {
        seq![1int]
    } else {
        let v = boundary_vector(sites, s - 1);
        let site = sites[s - 1];
        Seq::new(site.right as nat, |r: int| site_step(v, site, site.left as int, r) % (FIELD_PRIME as int))
    }
}

fn final_boundary_contraction(mps: &Mps) -> (value: Result<u64, String>)
    requires
        sites_wf(mps.sites@),
    ensures
        value matches Ok(v) ==> v < FIELD_PRIME,
        value is Ok <==> chain_ok(mps.sites@, mps.sites@.len() as int) && chain_left(
            mps.sites@,
            mps.sites@.len() as int,
        ) == 1,
        value matches Ok(v) ==> v == boundary_vector(mps.sites@, mps.sites@.len() as int)[0],
{
    let mut vector: Vec<u64> = vec![1];
    let mut s: usize = 0;
    while s < mps.sites.len()
        invariant
            sites_wf(mps.sites@),
            s <= mps.sites@.len(),
            field_values(vector@),
            chain_ok(mps.sites@, s as int),
            vector@.len() == chain_left(mps.sites@, s as int),
            vector@.len() == boundary_vector(mps.sites@, s as int).len(),
            forall|i: int| 0 <= i < vector@.len() ==> #[trigger] vector@[i] as int == boundary_vector(mps.sites@, s as int)[i],
        decreases mps.sites@.len() - s,
    {
        let site = &mps.sites[s];
        if vector.len() != site.left || site.physical != 8 {
            proof {
                assert(!chain_ok(mps.sites@, mps.sites@.len() as int)) by {
                    assert(mps.sites@[s as int] == *site);
                }
            }
            return Err(message("final MPS contraction shape mismatch"));
        }
        let ghost v = boundary_vector(mps.sites@, s as int);
        let ghost pr = FIELD_PRIME as int;
        let mut next = zero_vector(site.right);
        let mut left: usize = 0;
        proof {
            assert forall|r: int| 0 <= r < next@.len() implies #[trigger] next@[r] as int == site_step(v, *site, 0, r)
                % pr by {
                vstd::arithmetic::div_mod::lemma_small_mod(0, pr as nat);
            }
        }
        while left < site.left
            invariant
                site.wf(),
                site.physical == 8,
                vector@.len() == site.left,
                field_values(vector@),
                next@.len() == site.right,
                field_values(next@),
                left <= site.left,
                pr == FIELD_PRIME,
                v.len() == vector@.len(),
                forall|i: int| 0 <= i < vector@.len() ==> #[trigger] vector@[i] as int == v[i],
                forall|r: int| 0 <= r < next@.len() ==> #[trigger] next@[r] as int == site_step(v, *site, left as int, r)
                    % pr,
            decreases site.left - left,
        {
            let mut physical: usize = 1;
            proof {
                assert forall|r: int| 0 <= r < next@.len() implies #[trigger] next@[r] as int == (site_step(
                    v,
                    *site,
                    left as int,
                    r,
                ) + v[left as int] * odd_sum(*site, left as int, r, 1)) % pr by {
                    assert(v[left as int] * 0 == 0) by (nonlinear_arith);
                }
            }
            while physical < 8
                invariant
                    site.wf(),
                    site.physical == 8,
                    vector@.len() == site.left,
                    field_values(vector@),
                    next@.len() == site.right,
                    field_values(next@),
                    left < site.left,
                    physical <= 9,
                    physical % 2 == 1,
                    pr == FIELD_PRIME,
                    v.len() == vector@.len(),
                    forall|i: int| 0 <= i < vector@.len() ==> #[trigger] vector@[i] as int == v[i],
                    forall|r: int| 0 <= r < next@.len() ==> #[trigger] next@[r] as int == (site_step(
                        v,
                        *site,
                        left as int,
                        r,
                    ) + v[left as int] * odd_sum(*site, left as int, r, physical as int)) % pr,
                decreases 9 - physical,
            {
                let mut right: usize = 0;
                while right < site.right
                    invariant
                        site.wf(),
                        site.physical == 8,
                        vector@.len() == site.left,
                        field_values(vector@),
                        next@.len() == site.right,
                        field_values(next@),
                        left < site.left,
                        physical < 8,
                        physical % 2 == 1,
                        right <= site.right,
                        pr == FIELD_PRIME,
                        v.len() == vector@.len(),
                        forall|i: int| 0 <= i < vector@.len() ==> #[trigger] vector@[i] as int == v[i],
                        forall|r: int| 0 <= r < right ==> #[trigger] next@[r] as int == (site_step(
                            v,
                            *site,
                            left as int,
                            r,
                        ) + v[left as int] * odd_sum(*site, left as int, r, physical + 2)) % pr,
                        forall|r: int| right <= r < next@.len() ==> #[trigger] next@[r] as int == (site_step(
                            v,
                            *site,
                            left as int,
                            r,
                        ) + v[left as int] * odd_sum(*site, left as int, r, physical as int)) % pr,
                    decreases site.right - right,
                {
                    let entry = site.get(left, physical, right);
                    let ghost x = site_step(v, *site, left as int, right as int) + v[left as int] * odd_sum(
                        *site,
                        left as int,
                        right as int,
                        physical as int,
                    );
                    let ghost vl = v[left as int];
                    proof {
                        assert(odd_sum(*site, left as int, right as int, physical + 2) == odd_sum(
                            *site,
                            left as int,
                            right as int,
                            physical as int,
                        ) + entry as int);
                        assert(vl * (odd_sum(*site, left as int, right as int, physical as int) + entry as int) == vl
                            * odd_sum(*site, left as int, right as int, physical as int) + vl * entry) by (nonlinear_arith);
                        lemma_add_mod_noop(x, vl * entry, pr);
                        vstd::arithmetic::div_mod::lemma_mod_twice(x, pr);
                        vstd::arithmetic::div_mod::lemma_mod_twice(vl * entry, pr);
                    }
                    let updated = self::add(next[right], self::mul(vector[left], entry));
                    next.set(right, updated);
                    right = right + 1;
                }
                physical = physical + 2;
            }
            proof {
                assert forall|r: int| 0 <= r < next@.len() implies #[trigger] next@[r] as int == site_step(
                    v,
                    *site,
                    left + 1,
                    r,
                ) % pr by {
                    assert(physical == 9);
                }
            }
            left = left + 1;
        }
        proof {
            assert(mps.sites@[s as int] == *site);
            assert forall|i: int| 0 <= i < next@.len() implies #[trigger] next@[i] as int == boundary_vector(
                mps.sites@,
                s + 1,
            )[i] by {
                assert(left == site.left);
            }
        }
        vector = next;
        s = s + 1;
    }
    if vector.len() != 1 {
        return Err(message("final MPS right boundary is not scalar"));
    }
    proof {
        assert(vector@.len() > 0);
    }
    Ok(vector[0])
}

/// The largest bond of the state, one for a state without sites.
fn max_bond_rank(mps: &Mps) -> (rank: usize)
    ensures
        mps.sites@.len() == 0 ==> rank == 1,
        forall|i: int| 0 <= i < mps.sites@.len() ==> (#[trigger] mps.sites@[i]).right <= rank,
        mps.sites@.len() > 0 ==> exists|i: int| 0 <= i < mps.sites@.len() && (#[trigger] mps.sites@[i]).right == rank,
{
    if mps.sites.len() == 0 {
        return 1;
    }
    let mut rank = mps.sites[0].right;
    let mut i: usize = 1;
    while i < mps.sites.len()
        invariant
            1 <= i <= mps.sites@.len(),
            forall|k: int| 0 <= k < i ==> (#[trigger] mps.sites@[k]).right <= rank,
            exists|k: int| 0 <= k < i && (#[trigger] mps.sites@[k]).right == rank,
        decreases mps.sites@.len() - i,
    {
        if mps.sites[i].right > rank {
            rank = mps.sites[i].right;
        }
        i = i + 1;
    }
    rank
}

/// Bond ranks of one row of the MPS contraction.
#[derive(Clone, Copy, Debug)]
pub struct MpsLayerMetric {
    pub row: usize,
    pub max_bond_rank_after_mpo: usize,
    pub max_bond_rank_after_shift: usize,
}

/// The count modulo the field prime and the work of the MPS contraction.
#[derive(Debug)]
pub struct ExactMpsResult {
    pub n: usize,
    pub count_mod_prime: u64,
    pub elapsed: Duration,
    pub peak_rss_bytes: u64,
    pub tensor_entries_examined: u128,
    pub tensor_entries_accepted: u128,
    pub layers: Vec<MpsLayerMetric>,
}

/// Contract the board of side `n` as a matrix product state over the field,
/// applying one row MPO and one diagonal shift per row with exact rank
/// compression after each.
pub fn contract_exact_mps(n: usize) -> (result: Result<ExactMpsResult, String>)
    ensures
        n == 0 ==> (result matches Ok(r) && r.count_mod_prime == 1 && r.layers@.len() == 0
            && r.tensor_entries_examined == 0 && r.tensor_entries_accepted == 0),
        result matches Ok(r) ==> {
            &&& r.n == n
            &&& r.count_mod_prime < FIELD_PRIME
            &&& r.layers@.len() == n
            &&& forall|i: int| 0 <= i < n ==> (#[trigger] r.layers@[i]).row == i
            &&& r.tensor_entries_accepted <= r.tensor_entries_examined
        },
{
    if n == 0 {
        return Ok(
            ExactMpsResult {
                n,
                count_mod_prime: 1,
                elapsed: zero_duration(),
                peak_rss_bytes: peak_rss_bytes(),
                tensor_entries_examined: 0,
                tensor_entries_accepted: 0,
                layers: Vec::new(),
            },
        );
    }
    let start = now();
    let mut sites: Vec<Tensor3> = Vec::new();
    let mut column: usize = 0;
    while column < n
        invariant
            column <= n,
            sites@.len() == column,
            sites_wf(sites@),
        decreases n - column,
    {
        let mut site = Tensor3::zeros(1, 8, 1)?;
        site.add_at(0, 0, 0, 1);
        sites.push(site);
        column = column + 1;
    }
    let mut boundary = Mps { sites };
    let mut layers: Vec<MpsLayerMetric> = Vec::new();
    let mut count: u64 = 0;
    let mut tensor_entries_examined: u128 = 0;
    let mut tensor_entries_accepted: u128 = 0;
    let mut row: usize = 0;
    while row < n
        invariant
            n >= 1,
            row <= n,
            sites_wf(boundary.sites@),
            boundary.sites@.len() == n,
            layers@.len() == row,
            forall|i: int| 0 <= i < row ==> (#[trigger] layers@[i]).row == i,
            count < FIELD_PRIME,
            tensor_entries_accepted <= tensor_entries_examined,
        decreases n - row,
    {
        let (after_mpo, row_examined, row_accepted) = apply_row_mpo(&boundary, n, row)?;
        tensor_entries_examined = match tensor_entries_examined.checked_add(row_examined) {
            Some(v) => v,
            None => {
                return Err(message("MPS entry counter overflow"));
            },
        };
        tensor_entries_accepted = match tensor_entries_accepted.checked_add(row_accepted) {
            Some(v) => v,
            None => {
                return Err(message("MPS entry counter overflow"));
            },
        };
        let mpo_rank = max_bond_rank(&after_mpo);
        if row + 1 == n {
            count = final_boundary_contraction(&after_mpo)?;
            layers.push(MpsLayerMetric { row, max_bond_rank_after_mpo: mpo_rank, max_bond_rank_after_shift: 1 });
        } else {
            boundary = shift_diagonals(after_mpo, n)?;
            layers.push(
                MpsLayerMetric {
                    row,
                    max_bond_rank_after_mpo: mpo_rank,
                    max_bond_rank_after_shift: max_bond_rank(&boundary),
                },
            );
        }
        row = row + 1;
    }
    Ok(
        ExactMpsResult {
            n,
            count_mod_prime: count,
            elapsed: elapsed(&start),
            peak_rss_bytes: peak_rss_bytes(),
            tensor_entries_examined,
            tensor_entries_accepted,
            layers,
        },
    )
}

} // verus!
