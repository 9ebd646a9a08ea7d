//! One-row transfer operators: the row MPO partially evaluated from the
//! explicit `C`, applied densely over all columns or sparsely over the legal
//! queen positions, and the first-row reflection-orbit slicing.
use vstd::prelude::*;

use crate::boundary::{
    BoundaryState, bit, board_mask, board_mask_spec, has_bit, replace_bit, state_fits,
};
use crate::tensor::{
    CEntry, SiteTensorC, VirtualLegs, input_key, legs_binary, occupied_legs, sec_vi_c,
};
use crate::transfer::{
    available_spec, cell_free, lemma_available_bit, lemma_lowest_bit, lemma_scan_bounds,
    lemma_scan_step, lemma_successors_len, lemma_successors_skip, lemma_trailing_zeros_of_bit,
    low_mask, orbit_weight, place, row_successors, row_successors_upto, with_weight,
};
use crate::util::message;
use vstd::std_specs::bits::{axiom_u64_trailing_zeros, u64_trailing_zeros};

verus! {

/// Work counters of one row contraction.
#[derive(Debug)]
pub struct RowCounters {
    pub tensor_examined: u128,
    pub tensor_matched: u128,
    pub operator_candidates: u128,
    pub operator_matched: u128,
}

impl RowCounters {
    pub fn new() -> (counters: Self)
        ensures
            counters.tensor_examined == 0,
            counters.tensor_matched == 0,
            counters.operator_candidates == 0,
            counters.operator_matched == 0,
    {
        RowCounters { tensor_examined: 0, tensor_matched: 0, operator_candidates: 0, operator_matched: 0 }
    }
}

impl Default for RowCounters {
    fn default() -> (counters: Self)
        ensures
            counters.tensor_examined == 0,
            counters.tensor_matched == 0,
            counters.operator_candidates == 0,
            counters.operator_matched == 0,
    {
        RowCounters::new()
    }
}

/// The row transfer compiled from `C`: the unique occupied entry.
#[derive(Debug)]
pub struct CompiledRowOperator {
    occupied: CEntry,
}

/// The occupied entry of `C`.
pub open spec fn occupied_entry() -> CEntry {
    CEntry { legs: occupied_legs(), value: 1 }
}

/// Every leg of `legs` passes its incoming signal through unchanged.
pub open spec fn is_passthrough(legs: VirtualLegs) -> bool {
    legs.column_in == legs.column_out && legs.row_in == legs.row_out && legs.diag_dr_in
        == legs.diag_dr_out && legs.diag_dl_in == legs.diag_dl_out
}

impl CompiledRowOperator {
    #[verifier::type_invariant]
    spec fn inv(self) -> bool {
        self.occupied == occupied_entry()
    }

    pub closed spec fn spec_occupied(self) -> CEntry {
        self.occupied
    }

    pub fn occupied(&self) -> (entry: CEntry)
        ensures
            entry == self.spec_occupied(),
            entry == occupied_entry(),
    {
        proof {
            use_type_invariant(self);
        }
        self.occupied
    }

    /// Partially evaluate the horizontal row MPO from the explicit sparse C.
    ///
    /// Compilation succeeds only for the exact Sec. VI structure: one
    /// identity pass-through entry for every incoming signature and one
    /// all-channel 0->1 emission entry. If C changes, this specialization
    /// fails closed instead of silently becoming a handwritten recurrence.
    pub fn compile(tensor: &SiteTensorC) -> (operator: Result<Self, String>)
        ensures
            operator is Ok,
            operator matches Ok(op) ==> op.spec_occupied() == occupied_entry(),
    {
        let entries = tensor.entries();
        let mut passthrough: Vec<bool> = vec![false; 16];
        let mut occupied: Option<CEntry> = None;
        let mut i: usize = 0;
        while i < entries.len()
            invariant
                i <= 17,
                entries@ == sec_vi_c(),
                passthrough@.len() == 16,
                forall|k: int|
                    0 <= k < 16 ==> #[trigger] passthrough@[k] == (k < if i <= 8 {
                        i as int
                    } else {
                        i - 1
                    }),
                occupied == if i <= 8 {
                    None::<CEntry>
                } else {
                    Some(occupied_entry())
                },
            decreases 17 - i,
        {
            let entry = entries[i];
            let legs = entry.legs;
            let is_passthrough = legs.column_in == legs.column_out && legs.row_in == legs.row_out
                && legs.diag_dr_in == legs.diag_dr_out && legs.diag_dl_in == legs.diag_dl_out;
            let is_occupied = legs.column_in == 0 && legs.column_out == 1 && legs.row_in == 0
                && legs.row_out == 1 && legs.diag_dr_in == 0 && legs.diag_dr_out == 1
                && legs.diag_dl_in == 0 && legs.diag_dl_out == 1;
            if entry.value != 1 {
                return Err(message("compiled row operator requires unit Sec. VI coefficients"));
            }
            if is_passthrough {
                let key = input_key(legs.column_in, legs.row_in, legs.diag_dr_in, legs.diag_dl_in);
                assert(key == if i < 8 {
                    i as int
                } else {
                    i - 1
                });
                if passthrough[key] {
                    return Err(message("duplicate C pass-through signature"));
                }
                passthrough.set(key, true);
            } else if is_occupied {
                if occupied.is_some() {
                    return Err(message("multiple occupied C entries"));
                }
                occupied = Some(entry);
            } else {
                return Err(message("C contains an entry outside the Sec. VI row automaton"));
            }
            i = i + 1;
        }
        let mut k: usize = 0;
        while k < 16
            invariant
                k <= 16,
                passthrough@.len() == 16,
                forall|j: int| 0 <= j < 16 ==> #[trigger] passthrough@[j],
            decreases 16 - k,
        {
            if !passthrough[k] {
                return Err(message("C is missing a pass-through signature"));
            }
            k = k + 1;
        }
        match occupied {
            Some(entry) => Ok(CompiledRowOperator { occupied: entry }),
            None => Err(message("C is missing the occupied entry")),
        }
    }
}

/// Room for `amount` more increments in a work counter.
pub open spec fn counter_room(counter: u128, amount: int) -> bool {
    counter + amount <= u128::MAX
}

pub proof fn lemma_place_bits(n: nat, state: BoundaryState, c: nat)
    requires
        n < 64,
        c < n,
    ensures
        place(n, state, c).columns == state.columns | (1u64 << (c as u64)),
        place(n, state, c).diag_dr == ((state.diag_dr | (1u64 << (c as u64))) << 1u64) & board_mask_spec(n),
        place(n, state, c).diag_dl == (state.diag_dl | (1u64 << (c as u64))) >> 1u64,
{
}

/// Apply the exact row transfer produced by partial evaluation of C.
///
/// The formula below is valid only because `CompiledRowOperator::compile`
/// verified every empty C entry is an identity pass-through and extracted the
/// unique occupied C entry. Geometry only shifts diagonal outgoing signals to
/// their positions on the next row.
pub fn contract_one_row_compiled(
    n: usize,
    operator: &CompiledRowOperator,
    parent: BoundaryState,
    parent_weight: u128,
    counters: &mut RowCounters,
) -> (terms: Result<Vec<(BoundaryState, u128)>, String>)
    requires
        n < 64,
        counter_room(old(counters).operator_candidates, n as int),
        counter_room(old(counters).operator_matched, n as int),
    ensures
        terms matches Ok(v) && v@ == with_weight(row_successors(n as nat, parent), parent_weight),
        final(counters).operator_candidates == old(counters).operator_candidates + n,
        final(counters).operator_matched == old(counters).operator_matched + row_successors(
            n as nat,
            parent,
        ).len(),
        final(counters).tensor_examined == old(counters).tensor_examined,
        final(counters).tensor_matched == old(counters).tensor_matched,
{
    let occupied = operator.occupied();
    let board = board_mask(n);
    let mut outputs: Vec<(BoundaryState, u128)> = Vec::with_capacity(n);
    let mut column: usize = 0;
    while column < n
        invariant
            n < 64,
            column <= n,
            occupied == occupied_entry(),
            board == board_mask_spec(n as nat),
            outputs@ == with_weight(row_successors_upto(n as nat, parent, column as nat), parent_weight),
            counters.operator_candidates == old(counters).operator_candidates + column,
            counters.operator_matched == old(counters).operator_matched + row_successors_upto(
                n as nat,
                parent,
                column as nat,
            ).len(),
            row_successors_upto(n as nat, parent, column as nat).len() <= column,
            counters.tensor_examined == old(counters).tensor_examined,
            counters.tensor_matched == old(counters).tensor_matched,
            counter_room(old(counters).operator_candidates, n as int),
            counter_room(old(counters).operator_matched, n as int),
        decreases n - column,
    {
        counters.operator_candidates = counters.operator_candidates + 1;
        let legs = occupied.legs;
        if bit(parent.columns, column) != legs.column_in || bit(parent.diag_dr, column)
            != legs.diag_dr_in || bit(parent.diag_dl, column) != legs.diag_dl_in {
            assert(!cell_free(parent, column as nat));
            assert(row_successors_upto(n as nat, parent, column as nat + 1) =~= row_successors_upto(
                n as nat,
                parent,
                column as nat,
            ));
            column = column + 1;
            continue;
        }
        counters.operator_matched = counters.operator_matched + 1;
        let columns_out = replace_bit(parent.columns, column, legs.column_out);
        let diag_dr_at_sites = replace_bit(parent.diag_dr, column, legs.diag_dr_out);
        let diag_dl_at_sites = replace_bit(parent.diag_dl, column, legs.diag_dl_out);
        let weight = match parent_weight.checked_mul(occupied.value) {
            Some(w) => w,
            None => {
                return Err(message("coefficient overflow in compiled row operator"));
            },
        };
        let successor = BoundaryState {
            columns: columns_out,
            diag_dr: (diag_dr_at_sites << 1u64) & board,
            diag_dl: diag_dl_at_sites >> 1u64,
        };
        proof {
            lemma_place_bits(n as nat, parent, column as nat);
            assert(successor == place(n as nat, parent, column as nat));
            assert(row_successors_upto(n as nat, parent, column as nat + 1) =~= row_successors_upto(
                n as nat,
                parent,
                column as nat,
            ).push(successor));
        }
        outputs.push((successor, weight));
        proof {
            assert(outputs@ =~= with_weight(
                row_successors_upto(n as nat, parent, column as nat + 1),
                parent_weight,
            ));
        }
        column = column + 1;
    }
    Ok(outputs)
}


pub(crate) fn matching_bits(mask: u64, required: u8, board: u64) -> (bits: Result<u64, String>)
    ensures
        required == 0 ==> (bits matches Ok(b) && b == !mask & board),
        required == 1 ==> (bits matches Ok(b) && b == mask & board),
        required > 1 ==> bits is Err,
{
    match required {
        0 => Ok((!mask) & board),
        1 => Ok(mask & board),
        _ => Err(message("compiled C entry contains a non-binary incoming signal")),
    }
}

/// The compiled row transfer visiting only the legal queen columns, found as
/// the set bits of one available-column word.
pub fn contract_one_row_compiled_sparse(
    n: usize,
    operator: &CompiledRowOperator,
    parent: BoundaryState,
    parent_weight: u128,
    counters: &mut RowCounters,
) -> (terms: Result<Vec<(BoundaryState, u128)>, String>)
    requires
        n < 64,
        counter_room(old(counters).operator_candidates, n as int),
        counter_room(old(counters).operator_matched, n as int),
    ensures
        terms matches Ok(v) && v@ == with_weight(row_successors(n as nat, parent), parent_weight),
        final(counters).operator_candidates == old(counters).operator_candidates + row_successors(
            n as nat,
            parent,
        ).len(),
        final(counters).operator_matched == old(counters).operator_matched + row_successors(
            n as nat,
            parent,
        ).len(),
        final(counters).tensor_examined == old(counters).tensor_examined,
        final(counters).tensor_matched == old(counters).tensor_matched,
{
    let occupied = operator.occupied();
    let legs = occupied.legs;
    if legs.row_in != 0 {
        return Err(
            message("sparse row iterator requires occupied row_in to match the left v0 boundary"),
        );
    }
    let board = board_mask(n);
    let column_bits = matching_bits(parent.columns, legs.column_in, board)?;
    let dr_bits = matching_bits(parent.diag_dr, legs.diag_dr_in, board)?;
    let dl_bits = matching_bits(parent.diag_dl, legs.diag_dl_in, board)?;
    let mut positions = column_bits & dr_bits & dl_bits;
    let ghost avail = available_spec(n as nat, parent);
    assert(positions == avail);
    proof {
        crate::sitewise::lemma_no_low_bits(avail);
    }
    let mut outputs: Vec<(BoundaryState, u128)> = Vec::new();
    let weight = match parent_weight.checked_mul(occupied.value) {
        Some(w) => w,
        None => {
            return Err(message("coefficient overflow in sparse compiled row operator"));
        },
    };
    let ghost mut k: nat = 0;
    while positions != 0
        invariant
            n < 64,
            k <= n,
            weight == parent_weight,
            occupied == occupied_entry(),
            legs == occupied.legs,
            board == board_mask_spec(n as nat),
            positions == avail & !low_mask(k),
            avail == available_spec(n as nat, parent),
            outputs@ == with_weight(row_successors_upto(n as nat, parent, k), parent_weight),
            counters.operator_candidates == old(counters).operator_candidates + row_successors_upto(
                n as nat,
                parent,
                k,
            ).len(),
            counters.operator_matched == old(counters).operator_matched + row_successors_upto(
                n as nat,
                parent,
                k,
            ).len(),
            counters.tensor_examined == old(counters).tensor_examined,
            counters.tensor_matched == old(counters).tensor_matched,
            counter_room(old(counters).operator_candidates, n as int),
            counter_room(old(counters).operator_matched, n as int),
        decreases positions,
    {
        let negated = 0u64.wrapping_sub(positions);
        let selected = positions & negated;
        proof {
            lemma_lowest_bit(positions, negated);
            lemma_trailing_zeros_of_bit(u64_trailing_zeros(positions) as u64);
            lemma_scan_bounds(avail, positions, k);
        }
        let column = selected.trailing_zeros() as usize;
        let ghost t = column as nat;
        proof {
            assert(t == u64_trailing_zeros(positions));
            assert(k <= t);
            lemma_scan_step(avail, positions, k, t);
            lemma_available_bit(n as nat, parent, t);
            assert forall|c: nat| k <= c < t implies !#[trigger] cell_free(parent, c) by {
                lemma_available_bit(n as nat, parent, c);
            }
            lemma_successors_skip(n as nat, parent, k, t);
            lemma_successors_len(n as nat, parent, t);
            assert(t < n && cell_free(parent, t));
        }
        positions = positions & (positions - 1);
        counters.operator_candidates = counters.operator_candidates + 1;
        counters.operator_matched = counters.operator_matched + 1;
        let columns_out = replace_bit(parent.columns, column, legs.column_out);
        let diag_dr_at_sites = replace_bit(parent.diag_dr, column, legs.diag_dr_out);
        let diag_dl_at_sites = replace_bit(parent.diag_dl, column, legs.diag_dl_out);
        let successor = BoundaryState {
            columns: columns_out,
            diag_dr: (diag_dr_at_sites << 1u64) & board,
            diag_dl: diag_dl_at_sites >> 1u64,
        };
        proof {
            lemma_place_bits(n as nat, parent, t);
            assert(successor == place(n as nat, parent, t));
            assert(row_successors_upto(n as nat, parent, t + 1) =~= row_successors_upto(
                n as nat,
                parent,
                t,
            ).push(successor));
        }
        outputs.push((successor, weight));
        proof {
            k = t + 1;
            assert(outputs@ =~= with_weight(row_successors_upto(n as nat, parent, k), parent_weight));
        }
    }
    proof {
        lemma_scan_bounds(avail, positions, k);
        assert forall|c: nat| k <= c < n implies !#[trigger] cell_free(parent, c) by {
            lemma_available_bit(n as nat, parent, c);
        }
        lemma_successors_skip(n as nat, parent, k, n as nat);
    }
    Ok(outputs)
}

/// How a row is applied: over every column, or over the legal ones only.
#[derive(Clone, Copy, Debug, PartialEq, Eq, Structural)]
pub enum PositionMode {
    Dense,
    Sparse,
}

pub fn contract_one_row_with_position_mode(
    n: usize,
    operator: &CompiledRowOperator,
    parent: BoundaryState,
    parent_weight: u128,
    counters: &mut RowCounters,
    position_mode: PositionMode,
) -> (terms: Result<Vec<(BoundaryState, u128)>, String>)
    requires
        n < 64,
        counter_room(old(counters).operator_candidates, n as int),
        counter_room(old(counters).operator_matched, n as int),
    ensures
        terms matches Ok(v) && v@ == with_weight(row_successors(n as nat, parent), parent_weight),
        final(counters).operator_candidates == old(counters).operator_candidates + if position_mode
            == PositionMode::Dense {
            n as int
        } else {
            row_successors(n as nat, parent).len() as int
        },
        final(counters).operator_matched == old(counters).operator_matched + row_successors(
            n as nat,
            parent,
        ).len(),
        final(counters).tensor_examined == old(counters).tensor_examined,
        final(counters).tensor_matched == old(counters).tensor_matched,
{
    match position_mode {
        PositionMode::Dense => contract_one_row_compiled(n, operator, parent, parent_weight, counters),
        PositionMode::Sparse => contract_one_row_compiled_sparse(
            n,
            operator,
            parent,
            parent_weight,
            counters,
        ),
    }
}

/// The orbit multiplicity of a first-row queen in column `c`, or `None` when
/// the column lies right of the middle and is represented by its mirror.
pub open spec fn orbit_option(n: nat, c: nat) -> Option<u128> {
    if orbit_weight(n, c) == 0 {
        None
    } else {
        Some(orbit_weight(n, c) as u128)
    }
}

/// The first-row queen column of `successor`, read from its column signals.
pub open spec fn first_row_column(successor: BoundaryState) -> nat {
    u64_trailing_zeros(successor.columns) as nat
}

pub fn top_row_vertical_orbit_weight(n: usize, successor: BoundaryState) -> (weight: Option<u128>)
    requires
        first_row_column(successor) < n,
    ensures
        weight == orbit_option(n as nat, first_row_column(successor)),
{
    let column = successor.columns.trailing_zeros() as usize;
    let mirror = n - 1 - column;
    if column > mirror {
        None
    } else if column == mirror {
        Some(1)
    } else {
        Some(2)
    }
}

/// The first-row terms kept by the reflection-orbit slicing, each weighted by
/// its orbit multiplicity.
pub open spec fn top_row_terms(n: nat, terms: Seq<(BoundaryState, u128)>) -> Seq<(BoundaryState, u128)>
    decreases terms.len(),
{
    if terms.len() == 0 {
        Seq::empty()
    } else {
        let (state, weight) = terms.last();
        let w = orbit_weight(n, first_row_column(state));
        top_row_terms(n, terms.drop_last()) + if w == 0 {
            Seq::<(BoundaryState, u128)>::empty()
        } else {
            seq![(state, (weight * w) as u128)]
        }
    }
}

pub proof fn lemma_top_row_terms_len(n: nat, terms: Seq<(BoundaryState, u128)>)
    ensures
        top_row_terms(n, terms).len() <= terms.len(),
    decreases terms.len(),
{
    if terms.len() > 0 {
        lemma_top_row_terms_len(n, terms.drop_last());
    }
}

/// Some kept first-row term overflows `u128` once weighted.
pub open spec fn top_row_overflow(n: nat, terms: Seq<(BoundaryState, u128)>) -> bool {
    exists|i: int|
        0 <= i < terms.len() && #[trigger] terms[i].1 * orbit_weight(n, first_row_column(terms[i].0))
            > u128::MAX
}

pub fn apply_top_row_symmetry(n: usize, row_terms: Vec<(BoundaryState, u128)>) -> (terms: Result<
    Vec<(BoundaryState, u128)>,
    String,
>)
    requires
        forall|i: int| 0 <= i < row_terms@.len() ==> first_row_column(#[trigger] row_terms@[i].0) < n,
    ensures
        terms is Ok <==> !top_row_overflow(n as nat, row_terms@),
        terms matches Ok(v) ==> v@ == top_row_terms(n as nat, row_terms@),
{
    let mut output: Vec<(BoundaryState, u128)> = Vec::new();
    let mut i: usize = 0;
    while i < row_terms.len()
        invariant
            i <= row_terms@.len(),
            forall|j: int| 0 <= j < row_terms@.len() ==> first_row_column(#[trigger] row_terms@[j].0) < n,
            output@ == top_row_terms(n as nat, row_terms@.take(i as int)),
            !top_row_overflow(n as nat, row_terms@.take(i as int)),
        decreases row_terms@.len() - i,
    {
        let (successor, weight) = row_terms[i];
        proof {
            assert(row_terms@.take(i as int + 1).drop_last() =~= row_terms@.take(i as int));
            assert(row_terms@.take(i as int + 1).last() == row_terms@[i as int]);
        }
        match top_row_vertical_orbit_weight(n, successor) {
            None => {
                proof {
                    assert(output@ =~= top_row_terms(n as nat, row_terms@.take(i as int + 1)));
                    assert forall|j: int| 0 <= j < i + 1 implies !(#[trigger] row_terms@.take(i as int + 1)[j].1
                        * orbit_weight(n as nat, first_row_column(row_terms@.take(i as int + 1)[j].0))
                        > u128::MAX) by {
                        if j < i {
                            assert(row_terms@.take(i as int + 1)[j] == row_terms@.take(i as int)[j]);
                        }
                    }
                }
            },
            Some(multiplicity) => {
                match weight.checked_mul(multiplicity) {
                    Some(weighted) => {
                        output.push((successor, weighted));
                        proof {
                            assert(output@ =~= top_row_terms(n as nat, row_terms@.take(i as int + 1)));
                            assert forall|j: int| 0 <= j < i + 1 implies !(#[trigger] row_terms@.take(i as int + 1)[j].1
                                * orbit_weight(n as nat, first_row_column(row_terms@.take(i as int + 1)[j].0))
                                > u128::MAX) by {
                                if j < i {
                                    assert(row_terms@.take(i as int + 1)[j] == row_terms@.take(i as int)[j]);
                                }
                            }
                        }
                    },
                    None => {
                        proof {
                            assert(row_terms@[i as int].1 * orbit_weight(n as nat, first_row_column(row_terms@[i as int].0)) > u128::MAX);
                        }
                        return Err(message("coefficient overflow in D4 orbit weighting"));
                    },
                }
            },
        }
        i = i + 1;
    }
    proof {
        assert(row_terms@.take(i as int) =~= row_terms@);
    }
    Ok(output)
}

} // verus!
