//! Exact small-N future-equivalence diagnostic for the production PEPS frontier.
//!
//! Two frontier states of one row are future-equivalent when the rows below
//! them complete them to the same weighted counts. The quotient is built
//! backward from the accepting last row: the signature of a state is the
//! weighted multiset of the classes of its successors, and states with equal
//! signatures share a class whose value is the signature's weighted sum.
use vstd::prelude::*;

use crate::boundary::{
    BoundaryState, PackedBoundary, board_mask, board_mask_spec, empty_state, lemma_pack_round_trip,
    lemma_unpack_fits, pack_spec, state_fits, unpack_spec,
};
use crate::contract::{keys_sorted, keys_strictly_sorted, reduce_sorted_candidates, sort_by_packed_key};
use crate::row::{
    CompiledRowOperator, RowCounters, apply_top_row_symmetry, contract_one_row_compiled,
    first_row_column, top_row_terms,
};
use crate::tensor::SiteTensorC;
use crate::transfer::{
    accept, board_count, indicator, key_paths, lemma_empty_successors, lemma_expand_parent,
    lemma_first_row_column, lemma_top_row_sum, lemma_weighted_sum_concat,
    lemma_weighted_sum_permutation, orbit_sum, orbit_weight, pack_terms, paths, rooted,
    row_successors, weighted_successors, weighted_sum, with_weight,
};
use crate::util::{elapsed, message, message_with_number, now, peak_rss_bytes, zero_duration};
use std::time::Duration;

verus! {

broadcast use crate::mirror::lemma_orbit_count_exact;

/// The packed successor terms of the frontier `key` below row `row`; with
/// `slice_top` the first row is sliced by vertical-reflection orbits.
pub open spec fn successor_terms(n: nat, row: nat, key: u128, slice_top: bool) -> Seq<
    (PackedBoundary, u128),
> {
    let plain = with_weight(row_successors(n, unpack_spec(key, n)), 1);
    if row == 0 && slice_top {
        pack_terms(top_row_terms(n, plain), n)
    } else {
        pack_terms(plain, n)
    }
}

/// The packed empty frontier above the first row.
pub open spec fn initial_key(n: nat) -> u128 {
    pack_spec(empty_state(), n)
}

/// The number of completions of the frontier `key` entering row `row`: the
/// weighted paths through the remaining rows to an accepted last frontier.
pub open spec fn frontier_value(n: nat, row: nat) -> spec_fn(u128) -> nat {
    key_paths(n, (n - row) as nat, accept(n))
}

/// A class value read from a list of class values; out-of-range classes are
/// worth nothing.
pub open spec fn class_value(values: Seq<u128>) -> spec_fn(u128) -> nat {
    |key: u128| if key < values.len() {
        values[key as int] as nat
    } else {
        0nat
    }
}

/// The keys of `terms` are class numbers below `bound`.
pub open spec fn keys_below(terms: Seq<(PackedBoundary, u128)>, bound: nat) -> bool {
    forall|i: int| 0 <= i < terms.len() ==> (#[trigger] terms[i]).0.0 < bound
}

/// The keys of `keys` strictly increase.
pub open spec fn states_strictly_sorted(keys: Seq<PackedBoundary>) -> bool {
    forall|i: int, j: int| 0 <= i < j < keys.len() ==> keys[i].0 < keys[j].0
}

proof fn lemma_state_fits_empty(n: nat)
    requires
        n <= 42,
    ensures
        state_fits(empty_state(), n),
{
    let nn = n as u64;
    assert(0u64 >> nn == 0) by (bit_vector);
}

/// Below a row other than a sliced first row, the successors of a frontier
/// complete it exactly as the frontier itself is completed.
pub proof fn lemma_successor_value(n: nat, row: nat, key: u128, slice_top: bool)
    requires
        1 <= n <= 42,
        row < n,
        !(row == 0 && slice_top),
    ensures
        weighted_sum(successor_terms(n, row, key, slice_top), frontier_value(n, row + 1))
            == frontier_value(n, row)(key),
{
    let state = unpack_spec(key, n);
    lemma_unpack_fits(key, n);
    lemma_expand_parent(n, state, 1, (n - row - 1) as nat, accept(n));
    assert(successor_terms(n, row, key, slice_top) == pack_terms(weighted_successors(n, state, 1), n));
    assert((n - (row + 1)) as nat == (n - row - 1) as nat);
    assert((n - row) as nat == ((n - row - 1) as nat + 1) as nat);
}

/// The sliced successors of the empty frontier count every board once.
pub proof fn lemma_first_row_value(n: nat)
    requires
        1 <= n <= 42,
    ensures
        weighted_sum(successor_terms(n, 0, initial_key(n), true), frontier_value(n, 1)) == board_count(
            n,
            true,
        ),
{
    lemma_state_fits_empty(n);
    lemma_pack_round_trip(empty_state(), n);
    lemma_top_row_sum(n, (n - 1) as nat, accept(n), n);
    assert(successor_terms(n, 0, initial_key(n), true) == pack_terms(
        top_row_terms(n, with_weight(crate::transfer::row_successors_upto(n, empty_state(), n), 1)),
        n,
    ));
}

/// The packed successor terms of `state` below row `row`.
fn successors(
    n: usize,
    row: usize,
    operator: &CompiledRowOperator,
    state: PackedBoundary,
    apply_d4_top_slice: bool,
) -> (terms: Result<Vec<(PackedBoundary, u128)>, String>)
    requires
        1 <= n <= 42,
        row == 0 && apply_d4_top_slice ==> state.0 == initial_key(n as nat),
    ensures
        terms matches Ok(v) && v@ == successor_terms(n as nat, row as nat, state.0, apply_d4_top_slice),
        terms matches Ok(v) ==> v@.len() <= n,
{
    let mut counters = RowCounters::new();
    let parent = state.unpack(n);
    let mut terms = contract_one_row_compiled(n, operator, parent, 1, &mut counters)?;
    proof {
        crate::transfer::lemma_successors_len(n as nat, parent, n as nat);
    }
    let ghost plain = terms@;
    if row == 0 && apply_d4_top_slice {
        proof {
            lemma_state_fits_empty(n as nat);
            lemma_pack_round_trip(empty_state(), n as nat);
            assert(parent == empty_state());
            lemma_empty_successors(n as nat, n as nat);
            assert forall|t: int| 0 <= t < terms@.len() implies first_row_column(#[trigger] terms@[t].0) < n
                && terms@[t].1 * orbit_weight(n as nat, first_row_column(terms@[t].0)) <= 2 by {
                assert(row_successors(n as nat, parent) == crate::transfer::row_successors_upto(n as nat, empty_state(), n as nat));
                assert(terms@[t] == (crate::transfer::place(n as nat, empty_state(), t as nat), 1u128));
                lemma_first_row_column(n as nat, t as nat);
                assert(orbit_weight(n as nat, first_row_column(terms@[t].0)) <= 2);
            }
        }
        terms = apply_top_row_symmetry(n, terms)?;
        proof {
            crate::row::lemma_top_row_terms_len(n as nat, plain);
        }
    }
    let mut packed: Vec<(PackedBoundary, u128)> = Vec::new();
    let mut i: usize = 0;
    while i < terms.len()
        invariant
            n <= 42,
            i <= terms@.len(),
            packed@ == pack_terms(terms@.take(i as int), n as nat),
        decreases terms@.len() - i,
    {
        let (successor, weight) = terms[i];
        packed.push((PackedBoundary::pack(successor, n), weight));
        proof {
            assert(pack_terms(terms@.take(i as int + 1), n as nat) =~= pack_terms(terms@.take(i as int), n as nat).push(
                (PackedBoundary(pack_spec(successor, n as nat)), weight),
            ));
        }
        i = i + 1;
    }
    proof {
        assert(terms@.take(terms@.len() as int) =~= terms@);
    }
    Ok(packed)
}

/// The position of `key` in a strictly sorted list of frontier keys.
fn find_state(keys: &Vec<PackedBoundary>, key: PackedBoundary) -> (index: Option<usize>)
    requires
        states_strictly_sorted(keys@),
    ensures
        index matches Some(i) ==> i < keys@.len() && keys@[i as int] == key,
        index is None ==> forall|i: int| 0 <= i < keys@.len() ==> keys@[i] != key,
{
    let mut low: usize = 0;
    let mut high: usize = keys.len();
    while low < high
        invariant
            states_strictly_sorted(keys@),
            low <= high <= keys@.len(),
            forall|i: int| 0 <= i < low ==> keys@[i].0 < key.0,
            forall|i: int| high <= i < keys@.len() ==> keys@[i].0 > key.0,
        decreases high - low,
    {
        let middle = low + (high - low) / 2;
        let probe = keys[middle].0;
        if probe == key.0 {
            return Some(middle);
        } else if probe < key.0 {
            low = middle + 1;
        } else {
            high = middle;
        }
    }
    None
}

/// `key` is the key of one of the first `i` terms.
pub open spec fn appears_before(key: PackedBoundary, terms: Seq<(PackedBoundary, u128)>, i: int) -> bool {
    exists|m: int| 0 <= m < i && key == #[trigger] terms[m].0
}

/// A key-sorted list of frontier terms reduced to its distinct keys, in
/// increasing order.
fn distinct_keys(terms: &Vec<(PackedBoundary, u128)>) -> (keys: Vec<PackedBoundary>)
    requires
        keys_sorted(terms@),
    ensures
        states_strictly_sorted(keys@),
        forall|i: int| 0 <= i < terms@.len() ==> keys@.contains(#[trigger] terms@[i].0),
{
    let mut keys: Vec<PackedBoundary> = Vec::new();
    let mut i: usize = 0;
    while i < terms.len()
        invariant
            keys_sorted(terms@),
            i <= terms@.len(),
            states_strictly_sorted(keys@),
            i > 0 ==> keys@.len() > 0 && keys@.last() == terms@[i - 1].0,
            i == 0 ==> keys@.len() == 0,
            forall|k: int| 0 <= k < i ==> keys@.contains(#[trigger] terms@[k].0),
            forall|k: int| 0 <= k < keys@.len() ==> appears_before(#[trigger] keys@[k], terms@, i as int),
        decreases terms@.len() - i,
    {
        let key = terms[i].0;
        let ghost before = keys@;
        if keys.len() == 0 || keys[keys.len() - 1].0 != key.0 {
            proof {
                if i > 0 {
                    assert(terms@[i - 1].0.0 <= key.0);
                }
                assert forall|k: int| 0 <= k < before.len() implies before[k].0 < key.0 by {
                    assert(appears_before(before[k], terms@, i as int));
                    let m = choose|m: int| 0 <= m < i && before[k] == #[trigger] terms@[m].0;
                    assert(terms@[m].0.0 <= terms@[i as int].0.0);
                    if before[k].0 == key.0 {
                        assert(before[k] == key);
                    }
                    assert(before[k].0 <= before.last().0);
                }
            }
            keys.push(key);
            proof {
                assert forall|k: int| 0 <= k < i + 1 implies keys@.contains(#[trigger] terms@[k].0) by {
                    if k == i {
                        assert(keys@[keys@.len() - 1] == key);
                    } else {
                        assert(before.contains(terms@[k].0));
                        let j = choose|j: int| 0 <= j < before.len() && before[j] == terms@[k].0;
                        assert(keys@[j] == terms@[k].0);
                    }
                }
                assert forall|k: int| 0 <= k < keys@.len() implies appears_before(#[trigger] keys@[k], terms@, i + 1) by {
                    if k == keys@.len() - 1 {
                        assert(keys@[k] == terms@[i as int].0);
                    } else {
                        assert(keys@[k] == before[k]);
                        assert(appears_before(before[k], terms@, i as int));
                    }
                }
            }
        } else {
            proof {
                assert(keys@.last() == key);
                assert(keys@[keys@.len() - 1] == terms@[i as int].0);
            }
        }
        i = i + 1;
    }
    keys
}


/// Relabelling the keys of a list of terms keeps its weighted sum when the
/// new labels are worth what the old ones were.
pub proof fn lemma_weighted_sum_relabel(
    a: Seq<(PackedBoundary, u128)>,
    b: Seq<(PackedBoundary, u128)>,
    ga: spec_fn(u128) -> nat,
    gb: spec_fn(u128) -> nat,
)
    requires
        a.len() == b.len(),
        forall|i: int| 0 <= i < a.len() ==> (#[trigger] a[i]).1 == b[i].1 && ga(a[i].0.0) == gb(b[i].0.0),
    ensures
        weighted_sum(a, ga) == weighted_sum(b, gb),
    decreases a.len(),
{
    if a.len() > 0 {
        lemma_weighted_sum_relabel(a.drop_last(), b.drop_last(), ga, gb);
        assert(a.last() == a[a.len() - 1]);
    }
}

proof fn lemma_weighted_sum_take(terms: Seq<(PackedBoundary, u128)>, m: int, g: spec_fn(u128) -> nat)
    requires
        0 <= m < terms.len(),
    ensures
        weighted_sum(terms.take(m + 1), g) == weighted_sum(terms.take(m), g) + (terms[m].1 as nat) * g(
            terms[m].0.0,
        ),
        weighted_sum(terms.take(m + 1), g) <= weighted_sum(terms, g),
{
    assert(terms.take(m + 1).drop_last() =~= terms.take(m));
    lemma_weighted_sum_concat(terms.take(m + 1), terms.skip(m + 1), g);
    assert(terms.take(m + 1) + terms.skip(m + 1) =~= terms);
}

/// The weighted class value of a signature, `None` when it does not fit
/// `u128`.
pub(crate) fn signature_value(signature: &Vec<(PackedBoundary, u128)>, values: &Vec<u128>) -> (value: Option<u128>)
    ensures
        value is Some <==> weighted_sum(signature@, class_value(values@)) <= u128::MAX,
        value matches Some(v) ==> v == weighted_sum(signature@, class_value(values@)),
{
    let ghost g = class_value(values@);
    let mut sum: u128 = 0;
    let mut i: usize = 0;
    while i < signature.len()
        invariant
            i <= signature@.len(),
            g == class_value(values@),
            sum == weighted_sum(signature@.take(i as int), g),
        decreases signature@.len() - i,
    {
        let (target, weight) = signature[i];
        let value = if target.0 < values.len() as u128 {
            values[target.0 as usize]
        } else {
            0
        };
        proof {
            lemma_weighted_sum_take(signature@, i as int, g);
            assert(value as nat == g(target.0));
        }
        let contribution = match weight.checked_mul(value) {
            Some(c) => c,
            None => {
                return None;
            },
        };
        sum = match sum.checked_add(contribution) {
            Some(s) => s,
            None => {
                return None;
            },
        };
        i = i + 1;
    }
    proof {
        assert(signature@.take(signature@.len() as int) =~= signature@);
    }
    Some(sum)
}

/// Whether two signatures are equal.
pub(crate) fn same_signature(a: &Vec<(PackedBoundary, u128)>, b: &Vec<(PackedBoundary, u128)>) -> (same: bool)
    ensures
        same == (a@ == b@),
{
    if a.len() != b.len() {
        return false;
    }
    let mut i: usize = 0;
    while i < a.len()
        invariant
            a@.len() == b@.len(),
            i <= a@.len(),
            forall|k: int| 0 <= k < i ==> a@[k] == b@[k],
        decreases a@.len() - i,
    {
        if a[i].0.0 != b[i].0.0 || a[i].1 != b[i].1 {
            return false;
        }
        i = i + 1;
    }
    assert(a@ =~= b@);
    true
}

/// The classes of the next row fit the frontier values `g`: the state at
/// position `j` has class `classes[j]`, worth `values[classes[j]]`.
pub open spec fn classes_fit(
    keys: Seq<PackedBoundary>,
    classes: Seq<usize>,
    values: Seq<u128>,
    g: spec_fn(u128) -> nat,
) -> bool {
    &&& classes.len() == keys.len()
    &&& forall|j: int| 0 <= j < keys.len() ==> (#[trigger] classes[j]) < values.len() && values[classes[j] as int] as nat
        == g(keys[j].0)
}

/// The future signature of `state` below row `row`: its successor terms with
/// each successor replaced by its class in the next row, merged by class.
/// Each successor visited advances `transition_counter`.
/// The successors of a frontier can be signed against the next row: the
/// counter has room for them, each is among `next_keys`, and their weights
/// sum within `u128`.
pub open spec fn signature_fits(
    n: nat,
    row: nat,
    key: u128,
    slice_top: bool,
    next_keys: Seq<PackedBoundary>,
    counter: nat,
) -> bool {
    let succ = successor_terms(n, row, key, slice_top);
    &&& counter + succ.len() <= u128::MAX
    &&& forall|k: int| 0 <= k < succ.len() ==> next_keys.contains(#[trigger] succ[k].0)
    &&& weighted_sum(succ, crate::transfer::unit_key()) <= u128::MAX
}

pub(crate) fn exact_signature(
    n: usize,
    row: usize,
    operator: &CompiledRowOperator,
    state: PackedBoundary,
    slice_top: bool,
    next_keys: &Vec<PackedBoundary>,
    next_classes: &Vec<usize>,
    transition_counter: &mut u128,
    Ghost(values): Ghost<Seq<u128>>,
    Ghost(g): Ghost<spec_fn(u128) -> nat>,
) -> (signature: Result<Vec<(PackedBoundary, u128)>, String>)
    requires
        1 <= n <= 42,
        row == 0 && slice_top ==> state.0 == initial_key(n as nat),
        states_strictly_sorted(next_keys@),
        classes_fit(next_keys@, next_classes@, values, g),
    ensures
        signature matches Ok(sig) ==> {
            &&& keys_strictly_sorted(sig@)
            &&& weighted_sum(sig@, class_value(values)) == weighted_sum(
                successor_terms(n as nat, row as nat, state.0, slice_top),
                g,
            )
            &&& *final(transition_counter) == *old(transition_counter) + successor_terms(
                n as nat,
                row as nat,
                state.0,
                slice_top,
            ).len()
        },
        signature_fits(n as nat, row as nat, state.0, slice_top, next_keys@, *old(transition_counter) as nat)
            ==> signature is Ok,
{
    let terms = successors(n, row, operator, state, slice_top)?;
    let mut mapped: Vec<(PackedBoundary, u128)> = Vec::new();
    let mut i: usize = 0;
    while i < terms.len()
        invariant
            i <= terms@.len(),
            mapped@.len() == i,
            classes_fit(next_keys@, next_classes@, values, g),
            states_strictly_sorted(next_keys@),
            forall|k: int| 0 <= k < i ==> (#[trigger] mapped@[k]).1 == terms@[k].1 && class_value(values)(
                mapped@[k].0.0,
            ) == g(terms@[k].0.0),
            *transition_counter == *old(transition_counter) + i,
            terms@ == successor_terms(n as nat, row as nat, state.0, slice_top),
            forall|k: int| 0 <= k < i ==> (#[trigger] mapped@[k]).1 == terms@[k].1,
        decreases terms@.len() - i,
    {
        let (successor, weight) = terms[i];
        proof {
            if signature_fits(n as nat, row as nat, state.0, slice_top, next_keys@, *old(transition_counter) as nat) {
                assert(next_keys@.contains(terms@[i as int].0));
            }
        }
        *transition_counter = match transition_counter.checked_add(1) {
            Some(c) => c,
            None => {
                return Err(message("transition counter overflow"));
            },
        };
        let index = match find_state(next_keys, successor) {
            Some(index) => index,
            None => {
                return Err(message_with_number("successor is not forward reachable in row", row as u128 + 1));
            },
        };
        let class = next_classes[index];
        mapped.push((PackedBoundary(class as u128), weight));
        i = i + 1;
    }
    proof {
        lemma_weighted_sum_relabel(mapped@, terms@, class_value(values), g);
    }
    let ghost collected = mapped@;
    sort_by_packed_key(&mut mapped);
    let ghost sorted = mapped@;
    proof {
        if signature_fits(n as nat, row as nat, state.0, slice_top, next_keys@, *old(transition_counter) as nat) {
            let u = crate::transfer::unit_key();
            lemma_weighted_sum_relabel(collected, terms@, u, u);
            lemma_weighted_sum_permutation(collected, sorted, u);
            assert forall|key: u128| #[trigger] weighted_sum(sorted, crate::transfer::indicator(key)) <= u128::MAX by {
                crate::transfer::lemma_indicator_le_total(sorted, key);
            }
        }
    }
    match reduce_sorted_candidates(&mut mapped, row) {
        Ok(()) => {},
        Err(_) => {
            return Err(message("future-signature multiplicity overflow"));
        },
    }
    proof {
        lemma_weighted_sum_permutation(collected, sorted, class_value(values));
    }
    Ok(mapped)
}


/// The value of the frontiers entering row `row`: their completions, and at
/// the first row, where only the empty frontier enters, the sliced count of
/// every board.
pub open spec fn row_value(n: nat, row: nat) -> spec_fn(u128) -> nat {
    if row == 0 {
        |key: u128| board_count(n, true)
    } else {
        frontier_value(n, row)
    }
}

/// The successor terms generated by the first `r` rows, visited top down.
pub open spec fn forward_transitions_upto(n: nat, layers: Seq<Vec<PackedBoundary>>, r: int) -> nat
    decreases r,
{
    if r <= 0 {
        0
    } else {
        forward_transitions_upto(n, layers, r - 1) + crate::frontier_audit::row_transitions(
            n,
            (r - 1) as nat,
            layers[r - 1]@,
            layers[r - 1]@.len() as int,
        )
    }
}

proof fn lemma_forward_upto_prefix(n: nat, a: Seq<Vec<PackedBoundary>>, b: Seq<Vec<PackedBoundary>>, r: int)
    requires
        0 <= r <= a.len(),
        r <= b.len(),
        forall|q: int| 0 <= q < r ==> #[trigger] a[q] == b[q],
    ensures
        forward_transitions_upto(n, a, r) == forward_transitions_upto(n, b, r),
    decreases r,
{
    if r > 0 {
        lemma_forward_upto_prefix(n, a, b, r - 1);
        assert(a[r - 1] == b[r - 1]);
    }
}

proof fn lemma_forward_bottom_up(n: nat, layers: Seq<Vec<PackedBoundary>>, t: int)
    requires
        0 <= t <= n,
        layers.len() == n + 1,
    ensures
        crate::frontier_audit::layer_transitions(n, layers, t) + forward_transitions_upto(n, layers, n - t)
            == forward_transitions_upto(n, layers, n as int),
    decreases t,
{
    if t > 0 {
        lemma_forward_bottom_up(n, layers, t - 1);
        assert(n - (t - 1) == (n - t) + 1);
    }
}

/// Read top down or bottom up, the rows generate the same successor terms.
pub proof fn lemma_forward_transitions_total(n: nat, layers: Seq<Vec<PackedBoundary>>)
    requires
        layers.len() == n + 1,
    ensures
        forward_transitions_upto(n, layers, n as int) == crate::frontier_audit::layer_transitions(
            n,
            layers,
            n as int,
        ),
{
    lemma_forward_bottom_up(n, layers, n as int);
}

/// The forward-reachable frontiers of every row, each row strictly sorted,
/// starting from the empty frontier; and the number of successor terms
/// generated.
pub(crate) fn forward_layers(n: usize, operator: &CompiledRowOperator) -> (layers: Result<
    (Vec<Vec<PackedBoundary>>, u128),
    String,
>)
    requires
        1 <= n <= 42,
    ensures
        layers is Ok,
        layers matches Ok((reachable, _)) ==> {
            &&& reachable@.len() == n + 1
            &&& reachable@[0]@ == seq![PackedBoundary(initial_key(n as nat))]
            &&& forall|r: int| 0 <= r <= n ==> states_strictly_sorted(#[trigger] reachable@[r]@)
        },
        layers matches Ok((reachable, count)) ==> count == crate::frontier_audit::layer_transitions(
            n as nat,
            reachable@,
            n as int,
        ),
{
    let mut reachable: Vec<Vec<PackedBoundary>> = Vec::new();
    reachable.push(vec![PackedBoundary::pack(BoundaryState { columns: 0, diag_dr: 0, diag_dl: 0 }, n)]);
    let mut forward_transitions: u128 = 0;
    let mut row: usize = 0;
    while row < n
        invariant
            1 <= n <= 42,
            row <= n,
            reachable@.len() == row + 1,
            reachable@[0]@ == seq![PackedBoundary(initial_key(n as nat))],
            forall|r: int| 0 <= r <= row ==> states_strictly_sorted(#[trigger] reachable@[r]@),
            forward_transitions <= row * n * 0x1_0000_0000_0000_0000,
            forward_transitions == forward_transitions_upto(n as nat, reachable@, row as int),
        decreases n - row,
    {
        let mut next: Vec<(PackedBoundary, u128)> = Vec::new();
        let layer = &reachable[row];
        let mut i: usize = 0;
        while i < layer.len()
            invariant
                1 <= n <= 42,
                row < n,
                i <= layer@.len(),
                layer == reachable@[row as int],
                reachable@[0]@ == seq![PackedBoundary(initial_key(n as nat))],
                forward_transitions <= row * n * 0x1_0000_0000_0000_0000 + i * n,
                reachable@.len() == row + 1,
                forward_transitions == forward_transitions_upto(n as nat, reachable@, row as int)
                    + crate::frontier_audit::row_transitions(n as nat, row as nat, layer@, i as int),
            decreases layer@.len() - i,
        {
            let state = layer[i];
            proof {
                if row == 0 {
                    assert(layer@ == seq![PackedBoundary(initial_key(n as nat))]);
                }
            }
            let terms = successors(n, row, operator, state, true)?;
            proof {
                assert(row * n * 0x1_0000_0000_0000_0000 + i * n + n <= u128::MAX) by (nonlinear_arith)
                    requires
                        row < n <= 42,
                        i < 0x1_0000_0000_0000_0000,
                ;
                assert(i * n + n == (i + 1) * n) by (nonlinear_arith);
            }
            forward_transitions = match forward_transitions.checked_add(terms.len() as u128) {
                Some(t) => t,
                None => {
                    return Err(message("forward transition counter overflow"));
                },
            };
            let mut k: usize = 0;
            while k < terms.len()
                invariant
                    k <= terms@.len(),
                decreases terms@.len() - k,
            {
                next.push(terms[k]);
                k = k + 1;
            }
            i = i + 1;
        }
        proof {
            assert(row * n * 0x1_0000_0000_0000_0000 + i * n <= (row + 1) * n * 0x1_0000_0000_0000_0000)
                by (nonlinear_arith)
                requires
                    i <= 0x1_0000_0000_0000_0000,
            ;
        }
        sort_by_packed_key(&mut next);
        let keys = distinct_keys(&next);
        let ghost before = reachable@;
        reachable.push(keys);
        proof {
            assert(i == layer@.len());
            lemma_forward_upto_prefix(n as nat, before, reachable@, row as int);
            lemma_forward_upto_prefix(n as nat, before, reachable@, row as int + 1);
            assert(reachable@[row as int] == before[row as int]);
        }
        row = row + 1;
    }
    proof {
        lemma_forward_transitions_total(n as nat, reachable@);
    }
    Ok((reachable, forward_transitions))
}

/// Classes of the last row: accepted and rejected frontiers, numbered by
/// first appearance, worth one and zero.
pub(crate) fn terminal_classes(n: usize, keys: &Vec<PackedBoundary>) -> (classes: (Vec<usize>, Vec<u128>))
    requires
        1 <= n <= 42,
    ensures
        classes_fit(keys@, classes.0@, classes.1@, row_value(n as nat, n as nat)),
        classes.1@.len() <= keys@.len(),
        classes.1@.len() <= 2,
{
    let board = board_mask(n);
    let mut class_of: Vec<usize> = Vec::new();
    let mut values: Vec<u128> = Vec::new();
    let mut accepted_class: Option<usize> = None;
    let mut rejected_class: Option<usize> = None;
    let mut i: usize = 0;
    while i < keys.len()
        invariant
            1 <= n <= 42,
            board == board_mask_spec(n as nat),
            i <= keys@.len(),
            class_of@.len() == i,
            values@.len() <= i,
            values@.len() <= 2,
            accepted_class matches Some(c) ==> c < values@.len() && values@[c as int] == 1,
            rejected_class matches Some(c) ==> c < values@.len() && values@[c as int] == 0,
            values@.len() == (if accepted_class is Some { 1int } else { 0 }) + (if rejected_class is Some { 1int } else { 0 }),
            forall|j: int| 0 <= j < i ==> (#[trigger] class_of@[j]) < values@.len() && values@[class_of@[j] as int] as nat
                == row_value(n as nat, n as nat)(keys@[j].0),
        decreases keys@.len() - i,
    {
        let key = keys[i];
        let accepted = key.columns(n) == board;
        proof {
            let state = unpack_spec(key.0, n as nat);
            assert(row_value(n as nat, n as nat)(key.0) == paths(n as nat, 0, state, accept(n as nat)));
            assert(paths(n as nat, 0, state, accept(n as nat)) == accept(n as nat)(state));
        }
        let class = if accepted {
            match accepted_class {
                Some(c) => c,
                None => {
                    values.push(1);
                    accepted_class = Some(values.len() - 1);
                    values.len() - 1
                },
            }
        } else {
            match rejected_class {
                Some(c) => c,
                None => {
                    values.push(0);
                    rejected_class = Some(values.len() - 1);
                    values.len() - 1
                },
            }
        };
        class_of.push(class);
        i = i + 1;
    }
    (class_of, values)
}

/// The future classes of one row, given the classes of the next: every state
/// gets the class of its exact signature, classes numbered by first
/// appearance, with the signature of each class and its value.
/// Every frontier of the row can be signed against the next row, with the
/// counter running on from `counter`, and the value of each fits `u128`.
pub open spec fn quotient_fits(
    n: nat,
    row: nat,
    keys: Seq<PackedBoundary>,
    next_keys: Seq<PackedBoundary>,
    counter: nat,
) -> bool {
    &&& forall|j: int|
        0 <= j < keys.len() ==> signature_fits(
            n,
            row,
            (#[trigger] keys[j]).0,
            true,
            next_keys,
            counter + crate::frontier_audit::row_transitions(n, row, keys, j),
        )
    &&& forall|j: int| 0 <= j < keys.len() ==> row_value(n, row)((#[trigger] keys[j]).0) <= u128::MAX
}

#[verifier::spinoff_prover]
#[verifier::rlimit(40)]
fn quotient_row(
    n: usize,
    row: usize,
    operator: &CompiledRowOperator,
    keys: &Vec<PackedBoundary>,
    next_keys: &Vec<PackedBoundary>,
    next_classes: &Vec<usize>,
    next_values: &Vec<u128>,
    transition_counter: &mut u128,
) -> (quotient: Result<(Vec<usize>, Vec<Vec<(PackedBoundary, u128)>>, Vec<u128>), String>)
    requires
        1 <= n <= 42,
        row < n,
        row == 0 ==> keys@ == seq![PackedBoundary(initial_key(n as nat))],
        states_strictly_sorted(next_keys@),
        classes_fit(next_keys@, next_classes@, next_values@, row_value(n as nat, (row + 1) as nat)),
    ensures
        quotient matches Ok((classes, signatures, values)) ==> {
            &&& classes_fit(keys@, classes@, values@, row_value(n as nat, row as nat))
            &&& values@.len() == signatures@.len()
            &&& values@.len() <= keys@.len()
            &&& forall|c: int| 0 <= c < values@.len() ==> (#[trigger] values@[c]) as nat == weighted_sum(
                signatures@[c]@,
                class_value(next_values@),
            )
        },
        quotient_fits(n as nat, row as nat, keys@, next_keys@, *old(transition_counter) as nat) ==> quotient is Ok,
        quotient is Ok ==> *final(transition_counter) == *old(transition_counter)
            + crate::frontier_audit::row_transitions(n as nat, row as nat, keys@, keys@.len() as int),
{
    let ghost fits = quotient_fits(n as nat, row as nat, keys@, next_keys@, *old(transition_counter) as nat);
    let ghost g_next = row_value(n as nat, (row + 1) as nat);
    let ghost g_row = row_value(n as nat, row as nat);
    let mut class_of: Vec<usize> = Vec::new();
    let mut signatures: Vec<Vec<(PackedBoundary, u128)>> = Vec::new();
    let mut i: usize = 0;
    let ghost mut rep: Seq<int> = Seq::empty();
    while i < keys.len()
        invariant
            1 <= n <= 42,
            row < n,
            row == 0 ==> keys@ == seq![PackedBoundary(initial_key(n as nat))],
            g_next == row_value(n as nat, (row + 1) as nat),
            g_row == row_value(n as nat, row as nat),
            states_strictly_sorted(next_keys@),
            classes_fit(next_keys@, next_classes@, next_values@, g_next),
            i <= keys@.len(),
            class_of@.len() == i,
            signatures@.len() <= i,
            forall|j: int| 0 <= j < i ==> (#[trigger] class_of@[j]) < signatures@.len() && weighted_sum(
                signatures@[class_of@[j] as int]@,
                class_value(next_values@),
            ) == g_row(keys@[j].0),
            rep.len() == signatures@.len(),
            forall|c: int| 0 <= c < rep.len() ==> 0 <= #[trigger] rep[c] < i && class_of@[rep[c]] == c,
            fits == quotient_fits(n as nat, row as nat, keys@, next_keys@, *old(transition_counter) as nat),
            *transition_counter == *old(transition_counter) + crate::frontier_audit::row_transitions(
                n as nat,
                row as nat,
                keys@,
                i as int,
            ),
        decreases keys@.len() - i,
    {
        let state = keys[i];
        proof {
            if fits {
                assert(signature_fits(
                    n as nat,
                    row as nat,
                    keys@[i as int].0,
                    true,
                    next_keys@,
                    *old(transition_counter) as nat + crate::frontier_audit::row_transitions(n as nat, row as nat, keys@, i as int),
                ));
            }
        }
        proof {
            if row == 0 {
                assert(state == PackedBoundary(initial_key(n as nat)));
            }
        }
        let signature = exact_signature(
            n,
            row,
            operator,
            state,
            true,
            next_keys,
            next_classes,
            transition_counter,
            Ghost(next_values@),
            Ghost(g_next),
        )?;
        proof {
            if row == 0 {
                lemma_first_row_value(n as nat);
            } else {
                lemma_successor_value(n as nat, row as nat, state.0, true);
                assert(g_next == frontier_value(n as nat, (row + 1) as nat));
            }
        }
        let mut found: Option<usize> = None;
        let mut c: usize = 0;
        while c < signatures.len()
            invariant
                c <= signatures@.len(),
                found matches Some(f) ==> f < signatures@.len() && signatures@[f as int]@ == signature@,
            decreases signatures@.len() - c,
        {
            if same_signature(&signatures[c], &signature) {
                found = Some(c);
                break;
            }
            c = c + 1;
        }
        let ghost old_class_of = class_of@;
        let ghost old_len = signatures@.len();
        let class = match found {
            Some(f) => f,
            None => {
                signatures.push(signature);
                signatures.len() - 1
            },
        };
        class_of.push(class);
        proof {
            assert(class_of@ == old_class_of.push(class));
            if signatures@.len() > old_len {
                rep = rep.push(i as int);
            }
            assert forall|c: int| 0 <= c < rep.len() implies 0 <= #[trigger] rep[c] < i + 1 && class_of@[rep[c]] == c by {
                if c < old_len {
                    assert(class_of@[rep[c]] == old_class_of[rep[c]]);
                }
            }
        }
        i = i + 1;
    }
    proof {
        if fits {
            assert forall|c: int| 0 <= c < signatures@.len() implies weighted_sum(
                (#[trigger] signatures@[c])@,
                class_value(next_values@),
            ) <= u128::MAX by {
                let j = rep[c];
                assert(0 <= j < keys@.len());
                assert(row_value(n as nat, row as nat)(keys@[j].0) <= u128::MAX);
                assert(g_row(keys@[j].0) <= u128::MAX);
            }
        }
    }
    let mut values: Vec<u128> = Vec::new();
    let mut c: usize = 0;
    while c < signatures.len()
        invariant
            c <= signatures@.len(),
            values@.len() == c,
            forall|k: int| 0 <= k < c ==> (#[trigger] values@[k]) as nat == weighted_sum(
                signatures@[k]@,
                class_value(next_values@),
            ),
            forall|k: int| 0 <= k < c ==> weighted_sum((#[trigger] signatures@[k])@, class_value(next_values@))
                <= u128::MAX,
            fits ==> forall|k: int| 0 <= k < signatures@.len() ==> weighted_sum(
                (#[trigger] signatures@[k])@,
                class_value(next_values@),
            ) <= u128::MAX,
            fits == quotient_fits(n as nat, row as nat, keys@, next_keys@, *old(transition_counter) as nat),
        decreases signatures@.len() - c,
    {
        let value = match signature_value(&signatures[c], next_values) {
            Some(v) => v,
            None => {
                return Err(message("future-class value overflow"));
            },
        };
        values.push(value);
        c = c + 1;
    }
    Ok((class_of, signatures, values))
}


/// One row of the quotient.
#[derive(Clone, Copy, Debug)]
pub struct QuotientLayerMetric {
    pub row: usize,
    pub reachable_states: usize,
    pub future_classes: usize,
}

/// The quotient of every row and the count it reconstructs.
#[derive(Debug)]
pub struct FutureQuotientResult {
    pub n: usize,
    pub count: u128,
    pub peak_reachable_states: usize,
    pub peak_future_classes: usize,
    pub forward_transitions: u128,
    pub backward_signature_transitions: u128,
    pub quotient_edges: usize,
    pub quotient_replay_elapsed: Duration,
    pub elapsed: Duration,
    pub peak_rss_bytes: u64,
    pub layers: Vec<QuotientLayerMetric>,
}

/// The empty board has exactly one placement.
pub proof fn lemma_board_count_zero(symmetric: bool)
    ensures
        board_count(0, symmetric) == 1,
{
    assert(((1u64 << 0u64) - 1u64) as u64 == 0) by (bit_vector);
    assert(board_mask_spec(0) == 0);
}

/// The rows of a quotient: one per frontier row, classes never outnumbering
/// states, with the peaks attained by some row.
pub open spec fn quotient_layers_ok(
    layers: Seq<QuotientLayerMetric>,
    n: nat,
    peak_states: usize,
    peak_classes: usize,
) -> bool {
    &&& layers.len() == n + 1
    &&& forall|i: int| 0 <= i < layers.len() ==> {
        &&& (#[trigger] layers[i]).row == i
        &&& layers[i].future_classes <= layers[i].reachable_states
        &&& layers[i].reachable_states <= peak_states
        &&& layers[i].future_classes <= peak_classes
    }
    &&& exists|i: int| 0 <= i < layers.len() && (#[trigger] layers[i]).reachable_states == peak_states
    &&& exists|i: int| 0 <= i < layers.len() && (#[trigger] layers[i]).future_classes == peak_classes
}

/// The class values of the row below `t` backward steps, replayed from the
/// stored signatures.
pub(crate) fn replay_values(signatures: &Vec<Vec<(PackedBoundary, u128)>>, next_values: &Vec<u128>) -> (values: Option<Vec<u128>>)
    ensures
        values matches Some(v) ==> v@.len() == signatures@.len() && forall|c: int|
            0 <= c < signatures@.len() ==> (#[trigger] v@[c]) as nat == weighted_sum(
                signatures@[c]@,
                class_value(next_values@),
            ),
        values is Some <==> forall|c: int|
            0 <= c < signatures@.len() ==> weighted_sum((#[trigger] signatures@[c])@, class_value(next_values@))
                <= u128::MAX,
{
    let mut values: Vec<u128> = Vec::new();
    let mut c: usize = 0;
    while c < signatures.len()
        invariant
            c <= signatures@.len(),
            values@.len() == c,
            forall|k: int| 0 <= k < c ==> (#[trigger] values@[k]) as nat == weighted_sum(
                signatures@[k]@,
                class_value(next_values@),
            ),
        decreases signatures@.len() - c,
    {
        let value = match signature_value(&signatures[c], next_values) {
            Some(v) => v,
            None => {
                return None;
            },
        };
        values.push(value);
        c = c + 1;
    }
    proof {
        assert forall|k: int| 0 <= k < signatures@.len() implies weighted_sum(
            (#[trigger] signatures@[k])@,
            class_value(next_values@),
        ) <= u128::MAX by {
            assert(values@[k] as nat == weighted_sum(signatures@[k]@, class_value(next_values@)));
        }
    }
    Some(values)
}

/// A copy of a list of values.
pub(crate) fn copy_values(values: &Vec<u128>) -> (copy: Vec<u128>)
    ensures
        copy@ == values@,
{
    let mut copy: Vec<u128> = Vec::new();
    let mut i: usize = 0;
    while i < values.len()
        invariant
            i <= values@.len(),
            copy@ == values@.take(i as int),
        decreases values@.len() - i,
    {
        copy.push(values[i]);
        proof {
            assert(values@.take(i as int + 1) =~= values@.take(i as int).push(values@[i as int]));
        }
        i = i + 1;
    }
    proof {
        assert(values@.take(values@.len() as int) =~= values@);
    }
    copy
}

/// The row metrics of a quotient and their peaks.
pub(crate) fn quotient_layer_metrics(
    reachable: &Vec<Vec<PackedBoundary>>,
    values_by_row: &Vec<Vec<u128>>,
    n: usize,
) -> (metrics: (Vec<QuotientLayerMetric>, usize, usize))
    requires
        n <= 42,
        reachable@.len() == n + 1,
        values_by_row@.len() == n + 1,
        forall|t: int| 0 <= t <= n ==> (#[trigger] values_by_row@[t])@.len() <= reachable@[n - t]@.len(),
    ensures
        quotient_layers_ok(metrics.0@, n as nat, metrics.1, metrics.2),
        forall|i: int| 0 <= i <= n ==> (#[trigger] metrics.0@[i]).reachable_states == reachable@[i]@.len()
            && metrics.0@[i].future_classes == values_by_row@[n - i]@.len(),
{
    let mut layers: Vec<QuotientLayerMetric> = Vec::new();
    let mut peak_states: usize = 0;
    let mut peak_classes: usize = 0;
    let mut r: usize = 0;
    while r <= n
        invariant
            n <= 42,
            reachable@.len() == n + 1,
            values_by_row@.len() == n + 1,
            forall|t: int| 0 <= t <= n ==> (#[trigger] values_by_row@[t])@.len() <= reachable@[n - t]@.len(),
            r <= n + 1,
            layers@.len() == r,
            forall|i: int| 0 <= i < r ==> (#[trigger] layers@[i]).reachable_states == reachable@[i]@.len()
                && layers@[i].future_classes == values_by_row@[n - i]@.len(),
            forall|i: int| 0 <= i < r ==> {
                &&& (#[trigger] layers@[i]).row == i
                &&& layers@[i].future_classes <= layers@[i].reachable_states
                &&& layers@[i].reachable_states <= peak_states
                &&& layers@[i].future_classes <= peak_classes
            },
            r == 0 ==> peak_states == 0 && peak_classes == 0,
            r > 0 ==> exists|i: int| 0 <= i < r && (#[trigger] layers@[i]).reachable_states == peak_states,
            r > 0 ==> exists|i: int| 0 <= i < r && (#[trigger] layers@[i]).future_classes == peak_classes,
        decreases n + 1 - r,
    {
        let states = reachable[r].len();
        let classes = values_by_row[n - r].len();
        assert(values_by_row@[n - r]@.len() <= reachable@[n - (n - r)]@.len());
        let ghost before = layers@;
        let ghost old_states = peak_states;
        let ghost old_classes = peak_classes;
        layers.push(QuotientLayerMetric { row: r, reachable_states: states, future_classes: classes });
        if r == 0 || states > peak_states {
            peak_states = states;
        }
        if r == 0 || classes > peak_classes {
            peak_classes = classes;
        }
        proof {
            assert(layers@[r as int].row == r);
            if peak_states == states {
                assert(layers@[r as int].reachable_states == peak_states);
            } else {
                assert(old_states == peak_states);
                let i = choose|i: int| 0 <= i < r && (#[trigger] before[i]).reachable_states == old_states;
                assert(layers@[i] == before[i]);
            }
            if peak_classes == classes {
                assert(layers@[r as int].future_classes == peak_classes);
            } else {
                assert(old_classes == peak_classes);
                let i = choose|i: int| 0 <= i < r && (#[trigger] before[i]).future_classes == old_classes;
                assert(layers@[i] == before[i]);
            }
        }
        r = r + 1;
    }
    (layers, peak_states, peak_classes)
}

/// Build the exact future-equivalence quotient of every row of the board of
/// side `n`, and the count it reconstructs from the empty frontier.
pub fn analyze_future_equivalence(n: usize) -> (result: Result<FutureQuotientResult, String>)
    ensures
        n > 42 ==> result is Err,
        n == 0 ==> result is Ok,
        result matches Ok(r) ==> {
            &&& r.n == n
            &&& r.count == board_count(n as nat, false)
            &&& quotient_layers_ok(r.layers@, n as nat, r.peak_reachable_states, r.peak_future_classes)
            &&& r.forward_transitions == r.backward_signature_transitions
            &&& r.layers@[0].reachable_states == 1
        },
{
    if n > 42 {
        return Err(message("future quotient uses the packed u128 N<=42 frontier"));
    }
    if n == 0 {
        let layers = vec![QuotientLayerMetric { row: 0, reachable_states: 1, future_classes: 1 }];
        proof {
            lemma_board_count_zero(true);
            assert(layers@.len() == 1);
            assert(layers@[0].row == 0);
            assert(layers@[0].reachable_states == 1);
            assert(layers@[0].future_classes == 1);
        }
        return Ok(
            FutureQuotientResult {
                n,
                count: 1,
                peak_reachable_states: 1,
                peak_future_classes: 1,
                forward_transitions: 0,
                backward_signature_transitions: 0,
                quotient_edges: 0,
                quotient_replay_elapsed: zero_duration(),
                elapsed: zero_duration(),
                peak_rss_bytes: peak_rss_bytes(),
                layers,
            },
        );
    }
    let start = now();
    let operator = CompiledRowOperator::compile(&SiteTensorC::sec_vi())?;
    let (reachable, forward_transitions) = forward_layers(n, &operator)?;
    let (terminal_class, terminal_values) = terminal_classes(n, &reachable[n]);
    let mut values_by_row: Vec<Vec<u128>> = Vec::new();
    let mut classes_by_row: Vec<Vec<usize>> = Vec::new();
    let mut signatures_by_row: Vec<Vec<Vec<(PackedBoundary, u128)>>> = Vec::new();
    values_by_row.push(terminal_values);
    classes_by_row.push(terminal_class);
    let mut backward_signature_transitions: u128 = 0;
    let mut k: usize = 0;
    while k < n
        invariant
            1 <= n <= 42,
            k <= n,
            reachable@.len() == n + 1,
            reachable@[0]@ == seq![PackedBoundary(initial_key(n as nat))],
            forall|r: int| 0 <= r <= n ==> states_strictly_sorted(#[trigger] reachable@[r]@),
            values_by_row@.len() == k + 1,
            classes_by_row@.len() == k + 1,
            signatures_by_row@.len() == k,
            classes_fit(
                reachable@[n - k]@,
                classes_by_row@[k as int]@,
                values_by_row@[k as int]@,
                row_value(n as nat, (n - k) as nat),
            ),
            forall|t: int| 0 <= t <= k ==> (#[trigger] values_by_row@[t])@.len() <= reachable@[n - t]@.len(),
            forall|t: int| 0 <= t < k ==> (#[trigger] values_by_row@[t + 1])@.len() == signatures_by_row@[t]@.len()
                && forall|c: int| 0 <= c < signatures_by_row@[t]@.len() ==> (#[trigger] values_by_row@[t + 1]@[c]) as nat
                    == weighted_sum(signatures_by_row@[t]@[c]@, class_value(values_by_row@[t]@)),
            backward_signature_transitions == crate::frontier_audit::layer_transitions(
                n as nat,
                reachable@,
                k as int,
            ),
        decreases n - k,
    {
        let row = n - 1 - k;
        proof {
            if row == 0 {
                assert(reachable@[row as int]@ == seq![PackedBoundary(initial_key(n as nat))]);
            }
            assert(states_strictly_sorted(reachable@[row + 1]@));
            assert((n - k) as nat == (row + 1) as nat);
        }
        let (classes, signatures, values) = quotient_row(
            n,
            row,
            &operator,
            &reachable[row],
            &reachable[row + 1],
            &classes_by_row[k],
            &values_by_row[k],
            &mut backward_signature_transitions,
        )?;
        let ghost previous = values_by_row@[k as int]@;
        signatures_by_row.push(signatures);
        values_by_row.push(values);
        classes_by_row.push(classes);
        proof {
            assert(values_by_row@[k as int]@ == previous);
            assert((n - (k + 1)) as nat == row as nat);
            assert((n - (k + 1)) as int == row as int);
        }
        k = k + 1;
    }
    let initial_class = classes_by_row[n][0];
    let count = values_by_row[n][initial_class];
    proof {
        assert(reachable@[0]@[0].0 == initial_key(n as nat));
    }
    let replay_start = now();
    let mut replay = copy_values(&values_by_row[0]);
    let mut t: usize = 0;
    while t < n
        invariant
            t <= n,
            values_by_row@.len() == n + 1,
            signatures_by_row@.len() == n,
            replay@ == values_by_row@[t as int]@,
            forall|u: int| 0 <= u < n ==> (#[trigger] values_by_row@[u + 1])@.len() == signatures_by_row@[u]@.len()
                && forall|c: int| 0 <= c < signatures_by_row@[u]@.len() ==> (#[trigger] values_by_row@[u + 1]@[c]) as nat
                    == weighted_sum(signatures_by_row@[u]@[c]@, class_value(values_by_row@[u]@)),
        decreases n - t,
    {
        let next = match replay_values(&signatures_by_row[t], &replay) {
            Some(v) => v,
            None => {
                return Err(message("quotient replay overflow"));
            },
        };
        proof {
            assert(next@ =~= values_by_row@[t + 1]@);
        }
        replay = next;
        t = t + 1;
    }
    let quotient_replay_elapsed = elapsed(&replay_start);
    if replay[initial_class] != count {
        return Err(message("quotient replay count mismatch"));
    }
    let mut quotient_edges: usize = 0;
    let mut u: usize = 0;
    while u < signatures_by_row.len()
        invariant
            1 <= n <= 42,
            u <= signatures_by_row@.len(),
        decreases signatures_by_row@.len() - u,
    {
        let layer = &signatures_by_row[u];
        let mut c: usize = 0;
        while c < layer.len()
            invariant
                1 <= n <= 42,
                c <= layer@.len(),
            decreases layer@.len() - c,
        {
            quotient_edges = match quotient_edges.checked_add(layer[c].len()) {
                Some(e) => e,
                None => {
                    return Err(message("quotient edge counter overflow"));
                },
            };
            c = c + 1;
        }
        u = u + 1;
    }
    let (layers, peak_reachable_states, peak_future_classes) = quotient_layer_metrics(&reachable, &values_by_row, n);
    proof {
        assert(layers@[0].reachable_states == reachable@[0]@.len());
    }
    Ok(
        FutureQuotientResult {
            n,
            count,
            peak_reachable_states,
            peak_future_classes,
            forward_transitions,
            backward_signature_transitions,
            quotient_edges,
            quotient_replay_elapsed,
            elapsed: elapsed(&start),
            peak_rss_bytes: peak_rss_bytes(),
            layers,
        },
    )
}

} // verus!
