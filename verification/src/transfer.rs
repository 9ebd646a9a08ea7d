//! The row transfer of the Sec. VI network as a mathematical automaton on
//! frontier states, with the weighted path counts that every exact backend of
//! this crate computes.
use vstd::prelude::*;

use vstd::std_specs::bits::{axiom_u64_trailing_zeros, u64_trailing_zeros};
use crate::boundary::{
    BoundaryState, PackedBoundary, board_mask_spec, empty_state, has_bit, lemma_pack_round_trip,
    pack_spec, state_fits, unpack_spec,
};

verus! {

/// A queen may stand in column `c`: no column or diagonal signal arrives there.
pub open spec fn cell_free(state: BoundaryState, c: nat) -> bool {
    !has_bit(state.columns, c) && !has_bit(state.diag_dr, c) && !has_bit(state.diag_dl, c)
}

/// The frontier below a row whose only queen stands in column `c`: the column
/// signal stays, the down-right signals move one column right and the
/// down-left signals one column left, signals leaving the board being dropped.
pub open spec fn place(n: nat, state: BoundaryState, c: nat) -> BoundaryState {
    let b = 1u64 << (c as u64);
    BoundaryState {
        columns: state.columns | b,
        diag_dr: ((state.diag_dr | b) << 1u64) & board_mask_spec(n),
        diag_dl: (state.diag_dl | b) >> 1u64,
    }
}

/// The frontiers below one row, for the queen positions among columns `[0, k)`
/// in increasing column order.
pub open spec fn row_successors_upto(n: nat, state: BoundaryState, k: nat) -> Seq<BoundaryState>
    decreases k,
{
    if k == 0 {
        Seq::empty()
    } else {
        row_successors_upto(n, state, (k - 1) as nat) + if cell_free(state, (k - 1) as nat) {
            seq![place(n, state, (k - 1) as nat)]
        } else {
            Seq::empty()
        }
    }
}

/// The frontiers below one row: one term per legal queen column, in
/// increasing column order. This is the row transfer compiled from `C`.
pub open spec fn row_successors(n: nat, state: BoundaryState) -> Seq<BoundaryState> {
    row_successors_upto(n, state, n)
}

/// Sum over the paths of `k` further rows from `state` of `f` at the end
/// frontier.
pub open spec fn paths(n: nat, k: nat, state: BoundaryState, f: spec_fn(BoundaryState) -> nat) -> nat
    decreases k, 0nat,
{
    if k == 0 {
        f(state)
    } else {
        sum_paths(n, (k - 1) as nat, row_successors(n, state), f)
    }
}

/// `paths(n, k, t, f)` summed over the frontiers `t` of `states`.
pub open spec fn sum_paths(
    n: nat,
    k: nat,
    states: Seq<BoundaryState>,
    f: spec_fn(BoundaryState) -> nat,
) -> nat
    decreases k, states.len() + 1,
{
    if states.len() == 0 {
        0
    } else {
        sum_paths(n, k, states.drop_last(), f) + paths(n, k, states.last(), f)
    }
}

/// Accept a final frontier when every column carries a signal: the
/// bottom boundary `v1` of each column line.
pub open spec fn accept(n: nat) -> spec_fn(BoundaryState) -> nat {
    |state: BoundaryState| if state.columns == board_mask_spec(n) {
        1nat
    } else {
        0nat
    }
}

/// Weight one for every frontier: `paths(n, k, s, unit())` counts the partial
/// placements of `k` rows.
pub open spec fn unit() -> spec_fn(BoundaryState) -> nat {
    |state: BoundaryState| 1nat
}

/// Multiplicity of a first-row queen in column `c` under the vertical
/// reflection: mirrored pairs are represented by their left column with
/// weight two, the middle column of an odd board has weight one, and columns
/// right of the middle are dropped.
pub open spec fn orbit_weight(n: nat, c: nat) -> nat {
    if 2 * c + 1 > n {
        0
    } else if 2 * c + 1 == n {
        1
    } else {
        2
    }
}

/// First-row queens in columns `[0, k)` weighted by their orbit multiplicity,
/// followed by `j` further rows.
pub open spec fn orbit_sum(n: nat, j: nat, f: spec_fn(BoundaryState) -> nat, k: nat) -> nat
    decreases k,
{
    if k == 0 {
        0
    } else {
        orbit_sum(n, j, f, (k - 1) as nat) + orbit_weight(n, (k - 1) as nat) * paths(
            n,
            j,
            place(n, empty_state(), (k - 1) as nat),
            f,
        )
    }
}

/// The weighted count of `k` rows from the empty frontier; with `symmetric`
/// the first row is sliced by vertical-reflection orbits.
pub open spec fn rooted(n: nat, k: nat, symmetric: bool, f: spec_fn(BoundaryState) -> nat) -> nat {
    if k == 0 {
        f(empty_state())
    } else if symmetric {
        orbit_sum(n, (k - 1) as nat, f, n)
    } else {
        paths(n, k, empty_state(), f)
    }
}

/// The exact count of the network on an `n`-by-`n` board.
pub open spec fn board_count(n: nat, symmetric: bool) -> nat {
    rooted(n, n, symmetric, accept(n))
}

/// The total weight of the partial placements of the first `k` rows.
pub open spec fn layer_total(n: nat, k: nat, symmetric: bool) -> nat {
    rooted(n, k, symmetric, unit())
}

/// `sum_i weight_i * g(key_i)` over a list of packed frontier terms.
pub open spec fn weighted_sum(terms: Seq<(PackedBoundary, u128)>, g: spec_fn(u128) -> nat) -> nat
    decreases terms.len(),
{
    if terms.len() == 0 {
        0
    } else {
        weighted_sum(terms.drop_last(), g) + (terms.last().1 as nat) * g(terms.last().0.0)
    }
}

/// The sum of the weights of a list of packed frontier terms.
pub open spec fn total_weight(terms: Seq<(PackedBoundary, u128)>) -> nat {
    weighted_sum(terms, |key: u128| 1nat)
}

/// `paths(n, j, s, f)` read from the packed key of `s`.
pub open spec fn key_paths(n: nat, j: nat, f: spec_fn(BoundaryState) -> nat) -> spec_fn(u128) -> nat {
    |key: u128| paths(n, j, unpack_spec(key, n), f)
}

/// A list of frontier terms with their packed keys.
pub open spec fn pack_terms(terms: Seq<(BoundaryState, u128)>, n: nat) -> Seq<(PackedBoundary, u128)> {
    terms.map_values(|term: (BoundaryState, u128)| (PackedBoundary(pack_spec(term.0, n)), term.1))
}

/// `sum_i weight_i * paths(n, j, state_i, f)` over a list of frontier terms.
pub open spec fn state_sum(
    terms: Seq<(BoundaryState, u128)>,
    n: nat,
    j: nat,
    f: spec_fn(BoundaryState) -> nat,
) -> nat
    decreases terms.len(),
{
    if terms.len() == 0 {
        0
    } else {
        state_sum(terms.drop_last(), n, j, f) + (terms.last().1 as nat) * paths(
            n,
            j,
            terms.last().0,
            f,
        )
    }
}

/// Each frontier of `states` paired with `weight`.
pub open spec fn with_weight(states: Seq<BoundaryState>, weight: u128) -> Seq<(BoundaryState, u128)> {
    states.map_values(|t: BoundaryState| (t, weight))
}

/// The successors of `state` paired with `weight`.
pub open spec fn weighted_successors(n: nat, state: BoundaryState, weight: u128) -> Seq<
    (BoundaryState, u128),
> {
    with_weight(row_successors(n, state), weight)
}

pub proof fn lemma_weighted_sum_concat(a: Seq<(PackedBoundary, u128)>, b: Seq<(PackedBoundary, u128)>, g: spec_fn(u128) -> nat)
    ensures
        weighted_sum(a + b, g) == weighted_sum(a, g) + weighted_sum(b, g),
    decreases b.len(),
{
    if b.len() == 0 {
        assert(a + b =~= a);
    } else {
        assert((a + b).drop_last() =~= a + b.drop_last());
        assert((a + b).last() == b.last());
        lemma_weighted_sum_concat(a, b.drop_last(), g);
    }
}

pub proof fn lemma_state_sum_concat(
    a: Seq<(BoundaryState, u128)>,
    b: Seq<(BoundaryState, u128)>,
    n: nat,
    j: nat,
    f: spec_fn(BoundaryState) -> nat,
)
    ensures
        state_sum(a + b, n, j, f) == state_sum(a, n, j, f) + state_sum(b, n, j, f),
    decreases b.len(),
{
    if b.len() == 0 {
        assert(a + b =~= a);
    } else {
        assert((a + b).drop_last() =~= a + b.drop_last());
        assert((a + b).last() == b.last());
        lemma_state_sum_concat(a, b.drop_last(), n, j, f);
    }
}

/// Removing the element at `i` removes its term from the weighted sum.
pub proof fn lemma_weighted_sum_remove(terms: Seq<(PackedBoundary, u128)>, i: int, g: spec_fn(u128) -> nat)
    requires
        0 <= i < terms.len(),
    ensures
        weighted_sum(terms, g) == weighted_sum(terms.remove(i), g) + (terms[i].1 as nat) * g(
            terms[i].0.0,
        ),
    decreases terms.len(),
{
    if i == terms.len() - 1 {
        assert(terms.remove(i) =~= terms.drop_last());
    } else {
        assert(terms.remove(i).drop_last() =~= terms.drop_last().remove(i));
        assert(terms.remove(i).last() == terms.last());
        lemma_weighted_sum_remove(terms.drop_last(), i, g);
    }
}

/// Reordering a list of terms does not change its weighted sum.
pub proof fn lemma_weighted_sum_permutation(
    a: Seq<(PackedBoundary, u128)>,
    b: Seq<(PackedBoundary, u128)>,
    g: spec_fn(u128) -> nat,
)
    requires
        a.to_multiset() == b.to_multiset(),
    ensures
        weighted_sum(a, g) == weighted_sum(b, g),
    decreases a.len(),
{
    broadcast use vstd::seq_lib::group_seq_properties;
    broadcast use vstd::multiset::group_multiset_axioms;

    a.to_multiset_ensures();
    b.to_multiset_ensures();
    if a.len() == 0 {
        assert(b.len() == 0);
    } else {
        let x = a.last();
        assert(a.to_multiset().count(x) > 0) by {
            assert(a.contains(x)) by {
                assert(a[a.len() - 1] == x);
            }
        }
        assert(b.contains(x));
        let i = b.index_of(x);
        assert(b[i] == x);
        let b2 = b.remove(i);
        let a2 = a.drop_last();
        assert(a =~= a2.push(x));
        assert(b2.to_multiset() == b.to_multiset().remove(x)) by {
            b.to_multiset_ensures();
            assert(b =~= b2.insert(i, x));
            b2.insert_ensures(i, x);
            b2.to_multiset_ensures();
            vstd::seq_lib::lemma_multiset_commutative(b2.take(i), b2.skip(i));
            assert(b2.take(i) + b2.skip(i) =~= b2);
            assert(b2.insert(i, x) =~= b2.take(i).push(x) + b2.skip(i));
            vstd::seq_lib::lemma_multiset_commutative(b2.take(i).push(x), b2.skip(i));
            b2.take(i).to_multiset_ensures();
        }
        assert(a2.to_multiset() == a.to_multiset().remove(x)) by {
            a2.to_multiset_ensures();
        }
        lemma_weighted_sum_permutation(a2, b2, g);
        lemma_weighted_sum_remove(b, i, g);
    }
}

pub proof fn lemma_row_successors_fit(n: nat, state: BoundaryState, k: nat)
    requires
        n < 64,
        k <= n,
        state_fits(state, n),
    ensures
        forall|i: int|
            0 <= i < row_successors_upto(n, state, k).len() ==> state_fits(
                #[trigger] row_successors_upto(n, state, k)[i],
                n,
            ),
    decreases k,
{
    if k > 0 {
        let prev = row_successors_upto(n, state, (k - 1) as nat);
        let succ = row_successors_upto(n, state, k);
        lemma_row_successors_fit(n, state, (k - 1) as nat);
        lemma_place_fits(n, state, (k - 1) as nat);
        assert forall|i: int| 0 <= i < succ.len() implies state_fits(#[trigger] succ[i], n) by {
            if i < prev.len() {
                assert(succ[i] == prev[i]);
            } else {
                assert(succ[i] == place(n, state, (k - 1) as nat));
            }
        }
    }
}

pub proof fn lemma_place_fits(n: nat, state: BoundaryState, c: nat)
    requires
        n < 64,
        c < n,
        state_fits(state, n),
    ensures
        state_fits(place(n, state, c), n),
{
    let nn = n as u64;
    let cc = c as u64;
    let cols = state.columns;
    let dr = state.diag_dr;
    let dl = state.diag_dl;
    let mask = board_mask_spec(n);
    assert((cols | (1u64 << cc)) >> nn == 0 && ((((dr | (1u64 << cc)) << 1u64) & mask) >> nn)
        == 0 && (((dl | (1u64 << cc)) >> 1u64) >> nn) == 0) by (bit_vector)
        requires
            nn < 64,
            cc < nn,
            cols >> nn == 0,
            dr >> nn == 0,
            dl >> nn == 0,
            mask == ((1u64 << nn) - 1u64) as u64,
    ;
}

/// The packed successors of one parent contribute the parent's weight times
/// its path count one row further.
pub proof fn lemma_expand_parent(
    n: nat,
    state: BoundaryState,
    weight: u128,
    j: nat,
    f: spec_fn(BoundaryState) -> nat,
)
    requires
        n <= 42,
        state_fits(state, n),
    ensures
        weighted_sum(pack_terms(weighted_successors(n, state, weight), n), key_paths(n, j, f))
            == (weight as nat) * paths(n, j + 1, state, f),
{
    lemma_expand_prefix(n, state, weight, j, f, n);
}

proof fn lemma_expand_prefix(
    n: nat,
    state: BoundaryState,
    weight: u128,
    j: nat,
    f: spec_fn(BoundaryState) -> nat,
    k: nat,
)
    requires
        n <= 42,
        k <= n,
        state_fits(state, n),
    ensures
        weighted_sum(
            pack_terms(
                with_weight(row_successors_upto(n, state, k), weight),
                n,
            ),
            key_paths(n, j, f),
        ) == (weight as nat) * sum_paths(n, j, row_successors_upto(n, state, k), f),
    decreases k,
{
    let succ = row_successors_upto(n, state, k);
    let terms = pack_terms(with_weight(succ, weight), n);
    if k == 0 {
        assert(terms.len() == 0);
        assert(succ.len() == 0);
        assert((weight as nat) * 0 == 0);
        assert(weighted_sum(terms, key_paths(n, j, f)) == (weight as nat) * sum_paths(n, j, succ, f));
    } else {
        let prev = row_successors_upto(n, state, (k - 1) as nat);
        let prev_terms = pack_terms(with_weight(prev, weight), n);
        lemma_expand_prefix(n, state, weight, j, f, (k - 1) as nat);
        lemma_row_successors_fit(n, state, k);
        if cell_free(state, (k - 1) as nat) {
            let t = place(n, state, (k - 1) as nat);
            assert(succ =~= prev.push(t));
            assert(terms.drop_last() =~= prev_terms);
            assert(succ.drop_last() =~= prev);
            lemma_place_fits(n, state, (k - 1) as nat);
            lemma_pack_round_trip(t, n);
            assert(terms.last().0.0 == pack_spec(t, n));
            assert(terms.last().1 == weight);
            assert(succ.last() == t);
            assert(weighted_sum(terms, key_paths(n, j, f)) == weighted_sum(prev_terms, key_paths(n, j, f))
                + (weight as nat) * paths(n, j, t, f));
            assert(sum_paths(n, j, succ, f) == sum_paths(n, j, prev, f) + paths(n, j, t, f));
            assert(unpack_spec(terms.last().0.0, n) == t);
            assert((weight as nat) * sum_paths(n, j, succ, f) == (weight as nat) * sum_paths(
                n,
                j,
                prev,
                f,
            ) + (weight as nat) * paths(n, j, t, f)) by (nonlinear_arith)
                requires
                    sum_paths(n, j, succ, f) == sum_paths(n, j, prev, f) + paths(n, j, t, f),
            ;
            assert(weighted_sum(terms, key_paths(n, j, f)) == (weight as nat) * sum_paths(n, j, succ, f));
        } else {
            assert(succ =~= prev);
            assert(terms =~= prev_terms);
            assert(weighted_sum(terms, key_paths(n, j, f)) == (weight as nat) * sum_paths(n, j, succ, f));
        }
    }
}

/// Packing a list of frontier terms keeps its weighted path sum.
pub proof fn lemma_pack_terms_sum(
    terms: Seq<(BoundaryState, u128)>,
    n: nat,
    j: nat,
    f: spec_fn(BoundaryState) -> nat,
)
    requires
        n <= 42,
        forall|i: int| 0 <= i < terms.len() ==> state_fits(#[trigger] terms[i].0, n),
    ensures
        weighted_sum(pack_terms(terms, n), key_paths(n, j, f)) == state_sum(terms, n, j, f),
    decreases terms.len(),
{
    if terms.len() > 0 {
        lemma_pack_terms_sum(terms.drop_last(), n, j, f);
        assert(pack_terms(terms, n).drop_last() =~= pack_terms(terms.drop_last(), n));
        lemma_pack_round_trip(terms.last().0, n);
    }
}

} // verus!

verus! {

/// The low `k` bits.
pub open spec fn low_mask(k: nat) -> u64 {
    ((1u64 << (k as u64)) - 1u64) as u64
}

/// The legal queen columns of `state` as a bit set.
pub open spec fn available_spec(n: nat, state: BoundaryState) -> u64 {
    (!state.columns & board_mask_spec(n)) & (!state.diag_dr & board_mask_spec(n)) & (!state.diag_dl
        & board_mask_spec(n))
}

/// Bit `c` of the available set is set exactly when `c` is a legal column.
pub proof fn lemma_available_bit(n: nat, state: BoundaryState, c: nat)
    requires
        n < 64,
        c < 64,
    ensures
        has_bit(available_spec(n, state), c) == (c < n && cell_free(state, c)),
{
    let nn = n as u64;
    let cc = c as u64;
    let x = state.columns;
    let y = state.diag_dr;
    let z = state.diag_dl;
    let b = board_mask_spec(n);
    assert((((((!x & b) & (!y & b) & (!z & b)) >> cc) & 1u64) == 1u64) == (cc < nn && (x >> cc)
        & 1u64 != 1u64 && (y >> cc) & 1u64 != 1u64 && (z >> cc) & 1u64 != 1u64)) by (bit_vector)
        requires
            nn < 64,
            cc < 64,
            b == ((1u64 << nn) - 1u64) as u64,
    ;
}

/// No legal column among `[k, m)` leaves the successor list unchanged.
pub proof fn lemma_successors_skip(n: nat, state: BoundaryState, k: nat, m: nat)
    requires
        k <= m,
        forall|c: nat| k <= c < m ==> !#[trigger] cell_free(state, c),
    ensures
        row_successors_upto(n, state, m) == row_successors_upto(n, state, k),
    decreases m,
{
    if m > k {
        lemma_successors_skip(n, state, k, (m - 1) as nat);
        assert(!cell_free(state, (m - 1) as nat));
        assert(row_successors_upto(n, state, m) =~= row_successors_upto(n, state, (m - 1) as nat));
    }
}

/// The lowest set bit of a non-zero word, as selected by `p & -p` and cleared
/// by `p & (p - 1)`.
pub proof fn lemma_lowest_bit(p: u64, negated: u64)
    requires
        p != 0,
        negated as int + p as int == 0x1_0000_0000_0000_0000int,
    ensures
        u64_trailing_zeros(p) < 64,
        p & negated == 1u64 << (u64_trailing_zeros(p) as u64),
        has_bit(p, u64_trailing_zeros(p) as nat),
        p & ((p - 1) as u64) == p & !(1u64 << (u64_trailing_zeros(p) as u64)),
        p ^ (1u64 << (u64_trailing_zeros(p) as u64)) == p & !(1u64 << (u64_trailing_zeros(p) as u64)),
        p & low_mask(u64_trailing_zeros(p) as nat) == 0,
        p & ((p - 1) as u64) < p,
{
    axiom_u64_trailing_zeros(p);
    let t = u64_trailing_zeros(p) as u64;
    assert(p << ((64 - t) as u64) == 0);
    assert(p & negated == 1u64 << t && p & ((p - 1) as u64) == p & !(1u64 << t) && p ^ (1u64 << t)
        == p & !(1u64 << t) && p & (((1u64 << t) - 1u64) as u64) == 0 && p & ((p - 1) as u64) < p)
        by (bit_vector)
        requires
            p != 0,
            t < 64,
            (p >> t) & 1u64 == 1u64,
            p << ((64 - t) as u64) == 0,
            negated as int + p as int == 0x1_0000_0000_0000_0000int,
    ;
}

/// The trailing zeros of the single bit `1 << t` number `t`.
pub proof fn lemma_trailing_zeros_of_bit(t: u64)
    requires
        t < 64,
    ensures
        u64_trailing_zeros(1u64 << t) == t,
{
    let x = 1u64 << t;
    axiom_u64_trailing_zeros(x);
    let u = u64_trailing_zeros(x) as u64;
    assert(x != 0) by (bit_vector)
        requires
            x == 1u64 << t,
            t < 64,
    ;
    assert(u == t) by (bit_vector)
        requires
            x == 1u64 << t,
            t < 64,
            u < 64,
            (x >> u) & 1u64 == 1u64,
    ;
}

/// Clearing the lowest remaining legal column advances the scan past it.
pub proof fn lemma_scan_step(a: u64, p: u64, k: nat, t: nat)
    requires
        k <= t < 64,
        p == a & !low_mask(k),
        p & low_mask(t) == 0,
    ensures
        p & !(1u64 << (t as u64)) == a & !low_mask(t + 1),
        forall|c: nat| k <= c < t ==> !#[trigger] has_bit(a, c),
        has_bit(p, t) == has_bit(a, t),
{
    let kk = k as u64;
    let tt = t as u64;
    assert(p & !(1u64 << tt) == a & !(((1u64 << ((tt + 1) as u64)) - 1u64) as u64)) by (bit_vector)
        requires
            kk <= tt,
            tt < 64,
            p == a & !(((1u64 << kk) - 1u64) as u64),
            p & (((1u64 << tt) - 1u64) as u64) == 0,
    ;
    assert(((p >> tt) & 1u64 == 1u64) == ((a >> tt) & 1u64 == 1u64)) by (bit_vector)
        requires
            kk <= tt,
            tt < 64,
            p == a & !(((1u64 << kk) - 1u64) as u64),
    ;
    assert forall|c: nat| k <= c < t implies !#[trigger] has_bit(a, c) by {
        let cc = c as u64;
        assert((a >> cc) & 1u64 != 1u64) by (bit_vector)
            requires
                kk <= cc,
                cc < tt,
                tt < 64,
                p == a & !(((1u64 << kk) - 1u64) as u64),
                p & (((1u64 << tt) - 1u64) as u64) == 0,
        ;
    }
}

/// A scan that has nothing left at column `k` has no legal column at or after
/// `k`; a scan position `k` has nothing below `k` left.
pub proof fn lemma_scan_bounds(a: u64, p: u64, k: nat)
    requires
        k < 64,
        p == a & !low_mask(k),
    ensures
        p == 0 ==> forall|c: nat| k <= c < 64 ==> !#[trigger] has_bit(a, c),
        p & low_mask(k) == 0,
        forall|c: nat| c < 64 && has_bit(p, c) ==> k <= c,
{
    let kk = k as u64;
    assert(p & (((1u64 << kk) - 1u64) as u64) == 0) by (bit_vector)
        requires
            kk < 64,
            p == a & !(((1u64 << kk) - 1u64) as u64),
    ;
    assert forall|c: nat| c < 64 && has_bit(p, c) implies k <= c by {
        let cc = c as u64;
        assert((p >> cc) & 1u64 == 1u64 ==> kk <= cc) by (bit_vector)
            requires
                kk < 64,
                cc < 64,
                p == a & !(((1u64 << kk) - 1u64) as u64),
        ;
    }
    if p == 0 {
        assert forall|c: nat| k <= c < 64 implies !#[trigger] has_bit(a, c) by {
            let cc = c as u64;
            assert((a >> cc) & 1u64 != 1u64) by (bit_vector)
                requires
                    kk <= cc,
                    cc < 64,
                    0u64 == a & !(((1u64 << kk) - 1u64) as u64),
            ;
        }
    }
}

} // verus!

verus! {

pub proof fn lemma_successors_len(n: nat, state: BoundaryState, k: nat)
    ensures
        row_successors_upto(n, state, k).len() <= k,
    decreases k,
{
    if k > 0 {
        lemma_successors_len(n, state, (k - 1) as nat);
    }
}

/// Every column is legal below the empty frontier.
pub proof fn lemma_empty_successors(n: nat, k: nat)
    requires
        k <= n < 64,
    ensures
        row_successors_upto(n, empty_state(), k) == Seq::new(k, |c: int| place(n, empty_state(), c as nat)),
    decreases k,
{
    if k > 0 {
        lemma_empty_successors(n, (k - 1) as nat);
        let c = (k - 1) as u64;
        assert((0u64 >> c) & 1u64 != 1u64) by (bit_vector);
        assert(cell_free(empty_state(), (k - 1) as nat));
        assert(row_successors_upto(n, empty_state(), k) =~= Seq::new(k, |c: int| place(n, empty_state(), c as nat)));
    }
}

/// The first-row queen of `place(n, empty, c)` is found again as the
/// trailing zeros of its column signals.
pub proof fn lemma_first_row_column(n: nat, c: nat)
    requires
        c < n < 64,
    ensures
        u64_trailing_zeros(place(n, empty_state(), c).columns) == c,
{
    let cc = c as u64;
    assert(0u64 | (1u64 << cc) == 1u64 << cc) by (bit_vector);
    lemma_trailing_zeros_of_bit(cc);
}

} // verus!

verus! {

/// Indicator of the key `key`: `weighted_sum(terms, indicator(key))` is the
/// total weight of the terms stored under `key`.
pub open spec fn indicator(key: u128) -> spec_fn(u128) -> nat {
    |k: u128| if k == key {
        1nat
    } else {
        0nat
    }
}

/// The weight of every term, as a key function.
pub open spec fn unit_key() -> spec_fn(u128) -> nat {
    |k: u128| 1nat
}

pub proof fn lemma_weighted_sum_mono(terms: Seq<(PackedBoundary, u128)>, g1: spec_fn(u128) -> nat, g2: spec_fn(u128) -> nat)
    requires
        forall|k: u128| #[trigger] g1(k) <= g2(k),
    ensures
        weighted_sum(terms, g1) <= weighted_sum(terms, g2),
    decreases terms.len(),
{
    if terms.len() > 0 {
        lemma_weighted_sum_mono(terms.drop_last(), g1, g2);
        let w = terms.last().1 as nat;
        let k = terms.last().0.0;
        assert(w * g1(k) <= w * g2(k)) by (nonlinear_arith)
            requires
                g1(k) <= g2(k),
        ;
    }
}

pub proof fn lemma_weighted_sum_ext(terms: Seq<(PackedBoundary, u128)>, g1: spec_fn(u128) -> nat, g2: spec_fn(u128) -> nat)
    requires
        forall|k: u128| #[trigger] g1(k) == g2(k),
    ensures
        weighted_sum(terms, g1) == weighted_sum(terms, g2),
{
    lemma_weighted_sum_mono(terms, g1, g2);
    lemma_weighted_sum_mono(terms, g2, g1);
}

/// A key that no term carries has zero weight.
pub proof fn lemma_indicator_absent(terms: Seq<(PackedBoundary, u128)>, key: u128)
    requires
        forall|i: int| 0 <= i < terms.len() ==> (#[trigger] terms[i]).0.0 != key,
    ensures
        weighted_sum(terms, indicator(key)) == 0,
    decreases terms.len(),
{
    if terms.len() > 0 {
        lemma_indicator_absent(terms.drop_last(), key);
        assert(terms[terms.len() - 1].0.0 != key);
        assert(indicator(key)(terms.last().0.0) == 0);
    }
}

/// The total weight of the terms under a single key is at most the total
/// weight of all terms.
pub proof fn lemma_indicator_le_total(terms: Seq<(PackedBoundary, u128)>, key: u128)
    ensures
        weighted_sum(terms, indicator(key)) <= weighted_sum(terms, unit_key()),
{
    lemma_weighted_sum_mono(terms, indicator(key), unit_key());
}

/// Path counts with one more row of unit weight give the layer weights.
pub proof fn lemma_key_paths_unit(n: nat)
    ensures
        forall|k: u128| #[trigger] key_paths(n, 0, unit())(k) == unit_key()(k),
{
}

/// The accepted count is at most the total weight of the frontier.
pub proof fn lemma_key_paths_accept_le(n: nat)
    ensures
        forall|k: u128| #[trigger] key_paths(n, 0, accept(n))(k) <= unit_key()(k),
{
}

/// The reflection-orbit slicing of the first row sums to `orbit_sum`.
pub proof fn lemma_top_row_sum(n: nat, j: nat, f: spec_fn(BoundaryState) -> nat, k: nat)
    requires
        k <= n <= 42,
    ensures
        weighted_sum(
            pack_terms(crate::row::top_row_terms(n, with_weight(row_successors_upto(n, empty_state(), k), 1)), n),
            key_paths(n, j, f),
        ) == orbit_sum(n, j, f, k),
    decreases k,
{
    let terms = with_weight(row_successors_upto(n, empty_state(), k), 1);
    lemma_empty_successors(n, k);
    if k > 0 {
        let prev = with_weight(row_successors_upto(n, empty_state(), (k - 1) as nat), 1);
        lemma_empty_successors(n, (k - 1) as nat);
        lemma_top_row_sum(n, j, f, (k - 1) as nat);
        assert(terms.drop_last() =~= prev);
        let t = place(n, empty_state(), (k - 1) as nat);
        assert(terms.last() == (t, 1u128));
        lemma_first_row_column(n, (k - 1) as nat);
        let w = orbit_weight(n, (k - 1) as nat);
        let top = crate::row::top_row_terms(n, terms);
        let top_prev = crate::row::top_row_terms(n, prev);
        assert(orbit_sum(n, j, f, k) == orbit_sum(n, j, f, (k - 1) as nat) + w * paths(n, j, t, f));
        if w == 0 {
            assert(top =~= top_prev);
            assert(w * paths(n, j, t, f) == 0);
        } else {
            assert(top =~= top_prev.push((t, (1 * w) as u128)));
            assert(pack_terms(top, n).drop_last() =~= pack_terms(top_prev, n));
            assert(state_fits(empty_state(), n)) by {
                let nn = n as u64;
                assert(0u64 >> nn == 0) by (bit_vector);
            }
            lemma_place_fits(n, empty_state(), (k - 1) as nat);
            lemma_pack_round_trip(t, n);
            let packed = pack_terms(top, n);
            assert(packed.last() == (PackedBoundary(pack_spec(t, n)), (1 * w) as u128));
            assert(((1 * w) as u128) as nat == w);
            assert(key_paths(n, j, f)(pack_spec(t, n)) == paths(n, j, t, f));
            assert(weighted_sum(packed, key_paths(n, j, f)) == weighted_sum(packed.drop_last(), key_paths(n, j, f))
                + w * paths(n, j, t, f));
        }
    }
}

} // verus!
