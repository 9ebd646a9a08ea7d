//! Vertical reflection of the board. A frontier is read as three sets of
//! columns; reflecting the board maps column `i` to `n - 1 - i` and swaps
//! the two diagonal directions. The row transfer commutes with the
//! reflection, so a first-row queen and its mirror image have the same
//! completions, and slicing the first row by reflection orbits leaves every
//! count unchanged.
use vstd::prelude::*;

use crate::boundary::{BoundaryState, board_mask_spec, empty_state, has_bit, state_fits};
use crate::transfer::{
    accept, board_count, cell_free, lemma_empty_successors, lemma_place_fits, orbit_sum, orbit_weight,
    paths, place, rooted, row_successors, row_successors_upto, sum_paths,
};

verus! {

/// The signal sets of a frontier: columns, down-right diagonals and
/// down-left diagonals.
pub type Signals = (Set<int>, Set<int>, Set<int>);

/// The columns among `[0, n)` whose bit is set in `mask`.
pub open spec fn columns_of(n: nat, mask: u64) -> Set<int> {
    Set::new(|i: int| 0 <= i < n && has_bit(mask, i as nat))
}

/// The signal sets of a packed frontier on the board of side `n`.
pub open spec fn signals_of(n: nat, s: BoundaryState) -> Signals {
    (columns_of(n, s.columns), columns_of(n, s.diag_dr), columns_of(n, s.diag_dl))
}

/// No signal arrives at column `c`.
pub open spec fn open_at(f: Signals, c: int) -> bool {
    !f.0.contains(c) && !f.1.contains(c) && !f.2.contains(c)
}

/// The signals below a row whose queen stands in column `c`: the column
/// signal stays, down-right signals move one column right and down-left
/// signals one column left, those leaving the board being dropped.
pub open spec fn put(n: nat, f: Signals, c: int) -> Signals {
    (
        f.0.insert(c),
        Set::new(|i: int| 1 <= i < n && (f.1.contains(i - 1) || i - 1 == c)),
        Set::new(|i: int| 0 <= i < n && (f.2.contains(i + 1) || i + 1 == c)),
    )
}

/// Every column of the board carries a signal.
pub open spec fn all_columns(n: nat, f: Signals) -> bool {
    forall|i: int| 0 <= i < n ==> #[trigger] f.0.contains(i)
}

/// The placements of `k` further rows below `f` that end with every column
/// taken.
pub open spec fn completions(n: nat, k: nat, f: Signals) -> nat
    decreases k, 0nat,
{
    if k == 0 {
        if all_columns(n, f) {
            1
        } else {
            0
        }
    } else {
        open_sum(n, (k - 1) as nat, f, n)
    }
}

/// `completions` below the open columns among `[0, m)` of `f`.
pub open spec fn open_sum(n: nat, k: nat, f: Signals, m: nat) -> nat
    decreases k, m + 1,
{
    if m == 0 {
        0
    } else {
        open_sum(n, k, f, (m - 1) as nat) + if open_at(f, m - 1) {
            completions(n, k, put(n, f, m - 1))
        } else {
            0
        }
    }
}

/// The image of a set of columns under the reflection `i -> n - 1 - i`.
pub open spec fn reflect(n: nat, s: Set<int>) -> Set<int> {
    Set::new(|i: int| 0 <= i < n && s.contains(n - 1 - i))
}

/// The reflected frontier: columns are reflected, and the two diagonal
/// directions trade places.
pub open spec fn mirror(n: nat, f: Signals) -> Signals {
    (reflect(n, f.0), reflect(n, f.2), reflect(n, f.1))
}

/// Every signal of `f` lies on the board.
pub open spec fn on_board(n: nat, f: Signals) -> bool {
    &&& forall|i: int| #[trigger] f.0.contains(i) ==> 0 <= i < n
    &&& forall|i: int| #[trigger] f.1.contains(i) ==> 0 <= i < n
    &&& forall|i: int| #[trigger] f.2.contains(i) ==> 0 <= i < n
}

/// `g(0) + ... + g(m - 1)`.
pub open spec fn total(g: spec_fn(int) -> nat, m: nat) -> nat
    decreases m,
{
    if m == 0 {
        0
    } else {
        total(g, (m - 1) as nat) + g(m - 1)
    }
}

/// The summand of `open_sum` at column `c`.
pub open spec fn open_term(n: nat, k: nat, f: Signals) -> spec_fn(int) -> nat {
    |c: int| if open_at(f, c) {
        completions(n, k, put(n, f, c))
    } else {
        0
    }
}

/// The completions below a first-row queen in column `c`.
pub open spec fn first_row(n: nat, j: nat) -> spec_fn(int) -> nat {
    |c: int| paths(n, j, place(n, empty_state(), c as nat), accept(n))
}

proof fn lemma_total_ext(g1: spec_fn(int) -> nat, g2: spec_fn(int) -> nat, m: nat)
    requires
        forall|c: int| 0 <= c < m ==> #[trigger] g1(c) == g2(c),
    ensures
        total(g1, m) == total(g2, m),
    decreases m,
{
    if m > 0 {
        lemma_total_ext(g1, g2, (m - 1) as nat);
    }
}

proof fn lemma_total_add(g1: spec_fn(int) -> nat, g2: spec_fn(int) -> nat, g: spec_fn(int) -> nat, m: nat)
    requires
        forall|c: int| 0 <= c < m ==> #[trigger] g(c) == g1(c) + g2(c),
    ensures
        total(g1, m) + total(g2, m) == total(g, m),
    decreases m,
{
    if m > 0 {
        lemma_total_add(g1, g2, g, (m - 1) as nat);
    }
}

proof fn lemma_total_suffix(g: spec_fn(int) -> nat, n: nat, m: nat)
    requires
        m <= n,
    ensures
        total(|c: int| g(n - 1 - c), m) + total(g, (n - m) as nat) == total(g, n),
    decreases m,
{
    if m > 0 {
        lemma_total_suffix(g, n, (m - 1) as nat);
        assert(total(g, (n - m + 1) as nat) == total(g, (n - m) as nat) + g(n - m));
    }
}

/// A sum over `[0, n)` read backwards.
proof fn lemma_total_reverse(g: spec_fn(int) -> nat, n: nat)
    ensures
        total(|c: int| g(n - 1 - c), n) == total(g, n),
{
    lemma_total_suffix(g, n, n);
}

proof fn lemma_open_sum_total(n: nat, k: nat, f: Signals, m: nat)
    ensures
        open_sum(n, k, f, m) == total(open_term(n, k, f), m),
    decreases m,
{
    if m > 0 {
        lemma_open_sum_total(n, k, f, (m - 1) as nat);
    }
}

proof fn lemma_put_on_board(n: nat, f: Signals, c: int)
    requires
        on_board(n, f),
        0 <= c < n,
    ensures
        on_board(n, put(n, f, c)),
{
}

/// Placing a queen commutes with the reflection.
proof fn lemma_mirror_put(n: nat, f: Signals, c: int)
    requires
        on_board(n, f),
        0 <= c < n,
    ensures
        put(n, mirror(n, f), n - 1 - c) == mirror(n, put(n, f, c)),
        open_at(mirror(n, f), n - 1 - c) == open_at(f, c),
        on_board(n, mirror(n, f)),
{
    let a = put(n, mirror(n, f), n - 1 - c);
    let b = mirror(n, put(n, f, c));
    assert(a.0 =~= b.0);
    assert forall|i: int| a.1.contains(i) <==> b.1.contains(i) by {
        if i == 0 {
            assert(!f.2.contains(n as int));
        }
    }
    assert(a.1 =~= b.1);
    assert(a.2 =~= b.2);
}

/// The reflected frontier has as many completions as the frontier.
pub proof fn lemma_completions_mirror(n: nat, k: nat, f: Signals)
    requires
        on_board(n, f),
    ensures
        completions(n, k, mirror(n, f)) == completions(n, k, f),
    decreases k,
{
    let m = mirror(n, f);
    if k == 0 {
        if all_columns(n, f) {
            assert forall|i: int| 0 <= i < n implies #[trigger] m.0.contains(i) by {
                assert(f.0.contains(n - 1 - i));
            }
        }
        if all_columns(n, m) {
            assert forall|i: int| 0 <= i < n implies #[trigger] f.0.contains(i) by {
                assert(m.0.contains(n - 1 - i));
            }
        }
    } else {
        let j = (k - 1) as nat;
        let g = open_term(n, j, f);
        let gm = open_term(n, j, m);
        let back = |c: int| g(n - 1 - c);
        lemma_open_sum_total(n, j, f, n);
        lemma_open_sum_total(n, j, m, n);
        assert forall|c: int| 0 <= c < n implies #[trigger] gm(c) == back(c) by {
            let d = n - 1 - c;
            lemma_mirror_put(n, f, d);
            assert(n - 1 - d == c);
            lemma_put_on_board(n, f, d);
            lemma_completions_mirror(n, j, put(n, f, d));
        }
        lemma_total_ext(gm, back, n);
        lemma_total_reverse(g, n);
    }
}

/// The bit facts behind the signal sets of a placed queen.
proof fn lemma_frontier_bits(x: u64, c: u64, i: u64, n: u64)
    by (bit_vector)
    requires
        c < 64,
        i < 64,
        n < 64,
    ensures
        ((x | (1u64 << c)) >> i) & 1u64 == 1u64 <==> (((x >> i) & 1u64 == 1u64) || i == c),
        i < 63 ==> ((((x << 1u64) & (((1u64 << n) - 1u64) as u64)) >> ((i + 1) as u64)) & 1u64 == 1u64
            <==> ((i + 1) < n && (x >> i) & 1u64 == 1u64)),
        (((x << 1u64) & (((1u64 << n) - 1u64) as u64)) >> 0u64) & 1u64 != 1u64,
        i < 63 ==> (((x >> 1u64) >> i) & 1u64 == 1u64 <==> (x >> ((i + 1) as u64)) & 1u64 == 1u64),
        x >> n == 0u64 ==> (x >> n) & 1u64 != 1u64,
        n >= 1 ==> (x >> n == 0u64 ==> (x >> 1u64) >> ((n - 1) as u64) == 0u64),
        n >= 1 ==> ((x == (((1u64 << n) - 1u64) as u64)) <==> ((x >> 0u64) & 1u64 == 1u64 && x >> 1u64
            == (((1u64 << ((n - 1) as u64)) - 1u64) as u64))),
        x >> 0u64 == x,
        (((1u64 << 0u64) - 1u64) as u64) == 0u64,
        (0u64 >> i) & 1u64 != 1u64,
        0u64 >> n == 0u64,
        (x >> n == 0u64 && c < n) ==> ((x | (1u64 << c)) >> n == 0u64),
        (((x | (1u64 << c)) << 1u64) & (((1u64 << n) - 1u64) as u64)) == ((((x & (((1u64 << n) - 1u64) as u64))
            | (1u64 << c)) << 1u64) & (((1u64 << n) - 1u64) as u64)),
        (0u64 | x) == x,
        i < n ==> ((((x & (((1u64 << n) - 1u64) as u64)) >> i) & 1u64 == 1u64) <==> ((x >> i) & 1u64 == 1u64)),
        (0u64 | (1u64 << 0u64)) == (((1u64 << 1u64) - 1u64) as u64),
{
}

pub(crate) proof fn lemma_bits(x: u64, c: nat, i: nat, n: nat)
    requires
        c < 64,
        i < 64,
        n < 64,
    ensures
        has_bit(x | (1u64 << (c as u64)), i) <==> (has_bit(x, i) || i == c),
        i < 63 ==> (has_bit((x << 1u64) & board_mask_spec(n), i + 1) <==> (i + 1 < n && has_bit(x, i))),
        !has_bit((x << 1u64) & board_mask_spec(n), 0),
        i < 63 ==> (has_bit(x >> 1u64, i) <==> has_bit(x, i + 1)),
        x >> (n as u64) == 0 ==> !has_bit(x, n),
        !has_bit(0u64, i),
        (x >> (n as u64) == 0 && c < n) ==> ((x | (1u64 << (c as u64))) >> (n as u64) == 0),
        ((x | (1u64 << (c as u64))) << 1u64) & board_mask_spec(n) == (((x & board_mask_spec(n)) | (1u64
            << (c as u64))) << 1u64) & board_mask_spec(n),
        (0u64 | x) == x,
        i < n ==> (has_bit(x & board_mask_spec(n), i) <==> has_bit(x, i)),
        (0u64 | (1u64 << 0u64)) == board_mask_spec(1),
        0u64 >> (n as u64) == 0,
{
    lemma_frontier_bits(x, c as u64, i as u64, n as u64);
}

/// A word without bits at or above `n` is the full mask of the board exactly
/// when every column bit is set.
pub(crate) proof fn lemma_full_mask(x: u64, n: nat)
    requires
        n < 64,
        x >> (n as u64) == 0,
    ensures
        x == board_mask_spec(n) <==> (forall|i: int| 0 <= i < n ==> #[trigger] has_bit(x, i as nat)),
    decreases n,
{
    lemma_frontier_bits(x, 0, 0, n as u64);
    if n > 0 {
        let y = x >> 1u64;
        lemma_full_mask(y, (n - 1) as nat);
        assert(((n - 1) as nat) as u64 == (n as u64 - 1) as u64);
        if x == board_mask_spec(n) {
            assert forall|i: int| 0 <= i < n implies #[trigger] has_bit(x, i as nat) by {
                if i > 0 {
                    lemma_bits(x, 0, (i - 1) as nat, n);
                    assert(has_bit(y, (i - 1) as nat));
                }
            }
        }
        if forall|i: int| 0 <= i < n ==> #[trigger] has_bit(x, i as nat) {
            assert forall|i: int| 0 <= i < n - 1 implies #[trigger] has_bit(y, i as nat) by {
                lemma_bits(x, 0, i as nat, n);
                assert(has_bit(x, (i + 1) as nat));
            }
            let z: int = 0;
            assert(has_bit(x, z as nat));
        }
    }
}

/// The signal sets of a placed queen.
proof fn lemma_signals_place(n: nat, s: BoundaryState, c: nat)
    requires
        n < 64,
        c < n,
        state_fits(s, n),
    ensures
        signals_of(n, place(n, s, c)) == put(n, signals_of(n, s), c as int),
{
    let b = 1u64 << (c as u64);
    let p = place(n, s, c);
    let f = signals_of(n, s);
    let g = put(n, f, c as int);
    let h = signals_of(n, p);
    assert forall|i: int| h.0.contains(i) <==> g.0.contains(i) by {
        if 0 <= i < n {
            lemma_bits(s.columns, c, i as nat, n);
        }
    }
    assert forall|i: int| h.1.contains(i) <==> g.1.contains(i) by {
        if 0 <= i < n {
            lemma_bits(s.diag_dr | b, c, 0, n);
            if i >= 1 {
                lemma_bits(s.diag_dr | b, c, (i - 1) as nat, n);
                lemma_bits(s.diag_dr, c, (i - 1) as nat, n);
                assert((i - 1) as nat + 1 == i as nat);
            }
        }
    }
    assert forall|i: int| h.2.contains(i) <==> g.2.contains(i) by {
        if 0 <= i < n {
            lemma_bits(s.diag_dl | b, c, i as nat, n);
            lemma_bits(s.diag_dl, c, (i + 1) as nat, n);
            lemma_bits(s.diag_dl, c, i as nat, n);
            assert(i as nat + 1 == (i + 1) as nat);
        }
    }
    assert(h.0 =~= g.0);
    assert(h.1 =~= g.1);
    assert(h.2 =~= g.2);
}

/// The packed automaton counts what the signal sets count.
pub proof fn lemma_paths_signals(n: nat, k: nat, s: BoundaryState)
    requires
        n < 64,
        state_fits(s, n),
    ensures
        paths(n, k, s, accept(n)) == completions(n, k, signals_of(n, s)),
    decreases k, 0nat,
{
    if k == 0 {
        lemma_full_mask(s.columns, n);
        let f = signals_of(n, s);
        if all_columns(n, f) {
            assert forall|i: int| 0 <= i < n implies #[trigger] has_bit(s.columns, i as nat) by {
                assert(f.0.contains(i));
            }
        }
        if s.columns == board_mask_spec(n) {
            assert forall|i: int| 0 <= i < n implies #[trigger] f.0.contains(i) by {
                assert(has_bit(s.columns, i as nat));
            }
        }
    } else {
        lemma_sum_paths_signals(n, (k - 1) as nat, s, n);
    }
}

proof fn lemma_sum_paths_signals(n: nat, k: nat, s: BoundaryState, m: nat)
    requires
        n < 64,
        m <= n,
        state_fits(s, n),
    ensures
        sum_paths(n, k, row_successors_upto(n, s, m), accept(n)) == open_sum(n, k, signals_of(n, s), m),
    decreases k, m + 1,
{
    if m > 0 {
        let c = (m - 1) as nat;
        lemma_sum_paths_signals(n, k, s, c);
        let prev = row_successors_upto(n, s, c);
        let seq = row_successors_upto(n, s, m);
        assert(cell_free(s, c) == open_at(signals_of(n, s), c as int));
        if cell_free(s, c) {
            let p = place(n, s, c);
            assert(seq == prev + seq![p]);
            assert(seq.drop_last() =~= prev);
            assert(seq.last() == p);
            lemma_place_fits(n, s, c);
            lemma_signals_place(n, s, c);
            lemma_paths_signals(n, k, p);
        } else {
            assert(seq =~= prev);
        }
    }
}

proof fn lemma_first_row_total(n: nat, j: nat, m: nat)
    requires
        m <= n < 64,
    ensures
        sum_paths(n, j, row_successors_upto(n, empty_state(), m), accept(n)) == total(first_row(n, j), m),
    decreases m,
{
    lemma_empty_successors(n, m);
    if m > 0 {
        lemma_first_row_total(n, j, (m - 1) as nat);
        lemma_empty_successors(n, (m - 1) as nat);
        let seq = row_successors_upto(n, empty_state(), m);
        assert(seq.drop_last() =~= row_successors_upto(n, empty_state(), (m - 1) as nat));
        assert(seq.last() == place(n, empty_state(), (m - 1) as nat));
    }
}

pub(crate) proof fn lemma_orbit_total(n: nat, j: nat, m: nat)
    ensures
        orbit_sum(n, j, accept(n), m) == total(|c: int| orbit_weight(n, c as nat) * first_row(n, j)(c), m),
    decreases m,
{
    if m > 0 {
        lemma_orbit_total(n, j, (m - 1) as nat);
    }
}

/// A first-row queen and its mirror image have the same completions.
proof fn lemma_first_row_symmetric(n: nat, j: nat, c: int)
    requires
        n < 64,
        0 <= c < n,
    ensures
        first_row(n, j)(c) == first_row(n, j)(n - 1 - c),
{
    let e = empty_state();
    let d = n - 1 - c;
    crate::sitewise::lemma_zero_shift(n);
    assert(state_fits(e, n));
    let f = signals_of(n, e);
    assert forall|i: int| !#[trigger] f.0.contains(i) && !f.1.contains(i) && !f.2.contains(i) by {
        if 0 <= i < n {
            lemma_bits(0, 0, i as nat, n);
        }
    }
    assert(mirror(n, f).0 =~= f.0);
    assert(mirror(n, f).1 =~= f.1);
    assert(mirror(n, f).2 =~= f.2);
    assert(mirror(n, f) == f);
    lemma_place_fits(n, e, c as nat);
    lemma_place_fits(n, e, d as nat);
    lemma_signals_place(n, e, c as nat);
    lemma_signals_place(n, e, d as nat);
    lemma_paths_signals(n, j, place(n, e, c as nat));
    lemma_paths_signals(n, j, place(n, e, d as nat));
    lemma_mirror_put(n, f, c);
    lemma_put_on_board(n, f, c);
    lemma_completions_mirror(n, j, put(n, f, c));
}

/// Slicing the first row by vertical-reflection orbits changes no count: on
/// every board, for every number of rows, the orbit-weighted count of the
/// placements that end with every column taken equals the plain count.
pub proof fn lemma_orbit_slicing_exact(n: nat, k: nat)
    requires
        n < 64,
    ensures
        rooted(n, k, true, accept(n)) == rooted(n, k, false, accept(n)),
{
    if k > 0 {
        let j = (k - 1) as nat;
        let p = first_row(n, j);
        let w = |c: int| orbit_weight(n, c as nat) * p(c);
        let wb = |c: int| w(n - 1 - c);
        let wr = |c: int| orbit_weight(n, (n - 1 - c) as nat) * p(c);
        lemma_first_row_total(n, j, n);
        lemma_orbit_total(n, j, n);
        lemma_total_reverse(w, n);
        assert forall|c: int| 0 <= c < n implies #[trigger] wb(c) == wr(c) by {
            lemma_first_row_symmetric(n, j, c);
        }
        lemma_total_ext(wb, wr, n);
        let twice = |c: int| p(c) + p(c);
        assert forall|c: int| 0 <= c < n implies #[trigger] twice(c) == w(c) + wr(c) by {
            let a = orbit_weight(n, c as nat);
            let b = orbit_weight(n, (n - 1 - c) as nat);
            let v = p(c);
            assert(a + b == 2);
            assert(a * v + b * v == v + v) by (nonlinear_arith)
                requires
                    a + b == 2,
            ;
        }
        lemma_total_add(w, wr, twice, n);
        lemma_total_add(p, p, twice, n);
    }
}

/// The exact count of the board with its first row sliced by reflection
/// orbits is the plain exact count.
pub broadcast proof fn lemma_orbit_count_exact(n: nat)
    requires
        n < 64,
    ensures
        #[trigger] board_count(n, true) == board_count(n, false),
{
    lemma_orbit_slicing_exact(n, n);
}

} // verus!
