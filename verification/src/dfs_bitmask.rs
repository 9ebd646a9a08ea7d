//! Independent exact bitboard DFS comparator for N-Queens.
//!
//! This is deliberately separate from the Sec. VI tensor-network contraction.
//! It is an optimized conventional search oracle/baseline and is not a PEPS
//! implementation.
use vstd::prelude::*;

use crate::boundary::{BoundaryState, board_mask, board_mask_spec, empty_state, has_bit, state_fits};
use crate::transfer::{
    available_spec, cell_free, lemma_available_bit, lemma_lowest_bit, lemma_place_fits,
    lemma_scan_bounds, lemma_scan_step, lemma_successors_len, lemma_successors_skip, low_mask,
    accept, board_count, orbit_weight, paths, place, row_successors, row_successors_upto, sum_paths,
};
use crate::certified::{lemma_power_monotone, power_of};
use crate::util::{elapsed, message, now};
use std::time::Duration;
use rayon::iter::{IntoParallelRefIterator, ParallelIterator};
use vstd::std_specs::bits::u64_trailing_zeros;

verus! {

/// The implementation uses one bit per column in a `u64`. We deliberately
/// cap the public comparator at the largest known-count validation point in
/// this repository; every recursive accumulation is nevertheless checked.
pub const MAX_N: usize = 27;

/// A search prefix: the attacked columns and diagonals after `rows_placed`
/// rows, with the multiplicity of its first-row reflection orbit.
#[derive(Clone, Copy, Debug, PartialEq, Eq, Structural)]
pub struct Task {
    pub columns: u64,
    pub diag_left: u64,
    pub diag_right: u64,
    pub symmetry_weight: u8,
    pub rows_placed: u8,
}

#[derive(Debug)]
pub struct DfsResult {
    pub n: usize,
    pub count: u128,
    pub elapsed: Duration,
    pub threads: usize,
    pub split_depth: usize,
    pub tasks: usize,
    pub recursive_nodes: u128,
    pub candidate_placements: u128,
    pub metrics_collected: bool,
}

/// Counts of one search, each saturating at `METRIC_CAP`: a counter that
/// reaches the cap has passed the largest `u64`.
#[derive(Clone, Copy, Debug)]
pub struct SearchMetrics {
    pub recursive_nodes: u128,
    pub candidate_placements: u128,
}

/// One past the largest `u64`: where the per-task counters stop.
pub const METRIC_CAP: u128 = 0x1_0000_0000_0000_0000;

/// `x`, or `METRIC_CAP` when `x` reaches it.
pub open spec fn capped(x: int) -> int {
    if x < METRIC_CAP {
        x
    } else {
        METRIC_CAP as int
    }
}

impl SearchMetrics {
    pub fn new() -> (metrics: Self)
        ensures
            metrics.recursive_nodes == 0,
            metrics.candidate_placements == 0,
    {
        SearchMetrics { recursive_nodes: 0, candidate_placements: 0 }
    }

    fn record_node(&mut self)
        requires
            old(self).recursive_nodes <= METRIC_CAP,
        ensures
            final(self).recursive_nodes == capped(old(self).recursive_nodes + 1),
            final(self).candidate_placements == old(self).candidate_placements,
    {
        if self.recursive_nodes < METRIC_CAP {
            self.recursive_nodes = self.recursive_nodes + 1;
        }
    }

    fn record_candidates(&mut self, count: u32)
        requires
            old(self).candidate_placements <= METRIC_CAP,
        ensures
            final(self).candidate_placements == capped(old(self).candidate_placements + count),
            final(self).recursive_nodes == old(self).recursive_nodes,
    {
        let room = METRIC_CAP - self.candidate_placements;
        if (count as u128) < room {
            self.candidate_placements = self.candidate_placements + count as u128;
        } else {
            self.candidate_placements = METRIC_CAP;
        }
    }
}

/// The search state of a task, read as a row frontier: the left-moving
/// diagonal attacks are the down-right signals.
pub open spec fn task_state(task: Task) -> BoundaryState {
    BoundaryState { columns: task.columns, diag_dr: task.diag_left, diag_dl: task.diag_right }
}

/// 1 when some column is still legal, else 0.
pub open spec fn leaf(n: nat) -> spec_fn(BoundaryState) -> nat {
    |state: BoundaryState| if row_successors(n, state).len() > 0 {
        1nat
    } else {
        0nat
    }
}

/// The number of legal columns.
pub open spec fn width(n: nat) -> spec_fn(BoundaryState) -> nat {
    |state: BoundaryState| row_successors(n, state).len()
}

/// No weight.
pub open spec fn zero() -> spec_fn(BoundaryState) -> nat {
    |state: BoundaryState| 0nat
}

/// One per state.
pub open spec fn one() -> spec_fn(BoundaryState) -> nat {
    |state: BoundaryState| 1nat
}

/// Fold of the DFS tree of `rows_left` rows below `state`: `node` at every
/// inner node, `last` at every node of the last row.
pub open spec fn tree(
    n: nat,
    rows_left: nat,
    state: BoundaryState,
    node: spec_fn(BoundaryState) -> nat,
    last: spec_fn(BoundaryState) -> nat,
) -> nat
    decreases rows_left, 0nat,
{
    if rows_left <= 1 {
        last(state)
    } else {
        node(state) + sum_tree(n, (rows_left - 1) as nat, row_successors(n, state), node, last)
    }
}

/// `tree` summed over `states`.
pub open spec fn sum_tree(
    n: nat,
    rows_left: nat,
    states: Seq<BoundaryState>,
    node: spec_fn(BoundaryState) -> nat,
    last: spec_fn(BoundaryState) -> nat,
) -> nat
    decreases rows_left, states.len() + 1,
{
    if states.len() == 0 {
        0
    } else {
        sum_tree(n, rows_left, states.drop_last(), node, last) + tree(
            n,
            rows_left,
            states.last(),
            node,
            last,
        )
    }
}

/// The solutions counted by the search from `state` with `rows_left` rows to
/// fill: the last row only asks whether one legal column remains.
pub open spec fn search_count(n: nat, rows_left: nat, state: BoundaryState) -> nat {
    tree(n, rows_left, state, zero(), leaf(n))
}

/// The recursive calls made by the search.
pub open spec fn search_nodes(n: nat, rows_left: nat, state: BoundaryState) -> nat {
    tree(n, rows_left, state, one(), one())
}

/// The candidate placements the search records.
pub open spec fn search_candidates(n: nat, rows_left: nat, state: BoundaryState) -> nat {
    tree(n, rows_left, state, width(n), leaf(n))
}

proof fn lemma_sum_tree_prefix(
    n: nat,
    rows_left: nat,
    states: Seq<BoundaryState>,
    i: int,
    node: spec_fn(BoundaryState) -> nat,
    last: spec_fn(BoundaryState) -> nat,
)
    requires
        0 <= i <= states.len(),
    ensures
        sum_tree(n, rows_left, states.take(i), node, last) <= sum_tree(n, rows_left, states, node, last),
    decreases states.len(),
{
    if i < states.len() {
        lemma_sum_tree_prefix(n, rows_left, states.drop_last(), i, node, last);
        assert(states.drop_last().take(i) =~= states.take(i));
    } else {
        assert(states.take(i) =~= states);
    }
}

proof fn lemma_successors_prefix(n: nat, state: BoundaryState, m: nat, p: nat)
    requires
        m <= p,
    ensures
        row_successors_upto(n, state, m).len() <= row_successors_upto(n, state, p).len(),
        row_successors_upto(n, state, p).take(row_successors_upto(n, state, m).len() as int)
            == row_successors_upto(n, state, m),
    decreases p,
{
    if p > m {
        lemma_successors_prefix(n, state, m, (p - 1) as nat);
        let a = row_successors_upto(n, state, (p - 1) as nat);
        let b = row_successors_upto(n, state, p);
        let c = row_successors_upto(n, state, m);
        assert(b.take(a.len() as int) =~= a);
        assert(b.take(c.len() as int) =~= a.take(c.len() as int));
    } else {
        assert(row_successors_upto(n, state, p).take(row_successors_upto(n, state, m).len() as int)
            =~= row_successors_upto(n, state, m));
    }
}

/// The DFS bit set of legal columns is the available set of the frontier.
proof fn lemma_dfs_available(n: nat, board: u64, columns: u64, diag_left: u64, diag_right: u64)
    requires
        n < 64,
        board == board_mask_spec(n),
    ensures
        board & !(columns | diag_left | diag_right) == available_spec(
            n,
            BoundaryState { columns, diag_dr: diag_left, diag_dl: diag_right },
        ),
{
    let b = board;
    assert(b & !(columns | diag_left | diag_right) == (!columns & b) & (!diag_left & b) & (
    !diag_right & b)) by (bit_vector);
}

/// Some legal column remains exactly when the available set is not empty.
proof fn lemma_available_nonempty(n: nat, state: BoundaryState)
    requires
        n < 64,
    ensures
        (available_spec(n, state) != 0) == (row_successors(n, state).len() > 0),
{
    let a = available_spec(n, state);
    crate::sitewise::lemma_no_low_bits(a);
    lemma_scan_bounds(a, a, 0);
    if a != 0 {
        crate::transfer::lemma_lowest_bit(a, (0x1_0000_0000_0000_0000int - a) as u64);
        let t = u64_trailing_zeros(a) as nat;
        lemma_available_bit(n, state, t);
        assert(t < n && cell_free(state, t));
        lemma_successors_prefix(n, state, t + 1, n);
        assert(row_successors_upto(n, state, t + 1).len() > 0);
    } else {
        assert forall|c: nat| 0 <= c < n implies !#[trigger] cell_free(state, c) by {
            lemma_available_bit(n, state, c);
        }
        lemma_successors_skip(n, state, 0, n);
    }
}

/// Richards-style bitboard recursion.
///
/// `diag_left` and `diag_right` are the squares attacked in the current row.
/// Only the low `n` bits selected by `board_mask` participate. The last row is
/// counted directly, avoiding a final recursive call per solution.
#[verifier::rlimit(30)]
fn search<const TRACK_METRICS: bool>(
    Ghost(n): Ghost<nat>,
    board_mask: u64,
    columns: u64,
    diag_left: u64,
    diag_right: u64,
    rows_left: u8,
    metrics: &mut SearchMetrics,
) -> (count: u128)
    requires
        n < 64,
        board_mask == board_mask_spec(n),
        rows_left >= 1,
        search_count(n, rows_left as nat, BoundaryState { columns, diag_dr: diag_left, diag_dl: diag_right })
            <= u128::MAX,
        TRACK_METRICS ==> old(metrics).recursive_nodes <= METRIC_CAP,
        TRACK_METRICS ==> old(metrics).candidate_placements <= METRIC_CAP,
    ensures
        count == search_count(
            n,
            rows_left as nat,
            BoundaryState { columns, diag_dr: diag_left, diag_dl: diag_right },
        ),
        TRACK_METRICS ==> final(metrics).recursive_nodes == capped(
            old(metrics).recursive_nodes + search_nodes(
                n,
                rows_left as nat,
                BoundaryState { columns, diag_dr: diag_left, diag_dl: diag_right },
            ),
        ),
        TRACK_METRICS ==> final(metrics).candidate_placements == capped(
            old(metrics).candidate_placements + search_candidates(
                n,
                rows_left as nat,
                BoundaryState { columns, diag_dr: diag_left, diag_dl: diag_right },
            ),
        ),
        !TRACK_METRICS ==> *final(metrics) == *old(metrics),
    decreases rows_left,
{
    let ghost state = BoundaryState { columns, diag_dr: diag_left, diag_dl: diag_right };
    let ghost succ = row_successors(n, state);
    let ghost k = rows_left as nat;
    if TRACK_METRICS {
        metrics.record_node();
    }
    let mut available = board_mask & !(columns | diag_left | diag_right);
    proof {
        lemma_dfs_available(n, board_mask, columns, diag_left, diag_right);
        lemma_available_nonempty(n, state);
        lemma_successors_len(n, state, n);
    }
    if rows_left == 1 {
        let has_leaf: u128 = if available != 0 {
            1
        } else {
            0
        };
        if TRACK_METRICS {
            metrics.record_candidates(has_leaf as u32);
        }
        return has_leaf;
    }
    if TRACK_METRICS {
        let candidates = count_available(Ghost(n), available, Ghost(state));
        metrics.record_candidates(candidates);
    }
    let ghost avail = available;
    proof {
        crate::sitewise::lemma_no_low_bits(avail);
    }
    let mut count: u128 = 0;
    let ghost mut m: nat = 0;
    while available != 0
        invariant
            n < 64,
            m <= n,
            k >= 2,
            k == rows_left,
            board_mask == board_mask_spec(n),
            state == (BoundaryState { columns, diag_dr: diag_left, diag_dl: diag_right }),
            succ == row_successors(n, state),
            avail == available_spec(n, state),
            available == avail & !low_mask(m),
            count == sum_tree(n, (k - 1) as nat, row_successors_upto(n, state, m), zero(), leaf(n)),
            search_count(n, k, state) <= u128::MAX,
            TRACK_METRICS ==> metrics.recursive_nodes == capped(
                old(metrics).recursive_nodes + 1 + sum_tree(
                    n,
                    (k - 1) as nat,
                    row_successors_upto(n, state, m),
                    one(),
                    one(),
                ),
            ),
            TRACK_METRICS ==> metrics.candidate_placements == capped(
                old(metrics).candidate_placements + succ.len() + sum_tree(
                    n,
                    (k - 1) as nat,
                    row_successors_upto(n, state, m),
                    width(n),
                    leaf(n),
                ),
            ),
            !TRACK_METRICS ==> *metrics == *old(metrics),
        decreases available,
    {
        let bit = available & 0u64.wrapping_sub(available);
        proof {
            lemma_lowest_bit(available, 0u64.wrapping_sub(available));
            lemma_scan_bounds(avail, available, m);
        }
        let ghost t = u64_trailing_zeros(available) as nat;
        proof {
            lemma_scan_step(avail, available, m, t);
            lemma_available_bit(n, state, t);
            assert forall|c: nat| m <= c < t implies !#[trigger] cell_free(state, c) by {
                lemma_available_bit(n, state, c);
            }
            lemma_successors_skip(n, state, m, t);
            assert(t < n && cell_free(state, t));
        }
        available = available ^ bit;
        let ghost child = place(n, state, t);
        let ghost prefix = row_successors_upto(n, state, t + 1);
        proof {
            assert(prefix =~= row_successors_upto(n, state, m).push(child));
            assert(prefix.drop_last() =~= row_successors_upto(n, state, m));
            lemma_successors_prefix(n, state, t + 1, n);
            lemma_sum_tree_prefix(n, (k - 1) as nat, succ, prefix.len() as int, zero(), leaf(n));
            lemma_sum_tree_prefix(n, (k - 1) as nat, succ, prefix.len() as int, one(), one());
            lemma_sum_tree_prefix(n, (k - 1) as nat, succ, prefix.len() as int, width(n), leaf(n));
            crate::row::lemma_place_bits(n, state, t);
        }
        let child_count = search::<TRACK_METRICS>(
            Ghost(n),
            board_mask,
            columns | bit,
            ((diag_left | bit) << 1u64) & board_mask,
            (diag_right | bit) >> 1u64,
            rows_left - 1,
            metrics,
        );
        count = count + child_count;
        proof {
            m = t + 1;
        }
    }
    proof {
        lemma_scan_bounds(avail, available, m);
        assert forall|c: nat| m <= c < n implies !#[trigger] cell_free(state, c) by {
            lemma_available_bit(n, state, c);
        }
        lemma_successors_skip(n, state, m, n);
    }
    count
}

/// The number of legal columns, counted by clearing the lowest available bit
/// until none is left.
fn count_available(Ghost(n): Ghost<nat>, available: u64, Ghost(state): Ghost<BoundaryState>) -> (count: u32)
    requires
        n < 64,
        available == available_spec(n, state),
    ensures
        count == row_successors(n, state).len(),
{
    let mut remaining = available;
    let mut count: u32 = 0;
    let ghost mut m: nat = 0;
    proof {
        crate::sitewise::lemma_no_low_bits(available);
    }
    while remaining != 0
        invariant
            n < 64,
            m <= n,
            available == available_spec(n, state),
            remaining == available & !low_mask(m),
            count == row_successors_upto(n, state, m).len(),
            row_successors_upto(n, state, m).len() <= m,
        decreases remaining,
    {
        proof {
            lemma_lowest_bit(remaining, 0u64.wrapping_sub(remaining));
            lemma_scan_bounds(available, remaining, m);
        }
        let ghost t = u64_trailing_zeros(remaining) as nat;
        proof {
            lemma_scan_step(available, remaining, m, t);
            lemma_available_bit(n, state, t);
            assert forall|c: nat| m <= c < t implies !#[trigger] cell_free(state, c) by {
                lemma_available_bit(n, state, c);
            }
            lemma_successors_skip(n, state, m, t);
            assert(row_successors_upto(n, state, t + 1).len() == row_successors_upto(n, state, m).len() + 1);
            lemma_successors_len(n, state, t + 1);
        }
        remaining = remaining & (remaining - 1);
        count = count + 1;
        proof {
            m = t + 1;
        }
    }
    proof {
        lemma_scan_bounds(available, remaining, m);
        assert forall|c: nat| m <= c < n implies !#[trigger] cell_free(state, c) by {
            lemma_available_bit(n, state, c);
        }
        lemma_successors_skip(n, state, m, n);
    }
    count
}


/// Rows still to fill below a task.
pub open spec fn rows_left(n: nat, task: Task) -> nat {
    if task.rows_placed >= n {
        0
    } else {
        (n - task.rows_placed) as nat
    }
}

/// Solutions below a task, before its orbit multiplicity.
pub open spec fn task_value(n: nat, task: Task) -> nat {
    if rows_left(n, task) == 0 {
        1
    } else {
        search_count(n, rows_left(n, task), task_state(task))
    }
}

/// Solutions below a task, as a function of the task.
pub open spec fn value_fn(n: nat) -> spec_fn(Task) -> nat {
    |task: Task| task_value(n, task)
}

/// The DFS tree fold below a task's state.
pub open spec fn tree_fn(
    n: nat,
    k: nat,
    node: spec_fn(BoundaryState) -> nat,
    last: spec_fn(BoundaryState) -> nat,
) -> spec_fn(Task) -> nat {
    |c: Task| tree(n, k, task_state(c), node, last)
}

/// Solutions below a task, times its orbit multiplicity.
pub open spec fn weighted_value(n: nat) -> spec_fn(Task) -> nat {
    |task: Task| (task.symmetry_weight as nat) * task_value(n, task)
}

/// Recursive calls made below a task.
pub open spec fn task_nodes(n: nat) -> spec_fn(Task) -> nat {
    |task: Task| if rows_left(n, task) == 0 {
        0
    } else {
        search_nodes(n, rows_left(n, task), task_state(task))
    }
}

/// Candidate placements recorded below a task.
pub open spec fn task_candidates(n: nat) -> spec_fn(Task) -> nat {
    |task: Task| if rows_left(n, task) == 0 {
        0
    } else {
        search_candidates(n, rows_left(n, task), task_state(task))
    }
}

/// `g` summed over `tasks`.
pub open spec fn task_sum(tasks: Seq<Task>, g: spec_fn(Task) -> nat) -> nat
    decreases tasks.len(),
{
    if tasks.len() == 0 {
        0
    } else {
        task_sum(tasks.drop_last(), g) + g(tasks.last())
    }
}

/// The task of a frontier state.
pub open spec fn state_task(state: BoundaryState, symmetry_weight: u8, rows_placed: u8) -> Task {
    Task {
        columns: state.columns,
        diag_left: state.diag_dr,
        diag_right: state.diag_dl,
        symmetry_weight,
        rows_placed,
    }
}

/// The tasks one row deeper than `task`, in increasing column order.
pub open spec fn task_children_upto(n: nat, task: Task, m: nat) -> Seq<Task> {
    row_successors_upto(n, task_state(task), m).map_values(
        |state: BoundaryState| state_task(state, task.symmetry_weight, (task.rows_placed + 1) as u8),
    )
}

pub open spec fn task_children(n: nat, task: Task) -> Seq<Task> {
    task_children_upto(n, task, n)
}

/// Every task of `tasks` replaced by its children, in order.
pub open spec fn split_spec(n: nat, tasks: Seq<Task>) -> Seq<Task>
    decreases tasks.len(),
{
    if tasks.len() == 0 {
        Seq::empty()
    } else {
        split_spec(n, tasks.drop_last()) + task_children(n, tasks.last())
    }
}

/// The first-row task for column `c`, with its reflection-orbit multiplicity.
pub open spec fn seed_task(n: nat, c: nat) -> Task {
    Task {
        columns: 1u64 << (c as u64),
        diag_left: (1u64 << (c as u64)) << 1u64,
        diag_right: (1u64 << (c as u64)) >> 1u64,
        symmetry_weight: orbit_weight(n, c) as u8,
        rows_placed: 1,
    }
}

/// The seed tasks: one per column left of the middle, then the middle column
/// of an odd board.
pub open spec fn seeds(n: nat) -> Seq<Task> {
    Seq::new(n / 2, |c: int| seed_task(n, c as nat)) + if n % 2 == 1 {
        seq![seed_task(n, n / 2)]
    } else {
        Seq::empty()
    }
}

/// The count of the symmetry-reduced search of an `n`-by-`n` board.
pub open spec fn dfs_count(n: nat) -> nat {
    if n == 0 {
        1
    } else {
        task_sum(seeds(n), weighted_value(n))
    }
}

/// The recursive calls of the whole search, the root included.
pub open spec fn dfs_nodes(n: nat) -> nat {
    if n == 0 {
        1
    } else {
        1 + task_sum(seeds(n), task_nodes(n))
    }
}

/// The candidate placements of the whole search.
pub open spec fn dfs_candidates(n: nat) -> nat {
    if n == 0 {
        0
    } else {
        seeds(n).len() + task_sum(seeds(n), task_candidates(n))
    }
}

/// With `k >= 1` rows left the search finds at most `n^(k-1)` solutions:
/// each row but the last offers at most `n` columns, and the last at most one
/// leaf.
proof fn lemma_search_count_power(n: nat, k: nat, state: BoundaryState)
    requires
        k >= 1,
    ensures
        search_count(n, k, state) <= power_of(n, (k - 1) as nat),
    decreases k, 0nat,
{
    if k > 1 {
        let succ = row_successors(n, state);
        let p = power_of(n, (k - 2) as nat);
        lemma_successors_len(n, state, n);
        lemma_sum_search_count_power(n, (k - 1) as nat, succ);
        assert(succ.len() * p <= n * p) by (nonlinear_arith)
            requires
                succ.len() <= n,
        ;
    }
}

proof fn lemma_sum_search_count_power(n: nat, k: nat, states: Seq<BoundaryState>)
    requires
        k >= 1,
    ensures
        sum_tree(n, k, states, zero(), leaf(n)) <= states.len() * power_of(n, (k - 1) as nat),
    decreases k, states.len() + 1,
{
    if states.len() > 0 {
        let p = power_of(n, (k - 1) as nat);
        lemma_sum_search_count_power(n, k, states.drop_last());
        lemma_search_count_power(n, k, states.last());
        assert(states.drop_last().len() * p + p == states.len() * p) by (nonlinear_arith)
            requires
                states.drop_last().len() + 1 == states.len(),
        ;
    }
}

proof fn lemma_power_27_25()
    ensures
        power_of(27, 25) == 608266787713357709119683992618861307nat,
{
    assert(power_of(27, 0) == 1);
    assert(power_of(27, 1) == 27nat);
    assert(power_of(27, 2) == 729nat);
    assert(power_of(27, 3) == 19683nat);
    assert(power_of(27, 4) == 531441nat);
    assert(power_of(27, 5) == 14348907nat);
    assert(power_of(27, 6) == 387420489nat);
    assert(power_of(27, 7) == 10460353203nat);
    assert(power_of(27, 8) == 282429536481nat);
    assert(power_of(27, 9) == 7625597484987nat);
    assert(power_of(27, 10) == 205891132094649nat);
    assert(power_of(27, 11) == 5559060566555523nat);
    assert(power_of(27, 12) == 150094635296999121nat);
    assert(power_of(27, 13) == 4052555153018976267nat);
    assert(power_of(27, 14) == 109418989131512359209nat);
    assert(power_of(27, 15) == 2954312706550833698643nat);
    assert(power_of(27, 16) == 79766443076872509863361nat);
    assert(power_of(27, 17) == 2153693963075557766310747nat);
    assert(power_of(27, 18) == 58149737003040059690390169nat);
    assert(power_of(27, 19) == 1570042899082081611640534563nat);
    assert(power_of(27, 20) == 42391158275216203514294433201nat);
    assert(power_of(27, 21) == 1144561273430837494885949696427nat);
    assert(power_of(27, 22) == 30903154382632612361920641803529nat);
    assert(power_of(27, 23) == 834385168331080533771857328695283nat);
    assert(power_of(27, 24) == 22528399544939174411840147874772641nat);
    assert(power_of(27, 25) == 608266787713357709119683992618861307nat);
}

/// The solutions below any task of a board of at most `MAX_N` columns that
/// has its first row placed.
proof fn lemma_task_value_bound(n: nat, task: Task)
    requires
        n <= MAX_N,
        task.rows_placed >= 1,
    ensures
        task_value(n, task) <= 608266787713357709119683992618861307nat,
{
    let k = rows_left(n, task);
    if k > 0 {
        lemma_search_count_power(n, k, task_state(task));
        lemma_power_monotone(n, 27, (k - 1) as nat, 25);
        lemma_power_27_25();
    }
}

proof fn lemma_task_sum_bound(n: nat, tasks: Seq<Task>, depth: nat)
    requires
        n <= MAX_N,
        depth >= 1,
        tasks_well_formed(n, tasks, depth),
    ensures
        task_sum(tasks, weighted_value(n)) <= tasks.len() * 1216533575426715418239367985237722614nat,
    decreases tasks.len(),
{
    if tasks.len() > 0 {
        assert forall|i: int| 0 <= i < tasks.drop_last().len() implies (#[trigger] tasks.drop_last()[i]).rows_placed == depth
            && tasks.drop_last()[i].symmetry_weight <= 2 by {
            assert(tasks.drop_last()[i] == tasks[i]);
        }
        lemma_task_sum_bound(n, tasks.drop_last(), depth);
        let t = tasks.last();
        assert(t == tasks[tasks.len() - 1]);
        lemma_task_value_bound(n, t);
        let w = t.symmetry_weight as nat;
        let v = task_value(n, t);
        assert(w * v <= 1216533575426715418239367985237722614nat) by (nonlinear_arith)
            requires
                w <= 2,
                v <= 608266787713357709119683992618861307nat,
        ;
    }
}

/// The count of the search on a board of at most `MAX_N` columns stays far
/// below the largest `u128`.
proof fn lemma_dfs_count_bound(n: nat)
    requires
        n <= MAX_N,
    ensures
        dfs_count(n) <= 17031470055974015855351151793328116596nat,
{
    if n > 0 {
        lemma_seeds_well_formed(n);
        lemma_task_sum_bound(n, seeds(n), 1);
        assert(seeds(n).len() <= 14);
    }
}

proof fn lemma_task_sum_concat(a: Seq<Task>, b: Seq<Task>, g: spec_fn(Task) -> nat)
    ensures
        task_sum(a + b, g) == task_sum(a, g) + task_sum(b, g),
    decreases b.len(),
{
    if b.len() == 0 {
        assert(a + b =~= a);
    } else {
        assert((a + b).drop_last() =~= a + b.drop_last());
        lemma_task_sum_concat(a, b.drop_last(), g);
    }
}

proof fn lemma_task_sum_ext(tasks: Seq<Task>, g1: spec_fn(Task) -> nat, g2: spec_fn(Task) -> nat)
    requires
        forall|i: int| 0 <= i < tasks.len() ==> g1(#[trigger] tasks[i]) == g2(tasks[i]),
    ensures
        task_sum(tasks, g1) == task_sum(tasks, g2),
    decreases tasks.len(),
{
    if tasks.len() > 0 {
        lemma_task_sum_ext(tasks.drop_last(), g1, g2);
        assert(g1(tasks[tasks.len() - 1]) == g2(tasks[tasks.len() - 1]));
    }
}

proof fn lemma_task_sum_le(tasks: Seq<Task>, i: int, g: spec_fn(Task) -> nat)
    requires
        0 <= i < tasks.len(),
    ensures
        g(tasks[i]) <= task_sum(tasks, g),
    decreases tasks.len(),
{
    if i < tasks.len() - 1 {
        lemma_task_sum_le(tasks.drop_last(), i, g);
    }
}

proof fn lemma_task_sum_remove(tasks: Seq<Task>, i: int, g: spec_fn(Task) -> nat)
    requires
        0 <= i < tasks.len(),
    ensures
        task_sum(tasks, g) == task_sum(tasks.remove(i), g) + g(tasks[i]),
    decreases tasks.len(),
{
    if i == tasks.len() - 1 {
        assert(tasks.remove(i) =~= tasks.drop_last());
    } else {
        assert(tasks.remove(i).drop_last() =~= tasks.drop_last().remove(i));
        assert(tasks.remove(i).last() == tasks.last());
        lemma_task_sum_remove(tasks.drop_last(), i, g);
    }
}

proof fn lemma_task_sum_permutation(a: Seq<Task>, b: Seq<Task>, g: spec_fn(Task) -> nat)
    requires
        a.to_multiset() == b.to_multiset(),
    ensures
        task_sum(a, g) == task_sum(b, g),
    decreases a.len(),
{
    broadcast use vstd::seq_lib::group_seq_properties;
    broadcast use vstd::multiset::group_multiset_axioms;

    a.to_multiset_ensures();
    b.to_multiset_ensures();
    if a.len() == 0 {
        assert(b.len() == 0);
    } else {
        let x = a.last();
        assert(a.to_multiset().count(x) > 0) by {
            assert(a.contains(x)) by {
                assert(a[a.len() - 1] == x);
            }
        }
        assert(b.contains(x));
        let i = b.index_of(x);
        let b2 = b.remove(i);
        let a2 = a.drop_last();
        assert(a =~= a2.push(x));
        assert(b2.to_multiset() == b.to_multiset().remove(x)) by {
            assert(b =~= b2.insert(i, x));
            b2.insert_ensures(i, x);
            b2.to_multiset_ensures();
            vstd::seq_lib::lemma_multiset_commutative(b2.take(i), b2.skip(i));
            assert(b2.take(i) + b2.skip(i) =~= b2);
            assert(b2.insert(i, x) =~= b2.take(i).push(x) + b2.skip(i));
            vstd::seq_lib::lemma_multiset_commutative(b2.take(i).push(x), b2.skip(i));
            b2.take(i).to_multiset_ensures();
        }
        assert(a2.to_multiset() == a.to_multiset().remove(x)) by {
            a2.to_multiset_ensures();
        }
        lemma_task_sum_permutation(a2, b2, g);
        lemma_task_sum_remove(b, i, g);
    }
}

/// Children of a task carry the successor frontiers.
proof fn lemma_children_sum(
    n: nat,
    task: Task,
    k: nat,
    m: nat,
    node: spec_fn(BoundaryState) -> nat,
    last: spec_fn(BoundaryState) -> nat,
)
    ensures
        task_sum(
            task_children_upto(n, task, m),
            tree_fn(n, k, node, last),
        ) == sum_tree(n, k, row_successors_upto(n, task_state(task), m), node, last),
        task_children_upto(n, task, m).len() == row_successors_upto(n, task_state(task), m).len(),
    decreases m,
{
    let children = task_children_upto(n, task, m);
    let succ = row_successors_upto(n, task_state(task), m);
    if m > 0 {
        lemma_children_sum(n, task, k, (m - 1) as nat, node, last);
        let prev = task_children_upto(n, task, (m - 1) as nat);
        let prev_succ = row_successors_upto(n, task_state(task), (m - 1) as nat);
        if succ.len() > prev_succ.len() {
            assert(succ =~= prev_succ.push(succ.last()));
            assert(children.drop_last() =~= prev);
            assert(task_state(children.last()) == succ.last());
            assert(succ.drop_last() =~= prev_succ);
        } else {
            assert(succ =~= prev_succ);
            assert(children =~= prev);
        }
    }
}

/// Splitting one task keeps its weighted count, and moves one node and its
/// candidate placements into the prefix.
proof fn lemma_split_task(n: nat, task: Task)
    requires
        n < 64,
        rows_left(n, task) >= 2,
        task.rows_placed < 255,
    ensures
        task_sum(task_children(n, task), weighted_value(n)) == weighted_value(n)(task),
        task_sum(task_children(n, task), task_nodes(n)) + 1 == task_nodes(n)(task),
        task_sum(task_children(n, task), task_candidates(n)) + task_children(n, task).len()
            == task_candidates(n)(task),
        forall|i: int|
            0 <= i < task_children(n, task).len() ==> {
                &&& (#[trigger] task_children(n, task)[i]).rows_placed == task.rows_placed + 1
                &&& task_children(n, task)[i].symmetry_weight == task.symmetry_weight
                &&& task_value(n, task_children(n, task)[i]) <= task_value(n, task)
                &&& task_nodes(n)(task_children(n, task)[i]) <= task_nodes(n)(task)
                &&& task_candidates(n)(task_children(n, task)[i]) <= task_candidates(n)(task)
            },
{
    let k = rows_left(n, task);
    let children = task_children(n, task);
    let state = task_state(task);
    let succ = row_successors(n, state);
    lemma_children_sum(n, task, (k - 1) as nat, n, zero(), leaf(n));
    lemma_children_sum(n, task, (k - 1) as nat, n, one(), one());
    lemma_children_sum(n, task, (k - 1) as nat, n, width(n), leaf(n));
    assert forall|i: int| 0 <= i < children.len() implies (#[trigger] children[i]).rows_placed
        == task.rows_placed + 1 && children[i].symmetry_weight == task.symmetry_weight
        && rows_left(n, children[i]) == k - 1 && task_state(children[i]) == succ[i] by {}
    let w = task.symmetry_weight as nat;
    lemma_task_sum_ext(children, task_nodes(n), tree_fn(n, (k - 1) as nat, one(), one()));
    lemma_task_sum_ext(children, task_candidates(n), tree_fn(n, (k - 1) as nat, width(n), leaf(n)));
    lemma_task_sum_ext(children, value_fn(n), tree_fn(n, (k - 1) as nat, zero(), leaf(n)));
    lemma_task_sum_scale(children, n, w);
    assert forall|i: int| 0 <= i < children.len() implies task_value(n, #[trigger] children[i]) <= task_value(n, task)
        && task_nodes(n)(children[i]) <= task_nodes(n)(task) && task_candidates(n)(children[i]) <= task_candidates(n)(task) by {
        lemma_task_sum_le(children, i, value_fn(n));
        lemma_task_sum_le(children, i, task_nodes(n));
        lemma_task_sum_le(children, i, task_candidates(n));
    }
}

proof fn lemma_task_sum_scale(tasks: Seq<Task>, n: nat, w: nat)
    requires
        forall|i: int| 0 <= i < tasks.len() ==> (#[trigger] tasks[i]).symmetry_weight == w,
    ensures
        task_sum(tasks, weighted_value(n)) == w * task_sum(tasks, value_fn(n)),
    decreases tasks.len(),
{
    if tasks.len() > 0 {
        assert forall|i: int| 0 <= i < tasks.drop_last().len() implies (#[trigger] tasks.drop_last()[i]).symmetry_weight
            == w by {
            assert(tasks.drop_last()[i] == tasks[i]);
        }
        lemma_task_sum_scale(tasks.drop_last(), n, w);
        let a = task_sum(tasks.drop_last(), value_fn(n));
        let v = task_value(n, tasks.last());
        assert(tasks[tasks.len() - 1].symmetry_weight == w);
        assert(weighted_value(n)(tasks.last()) == w * v);
        assert(value_fn(n)(tasks.last()) == v);
        assert(w * (a + v) == w * a + w * v) by (nonlinear_arith);
        assert(task_sum(tasks, value_fn(n)) == a + v);
    } else {
        assert(w * 0 == 0) by (nonlinear_arith);
    }
}

proof fn lemma_split_spec(n: nat, tasks: Seq<Task>)
    requires
        n < 64,
        forall|i: int| 0 <= i < tasks.len() ==> rows_left(n, #[trigger] tasks[i]) >= 2 && tasks[i].rows_placed < 255,
    ensures
        task_sum(split_spec(n, tasks), weighted_value(n)) == task_sum(tasks, weighted_value(n)),
        task_sum(split_spec(n, tasks), task_nodes(n)) + tasks.len() == task_sum(tasks, task_nodes(n)),
        task_sum(split_spec(n, tasks), task_candidates(n)) + split_spec(n, tasks).len() == task_sum(
            tasks,
            task_candidates(n),
        ),
    decreases tasks.len(),
{
    if tasks.len() > 0 {
        let prev = tasks.drop_last();
        lemma_split_spec(n, prev);
        lemma_split_task(n, tasks.last());
        let children = task_children(n, tasks.last());
        lemma_task_sum_concat(split_spec(n, prev), children, weighted_value(n));
        lemma_task_sum_concat(split_spec(n, prev), children, task_nodes(n));
        lemma_task_sum_concat(split_spec(n, prev), children, task_candidates(n));
    }
}


/// Every task of `tasks` fits the `u64` counters of one search: the
/// recursive calls and candidate placements below it.
pub open spec fn tasks_fit(n: nat, tasks: Seq<Task>) -> bool {
    forall|i: int|
        0 <= i < tasks.len() ==> task_nodes(n)(#[trigger] tasks[i]) <= u64::MAX && task_candidates(n)(tasks[i])
            <= u64::MAX
}

/// The search below every first-row task fits the `u64` counters of one
/// search.
pub open spec fn seeds_fit(n: nat) -> bool {
    tasks_fit(n, seeds(n))
}

/// A sum of `g` over tasks each at most `bound` is at most `bound` per task.
proof fn lemma_task_sum_bounded(tasks: Seq<Task>, g: spec_fn(Task) -> nat, bound: nat)
    requires
        forall|i: int| 0 <= i < tasks.len() ==> #[trigger] g(tasks[i]) <= bound,
    ensures
        task_sum(tasks, g) <= tasks.len() * bound,
    decreases tasks.len(),
{
    if tasks.len() > 0 {
        let rest = tasks.drop_last();
        assert forall|i: int| 0 <= i < rest.len() implies #[trigger] g(rest[i]) <= bound by {
            assert(rest[i] == tasks[i]);
        }
        lemma_task_sum_bounded(rest, g, bound);
        assert(g(tasks[tasks.len() - 1]) <= bound);
        assert(tasks.len() * bound == rest.len() * bound + bound) by (nonlinear_arith)
            requires
                tasks.len() == rest.len() + 1,
        ;
    }
}

/// Splitting tasks keeps them within the counters: a child's search is part
/// of its parent's.
proof fn lemma_split_fit(n: nat, tasks: Seq<Task>)
    requires
        n < 64,
        forall|i: int| 0 <= i < tasks.len() ==> rows_left(n, #[trigger] tasks[i]) >= 2 && tasks[i].rows_placed < 255,
        tasks_fit(n, tasks),
    ensures
        tasks_fit(n, split_spec(n, tasks)),
    decreases tasks.len(),
{
    if tasks.len() > 0 {
        let rest = tasks.drop_last();
        assert forall|i: int| 0 <= i < rest.len() implies rows_left(n, #[trigger] rest[i]) >= 2 && rest[i].rows_placed
            < 255 && task_nodes(n)(rest[i]) <= u64::MAX && task_candidates(n)(rest[i]) <= u64::MAX by {
            assert(rest[i] == tasks[i]);
        }
        lemma_split_fit(n, rest);
        let t = tasks.last();
        assert(t == tasks[tasks.len() - 1]);
        lemma_split_task(n, t);
        let a = split_spec(n, rest);
        let b = task_children(n, t);
        assert forall|i: int| 0 <= i < (a + b).len() implies task_nodes(n)(#[trigger] (a + b)[i]) <= u64::MAX
            && task_candidates(n)((a + b)[i]) <= u64::MAX by {
            if i >= a.len() {
                assert((a + b)[i] == b[i - a.len()]);
            } else {
                assert((a + b)[i] == a[i]);
            }
        }
    }
}

/// When the first-row tasks fit, the whole search's counters fit `u128`.
proof fn lemma_seeds_fit_totals(n: nat)
    requires
        1 <= n <= MAX_N,
        seeds_fit(n),
    ensures
        dfs_nodes(n) <= 0x1_0000_0000_0000_0000_00,
        dfs_candidates(n) <= 0x1_0000_0000_0000_0000_00,
{
    let s = seeds(n);
    assert forall|i: int| 0 <= i < s.len() implies #[trigger] task_nodes(n)(s[i]) <= u64::MAX by {}
    assert forall|i: int| 0 <= i < s.len() implies #[trigger] task_candidates(n)(s[i]) <= u64::MAX by {}
    lemma_task_sum_bounded(s, task_nodes(n), u64::MAX as nat);
    lemma_task_sum_bounded(s, task_candidates(n), u64::MAX as nat);
    assert(s.len() <= 27);
    assert(s.len() * (u64::MAX as nat) <= 27 * (u64::MAX as nat)) by (nonlinear_arith)
        requires
            s.len() <= 27,
    ;
}

/// The first-row tasks, one per reflection orbit.
fn seed_tasks(n: usize) -> (tasks: Vec<Task>)
    requires
        n <= MAX_N,
    ensures
        tasks@ == seeds(n as nat),
{
    if n == 0 {
        let empty: Vec<Task> = Vec::new();
        assert(empty@ =~= seeds(0));
        return empty;
    }
    let mut tasks: Vec<Task> = Vec::with_capacity(n / 2 + 1);
    let mut column: usize = 0;
    while column < n / 2
        invariant
            1 <= n <= MAX_N,
            column <= n / 2,
            tasks@ == Seq::new(column as nat, |c: int| seed_task(n as nat, c as nat)),
        decreases n / 2 - column,
    {
        let bit = 1u64 << (column as u64);
        assert(orbit_weight(n as nat, column as nat) == 2);
        tasks.push(Task { columns: bit, diag_left: bit << 1u64, diag_right: bit >> 1u64, symmetry_weight: 2, rows_placed: 1 });
        proof {
            assert(tasks@ =~= Seq::new((column + 1) as nat, |c: int| seed_task(n as nat, c as nat)));
        }
        column = column + 1;
    }
    if n % 2 == 1 {
        let bit = 1u64 << ((n / 2) as u64);
        assert(orbit_weight(n as nat, (n / 2) as nat) == 1);
        tasks.push(Task { columns: bit, diag_left: bit << 1u64, diag_right: bit >> 1u64, symmetry_weight: 1, rows_placed: 1 });
    }
    proof {
        assert(tasks@ =~= seeds(n as nat));
    }
    tasks
}

/// Replace every task by its children one row deeper.
fn split_once(Ghost(n): Ghost<nat>, board_mask: u64, tasks: Vec<Task>) -> (children: Vec<Task>)
    requires
        n < 64,
        board_mask == board_mask_spec(n),
        forall|i: int| 0 <= i < tasks@.len() ==> (#[trigger] tasks@[i]).rows_placed < 255,
    ensures
        children@ == split_spec(n, tasks@),
{
    let mut children: Vec<Task> = Vec::new();
    let mut i: usize = 0;
    while i < tasks.len()
        invariant
            n < 64,
            board_mask == board_mask_spec(n),
            i <= tasks@.len(),
            forall|j: int| 0 <= j < tasks@.len() ==> (#[trigger] tasks@[j]).rows_placed < 255,
            children@ == split_spec(n, tasks@.take(i as int)),
        decreases tasks@.len() - i,
    {
        let task = tasks[i];
        let ghost state = task_state(task);
        let ghost before = children@;
        let mut available = board_mask & !(task.columns | task.diag_left | task.diag_right);
        proof {
            lemma_dfs_available(n, board_mask, task.columns, task.diag_left, task.diag_right);
        }
        let ghost avail = available;
        proof {
            crate::sitewise::lemma_no_low_bits(avail);
        }
        let ghost mut m: nat = 0;
        proof {
            assert(task_children_upto(n, task, 0) =~= Seq::<Task>::empty());
            assert(children@ =~= before + task_children_upto(n, task, m));
        }
        while available != 0
            invariant
                n < 64,
                m <= n,
                board_mask == board_mask_spec(n),
                state == task_state(task),
                task.rows_placed < 255,
                avail == available_spec(n, state),
                available == avail & !low_mask(m),
                children@ == before + task_children_upto(n, task, m),
            decreases available,
        {
            let bit = available & 0u64.wrapping_sub(available);
            proof {
                lemma_lowest_bit(available, 0u64.wrapping_sub(available));
                lemma_scan_bounds(avail, available, m);
            }
            let ghost t = u64_trailing_zeros(available) as nat;
            proof {
                lemma_scan_step(avail, available, m, t);
                lemma_available_bit(n, state, t);
                assert forall|c: nat| m <= c < t implies !#[trigger] cell_free(state, c) by {
                    lemma_available_bit(n, state, c);
                }
                lemma_successors_skip(n, state, m, t);
                assert(t < n && cell_free(state, t));
                crate::row::lemma_place_bits(n, state, t);
            }
            available = available ^ bit;
            children.push(
                Task {
                    columns: task.columns | bit,
                    diag_left: ((task.diag_left | bit) << 1u64) & board_mask,
                    diag_right: (task.diag_right | bit) >> 1u64,
                    symmetry_weight: task.symmetry_weight,
                    rows_placed: task.rows_placed + 1,
                },
            );
            proof {
                assert(row_successors_upto(n, state, t + 1) =~= row_successors_upto(n, state, m).push(place(n, state, t)));
                assert(task_children_upto(n, task, t + 1) =~= task_children_upto(n, task, m).push(
                    state_task(place(n, state, t), task.symmetry_weight, (task.rows_placed + 1) as u8),
                ));
                m = t + 1;
                assert(children@ =~= before + task_children_upto(n, task, m));
            }
        }
        proof {
            lemma_scan_bounds(avail, available, m);
            assert forall|c: nat| m <= c < n implies !#[trigger] cell_free(state, c) by {
                lemma_available_bit(n, state, c);
            }
            lemma_successors_skip(n, state, m, n);
            assert(task_children_upto(n, task, m) =~= task_children(n, task));
            assert(tasks@.take(i as int + 1).drop_last() =~= tasks@.take(i as int));
        }
        i = i + 1;
    }
    proof {
        assert(tasks@.take(i as int) =~= tasks@);
    }
    children
}

/// The board width whose mask is `board_mask`.
pub open spec fn width_of_mask(board_mask: u64) -> nat {
    choose|n: nat| n < 64 && board_mask == board_mask_spec(n)
}

/// The number of legal columns of a task on the board of `board_mask`.
pub open spec fn task_width_spec(board_mask: u64, task: Task) -> nat {
    row_successors(width_of_mask(board_mask), task_state(task)).len()
}

/// The number of legal columns of a task, the key by which harder-looking
/// prefixes are run first.
fn task_width(board_mask: u64, task: &Task) -> (width: u32)
    requires
        exists|n: nat| n < 64 && board_mask == board_mask_spec(n),
    ensures
        width == task_width_spec(board_mask, *task),
{
    let ghost n = choose|n: nat| n < 64 && board_mask == board_mask_spec(n);
    let available = board_mask & !(task.columns | task.diag_left | task.diag_right);
    proof {
        lemma_dfs_available(n, board_mask, task.columns, task.diag_left, task.diag_right);
    }
    count_available(Ghost(n), available, Ghost(task_state(*task)))
}

/// Sorts the tasks by decreasing number of legal columns with
/// `slice::sort_unstable_by_key` and `std::cmp::Reverse`, the key being
/// computed by the verified `task_width`. The contract states what the
/// standard library documents: the result is a reordering of the input in
/// non-increasing key order.
#[verifier::external_body]
fn sort_tasks_by_decreasing_width(board_mask: u64, tasks: &mut Vec<Task>)
    requires
        exists|n: nat| n < 64 && board_mask == board_mask_spec(n),
    ensures
        final(tasks)@.to_multiset() == old(tasks)@.to_multiset(),
        forall|i: int, j: int|
            0 <= i <= j < final(tasks)@.len() ==> task_width_spec(board_mask, #[trigger] final(tasks)@[i])
                >= task_width_spec(board_mask, #[trigger] final(tasks)@[j]),
{
    tasks.sort_unstable_by_key(|task| std::cmp::Reverse(task_width(board_mask, task)));
}


/// Every task of `tasks` lies `depth` rows deep, carries a reflection-orbit
/// multiplicity of at most two, and fits the search counters.
pub open spec fn tasks_well_formed(n: nat, tasks: Seq<Task>, depth: nat) -> bool {
    forall|i: int|
        0 <= i < tasks.len() ==> {
            &&& (#[trigger] tasks[i]).rows_placed == depth
            &&& tasks[i].symmetry_weight <= 2
        }
}

proof fn lemma_seeds_well_formed(n: nat)
    requires
        1 <= n <= MAX_N,
    ensures
        tasks_well_formed(n, seeds(n), 1),
        seeds(n).len() >= 1,
{
    assert forall|i: int| 0 <= i < seeds(n).len() implies (#[trigger] seeds(n)[i]).rows_placed == 1
        && seeds(n)[i].symmetry_weight <= 2 by {
        if i < n / 2 {
            assert(seeds(n)[i] == seed_task(n, i as nat));
        } else {
            assert(seeds(n)[i] == seed_task(n, n / 2));
        }
    }
}

proof fn lemma_split_well_formed(n: nat, tasks: Seq<Task>, depth: nat)
    requires
        n < 64,
        depth + 2 <= n,
        tasks_well_formed(n, tasks, depth),
    ensures
        tasks_well_formed(n, split_spec(n, tasks), depth + 1),
    decreases tasks.len(),
{
    if tasks.len() > 0 {
        assert forall|i: int| 0 <= i < tasks.drop_last().len() implies (#[trigger] tasks.drop_last()[i]).rows_placed == depth
            && tasks.drop_last()[i].symmetry_weight <= 2 by {
            assert(tasks.drop_last()[i] == tasks[i]);
        }
        lemma_split_well_formed(n, tasks.drop_last(), depth);
        let t = tasks.last();
        assert(t == tasks[tasks.len() - 1]);
        lemma_split_task(n, t);
        let a = split_spec(n, tasks.drop_last());
        let b = task_children(n, t);
        assert forall|i: int| 0 <= i < (a + b).len() implies (#[trigger] (a + b)[i]).rows_placed == depth + 1
            && (a + b)[i].symmetry_weight <= 2 by {
            if i >= a.len() {
                assert((a + b)[i] == b[i - a.len()]);
            }
        }
    }
}

/// Build the search prefixes: the seed orbits, split row by row until there
/// are enough tasks for the requested threads, hardest-looking first.
fn make_tasks(n: usize, requested_threads: usize) -> (made: (Vec<Task>, usize, SearchMetrics))
    requires
        1 <= n <= MAX_N,
    ensures
        1 <= made.1 <= n,
        tasks_well_formed(n as nat, made.0@, made.1 as nat),
        task_sum(made.0@, weighted_value(n as nat)) == dfs_count(n as nat),
        made.2.recursive_nodes + task_sum(made.0@, task_nodes(n as nat)) == dfs_nodes(n as nat),
        made.2.candidate_placements + task_sum(made.0@, task_candidates(n as nat)) == dfs_candidates(
            n as nat,
        ),
        seeds_fit(n as nat) ==> tasks_fit(n as nat, made.0@),
{
    let board_mask = board_mask(n);
    let mut tasks = seed_tasks(n);
    proof {
        lemma_seeds_well_formed(n as nat);
    }
    let mut prefix_metrics = SearchMetrics { recursive_nodes: 1, candidate_placements: tasks.len() as u128 };
    let target_tasks: usize = if requested_threads == 1 {
        1
    } else {
        match requested_threads.checked_mul(64) {
            Some(target) => target,
            None => usize::MAX,
        }
    };
    let mut split_depth: usize = if tasks.len() > 0 {
        tasks[0].rows_placed as usize
    } else {
        0
    };
    let limit = n.saturating_sub(1);
    while tasks.len() < target_tasks && split_depth < limit
        invariant
            1 <= n <= MAX_N,
            board_mask == board_mask_spec(n as nat),
            limit == n - 1,
            1 <= split_depth <= n,
            tasks_well_formed(n as nat, tasks@, split_depth as nat),
            task_sum(tasks@, weighted_value(n as nat)) == dfs_count(n as nat),
            prefix_metrics.recursive_nodes + task_sum(tasks@, task_nodes(n as nat)) == dfs_nodes(n as nat),
            prefix_metrics.candidate_placements + task_sum(tasks@, task_candidates(n as nat))
                == dfs_candidates(n as nat),
            prefix_metrics.recursive_nodes <= split_depth * 0x1_0000_0000_0000_0000,
            prefix_metrics.candidate_placements <= split_depth * 0x1_0000_0000_0000_0000,
            seeds_fit(n as nat) ==> tasks_fit(n as nat, tasks@),
        decreases n - split_depth,
    {
        proof {
            assert forall|i: int| 0 <= i < tasks@.len() implies rows_left(n as nat, #[trigger] tasks@[i])
                >= 2 && tasks@[i].rows_placed < 255 by {}
            lemma_split_spec(n as nat, tasks@);
            lemma_split_well_formed(n as nat, tasks@, split_depth as nat);
            if seeds_fit(n as nat) {
                lemma_split_fit(n as nat, tasks@);
            }
        }
        prefix_metrics.recursive_nodes = prefix_metrics.recursive_nodes + tasks.len() as u128;
        tasks = split_once(Ghost(n as nat), board_mask, tasks);
        prefix_metrics.candidate_placements = prefix_metrics.candidate_placements + tasks.len() as u128;
        split_depth = split_depth + 1;
        if tasks.len() == 0 {
            break;
        }
    }
    let ghost unsorted = tasks@;
    sort_tasks_by_decreasing_width(board_mask, &mut tasks);
    proof {
        lemma_task_sum_permutation(unsorted, tasks@, weighted_value(n as nat));
        lemma_task_sum_permutation(unsorted, tasks@, task_nodes(n as nat));
        lemma_task_sum_permutation(unsorted, tasks@, task_candidates(n as nat));
        assert forall|i: int| 0 <= i < tasks@.len() implies (#[trigger] tasks@[i]).rows_placed == split_depth
            && tasks@[i].symmetry_weight <= 2 by {
            tasks@.to_multiset_ensures();
            unsorted.to_multiset_ensures();
            assert(tasks@.contains(tasks@[i]));
            assert(tasks@.to_multiset().count(tasks@[i]) > 0);
            assert(unsorted.to_multiset().count(tasks@[i]) > 0);
            assert(unsorted.contains(tasks@[i]));
            let j = choose|j: int| 0 <= j < unsorted.len() && unsorted[j] == tasks@[i];
            assert(unsorted[j].rows_placed == split_depth);
        }
        if seeds_fit(n as nat) {
            assert forall|i: int| 0 <= i < tasks@.len() implies task_nodes(n as nat)(#[trigger] tasks@[i]) <= u64::MAX
                && task_candidates(n as nat)(tasks@[i]) <= u64::MAX by {
                tasks@.to_multiset_ensures();
                unsorted.to_multiset_ensures();
                assert(tasks@.contains(tasks@[i]));
                assert(tasks@.to_multiset().count(tasks@[i]) > 0);
                assert(unsorted.to_multiset().count(tasks@[i]) > 0);
                assert(unsorted.contains(tasks@[i]));
                let j = choose|j: int| 0 <= j < unsorted.len() && unsorted[j] == tasks@[i];
                assert(task_nodes(n as nat)(unsorted[j]) <= u64::MAX);
            }
        }
    }
    (tasks, split_depth, prefix_metrics)
}


proof fn lemma_task_sum_take_le(tasks: Seq<Task>, i: int, g: spec_fn(Task) -> nat)
    requires
        0 <= i <= tasks.len(),
    ensures
        task_sum(tasks.take(i), g) <= task_sum(tasks, g),
        i < tasks.len() ==> task_sum(tasks.take(i + 1), g) == task_sum(tasks.take(i), g) + g(tasks[i]),
    decreases tasks.len(),
{
    if i < tasks.len() {
        assert(tasks.take(i + 1).drop_last() =~= tasks.take(i));
        lemma_task_sum_take_le(tasks.drop_last(), i, g);
        assert(tasks.drop_last().take(i) =~= tasks.take(i));
    } else {
        assert(tasks.take(i) =~= tasks);
    }
}

/// Run the search below one task.
fn run_task<const TRACK_METRICS: bool>(board_mask: u64, n: usize, task: Task) -> (run: (u128, SearchMetrics))
    requires
        n <= MAX_N,
        board_mask == board_mask_spec(n as nat),
        1 <= task.rows_placed <= n,
    ensures
        run.0 == weighted_value(n as nat)(task),
        TRACK_METRICS ==> run.1.recursive_nodes == capped(task_nodes(n as nat)(task) as int),
        TRACK_METRICS ==> run.1.candidate_placements == capped(task_candidates(n as nat)(task) as int),
        !TRACK_METRICS ==> run.1.recursive_nodes == 0 && run.1.candidate_placements == 0,
{
    let mut metrics = SearchMetrics::new();
    let rows_left = (n - task.rows_placed as usize) as u8;
    proof {
        lemma_task_value_bound(n as nat, task);
    }
    let raw_count: u128 = if rows_left == 0 {
        1
    } else {
        search::<TRACK_METRICS>(
            Ghost(n as nat),
            board_mask,
            task.columns,
            task.diag_left,
            task.diag_right,
            rows_left,
            &mut metrics,
        )
    };
    proof {
        assert(raw_count == task_value(n as nat, task));
        let r = raw_count as nat;
        let w = task.symmetry_weight as nat;
        assert(r * w <= u128::MAX && r * w == w * r) by (nonlinear_arith)
            requires
                r <= 608266787713357709119683992618861307nat,
                w <= 255,
        ;
    }
    let weighted = raw_count * (task.symmetry_weight as u128);
    (weighted, metrics)
}

/// What one run below `task` gives: its weighted count, and its counters when
/// they are collected.
pub open spec fn task_run_ok<const TRACK_METRICS: bool>(n: nat, task: Task, run: (u128, SearchMetrics)) -> bool {
    &&& run.0 == weighted_value(n)(task)
    &&& TRACK_METRICS ==> run.1.recursive_nodes == capped(task_nodes(n)(task) as int)
    &&& TRACK_METRICS ==> run.1.candidate_placements == capped(task_candidates(n)(task) as int)
    &&& !TRACK_METRICS ==> run.1.recursive_nodes == 0 && run.1.candidate_placements == 0
}

/// Every task of `tasks` is one to search: at least its first row is placed
/// and at most all of them.
pub open spec fn tasks_searchable(n: nat, tasks: Seq<Task>) -> bool {
    forall|i: int| 0 <= i < tasks.len() ==> 1 <= (#[trigger] tasks[i]).rows_placed <= n
}

/// Run the search below every task on the calling thread, in order.
fn run_tasks_serial<const TRACK_METRICS: bool>(board_mask: u64, n: usize, tasks: &Vec<Task>) -> (runs: Vec<
    (u128, SearchMetrics),
>)
    requires
        n <= MAX_N,
        board_mask == board_mask_spec(n as nat),
        tasks_searchable(n as nat, tasks@),
    ensures
        runs@.len() == tasks@.len(),
        forall|i: int| 0 <= i < tasks@.len() ==> task_run_ok::<TRACK_METRICS>(n as nat, tasks@[i], #[trigger] runs@[i]),
{
    let mut runs: Vec<(u128, SearchMetrics)> = Vec::new();
    let mut i: usize = 0;
    while i < tasks.len()
        invariant
            n <= MAX_N,
            board_mask == board_mask_spec(n as nat),
            tasks_searchable(n as nat, tasks@),
            i <= tasks@.len(),
            runs@.len() == i,
            forall|k: int| 0 <= k < i ==> task_run_ok::<TRACK_METRICS>(n as nat, tasks@[k], #[trigger] runs@[k]),
        decreases tasks@.len() - i,
    {
        let run = run_task::<TRACK_METRICS>(board_mask, n, tasks[i]);
        runs.push(run);
        i = i + 1;
    }
    runs
}

/// Runs the search below every task on a rayon pool of `workers` threads,
/// built by `rayon::ThreadPoolBuilder::num_threads` and `build` and entered
/// by `rayon::ThreadPool::install`; inside it `par_iter`, `map` and `collect`
/// keep the tasks' order. Stated: `None` when the pool cannot be built, and
/// otherwise one run of `run_task` per task, in order.
#[verifier::external_body]
fn par_run_tasks<const TRACK_METRICS: bool>(board_mask: u64, n: usize, tasks: &Vec<Task>, workers: usize) -> (runs:
    Option<Vec<(u128, SearchMetrics)>>)
    requires
        n <= MAX_N,
        board_mask == board_mask_spec(n as nat),
        tasks_searchable(n as nat, tasks@),
    ensures
        runs matches Some(v) ==> v@.len() == tasks@.len() && forall|i: int|
            0 <= i < tasks@.len() ==> task_run_ok::<TRACK_METRICS>(n as nat, tasks@[i], #[trigger] v@[i]),
{
    let pool = match rayon::ThreadPoolBuilder::new().num_threads(workers).build() {
        Ok(pool) => pool,
        Err(_) => return None,
    };
    Some(pool.install(|| tasks.par_iter().map(|&task| run_task::<TRACK_METRICS>(board_mask, n, task)).collect()))
}

/// What a DFS count returns: an error for boards wider than `MAX_N` or for
/// zero threads; otherwise the symmetry-reduced count, which is the exact
/// count of the search tree, and its metrics when they are collected. The
/// counting run always succeeds there; the profiled run succeeds whenever the
/// counts below every first-row task fit a `u64`, and fails only where the
/// counts of one task pass it.
pub open spec fn dfs_result_spec(n: nat, threads: nat, track: bool, result: Result<DfsResult, String>) -> bool {
    &&& (n > MAX_N || threads == 0) ==> result is Err
    &&& (n <= MAX_N && threads > 0 && (!track || seeds_fit(n))) ==> result is Ok
    &&& result matches Ok(r) ==> {
        &&& r.n == n
        &&& r.count == dfs_count(n)
        &&& r.count == board_count(n, false)
        &&& r.metrics_collected == track
        &&& track ==> r.recursive_nodes == dfs_nodes(n) && r.candidate_placements == dfs_candidates(n)
        &&& !track ==> r.recursive_nodes == (if n == 0 { 1nat } else { 0nat }) && r.candidate_placements == 0
        &&& 1 <= r.threads <= threads
    }
}

/// Count N-Queens solutions with an independent symmetry-reduced bitboard DFS.
///
/// The timer includes prefix generation, search, and result reduction. The
/// tasks are shared by `threads` workers of a rayon pool (one worker searches
/// them in order on the calling thread, as does a run whose pool cannot be
/// built), and their results are summed in task order.
fn count_dfs_bitmask_impl<const TRACK_METRICS: bool>(n: usize, threads: usize) -> (result: Result<
    DfsResult,
    String,
>)
    ensures
        dfs_result_spec(n as nat, threads as nat, TRACK_METRICS, result),
{
    if n > MAX_N {
        return Err(message("DFS bitmask baseline supports N <= 27"));
    }
    if threads == 0 {
        return Err(message("thread count must be positive"));
    }
    proof {
        lemma_dfs_count_exact(n as nat);
    }
    let started = now();
    if n == 0 {
        return Ok(
            DfsResult {
                n,
                count: 1,
                elapsed: elapsed(&started),
                threads: 1,
                split_depth: 0,
                tasks: 1,
                recursive_nodes: 1,
                candidate_placements: 0,
                metrics_collected: TRACK_METRICS,
            },
        );
    }
    let board_mask = board_mask(n);
    let (tasks, split_depth, prefix_metrics) = make_tasks(n, threads);
    let worker_count = if threads < tasks.len() {
        threads
    } else if tasks.len() >= 1 {
        tasks.len()
    } else {
        1
    };
    let mut total_count: u128 = 0;
    let mut total_nodes: u128 = if TRACK_METRICS {
        prefix_metrics.recursive_nodes
    } else {
        0
    };
    let mut total_candidates: u128 = if TRACK_METRICS {
        prefix_metrics.candidate_placements
    } else {
        0
    };
    proof {
        lemma_dfs_count_bound(n as nat);
        assert forall|i: int| 0 <= i < tasks@.len() implies 1 <= (#[trigger] tasks@[i]).rows_placed <= n by {}
        if seeds_fit(n as nat) {
            lemma_seeds_fit_totals(n as nat);
        }
    }
    let runs = if worker_count == 1 {
        run_tasks_serial::<TRACK_METRICS>(board_mask, n, &tasks)
    } else {
        match par_run_tasks::<TRACK_METRICS>(board_mask, n, &tasks, worker_count) {
            Some(runs) => runs,
            None => run_tasks_serial::<TRACK_METRICS>(board_mask, n, &tasks),
        }
    };
    let mut i: usize = 0;
    while i < tasks.len()
        invariant
            runs@.len() == tasks@.len(),
            forall|k: int| 0 <= k < tasks@.len() ==> task_run_ok::<TRACK_METRICS>(n as nat, tasks@[k], #[trigger] runs@[k]),
            seeds_fit(n as nat) ==> tasks_fit(n as nat, tasks@),
            seeds_fit(n as nat) ==> dfs_nodes(n as nat) <= 0x1_0000_0000_0000_0000_00 && dfs_candidates(n as nat)
                <= 0x1_0000_0000_0000_0000_00,
            1 <= n <= MAX_N,
            board_mask == board_mask_spec(n as nat),
            i <= tasks@.len(),
            1 <= split_depth <= n,
            tasks_well_formed(n as nat, tasks@, split_depth as nat),
            task_sum(tasks@, weighted_value(n as nat)) == dfs_count(n as nat),
            prefix_metrics.recursive_nodes + task_sum(tasks@, task_nodes(n as nat)) == dfs_nodes(n as nat),
            prefix_metrics.candidate_placements + task_sum(tasks@, task_candidates(n as nat))
                == dfs_candidates(n as nat),
            dfs_count(n as nat) <= 17031470055974015855351151793328116596nat,
            total_count == task_sum(tasks@.take(i as int), weighted_value(n as nat)),
            TRACK_METRICS ==> total_nodes == prefix_metrics.recursive_nodes + task_sum(
                tasks@.take(i as int),
                task_nodes(n as nat),
            ),
            TRACK_METRICS ==> total_candidates == prefix_metrics.candidate_placements + task_sum(
                tasks@.take(i as int),
                task_candidates(n as nat),
            ),
            !TRACK_METRICS ==> total_nodes == 0 && total_candidates == 0,
        decreases tasks@.len() - i,
    {
        proof {
            lemma_task_sum_le(tasks@, i as int, task_nodes(n as nat));
            lemma_task_sum_le(tasks@, i as int, task_candidates(n as nat));
            lemma_task_sum_take_le(tasks@, i as int, weighted_value(n as nat));
            lemma_task_sum_take_le(tasks@, i as int + 1, weighted_value(n as nat));
            lemma_task_sum_take_le(tasks@, i as int, task_nodes(n as nat));
            lemma_task_sum_take_le(tasks@, i as int + 1, task_nodes(n as nat));
            lemma_task_sum_take_le(tasks@, i as int, task_candidates(n as nat));
            lemma_task_sum_take_le(tasks@, i as int + 1, task_candidates(n as nat));
        }
        let (count, metrics) = runs[i];
        proof {
            assert(task_run_ok::<TRACK_METRICS>(n as nat, tasks@[i as int], runs@[i as int]));
        }
        if TRACK_METRICS && metrics.recursive_nodes == METRIC_CAP {
            return Err(message("DFS node counter overflow"));
        }
        if TRACK_METRICS && metrics.candidate_placements == METRIC_CAP {
            return Err(message("DFS candidate counter overflow"));
        }
        total_count = match total_count.checked_add(count) {
            Some(sum) => sum,
            None => {
                return Err(message("total DFS count overflowed u128"));
            },
        };
        total_nodes = match total_nodes.checked_add(metrics.recursive_nodes) {
            Some(sum) => sum,
            None => {
                return Err(message("total DFS node count overflowed u128"));
            },
        };
        total_candidates = match total_candidates.checked_add(metrics.candidate_placements) {
            Some(sum) => sum,
            None => {
                return Err(message("total DFS candidate count overflowed u128"));
            },
        };
        i = i + 1;
    }
    proof {
        assert(tasks@.take(i as int) =~= tasks@);
    }
    Ok(
        DfsResult {
            n,
            count: total_count,
            elapsed: elapsed(&started),
            threads: worker_count,
            split_depth,
            tasks: tasks.len(),
            recursive_nodes: total_nodes,
            candidate_placements: total_candidates,
            metrics_collected: TRACK_METRICS,
        },
    )
}

/// Two successful runs on one board agree: the count does not depend on the
/// number of threads, on how the search prefix was split into tasks, or on
/// whether the run was profiled; two profiled runs report the same search
/// tree.
pub proof fn lemma_dfs_runs_agree(
    n: nat,
    threads_a: nat,
    threads_b: nat,
    track_a: bool,
    track_b: bool,
    a: DfsResult,
    b: DfsResult,
)
    requires
        dfs_result_spec(n, threads_a, track_a, Ok(a)),
        dfs_result_spec(n, threads_b, track_b, Ok(b)),
    ensures
        a.count == b.count,
        track_a == track_b ==> a.recursive_nodes == b.recursive_nodes && a.candidate_placements
            == b.candidate_placements,
{
}

/// Fast benchmark path. Expensive per-node counters are compiled out.
pub fn count_dfs_bitmask(n: usize, threads: usize) -> (result: Result<DfsResult, String>)
    ensures
        dfs_result_spec(n as nat, threads as nat, false, result),
{
    count_dfs_bitmask_impl::<false>(n, threads)
}

/// Instrumented path used once per benchmark point to obtain processed-state
/// metrics. Its elapsed time is intentionally not used as the performance
/// sample because incrementing counters materially changes the hot loop.
pub fn profile_dfs_bitmask(n: usize, threads: usize) -> (result: Result<DfsResult, String>)
    ensures
        dfs_result_spec(n as nat, threads as nat, true, result),
{
    count_dfs_bitmask_impl::<true>(n, threads)
}

/// The columns among `[0, m)` whose bit is clear in `columns`.
pub open spec fn free_count(columns: u64, m: nat) -> nat
    decreases m,
{
    if m == 0 {
        0
    } else {
        free_count(columns, (m - 1) as nat) + if has_bit(columns, (m - 1) as nat) {
            0nat
        } else {
            1nat
        }
    }
}

proof fn lemma_free_count_place(columns: u64, c: nat, m: nat)
    requires
        c < 64,
        m < 64,
        !has_bit(columns, c),
    ensures
        free_count(columns | (1u64 << (c as u64)), m) + (if c < m {
            1nat
        } else {
            0nat
        }) == free_count(columns, m),
    decreases m,
{
    if m > 0 {
        lemma_free_count_place(columns, c, (m - 1) as nat);
        crate::mirror::lemma_bits(columns, c, (m - 1) as nat, 0);
    }
}

proof fn lemma_free_count_zero(columns: u64, m: nat)
    ensures
        free_count(columns, m) == 0 <==> (forall|i: int| 0 <= i < m ==> #[trigger] has_bit(columns, i as nat)),
    decreases m,
{
    if m > 0 {
        lemma_free_count_zero(columns, (m - 1) as nat);
        if free_count(columns, m) == 0 {
            assert forall|i: int| 0 <= i < m implies #[trigger] has_bit(columns, i as nat) by {
                if i < m - 1 {
                    assert(has_bit(columns, i as nat));
                }
            }
        }
        if forall|i: int| 0 <= i < m ==> #[trigger] has_bit(columns, i as nat) {
            let last: int = m - 1;
            assert(has_bit(columns, last as nat));
        }
    }
}

proof fn lemma_free_count_empty(m: nat)
    requires
        m < 64,
    ensures
        free_count(0u64, m) == m,
    decreases m,
{
    if m > 0 {
        lemma_free_count_empty((m - 1) as nat);
        crate::mirror::lemma_bits(0u64, 0, (m - 1) as nat, 0);
    }
}

/// A row offers at most one queen per free column.
proof fn lemma_successors_free(n: nat, s: BoundaryState, m: nat)
    ensures
        row_successors_upto(n, s, m).len() <= free_count(s.columns, m),
    decreases m,
{
    if m > 0 {
        lemma_successors_free(n, s, (m - 1) as nat);
    }
}

/// With one free column left, each successor completes the board.
proof fn lemma_last_row_paths(n: nat, s: BoundaryState, m: nat)
    requires
        n < 64,
        m <= n,
        s.columns >> (n as u64) == 0,
        free_count(s.columns, n) == 1,
    ensures
        sum_paths(n, 0, row_successors_upto(n, s, m), accept(n)) == row_successors_upto(n, s, m).len(),
    decreases m,
{
    if m > 0 {
        let c = (m - 1) as nat;
        lemma_last_row_paths(n, s, c);
        let prev = row_successors_upto(n, s, c);
        let seq = row_successors_upto(n, s, m);
        if cell_free(s, c) {
            let t = place(n, s, c);
            crate::row::lemma_place_bits(n, s, c);
            crate::mirror::lemma_bits(s.columns, c, 0, n);
            lemma_free_count_place(s.columns, c, n);
            lemma_free_count_zero(t.columns, n);
            crate::mirror::lemma_full_mask(t.columns, n);
            assert(accept(n)(t) == 1);
            assert(seq.drop_last() =~= prev);
            assert(seq.last() == t);
            assert(paths(n, 0, t, accept(n)) == 1);
            assert(sum_paths(n, 0, seq, accept(n)) == sum_paths(n, 0, prev, accept(n)) + paths(n, 0, t, accept(n)));
        } else {
            assert(seq =~= prev);
        }
    }
}

/// With as many free columns as rows left, the search counts exactly the
/// completions of the automaton: its last-row test is the last row's only
/// possible queen.
proof fn lemma_search_paths(n: nat, k: nat, s: BoundaryState)
    requires
        n < 64,
        k >= 1,
        s.columns >> (n as u64) == 0,
        free_count(s.columns, n) == k,
    ensures
        search_count(n, k, s) == paths(n, k, s, accept(n)),
    decreases k, 0nat,
{
    if k == 1 {
        lemma_last_row_paths(n, s, n);
        lemma_successors_free(n, s, n);
    } else {
        lemma_sum_search_paths(n, (k - 1) as nat, s, n);
    }
}

proof fn lemma_sum_search_paths(n: nat, k: nat, s: BoundaryState, m: nat)
    requires
        n < 64,
        k >= 1,
        m <= n,
        s.columns >> (n as u64) == 0,
        free_count(s.columns, n) == k + 1,
    ensures
        sum_tree(n, k, row_successors_upto(n, s, m), zero(), leaf(n)) == sum_paths(
            n,
            k,
            row_successors_upto(n, s, m),
            accept(n),
        ),
    decreases k, m + 1,
{
    if m > 0 {
        let c = (m - 1) as nat;
        lemma_sum_search_paths(n, k, s, c);
        let prev = row_successors_upto(n, s, c);
        let seq = row_successors_upto(n, s, m);
        if cell_free(s, c) {
            let t = place(n, s, c);
            crate::row::lemma_place_bits(n, s, c);
            crate::mirror::lemma_bits(s.columns, c, 0, n);
            lemma_free_count_place(s.columns, c, n);
            lemma_search_paths(n, k, t);
            assert(seq.drop_last() =~= prev);
            assert(seq.last() == t);
        } else {
            assert(seq =~= prev);
        }
    }
}

/// Two frontiers that differ only in down-right signals off the board have
/// the same successors.
proof fn lemma_same_successors(n: nat, a: BoundaryState, b: BoundaryState, m: nat)
    requires
        n < 64,
        m <= n,
        a.columns == b.columns,
        a.diag_dl == b.diag_dl,
        b.diag_dr == a.diag_dr & board_mask_spec(n),
    ensures
        row_successors_upto(n, a, m) == row_successors_upto(n, b, m),
    decreases m,
{
    if m > 0 {
        let c = (m - 1) as nat;
        lemma_same_successors(n, a, b, c);
        crate::mirror::lemma_bits(a.diag_dr, c, c, n);
        assert(cell_free(a, c) == cell_free(b, c));
        assert(place(n, a, c) == place(n, b, c));
    }
}

/// The solutions below the seed of column `c` are the completions of a
/// first-row queen in column `c`.
proof fn lemma_seed_value(n: nat, c: nat)
    requires
        1 <= n <= MAX_N,
        c < n,
    ensures
        task_value(n, seed_task(n, c)) == crate::mirror::first_row(n, (n - 1) as nat)(c as int),
{
    let e = empty_state();
    let p = place(n, e, c);
    let st = task_state(seed_task(n, c));
    let b = 1u64 << (c as u64);
    crate::mirror::lemma_bits(b, 0, 0, n);
    crate::mirror::lemma_bits(0u64, c, 0, n);
    crate::mirror::lemma_bits(b << 1u64, 0, 0, n);
    assert(p.columns == st.columns);
    assert(p.diag_dl == st.diag_dl);
    assert(p.diag_dr == st.diag_dr & board_mask_spec(n));
    if n == 1 {
        crate::mirror::lemma_bits(0u64, 0, 0, 1);
        assert(c == 0);
        assert(p.columns == board_mask_spec(1));
    } else {
        lemma_same_successors(n, st, p, n);
        crate::mirror::lemma_bits(0u64, c, c, n);
        lemma_free_count_empty(n);
        lemma_free_count_place(0u64, c, n);
        lemma_search_paths(n, (n - 1) as nat, p);
        assert(search_count(n, (n - 1) as nat, st) == search_count(n, (n - 1) as nat, p));
    }
}

proof fn lemma_seed_prefix(n: nat, m: nat)
    requires
        1 <= n <= MAX_N,
        m <= n / 2,
    ensures
        task_sum(Seq::new(m, |c: int| seed_task(n, c as nat)), weighted_value(n)) == crate::mirror::total(
            |c: int| orbit_weight(n, c as nat) * crate::mirror::first_row(n, (n - 1) as nat)(c),
            m,
        ),
    decreases m,
{
    if m > 0 {
        lemma_seed_prefix(n, (m - 1) as nat);
        let sq = Seq::new(m, |c: int| seed_task(n, c as nat));
        assert(sq.drop_last() =~= Seq::new((m - 1) as nat, |c: int| seed_task(n, c as nat)));
        lemma_seed_value(n, (m - 1) as nat);
        assert(sq.last() == seed_task(n, (m - 1) as nat));
    }
}

proof fn lemma_total_tail_zero(g: spec_fn(int) -> nat, k: nat, m: nat)
    requires
        k <= m,
        forall|c: int| k <= c < m ==> #[trigger] g(c) == 0,
    ensures
        crate::mirror::total(g, m) == crate::mirror::total(g, k),
    decreases m,
{
    if m > k {
        lemma_total_tail_zero(g, k, (m - 1) as nat);
    }
}

/// The symmetry-reduced search counts every solution: its count is the
/// exact number of placements of `n` non-attacking queens.
pub proof fn lemma_dfs_count_exact(n: nat)
    requires
        n <= MAX_N,
    ensures
        dfs_count(n) == board_count(n, false),
{
    crate::mirror::lemma_orbit_count_exact(n);
    if n == 0 {
        crate::future_quotient::lemma_board_count_zero(false);
    } else {
        let j = (n - 1) as nat;
        let w = |c: int| orbit_weight(n, c as nat) * crate::mirror::first_row(n, j)(c);
        let half = n / 2;
        let front = Seq::new(half, |c: int| seed_task(n, c as nat));
        assert(n == 2 * half + n % 2) by {
            vstd::arithmetic::div_mod::lemma_fundamental_div_mod(n as int, 2);
        }
        lemma_seed_prefix(n, half);
        crate::mirror::lemma_orbit_total(n, j, n);
        if n % 2 == 1 {
            assert(seeds(n) == front + seq![seed_task(n, half)]);
            lemma_task_sum_concat(front, seq![seed_task(n, half)], weighted_value(n));
            let one = seq![seed_task(n, half)];
            assert(one.drop_last() =~= Seq::<Task>::empty());
            lemma_seed_value(n, half);
            assert(orbit_weight(n, half) == 1);
            let sw = seed_task(n, half).symmetry_weight as nat;
            let v = task_value(n, seed_task(n, half));
            let ow = orbit_weight(n, half);
            assert(sw == 1);
            assert(sw * v == v && ow * v == v) by (nonlinear_arith)
                requires
                    sw == 1,
                    ow == 1,
            ;
            assert(task_sum(one.drop_last(), weighted_value(n)) == 0);
            assert(one.last() == seed_task(n, half));
            assert(task_sum(one, weighted_value(n)) == weighted_value(n)(seed_task(n, half)));
            assert(task_sum(one, weighted_value(n)) == w(half as int));
            assert forall|c: int| half + 1 <= c < n implies #[trigger] w(c) == 0 by {
                assert(orbit_weight(n, c as nat) == 0);
            }
            lemma_total_tail_zero(w, half + 1, n);
        } else {
            assert(seeds(n) =~= front);
            assert forall|c: int| half <= c < n implies #[trigger] w(c) == 0 by {
                assert(orbit_weight(n, c as nat) == 0);
            }
            lemma_total_tail_zero(w, half, n);
        }
    }
}

} // verus!
