//! Exact contraction split at a row cut: the rows above the cut are
//! contracted as packed layers, and every frontier of the cut layer is
//! completed by a depth-first recursion over the remaining rows, applying the
//! occupied entry of the compiled row operator one queen at a time.
use vstd::prelude::*;

use crate::boundary::{BoundaryState, PackedBoundary, board_mask, board_mask_spec, empty_state, pack_spec, replace_bit, unpack_spec};
use crate::entries::{EntryLayout, LayerEntry, entries_sum, lemma_entries_sum_take, terms_of};
use crate::generation::initial_term;
use crate::joint::{JointEntry, coefficient_mask, contract_rows_d4_joint_u64_kernel, joint_layout, joint_mask};
use crate::row::{CompiledRowOperator, occupied_entry};
use crate::tensor::{VirtualLegs, occupied_legs};
use crate::transfer::{
    accept, available_spec, board_count, cell_free, key_paths, layer_total, lemma_available_bit,
    lemma_lowest_bit, lemma_scan_bounds, lemma_scan_step, lemma_successors_skip,
    lemma_trailing_zeros_of_bit, low_mask, paths, place, rooted, row_successors, row_successors_upto,
    sum_paths, weighted_sum,
};
use crate::contract::{ContractionResult, lemma_weighted_sum_take_step};
use crate::util::{elapsed, message, now, peak_rss_bytes, zero_duration};
use rayon::iter::{IntoParallelRefIterator, ParallelIterator};
use std::time::Duration;
use vstd::std_specs::bits::u64_trailing_zeros;

verus! {

broadcast use crate::mirror::lemma_orbit_count_exact;

/// The row relation the recursion applies: the occupied entry of the
/// compiled operator, binary and passing the row line from `v0` to `v1`.
#[derive(Clone, Copy, Debug, PartialEq, Eq, Structural)]
pub struct RecursiveTailRelation {
    pub legs: VirtualLegs,
    pub value: u128,
}

impl RecursiveTailRelation {
    /// The relation of the occupied entry of `operator`; refused unless it is
    /// binary and takes the row line from `v0` to `v1`.
    pub fn compile(operator: &CompiledRowOperator) -> (relation: Result<Self, String>)
        ensures
            relation matches Ok(r) && r.legs == occupied_legs() && r.value == 1,
    {
        let entry = operator.occupied();
        let legs = entry.legs;
        let binary = legs.column_in <= 1 && legs.column_out <= 1 && legs.row_in <= 1 && legs.row_out <= 1
            && legs.diag_dr_in <= 1 && legs.diag_dr_out <= 1 && legs.diag_dl_in <= 1 && legs.diag_dl_out
            <= 1;
        if !binary || legs.row_in != 0 || legs.row_out != 1 {
            return Err(message("recursive tail requires the compiled binary v0-to-v1 row entry"));
        }
        Ok(RecursiveTailRelation { legs, value: entry.value })
    }
}

/// The work of a recursion: the calls made and the entries applied.
#[derive(Clone, Copy, Debug, PartialEq, Eq, Structural)]
pub struct RecursiveTailMetrics {
    pub nodes: u128,
    pub accepted_entries: u128,
}

/// The columns whose signal on a line of `mask` is `required`.
pub open spec fn tail_matching(mask: u64, required: u8, board: u64) -> u64 {
    if required == 0 {
        !mask & board
    } else {
        mask & board
    }
}

/// The columns whose signal on a line of `mask` is `required`.
pub fn recursive_matching_bits(mask: u64, required: u8, board: u64) -> (bits: u64)
    ensures
        bits == tail_matching(mask, required, board),
{
    if required == 0 {
        (!mask) & board
    } else {
        mask & board
    }
}

/// The columns where the relation's entry matches every incoming signal of
/// `parent`.
pub fn recursive_tail_positions(parent: BoundaryState, relation: RecursiveTailRelation, board: u64) -> (positions:
    u64)
    ensures
        positions == tail_matching(parent.columns, relation.legs.column_in, board) & tail_matching(
            parent.diag_dr,
            relation.legs.diag_dr_in,
            board,
        ) & tail_matching(parent.diag_dl, relation.legs.diag_dl_in, board),
        relation.legs == occupied_legs() ==> forall|n: nat|
            board == board_mask_spec(n) ==> positions == #[trigger] available_spec(n, parent),
{
    recursive_matching_bits(parent.columns, relation.legs.column_in, board) & recursive_matching_bits(
        parent.diag_dr,
        relation.legs.diag_dr_in,
        board,
    ) & recursive_matching_bits(parent.diag_dl, relation.legs.diag_dl_in, board)
}

/// The frontier after placing the relation's entry in the column of the
/// lowest set bit of `selected`.
pub fn recursive_tail_successor(
    parent: BoundaryState,
    selected: u64,
    relation: RecursiveTailRelation,
    board: u64,
) -> (successor: BoundaryState)
    requires
        selected != 0,
        relation.legs.column_out <= 1,
        relation.legs.diag_dr_out <= 1,
        relation.legs.diag_dl_out <= 1,
    ensures
        relation.legs == occupied_legs() ==> forall|n: nat|
            board == board_mask_spec(n) && u64_trailing_zeros(selected) < n && n < 64 ==> successor
                == #[trigger] place(n, parent, u64_trailing_zeros(selected) as nat),
{
    proof {
        vstd::std_specs::bits::axiom_u64_trailing_zeros(selected);
    }
    let column = selected.trailing_zeros() as usize;
    let successor = BoundaryState {
        columns: replace_bit(parent.columns, column, relation.legs.column_out),
        diag_dr: (replace_bit(parent.diag_dr, column, relation.legs.diag_dr_out) << 1u64) & board,
        diag_dl: replace_bit(parent.diag_dl, column, relation.legs.diag_dl_out) >> 1u64,
    };
    proof {
        if relation.legs == occupied_legs() {
            assert forall|n: nat| board == board_mask_spec(n) && u64_trailing_zeros(selected) < n && n < 64
                implies successor == #[trigger] place(n, parent, u64_trailing_zeros(selected) as nat) by {
                crate::row::lemma_place_bits(n, parent, u64_trailing_zeros(selected) as nat);
            }
        }
    }
    successor
}

/// A bound on the calls made by a recursion over `d` rows: at most 21
/// children per call, so `32^d` covers the whole tree.
pub open spec fn node_budget(d: nat) -> nat
    decreases d,
{
    if d == 0 {
        1
    } else {
        32 * node_budget((d - 1) as nat)
    }
}

pub(crate) proof fn lemma_node_budget(d: nat, e: nat)
    requires
        d <= e,
    ensures
        1 <= node_budget(d) <= node_budget(e),
    decreases e,
{
    if e > d {
        lemma_node_budget(d, (e - 1) as nat);
    } else if d > 0 {
        lemma_node_budget((d - 1) as nat, (d - 1) as nat);
    }
}

pub(crate) proof fn lemma_node_budget_21()
    ensures
        node_budget(21) == 0x200_0000_0000_0000_0000_0000_0000,
{
    reveal_with_fuel(node_budget, 22);
}

/// A prefix of a list of frontiers has at most the path sum of the whole.
proof fn lemma_sum_paths_prefix(n: nat, k: nat, states: Seq<BoundaryState>, i: int, f: spec_fn(BoundaryState) -> nat)
    requires
        0 <= i <= states.len(),
    ensures
        sum_paths(n, k, states.take(i), f) <= sum_paths(n, k, states, f),
    decreases states.len(),
{
    if i < states.len() {
        lemma_sum_paths_prefix(n, k, states.drop_last(), i, f);
        assert(states.drop_last().take(i) =~= states.take(i));
    } else {
        assert(states.take(i) =~= states);
    }
}

/// The successors over the first `m` columns are a prefix of those over the
/// first `p`.
pub(crate) proof fn lemma_successors_prefix(n: nat, state: BoundaryState, m: nat, p: nat)
    requires
        m <= p,
    ensures
        row_successors_upto(n, state, m).len() <= row_successors_upto(n, state, p).len(),
        row_successors_upto(n, state, p).take(row_successors_upto(n, state, m).len() as int)
            == row_successors_upto(n, state, m),
    decreases p,
{
    if p > m {
        lemma_successors_prefix(n, state, m, (p - 1) as nat);
        let a = row_successors_upto(n, state, (p - 1) as nat);
        let b = row_successors_upto(n, state, p);
        let c = row_successors_upto(n, state, m);
        assert(b.take(a.len() as int) =~= a);
        assert(b.take(c.len() as int) =~= a.take(c.len() as int));
    } else {
        assert(row_successors_upto(n, state, p).take(row_successors_upto(n, state, m).len() as int)
            =~= row_successors_upto(n, state, m));
    }
}

/// The path sum over the successors in the first `m` columns is at most the
/// path count one row further.
pub(crate) proof fn lemma_partial_le_paths(n: nat, k: nat, state: BoundaryState, m: nat, f: spec_fn(BoundaryState) -> nat)
    requires
        m <= n,
    ensures
        sum_paths(n, k, row_successors_upto(n, state, m), f) <= paths(n, k + 1, state, f),
{
    lemma_successors_prefix(n, state, m, n);
    lemma_sum_paths_prefix(
        n,
        k,
        row_successors(n, state),
        row_successors_upto(n, state, m).len() as int,
        f,
    );
}

/// Count the completions of `parent` over rows `row..n`: the accepted final
/// frontiers reached by placing the relation's entry once per row.
pub fn contract_recursive_tail(
    n: usize,
    row: usize,
    parent: BoundaryState,
    relation: RecursiveTailRelation,
    board: u64,
    metrics: &mut RecursiveTailMetrics,
) -> (count: Result<u128, String>)
    requires
        n <= 21,
        row <= n,
        relation.legs == occupied_legs(),
        relation.value == 1,
        board == board_mask_spec(n as nat),
        old(metrics).nodes + node_budget((n - row) as nat) <= u128::MAX,
        old(metrics).accepted_entries + node_budget((n - row) as nat) <= u128::MAX,
    ensures
        count is Ok <==> paths(n as nat, (n - row) as nat, parent, accept(n as nat)) <= u128::MAX,
        count matches Ok(c) ==> c == paths(n as nat, (n - row) as nat, parent, accept(n as nat)),
        final(metrics).nodes <= old(metrics).nodes + node_budget((n - row) as nat),
        final(metrics).accepted_entries + 1 <= old(metrics).accepted_entries + node_budget((n - row) as nat),
    decreases n - row,
{
    let ghost nn = n as nat;
    let ghost d = (n - row) as nat;
    let ghost f = accept(nn);
    proof {
        lemma_node_budget(0, d);
    }
    metrics.nodes = metrics.nodes + 1;
    if row == n {
        if parent.columns == board {
            return Ok(1);
        } else {
            return Ok(0);
        }
    }
    let ghost b = node_budget((d - 1) as nat);
    proof {
        lemma_node_budget(0, (d - 1) as nat);
        assert(node_budget(d) == 32 * b);
    }
    let ghost base_nodes = old(metrics).nodes;
    let ghost base_accepted = old(metrics).accepted_entries;
    let mut positions = recursive_tail_positions(parent, relation, board);
    let ghost avail = available_spec(nn, parent);
    assert(positions == avail);
    proof {
        crate::sitewise::lemma_no_low_bits(avail);
    }
    let mut count: u128 = 0;
    let ghost mut k: nat = 0;
    while positions != 0
        invariant
            1 <= n <= 21,
            nn == n,
            row < n,
            d == n - row,
            f == accept(nn),
            relation.legs == occupied_legs(),
            relation.value == 1,
            board == board_mask_spec(nn),
            k <= n,
            positions == avail & !low_mask(k),
            avail == available_spec(nn, parent),
            b == node_budget((d - 1) as nat),
            b >= 1,
            node_budget(d) == 32 * b,
            base_nodes + node_budget(d) <= u128::MAX,
            base_accepted + node_budget(d) <= u128::MAX,
            base_nodes == old(metrics).nodes,
            base_accepted == old(metrics).accepted_entries,
            row_successors_upto(nn, parent, k).len() <= k,
            count == sum_paths(nn, (d - 1) as nat, row_successors_upto(nn, parent, k), f),
            metrics.nodes <= base_nodes + 1 + row_successors_upto(nn, parent, k).len() * b,
            metrics.accepted_entries <= base_accepted + row_successors_upto(nn, parent, k).len() * b,
        decreases positions,
    {
        let negated = 0u64.wrapping_sub(positions);
        let selected = positions & negated;
        proof {
            lemma_lowest_bit(positions, negated);
            lemma_trailing_zeros_of_bit(u64_trailing_zeros(positions) as u64);
            lemma_scan_bounds(avail, positions, k);
        }
        let ghost t = u64_trailing_zeros(positions) as nat;
        proof {
            assert(u64_trailing_zeros(selected) == t);
            assert(k <= t);
            lemma_scan_step(avail, positions, k, t);
            lemma_available_bit(nn, parent, t);
            assert forall|c: nat| k <= c < t implies !#[trigger] cell_free(parent, c) by {
                lemma_available_bit(nn, parent, c);
            }
            lemma_successors_skip(nn, parent, k, t);
            assert(t < n && cell_free(parent, t));
            crate::transfer::lemma_successors_len(nn, parent, t);
        }
        positions = positions & (positions - 1);
        let ghost children = row_successors_upto(nn, parent, t).len();
        proof {
            assert(children <= 20);
            assert(children * b + b <= 21 * b) by (nonlinear_arith)
                requires
                    children <= 20,
                    b >= 1,
            ;
        }
        metrics.accepted_entries = metrics.accepted_entries + 1;
        let successor = recursive_tail_successor(parent, selected, relation, board);
        assert(successor == place(nn, parent, t));
        let ghost succ = row_successors_upto(nn, parent, t + 1);
        proof {
            assert(succ =~= row_successors_upto(nn, parent, t).push(successor));
            assert(sum_paths(nn, (d - 1) as nat, succ, f) == count + paths(nn, (d - 1) as nat, successor, f)) by {
                assert(succ.drop_last() =~= row_successors_upto(nn, parent, t));
            }
            lemma_partial_le_paths(nn, (d - 1) as nat, parent, t + 1, f);
            assert(paths(nn, d, parent, f) == paths(nn, ((d - 1) + 1) as nat, parent, f));
        }
        let child = match contract_recursive_tail(n, row + 1, successor, relation, board, metrics) {
            Ok(c) => c,
            Err(error) => {
                return Err(error);
            },
        };
        let weighted = match child.checked_mul(relation.value) {
            Some(w) => w,
            None => {
                return Err(message("coefficient overflow in recursive local C multiplication"));
            },
        };
        count = match count.checked_add(weighted) {
            Some(c) => c,
            None => {
                return Err(message("coefficient overflow in recursive tail reduction"));
            },
        };
        proof {
            assert(children + 1 == succ.len());
            assert((children + 1) * b == children * b + b) by (nonlinear_arith);
            k = t + 1;
        }
    }
    proof {
        lemma_scan_bounds(avail, positions, k);
        assert forall|c: nat| k <= c < n implies !#[trigger] cell_free(parent, c) by {
            lemma_available_bit(nn, parent, c);
        }
        lemma_successors_skip(nn, parent, k, nn);
        crate::transfer::lemma_successors_len(nn, parent, nn);
        let m = row_successors(nn, parent).len();
        assert(m <= 21);
        assert(1 + m * b <= 32 * b) by (nonlinear_arith)
            requires
                m <= 21,
                b >= 1,
        ;
        assert(m * b + 1 <= 32 * b) by (nonlinear_arith)
            requires
                m <= 21,
                b >= 1,
        ;
        assert(paths(nn, d, parent, f) == paths(nn, ((d - 1) + 1) as nat, parent, f));
    }
    Ok(count)
}

/// What completing one prefix entry gives: its coefficient times its
/// completions, when that fits `u128`.
pub open spec fn tail_task_done(
    term: (PackedBoundary, u128),
    n: nat,
    cut: nat,
    result: Result<(u128, RecursiveTailMetrics), String>,
) -> bool {
    let completions = paths(n, (n - cut) as nat, unpack_spec(term.0.0, n), accept(n));
    &&& result is Ok <==> completions <= u128::MAX && (term.1 as nat) * completions <= u128::MAX
    &&& result matches Ok(done) ==> done.0 == (term.1 as nat) * completions
}

/// Complete one entry of the prefix layer over the rows `cut..n`.
pub fn tail_task(
    entry: JointEntry,
    n: usize,
    cut: usize,
    relation: RecursiveTailRelation,
    board: u64,
    layout: EntryLayout,
) -> (result: Result<(u128, RecursiveTailMetrics), String>)
    requires
        1 <= n <= 21,
        cut <= n,
        relation.legs == occupied_legs(),
        relation.value == 1,
        board == board_mask_spec(n as nat),
        JointEntry::layout_ok(layout),
    ensures
        tail_task_done(entry.term(layout), n as nat, cut as nat, result),
{
    let key = entry.stored_key(layout);
    let weight = entry.stored_weight(layout);
    let mut metrics = RecursiveTailMetrics { nodes: 0, accepted_entries: 0 };
    proof {
        lemma_node_budget((n - cut) as nat, 21);
        lemma_node_budget_21();
    }
    let completions = contract_recursive_tail(
        n,
        cut,
        PackedBoundary(key as u128).unpack(n),
        relation,
        board,
        &mut metrics,
    )?;
    proof {
        assert(completions * weight == weight * completions) by (nonlinear_arith);
    }
    match completions.checked_mul(weight) {
        Some(weighted) => Ok((weighted, metrics)),
        None => Err(message("coefficient overflow joining prefix and recursive tail")),
    }
}

/// Completes each prefix entry with `tail_task`, the entries in parallel
/// through rayon's `par_iter`, `map` and `collect`, which calls the closure
/// once on each entry and returns the results in the order of the entries.
/// Stated: one result per entry, each what `tail_task` ensures of it.
#[verifier::external_body]
pub(crate) fn par_tail_tasks(
    tasks: &Vec<JointEntry>,
    n: usize,
    cut: usize,
    relation: RecursiveTailRelation,
    board: u64,
    layout: EntryLayout,
) -> (results: Vec<Result<(u128, RecursiveTailMetrics), String>>)
    requires
        1 <= n <= 21,
        cut <= n,
        relation.legs == occupied_legs(),
        relation.value == 1,
        board == board_mask_spec(n as nat),
        JointEntry::layout_ok(layout),
    ensures
        results@.len() == tasks@.len(),
        forall|i: int|
            0 <= i < tasks@.len() ==> tail_task_done(
                (#[trigger] tasks@[i]).term(layout),
                n as nat,
                cut as nat,
                results@[i],
            ),
{
    tasks.par_iter().map(|&entry| tail_task(entry, n, cut, relation, board, layout)).collect()
}

/// Every entry of every shard, in shard order.
pub(crate) fn flatten_shards(shards: &Vec<Vec<JointEntry>>, layout: EntryLayout) -> (tasks: Vec<JointEntry>)
    ensures
        forall|g: spec_fn(u128) -> nat|
            #[trigger] weighted_sum(terms_of(tasks@, layout), g) == entries_sum(shards@, layout, g),
{
    let mut tasks: Vec<JointEntry> = Vec::new();
    let mut s: usize = 0;
    while s < shards.len()
        invariant
            s <= shards@.len(),
            forall|g: spec_fn(u128) -> nat|
                #[trigger] weighted_sum(terms_of(tasks@, layout), g) == entries_sum(shards@.take(s as int), layout, g),
        decreases shards@.len() - s,
    {
        let ghost shard = terms_of(shards@[s as int]@, layout);
        let len = shards[s].len();
        let mut e: usize = 0;
        while e < len
            invariant
                s < shards@.len(),
                shard == terms_of(shards@[s as int]@, layout),
                len == shard.len(),
                e <= len,
                forall|g: spec_fn(u128) -> nat|
                    #[trigger] weighted_sum(terms_of(tasks@, layout), g) == entries_sum(
                        shards@.take(s as int),
                        layout,
                        g,
                    ) + weighted_sum(shard.take(e as int), g),
            decreases len - e,
        {
            let ghost before = tasks@;
            let entry = shards[s][e];
            tasks.push(entry);
            proof {
                assert(terms_of(tasks@, layout) =~= terms_of(before, layout).push(entry.term(layout)));
                assert(terms_of(tasks@, layout).drop_last() =~= terms_of(before, layout));
                assert(terms_of(tasks@, layout).last() == entry.term(layout));
                assert(shard[e as int] == entry.term(layout));
                assert forall|g: spec_fn(u128) -> nat| #[trigger] weighted_sum(terms_of(tasks@, layout), g)
                    == entries_sum(shards@.take(s as int), layout, g) + weighted_sum(shard.take(e as int + 1), g) by {
                    lemma_weighted_sum_take_step(shard, e as int, g);
                    assert(weighted_sum(terms_of(before, layout), g) == entries_sum(shards@.take(s as int), layout, g)
                        + weighted_sum(shard.take(e as int), g));
                    assert(weighted_sum(terms_of(tasks@, layout), g) == weighted_sum(terms_of(before, layout), g)
                        + (entry.term(layout).1 as nat) * g(entry.term(layout).0.0));
                }
            }
            e = e + 1;
        }
        proof {
            assert(shard.take(e as int) =~= shard);
            assert forall|g: spec_fn(u128) -> nat| #[trigger] weighted_sum(terms_of(tasks@, layout), g)
                == entries_sum(shards@.take(s as int + 1), layout, g) by {
                lemma_entries_sum_take(shards@, s as int, layout, g);
            }
        }
        s = s + 1;
    }
    proof {
        assert(shards@.take(s as int) =~= shards@);
    }
    tasks
}

/// A contraction split at a row cut and completed recursively.
#[derive(Debug)]
pub struct RecursiveTailResult {
    pub contraction: ContractionResult,
    pub cut: usize,
    pub prefix_elapsed: Duration,
    pub tail_elapsed: Duration,
    pub prefix_support: usize,
    pub tail_tasks: usize,
    pub recursive_nodes: u128,
    pub recursive_accepted_entries: u128,
    pub coefficient_bits: u32,
    pub max_prefix_coefficient: u64,
    pub generation_elapsed: Duration,
    pub sort_elapsed: Duration,
    pub reduce_elapsed: Duration,
    pub peak_thread_local_bytes: usize,
}

/// What the recursive-tail contraction returns: an error for boards wider
/// than 21, a cut past the board, or an unsupported shard count; on success
/// the exact count and the reports of the prefix rows. Without a prefix it
/// succeeds exactly when the count fits `u128`; with one, whenever every
/// coefficient of the prefix layers fits the joint coefficient bits.
pub open spec fn recursive_tail_spec(n: nat, shards: nat, cut: nat, result: Result<RecursiveTailResult, String>) -> bool {
    &&& !(n <= 21 && cut <= n && crate::sharded::valid_shards(shards)) ==> result is Err
    &&& n <= 21 && cut == 0 && crate::sharded::valid_shards(shards) ==> (result is Ok <==> board_count(n, false)
        <= u128::MAX)
    &&& n <= 21 && 1 <= cut <= n && crate::sharded::valid_shards(shards) && crate::packed_layers::coefficients_within(
        n,
        cut,
        joint_mask((64 - 3 * n) as nat) as nat,
    ) ==> result is Ok
    &&& result matches Ok(r) ==> {
        &&& r.cut == cut
        &&& r.contraction.n == n
        &&& r.contraction.count == board_count(n, false)
        &&& r.contraction.layers@.len() == cut
        &&& forall|k: int|
            0 <= k < cut ==> (#[trigger] r.contraction.layers@[k]).row == k
                && r.contraction.layers@[k].output_weight == layer_total(n, (k + 1) as nat, true)
    }
}

/// Exact contraction of the first `cut` rows as joint-u64 packed layers,
/// completed from every frontier of the cut layer by a depth-first recursion
/// over the remaining rows, the frontiers in parallel.
pub fn contract_rows_d4_recursive_tail(n: usize, shards: usize, cut: usize) -> (result: Result<
    RecursiveTailResult,
    String,
>)
    ensures
        recursive_tail_spec(n as nat, shards as nat, cut as nat, result),
{
    if n > 21 {
        return Err(message("recursive-tail virtual-boundary backend supports N <= 21"));
    }
    if cut > n {
        return Err(message("recursive-tail cut cannot exceed N"));
    }
    if !crate::sharded::shards_supported(shards) {
        return Err(message("shards must be a power of two in 1..=256"));
    }
    let ghost nn = n as nat;
    if n == 0 {
        proof {
            crate::sitewise::lemma_empty_board();
            assert(board_count(0, false) == 1);
        }
        return Ok(
            RecursiveTailResult {
                contraction: ContractionResult {
                    n,
                    count: 1,
                    elapsed: zero_duration(),
                    peak_states: 1,
                    tensor_entries_examined: 17,
                    tensor_entries_matched: 17,
                    row_operator_candidates: 0,
                    row_operator_matched: 0,
                    peak_rss_bytes: peak_rss_bytes(),
                    layers: Vec::new(),
                },
                cut,
                prefix_elapsed: zero_duration(),
                tail_elapsed: zero_duration(),
                prefix_support: 1,
                tail_tasks: 1,
                recursive_nodes: 1,
                recursive_accepted_entries: 0,
                coefficient_bits: 64,
                max_prefix_coefficient: 1,
                generation_elapsed: zero_duration(),
                sort_elapsed: zero_duration(),
                reduce_elapsed: zero_duration(),
                peak_thread_local_bytes: 0,
            },
        );
    }
    let total_start = now();
    let coefficient_bits: u32 = 64 - (3 * n) as u32;
    let mask = coefficient_mask(coefficient_bits);
    let layout = EntryLayout { bits: coefficient_bits, mask };
    proof {
        assert(layout == joint_layout(coefficient_bits as nat));
    }
    let tensor = crate::tensor::SiteTensorC::sec_vi();
    let operator = CompiledRowOperator::compile(&tensor)?;
    let relation = RecursiveTailRelation::compile(&operator)?;
    let board = board_mask(n);
    let mut generation_elapsed = zero_duration();
    let mut sort_elapsed = zero_duration();
    let mut reduce_elapsed = zero_duration();
    let mut peak_thread_local_bytes: usize = 0;
    let mut prefix_contraction;
    let tasks: Vec<JointEntry>;
    let prefix_support: usize;
    let max_prefix_coefficient: u64;
    let ghost mut target: nat = 0;
    if cut == 0 {
        let initial = BoundaryState { columns: 0, diag_dr: 0, diag_dl: 0 };
        let packed = PackedBoundary::pack(initial, n);
        proof {
            crate::contract::lemma_empty_fits(nn);
            crate::boundary::lemma_pack_round_trip(empty_state(), nn);
            crate::joint::lemma_pack_fits_u64(empty_state(), nn);
            JointEntry::lemma_key_ok(pack_spec(empty_state(), nn) as u64, nn, layout);
            crate::joint::lemma_joint_mask_positive(coefficient_bits as nat);
        }
        if packed.0 > u64::MAX as u128 {
            return Err(message("initial recursive-tail key does not fit u64"));
        }
        let key = packed.0 as u64;
        let entry = JointEntry::store(key, 1, layout);
        tasks = vec![entry];
        proof {
            let terms = terms_of(tasks@, layout);
            assert(terms =~= seq![initial_term(nn)]);
            let g = key_paths(nn, nn, accept(nn));
            assert(terms.drop_last() =~= Seq::<(PackedBoundary, u128)>::empty());
            assert(terms.last() == initial_term(nn));
            assert(g(pack_spec(empty_state(), nn)) == paths(nn, nn, empty_state(), accept(nn)));
            assert(weighted_sum(terms.drop_last(), g) == 0);
            assert(weighted_sum(terms, g) == (1nat) * g(pack_spec(empty_state(), nn)));
            target = board_count(nn, false);
        }
        prefix_support = 1;
        max_prefix_coefficient = 1;
        prefix_contraction = ContractionResult {
            n,
            count: 0,
            elapsed: zero_duration(),
            peak_states: 1,
            tensor_entries_examined: 17,
            tensor_entries_matched: 17,
            row_operator_candidates: 0,
            row_operator_matched: 0,
            peak_rss_bytes: peak_rss_bytes(),
            layers: Vec::new(),
        };
    } else {
        let prefix = match contract_rows_d4_joint_u64_kernel(n, shards, coefficient_bits, true, cut) {
            Ok(prefix) => prefix,
            Err(failure) => {
                return Err(failure.message);
            },
        };
        proof {
            assert(entries_sum(prefix.boundary@, layout, key_paths(nn, (n - cut) as nat, accept(nn))) == rooted(
                nn,
                (cut + (n - cut)) as nat,
                true,
                accept(nn),
            ));
            target = board_count(nn, true);
        }
        generation_elapsed = prefix.parallel.generation_elapsed;
        sort_elapsed = prefix.parallel.sort_elapsed;
        reduce_elapsed = prefix.parallel.reduce_elapsed;
        peak_thread_local_bytes = prefix.parallel.peak_thread_local_bytes;
        max_prefix_coefficient = prefix.max_coefficient_observed as u64;
        prefix_contraction = prefix.parallel.contraction;
        prefix_support = crate::packed_layers::total_entries(&prefix.boundary);
        tasks = flatten_shards(&prefix.boundary, layout);
    }
    let ghost g = key_paths(nn, (n - cut) as nat, accept(nn));
    proof {
        crate::certified::lemma_paths_power(nn, nn, empty_state());
        crate::certified::lemma_power_monotone(nn, 21, nn, 21);
        crate::certified::lemma_power_21();
        crate::mirror::lemma_orbit_count_exact(nn);
        assert(board_count(nn, false) == paths(nn, nn, empty_state(), accept(nn)));
        assert(target <= u128::MAX);
    }
    let prefix_elapsed = elapsed(&total_start);
    let tail_start = now();
    let results = par_tail_tasks(&tasks, n, cut, relation, board, layout);
    let ghost terms = terms_of(tasks@, layout);
    let mut count: u128 = 0;
    let mut recursive_nodes: u128 = 0;
    let mut recursive_accepted_entries: u128 = 0;
    let mut i: usize = 0;
    while i < results.len()
        invariant
            1 <= n <= 21,
            nn == n,
            cut <= n,
            results@.len() == tasks@.len(),
            terms == terms_of(tasks@, layout),
            g == key_paths(nn, (n - cut) as nat, accept(nn)),
            weighted_sum(terms, g) == target,
            target == board_count(nn, cut > 0),
            target <= u128::MAX,
            cut == 0 ==> forall|t: int| 0 <= t < terms.len() ==> (#[trigger] terms[t]).1 == 1,
            forall|t: int|
                0 <= t < tasks@.len() ==> tail_task_done(
                    (#[trigger] tasks@[t]).term(layout),
                    nn,
                    cut as nat,
                    results@[t],
                ),
            i <= results@.len(),
            count == weighted_sum(terms.take(i as int), g),
        decreases results@.len() - i,
    {
        proof {
            lemma_weighted_sum_take_step(terms, i as int, g);
            crate::contract::lemma_weighted_sum_prefix_le(terms, i as int + 1, g);
            assert(terms[i as int] == tasks@[i as int].term(layout));
            assert(tail_task_done(tasks@[i as int].term(layout), nn, cut as nat, results@[i as int]));
        }
        let (weighted, metrics) = match &results[i] {
            Ok(done) => *done,
            Err(error) => {
                proof {
                    let term = terms[i as int];
                    let c = paths(nn, (n - cut) as nat, unpack_spec(term.0.0, nn), accept(nn));
                    assert(g(term.0.0) == c);
                    if c > u128::MAX {
                        assert((term.1 as nat) * c >= c || term.1 == 0) by (nonlinear_arith);
                    }
                    crate::certified::lemma_paths_power(nn, (n - cut) as nat, unpack_spec(term.0.0, nn));
                    crate::certified::lemma_power_monotone(nn, 21, (n - cut) as nat, 21);
                    crate::certified::lemma_power_21();
                    assert(c <= u128::MAX);
                    assert(weighted_sum(terms.take(i as int + 1), g) == weighted_sum(terms.take(i as int), g)
                        + (term.1 as nat) * c);
                    assert((term.1 as nat) * c <= u128::MAX);
                    assert(false);
                }
                return Err(error.clone());
            },
        };
        count = match count.checked_add(weighted) {
            Some(c) => c,
            None => {
                return Err(message("coefficient overflow reducing recursive-tail tasks"));
            },
        };
        recursive_nodes = recursive_nodes.saturating_add(metrics.nodes);
        recursive_accepted_entries = recursive_accepted_entries.saturating_add(metrics.accepted_entries);
        i = i + 1;
    }
    proof {
        assert(terms.take(i as int) =~= terms);
    }
    let tail_elapsed = elapsed(&tail_start);
    prefix_contraction.count = count;
    prefix_contraction.elapsed = elapsed(&total_start);
    prefix_contraction.peak_rss_bytes = peak_rss_bytes();
    prefix_contraction.row_operator_candidates = prefix_contraction.row_operator_candidates.saturating_add(
        recursive_accepted_entries,
    );
    prefix_contraction.row_operator_matched = prefix_contraction.row_operator_matched.saturating_add(
        recursive_accepted_entries,
    );
    Ok(
        RecursiveTailResult {
            contraction: prefix_contraction,
            cut,
            prefix_elapsed,
            tail_elapsed,
            prefix_support,
            tail_tasks: prefix_support,
            recursive_nodes,
            recursive_accepted_entries,
            coefficient_bits,
            max_prefix_coefficient,
            generation_elapsed,
            sort_elapsed,
            reduce_elapsed,
            peak_thread_local_bytes,
        },
    )
}

} // verus!
