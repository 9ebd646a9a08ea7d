//! Generation of the next layer from a layer of packed entries held in
//! shards: contiguous ranges of source shards are expanded into local
//! buckets, in parallel through rayon, and the buckets are gathered into the
//! destination shards.
use vstd::prelude::*;

use crate::batched::{expansion, weights_within};
use crate::boundary::{BoundaryState, PackedBoundary, empty_state, pack_spec, unpack_spec};
use crate::entries::{
    EntryLayout, LayerEntry, append_entries_sparse_sharded_d4, entries_sum, lemma_entries_sum_zero,
    terms_of,
};
use crate::row::{CompiledRowOperator, RowCounters};
use crate::sharded::valid_shards;
use crate::transfer::{
    key_paths, lemma_expand_parent, lemma_top_row_sum, orbit_sum, pack_terms, unit_key, weighted_sum,
};
use rayon::iter::{IntoParallelRefIterator, ParallelIterator};

verus! {

/// The packed term of the empty frontier.
pub open spec fn initial_term(n: nat) -> (PackedBoundary, u128) {
    (PackedBoundary(pack_spec(empty_state(), n)), 1u128)
}

/// The packed terms that the term `term` of a layer contributes to the next
/// layer.
pub open spec fn term_successors(n: nat, term: (PackedBoundary, u128), top_row: bool) -> Seq<
    (PackedBoundary, u128),
> {
    pack_terms(expansion(n, unpack_spec(term.0.0, n), term.1, top_row), n)
}

/// The weighted sum of the successors of every term of `terms`.
pub open spec fn successors_sum(
    terms: Seq<(PackedBoundary, u128)>,
    n: nat,
    top_row: bool,
    g: spec_fn(u128) -> nat,
) -> nat
    decreases terms.len(),
{
    if terms.len() == 0 {
        0
    } else {
        successors_sum(terms.drop_last(), n, top_row, g) + weighted_sum(
            term_successors(n, terms.last(), top_row),
            g,
        )
    }
}

/// The weighted sum of the successors of every term of every shard.
pub open spec fn shards_successors_sum<E: LayerEntry>(
    shards: Seq<Vec<E>>,
    layout: EntryLayout,
    n: nat,
    top_row: bool,
    g: spec_fn(u128) -> nat,
) -> nat
    decreases shards.len(),
{
    if shards.len() == 0 {
        0
    } else {
        shards_successors_sum(shards.drop_last(), layout, n, top_row, g) + successors_sum(
            terms_of(shards.last()@, layout),
            n,
            top_row,
            g,
        )
    }
}

/// Every parent term of every shard expands with coefficients within `limit`.
pub open spec fn shards_expand_within<E: LayerEntry>(
    shards: Seq<Vec<E>>,
    layout: EntryLayout,
    n: nat,
    top_row: bool,
    limit: nat,
) -> bool {
    forall|t: int, i: int|
        0 <= t < shards.len() && 0 <= i < shards[t]@.len() ==> weights_within(
            expansion(
                n,
                unpack_spec((#[trigger] terms_of(shards[t]@, layout)[i]).0.0, n),
                terms_of(shards[t]@, layout)[i].1,
                top_row,
            ),
            limit,
        )
}

/// With a key function that is one everywhere, one term's weight is at most
/// the sum.
proof fn lemma_weight_le_sum(terms: Seq<(PackedBoundary, u128)>, g: spec_fn(u128) -> nat, k: int)
    requires
        0 <= k < terms.len(),
        forall|x: u128| #[trigger] g(x) == 1,
    ensures
        terms[k].1 <= weighted_sum(terms, g),
    decreases terms.len(),
{
    let last = terms.last();
    let w = last.1 as nat;
    let one = g(last.0.0);
    assert(w * one == w) by (nonlinear_arith)
        requires
            one == 1,
    ;
    if k < terms.len() - 1 {
        lemma_weight_le_sum(terms.drop_last(), g, k);
        assert(terms.drop_last()[k] == terms[k]);
    }
}

proof fn lemma_successors_le_sum(
    terms: Seq<(PackedBoundary, u128)>,
    n: nat,
    top_row: bool,
    g: spec_fn(u128) -> nat,
    i: int,
)
    requires
        0 <= i < terms.len(),
    ensures
        weighted_sum(term_successors(n, terms[i], top_row), g) <= successors_sum(terms, n, top_row, g),
    decreases terms.len(),
{
    if i < terms.len() - 1 {
        lemma_successors_le_sum(terms.drop_last(), n, top_row, g, i);
        assert(terms.drop_last()[i] == terms[i]);
    }
}

proof fn lemma_shard_successors_le_sum<E: LayerEntry>(
    shards: Seq<Vec<E>>,
    layout: EntryLayout,
    n: nat,
    top_row: bool,
    g: spec_fn(u128) -> nat,
    t: int,
)
    requires
        0 <= t < shards.len(),
    ensures
        successors_sum(terms_of(shards[t]@, layout), n, top_row, g) <= shards_successors_sum(
            shards,
            layout,
            n,
            top_row,
            g,
        ),
    decreases shards.len(),
{
    if t < shards.len() - 1 {
        lemma_shard_successors_le_sum(shards.drop_last(), layout, n, top_row, g, t);
        assert(shards.drop_last()[t] == shards[t]);
    }
}

/// One frontier: weight one there and nowhere else.
pub open spec fn point(s: BoundaryState) -> spec_fn(BoundaryState) -> nat {
    |t: BoundaryState| if t == s {
        1nat
    } else {
        0nat
    }
}

proof fn lemma_term_le_sum(terms: Seq<(PackedBoundary, u128)>, g: spec_fn(u128) -> nat, k: int)
    requires
        0 <= k < terms.len(),
    ensures
        (terms[k].1 as nat) * g(terms[k].0.0) <= weighted_sum(terms, g),
    decreases terms.len(),
{
    if k < terms.len() - 1 {
        lemma_term_le_sum(terms.drop_last(), g, k);
        assert(terms.drop_last()[k] == terms[k]);
    }
}

proof fn lemma_top_row_terms_from(n: nat, terms: Seq<(BoundaryState, u128)>, i: int)
    requires
        0 <= i < crate::row::top_row_terms(n, terms).len(),
    ensures
        exists|j: int| 0 <= j < terms.len() && #[trigger] terms[j].0 == crate::row::top_row_terms(n, terms)[i].0,
    decreases terms.len(),
{
    let prev = crate::row::top_row_terms(n, terms.drop_last());
    if i < prev.len() {
        lemma_top_row_terms_from(n, terms.drop_last(), i);
        let j = choose|j: int| 0 <= j < terms.drop_last().len() && #[trigger] terms.drop_last()[j].0 == prev[i].0;
        assert(terms[j] == terms.drop_last()[j]);
    } else {
        assert(terms[terms.len() - 1].0 == crate::row::top_row_terms(n, terms)[i].0);
    }
}

/// The frontiers a fitting parent expands to lie on the board.
proof fn lemma_expansion_fits(n: nat, parent: BoundaryState, weight: u128, top_row: bool, k: int)
    requires
        n <= 21,
        crate::boundary::state_fits(parent, n),
        0 <= k < expansion(n, parent, weight, top_row).len(),
    ensures
        crate::boundary::state_fits(expansion(n, parent, weight, top_row)[k].0, n),
{
    let plain = crate::transfer::weighted_successors(n, parent, weight);
    crate::transfer::lemma_row_successors_fit(n, parent, n);
    if top_row {
        lemma_top_row_terms_from(n, plain, k);
        let j = choose|j: int| 0 <= j < plain.len() && #[trigger] plain[j].0 == crate::row::top_row_terms(n, plain)[k].0;
        assert(plain[j].0 == crate::transfer::row_successors(n, parent)[j]);
    } else {
        assert(expansion(n, parent, weight, top_row)[k].0 == crate::transfer::row_successors(n, parent)[k]);
    }
}

/// A parent whose expansion outgrows `limit` makes the weight the next layer
/// gathers on one frontier outgrow it too.
pub(crate) proof fn lemma_outgrown_point<E: LayerEntry>(
    boundary: Seq<Vec<E>>,
    s: int,
    e: int,
    layout: EntryLayout,
    n: nat,
    top_row: bool,
    limit: nat,
) -> (t: BoundaryState)
    requires
        n <= 21,
        0 <= s <= e <= boundary.len(),
        !shards_expand_within(boundary.subrange(s, e), layout, n, top_row, limit),
    ensures
        shards_successors_sum(boundary, layout, n, top_row, key_paths(n, 0, point(t))) > limit,
{
    let sub = boundary.subrange(s, e);
    let (ti, i) = choose|ti: int, i: int|
        0 <= ti < sub.len() && 0 <= i < sub[ti]@.len() && !weights_within(
            expansion(
                n,
                unpack_spec((#[trigger] terms_of(sub[ti]@, layout)[i]).0.0, n),
                terms_of(sub[ti]@, layout)[i].1,
                top_row,
            ),
            limit,
        );
    let terms = terms_of(sub[ti]@, layout);
    let term = terms[i];
    let parent = unpack_spec(term.0.0, n);
    crate::boundary::lemma_unpack_fits(term.0.0, n);
    let ex = expansion(n, parent, term.1, top_row);
    let k = choose|k: int| 0 <= k < ex.len() && (#[trigger] ex[k]).1 > limit;
    let child = ex[k].0;
    lemma_expansion_fits(n, parent, term.1, top_row, k);
    crate::boundary::lemma_pack_round_trip(child, n);
    let g = key_paths(n, 0, point(child));
    let succ = term_successors(n, term, top_row);
    assert(succ[k] == (PackedBoundary(pack_spec(child, n)), ex[k].1));
    assert(g(pack_spec(child, n)) == 1);
    lemma_term_le_sum(succ, g, k);
    let w = succ[k].1 as nat;
    let one = g(succ[k].0.0);
    assert(one == 1);
    assert(w * one == w) by (nonlinear_arith)
        requires
            one == 1,
    ;
    assert(weighted_sum(succ, g) > limit);
    assert(terms[i] == term);
    lemma_successors_le_sum(terms, n, top_row, g, i);
    assert(sub[ti] == boundary[s + ti]);
    lemma_shard_successors_le_sum(boundary, layout, n, top_row, g, s + ti);
    child
}

/// A parent whose expansion outgrows `limit` makes the total weight of the
/// successors of the whole layer outgrow it too.
pub(crate) proof fn lemma_outgrown_total<E: LayerEntry>(
    boundary: Seq<Vec<E>>,
    s: int,
    e: int,
    layout: EntryLayout,
    n: nat,
    top_row: bool,
    limit: nat,
    g: spec_fn(u128) -> nat,
)
    requires
        0 <= s <= e <= boundary.len(),
        !shards_expand_within(boundary.subrange(s, e), layout, n, top_row, limit),
        forall|x: u128| #[trigger] g(x) == 1,
    ensures
        shards_successors_sum(boundary, layout, n, top_row, g) > limit,
{
    let sub = boundary.subrange(s, e);
    let (t, i) = choose|t: int, i: int|
        0 <= t < sub.len() && 0 <= i < sub[t]@.len() && !weights_within(
            expansion(
                n,
                unpack_spec((#[trigger] terms_of(sub[t]@, layout)[i]).0.0, n),
                terms_of(sub[t]@, layout)[i].1,
                top_row,
            ),
            limit,
        );
    let terms = terms_of(sub[t]@, layout);
    let term = terms[i];
    let ex = expansion(n, unpack_spec(term.0.0, n), term.1, top_row);
    let k = choose|k: int| 0 <= k < ex.len() && (#[trigger] ex[k]).1 > limit;
    let succ = term_successors(n, term, top_row);
    assert(succ[k].1 == ex[k].1);
    lemma_weight_le_sum(succ, g, k);
    lemma_successors_le_sum(terms, n, top_row, g, i);
    assert(sub[t] == boundary[s + t]);
    lemma_shard_successors_le_sum(boundary, layout, n, top_row, g, s + t);
}

/// Every term of every shard is the term of the empty frontier.
pub open spec fn only_initial<E: LayerEntry>(shards: Seq<Vec<E>>, layout: EntryLayout, n: nat) -> bool {
    forall|t: int, i: int|
        0 <= t < shards.len() && 0 <= i < shards[t]@.len() ==> #[trigger] terms_of(shards[t]@, layout)[i]
            == initial_term(n)
}

proof fn lemma_successors_sum_take(
    terms: Seq<(PackedBoundary, u128)>,
    i: int,
    n: nat,
    top_row: bool,
    g: spec_fn(u128) -> nat,
)
    requires
        0 <= i < terms.len(),
    ensures
        successors_sum(terms.take(i + 1), n, top_row, g) == successors_sum(terms.take(i), n, top_row, g)
            + weighted_sum(term_successors(n, terms[i], top_row), g),
{
    assert(terms.take(i + 1).drop_last() =~= terms.take(i));
}

proof fn lemma_shards_successors_step<E: LayerEntry>(
    a: Seq<Vec<E>>,
    s: int,
    e: int,
    layout: EntryLayout,
    n: nat,
    top_row: bool,
    g: spec_fn(u128) -> nat,
)
    requires
        0 <= s <= e < a.len(),
    ensures
        shards_successors_sum(a.subrange(s, e + 1), layout, n, top_row, g) == shards_successors_sum(
            a.subrange(s, e),
            layout,
            n,
            top_row,
            g,
        ) + successors_sum(terms_of(a[e]@, layout), n, top_row, g),
{
    assert(a.subrange(s, e + 1).drop_last() =~= a.subrange(s, e));
}

/// Consecutive ranges of shards add up.
pub(crate) proof fn lemma_shards_successors_split<E: LayerEntry>(
    a: Seq<Vec<E>>,
    s: int,
    m: int,
    e: int,
    layout: EntryLayout,
    n: nat,
    top_row: bool,
    g: spec_fn(u128) -> nat,
)
    requires
        0 <= s <= m <= e <= a.len(),
    ensures
        shards_successors_sum(a.subrange(s, e), layout, n, top_row, g) == shards_successors_sum(
            a.subrange(s, m),
            layout,
            n,
            top_row,
            g,
        ) + shards_successors_sum(a.subrange(m, e), layout, n, top_row, g),
    decreases e - m,
{
    if e == m {
        assert(a.subrange(m, e).len() == 0);
    } else {
        lemma_shards_successors_split(a, s, m, e - 1, layout, n, top_row, g);
        lemma_shards_successors_step(a, s, e - 1, layout, n, top_row, g);
        lemma_shards_successors_step(a, m, e - 1, layout, n, top_row, g);
    }
}

/// Expanding one more parent term of a shard.
proof fn lemma_expand_term<E: LayerEntry>(
    a: Seq<Vec<E>>,
    start: int,
    s: int,
    e: int,
    layout: EntryLayout,
    n: nat,
    top_row: bool,
    g: spec_fn(u128) -> nat,
)
    requires
        0 <= start <= s < a.len(),
        0 <= e < a[s]@.len(),
    ensures
        shards_successors_sum(a.subrange(start, s), layout, n, top_row, g) + successors_sum(
            terms_of(a[s]@, layout).take(e + 1),
            n,
            top_row,
            g,
        ) == shards_successors_sum(a.subrange(start, s), layout, n, top_row, g) + successors_sum(
            terms_of(a[s]@, layout).take(e),
            n,
            top_row,
            g,
        ) + weighted_sum(term_successors(n, terms_of(a[s]@, layout)[e], top_row), g),
{
    lemma_successors_sum_take(terms_of(a[s]@, layout), e, n, top_row, g);
}

/// Expand every parent term of the source shards `start..end` into `output`:
/// each term's packed successors over its legal queen columns, with the orbit
/// weights of the first row when `top_row`. A coefficient that outgrows what
/// the entries can store is an error.
pub fn generate_range<E: LayerEntry>(
    n: usize,
    operator: &CompiledRowOperator,
    boundary: &Vec<Vec<E>>,
    start: usize,
    end: usize,
    top_row: bool,
    layout: EntryLayout,
    row: usize,
    output: &mut Vec<Vec<E>>,
    counters: &mut RowCounters,
    completed: &mut u128,
    max_coefficient: &mut u128,
) -> (generated: Result<(), String>)
    requires
        1 <= n <= 21,
        start <= end <= boundary@.len(),
        end - start <= 256,
        E::layout_ok(layout),
        E::supports_width(n as nat, layout),
        valid_shards(old(output)@.len()),
        top_row ==> only_initial(boundary@, layout, n as nat),
        old(counters).operator_candidates <= 0x1_0000_0000_0000_0000_0000_0000,
        old(counters).operator_matched <= 0x1_0000_0000_0000_0000_0000_0000,
        *old(completed) <= 0x1_0000_0000_0000_0000_0000_0000,
    ensures
        final(output)@.len() == old(output)@.len(),
        generated is Ok ==> forall|g: spec_fn(u128) -> nat|
            #[trigger] entries_sum(final(output)@, layout, g) == entries_sum(old(output)@, layout, g)
                + shards_successors_sum(boundary@.subrange(start as int, end as int), layout, n as nat, top_row, g),
        generated is Err ==> !shards_expand_within(
            boundary@.subrange(start as int, end as int),
            layout,
            n as nat,
            top_row,
            E::weight_limit(layout),
        ),
        E::weight_limit(layout) == u128::MAX ==> generated is Ok,
        generated is Ok ==> final(counters).operator_candidates <= old(counters).operator_candidates + (
        end - start) * 0x100_0000_0000_0000_0000,
        generated is Ok ==> final(counters).operator_matched <= old(counters).operator_matched + (end
            - start) * 0x100_0000_0000_0000_0000,
        generated is Ok ==> *final(completed) <= *old(completed) + (end - start) * 0x100_0000_0000_0000_0000,
        final(counters).tensor_examined == old(counters).tensor_examined,
        final(counters).tensor_matched == old(counters).tensor_matched,
        *final(max_coefficient) >= *old(max_coefficient),
{
    let ghost nn = n as nat;
    let ghost src = boundary@;
    let ghost base = output@;
    let ghost c0 = counters.operator_candidates;
    let ghost m0 = counters.operator_matched;
    let ghost d0 = *completed;
    let ghost mx0 = *max_coefficient;
    let ghost limit = E::weight_limit(layout);
    let mut s: usize = start;
    while s < end
        invariant
            1 <= n <= 21,
            nn == n,
            src == boundary@,
            start <= s <= end <= src.len(),
            end - start <= 256,
            E::layout_ok(layout),
            E::supports_width(nn, layout),
            limit == E::weight_limit(layout),
            output@.len() == base.len(),
            valid_shards(base.len()),
            top_row ==> only_initial(src, layout, nn),
            forall|g: spec_fn(u128) -> nat|
                #[trigger] entries_sum(output@, layout, g) == entries_sum(base, layout, g)
                    + shards_successors_sum(src.subrange(start as int, s as int), layout, nn, top_row, g),
            shards_expand_within(src.subrange(start as int, s as int), layout, nn, top_row, limit),
            c0 <= 0x1_0000_0000_0000_0000_0000_0000,
            m0 <= 0x1_0000_0000_0000_0000_0000_0000,
            d0 <= 0x1_0000_0000_0000_0000_0000_0000,
            counters.operator_candidates <= c0 + (s - start) * 0x100_0000_0000_0000_0000,
            counters.operator_matched <= m0 + (s - start) * 0x100_0000_0000_0000_0000,
            *completed <= d0 + (s - start) * 0x100_0000_0000_0000_0000,
            counters.tensor_examined == old(counters).tensor_examined,
            counters.tensor_matched == old(counters).tensor_matched,
            *max_coefficient >= mx0,
            mx0 == *old(max_coefficient),
            base == old(output)@,
            c0 == old(counters).operator_candidates,
            m0 == old(counters).operator_matched,
            d0 == *old(completed),
        decreases end - s,
    {
        let ghost shard = terms_of(src[s as int]@, layout);
        let len = boundary[s].len();
        let ghost c1 = counters.operator_candidates;
        let ghost m1 = counters.operator_matched;
        let ghost d1 = *completed;
        let mut e: usize = 0;
        while e < len
            invariant
                1 <= n <= 21,
                nn == n,
                src == boundary@,
                start <= s < end <= src.len(),
                end - start <= 256,
                E::layout_ok(layout),
                E::supports_width(nn, layout),
                limit == E::weight_limit(layout),
                shard == terms_of(src[s as int]@, layout),
                len == shard.len(),
                e <= len,
                output@.len() == base.len(),
                valid_shards(base.len()),
                top_row ==> only_initial(src, layout, nn),
                forall|g: spec_fn(u128) -> nat|
                    #[trigger] entries_sum(output@, layout, g) == entries_sum(base, layout, g)
                        + shards_successors_sum(src.subrange(start as int, s as int), layout, nn, top_row, g)
                        + successors_sum(shard.take(e as int), nn, top_row, g),
                shards_expand_within(src.subrange(start as int, s as int), layout, nn, top_row, limit),
                forall|i: int| 0 <= i < e ==> weights_within(
                    expansion(nn, unpack_spec((#[trigger] shard[i]).0.0, nn), shard[i].1, top_row),
                    limit,
                ),
                c1 <= c0 + (s - start) * 0x100_0000_0000_0000_0000,
                m1 <= m0 + (s - start) * 0x100_0000_0000_0000_0000,
                d1 <= d0 + (s - start) * 0x100_0000_0000_0000_0000,
                c0 <= 0x1_0000_0000_0000_0000_0000_0000,
                m0 <= 0x1_0000_0000_0000_0000_0000_0000,
                d0 <= 0x1_0000_0000_0000_0000_0000_0000,
                counters.operator_candidates <= c1 + e * 64,
                counters.operator_matched <= m1 + e * 64,
                *completed <= d1 + e * 64,
                counters.tensor_examined == old(counters).tensor_examined,
                counters.tensor_matched == old(counters).tensor_matched,
                *max_coefficient >= mx0,
                mx0 == *old(max_coefficient),
                base == old(output)@,
                c0 == old(counters).operator_candidates,
                m0 == old(counters).operator_matched,
                d0 == *old(completed),
            decreases len - e,
        {
            let entry = boundary[s][e];
            let key = entry.stored_key(layout);
            let weight = entry.stored_weight(layout);
            let parent = PackedBoundary(key as u128).unpack(n);
            proof {
                assert(shard[e as int] == entry.term(layout));
                if top_row {
                    assert(terms_of(src[s as int]@, layout)[e as int] == initial_term(nn));
                    crate::contract::lemma_empty_fits(nn);
                    crate::boundary::lemma_pack_round_trip(empty_state(), nn);
                }
                crate::transfer::lemma_successors_len(nn, parent, nn);
            }
            let ghost before = output@;
            let appended = match append_entries_sparse_sharded_d4(
                n,
                operator,
                parent,
                weight,
                top_row,
                layout,
                row,
                counters,
                output,
                max_coefficient,
            ) {
                Ok(k) => k,
                Err(error) => {
                    proof {
                        let sub = src.subrange(start as int, end as int);
                        let t = s - start;
                        assert(sub[t] == src[s as int]);
                        assert(terms_of(sub[t]@, layout)[e as int] == shard[e as int]);
                        if limit == u128::MAX {
                            let terms = expansion(nn, parent, weight, top_row);
                            assert forall|i: int| 0 <= i < terms.len() implies (#[trigger] terms[i]).1 <= limit by {
                            }
                        }
                    }
                    return Err(error);
                },
            };
            proof {
                crate::row::lemma_top_row_terms_len(nn, crate::transfer::weighted_successors(nn, parent, weight));
            }
            *completed = *completed + appended as u128;
            proof {
                assert(term_successors(nn, shard[e as int], top_row) == pack_terms(
                    expansion(nn, parent, weight, top_row),
                    nn,
                ));
                assert forall|g: spec_fn(u128) -> nat| #[trigger] entries_sum(output@, layout, g) == entries_sum(
                    base,
                    layout,
                    g,
                ) + shards_successors_sum(src.subrange(start as int, s as int), layout, nn, top_row, g)
                    + successors_sum(shard.take(e as int + 1), nn, top_row, g) by {
                    lemma_successors_sum_take(shard, e as int, nn, top_row, g);
                    assert(entries_sum(output@, layout, g) == entries_sum(before, layout, g) + weighted_sum(
                        pack_terms(expansion(nn, parent, weight, top_row), nn),
                        g,
                    ));
                }
            }
            e = e + 1;
        }
        proof {
            assert(shard.take(e as int) =~= shard);
            assert forall|g: spec_fn(u128) -> nat| #[trigger] entries_sum(output@, layout, g) == entries_sum(
                base,
                layout,
                g,
            ) + shards_successors_sum(src.subrange(start as int, s as int + 1), layout, nn, top_row, g) by {
                lemma_shards_successors_step(src, start as int, s as int, layout, nn, top_row, g);
            }
            let next = src.subrange(start as int, s as int + 1);
            assert forall|t: int, i: int| 0 <= t < next.len() && 0 <= i < next[t]@.len() implies weights_within(
                expansion(
                    nn,
                    unpack_spec((#[trigger] terms_of(next[t]@, layout)[i]).0.0, nn),
                    terms_of(next[t]@, layout)[i].1,
                    top_row,
                ),
                limit,
            ) by {
                if t < s - start {
                    assert(next[t] == src.subrange(start as int, s as int)[t]);
                } else {
                    assert(next[t] == src[s as int]);
                    assert(terms_of(next[t]@, layout)[i] == shard[i]);
                }
            }
            assert((s - start + 1) * 0x100_0000_0000_0000_0000 == (s - start) * 0x100_0000_0000_0000_0000
                + 0x100_0000_0000_0000_0000);
        }
        s = s + 1;
    }
    Ok(())
}

/// Below the first row, the successors of a layer sum to the layer summed one
/// row further.
pub proof fn lemma_successors_paths(
    terms: Seq<(PackedBoundary, u128)>,
    n: nat,
    j: nat,
    f: spec_fn(BoundaryState) -> nat,
)
    requires
        n <= 21,
    ensures
        successors_sum(terms, n, false, key_paths(n, j, f)) == weighted_sum(terms, key_paths(n, j + 1, f)),
    decreases terms.len(),
{
    if terms.len() > 0 {
        lemma_successors_paths(terms.drop_last(), n, j, f);
        let t = terms.last();
        let parent = unpack_spec(t.0.0, n);
        crate::boundary::lemma_unpack_fits(t.0.0, n);
        lemma_expand_parent(n, parent, t.1, j, f);
        assert(key_paths(n, j + 1, f)(t.0.0) == crate::transfer::paths(n, j + 1, parent, f));
    }
}

/// On the first row, where every term is the empty frontier's, the successors
/// sum to the number of terms times the orbit sum.
pub proof fn lemma_successors_orbit(
    terms: Seq<(PackedBoundary, u128)>,
    n: nat,
    j: nat,
    f: spec_fn(BoundaryState) -> nat,
)
    requires
        n <= 21,
        forall|i: int| 0 <= i < terms.len() ==> #[trigger] terms[i] == initial_term(n),
    ensures
        successors_sum(terms, n, true, key_paths(n, j, f)) == weighted_sum(terms, unit_key()) * orbit_sum(
            n,
            j,
            f,
            n,
        ),
    decreases terms.len(),
{
    if terms.len() > 0 {
        let a = terms.drop_last();
        assert forall|i: int| 0 <= i < a.len() implies #[trigger] a[i] == initial_term(n) by {
            assert(a[i] == terms[i]);
        }
        lemma_successors_orbit(a, n, j, f);
        let t = terms.last();
        assert(t == terms[terms.len() - 1]);
        crate::contract::lemma_empty_fits(n);
        crate::boundary::lemma_pack_round_trip(empty_state(), n);
        assert(unpack_spec(t.0.0, n) == empty_state());
        lemma_top_row_sum(n, j, f, n);
        assert(expansion(n, empty_state(), 1u128, true) == crate::row::top_row_terms(
            n,
            crate::transfer::with_weight(crate::transfer::row_successors_upto(n, empty_state(), n), 1),
        ));
        assert(term_successors(n, t, true) == pack_terms(expansion(n, empty_state(), 1u128, true), n));
        assert(unit_key()(t.0.0) == 1);
        let o = orbit_sum(n, j, f, n);
        let w = weighted_sum(a, unit_key());
        assert(weighted_sum(term_successors(n, t, true), key_paths(n, j, f)) == o);
        assert(successors_sum(terms, n, true, key_paths(n, j, f)) == successors_sum(a, n, true, key_paths(n, j, f)) + o);
        assert(weighted_sum(terms, unit_key()) == w + (t.1 as nat) * 1);
        assert(weighted_sum(terms, unit_key()) == w + 1);
        assert((w + 1) * o == w * o + o) by (nonlinear_arith);
        assert(successors_sum(terms, n, true, key_paths(n, j, f)) == (w + 1) * o);
    } else {
        assert(weighted_sum(terms, unit_key()) == 0);
        assert(0 * orbit_sum(n, j, f, n) == 0);
    }
}

/// The shard-level form of `lemma_successors_paths`.
pub proof fn lemma_shards_successors_paths<E: LayerEntry>(
    a: Seq<Vec<E>>,
    layout: EntryLayout,
    n: nat,
    j: nat,
    f: spec_fn(BoundaryState) -> nat,
)
    requires
        n <= 21,
    ensures
        shards_successors_sum(a, layout, n, false, key_paths(n, j, f)) == entries_sum(
            a,
            layout,
            key_paths(n, j + 1, f),
        ),
    decreases a.len(),
{
    if a.len() > 0 {
        lemma_shards_successors_paths(a.drop_last(), layout, n, j, f);
        lemma_successors_paths(terms_of(a.last()@, layout), n, j, f);
    }
}

/// The shard-level form of `lemma_successors_orbit`.
pub proof fn lemma_shards_successors_orbit<E: LayerEntry>(
    a: Seq<Vec<E>>,
    layout: EntryLayout,
    n: nat,
    j: nat,
    f: spec_fn(BoundaryState) -> nat,
)
    requires
        n <= 21,
        only_initial(a, layout, n),
    ensures
        shards_successors_sum(a, layout, n, true, key_paths(n, j, f)) == entries_sum(a, layout, unit_key())
            * orbit_sum(n, j, f, n),
    decreases a.len(),
{
    if a.len() > 0 {
        let b = a.drop_last();
        assert forall|t: int, i: int| 0 <= t < b.len() && 0 <= i < b[t]@.len() implies #[trigger] terms_of(
            b[t]@,
            layout,
        )[i] == initial_term(n) by {
            assert(b[t] == a[t]);
            assert(terms_of(a[t]@, layout)[i] == initial_term(n));
        }
        lemma_shards_successors_orbit(b, layout, n, j, f);
        let last = terms_of(a.last()@, layout);
        assert forall|i: int| 0 <= i < last.len() implies #[trigger] last[i] == initial_term(n) by {
            assert(terms_of(a[a.len() - 1]@, layout)[i] == initial_term(n));
        }
        lemma_successors_orbit(last, n, j, f);
        let o = orbit_sum(n, j, f, n);
        let x = entries_sum(b, layout, unit_key());
        let y = weighted_sum(last, unit_key());
        assert((x + y) * o == x * o + y * o) by (nonlinear_arith);
    } else {
        assert(0 * orbit_sum(n, j, f, n) == 0);
    }
}

/// The successors of a layer after `row` rows are the layer after `row + 1`
/// rows.
pub proof fn lemma_next_layer<E: LayerEntry>(boundary: Seq<Vec<E>>, layout: EntryLayout, n: nat, row: nat, top_row: bool)
    requires
        n <= 21,
        top_row == (row == 0),
        row == 0 ==> only_initial(boundary, layout, n) && entries_sum(boundary, layout, unit_key()) == 1,
        row > 0 ==> forall|j: nat, f: spec_fn(BoundaryState) -> nat|
            #[trigger] entries_sum(boundary, layout, key_paths(n, j, f)) == crate::transfer::rooted(
                n,
                row + j,
                true,
                f,
            ),
    ensures
        forall|j: nat, f: spec_fn(BoundaryState) -> nat|
            #[trigger] shards_successors_sum(boundary, layout, n, top_row, key_paths(n, j, f))
                == crate::transfer::rooted(n, row + 1 + j, true, f),
{
    assert forall|j: nat, f: spec_fn(BoundaryState) -> nat| #[trigger] shards_successors_sum(
        boundary,
        layout,
        n,
        top_row,
        key_paths(n, j, f),
    ) == crate::transfer::rooted(n, row + 1 + j, true, f) by {
        if row == 0 {
            lemma_shards_successors_orbit(boundary, layout, n, j, f);
            assert(crate::transfer::rooted(n, row + 1 + j, true, f) == orbit_sum(n, j, f, n));
        } else {
            lemma_shards_successors_paths(boundary, layout, n, j, f);
            assert(entries_sum(boundary, layout, key_paths(n, j + 1, f)) == crate::transfer::rooted(
                n,
                row + (j + 1),
                true,
                f,
            ));
        }
    }
}

/// What one worker produced from a range of source shards: its own buckets,
/// one per destination shard, and its counters.
pub struct LocalGeneration<E> {
    pub buckets: Vec<Vec<E>>,
    pub counters: RowCounters,
    pub completed_row_terms: u128,
    pub max_coefficient: u128,
}

/// `shards` empty shards of entries.
pub fn empty_entry_shards<E>(shards: usize) -> (v: Vec<Vec<E>>)
    ensures
        v@.len() == shards,
        forall|t: int| 0 <= t < shards ==> (#[trigger] v@[t])@.len() == 0,
{
    let mut v: Vec<Vec<E>> = Vec::new();
    let mut s: usize = 0;
    while s < shards
        invariant
            s <= shards,
            v@.len() == s,
            forall|t: int| 0 <= t < s ==> (#[trigger] v@[t])@.len() == 0,
        decreases shards - s,
    {
        v.push(Vec::new());
        s = s + 1;
    }
    v
}

/// What expanding the source shards `start..end` into fresh buckets gives.
pub open spec fn local_generated<E: LayerEntry>(
    boundary: Seq<Vec<E>>,
    start: int,
    end: int,
    shards: nat,
    n: nat,
    top_row: bool,
    layout: EntryLayout,
    result: Result<LocalGeneration<E>, String>,
) -> bool {
    &&& result matches Ok(local) ==> {
        &&& local.buckets@.len() == shards
        &&& forall|g: spec_fn(u128) -> nat|
            #[trigger] entries_sum(local.buckets@, layout, g) == shards_successors_sum(
                boundary.subrange(start, end),
                layout,
                n,
                top_row,
                g,
            )
        &&& local.counters.operator_candidates <= (end - start) * 0x100_0000_0000_0000_0000
        &&& local.counters.operator_matched <= (end - start) * 0x100_0000_0000_0000_0000
        &&& local.completed_row_terms <= (end - start) * 0x100_0000_0000_0000_0000
        &&& local.counters.tensor_examined == 0
        &&& local.counters.tensor_matched == 0
    }
    &&& result is Err ==> !shards_expand_within(
        boundary.subrange(start, end),
        layout,
        n,
        top_row,
        E::weight_limit(layout),
    )
    &&& E::weight_limit(layout) == u128::MAX ==> result is Ok
}

/// Expand the source shards `start..end` into fresh buckets.
pub fn generate_local<E: LayerEntry>(
    n: usize,
    operator: &CompiledRowOperator,
    boundary: &Vec<Vec<E>>,
    start: usize,
    end: usize,
    shards: usize,
    top_row: bool,
    layout: EntryLayout,
    row: usize,
) -> (result: Result<LocalGeneration<E>, String>)
    requires
        1 <= n <= 21,
        start <= end <= boundary@.len(),
        end - start <= 256,
        E::layout_ok(layout),
        E::supports_width(n as nat, layout),
        valid_shards(shards as nat),
        top_row ==> only_initial(boundary@, layout, n as nat),
    ensures
        local_generated(boundary@, start as int, end as int, shards as nat, n as nat, top_row, layout, result),
{
    let mut buckets: Vec<Vec<E>> = empty_entry_shards(shards);
    let ghost empty = buckets@;
    let mut counters = RowCounters::new();
    let mut completed: u128 = 0;
    let mut max_coefficient: u128 = 1;
    proof {
        assert forall|g: spec_fn(u128) -> nat| #[trigger] entries_sum(empty, layout, g) == 0 by {
            lemma_entries_sum_zero(empty, layout, g);
        }
    }
    match generate_range(
        n,
        operator,
        boundary,
        start,
        end,
        top_row,
        layout,
        row,
        &mut buckets,
        &mut counters,
        &mut completed,
        &mut max_coefficient,
    ) {
        Ok(()) => Ok(
            LocalGeneration { buckets, counters, completed_row_terms: completed, max_coefficient },
        ),
        Err(error) => Err(error),
    }
}

/// Expands each range of source shards with `generate_local`, the ranges in
/// parallel through rayon's `par_iter`, `map` and `collect`, which calls the
/// closure once on each range and returns the results in the order of the
/// ranges. Stated: one result per range, each what `generate_local` ensures
/// for that range.
#[verifier::external_body]
pub(crate) fn par_generate<E: LayerEntry + Send + Sync>(
    n: usize,
    operator: &CompiledRowOperator,
    boundary: &Vec<Vec<E>>,
    ranges: &Vec<(usize, usize)>,
    shards: usize,
    top_row: bool,
    layout: EntryLayout,
    row: usize,
) -> (partials: Vec<Result<LocalGeneration<E>, String>>)
    requires
        1 <= n <= 21,
        forall|i: int|
            0 <= i < ranges@.len() ==> (#[trigger] ranges@[i]).0 <= ranges@[i].1 <= boundary@.len()
                && ranges@[i].1 - ranges@[i].0 <= 256,
        E::layout_ok(layout),
        E::supports_width(n as nat, layout),
        valid_shards(shards as nat),
        top_row ==> only_initial(boundary@, layout, n as nat),
    ensures
        partials@.len() == ranges@.len(),
        forall|i: int|
            0 <= i < ranges@.len() ==> local_generated(
                boundary@,
                (#[trigger] ranges@[i]).0 as int,
                ranges@[i].1 as int,
                shards as nat,
                n as nat,
                top_row,
                layout,
                partials@[i],
            ),
{
    ranges.par_iter().map(
        |&(start, end)| generate_local(n, operator, boundary, start, end, shards, top_row, layout, row),
    ).collect()
}

/// Consecutive ranges `(start, end)` that cover `0..shards` in order.
pub open spec fn covers(ranges: Seq<(usize, usize)>, shards: nat) -> bool {
    &&& ranges.len() >= 1
    &&& ranges[0].0 == 0
    &&& ranges[ranges.len() - 1].1 == shards
    &&& forall|i: int| 0 <= i < ranges.len() ==> (#[trigger] ranges[i]).0 <= ranges[i].1
    &&& forall|i: int| 0 <= i < ranges.len() - 1 ==> (#[trigger] ranges[i]).1 == ranges[i + 1].0
}

/// Every range of a cover ends within it.
pub(crate) proof fn lemma_covers_bounds(ranges: Seq<(usize, usize)>, shards: nat, i: int)
    requires
        covers(ranges, shards),
        0 <= i <= ranges.len(),
    ensures
        forall|k: int| i <= k < ranges.len() ==> (#[trigger] ranges[k]).1 <= shards,
    decreases ranges.len() - i,
{
    if i < ranges.len() {
        lemma_covers_bounds(ranges, shards, i + 1);
        if i < ranges.len() - 1 {
            assert(ranges[i].1 == ranges[i + 1].0);
            assert(ranges[i + 1].0 <= ranges[i + 1].1);
        }
    }
}

/// Split the source shards into at most `workers` consecutive ranges of
/// roughly `input_states / workers` terms each.
pub fn source_ranges<E>(boundary: &Vec<Vec<E>>, input_states: usize, workers: usize) -> (ranges: Vec<
    (usize, usize),
>)
    requires
        boundary@.len() >= 1,
    ensures
        covers(ranges@, boundary@.len()),
{
    let shards = boundary.len();
    let worker_count = if workers == 0 {
        1
    } else {
        workers
    };
    let quotient = input_states / worker_count;
    let ceiling = if input_states % worker_count == 0 {
        quotient
    } else {
        proof {
            assert(worker_count >= 2) by (nonlinear_arith)
                requires
                    input_states % worker_count != 0,
                    worker_count >= 1,
            ;
            assert(quotient * 2 <= input_states) by (nonlinear_arith)
                requires
                    quotient == input_states / worker_count,
                    worker_count >= 2,
            ;
        }
        quotient + 1
    };
    let target_states = if ceiling == 0 {
        1
    } else {
        ceiling
    };
    let mut ranges: Vec<(usize, usize)> = Vec::new();
    let mut range_start: usize = 0;
    let mut range_states: usize = 0;
    let mut index: usize = 0;
    while index < shards
        invariant
            shards == boundary@.len(),
            shards >= 1,
            index <= shards,
            range_start <= index,
            range_start < shards,
            ranges@.len() <= index,
            ranges@.len() == 0 ==> range_start == 0,
            ranges@.len() > 0 ==> ranges@[0].0 == 0 && ranges@[ranges@.len() - 1].1 == range_start,
            forall|i: int| 0 <= i < ranges@.len() ==> (#[trigger] ranges@[i]).0 <= ranges@[i].1,
            forall|i: int| 0 <= i < ranges@.len() - 1 ==> (#[trigger] ranges@[i]).1 == ranges@[i + 1].0,
        decreases shards - index,
    {
        range_states = range_states.saturating_add(boundary[index].len());
        if range_states >= target_states && ranges.len() + 1 < worker_count && index + 1 < shards {
            ranges.push((range_start, index + 1));
            range_start = index + 1;
            range_states = 0;
        }
        index = index + 1;
    }
    ranges.push((range_start, shards));
    ranges
}

/// Moves every bucket of a worker into the destination shard of the same
/// index.
pub fn gather_buckets<E: LayerEntry>(destination: &mut Vec<Vec<E>>, buckets: Vec<Vec<E>>, layout: EntryLayout)
    requires
        old(destination)@.len() == buckets@.len(),
    ensures
        final(destination)@.len() == old(destination)@.len(),
        forall|g: spec_fn(u128) -> nat|
            #[trigger] entries_sum(final(destination)@, layout, g) == entries_sum(old(destination)@, layout, g)
                + entries_sum(buckets@, layout, g),
{
    let ghost orig = buckets@;
    let ghost base = destination@;
    let mut buckets = buckets;
    let mut t: usize = buckets.len();
    while t > 0
        invariant
            t <= orig.len(),
            orig.len() == base.len(),
            destination@.len() == base.len(),
            buckets@ == orig.take(t as int),
            forall|u: int| 0 <= u < t ==> #[trigger] destination@[u] == base[u],
            forall|u: int| t <= u < base.len() ==> #[trigger] destination@[u]@ == base[u]@ + orig[u]@,
        decreases t,
    {
        t = t - 1;
        let mut bucket = buckets.pop().unwrap();
        proof {
            assert(bucket == orig[t as int]);
            assert(buckets@ =~= orig.take(t as int));
        }
        destination[t].append(&mut bucket);
    }
    proof {
        assert forall|g: spec_fn(u128) -> nat| #[trigger] entries_sum(destination@, layout, g) == entries_sum(
            base,
            layout,
            g,
        ) + entries_sum(orig, layout, g) by {
            lemma_entries_sum_concat(base, orig, destination@, layout, g);
        }
    }
}

/// Shards that hold the concatenation of two layers' shards sum to the sum
/// of the two.
proof fn lemma_entries_sum_concat<E: LayerEntry>(
    a: Seq<Vec<E>>,
    b: Seq<Vec<E>>,
    c: Seq<Vec<E>>,
    layout: EntryLayout,
    g: spec_fn(u128) -> nat,
)
    requires
        a.len() == b.len(),
        c.len() == a.len(),
        forall|u: int| 0 <= u < a.len() ==> #[trigger] c[u]@ == a[u]@ + b[u]@,
    ensures
        entries_sum(c, layout, g) == entries_sum(a, layout, g) + entries_sum(b, layout, g),
    decreases a.len(),
{
    if a.len() > 0 {
        let k = a.len() - 1;
        assert forall|u: int| 0 <= u < k implies #[trigger] c.drop_last()[u]@ == a.drop_last()[u]@
            + b.drop_last()[u]@ by {
            assert(c[u]@ == a[u]@ + b[u]@);
        }
        lemma_entries_sum_concat(a.drop_last(), b.drop_last(), c.drop_last(), layout, g);
        assert(c[k]@ == a[k]@ + b[k]@);
        assert(terms_of(c[k]@, layout) =~= terms_of(a[k]@, layout) + terms_of(b[k]@, layout));
        crate::transfer::lemma_weighted_sum_concat(terms_of(a[k]@, layout), terms_of(b[k]@, layout), g);
    }
}

} // verus!
