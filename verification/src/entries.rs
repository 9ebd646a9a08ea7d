//! Frontier layers held as shards of compact packed entries. An entry kind
//! stores a packed frontier key and a coefficient in a fixed-width word; the
//! layout (for kinds that share one word between the two) says how. The
//! reduction and generation steps here are shared by every entry kind.
use vstd::prelude::*;

use crate::batched::{expansion, expansion_upto, weights_within};
use crate::boundary::{
    BoundaryState, PackedBoundary, board_mask, board_mask_spec, empty_state, pack_spec, replace_bit,
    state_fits,
};
use crate::contract::{keys_sorted, keys_strictly_sorted, lemma_weighted_sum_prefix_le, lemma_weighted_sum_take_step};
use crate::row::{
    CompiledRowOperator, RowCounters, counter_room, lemma_place_bits, matching_bits, occupied_entry,
    top_row_vertical_orbit_weight,
};
use crate::sharded::{ShardMode, shard_index, valid_shards};
use crate::transfer::{
    available_spec, cell_free, indicator, lemma_available_bit, lemma_indicator_absent, lemma_lowest_bit,
    lemma_scan_bounds, lemma_scan_step, lemma_successors_len, lemma_successors_skip,
    lemma_trailing_zeros_of_bit, low_mask, pack_terms, place, row_successors, row_successors_upto,
    weighted_sum,
};
use crate::util::message;
use vstd::std_specs::bits::u64_trailing_zeros;

verus! {

/// How a packed word is split between key and coefficient: the number of
/// coefficient bits and their mask. Kinds with separate fields ignore it.
#[derive(Clone, Copy, Debug, PartialEq, Eq, Structural)]
pub struct EntryLayout {
    pub bits: u32,
    pub mask: u64,
}

/// A packed frontier term: a `u64` key and a bounded coefficient.
pub trait LayerEntry: Copy + Sized {
    /// Whether entries of this kind can be stored under `layout`.
    spec fn layout_ok(layout: EntryLayout) -> bool;

    /// Whether `key` can be stored under `layout`.
    spec fn key_ok(key: u64, layout: EntryLayout) -> bool;

    /// Whether every key of a board of width `n` can be stored under `layout`.
    spec fn supports_width(n: nat, layout: EntryLayout) -> bool;

    /// The largest coefficient that can be stored under `layout`.
    spec fn weight_limit(layout: EntryLayout) -> nat;

    /// The frontier term the entry stands for under `layout`.
    spec fn term(self, layout: EntryLayout) -> (PackedBoundary, u128);

    /// Keys of `3 n` bits can be stored when the layout supports width `n`.
    proof fn lemma_key_ok(key: u64, n: nat, layout: EntryLayout)
        requires
            Self::layout_ok(layout),
            Self::supports_width(n, layout),
            n <= 21,
            key >> ((3 * n) as u64) == 0,
        ensures
            Self::key_ok(key, layout),
    ;

    /// A stored coefficient is within the limit.
    proof fn lemma_weight_bound(self, layout: EntryLayout)
        requires
            Self::layout_ok(layout),
        ensures
            self.term(layout).1 <= Self::weight_limit(layout),
    ;

    /// Store `key` with `weight`.
    fn store(key: u64, weight: u128, layout: EntryLayout) -> (entry: Self)
        requires
            Self::layout_ok(layout),
            Self::key_ok(key, layout),
            weight <= Self::weight_limit(layout),
        ensures
            entry.term(layout) == (PackedBoundary(key as u128), weight),
    ;

    /// The stored key.
    fn stored_key(&self, layout: EntryLayout) -> (key: u64)
        requires
            Self::layout_ok(layout),
        ensures
            key as u128 == self.term(layout).0.0,
            Self::key_ok(key, layout),
    ;

    /// The stored coefficient.
    fn stored_weight(&self, layout: EntryLayout) -> (weight: u128)
        requires
            Self::layout_ok(layout),
        ensures
            weight == self.term(layout).1,
            weight <= Self::weight_limit(layout),
    ;

    /// The largest coefficient that can be stored under `layout`.
    fn limit(layout: EntryLayout) -> (limit: u128)
        requires
            Self::layout_ok(layout),
        ensures
            limit == Self::weight_limit(layout),
    ;

    /// The text of the error for a coefficient outgrowing what can be
    /// stored, after `row` during `operation`.
    spec fn overflow_text(row: nat, operation: Seq<char>) -> Seq<char>;

    /// The error reported when a coefficient outgrows what can be stored,
    /// after `row` during `operation`.
    fn overflow_error(row: usize, operation: &str) -> (text: String)
        ensures
            text@ == Self::overflow_text(row as nat, operation@),
    ;
}

/// The frontier terms a list of entries stands for.
pub open spec fn terms_of<E: LayerEntry>(s: Seq<E>, layout: EntryLayout) -> Seq<(PackedBoundary, u128)> {
    s.map_values(|e: E| e.term(layout))
}

/// The weights stored under every key of `terms` stay within `limit`.
pub open spec fn groups_within(terms: Seq<(PackedBoundary, u128)>, limit: nat) -> bool {
    forall|key: u128| #[trigger] weighted_sum(terms, indicator(key)) <= limit
}

proof fn lemma_indicator_present_terms(terms: Seq<(PackedBoundary, u128)>, key: u128)
    requires
        weighted_sum(terms, indicator(key)) > 0,
    ensures
        exists|i: int| 0 <= i < terms.len() && (#[trigger] terms[i]).0.0 == key,
{
    if forall|i: int| 0 <= i < terms.len() ==> (#[trigger] terms[i]).0.0 != key {
        lemma_indicator_absent(terms, key);
    }
}

/// The weighted sum over all shards of a layer of entries.
pub open spec fn entries_sum<E: LayerEntry>(shards: Seq<Vec<E>>, layout: EntryLayout, g: spec_fn(u128) -> nat) -> nat
    decreases shards.len(),
{
    if shards.len() == 0 {
        0
    } else {
        entries_sum(shards.drop_last(), layout, g) + weighted_sum(terms_of(shards.last()@, layout), g)
    }
}

/// Layers whose shards hold terms of equal weighted sums have equal sums.
pub proof fn lemma_entries_sum_agree<E: LayerEntry>(
    a: Seq<Vec<E>>,
    b: Seq<Vec<E>>,
    layout: EntryLayout,
    g: spec_fn(u128) -> nat,
)
    requires
        b.len() == a.len(),
        forall|t: int|
            0 <= t < a.len() ==> weighted_sum(terms_of((#[trigger] b[t])@, layout), g) == weighted_sum(
                terms_of(a[t]@, layout),
                g,
            ),
    ensures
        entries_sum(b, layout, g) == entries_sum(a, layout, g),
    decreases a.len(),
{
    if a.len() > 0 {
        assert forall|t: int| 0 <= t < a.len() - 1 implies weighted_sum(
            terms_of((#[trigger] b.drop_last()[t])@, layout),
            g,
        ) == weighted_sum(terms_of(a.drop_last()[t]@, layout), g) by {
            assert(weighted_sum(terms_of(b[t]@, layout), g) == weighted_sum(terms_of(a[t]@, layout), g));
        }
        lemma_entries_sum_agree(a.drop_last(), b.drop_last(), layout, g);
        assert(weighted_sum(terms_of(b[a.len() - 1]@, layout), g) == weighted_sum(
            terms_of(a[a.len() - 1]@, layout),
            g,
        ));
    }
}

/// Pushing an entry into one shard adds its term's weighted value.
pub proof fn lemma_entries_sum_push<E: LayerEntry>(
    a: Seq<Vec<E>>,
    b: Seq<Vec<E>>,
    s: int,
    x: E,
    layout: EntryLayout,
    g: spec_fn(u128) -> nat,
)
    requires
        0 <= s < a.len(),
        b.len() == a.len(),
        b[s]@ == a[s]@.push(x),
        forall|t: int| 0 <= t < a.len() && t != s ==> #[trigger] b[t]@ == a[t]@,
    ensures
        entries_sum(b, layout, g) == entries_sum(a, layout, g) + (x.term(layout).1 as nat) * g(
            x.term(layout).0.0,
        ),
    decreases a.len(),
{
    assert(terms_of(b[s]@, layout).drop_last() =~= terms_of(a[s]@, layout));
    assert(terms_of(b[s]@, layout).last() == x.term(layout));
    if s == a.len() - 1 {
        assert forall|t: int| 0 <= t < a.len() - 1 implies weighted_sum(
            terms_of((#[trigger] b.drop_last()[t])@, layout),
            g,
        ) == weighted_sum(terms_of(a.drop_last()[t]@, layout), g) by {
            assert(b[t]@ == a[t]@);
        }
        lemma_entries_sum_agree(a.drop_last(), b.drop_last(), layout, g);
    } else {
        assert forall|t: int| 0 <= t < a.len() - 1 && t != s implies #[trigger] b.drop_last()[t]@
            == a.drop_last()[t]@ by {
            assert(b[t]@ == a[t]@);
        }
        lemma_entries_sum_push(a.drop_last(), b.drop_last(), s, x, layout, g);
        assert(b.last()@ == a.last()@);
    }
}

/// Empty shards sum to zero.
pub proof fn lemma_entries_sum_zero<E: LayerEntry>(a: Seq<Vec<E>>, layout: EntryLayout, g: spec_fn(u128) -> nat)
    requires
        forall|t: int| 0 <= t < a.len() ==> (#[trigger] a[t])@.len() == 0,
    ensures
        entries_sum(a, layout, g) == 0,
    decreases a.len(),
{
    if a.len() > 0 {
        assert forall|t: int| 0 <= t < a.len() - 1 implies (#[trigger] a.drop_last()[t])@.len() == 0 by {
            assert(a[t]@.len() == 0);
        }
        lemma_entries_sum_zero(a.drop_last(), layout, g);
        assert(a.last()@.len() == 0);
        assert(terms_of(a.last()@, layout).len() == 0);
    }
}

/// The sum over the first `s + 1` shards adds shard `s` to the first `s`.
pub proof fn lemma_entries_sum_take<E: LayerEntry>(a: Seq<Vec<E>>, s: int, layout: EntryLayout, g: spec_fn(u128) -> nat)
    requires
        0 <= s < a.len(),
    ensures
        entries_sum(a.take(s + 1), layout, g) == entries_sum(a.take(s), layout, g) + weighted_sum(
            terms_of(a[s]@, layout),
            g,
        ),
{
    assert(a.take(s + 1).drop_last() =~= a.take(s));
}

/// A prefix of the shards sums to at most the whole.
pub proof fn lemma_entries_sum_prefix_le<E: LayerEntry>(a: Seq<Vec<E>>, s: int, layout: EntryLayout, g: spec_fn(u128) -> nat)
    requires
        0 <= s <= a.len(),
    ensures
        entries_sum(a.take(s), layout, g) <= entries_sum(a, layout, g),
    decreases a.len() - s,
{
    if s < a.len() {
        lemma_entries_sum_take(a, s, layout, g);
        lemma_entries_sum_prefix_le(a, s + 1, layout, g);
    } else {
        assert(a.take(s) =~= a);
    }
}

/// One shard sums to at most the whole.
pub proof fn lemma_entries_shard_le_sum<E: LayerEntry>(a: Seq<Vec<E>>, s: int, layout: EntryLayout, g: spec_fn(u128) -> nat)
    requires
        0 <= s < a.len(),
    ensures
        weighted_sum(terms_of(a[s]@, layout), g) <= entries_sum(a, layout, g),
{
    lemma_entries_sum_take(a, s, layout, g);
    lemma_entries_sum_prefix_le(a, s + 1, layout, g);
}

/// The sums are monotone in the key function.
pub proof fn lemma_entries_sum_mono<E: LayerEntry>(
    a: Seq<Vec<E>>,
    layout: EntryLayout,
    g1: spec_fn(u128) -> nat,
    g2: spec_fn(u128) -> nat,
)
    requires
        forall|k: u128| #[trigger] g1(k) <= g2(k),
    ensures
        entries_sum(a, layout, g1) <= entries_sum(a, layout, g2),
    decreases a.len(),
{
    if a.len() > 0 {
        lemma_entries_sum_mono(a.drop_last(), layout, g1, g2);
        crate::transfer::lemma_weighted_sum_mono(terms_of(a.last()@, layout), g1, g2);
    }
}

/// Pointwise equal key functions give equal sums.
pub proof fn lemma_entries_sum_ext<E: LayerEntry>(
    a: Seq<Vec<E>>,
    layout: EntryLayout,
    g1: spec_fn(u128) -> nat,
    g2: spec_fn(u128) -> nat,
)
    requires
        forall|k: u128| #[trigger] g1(k) == g2(k),
    ensures
        entries_sum(a, layout, g1) == entries_sum(a, layout, g2),
{
    lemma_entries_sum_mono(a, layout, g1, g2);
    lemma_entries_sum_mono(a, layout, g2, g1);
}

/// Merge adjacent entries with equal keys of a key-sorted shard; a merged
/// coefficient that outgrows what the entries can store is an error.
pub fn reduce_sorted_entries<E: LayerEntry>(
    entries: &mut Vec<E>,
    layout: EntryLayout,
    row: usize,
    max_coefficient: &mut u128,
) -> (reduced: Result<(), String>)
    requires
        E::layout_ok(layout),
        keys_sorted(terms_of(old(entries)@, layout)),
    ensures
        reduced is Ok <==> groups_within(terms_of(old(entries)@, layout), E::weight_limit(layout)),
        reduced is Ok ==> keys_strictly_sorted(terms_of(final(entries)@, layout)),
        reduced is Ok ==> forall|g: spec_fn(u128) -> nat|
            #[trigger] weighted_sum(terms_of(final(entries)@, layout), g)
                == weighted_sum(terms_of(old(entries)@, layout), g),
        *final(max_coefficient) >= *old(max_coefficient),
{
    let ghost orig = terms_of(entries@, layout);
    let limit = E::limit(layout);
    let len = entries.len();
    let mut write: usize = 0;
    let mut read: usize = 0;
    while read < len
        invariant
            E::layout_ok(layout),
            limit == E::weight_limit(layout),
            orig == terms_of(old(entries)@, layout),
            len == orig.len(),
            entries@.len() == orig.len(),
            write <= read <= orig.len(),
            keys_sorted(orig),
            forall|i: int| read <= i < orig.len() ==> #[trigger] entries@[i] == old(entries)@[i],
            keys_strictly_sorted(terms_of(entries@, layout).take(write as int)),
            write > 0 ==> read > 0 && terms_of(entries@, layout)[write - 1].0 == orig[read - 1].0,
            write == 0 ==> read == 0,
            forall|w: int|
                0 <= w < write ==> (#[trigger] terms_of(entries@, layout)[w]).1 == weighted_sum(
                    orig.take(read as int),
                    indicator(terms_of(entries@, layout)[w].0.0),
                ),
            forall|i: int|
                0 <= i < read ==> exists|w: int|
                    0 <= w < write && (#[trigger] terms_of(entries@, layout)[w]).0 == (#[trigger] orig[i]).0,
            forall|g: spec_fn(u128) -> nat|
                #[trigger] weighted_sum(terms_of(entries@, layout).take(write as int), g) == weighted_sum(
                    orig.take(read as int),
                    g,
                ),
            *max_coefficient >= *old(max_coefficient),
        decreases orig.len() - read,
    {
        let selected = entries[read];
        let selected_key = selected.stored_key(layout);
        let selected_weight = selected.stored_weight(layout);
        let ghost before = entries@;
        let ghost tb = terms_of(before, layout);
        let ghost state = orig[read as int].0;
        let ghost weight = orig[read as int].1;
        proof {
            assert(before[read as int] == old(entries)@[read as int]);
            assert(orig[read as int] == selected.term(layout));
            assert(state == PackedBoundary(selected_key as u128));
            assert(weight == selected_weight as u128);
            assert forall|key: u128| #[trigger] weighted_sum(orig.take(read as int + 1), indicator(key))
                == weighted_sum(orig.take(read as int), indicator(key)) + (weight as nat) * indicator(
                key,
            )(state.0) by {
                lemma_weighted_sum_take_step(orig, read as int, indicator(key));
            }
        }
        let previous_key = if write > 0 {
            entries[write - 1].stored_key(layout)
        } else {
            0
        };
        if write > 0 && previous_key == selected_key {
            let previous = entries[write - 1];
            let previous_weight = previous.stored_weight(layout);
            proof {
                assert(tb[write - 1] == previous.term(layout));
                assert(tb[write - 1].0 == state);
            }
            let combined = match previous_weight.checked_add(selected_weight) {
                Some(sum) => {
                    if sum <= limit {
                        sum
                    } else {
                        proof {
                            let key = state.0;
                            assert(tb[write - 1].1 == weighted_sum(orig.take(read as int), indicator(key)));
                            lemma_weighted_sum_prefix_le(orig, read as int + 1, indicator(key));
                        }
                        return Err(E::overflow_error(row, "sorted reduction"));
                    }
                },
                None => {
                    proof {
                        let key = state.0;
                        assert(tb[write - 1].1 == weighted_sum(orig.take(read as int), indicator(key)));
                        lemma_weighted_sum_prefix_le(orig, read as int + 1, indicator(key));
                    }
                    return Err(E::overflow_error(row, "sorted reduction"));
                },
            };
            let merged = E::store(selected_key, combined, layout);
            entries.set(write - 1, merged);
            if combined > *max_coefficient {
                *max_coefficient = combined;
            }
            proof {
                let sum = combined as u128;
                let ta = terms_of(entries@, layout);
                assert(ta =~= tb.update(write - 1, (state, sum)));
                assert forall|w: int| 0 <= w < write implies (#[trigger] ta[w]).1 == weighted_sum(
                    orig.take(read as int + 1),
                    indicator(ta[w].0.0),
                ) by {
                    if w < write - 1 {
                        assert(tb.take(write as int)[w].0.0 < tb.take(write as int)[write - 1].0.0);
                        assert(ta[w] == tb[w]);
                        let kw = tb[w].0.0;
                        assert(kw != state.0);
                        assert(indicator(kw)(state.0) == 0);
                        assert(tb[w].1 == weighted_sum(orig.take(read as int), indicator(kw)));
                        assert(weighted_sum(orig.take(read as int + 1), indicator(kw)) == weighted_sum(
                            orig.take(read as int),
                            indicator(kw),
                        ) + (weight as nat) * indicator(kw)(state.0));
                    } else {
                        assert(indicator(state.0)(state.0) == 1);
                        assert(tb[write - 1].1 == weighted_sum(orig.take(read as int), indicator(tb[write - 1].0.0)));
                        assert(ta[w] == (state, sum));
                        assert(weighted_sum(orig.take(read as int + 1), indicator(state.0)) == weighted_sum(
                            orig.take(read as int),
                            indicator(state.0),
                        ) + (weight as nat) * indicator(state.0)(state.0));
                    }
                }
                assert forall|i: int| 0 <= i < read + 1 implies exists|w: int|
                    0 <= w < write && (#[trigger] ta[w]).0 == (#[trigger] orig[i]).0 by {
                    if i < read {
                        let w = choose|w: int| 0 <= w < write && (#[trigger] tb[w]).0 == orig[i].0;
                        assert(ta[w].0 == tb[w].0);
                    } else {
                        assert(ta[write - 1].0 == orig[i].0);
                    }
                }
                let prefix = tb.take(write as int);
                let updated = ta.take(write as int);
                assert(updated =~= prefix.update(write - 1, (state, sum)));
                assert(updated.drop_last() =~= prefix.drop_last());
                assert(prefix.last() == tb[write - 1]);
                assert(updated.last() == (state, sum));
                assert forall|g: spec_fn(u128) -> nat| #[trigger] weighted_sum(ta.take(write as int), g)
                    == weighted_sum(orig.take(read as int + 1), g) by {
                    lemma_weighted_sum_take_step(orig, read as int, g);
                    assert(weighted_sum(prefix, g) == weighted_sum(orig.take(read as int), g));
                    let old_weight = tb[write - 1].1 as nat;
                    assert(weighted_sum(prefix, g) == weighted_sum(prefix.drop_last(), g) + old_weight * g(
                        state.0,
                    ));
                    assert(weighted_sum(updated, g) == weighted_sum(updated.drop_last(), g) + (sum as nat)
                        * g(state.0));
                    assert((sum as nat) * g(state.0) == old_weight * g(state.0) + (weight as nat) * g(
                        state.0,
                    )) by (nonlinear_arith)
                        requires
                            sum == old_weight + weight,
                    ;
                }
                assert forall|i: int, j: int| 0 <= i < j < write implies #[trigger] ta.take(write as int)[i].0.0
                    < #[trigger] ta.take(write as int)[j].0.0 by {
                    assert(tb.take(write as int)[i].0.0 < tb.take(write as int)[j].0.0);
                }
                assert forall|i: int| read + 1 <= i < orig.len() implies #[trigger] entries@[i] == old(entries)@[i] by {
                    assert(entries@[i] == before[i]);
                }
            }
        } else {
            proof {
                if write > 0 {
                    assert(orig[read - 1].0.0 <= orig[read as int].0.0);
                    assert(tb[write - 1].0.0 != state.0);
                    assert(tb[write - 1].0.0 < state.0);
                }
                assert forall|i: int| 0 <= i < read implies (#[trigger] orig.take(read as int)[i]).0.0 != state.0 by {
                    assert(orig[i].0.0 <= orig[read - 1].0.0);
                }
                lemma_indicator_absent(orig.take(read as int), state.0);
            }
            entries.set(write, selected);
            if selected_weight > *max_coefficient {
                *max_coefficient = selected_weight;
            }
            proof {
                let ta = terms_of(entries@, layout);
                assert(ta =~= tb.update(write as int, (state, weight)));
                assert forall|w: int| 0 <= w < write + 1 implies (#[trigger] ta[w]).1 == weighted_sum(
                    orig.take(read as int + 1),
                    indicator(ta[w].0.0),
                ) by {
                    if w < write {
                        if w < write - 1 {
                            assert(tb.take(write as int)[w].0.0 < tb.take(write as int)[write - 1].0.0);
                        }
                        assert(ta[w] == tb[w]);
                        assert(indicator(ta[w].0.0)(state.0) == 0);
                    } else {
                        assert(ta[w] == (state, weight));
                        assert(indicator(state.0)(state.0) == 1);
                        assert(weighted_sum(orig.take(read as int), indicator(state.0)) == 0);
                    }
                }
                assert forall|i: int| 0 <= i < read + 1 implies exists|w: int|
                    0 <= w < write + 1 && (#[trigger] ta[w]).0 == (#[trigger] orig[i]).0 by {
                    if i < read {
                        let w = choose|w: int| 0 <= w < write && (#[trigger] tb[w]).0 == orig[i].0;
                        assert(ta[w].0 == tb[w].0);
                    } else {
                        assert(ta[write as int].0 == orig[i].0);
                    }
                }
                assert(ta.take(write as int + 1) =~= tb.take(write as int).push((state, weight)));
                assert forall|g: spec_fn(u128) -> nat| #[trigger] weighted_sum(ta.take(write as int + 1), g)
                    == weighted_sum(orig.take(read as int + 1), g) by {
                    lemma_weighted_sum_take_step(orig, read as int, g);
                    assert(ta.take(write as int + 1).drop_last() =~= tb.take(write as int));
                    assert(weighted_sum(tb.take(write as int), g) == weighted_sum(orig.take(read as int), g));
                    assert(ta.take(write as int + 1).last() == (state, weight));
                }
                assert forall|i: int, j: int| 0 <= i < j < write + 1 implies #[trigger] ta.take(
                    write as int + 1,
                )[i].0.0 < #[trigger] ta.take(write as int + 1)[j].0.0 by {
                    if j < write {
                        assert(tb.take(write as int)[i].0.0 < tb.take(write as int)[j].0.0);
                    } else if i < write - 1 {
                        assert(tb.take(write as int)[i].0.0 < tb.take(write as int)[write - 1].0.0);
                    }
                }
                assert forall|i: int| read + 1 <= i < orig.len() implies #[trigger] entries@[i] == old(entries)@[i] by {
                    assert(entries@[i] == before[i]);
                }
            }
            write = write + 1;
        }
        read = read + 1;
    }
    let ghost full = entries@;
    entries.truncate(write);
    proof {
        let tf = terms_of(full, layout);
        assert(terms_of(entries@, layout) =~= tf.take(write as int));
        assert(orig.take(read as int) =~= orig);
        assert forall|key: u128| #[trigger] weighted_sum(orig, indicator(key)) <= E::weight_limit(layout) by {
            if weighted_sum(orig, indicator(key)) > 0 {
                lemma_indicator_present_terms(orig, key);
                let i = choose|i: int| 0 <= i < orig.len() && (#[trigger] orig[i]).0.0 == key;
                assert(exists|w: int| 0 <= w < write && (#[trigger] tf[w]).0 == (#[trigger] orig[i]).0);
                let w = choose|w: int| 0 <= w < write && (#[trigger] tf[w]).0 == (#[trigger] orig[i]).0;
                assert(tf[w].1 == weighted_sum(orig, indicator(key)));
                full[w].lemma_weight_bound(layout);
            }
        }
    }
    Ok(())
}


/// Append the packed successors of `parent` over its legal queen columns,
/// each packed with its coefficient into the shard that its key selects, with
/// the orbit weights of the first row when `top_row`. A coefficient that
/// outgrows what the entries can store is an error.
pub fn append_entries_sparse_sharded_d4<E: LayerEntry>(
    n: usize,
    operator: &CompiledRowOperator,
    parent: BoundaryState,
    parent_weight: u128,
    top_row: bool,
    layout: EntryLayout,
    row: usize,
    counters: &mut RowCounters,
    output: &mut Vec<Vec<E>>,
    max_coefficient: &mut u128,
) -> (appended: Result<usize, String>)
    requires
        1 <= n <= 21,
        E::layout_ok(layout),
        E::supports_width(n as nat, layout),
        state_fits(parent, n as nat),
        parent_weight <= E::weight_limit(layout),
        valid_shards(old(output)@.len()),
        counter_room(old(counters).operator_candidates, n as int),
        counter_room(old(counters).operator_matched, n as int),
        top_row ==> parent == empty_state() && parent_weight == 1,
    ensures
        appended is Ok <==> weights_within(expansion(n as nat, parent, parent_weight, top_row), E::weight_limit(layout)),
        appended matches Ok(k) ==> k == expansion(n as nat, parent, parent_weight, top_row).len(),
        final(output)@.len() == old(output)@.len(),
        appended is Ok ==> forall|g: spec_fn(u128) -> nat|
            #[trigger] entries_sum(final(output)@, layout, g) == entries_sum(old(output)@, layout, g) + weighted_sum(
                pack_terms(expansion(n as nat, parent, parent_weight, top_row), n as nat),
                g,
            ),
        *final(max_coefficient) >= *old(max_coefficient),
        appended is Ok ==> final(counters).operator_candidates == old(counters).operator_candidates + row_successors(
            n as nat,
            parent,
        ).len(),
        appended is Ok ==> final(counters).operator_matched == old(counters).operator_matched + row_successors(
            n as nat,
            parent,
        ).len(),
        final(counters).tensor_examined == old(counters).tensor_examined,
        final(counters).tensor_matched == old(counters).tensor_matched,
{
    let occupied = operator.occupied();
    let legs = occupied.legs;
    if legs.row_in != 0 {
        return Err(
            message("compact sparse iterator requires occupied row_in to match the left v0 boundary"),
        );
    }
    let limit = E::limit(layout);
    let board = board_mask(n);
    let column_bits = matching_bits(parent.columns, legs.column_in, board)?;
    let dr_bits = matching_bits(parent.diag_dr, legs.diag_dr_in, board)?;
    let dl_bits = matching_bits(parent.diag_dl, legs.diag_dl_in, board)?;
    let mut positions = column_bits & dr_bits & dl_bits;
    let ghost nn = n as nat;
    let ghost avail = available_spec(nn, parent);
    assert(positions == avail);
    proof {
        crate::sitewise::lemma_no_low_bits(avail);
    }
    let base_weight = match parent_weight.checked_mul(occupied.value) {
        Some(w) => {
            if w <= limit {
                w
            } else {
                return Err(E::overflow_error(row, "local C-entry multiplication"));
            }
        },
        None => {
            return Err(E::overflow_error(row, "local C-entry multiplication"));
        },
    };
    let ghost w128 = parent_weight;
    let shards = output.len();
    let mut appended: usize = 0;
    let ghost mut k: nat = 0;
    while positions != 0
        invariant
            nn == n,
            k <= n,
            base_weight == parent_weight,
            occupied == occupied_entry(),
            legs == occupied.legs,
            board == board_mask_spec(nn),
            top_row ==> parent == empty_state() && parent_weight == 1,
            positions == avail & !low_mask(k),
            avail == available_spec(nn, parent),
            shards == output@.len(),
            shards == old(output)@.len(),
            valid_shards(shards as nat),
            1 <= n <= 21,
            E::layout_ok(layout),
            E::supports_width(nn, layout),
            limit == E::weight_limit(layout),
            w128 == parent_weight,
            parent_weight <= limit,
            state_fits(parent, nn),
            appended == crate::batched::expansion_upto(nn, parent, w128, top_row, k).len(),
            weights_within(crate::batched::expansion_upto(nn, parent, w128, top_row, k), E::weight_limit(layout)),
            forall|g: spec_fn(u128) -> nat|
                #[trigger] entries_sum(output@, layout, g) == entries_sum(old(output)@, layout, g) + weighted_sum(
                    pack_terms(crate::batched::expansion_upto(nn, parent, w128, top_row, k), nn),
                    g,
                ),
            *max_coefficient >= *old(max_coefficient),
            counters.operator_candidates == old(counters).operator_candidates + row_successors_upto(
                nn,
                parent,
                k,
            ).len(),
            counters.operator_matched == old(counters).operator_matched + row_successors_upto(
                nn,
                parent,
                k,
            ).len(),
            counters.tensor_examined == old(counters).tensor_examined,
            counters.tensor_matched == old(counters).tensor_matched,
            counter_room(old(counters).operator_candidates, n as int),
            counter_room(old(counters).operator_matched, n as int),
        decreases positions,
    {
        let negated = 0u64.wrapping_sub(positions);
        let selected = positions & negated;
        proof {
            lemma_lowest_bit(positions, negated);
            lemma_trailing_zeros_of_bit(u64_trailing_zeros(positions) as u64);
            lemma_scan_bounds(avail, positions, k);
        }
        let column = selected.trailing_zeros() as usize;
        let ghost t = column as nat;
        proof {
            assert(t == u64_trailing_zeros(positions));
            assert(k <= t);
            lemma_scan_step(avail, positions, k, t);
            lemma_available_bit(nn, parent, t);
            assert forall|c: nat| k <= c < t implies !#[trigger] cell_free(parent, c) by {
                lemma_available_bit(nn, parent, c);
            }
            lemma_successors_skip(nn, parent, k, t);
            lemma_successors_len(nn, parent, t);
            crate::batched::lemma_expansion_len(nn, parent, w128, top_row, t);
            assert(t < n && cell_free(parent, t));
            assert(crate::batched::expansion_upto(nn, parent, w128, top_row, t)
                == crate::batched::expansion_upto(nn, parent, w128, top_row, k));
        }
        positions = positions & (positions - 1);
        counters.operator_candidates = counters.operator_candidates + 1;
        counters.operator_matched = counters.operator_matched + 1;
        let successor = BoundaryState {
            columns: replace_bit(parent.columns, column, legs.column_out),
            diag_dr: (replace_bit(parent.diag_dr, column, legs.diag_dr_out) << 1u64) & board,
            diag_dl: replace_bit(parent.diag_dl, column, legs.diag_dl_out) >> 1u64,
        };
        proof {
            lemma_place_bits(nn, parent, t);
            assert(successor == place(nn, parent, t));
            assert(row_successors_upto(nn, parent, t + 1) =~= row_successors_upto(nn, parent, t).push(
                successor,
            ));
            crate::batched::lemma_expansion_step(nn, parent, w128, top_row, t);
            crate::transfer::lemma_place_fits(nn, parent, t);
            crate::boundary::lemma_pack_round_trip(successor, nn);
            if top_row {
                crate::batched::lemma_top_row_weight(nn, t);
            }
        }
        let mut weight = base_weight;
        if top_row {
            match top_row_vertical_orbit_weight(n, successor) {
                None => {
                    proof {
                        assert(crate::batched::expansion_upto(nn, parent, w128, top_row, t + 1)
                            =~= crate::batched::expansion_upto(nn, parent, w128, top_row, t));
                        k = t + 1;
                    }
                    continue;
                },
                Some(multiplicity) => {
                    weight = match weight.checked_mul(multiplicity) {
                        Some(w) => {
                            if w <= limit {
                                w
                            } else {
                                proof {
                                    let terms = crate::batched::expansion(nn, parent, w128, top_row);
                                    let i = crate::batched::expansion_upto(nn, parent, w128, top_row, t).len() as int;
                                    crate::batched::lemma_expansion_prefix(nn, parent, w128, top_row, t + 1);
                                    assert(terms[i].1 > limit);
                                }
                                return Err(E::overflow_error(row, "D4 orbit weighting"));
                            }
                        },
                        None => {
                            proof {
                                let terms = crate::batched::expansion(nn, parent, w128, top_row);
                                let i = crate::batched::expansion_upto(nn, parent, w128, top_row, t).len() as int;
                                crate::batched::lemma_expansion_prefix(nn, parent, w128, top_row, t + 1);
                                assert(terms[i].1 > limit);
                            }
                            return Err(E::overflow_error(row, "D4 orbit weighting"));
                        },
                    };
                },
            }
        }
        if weight > *max_coefficient {
            *max_coefficient = weight;
        }
        let packed = PackedBoundary::pack(successor, n);
        proof {
            crate::joint::lemma_pack_fits_u64(successor, nn);
            E::lemma_key_ok(pack_spec(successor, nn) as u64, nn, layout);
        }
        if packed.0 > u64::MAX as u128 {
            return Err(message("compact virtual boundary key does not fit u64"));
        }
        let key = packed.0 as u64;
        let entry = E::store(key, weight, layout);
        let selected_shard = shard_index(key as u128, n, shards, ShardMode::Prefix);
        let ghost before = output@;
        output[selected_shard].push(entry);
        appended = appended + 1;
        proof {
            assert(entry.term(layout) == (packed, weight));
            let prev = pack_terms(crate::batched::expansion_upto(nn, parent, w128, top_row, t), nn);
            let next = pack_terms(crate::batched::expansion_upto(nn, parent, w128, top_row, t + 1), nn);
            assert(next =~= prev.push((packed, weight)));
            assert(next.drop_last() =~= prev);
            assert forall|g: spec_fn(u128) -> nat| #[trigger] entries_sum(output@, layout, g) == entries_sum(
                old(output)@,
                layout,
                g,
            ) + weighted_sum(next, g) by {
                lemma_entries_sum_push(before, output@, selected_shard as int, entry, layout, g);
            }
            k = t + 1;
        }
    }
    proof {
        lemma_scan_bounds(avail, positions, k);
        assert forall|c: nat| k <= c < n implies !#[trigger] cell_free(parent, c) by {
            lemma_available_bit(nn, parent, c);
        }
        lemma_successors_skip(nn, parent, k, nn);
    }
    Ok(appended)
}



} // verus!
