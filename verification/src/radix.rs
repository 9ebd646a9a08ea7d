//! Most-significant-digit radix sort of packed frontier terms by key, one
//! byte of the key at a time from the highest byte a board of width `n` uses.
use vstd::prelude::*;
use vstd::arithmetic::power2::pow2;
use vstd::multiset::Multiset;

use crate::boundary::PackedBoundary;
use crate::contract::{keys_sorted, sort_by_packed_key};

verus! {

/// The bits of `key` from bit `shift` up.
pub open spec fn high_part(key: u128, shift: nat) -> nat {
    key as nat / pow2(shift)
}

/// The byte of `key` that starts at bit `shift`.
pub open spec fn digit(key: u128, shift: nat) -> nat {
    high_part(key, shift) % 256
}

/// Every key of `terms` has the bits `high` from bit `shift` up.
pub open spec fn shares_high(terms: Seq<(PackedBoundary, u128)>, shift: nat, high: nat) -> bool {
    forall|i: int| 0 <= i < terms.len() ==> high_part((#[trigger] terms[i]).0.0, shift) == high
}

/// The terms of the first `count` buckets, as a multiset.
pub open spec fn buckets_multiset(buckets: Seq<Vec<(PackedBoundary, u128)>>, count: int) -> Multiset<
    (PackedBoundary, u128),
>
    decreases count,
{
    if count <= 0 {
        Multiset::empty()
    } else {
        buckets_multiset(buckets, count - 1).add(buckets[count - 1]@.to_multiset())
    }
}

/// The bits from `shift` up are those from `shift + 8` up followed by the
/// byte at `shift`.
proof fn lemma_high_split(key: u128, shift: nat)
    ensures
        high_part(key, shift) == high_part(key, shift + 8) * 256 + digit(key, shift),
        digit(key, shift) < 256,
{
    vstd::arithmetic::power2::lemma_pow2_pos(shift);
    vstd::arithmetic::power2::lemma_pow2_adds(shift, 8);
    vstd::arithmetic::power2::lemma2_to64();
    vstd::arithmetic::div_mod::lemma_div_denominator(key as int, pow2(shift) as int, 256);
    vstd::arithmetic::div_mod::lemma_fundamental_div_mod(high_part(key, shift) as int, 256);
}

/// Two keys with the same bits from `shift + 8` up are ordered by their byte
/// at `shift` when those differ.
proof fn lemma_digit_order(a: u128, b: u128, shift: nat)
    requires
        high_part(a, shift + 8) == high_part(b, shift + 8),
        digit(a, shift) < digit(b, shift),
    ensures
        a < b,
{
    lemma_high_split(a, shift);
    lemma_high_split(b, shift);
    vstd::arithmetic::power2::lemma_pow2_pos(shift);
    if a >= b {
        vstd::arithmetic::div_mod::lemma_div_is_ordered(b as int, a as int, pow2(shift) as int);
    }
}

/// Pushing a term into one of the first `count` buckets adds it to their
/// multiset.
proof fn lemma_buckets_multiset_push(
    before: Seq<Vec<(PackedBoundary, u128)>>,
    after: Seq<Vec<(PackedBoundary, u128)>>,
    d: int,
    term: (PackedBoundary, u128),
    count: int,
)
    requires
        0 <= d < count <= before.len(),
        after.len() == before.len(),
        after[d]@ == before[d]@.push(term),
        forall|e: int| 0 <= e < before.len() && e != d ==> (#[trigger] after[e])@ == before[e]@,
    ensures
        buckets_multiset(after, count) == buckets_multiset(before, count).insert(term),
    decreases count,
{
    broadcast use vstd::multiset::group_multiset_axioms;

    before[d]@.to_multiset_ensures();
    if count - 1 == d {
        assert(buckets_multiset(after, count - 1) =~= buckets_multiset(before, count - 1)) by {
            lemma_buckets_multiset_same(before, after, count - 1);
        }
        assert(buckets_multiset(after, count) =~= buckets_multiset(before, count).insert(term));
    } else {
        lemma_buckets_multiset_push(before, after, d, term, count - 1);
        assert(after[count - 1]@ == before[count - 1]@);
        assert(buckets_multiset(after, count) =~= buckets_multiset(before, count).insert(term));
    }
}

/// Buckets with the same first `count` contents have the same multiset.
proof fn lemma_buckets_multiset_same(
    a: Seq<Vec<(PackedBoundary, u128)>>,
    b: Seq<Vec<(PackedBoundary, u128)>>,
    count: int,
)
    requires
        count <= a.len(),
        count <= b.len(),
        forall|e: int| 0 <= e < count ==> (#[trigger] a[e])@ == b[e]@,
    ensures
        buckets_multiset(a, count) == buckets_multiset(b, count),
    decreases count,
{
    if count > 0 {
        lemma_buckets_multiset_same(a, b, count - 1);
        assert(a[count - 1]@ == b[count - 1]@);
    }
}

/// Reordered terms are the same terms.
proof fn lemma_same_terms(a: Seq<(PackedBoundary, u128)>, b: Seq<(PackedBoundary, u128)>, k: int)
    requires
        a.to_multiset() == b.to_multiset(),
        0 <= k < a.len(),
    ensures
        exists|j: int| 0 <= j < b.len() && b[j] == a[k],
{
    a.to_multiset_ensures();
    b.to_multiset_ensures();
    assert(a.contains(a[k]));
    assert(a.to_multiset().count(a[k]) > 0);
    assert(b.to_multiset().count(a[k]) > 0);
    assert(b.contains(a[k]));
}

/// A copy of `terms`.
fn copy_terms(terms: &Vec<(PackedBoundary, u128)>) -> (copy: Vec<(PackedBoundary, u128)>)
    ensures
        copy@ == terms@,
{
    let mut copy: Vec<(PackedBoundary, u128)> = Vec::new();
    let mut i: usize = 0;
    while i < terms.len()
        invariant
            i <= terms@.len(),
            copy@ == terms@.take(i as int),
        decreases terms@.len() - i,
    {
        copy.push(terms[i]);
        proof {
            assert(terms@.take(i as int + 1) =~= terms@.take(i as int).push(terms@[i as int]));
        }
        i = i + 1;
    }
    proof {
        assert(terms@.take(i as int) =~= terms@);
    }
    copy
}

/// Sort terms whose keys share the bits `high` from bit `shift + 8` up: deal
/// them into 256 buckets by their byte at `shift`, sort each bucket of more
/// than one term by the next byte down, and concatenate the buckets; a list
/// of at most 64 terms is sorted directly.
fn radix_sort_msd(values: &Vec<(PackedBoundary, u128)>, shift: u32, Ghost(high): Ghost<nat>) -> (sorted: Vec<
    (PackedBoundary, u128),
>)
    requires
        shift % 8 == 0,
        shift <= 120,
        shares_high(values@, (shift + 8) as nat, high),
    ensures
        sorted@.to_multiset() == values@.to_multiset(),
        keys_sorted(sorted@),
    decreases shift,
{
    if values.len() <= 64 {
        let mut small = copy_terms(values);
        sort_by_packed_key(&mut small);
        return small;
    }
    let ghost s = shift as nat;
    let mut buckets: Vec<Vec<(PackedBoundary, u128)>> = Vec::new();
    let mut b: usize = 0;
    while b < 256
        invariant
            b <= 256,
            buckets@.len() == b,
            forall|d: int| 0 <= d < b ==> (#[trigger] buckets@[d])@.len() == 0,
        decreases 256 - b,
    {
        buckets.push(Vec::new());
        b = b + 1;
    }
    proof {
        assert(buckets_multiset(buckets@, 256) =~= Multiset::empty()) by {
            lemma_buckets_multiset_empty(buckets@, 256);
        }
        lemma_empty_terms(values@.take(0));
    }
    let mut i: usize = 0;
    while i < values.len()
        invariant
            shift % 8 == 0,
            shift <= 120,
            s == shift,
            shares_high(values@, s + 8, high),
            i <= values@.len(),
            buckets@.len() == 256,
            forall|d: int, k: int|
                0 <= d < 256 && 0 <= k < buckets@[d]@.len() ==> digit((#[trigger] buckets@[d]@[k]).0.0, s) == d
                    && high_part(buckets@[d]@[k].0.0, s + 8) == high,
            buckets_multiset(buckets@, 256) == values@.take(i as int).to_multiset(),
        decreases values@.len() - i,
    {
        let term = values[i];
        proof {
            vstd::bits::lemma_u128_shr_is_div(term.0.0, shift as u128);
            lemma_high_split(term.0.0, s);
        }
        let d = ((term.0.0 >> shift) % 256) as usize;
        let ghost before = buckets@;
        buckets[d].push(term);
        proof {
            lemma_buckets_multiset_push(before, buckets@, d as int, term, 256);
            assert(values@.take(i as int + 1) =~= values@.take(i as int).push(term));
            values@.take(i as int).to_multiset_ensures();
            assert forall|e: int, k: int|
                0 <= e < 256 && 0 <= k < buckets@[e]@.len() implies digit((#[trigger] buckets@[e]@[k]).0.0, s) == e
                    && high_part(buckets@[e]@[k].0.0, s + 8) == high by {
                if e == d as int {
                    if k < before[e]@.len() {
                        assert(buckets@[e]@[k] == before[e]@[k]);
                    } else {
                        assert(buckets@[e]@[k] == term);
                    }
                } else {
                    assert(buckets@[e] == before[e]);
                }
            }
        }
        i = i + 1;
    }
    proof {
        assert(values@.take(i as int) =~= values@);
    }
    let mut sorted: Vec<(PackedBoundary, u128)> = Vec::new();
    proof {
        lemma_empty_terms(sorted@);
    }
    let mut d: usize = 0;
    while d < 256
        invariant
            shift % 8 == 0,
            shift <= 120,
            s == shift,
            d <= 256,
            buckets@.len() == 256,
            forall|e: int, k: int|
                0 <= e < 256 && 0 <= k < buckets@[e]@.len() ==> digit((#[trigger] buckets@[e]@[k]).0.0, s) == e
                    && high_part(buckets@[e]@[k].0.0, s + 8) == high,
            sorted@.to_multiset() == buckets_multiset(buckets@, d as int),
            keys_sorted(sorted@),
            forall|k: int| 0 <= k < sorted@.len() ==> digit((#[trigger] sorted@[k]).0.0, s) < d && high_part(
                sorted@[k].0.0,
                s + 8,
            ) == high,
        decreases 256 - d,
    {
        let ghost bucket = buckets@[d as int]@;
        let group = if shift >= 8 && buckets[d].len() > 1 {
            proof {
                assert forall|k: int| 0 <= k < bucket.len() implies high_part((#[trigger] bucket[k]).0.0, s)
                    == high * 256 + d by {
                    lemma_high_split(bucket[k].0.0, s);
                }
                assert(((shift - 8) as u32 + 8) as nat == s);
            }
            radix_sort_msd(&buckets[d], shift - 8, Ghost((high * 256 + d) as nat))
        } else {
            let group = copy_terms(&buckets[d]);
            proof {
                if shift < 8 {
                    assert(s == 0);
                    vstd::arithmetic::power2::lemma2_to64();
                    assert forall|k: int| 0 <= k < bucket.len() implies (#[trigger] bucket[k]).0.0 == high * 256 + d by {
                        lemma_high_split(bucket[k].0.0, 0);
                    }
                }
            }
            group
        };
        proof {
            assert forall|k: int| 0 <= k < group@.len() implies digit((#[trigger] group@[k]).0.0, s) == d && high_part(
                group@[k].0.0,
                s + 8,
            ) == high by {
                lemma_same_terms(group@, bucket, k);
                let j = choose|j: int| 0 <= j < bucket.len() && bucket[j] == group@[k];
                assert(digit(bucket[j].0.0, s) == d);
            }
        }
        let ghost base = sorted@;
        let mut k: usize = 0;
        while k < group.len()
            invariant
                k <= group@.len(),
                sorted@ == base + group@.take(k as int),
            decreases group@.len() - k,
        {
            sorted.push(group[k]);
            proof {
                assert(group@.take(k as int + 1) =~= group@.take(k as int).push(group@[k as int]));
            }
            k = k + 1;
        }
        proof {
            assert(group@.take(k as int) =~= group@);
            vstd::seq_lib::lemma_multiset_commutative(base, group@);
            assert(buckets_multiset(buckets@, d as int + 1) == buckets_multiset(buckets@, d as int).add(
                bucket.to_multiset(),
            ));
            assert forall|a: int, c: int| 0 <= a <= c < sorted@.len() implies sorted@[a].0.0 <= sorted@[c].0.0 by {
                if a < base.len() && c >= base.len() {
                    assert(sorted@[a] == base[a]);
                    assert(sorted@[c] == group@[c - base.len()]);
                    lemma_digit_order(base[a].0.0, group@[c - base.len()].0.0, s);
                } else if a >= base.len() {
                    assert(sorted@[a] == group@[a - base.len()]);
                    assert(sorted@[c] == group@[c - base.len()]);
                } else {
                    assert(sorted@[a] == base[a]);
                    assert(sorted@[c] == base[c]);
                }
            }
            assert forall|k: int| 0 <= k < sorted@.len() implies digit((#[trigger] sorted@[k]).0.0, s) < d + 1
                && high_part(sorted@[k].0.0, s + 8) == high by {
                if k < base.len() {
                    assert(sorted@[k] == base[k]);
                } else {
                    assert(sorted@[k] == group@[k - base.len()]);
                }
            }
        }
        d = d + 1;
    }
    sorted
}

/// An empty list of terms is the empty multiset.
proof fn lemma_empty_terms(terms: Seq<(PackedBoundary, u128)>)
    requires
        terms.len() == 0,
    ensures
        terms.to_multiset() == Multiset::<(PackedBoundary, u128)>::empty(),
{
    terms.to_multiset_ensures();
    vstd::multiset::lemma_multiset_empty_len(terms.to_multiset());
}

/// Empty buckets hold nothing.
proof fn lemma_buckets_multiset_empty(buckets: Seq<Vec<(PackedBoundary, u128)>>, count: int)
    requires
        count <= buckets.len(),
        forall|e: int| 0 <= e < count ==> (#[trigger] buckets[e])@.len() == 0,
    ensures
        buckets_multiset(buckets, count) == Multiset::<(PackedBoundary, u128)>::empty(),
    decreases count,
{
    broadcast use vstd::multiset::group_multiset_axioms;

    if count > 0 {
        lemma_buckets_multiset_empty(buckets, count - 1);
        lemma_empty_terms(buckets[count - 1]@);
        assert(buckets_multiset(buckets, count) =~= Multiset::empty());
    }
}

/// Sort the packed terms of a board of width `n` by key with the radix sort,
/// starting from the highest byte that keys of `3 n` bits use. Keys are first
/// checked to use no more bits than that; terms with wider keys are sorted by
/// the standard library's sort instead.
pub fn sort_packed_radix(values: &mut Vec<(PackedBoundary, u128)>, n: usize)
    requires
        n <= 42,
    ensures
        final(values)@.to_multiset() == old(values)@.to_multiset(),
        keys_sorted(final(values)@),
{
    let key_bits = 3 * n;
    let highest_shift: u32 = (key_bits.saturating_sub(1) / 8 * 8) as u32;
    let mut fits = true;
    if highest_shift < 120 {
        let top: u32 = highest_shift + 8;
        let mut i: usize = 0;
        while i < values.len()
            invariant
                top < 128,
                i <= values@.len(),
                fits ==> forall|k: int| 0 <= k < i ==> high_part((#[trigger] values@[k]).0.0, top as nat) == 0,
            decreases values@.len() - i,
        {
            proof {
                vstd::bits::lemma_u128_shr_is_div(values@[i as int].0.0, top as u128);
            }
            if values[i].0.0 >> top != 0 {
                fits = false;
            }
            i = i + 1;
        }
    } else {
        proof {
            vstd::arithmetic::power2::lemma2_to64();
            vstd::arithmetic::power2::lemma_pow2_adds(64, 64);
            assert forall|k: int| 0 <= k < values@.len() implies high_part((#[trigger] values@[k]).0.0, 128) == 0 by {
                vstd::arithmetic::div_mod::lemma_basic_div(values@[k].0.0 as int, pow2(128) as int);
            }
        }
    }
    if fits {
        proof {
            assert(highest_shift % 8 == 0);
            assert(shares_high(values@, (highest_shift + 8) as nat, 0));
        }
        let sorted = radix_sort_msd(values, highest_shift, Ghost(0));
        *values = sorted;
    } else {
        sort_by_packed_key(values);
    }
}

} // verus!
