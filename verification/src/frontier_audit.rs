//! Deterministically certified distinguishability audit for row-frontier PEPS states.
//!
//! The audit builds the same future quotient as `future_quotient`, looks
//! candidate classes up by a two-prime modular fingerprint of the signature,
//! and only ever merges states on an exact signature comparison. A replay then
//! regenerates every signature and checks it against the stored class witness.
use vstd::prelude::*;

use crate::boundary::PackedBoundary;
use crate::future_quotient::{
    QuotientLayerMetric, class_value, classes_fit, copy_values, exact_signature, forward_layers,
    initial_key, lemma_board_count_zero, lemma_first_row_value, lemma_successor_value,
    quotient_layer_metrics, quotient_layers_ok, replay_values, row_value, same_signature,
    signature_value, states_strictly_sorted, successor_terms, terminal_classes,
};
use crate::row::CompiledRowOperator;
use crate::tensor::SiteTensorC;
use crate::transfer::{board_count, weighted_sum};
use crate::util::{elapsed, message, message_with_number, now, peak_rss_bytes, zero_duration};
use std::time::Duration;

verus! {

broadcast use crate::mirror::lemma_orbit_count_exact;

/// The two primes of the signature fingerprint.
pub const AUDIT_PRIMES: [u64; 2] = [18_446_744_073_709_551_557, 18_446_744_073_709_551_533];

/// The base of the polynomial fingerprint.
pub const FINGERPRINT_BASE: u128 = 1_000_003;

/// One row of the audit.
#[derive(Clone, Copy, Debug)]
pub struct AuditLayerMetric {
    pub row: usize,
    pub reachable_states: usize,
    pub certified_classes: usize,
}

/// The certified quotient of every row and the count it reconstructs.
#[derive(Debug)]
pub struct FrontierAuditResult {
    pub n: usize,
    pub count: u128,
    pub certified: bool,
    pub peak_reachable_states: usize,
    pub peak_certified_classes: usize,
    pub forward_transitions: u128,
    pub signature_transitions: u128,
    pub witness_replay_transitions: u128,
    pub quotient_edges: usize,
    pub exact_signature_comparisons: u128,
    pub fingerprint_collision_witnesses: u128,
    pub elapsed: Duration,
    pub peak_rss_bytes: u64,
    pub layers: Vec<AuditLayerMetric>,
}

/// One step of the polynomial hash modulo `modulus`.
pub open spec fn hash_step(hash: u128, value: u128, modulus: u128) -> u128 {
    ((hash * FINGERPRINT_BASE + value + 1) % (modulus as int)) as u128
}

/// The hash of the first `k` terms of a signature: the class, then the low
/// and high 64 bits of the multiplicity of each term.
pub open spec fn signature_hash(signature: Seq<(PackedBoundary, u128)>, modulus: u128, k: nat) -> u128
    decreases k,
{
    if k == 0 {
        97
    } else {
        let h = signature_hash(signature, modulus, (k - 1) as nat);
        let (target, weight) = signature[k - 1];
        hash_step(
            hash_step(
                hash_step(h, target.0 % modulus, modulus),
                weight % 0x1_0000_0000_0000_0000,
                modulus,
            ),
            weight / 0x1_0000_0000_0000_0000,
            modulus,
        )
    }
}

/// The fingerprint of a signature modulo `prime`, closed by its length.
pub open spec fn fingerprint_spec(signature: Seq<(PackedBoundary, u128)>, prime: u64) -> u64 {
    hash_step(signature_hash(signature, prime as u128, signature.len()), signature.len() as u128, prime as u128)
        as u64
}

/// The fingerprint of `signature` modulo `prime`.
pub fn modular_fingerprint(signature: &Vec<(PackedBoundary, u128)>, prime: u64) -> (print: u64)
    requires
        prime > 97,
    ensures
        print == fingerprint_spec(signature@, prime),
{
    let modulus = prime as u128;
    let mut hash: u128 = 97;
    let mut i: usize = 0;
    while i < signature.len()
        invariant
            i <= signature@.len(),
            modulus == prime as u128,
            modulus > 97,
            modulus < 0x1_0000_0000_0000_0000,
            hash < modulus,
            hash == signature_hash(signature@, modulus, i as nat),
        decreases signature@.len() - i,
    {
        let (target, weight) = signature[i];
        proof {
            assert(hash * FINGERPRINT_BASE <= 0x1_0000_0000_0000_0000 * 1_000_003) by (nonlinear_arith)
                requires hash < 0x1_0000_0000_0000_0000;
        }
        hash = (hash * FINGERPRINT_BASE + target.0 % modulus + 1) % modulus;
        proof {
            assert(hash * FINGERPRINT_BASE <= 0x1_0000_0000_0000_0000 * 1_000_003) by (nonlinear_arith)
                requires hash < 0x1_0000_0000_0000_0000;
        }
        hash = (hash * FINGERPRINT_BASE + weight % 0x1_0000_0000_0000_0000 + 1) % modulus;
        proof {
            assert(hash * FINGERPRINT_BASE <= 0x1_0000_0000_0000_0000 * 1_000_003) by (nonlinear_arith)
                requires hash < 0x1_0000_0000_0000_0000;
        }
        hash = (hash * FINGERPRINT_BASE + weight / 0x1_0000_0000_0000_0000 + 1) % modulus;
        i = i + 1;
    }
    proof {
        assert(hash * FINGERPRINT_BASE <= 0x1_0000_0000_0000_0000 * 1_000_003) by (nonlinear_arith)
            requires hash < 0x1_0000_0000_0000_0000;
    }
    ((hash * FINGERPRINT_BASE + signature.len() as u128 + 1) % modulus) as u64
}

/// The fingerprints of `signature` modulo both audit primes.
pub fn fingerprints(signature: &Vec<(PackedBoundary, u128)>) -> (prints: [u64; 2])
    ensures
        prints@ == seq![
            fingerprint_spec(signature@, AUDIT_PRIMES[0]),
            fingerprint_spec(signature@, AUDIT_PRIMES[1]),
        ],
{
    let first = modular_fingerprint(signature, AUDIT_PRIMES[0]);
    let second = modular_fingerprint(signature, AUDIT_PRIMES[1]);
    let prints = [first, second];
    assert(prints@ =~= seq![first, second]);
    prints
}

/// The successor terms generated by the first `i` states of one row.
pub open spec fn row_transitions(n: nat, row: nat, keys: Seq<PackedBoundary>, i: int) -> nat
    decreases i,
{
    if i <= 0 {
        0
    } else {
        row_transitions(n, row, keys, i - 1) + successor_terms(n, row, keys[i - 1].0, true).len()
    }
}

/// The successor terms generated by the last `t` rows, visited bottom up.
pub open spec fn layer_transitions(n: nat, layers: Seq<Vec<PackedBoundary>>, t: int) -> nat
    decreases t,
{
    if t <= 0 {
        0
    } else {
        layer_transitions(n, layers, t - 1) + row_transitions(
            n,
            (n - t) as nat,
            layers[n - t]@,
            layers[n - t]@.len() as int,
        )
    }
}

/// The certified classes of one row, given the classes of the next: states
/// are bucketed by fingerprint and merged only on exact signature equality.
#[verifier::spinoff_prover]
#[verifier::rlimit(100)]
fn audit_row(
    n: usize,
    row: usize,
    operator: &CompiledRowOperator,
    keys: &Vec<PackedBoundary>,
    next_keys: &Vec<PackedBoundary>,
    next_classes: &Vec<usize>,
    next_values: &Vec<u128>,
    transition_counter: &mut u128,
    comparisons: &mut u128,
    collisions: &mut u128,
) -> (quotient: Result<(Vec<usize>, Vec<Vec<(PackedBoundary, u128)>>, Vec<u128>), String>)
    requires
        1 <= n <= 42,
        row < n,
        row == 0 ==> keys@ == seq![PackedBoundary(initial_key(n as nat))],
        states_strictly_sorted(next_keys@),
        classes_fit(next_keys@, next_classes@, next_values@, row_value(n as nat, (row + 1) as nat)),
    ensures
        quotient matches Ok((classes, signatures, values)) ==> {
            &&& classes_fit(keys@, classes@, values@, row_value(n as nat, row as nat))
            &&& values@.len() == signatures@.len()
            &&& values@.len() <= keys@.len()
            &&& forall|c: int| 0 <= c < values@.len() ==> (#[trigger] values@[c]) as nat == weighted_sum(
                signatures@[c]@,
                class_value(next_values@),
            )
            &&& *final(transition_counter) == *old(transition_counter) + row_transitions(
                n as nat,
                row as nat,
                keys@,
                keys@.len() as int,
            )
            &&& *final(collisions) - *old(collisions) <= *final(comparisons) - *old(comparisons)
        },
        crate::future_quotient::quotient_fits(n as nat, row as nat, keys@, next_keys@, *old(transition_counter) as nat)
            && *old(comparisons) + keys@.len() * keys@.len() <= u128::MAX && *old(collisions) + keys@.len()
            * keys@.len() <= u128::MAX ==> quotient is Ok,
{
    let ghost fits = crate::future_quotient::quotient_fits(
        n as nat,
        row as nat,
        keys@,
        next_keys@,
        *old(transition_counter) as nat,
    ) && *old(comparisons) + keys@.len() * keys@.len() <= u128::MAX && *old(collisions) + keys@.len()
        * keys@.len() <= u128::MAX;
    let ghost len = keys@.len() as int;
    let ghost mut rep: Seq<int> = Seq::empty();
    let ghost g_next = row_value(n as nat, (row + 1) as nat);
    let ghost g_row = row_value(n as nat, row as nat);
    let mut class_of: Vec<usize> = Vec::new();
    let mut signatures: Vec<Vec<(PackedBoundary, u128)>> = Vec::new();
    let mut bucket_prints: Vec<[u64; 2]> = Vec::new();
    let mut bucket_members: Vec<Vec<usize>> = Vec::new();
    let mut i: usize = 0;
    while i < keys.len()
        invariant
            1 <= n <= 42,
            row < n,
            row == 0 ==> keys@ == seq![PackedBoundary(initial_key(n as nat))],
            g_next == row_value(n as nat, (row + 1) as nat),
            g_row == row_value(n as nat, row as nat),
            states_strictly_sorted(next_keys@),
            classes_fit(next_keys@, next_classes@, next_values@, g_next),
            i <= keys@.len(),
            class_of@.len() == i,
            signatures@.len() <= i,
            bucket_members@.len() == bucket_prints@.len(),
            forall|b: int, m: int|
                0 <= b < bucket_members@.len() && 0 <= m < bucket_members@[b]@.len() ==> #[trigger] bucket_members@[b]@[m]
                    < signatures@.len(),
            forall|j: int| 0 <= j < i ==> (#[trigger] class_of@[j]) < signatures@.len() && weighted_sum(
                signatures@[class_of@[j] as int]@,
                class_value(next_values@),
            ) == g_row(keys@[j].0),
            *transition_counter == *old(transition_counter) + row_transitions(n as nat, row as nat, keys@, i as int),
            fits == (crate::future_quotient::quotient_fits(
                n as nat,
                row as nat,
                keys@,
                next_keys@,
                *old(transition_counter) as nat,
            ) && *old(comparisons) + keys@.len() * keys@.len() <= u128::MAX && *old(collisions) + keys@.len()
                * keys@.len() <= u128::MAX),
            len == keys@.len(),
            rep.len() == signatures@.len(),
            forall|c: int| 0 <= c < rep.len() ==> 0 <= #[trigger] rep[c] < i && class_of@[rep[c]] == c,
            forall|b: int| 0 <= b < bucket_members@.len() ==> (#[trigger] bucket_members@[b])@.len() <= signatures@.len(),
            *comparisons <= *old(comparisons) + i * len,
            *collisions <= *old(collisions) + i * len,
            *collisions - *old(collisions) <= *comparisons - *old(comparisons),
        decreases keys@.len() - i,
    {
        let state = keys[i];
        proof {
            if fits {
                assert(crate::future_quotient::signature_fits(
                    n as nat,
                    row as nat,
                    keys@[i as int].0,
                    true,
                    next_keys@,
                    *old(transition_counter) as nat + row_transitions(n as nat, row as nat, keys@, i as int),
                ));
            }
        }
        proof {
            if row == 0 {
                assert(state == PackedBoundary(initial_key(n as nat)));
            }
        }
        let signature = exact_signature(
            n,
            row,
            operator,
            state,
            true,
            next_keys,
            next_classes,
            transition_counter,
            Ghost(next_values@),
            Ghost(g_next),
        )?;
        proof {
            if row == 0 {
                lemma_first_row_value(n as nat);
            } else {
                lemma_successor_value(n as nat, row as nat, state.0, true);
            }
        }
        let print = fingerprints(&signature);
        let mut bucket: usize = 0;
        while bucket < bucket_prints.len()
            invariant
                bucket <= bucket_prints@.len(),
            decreases bucket_prints@.len() - bucket,
        {
            if bucket_prints[bucket][0] == print[0] && bucket_prints[bucket][1] == print[1] {
                break;
            }
            bucket = bucket + 1;
        }
        if bucket == bucket_prints.len() {
            bucket_prints.push(print);
            let ghost before_members = bucket_members@;
            bucket_members.push(Vec::new());
            proof {
                assert forall|b: int| 0 <= b < bucket_members@.len() implies (#[trigger] bucket_members@[b])@.len()
                    <= signatures@.len() by {
                    if b < before_members.len() {
                        assert(bucket_members@[b] == before_members[b]);
                    }
                }
                assert forall|b: int, k: int|
                    0 <= b < bucket_members@.len() && 0 <= k < bucket_members@[b]@.len() implies #[trigger] bucket_members@[b]@[k]
                        < signatures@.len() by {
                    if b < before_members.len() {
                        assert(bucket_members@[b] == before_members[b]);
                    }
                }
            }
        }
        let mut matching: Option<usize> = None;
        let mut m: usize = 0;
        let members_len = bucket_members[bucket].len();
        let ghost base_comparisons = *comparisons;
        let ghost base_collisions = *collisions;
        proof {
            assert(members_len <= signatures@.len());
            if fits {
                assert(i * len + members_len + 1 <= len * len) by (nonlinear_arith)
                    requires
                        members_len <= i < len,
                ;
            }
        }
        while m < members_len
            invariant_except_break
                matching is None,
                *comparisons <= base_comparisons + m,
            invariant
                *comparisons <= base_comparisons + m + 1,
                *collisions <= base_collisions + m,
                *collisions - base_collisions <= *comparisons - base_comparisons,
                *comparisons >= base_comparisons,
                base_collisions - *old(collisions) <= base_comparisons - *old(comparisons),
                bucket < bucket_members@.len(),
                members_len == bucket_members@[bucket as int]@.len(),
                m <= members_len,
                members_len <= signatures@.len(),
                fits ==> base_comparisons + members_len + 1 <= u128::MAX,
                fits ==> base_collisions + members_len + 1 <= u128::MAX,
                fits == (crate::future_quotient::quotient_fits(
                    n as nat,
                    row as nat,
                    keys@,
                    next_keys@,
                    *old(transition_counter) as nat,
                ) && *old(comparisons) + keys@.len() * keys@.len() <= u128::MAX && *old(collisions) + keys@.len()
                    * keys@.len() <= u128::MAX),

                forall|b: int, k: int|
                    0 <= b < bucket_members@.len() && 0 <= k < bucket_members@[b]@.len() ==> #[trigger] bucket_members@[b]@[k]
                        < signatures@.len(),
                matching matches Some(f) ==> f < signatures@.len() && signatures@[f as int]@ == signature@,
            decreases members_len - m,
        {
            let class = bucket_members[bucket][m];
            *comparisons = match comparisons.checked_add(1) {
                Some(c) => c,
                None => {
                    return Err(message("frontier-audit comparison counter overflow"));
                },
            };
            if same_signature(&signatures[class], &signature) {
                matching = Some(class);
                break;
            }
            *collisions = match collisions.checked_add(1) {
                Some(c) => c,
                None => {
                    return Err(message("frontier-audit witness counter overflow"));
                },
            };
            m = m + 1;
        }
        let ghost old_class_of = class_of@;
        let ghost old_len = signatures@.len();
        let ghost old_members = bucket_members@;
        let class = match matching {
            Some(f) => f,
            None => {
                signatures.push(signature);
                let new_class = signatures.len() - 1;
                bucket_members[bucket].push(new_class);
                new_class
            },
        };
        class_of.push(class);
        proof {
            assert(keys@[i as int] == state);
            assert(class_of@ == old_class_of.push(class));
            if signatures@.len() > old_len {
                rep = rep.push(i as int);
            }
            assert forall|c: int| 0 <= c < rep.len() implies 0 <= #[trigger] rep[c] < i + 1 && class_of@[rep[c]] == c by {
                if c < old_len {
                    assert(class_of@[rep[c]] == old_class_of[rep[c]]);
                }
            }
            assert forall|b: int| 0 <= b < bucket_members@.len() implies (#[trigger] bucket_members@[b])@.len()
                <= signatures@.len() by {
                if b != bucket || signatures@.len() == old_len {
                    assert(bucket_members@[b] == old_members[b]);
                }
            }
            assert(i * len + members_len + 1 <= (i + 1) * len) by (nonlinear_arith)
                requires
                    members_len <= i < len,
            ;
        }
        i = i + 1;
    }
    proof {
        if fits {
            assert forall|c: int| 0 <= c < signatures@.len() implies weighted_sum(
                (#[trigger] signatures@[c])@,
                class_value(next_values@),
            ) <= u128::MAX by {
                let j = rep[c];
                assert(0 <= j < keys@.len());
                assert(row_value(n as nat, row as nat)(keys@[j].0) <= u128::MAX);
                assert(g_row(keys@[j].0) <= u128::MAX);
            }
        }
    }
    let mut values: Vec<u128> = Vec::new();
    let mut c: usize = 0;
    while c < signatures.len()
        invariant
            c <= signatures@.len(),
            values@.len() == c,
            forall|k: int| 0 <= k < c ==> (#[trigger] values@[k]) as nat == weighted_sum(
                signatures@[k]@,
                class_value(next_values@),
            ),
            fits ==> forall|k: int| 0 <= k < signatures@.len() ==> weighted_sum(
                (#[trigger] signatures@[k])@,
                class_value(next_values@),
            ) <= u128::MAX,
            fits == (crate::future_quotient::quotient_fits(
                n as nat,
                row as nat,
                keys@,
                next_keys@,
                *old(transition_counter) as nat,
            ) && *old(comparisons) + keys@.len() * keys@.len() <= u128::MAX && *old(collisions) + keys@.len()
                * keys@.len() <= u128::MAX),
        decreases signatures@.len() - c,
    {
        let value = match signature_value(&signatures[c], next_values) {
            Some(v) => v,
            None => {
                return Err(message("frontier-audit class value overflow"));
            },
        };
        values.push(value);
        c = c + 1;
    }
    Ok((class_of, signatures, values))
}


/// The audit rows in the shape of quotient rows.
pub open spec fn audit_layers_match(audit: Seq<AuditLayerMetric>, quotient: Seq<QuotientLayerMetric>) -> bool {
    &&& audit.len() == quotient.len()
    &&& forall|i: int| 0 <= i < audit.len() ==> (#[trigger] audit[i]).row == quotient[i].row
        && audit[i].reachable_states == quotient[i].reachable_states && audit[i].certified_classes
        == quotient[i].future_classes
}

fn audit_layers(layers: &Vec<QuotientLayerMetric>) -> (audit: Vec<AuditLayerMetric>)
    ensures
        audit_layers_match(audit@, layers@),
{
    let mut audit: Vec<AuditLayerMetric> = Vec::new();
    let mut i: usize = 0;
    while i < layers.len()
        invariant
            i <= layers@.len(),
            audit@.len() == i,
            forall|k: int| 0 <= k < i ==> (#[trigger] audit@[k]).row == layers@[k].row
                && audit@[k].reachable_states == layers@[k].reachable_states && audit@[k].certified_classes
                == layers@[k].future_classes,
        decreases layers@.len() - i,
    {
        let layer = layers[i];
        audit.push(
            AuditLayerMetric {
                row: layer.row,
                reachable_states: layer.reachable_states,
                certified_classes: layer.future_classes,
            },
        );
        i = i + 1;
    }
    audit
}

/// Build the certified future quotient of every row of the board of side `n`
/// and the count it reconstructs from the empty frontier; every stored class
/// witness is then checked against a regenerated signature.
pub fn audit_frontier_distinguishability(n: usize) -> (result: Result<FrontierAuditResult, String>)
    ensures
        n > 42 ==> result is Err,
        n == 0 ==> result is Ok,
        result matches Ok(r) ==> {
            &&& r.n == n
            &&& r.certified
            &&& r.count == board_count(n as nat, false)
            &&& r.signature_transitions == r.witness_replay_transitions
            &&& r.forward_transitions == r.signature_transitions
            &&& r.fingerprint_collision_witnesses <= r.exact_signature_comparisons
            &&& r.layers@.len() == n + 1
            &&& r.layers@[0].reachable_states == 1
            &&& forall|i: int| 0 <= i < r.layers@.len() ==> {
                &&& (#[trigger] r.layers@[i]).row == i
                &&& r.layers@[i].certified_classes <= r.layers@[i].reachable_states
                &&& r.layers@[i].reachable_states <= r.peak_reachable_states
                &&& r.layers@[i].certified_classes <= r.peak_certified_classes
            }
            &&& exists|i: int| 0 <= i < r.layers@.len() && (#[trigger] r.layers@[i]).reachable_states
                == r.peak_reachable_states
            &&& exists|i: int| 0 <= i < r.layers@.len() && (#[trigger] r.layers@[i]).certified_classes
                == r.peak_certified_classes
        },
{
    if n > 42 {
        return Err(message("frontier audit uses the packed u128 N<=42 row boundary"));
    }
    if n == 0 {
        let layers = vec![AuditLayerMetric { row: 0, reachable_states: 1, certified_classes: 1 }];
        proof {
            lemma_board_count_zero(true);
            assert(layers@.len() == 1);
            assert(layers@[0].row == 0);
            assert(layers@[0].reachable_states == 1);
            assert(layers@[0].certified_classes == 1);
        }
        let result = FrontierAuditResult {
            n,
            count: 1,
            certified: true,
            peak_reachable_states: 1,
            peak_certified_classes: 1,
            forward_transitions: 0,
            signature_transitions: 0,
            witness_replay_transitions: 0,
            quotient_edges: 0,
            exact_signature_comparisons: 0,
            fingerprint_collision_witnesses: 0,
            elapsed: zero_duration(),
            peak_rss_bytes: peak_rss_bytes(),
            layers,
        };
        proof {
            assert(result.layers@[0].reachable_states == result.peak_reachable_states);
            assert(result.layers@[0].certified_classes == result.peak_certified_classes);
        }
        return Ok(result);
    }
    let start = now();
    let operator = CompiledRowOperator::compile(&SiteTensorC::sec_vi())?;
    let (reachable, forward_transitions) = forward_layers(n, &operator)?;
    let (terminal_class, terminal_values) = terminal_classes(n, &reachable[n]);
    let mut values_by_row: Vec<Vec<u128>> = Vec::new();
    let mut classes_by_row: Vec<Vec<usize>> = Vec::new();
    let mut signatures_by_row: Vec<Vec<Vec<(PackedBoundary, u128)>>> = Vec::new();
    values_by_row.push(terminal_values);
    classes_by_row.push(terminal_class);
    let mut signature_transitions: u128 = 0;
    let mut exact_signature_comparisons: u128 = 0;
    let mut fingerprint_collision_witnesses: u128 = 0;
    let mut k: usize = 0;
    while k < n
        invariant
            1 <= n <= 42,
            k <= n,
            reachable@.len() == n + 1,
            reachable@[0]@ == seq![PackedBoundary(initial_key(n as nat))],
            forall|r: int| 0 <= r <= n ==> states_strictly_sorted(#[trigger] reachable@[r]@),
            values_by_row@.len() == k + 1,
            classes_by_row@.len() == k + 1,
            signatures_by_row@.len() == k,
            forall|t: int| 0 <= t <= k ==> classes_fit(
                reachable@[n - t]@,
                (#[trigger] classes_by_row@[t])@,
                values_by_row@[t]@,
                row_value(n as nat, (n - t) as nat),
            ),
            forall|t: int| 0 <= t <= k ==> (#[trigger] values_by_row@[t])@.len() <= reachable@[n - t]@.len(),
            forall|t: int| 0 <= t < k ==> (#[trigger] values_by_row@[t + 1])@.len() == signatures_by_row@[t]@.len()
                && forall|c: int| 0 <= c < signatures_by_row@[t]@.len() ==> (#[trigger] values_by_row@[t + 1]@[c]) as nat
                    == weighted_sum(signatures_by_row@[t]@[c]@, class_value(values_by_row@[t]@)),
            signature_transitions == layer_transitions(n as nat, reachable@, k as int),
            fingerprint_collision_witnesses <= exact_signature_comparisons,
        decreases n - k,
    {
        let row = n - 1 - k;
        proof {
            if row == 0 {
                assert(reachable@[row as int]@ == seq![PackedBoundary(initial_key(n as nat))]);
            }
            assert(states_strictly_sorted(reachable@[row + 1]@));
            assert((n - k) as nat == (row + 1) as nat);
            assert(classes_fit(
                reachable@[n - k]@,
                classes_by_row@[k as int]@,
                values_by_row@[k as int]@,
                row_value(n as nat, (n - k) as nat),
            ));
        }
        let (classes, signatures, values) = audit_row(
            n,
            row,
            &operator,
            &reachable[row],
            &reachable[row + 1],
            &classes_by_row[k],
            &values_by_row[k],
            &mut signature_transitions,
            &mut exact_signature_comparisons,
            &mut fingerprint_collision_witnesses,
        )?;
        signatures_by_row.push(signatures);
        values_by_row.push(values);
        classes_by_row.push(classes);
        proof {
            assert((n - (k + 1)) as nat == row as nat);
            assert((n - (k + 1)) as int == row as int);
        }
        k = k + 1;
    }
    let initial_class = classes_by_row[n][0];
    let count = values_by_row[n][initial_class];
    proof {
        assert(classes_fit(
            reachable@[0]@,
            classes_by_row@[n as int]@,
            values_by_row@[n as int]@,
            row_value(n as nat, 0),
        ));
        assert(reachable@[0]@[0].0 == initial_key(n as nat));
    }
    // Deterministic certificate replay: regenerate every concrete signature,
    // compare it with its stored exact class witness, and verify both modular
    // fingerprints. Hash equality is never accepted as equivalence.
    let mut witness_replay_transitions: u128 = 0;
    let mut t: usize = 0;
    while t < n
        invariant
            1 <= n <= 42,
            t <= n,
            reachable@.len() == n + 1,
            reachable@[0]@ == seq![PackedBoundary(initial_key(n as nat))],
            forall|r: int| 0 <= r <= n ==> states_strictly_sorted(#[trigger] reachable@[r]@),
            values_by_row@.len() == n + 1,
            classes_by_row@.len() == n + 1,
            signatures_by_row@.len() == n,
            forall|u: int| 0 <= u <= n ==> classes_fit(
                reachable@[n - u]@,
                (#[trigger] classes_by_row@[u])@,
                values_by_row@[u]@,
                row_value(n as nat, (n - u) as nat),
            ),
            forall|u: int| 0 <= u < n ==> (#[trigger] values_by_row@[u + 1])@.len() == signatures_by_row@[u]@.len()
                && forall|c: int| 0 <= c < signatures_by_row@[u]@.len() ==> (#[trigger] values_by_row@[u + 1]@[c]) as nat
                    == weighted_sum(signatures_by_row@[u]@[c]@, class_value(values_by_row@[u]@)),
            witness_replay_transitions == layer_transitions(n as nat, reachable@, t as int),
            signature_transitions == layer_transitions(n as nat, reachable@, n as int),
        decreases n - t,
    {
        let row = n - 1 - t;
        let keys = &reachable[row];
        let next_keys = &reachable[row + 1];
        let classes = &classes_by_row[t + 1];
        let stored = &signatures_by_row[t];
        proof {
            assert(classes_fit(
                reachable@[n - t]@,
                classes_by_row@[t as int]@,
                values_by_row@[t as int]@,
                row_value(n as nat, (n - t) as nat),
            ));
            assert(classes_fit(
                reachable@[n - (t + 1)]@,
                classes_by_row@[t + 1]@,
                values_by_row@[t + 1]@,
                row_value(n as nat, (n - (t + 1)) as nat),
            ));
            assert((n - (t + 1)) as int == row as int);
            assert((n - t) as int == row + 1);
            assert(states_strictly_sorted(reachable@[row + 1]@));
        }
        let mut i: usize = 0;
        while i < keys.len()
            invariant
                1 <= n <= 42,
                row < n,
                t < n,
                row == n - 1 - t,
                reachable@.len() == n + 1,
                values_by_row@.len() == n + 1,
                classes_by_row@.len() == n + 1,
                signatures_by_row@.len() == n,
                stored == signatures_by_row@[t as int],
                classes == classes_by_row@[t + 1],
                keys == reachable@[row as int],
                next_keys == reachable@[row + 1],
                reachable@[0]@ == seq![PackedBoundary(initial_key(n as nat))],
                states_strictly_sorted(next_keys@),
                classes_fit(
                    next_keys@,
                    classes_by_row@[t as int]@,
                    values_by_row@[t as int]@,
                    row_value(n as nat, (row + 1) as nat),
                ),
                classes_fit(keys@, classes@, values_by_row@[t + 1]@, row_value(n as nat, row as nat)),
                values_by_row@[t + 1]@.len() == stored@.len(),
                i <= keys@.len(),
                witness_replay_transitions == layer_transitions(n as nat, reachable@, t as int)
                    + row_transitions(n as nat, row as nat, keys@, i as int),
            decreases keys@.len() - i,
        {
            let state = keys[i];
            proof {
                if row == 0 {
                    assert(keys@ == seq![PackedBoundary(initial_key(n as nat))]);
                    assert(state == PackedBoundary(initial_key(n as nat)));
                }
            }
            let replayed = exact_signature(
                n,
                row,
                &operator,
                state,
                true,
                next_keys,
                &classes_by_row[t],
                &mut witness_replay_transitions,
                Ghost(values_by_row@[t as int]@),
                Ghost(row_value(n as nat, (row + 1) as nat)),
            )?;
            let class = classes[i];
            if !same_signature(&replayed, &stored[class]) {
                return Err(message_with_number("deterministic signature witness mismatch at row", row as u128));
            }
            let replayed_prints = fingerprints(&replayed);
            let stored_prints = fingerprints(&stored[class]);
            if replayed_prints[0] != stored_prints[0] || replayed_prints[1] != stored_prints[1] {
                return Err(message_with_number("two-prime fingerprint replay mismatch at row", row as u128));
            }
            proof {
                assert(keys@[i as int] == state);
            }
            i = i + 1;
        }
        proof {
            assert((n - (t + 1)) as nat == row);
        }
        t = t + 1;
    }
    let mut replay = copy_values(&values_by_row[0]);
    let mut u: usize = 0;
    while u < n
        invariant
            u <= n,
            values_by_row@.len() == n + 1,
            signatures_by_row@.len() == n,
            replay@ == values_by_row@[u as int]@,
            forall|w: int| 0 <= w < n ==> (#[trigger] values_by_row@[w + 1])@.len() == signatures_by_row@[w]@.len()
                && forall|c: int| 0 <= c < signatures_by_row@[w]@.len() ==> (#[trigger] values_by_row@[w + 1]@[c]) as nat
                    == weighted_sum(signatures_by_row@[w]@[c]@, class_value(values_by_row@[w]@)),
        decreases n - u,
    {
        let next = match replay_values(&signatures_by_row[u], &replay) {
            Some(v) => v,
            None => {
                return Err(message("frontier-audit replay overflow"));
            },
        };
        proof {
            assert(next@ =~= values_by_row@[u + 1]@);
        }
        replay = next;
        u = u + 1;
    }
    if replay[initial_class] != count {
        return Err(message("frontier-audit quotient value replay mismatch"));
    }
    let mut quotient_edges: usize = 0;
    let mut e: usize = 0;
    while e < signatures_by_row.len()
        invariant
            1 <= n <= 42,
            e <= signatures_by_row@.len(),
        decreases signatures_by_row@.len() - e,
    {
        let layer = &signatures_by_row[e];
        let mut c: usize = 0;
        while c < layer.len()
            invariant
                1 <= n <= 42,
                c <= layer@.len(),
            decreases layer@.len() - c,
        {
            quotient_edges = match quotient_edges.checked_add(layer[c].len()) {
                Some(edges) => edges,
                None => {
                    return Err(message("frontier-audit edge counter overflow"));
                },
            };
            c = c + 1;
        }
        e = e + 1;
    }
    let (quotient, peak_reachable_states, peak_certified_classes) = quotient_layer_metrics(
        &reachable,
        &values_by_row,
        n,
    );
    let layers = audit_layers(&quotient);
    proof {
        assert(quotient_layers_ok(quotient@, n as nat, peak_reachable_states, peak_certified_classes));
        let i = choose|i: int| 0 <= i < quotient@.len() && (#[trigger] quotient@[i]).reachable_states
            == peak_reachable_states;
        assert(layers@[i].reachable_states == peak_reachable_states);
        let j = choose|j: int| 0 <= j < quotient@.len() && (#[trigger] quotient@[j]).future_classes
            == peak_certified_classes;
        assert(layers@[j].certified_classes == peak_certified_classes);
        assert(layers@[0].reachable_states == quotient@[0].reachable_states);
        assert(quotient@[0].reachable_states == reachable@[0]@.len());
    }
    Ok(
        FrontierAuditResult {
            n,
            count,
            certified: true,
            peak_reachable_states,
            peak_certified_classes,
            forward_transitions,
            signature_transitions,
            witness_replay_transitions,
            quotient_edges,
            exact_signature_comparisons,
            fingerprint_collision_witnesses,
            elapsed: elapsed(&start),
            peak_rss_bytes: peak_rss_bytes(),
            layers,
        },
    )
}

} // verus!
