//! Exact counts for boards up to width 34: a breadth-first prefix seeds tail
//! tasks, which are counted with checked `u64` kernels when `N!` fits `u64`,
//! and otherwise as residues modulo word-sized primes whose product exceeds
//! `N!`, joined by the Chinese remainder theorem.
use vstd::prelude::*;

use vstd::arithmetic::power::{lemma1_pow, lemma_pow1, lemma_pow_adds, pow};

use crate::boundary::{BoundaryState, board_mask_spec, empty_state, state_fits};
use crate::certified::{
    certified_done, contract_certified_tail_last_k_u64, lemma_available_words, tail_ready, used_upto, words,
};
use crate::contract::ContractionResult;
use crate::recursive_tail::{
    RecursiveTailMetrics, RecursiveTailRelation, contract_recursive_tail, recursive_tail_positions,
    recursive_tail_successor,
};
use crate::row::{CompiledRowOperator, first_row_column, top_row_vertical_orbit_weight};
use crate::tensor::occupied_legs;
use crate::transfer::{
    accept, available_spec, board_count, cell_free, low_mask, orbit_sum, orbit_weight, paths, place,
    rooted, row_successors, row_successors_upto, sum_paths,
};
use crate::util::{elapsed, message, now, peak_rss_bytes, zero_duration};
use rayon::iter::{IntoParallelRefIterator, ParallelIterator};
use std::time::Duration;
use vstd::arithmetic::div_mod::{lemma_add_mod_noop, lemma_mul_mod_noop, lemma_mul_mod_noop_general, lemma_small_mod};

verus! {

broadcast use crate::mirror::lemma_orbit_count_exact;

/// `n!`.
pub open spec fn factorial(n: nat) -> nat
    decreases n,
{
    if n <= 1 {
        1
    } else {
        n * factorial((n - 1) as nat)
    }
}

proof fn lemma_factorial_positive(n: nat)
    ensures
        factorial(n) >= 1,
    decreases n,
{
    if n > 1 {
        lemma_factorial_positive((n - 1) as nat);
        assert(n * factorial((n - 1) as nat) >= 1) by (nonlinear_arith)
            requires
                n > 1,
                factorial((n - 1) as nat) >= 1,
        ;
    }
}

proof fn lemma_factorial_monotone(m: nat, n: nat)
    requires
        m <= n,
    ensures
        factorial(m) <= factorial(n),
    decreases n,
{
    if m < n {
        lemma_factorial_monotone(m, (n - 1) as nat);
        lemma_factorial_positive((n - 1) as nat);
        if n > 1 {
            assert(factorial((n - 1) as nat) <= n * factorial((n - 1) as nat)) by (nonlinear_arith)
                requires
                    n > 1,
                    factorial((n - 1) as nat) >= 1,
            ;
        }
    }
}

/// `n!` when it fits `u128`.
pub fn factorial_u128(n: usize) -> (f: Result<u128, String>)
    ensures
        f is Ok <==> factorial(n as nat) <= u128::MAX,
        f matches Ok(v) ==> v == factorial(n as nat),
{
    let mut product: u128 = 1;
    let mut factor: u128 = 2;
    while factor <= n as u128
        invariant
            2 <= factor,
            n >= 1 ==> factor <= n + 1,
            n == 0 ==> factor == 2,
            product == factorial((factor - 1) as nat),
        decreases n + 1 - factor,
    {
        proof {
            assert(factorial(factor as nat) == factor * factorial((factor - 1) as nat));
        }
        match product.checked_mul(factor) {
            Some(next) => {
                product = next;
            },
            None => {
                proof {
                    assert(product * factor == factor * product) by (nonlinear_arith);
                    lemma_factorial_monotone(factor as nat, n as nat);
                }
                return Err(message("N! exactness bound does not fit u128"));
            },
        }
        proof {
            assert(product == factor * factorial((factor - 1) as nat)) by (nonlinear_arith)
                requires
                    product == factorial((factor - 1) as nat) * factor,
            ;
        }
        factor = factor + 1;
    }
    Ok(product)
}

/// `value` is a prime.
pub open spec fn is_prime(value: nat) -> bool {
    value >= 2 && forall|d: nat| 2 <= d < value ==> #[trigger] (value % d) != 0
}

/// Trial division of a value below `2^32` by 2 and the odd numbers up to its
/// square root.
pub fn is_prime_u32_range(value: u64) -> (prime: bool)
    requires
        value <= u32::MAX,
    ensures
        prime == is_prime(value as nat),
{
    if value < 2 {
        return false;
    }
    if value % 2 == 0 {
        if value == 2 {
            proof {
                assert forall|d: nat| 2 <= d < 2 implies #[trigger] (2nat % d) != 0 by {
                }
            }
            return true;
        }
        proof {
            assert((value as nat) % 2 == 0);
        }
        return false;
    }
    let mut divisor: u64 = 3;
    while divisor * divisor <= value
        invariant
            3 <= divisor <= 0x1_0001,
            divisor * divisor <= 0x1_0002_0001,
            divisor % 2 == 1,
            value <= u32::MAX,
            value % 2 == 1,
            forall|d: nat| 2 <= d < divisor ==> #[trigger] ((value as nat) % d) != 0,
        decreases 0x1_0001 - divisor,
    {
        if value % divisor == 0 {
            proof {
                assert((value as nat) % (divisor as nat) == 0);
                assert(divisor < value) by (nonlinear_arith)
                    requires
                        divisor * divisor <= value,
                        divisor >= 3,
                ;
            }
            return false;
        }
        proof {
            let e = (divisor + 1) as nat;
            assert((value as nat) % e != 0) by {
                if (value as nat) % e == 0 {
                    let q = (value as nat) / e;
                    assert(value as nat == e * q) by (nonlinear_arith)
                        requires
                            (value as nat) % e == 0,
                            e > 0,
                            q == (value as nat) / e,
                    ;
                    assert(e % 2 == 0);
                    let h = e / 2;
                    assert(e == 2 * h);
                    assert(value as nat == 2 * (h * q)) by (nonlinear_arith)
                        requires
                            value as nat == e * q,
                            e == 2 * h,
                    ;
                    assert((2 * (h * q)) % 2 == 0);
                }
            }
            assert(divisor + 2 <= 0x1_0001) by (nonlinear_arith)
                requires
                    divisor * divisor <= value,
                    value <= u32::MAX,
                    divisor % 2 == 1,
            ;
            assert((divisor + 2) * (divisor + 2) <= 0x1_0002_0001) by (nonlinear_arith)
                requires
                    divisor + 2 <= 0x1_0001,
                    divisor >= 3,
            ;
        }
        divisor = divisor + 2;
    }
    proof {
        assert forall|d: nat| 2 <= d < value implies #[trigger] ((value as nat) % d) != 0 by {
            if d >= divisor && (value as nat) % d == 0 {
                let q = (value as nat) / d;
                assert(value as nat == d * q) by (nonlinear_arith)
                    requires
                        (value as nat) % d == 0,
                        d > 0,
                        q == (value as nat) / d,
                ;
                assert(q >= 2 && q < divisor) by (nonlinear_arith)
                    requires
                        value as nat == d * q,
                        d < value,
                        d >= divisor,
                        divisor * divisor > value,
                        divisor >= 3,
                ;
                assert((value as nat) % q == 0) by (nonlinear_arith)
                    requires
                        value as nat == d * q,
                        q >= 2,
                ;
            }
        }
    }
    true
}

/// The candidate word-sized moduli, in the order they are tried.
pub open spec fn crt_candidates() -> Seq<u64> {
    seq![4_294_967_291u64, 4_294_967_279u64, 4_294_967_231u64, 4_294_967_197u64]
}

fn crt_prime_candidates() -> (candidates: Vec<u64>)
    ensures
        candidates@ == crt_candidates(),
{
    let candidates: Vec<u64> = vec![4_294_967_291, 4_294_967_279, 4_294_967_231, 4_294_967_197];
    proof {
        assert(candidates@ =~= crt_candidates());
    }
    candidates
}

/// The product of a list of moduli.
pub open spec fn modulus_product(primes: Seq<u64>) -> nat
    decreases primes.len(),
{
    if primes.len() == 0 {
        1
    } else {
        modulus_product(primes.drop_last()) * (primes.last() as nat)
    }
}

/// The moduli of an exact count of the `n`-by-`n` board: the bound `n!`,
/// and the shortest prefix of prime candidates whose product exceeds it.
#[derive(Clone, Debug)]
pub struct WideCrtPlan {
    pub n: usize,
    pub factorial_bound: u128,
    pub primes: Vec<u64>,
    pub modulus_product: u128,
}

/// A plan for the `n`-by-`n` board.
pub open spec fn plan_ok(n: nat, plan: WideCrtPlan) -> bool {
    &&& plan.n == n
    &&& plan.factorial_bound == factorial(n)
    &&& 1 <= plan.primes@.len() <= 4
    &&& plan.primes@ == crt_candidates().take(plan.primes@.len() as int)
    &&& forall|i: int| 0 <= i < plan.primes@.len() ==> is_prime(#[trigger] plan.primes@[i] as nat)
    &&& plan.modulus_product == modulus_product(plan.primes@)
    &&& plan.modulus_product > factorial(n)
    &&& modulus_product(plan.primes@.drop_last()) <= factorial(n)
}

/// The plan of the wide backend for the `n`-by-`n` board, refused past
/// `n = 34`, where `n!` outgrows `u128`.
pub fn wide_crt_plan(n: usize) -> (plan: Result<WideCrtPlan, String>)
    ensures
        n > 34 ==> plan is Err,
        plan matches Ok(p) ==> plan_ok(n as nat, p),
        n <= 34 && candidates_prime_upto(factorial(n as nat)) ==> plan is Ok,
{
    if n > 34 {
        return Err(message("wide CRT backend supports N <= 34 because 35! exceeds u128"));
    }
    proof {
        lemma_candidate_products();
        lemma_factorial_34();
        lemma_factorial_monotone(n as nat, 34);
    }
    let factorial_bound = factorial_u128(n)?;
    let candidates = crt_prime_candidates();
    let mut primes: Vec<u64> = Vec::new();
    let mut product: u128 = 1;
    let mut i: usize = 0;
    proof {
        lemma_factorial_positive(n as nat);
        assert(primes@ =~= crt_candidates().take(0));
    }
    while i < candidates.len()
        invariant
            n <= 34,
            candidates@ == crt_candidates(),
            i <= 4,
            primes@ == crt_candidates().take(i as int),
            forall|k: int| 0 <= k < primes@.len() ==> is_prime(#[trigger] primes@[k] as nat),
            product == modulus_product(primes@),
            product <= factorial(n as nat),
            factorial_bound == factorial(n as nat),
            factorial(n as nat) <= factorial(34),
            factorial(34) == 295232799039604140847618609643520000000nat,
            forall|k: int| 0 <= k <= 4 ==> #[trigger] modulus_product(crt_candidates().take(k)) <= modulus_product(crt_candidates()),
            modulus_product(crt_candidates()) == 340282352184500422638831125652568561823nat,
            crt_candidates().take(4) == crt_candidates(),
        decreases 4 - i,
    {
        let prime = candidates[i];
        proof {
            assert(crt_candidates().take(i as int + 1).drop_last() =~= crt_candidates().take(i as int));
            assert(modulus_product(crt_candidates().take(i as int + 1)) == product * (prime as nat));
            assert(modulus_product(crt_candidates().take(i as int + 1)) <= modulus_product(crt_candidates()));
        }
        if !is_prime_u32_range(prime) {
            return Err(crate::util::message_with_number("CRT modulus failed deterministic primality check", prime as u128));
        }
        let ghost before = primes@;
        primes.push(prime);
        proof {
            assert(primes@ =~= crt_candidates().take(i as int + 1));
            assert(primes@.drop_last() =~= before);
        }
        product = match product.checked_mul(prime as u128) {
            Some(p) => p,
            None => {
                return Err(message("CRT modulus product overflow"));
            },
        };
        i = i + 1;
        if product > factorial_bound {
            return Ok(WideCrtPlan { n, factorial_bound, primes, modulus_product: product });
        }
    }
    proof {
        assert(primes@ == crt_candidates());
    }
    Err(message("available certified CRT product does not exceed N! bound"))
}

/// Each candidate needed while the product of the earlier ones is at most
/// `bound` is a prime.
pub open spec fn candidates_prime_upto(bound: nat) -> bool {
    forall|k: int|
        0 <= k < 4 && modulus_product(crt_candidates().take(k)) <= bound ==> is_prime(
            #[trigger] crt_candidates()[k] as nat,
        )
}

#[verifier::spinoff_prover]
proof fn lemma_candidate_products()
    ensures
        forall|k: int| 0 <= k <= 4 ==> #[trigger] modulus_product(crt_candidates().take(k)) <= modulus_product(crt_candidates()),
        modulus_product(crt_candidates()) == 340282352184500422638831125652568561823nat,
        crt_candidates().take(4) == crt_candidates(),
{
    let c = crt_candidates();
    assert(c.take(4) =~= c);
    assert(c.take(0) =~= Seq::<u64>::empty());
    assert(c.take(1).drop_last() =~= c.take(0));
    assert(c.take(2).drop_last() =~= c.take(1));
    assert(c.take(3).drop_last() =~= c.take(2));
    assert(c.take(4).drop_last() =~= c.take(3));
    assert(c.take(1).last() == c[0]);
    assert(c.take(2).last() == c[1]);
    assert(c.take(3).last() == c[2]);
    assert(modulus_product(c.take(0)) == 1);
    assert(c.take(1).last() == 4294967291u64);
    assert(c.take(2).last() == 4294967279u64);
    assert(c.take(3).last() == 4294967231u64);
    assert(c.take(4).last() == 4294967197u64);
    assert(modulus_product(c.take(1)) == 4294967291nat);
    assert(modulus_product(c.take(2)) == 18446743979220271189nat);
    assert(modulus_product(c.take(3)) == 79228160909397609687688407659nat);
    assert(modulus_product(c.take(4)) == 340282352184500422638831125652568561823nat);
}

/// `n!` fits `u128` up to `n = 21`.
pub proof fn lemma_factorial_at_most_21(n: nat)
    requires
        n <= 21,
    ensures
        factorial(n) <= 51090942171709440000nat,
{
    assert(factorial(1) == 1nat);
    assert(factorial(2) == 2nat);
    assert(factorial(3) == 6nat);
    assert(factorial(4) == 24nat);
    assert(factorial(5) == 120nat);
    assert(factorial(6) == 720nat);
    assert(factorial(7) == 5040nat);
    assert(factorial(8) == 40320nat);
    assert(factorial(9) == 362880nat);
    assert(factorial(10) == 3628800nat);
    assert(factorial(11) == 39916800nat);
    assert(factorial(12) == 479001600nat);
    assert(factorial(13) == 6227020800nat);
    assert(factorial(14) == 87178291200nat);
    assert(factorial(15) == 1307674368000nat);
    assert(factorial(16) == 20922789888000nat);
    assert(factorial(17) == 355687428096000nat);
    assert(factorial(18) == 6402373705728000nat);
    assert(factorial(19) == 121645100408832000nat);
    assert(factorial(20) == 2432902008176640000nat);
    assert(factorial(21) == 51090942171709440000nat);
    lemma_factorial_monotone(n, 21);
}

proof fn lemma_factorial_34()
    ensures
        factorial(34) == 295232799039604140847618609643520000000nat,
{
    assert(factorial(1) == 1nat);
    assert(factorial(2) == 2nat);
    assert(factorial(3) == 6nat);
    assert(factorial(4) == 24nat);
    assert(factorial(5) == 120nat);
    assert(factorial(6) == 720nat);
    assert(factorial(7) == 5040nat);
    assert(factorial(8) == 40320nat);
    assert(factorial(9) == 362880nat);
    assert(factorial(10) == 3628800nat);
    assert(factorial(11) == 39916800nat);
    assert(factorial(12) == 479001600nat);
    assert(factorial(13) == 6227020800nat);
    assert(factorial(14) == 87178291200nat);
    assert(factorial(15) == 1307674368000nat);
    assert(factorial(16) == 20922789888000nat);
    assert(factorial(17) == 355687428096000nat);
    assert(factorial(18) == 6402373705728000nat);
    assert(factorial(19) == 121645100408832000nat);
    assert(factorial(20) == 2432902008176640000nat);
    assert(factorial(21) == 51090942171709440000nat);
    assert(factorial(22) == 1124000727777607680000nat);
    assert(factorial(23) == 25852016738884976640000nat);
    assert(factorial(24) == 620448401733239439360000nat);
    assert(factorial(25) == 15511210043330985984000000nat);
    assert(factorial(26) == 403291461126605635584000000nat);
    assert(factorial(27) == 10888869450418352160768000000nat);
    assert(factorial(28) == 304888344611713860501504000000nat);
    assert(factorial(29) == 8841761993739701954543616000000nat);
    assert(factorial(30) == 265252859812191058636308480000000nat);
    assert(factorial(31) == 8222838654177922817725562880000000nat);
    assert(factorial(32) == 263130836933693530167218012160000000nat);
    assert(factorial(33) == 8683317618811886495518194401280000000nat);
    assert(factorial(34) == 295232799039604140847618609643520000000nat);
}

/// One tail task: a frontier and the weight of the prefix paths reaching it.
#[derive(Clone, Copy, Debug, PartialEq, Eq, Structural)]
pub struct WideCrtTask {
    pub state: BoundaryState,
    pub orbit_weight: u64,
}

/// The weighted completions of every task over `remaining` rows.
pub open spec fn task_sum(tasks: Seq<WideCrtTask>, n: nat, remaining: nat) -> nat
    decreases tasks.len(),
{
    if tasks.len() == 0 {
        0
    } else {
        task_sum(tasks.drop_last(), n, remaining) + (tasks.last().orbit_weight as nat) * paths(
            n,
            remaining,
            tasks.last().state,
            accept(n),
        )
    }
}

/// Every task is a frontier reached after `depth` rows.
pub open spec fn tasks_ready(tasks: Seq<WideCrtTask>, n: nat, depth: nat) -> bool {
    forall|i: int| 0 <= i < tasks.len() ==> tail_ready(n, (n - depth) as nat, (#[trigger] tasks[i]).state)
}

proof fn lemma_task_sum_push(tasks: Seq<WideCrtTask>, task: WideCrtTask, n: nat, remaining: nat)
    ensures
        task_sum(tasks.push(task), n, remaining) == task_sum(tasks, n, remaining) + (task.orbit_weight as nat)
            * paths(n, remaining, task.state, accept(n)),
{
    assert(tasks.push(task).drop_last() =~= tasks);
}

proof fn lemma_task_sum_take(tasks: Seq<WideCrtTask>, i: int, n: nat, remaining: nat)
    requires
        0 <= i < tasks.len(),
    ensures
        task_sum(tasks.take(i + 1), n, remaining) == task_sum(tasks.take(i), n, remaining) + (tasks[i].orbit_weight as nat)
            * paths(n, remaining, tasks[i].state, accept(n)),
{
    assert(tasks.take(i + 1).drop_last() =~= tasks.take(i));
}

/// No bit of zero is set.
proof fn lemma_used_zero(k: nat)
    requires
        k <= 64,
    ensures
        used_upto(0, k) == 0,
    decreases k,
{
    if k > 0 {
        lemma_used_zero((k - 1) as nat);
        crate::certified::lemma_zero_bit((k - 1) as nat);
    }
}

/// The prefix tasks after `split_depth` rows, expanded breadth first from the
/// empty frontier (by reflection orbits on the first row) until there are
/// at least `target_tail_tasks` of them or the board is filled, with the
/// calls made, the entries applied and the tasks kept.
pub fn build_wide_crt_tasks(
    n: usize,
    relation: RecursiveTailRelation,
    board_mask: u64,
    target_tail_tasks: usize,
) -> (built: Result<(Vec<WideCrtTask>, usize, u128, u128, u128), String>)
    requires
        1 <= n <= 34,
        relation.legs == occupied_legs(),
        relation.value == 1,
        board_mask == board_mask_spec(n as nat),
    ensures
        built is Ok,
        built matches Ok(r) ==> {
            &&& r.1 <= n
            &&& tasks_ready(r.0@, n as nat, r.1 as nat)
            &&& task_sum(r.0@, n as nat, (n - r.1) as nat) == board_count(n as nat, r.1 > 0)
        },
{
    let ghost nn = n as nat;
    let ghost f = accept(nn);
    let initial = WideCrtTask { state: BoundaryState { columns: 0, diag_dr: 0, diag_dl: 0 }, orbit_weight: 1 };
    let mut tasks: Vec<WideCrtTask> = vec![initial];
    proof {
        crate::contract::lemma_empty_fits(nn);
        lemma_used_zero(nn);
        assert(tasks@[0] == initial);
        assert(tasks@.drop_last() =~= Seq::<WideCrtTask>::empty());
        assert(tasks@.last() == initial);
        assert(task_sum(tasks@.drop_last(), nn, nn) == 0);
        assert(tasks@.last().state == empty_state());
        let p = paths(nn, nn, empty_state(), f);
        assert((tasks@.last().orbit_weight as nat) * p == p) by (nonlinear_arith)
            requires
                tasks@.last().orbit_weight == 1,
        ;
        assert(task_sum(tasks@, nn, nn) == p);
    }
    let mut split_depth: usize = 0;
    let mut prefix_nodes: u128 = 0;
    let mut prefix_accepted_entries: u128 = 0;
    let mut prefix_kept_entries: u128 = 0;
    while split_depth < n && tasks.len() < target_tail_tasks
        invariant
            1 <= n <= 34,
            nn == n,
            f == accept(nn),
            relation.legs == occupied_legs(),
            relation.value == 1,
            board_mask == board_mask_spec(nn),
            split_depth <= n,
            tasks_ready(tasks@, nn, split_depth as nat),
            task_sum(tasks@, nn, (n - split_depth) as nat) == board_count(nn, split_depth > 0),
            split_depth == 0 ==> tasks@ == seq![initial],
            initial == (WideCrtTask { state: empty_state(), orbit_weight: 1 }),
            forall|i: int| 0 <= i < tasks@.len() ==> (#[trigger] tasks@[i]).orbit_weight <= 2,
            prefix_nodes <= split_depth * 0x1_0000_0000_0000_0000,
            prefix_accepted_entries <= n * prefix_nodes,
            prefix_kept_entries <= prefix_accepted_entries,
        decreases n - split_depth,
    {
        let top_row = split_depth == 0;
        let ghost r = (n - split_depth) as nat;
        let mut next: Vec<WideCrtTask> = Vec::new();
        let mut ti: usize = 0;
        while ti < tasks.len()
            invariant
                1 <= n <= 34,
                nn == n,
                f == accept(nn),
                relation.legs == occupied_legs(),
                relation.value == 1,
                board_mask == board_mask_spec(nn),
                split_depth < n,
                r == n - split_depth,
                top_row == (split_depth == 0),
                top_row ==> tasks@ == seq![initial],
                initial == (WideCrtTask { state: empty_state(), orbit_weight: 1 }),
                tasks_ready(tasks@, nn, split_depth as nat),
                ti <= tasks@.len(),
                tasks_ready(next@, nn, (split_depth + 1) as nat),
                forall|i: int| 0 <= i < tasks@.len() ==> (#[trigger] tasks@[i]).orbit_weight <= 2,
                forall|i: int| 0 <= i < next@.len() ==> (#[trigger] next@[i]).orbit_weight <= 2,
                prefix_nodes <= split_depth * 0x1_0000_0000_0000_0000 + ti,
                prefix_accepted_entries <= n * prefix_nodes,
                prefix_kept_entries <= prefix_accepted_entries,
                !top_row ==> task_sum(next@, nn, (r - 1) as nat) == task_sum(tasks@.take(ti as int), nn, r),
                top_row ==> task_sum(next@, nn, (r - 1) as nat) == if ti == 0 {
                    0
                } else {
                    orbit_sum(nn, (nn - 1) as nat, f, nn)
                },
            decreases tasks@.len() - ti,
        {
            let task = tasks[ti];
            let ghost s = task.state;
            let ghost w = task.orbit_weight as nat;
            let ghost base = task_sum(next@, nn, (r - 1) as nat);
            proof {
                assert(tail_ready(nn, r, s));
                assert(tasks@[ti as int].orbit_weight <= 2);
                if top_row {
                    assert(task == initial);
                }
            }
            prefix_nodes = match prefix_nodes.checked_add(1) {
                Some(v) => v,
                None => {
                    return Err(message("wide CRT prefix node counter overflow"));
                },
            };
            let mut positions = recursive_tail_positions(task.state, relation, board_mask);
            let ghost avail = available_spec(nn, s);
            proof {
                assert(positions == avail);
                crate::sitewise::lemma_no_low_bits(avail);
                if top_row {
                    assert forall|c: nat| c < nn implies #[trigger] crate::boundary::has_bit(avail, c) by {
                        crate::transfer::lemma_available_bit(nn, s, c);
                        crate::certified::lemma_zero_bit(c);
                    }
                }
            }
            let ghost mut k: nat = 0;
            proof {
                assert(row_successors_upto(nn, s, 0) =~= Seq::<BoundaryState>::empty());
                assert(sum_paths(nn, (r - 1) as nat, row_successors_upto(nn, s, 0), f) == 0);
                assert(w * 0 == 0) by (nonlinear_arith);
                assert(avail & !low_mask(0) == avail) by {
                    crate::sitewise::lemma_no_low_bits(avail);
                }
            }
            while positions != 0
                invariant
                    1 <= n <= 34,
                    nn == n,
                    f == accept(nn),
                    relation.legs == occupied_legs(),
                    relation.value == 1,
                    board_mask == board_mask_spec(nn),
                    split_depth < n,
                    r == n - split_depth,
                    top_row == (split_depth == 0),
                    top_row ==> s == empty_state() && w == 1,
                    top_row ==> forall|c: nat| c < nn ==> #[trigger] crate::boundary::has_bit(avail, c),
                    s == task.state,
                    w == task.orbit_weight,
                    tail_ready(nn, r, s),
                    k <= n,
                    avail == available_spec(nn, s),
                    positions == avail & !low_mask(k),
                    tasks_ready(next@, nn, (split_depth + 1) as nat),
                    w <= 2,
                    forall|i: int| 0 <= i < next@.len() ==> (#[trigger] next@[i]).orbit_weight <= 2,
                    1 <= prefix_nodes <= split_depth * 0x1_0000_0000_0000_0000 + ti + 1,
                    ti < tasks@.len(),
                    prefix_accepted_entries <= n * (prefix_nodes - 1) + k,
                    prefix_kept_entries <= prefix_accepted_entries,
                    !top_row ==> task_sum(next@, nn, (r - 1) as nat) == base + w * sum_paths(
                        nn,
                        (r - 1) as nat,
                        row_successors_upto(nn, s, k),
                        f,
                    ),
                    top_row ==> task_sum(next@, nn, (r - 1) as nat) == base + orbit_sum(nn, (nn - 1) as nat, f, k),
                    top_row ==> base == 0,
                decreases positions,
            {
                let negated = 0u64.wrapping_sub(positions);
                let selected = positions & negated;
                let ghost t = crate::certified::lemma_scan_next(nn, s, avail, positions, negated, k);
                proof {
                    crate::joint::lemma_shift_positive(t as u64);
                    assert(n * (prefix_nodes - 1) + k + 1 <= u128::MAX) by (nonlinear_arith)
                        requires
                            n <= 34,
                            1 <= prefix_nodes <= 35 * 0x1_0000_0000_0000_0000,
                            k <= 34,
                    ;
                }
                positions = positions & (positions - 1);
                prefix_accepted_entries = match prefix_accepted_entries.checked_add(1) {
                    Some(v) => v,
                    None => {
                        return Err(message("wide CRT prefix accepted counter overflow"));
                    },
                };
                let successor = recursive_tail_successor(task.state, selected, relation, board_mask);
                proof {
                    vstd::std_specs::bits::axiom_u64_trailing_zeros(selected);
                    crate::transfer::lemma_trailing_zeros_of_bit(t as u64);
                    assert(successor == place(nn, s, t));
                    crate::certified::lemma_place_used(nn, s, t);
                    crate::transfer::lemma_place_fits(nn, s, t);
                    if top_row {
                        assert(t == k) by {
                            if t > k {
                                assert(crate::boundary::has_bit(avail, k));
                                crate::transfer::lemma_available_bit(nn, s, k);
                                assert(!cell_free(s, k));
                            }
                        }
                        crate::transfer::lemma_first_row_column(nn, t);
                    }
                }
                let orbit: u64 = if top_row {
                    match top_row_vertical_orbit_weight(n, successor) {
                        None => {
                            proof {
                                assert(orbit_weight(nn, t) == 0);
                                assert(0 * paths(nn, (nn - 1) as nat, place(nn, empty_state(), t), f) == 0);
                                assert(orbit_sum(nn, (nn - 1) as nat, f, t + 1) == orbit_sum(nn, (nn - 1) as nat, f, t));
                                k = t + 1;
                            }
                            continue;
                        },
                        Some(weight) => {
                            if weight > u64::MAX as u128 {
                                return Err(message("wide CRT orbit weight does not fit u64"));
                            }
                            weight as u64
                        },
                    }
                } else {
                    1
                };
                if relation.value > u64::MAX as u128 {
                    return Err(message("wide CRT local C value does not fit u64"));
                }
                let local_value = relation.value as u64;
                let weight = match task.orbit_weight.checked_mul(orbit) {
                    Some(v) => match v.checked_mul(local_value) {
                        Some(v2) => v2,
                        None => {
                            return Err(message("wide CRT prefix weight overflow"));
                        },
                    },
                    None => {
                        return Err(message("wide CRT prefix weight overflow"));
                    },
                };
                let ghost before = next@;
                next.push(WideCrtTask { state: successor, orbit_weight: weight });
                proof {
                    lemma_task_sum_push(before, WideCrtTask { state: successor, orbit_weight: weight }, nn, (r - 1) as nat);
                    assert forall|i: int| 0 <= i < next@.len() implies tail_ready(
                        nn,
                        (nn - (split_depth + 1)) as nat,
                        (#[trigger] next@[i]).state,
                    ) by {
                        if i < before.len() {
                            assert(next@[i] == before[i]);
                        }
                    }
                    let succ = row_successors_upto(nn, s, t + 1);
                    assert(succ.drop_last() == row_successors_upto(nn, s, k));
                    if top_row {
                        assert(weight as nat == orbit_weight(nn, t));
                    } else {
                        assert(weight == task.orbit_weight);
                        assert(w * sum_paths(nn, (r - 1) as nat, succ, f) == w * sum_paths(
                            nn,
                            (r - 1) as nat,
                            row_successors_upto(nn, s, k),
                            f,
                        ) + w * paths(nn, (r - 1) as nat, successor, f)) by (nonlinear_arith)
                            requires
                                sum_paths(nn, (r - 1) as nat, succ, f) == sum_paths(
                                    nn,
                                    (r - 1) as nat,
                                    row_successors_upto(nn, s, k),
                                    f,
                                ) + paths(nn, (r - 1) as nat, successor, f),
                        ;
                    }
                    k = t + 1;
                }
                prefix_kept_entries = match prefix_kept_entries.checked_add(1) {
                    Some(v) => v,
                    None => {
                        return Err(message("wide CRT prefix kept counter overflow"));
                    },
                };
            }
            proof {
                crate::certified::lemma_scan_done(nn, s, avail, k);
                lemma_task_sum_take(tasks@, ti as int, nn, r);
                assert(paths(nn, r, s, f) == paths(nn, ((r - 1) + 1) as nat, s, f));
                if top_row {
                    assert(k == nn) by {
                        if k < nn {
                            assert(crate::boundary::has_bit(avail, k));
                            crate::transfer::lemma_scan_bounds(avail, avail & !low_mask(k), k);
                        }
                    }
                }
                assert(n * (prefix_nodes - 1) + k <= n * prefix_nodes) by (nonlinear_arith)
                    requires
                        k <= n,
                        prefix_nodes >= 1,
                ;
            }
            ti = ti + 1;
        }
        proof {
            assert(tasks@.take(ti as int) =~= tasks@);
            if top_row {
                assert(task_sum(next@, nn, (r - 1) as nat) == board_count(nn, true));
            }
            assert(ti <= 0x1_0000_0000_0000_0000);
        }
        tasks = next;
        split_depth = split_depth + 1;
    }
    Ok((tasks, split_depth, prefix_nodes, prefix_accepted_entries, prefix_kept_entries))
}


/// Every frontier below a row of a ready frontier is ready one row further.
proof fn lemma_successors_ready(n: nat, s: BoundaryState, r: nat, k: nat)
    requires
        tail_ready(n, r, s),
        r >= 1,
        k <= n,
    ensures
        forall|i: int|
            0 <= i < row_successors_upto(n, s, k).len() ==> tail_ready(
                n,
                (r - 1) as nat,
                #[trigger] row_successors_upto(n, s, k)[i],
            ),
    decreases k,
{
    if k > 0 {
        let c = (k - 1) as nat;
        lemma_successors_ready(n, s, r, c);
        let prev = row_successors_upto(n, s, c);
        let succ = row_successors_upto(n, s, k);
        if cell_free(s, c) {
            crate::certified::lemma_place_used(n, s, c);
            crate::transfer::lemma_place_fits(n, s, c);
            assert forall|i: int| 0 <= i < succ.len() implies tail_ready(n, (r - 1) as nat, #[trigger] succ[i]) by {
                if i < prev.len() {
                    assert(succ[i] == prev[i]);
                }
            }
        } else {
            assert(succ =~= prev);
        }
    }
}

/// A ready frontier with `r` rows left has at most `r!` completions: each
/// row offers at most as many columns as are still unused.
pub proof fn lemma_paths_factorial(n: nat, r: nat, s: BoundaryState)
    requires
        tail_ready(n, r, s),
    ensures
        paths(n, r, s, accept(n)) <= factorial(r),
    decreases r, 0nat,
{
    if r > 0 {
        let succ = row_successors(n, s);
        let fr = factorial((r - 1) as nat);
        lemma_successors_ready(n, s, r, n);
        crate::certified::lemma_successors_unused(n, s, n);
        lemma_sum_paths_factorial(n, (r - 1) as nat, succ);
        assert(succ.len() * fr <= r * fr) by (nonlinear_arith)
            requires
                succ.len() <= r,
        ;
        if r == 1 {
            assert(fr == 1);
            assert(r * fr == 1) by (nonlinear_arith)
                requires
                    r == 1,
                    fr == 1,
            ;
        } else {
            assert(factorial(r) == r * fr);
        }
    }
}

proof fn lemma_sum_paths_factorial(n: nat, j: nat, states: Seq<BoundaryState>)
    requires
        forall|i: int| 0 <= i < states.len() ==> tail_ready(n, j, #[trigger] states[i]),
    ensures
        sum_paths(n, j, states, accept(n)) <= states.len() * factorial(j),
    decreases j, states.len() + 1,
{
    if states.len() > 0 {
        let a = states.drop_last();
        let fj = factorial(j);
        assert forall|i: int| 0 <= i < a.len() implies tail_ready(n, j, #[trigger] a[i]) by {
            assert(a[i] == states[i]);
        }
        lemma_sum_paths_factorial(n, j, a);
        lemma_paths_factorial(n, j, states[states.len() - 1]);
        assert(a.len() * fj + fj == states.len() * fj) by (nonlinear_arith)
            requires
                a.len() + 1 == states.len(),
        ;
    }
}

/// The orbit multiplicities of the first `k` columns of the first row.
pub open spec fn orbit_total(n: nat, k: nat) -> nat
    decreases k,
{
    if k == 0 {
        0
    } else {
        orbit_total(n, (k - 1) as nat) + orbit_weight(n, (k - 1) as nat)
    }
}

proof fn lemma_orbit_total(n: nat, k: nat)
    ensures
        orbit_total(n, k) == if 2 * k <= n {
            2 * k
        } else {
            n
        },
    decreases k,
{
    if k > 0 {
        lemma_orbit_total(n, (k - 1) as nat);
    }
}

proof fn lemma_orbit_sum_bound(n: nat, k: nat)
    requires
        1 <= n <= 42,
        k <= n,
    ensures
        orbit_sum(n, (n - 1) as nat, accept(n), k) <= orbit_total(n, k) * factorial((n - 1) as nat),
    decreases k,
{
    if k > 0 {
        let c = (k - 1) as nat;
        let fr = factorial((n - 1) as nat);
        let e = empty_state();
        lemma_orbit_sum_bound(n, c);
        lemma_used_zero(n);
        crate::contract::lemma_empty_fits(n);
        crate::certified::lemma_zero_bit(c);
        crate::certified::lemma_place_used(n, e, c);
        crate::transfer::lemma_place_fits(n, e, c);
        let p = paths(n, (n - 1) as nat, place(n, e, c), accept(n));
        lemma_paths_factorial(n, (n - 1) as nat, place(n, e, c));
        let w = orbit_weight(n, c);
        assert(w * p <= w * fr) by (nonlinear_arith)
            requires
                p <= fr,
        ;
        assert(orbit_total(n, c) * fr + w * fr == orbit_total(n, k) * fr) by (nonlinear_arith)
            requires
                orbit_total(n, k) == orbit_total(n, c) + w,
        ;
    }
}

/// The count of the `n`-by-`n` board, by either root, is at most `n!`.
pub proof fn lemma_board_count_factorial(n: nat, symmetric: bool)
    requires
        n <= 42,
    ensures
        board_count(n, symmetric) <= factorial(n),
{
    if n > 0 {
        let fr = factorial((n - 1) as nat);
        lemma_used_zero(n);
        crate::contract::lemma_empty_fits(n);
        if symmetric {
            lemma_orbit_sum_bound(n, n);
            lemma_orbit_total(n, n);
            if n == 1 {
                assert(fr == 1);
                assert(n * fr == 1) by (nonlinear_arith)
                    requires
                        n == 1,
                        fr == 1,
                ;
            } else {
                assert(n * fr == factorial(n));
            }
        } else {
            lemma_paths_factorial(n, n, empty_state());
        }
    }
}

/// Word-sized moduli: each at least two and below `2^32`.
pub open spec fn lanes_ok(primes: Seq<u64>) -> bool {
    forall|i: int| 0 <= i < primes.len() ==> 2 <= #[trigger] primes[i] < 0x1_0000_0000
}

/// `residues` holds `value` modulo each of `primes`, in order.
pub open spec fn residues_of(value: nat, primes: Seq<u64>, residues: Seq<u64>) -> bool {
    &&& residues.len() == primes.len()
    &&& forall|i: int| 0 <= i < primes.len() ==> #[trigger] residues[i] == value % (primes[i] as nat)
}

/// The sum of two residues modulo `prime`.
fn add_residue(left: u64, right: u64, prime: u64) -> (sum: u64)
    requires
        left < prime,
        right < prime,
        prime < 0x1_0000_0000,
    ensures
        sum == (left as nat + right as nat) % (prime as nat),
{
    let sum = left + right;
    if sum >= prime {
        proof {
            vstd::arithmetic::div_mod::lemma_fundamental_div_mod_converse(sum as int, prime as int, 1, sum - prime);
        }
        sum - prime
    } else {
        proof {
            lemma_small_mod(sum as nat, prime as nat);
        }
        sum
    }
}

/// The residue lanes of `value` modulo each of `primes`.
fn residues_of_value(value: u64, primes: &Vec<u64>) -> (residues: Vec<u64>)
    requires
        lanes_ok(primes@),
    ensures
        residues_of(value as nat, primes@, residues@),
{
    let mut residues: Vec<u64> = Vec::new();
    let mut lane: usize = 0;
    while lane < primes.len()
        invariant
            lane <= primes@.len(),
            lanes_ok(primes@),
            residues@.len() == lane,
            forall|i: int| 0 <= i < lane ==> #[trigger] residues@[i] == (value as nat) % (primes@[i] as nat),
        decreases primes@.len() - lane,
    {
        residues.push(value % primes[lane]);
        lane = lane + 1;
    }
    residues
}

/// The completions of a ready frontier over `remaining_rows` rows modulo
/// each of the moduli: the last four rows exactly in `u64`, the rows above
/// by summing the residues of the children lane by lane.
fn contract_wide_crt_tail(
    Ghost(n): Ghost<nat>,
    remaining_rows: usize,
    columns: u64,
    diag_dr: u64,
    diag_dl: u64,
    board_mask: u64,
    primes: &Vec<u64>,
) -> (residues: Vec<u64>)
    requires
        tail_ready(n, remaining_rows as nat, words(columns, diag_dr, diag_dl)),
        board_mask == board_mask_spec(n),
        lanes_ok(primes@),
    ensures
        residues_of(paths(n, remaining_rows as nat, words(columns, diag_dr, diag_dl), accept(n)), primes@, residues@),
    decreases remaining_rows,
{
    let ghost s = words(columns, diag_dr, diag_dl);
    let ghost f = accept(n);
    if remaining_rows <= 4 {
        proof {
            lemma_paths_factorial(n, remaining_rows as nat, s);
            lemma_factorial_monotone(remaining_rows as nat, 4);
            reveal_with_fuel(factorial, 5);
        }
        let exact = contract_certified_tail_last_k_u64::<4>(
            Ghost(n),
            remaining_rows,
            columns,
            diag_dr,
            diag_dl,
            board_mask,
            u64::MAX,
        ).unwrap();
        return residues_of_value(exact, primes);
    }
    let mut total: Vec<u64> = residues_of_value(0, primes);
    let mut positions = !(columns | diag_dr | diag_dl) & board_mask;
    let ghost avail = available_spec(n, s);
    proof {
        lemma_available_words(columns, diag_dr, diag_dl, board_mask);
        crate::sitewise::lemma_no_low_bits(avail);
        assert(row_successors_upto(n, s, 0) =~= Seq::<BoundaryState>::empty());
    }
    let ghost mut k: nat = 0;
    let ghost r = (remaining_rows - 1) as nat;
    while positions != 0
        invariant
            tail_ready(n, remaining_rows as nat, s),
            s == words(columns, diag_dr, diag_dl),
            f == accept(n),
            board_mask == board_mask_spec(n),
            lanes_ok(primes@),
            remaining_rows >= 5,
            r == remaining_rows - 1,
            k <= n,
            avail == available_spec(n, s),
            positions == avail & !low_mask(k),
            residues_of(sum_paths(n, r, row_successors_upto(n, s, k), f), primes@, total@),
        decreases positions,
    {
        let negated = 0u64.wrapping_sub(positions);
        let selected = positions & negated;
        let ghost t = crate::certified::lemma_scan_next(n, s, avail, positions, negated, k);
        positions = positions & (positions - 1);
        let (next_columns, next_dr, next_dl) = crate::certified::certified_tail_successor(
            columns,
            diag_dr,
            diag_dl,
            selected,
            board_mask,
        );
        let ghost child_state = place(n, s, t);
        let ghost before = sum_paths(n, r, row_successors_upto(n, s, k), f);
        proof {
            assert(words(next_columns, next_dr, next_dl) == child_state);
            crate::certified::lemma_place_used(n, s, t);
            crate::transfer::lemma_place_fits(n, s, t);
            let succ = row_successors_upto(n, s, t + 1);
            assert(succ.drop_last() == row_successors_upto(n, s, k));
            assert(sum_paths(n, r, succ, f) == before + paths(n, r, child_state, f));
        }
        let child = contract_wide_crt_tail(Ghost(n), remaining_rows - 1, next_columns, next_dr, next_dl, board_mask, primes);
        let ghost cp = paths(n, r, child_state, f);
        let mut lane: usize = 0;
        while lane < primes.len()
            invariant
                lanes_ok(primes@),
                lane <= primes@.len(),
                total@.len() == primes@.len(),
                residues_of(cp, primes@, child@),
                forall|i: int| 0 <= i < lane ==> #[trigger] total@[i] == (before + cp) % (primes@[i] as nat),
                forall|i: int| lane <= i < primes@.len() ==> #[trigger] total@[i] == before % (primes@[i] as nat),
            decreases primes@.len() - lane,
        {
            let ghost p = primes@[lane as int] as int;
            proof {
                lemma_add_mod_noop(before as int, cp as int, p);
            }
            let updated = add_residue(total[lane], child[lane], primes[lane]);
            total.set(lane, updated);
            lane = lane + 1;
        }
        proof {
            k = t + 1;
        }
    }
    proof {
        crate::certified::lemma_scan_done(n, s, avail, k);
        assert(paths(n, remaining_rows as nat, s, f) == paths(n, (r + 1) as nat, s, f));
    }
    total
}

/// The residues of one task: its completions times its weight, modulo each
/// of the moduli.
pub fn wide_crt_task(
    task: WideCrtTask,
    n: usize,
    split_depth: usize,
    board_mask: u64,
    primes: &Vec<u64>,
) -> (residues: Vec<u64>)
    requires
        split_depth <= n,
        tail_ready(n as nat, (n - split_depth) as nat, task.state),
        board_mask == board_mask_spec(n as nat),
        lanes_ok(primes@),
    ensures
        residues_of(
            (task.orbit_weight as nat) * paths(n as nat, (n - split_depth) as nat, task.state, accept(n as nat)),
            primes@,
            residues@,
        ),
{
    let ghost c = paths(n as nat, (n - split_depth) as nat, task.state, accept(n as nat));
    let ghost w = task.orbit_weight as nat;
    proof {
        assert(words(task.state.columns, task.state.diag_dr, task.state.diag_dl) == task.state);
    }
    let tail = contract_wide_crt_tail(
        Ghost(n as nat),
        n - split_depth,
        task.state.columns,
        task.state.diag_dr,
        task.state.diag_dl,
        board_mask,
        primes,
    );
    let mut residues: Vec<u64> = Vec::new();
    let mut lane: usize = 0;
    while lane < primes.len()
        invariant
            lane <= primes@.len(),
            lanes_ok(primes@),
            residues_of(c, primes@, tail@),
            w == task.orbit_weight,
            residues@.len() == lane,
            forall|i: int| 0 <= i < lane ==> #[trigger] residues@[i] == (w * c) % (primes@[i] as nat),
        decreases primes@.len() - lane,
    {
        let prime = primes[lane];
        let residue = tail[lane];
        proof {
            assert((residue as nat) * w <= u128::MAX) by (nonlinear_arith)
                requires
                    residue <= u64::MAX,
                    w <= u64::MAX,
            ;
        }
        let product = (residue as u128) * (task.orbit_weight as u128);
        let reduced = product % (prime as u128);
        proof {
            assert(residue == c % (prime as nat));
            lemma_mul_mod_noop_general(c as int, w as int, prime as int);
            assert((c * w) == (w * c)) by (nonlinear_arith);
            assert(reduced == (w * c) % (prime as nat));
        }
        let ghost before = residues@;
        residues.push(reduced as u64);
        proof {
            assert forall|i: int| 0 <= i < lane + 1 implies #[trigger] residues@[i] == (w * c) % (primes@[i] as nat) by {
                if i < lane {
                    assert(residues@[i] == before[i]);
                }
            }
        }
        lane = lane + 1;
    }
    residues
}

/// Counts each task with `wide_crt_task`, the tasks in parallel through
/// rayon's `par_iter`, `map` and `collect`, which calls the closure once on
/// each task and returns the results in the order of the tasks.
/// Stated: one result per task, each what `wide_crt_task` ensures of it.
#[verifier::external_body]
fn par_wide_crt_tasks(
    tasks: &Vec<WideCrtTask>,
    n: usize,
    split_depth: usize,
    board_mask: u64,
    primes: &Vec<u64>,
) -> (results: Vec<Vec<u64>>)
    requires
        split_depth <= n,
        tasks_ready(tasks@, n as nat, split_depth as nat),
        board_mask == board_mask_spec(n as nat),
        lanes_ok(primes@),
    ensures
        results@.len() == tasks@.len(),
        forall|i: int|
            0 <= i < tasks@.len() ==> residues_of(
                ((#[trigger] tasks@[i]).orbit_weight as nat) * paths(
                    n as nat,
                    (n - split_depth) as nat,
                    tasks@[i].state,
                    accept(n as nat),
                ),
                primes@,
                results@[i]@,
            ),
{
    tasks.par_iter().map(|&task| wide_crt_task(task, n, split_depth, board_mask, primes)).collect()
}

/// The weighted completions of every task modulo each of the moduli.
fn contract_wide_crt_tasks(
    tasks: &Vec<WideCrtTask>,
    n: usize,
    split_depth: usize,
    board_mask: u64,
    primes: &Vec<u64>,
) -> (residues: Vec<u64>)
    requires
        split_depth <= n,
        tasks_ready(tasks@, n as nat, split_depth as nat),
        board_mask == board_mask_spec(n as nat),
        lanes_ok(primes@),
    ensures
        residues_of(task_sum(tasks@, n as nat, (n - split_depth) as nat), primes@, residues@),
{
    let ghost r = (n - split_depth) as nat;
    let partials = par_wide_crt_tasks(tasks, n, split_depth, board_mask, primes);
    let mut total = residues_of_value(0, primes);
    let mut ti: usize = 0;
    proof {
        assert(tasks@.take(0) =~= Seq::<WideCrtTask>::empty());
    }
    while ti < partials.len()
        invariant
            lanes_ok(primes@),
            partials@.len() == tasks@.len(),
            ti <= tasks@.len(),
            r == n - split_depth,
            forall|i: int|
                0 <= i < tasks@.len() ==> residues_of(
                    ((#[trigger] tasks@[i]).orbit_weight as nat) * paths(n as nat, r, tasks@[i].state, accept(n as nat)),
                    primes@,
                    partials@[i]@,
                ),
            residues_of(task_sum(tasks@.take(ti as int), n as nat, r), primes@, total@),
        decreases tasks@.len() - ti,
    {
        let ghost before = task_sum(tasks@.take(ti as int), n as nat, r);
        let ghost term = (tasks@[ti as int].orbit_weight as nat) * paths(n as nat, r, tasks@[ti as int].state, accept(n as nat));
        proof {
            lemma_task_sum_take(tasks@, ti as int, n as nat, r);
            assert(residues_of(term, primes@, partials@[ti as int]@));
        }
        let partial = &partials[ti];
        let mut lane: usize = 0;
        while lane < primes.len()
            invariant
                lanes_ok(primes@),
                lane <= primes@.len(),
                total@.len() == primes@.len(),
                residues_of(term, primes@, partial@),
                forall|i: int| 0 <= i < lane ==> #[trigger] total@[i] == (before + term) % (primes@[i] as nat),
                forall|i: int| lane <= i < primes@.len() ==> #[trigger] total@[i] == before % (primes@[i] as nat),
            decreases primes@.len() - lane,
        {
            let ghost p = primes@[lane as int] as int;
            proof {
                lemma_add_mod_noop(before as int, term as int, p);
            }
            let updated = add_residue(total[lane], partial[lane], primes[lane]);
            total.set(lane, updated);
            lane = lane + 1;
        }
        ti = ti + 1;
    }
    proof {
        assert(tasks@.take(tasks@.len() as int) =~= tasks@);
    }
    total
}


/// Moduli of a reconstruction: each at least two and at most `2^63`.
pub open spec fn crt_moduli_ok(primes: Seq<u64>) -> bool {
    forall|i: int| 0 <= i < primes.len() ==> 2 <= #[trigger] primes[i] <= 0x8000_0000_0000_0000u64
}

/// `value` agrees with each of the first `upto` residues modulo its modulus.
pub open spec fn crt_agrees(value: nat, residues: Seq<u64>, primes: Seq<u64>, upto: int) -> bool {
    forall|j: int|
        0 <= j < upto ==> value % (#[trigger] primes[j] as nat) == (residues[j] as nat) % (primes[j] as nat)
}

/// The product of moduli is a multiple of each of them.
proof fn lemma_product_multiple(primes: Seq<u64>, i: int, j: int)
    requires
        0 <= j < i <= primes.len(),
        forall|k: int| 0 <= k < primes.len() ==> #[trigger] primes[k] >= 1,
    ensures
        (modulus_product(primes.take(i)) as int) % (primes[j] as int) == 0,
    decreases i,
{
    let m = modulus_product(primes.take(i - 1)) as int;
    let p = primes[i - 1] as int;
    let q = primes[j] as int;
    assert(primes.take(i).drop_last() =~= primes.take(i - 1));
    assert(modulus_product(primes.take(i)) == m * p);
    if j < i - 1 {
        lemma_product_multiple(primes, i - 1, j);
        lemma_mul_mod_noop_general(m, p, q);
        assert(0 * p == 0);
        lemma_small_mod(0, q as nat);
    } else {
        vstd::arithmetic::div_mod::lemma_mod_multiples_basic(m, p);
    }
}

/// One step of Garner's recursion meets the new residue: with `inverse` an
/// inverse of the modulus so far, adding `modulus * step` moves the value to
/// `residue` modulo the new prime.
proof fn lemma_garner_residue(value: int, modulus: int, p: int, residue: int, delta: int, inverse: int, step: int)
    requires
        p >= 2,
        value >= 0,
        modulus >= 1,
        residue >= 0,
        inverse >= 0,
        delta == residue - value % p || delta == residue + p - value % p,
        ((modulus % p) * inverse) % p == 1,
        step == (delta * inverse) % p,
    ensures
        (value + modulus * step) % p == residue % p,
{
    let vm = value % p;
    let pm = modulus % p;
    lemma_add_mod_noop(value, modulus * step, p);
    lemma_mul_mod_noop_general(modulus, step, p);
    lemma_mul_mod_noop_general(pm, delta * inverse, p);
    assert(pm * (delta * inverse) == (pm * inverse) * delta) by (nonlinear_arith);
    lemma_mul_mod_noop_general(pm * inverse, delta, p);
    assert(1 * delta == delta);
    assert((modulus * step) % p == delta % p);
    lemma_add_mod_noop(vm, delta, p);
    vstd::arithmetic::div_mod::lemma_mod_twice(value, p);
    lemma_add_mod_noop(value, delta, p);
    if delta == residue + p - vm {
        vstd::arithmetic::div_mod::lemma_mod_add_multiples_vanish(residue, p);
    }
}

/// The recursion of Garner reaches the unique agreeing value below the
/// product: whatever agrees with the value modulo `modulus` and with the new
/// value modulo `p` is the new value modulo `modulus * p`.
proof fn lemma_crt_unique(c: int, value: int, modulus: int, p: int, step: int, inverse: int)
    requires
        c >= 0,
        modulus >= 1,
        p >= 2,
        0 <= value < modulus,
        0 <= step < p,
        c % modulus == value,
        (modulus * inverse) % p == 1,
        c % p == (value + modulus * step) % p,
    ensures
        c % (modulus * p) == value + modulus * step,
{
    let mp = modulus * p;
    assert(mp > 0) by (nonlinear_arith)
        requires
            mp == modulus * p,
            modulus >= 1,
            p >= 2,
    ;
    let cp = c % mp;
    vstd::arithmetic::div_mod::lemma_mod_pos_bound(c, mp);
    vstd::arithmetic::div_mod::lemma_mod_mod(c, modulus, p);
    vstd::arithmetic::div_mod::lemma_mod_mod(c, p, modulus);
    assert(p * modulus == mp) by (nonlinear_arith)
        requires
            mp == modulus * p,
    ;
    assert(cp % modulus == value);
    assert(cp % p == c % p);
    let t = cp / modulus;
    vstd::arithmetic::div_mod::lemma_fundamental_div_mod(cp, modulus);
    assert(cp == modulus * t + value);
    assert(0 <= t < p) by (nonlinear_arith)
        requires
            cp == modulus * t + value,
            0 <= value < modulus,
            0 <= cp < modulus * p,
            modulus >= 1,
    ;
    let x = cp;
    let y = value + modulus * step;
    vstd::arithmetic::div_mod::lemma_mod_equivalence(x, y, p);
    assert(x - y == modulus * (t - step)) by (nonlinear_arith)
        requires
            x == modulus * t + value,
            y == value + modulus * step,
    ;
    assert((modulus * (t - step)) % p == 0);
    lemma_mul_mod_noop_general(modulus * (t - step), inverse, p);
    assert(0 * inverse == 0);
    lemma_small_mod(0, p as nat);
    assert(modulus * (t - step) * inverse == (modulus * inverse) * (t - step)) by (nonlinear_arith);
    lemma_mul_mod_noop_general(modulus * inverse, t - step, p);
    assert(1 * (t - step) == t - step);
    assert((t - step) % p == 0);
    vstd::arithmetic::div_mod::lemma_fundamental_div_mod(t - step, p);
    assert(t - step == 0) by (nonlinear_arith)
        requires
            t - step == p * ((t - step) / p),
            -p < t - step < p,
            p >= 2,
    ;
}

/// The inverse that Fermat's little theorem gives, `m^(p-2) mod p`, is an
/// inverse of `m` modulo `p`.
pub open spec fn fermat_inverse_ok(m: nat, p: u64) -> bool {
    let a = (m % (p as nat)) as int;
    (a * (vstd::arithmetic::power::pow(a, (p - 2) as nat) % (p as int))) % (p as int) == 1
}

/// Each partial product of the moduli has its Fermat inverse modulo the
/// next modulus.
pub open spec fn crt_invertible(primes: Seq<u64>) -> bool {
    forall|i: int| 0 <= i < primes.len() ==> fermat_inverse_ok(modulus_product(primes.take(i)), #[trigger] primes[i])
}

/// Squaring and multiplying by the base move the residue of a power along
/// one bit of the exponent.
proof fn lemma_pow_mod_step(a: int, e: nat, p: int, x: int)
    requires
        p > 0,
        pow(a, e) % p == x,
    ensures
        pow(a, 2 * e) % p == (x * x) % p,
        pow(a, 2 * e + 1) % p == (((x * x) % p) * a) % p,
{
    lemma_pow_adds(a, e, e);
    assert(e + e == 2 * e);
    vstd::arithmetic::div_mod::lemma_mul_mod_noop_general(pow(a, e), pow(a, e), p);
    lemma_pow_adds(a, 2 * e, 1);
    lemma_pow1(a);
    vstd::arithmetic::div_mod::lemma_mul_mod_noop_general(pow(a, 2 * e), a, p);
}




#[verifier::rlimit(40)]
proof fn lemma_fermat_1_0()
    requires
        pow(12, 1) % 4294967279 == 12,
    ensures
        pow(12, 127) % 4294967279 == 15853419,
{
    lemma_pow_mod_step(12, 1, 4294967279, 12);
    assert(12int * 12int == 144int);
    assert(144int % 4294967279int == 144int);
    assert(144int * 12int == 1728int);
    assert(1728int % 4294967279int == 1728int);
    lemma_pow_mod_step(12, 3, 4294967279, 1728);
    assert(1728int * 1728int == 2985984int);
    assert(2985984int % 4294967279int == 2985984int);
    assert(2985984int * 12int == 35831808int);
    assert(35831808int % 4294967279int == 35831808int);
    lemma_pow_mod_step(12, 7, 4294967279, 35831808);
    assert(35831808int * 35831808int == 1283918464548864int);
    assert(1283918464548864int % 4294967279int == 2421000999int);
    assert(2421000999int * 12int == 29052011988int);
    assert(29052011988int % 4294967279int == 3282208314int);
    lemma_pow_mod_step(12, 15, 4294967279, 3282208314);
    assert(3282208314int * 3282208314int == 10772891416490722596int);
    assert(10772891416490722596int % 4294967279int == 1901707288int);
    assert(1901707288int * 12int == 22820487456int);
    assert(22820487456int % 4294967279int == 1345651061int);
    lemma_pow_mod_step(12, 31, 4294967279, 1345651061);
    assert(1345651061int * 1345651061int == 1810776777970425721int);
    assert(1810776777970425721int % 4294967279int == 1705511325int);
    assert(1705511325int * 12int == 20466135900int);
    assert(20466135900int % 4294967279int == 3286266784int);
    lemma_pow_mod_step(12, 63, 4294967279, 3286266784);
    assert(3286266784int * 3286266784int == 10799549375621702656int);
    assert(10799549375621702656int % 4294967279int == 1075062938int);
    assert(1075062938int * 12int == 12900755256int);
    assert(12900755256int % 4294967279int == 15853419int);
}

#[verifier::rlimit(40)]
proof fn lemma_fermat_1_1()
    requires
        pow(12, 127) % 4294967279 == 15853419,
    ensures
        pow(12, 8191) % 4294967279 == 1024451850,
{
    lemma_pow_mod_step(12, 127, 4294967279, 15853419);
    assert(15853419int * 15853419int == 251330893989561int);
    assert(251330893989561int % 4294967279int == 2293724318int);
    assert(2293724318int * 12int == 27524691816int);
    assert(27524691816int % 4294967279int == 1754888142int);
    lemma_pow_mod_step(12, 255, 4294967279, 1754888142);
    assert(1754888142int * 1754888142int == 3079632390932212164int);
    assert(3079632390932212164int % 4294967279int == 2732264638int);
    assert(2732264638int * 12int == 32787175656int);
    assert(32787175656int % 4294967279int == 2722404703int);
    lemma_pow_mod_step(12, 511, 4294967279, 2722404703);
    assert(2722404703int * 2722404703int == 7411487366916518209int);
    assert(7411487366916518209int % 4294967279int == 3873693189int);
    assert(3873693189int * 12int == 46484318268int);
    assert(46484318268int % 4294967279int == 3534645478int);
    lemma_pow_mod_step(12, 1023, 4294967279, 3534645478);
    assert(3534645478int * 3534645478int == 12493718655145848484int);
    assert(12493718655145848484int % 4294967279int == 2670721291int);
    assert(2670721291int * 12int == 32048655492int);
    assert(32048655492int % 4294967279int == 1983884539int);
    lemma_pow_mod_step(12, 2047, 4294967279, 1983884539);
    assert(1983884539int * 1983884539int == 3935797864083242521int);
    assert(3935797864083242521int % 4294967279int == 2633447034int);
    assert(2633447034int * 12int == 31601364408int);
    assert(31601364408int % 4294967279int == 1536593455int);
    lemma_pow_mod_step(12, 4095, 4294967279, 1536593455);
    assert(1536593455int * 1536593455int == 2361119445948837025int);
    assert(2361119445948837025int % 4294967279int == 2232854627int);
    assert(2232854627int * 12int == 26794255524int);
    assert(26794255524int % 4294967279int == 1024451850int);
}

#[verifier::rlimit(40)]
proof fn lemma_fermat_1_2()
    requires
        pow(12, 8191) % 4294967279 == 1024451850,
    ensures
        pow(12, 524287) % 4294967279 == 2707074625,
{
    lemma_pow_mod_step(12, 8191, 4294967279, 1024451850);
    assert(1024451850int * 1024451850int == 1049501592968422500int);
    assert(1049501592968422500int % 4294967279int == 1605417672int);
    assert(1605417672int * 12int == 19265012064int);
    assert(19265012064int % 4294967279int == 2085142948int);
    lemma_pow_mod_step(12, 16383, 4294967279, 2085142948);
    assert(2085142948int * 2085142948int == 4347821113594130704int);
    assert(4347821113594130704int % 4294967279int == 1618494936int);
    assert(1618494936int * 12int == 19421939232int);
    assert(19421939232int % 4294967279int == 2242070116int);
    lemma_pow_mod_step(12, 32767, 4294967279, 2242070116);
    assert(2242070116int * 2242070116int == 5026878405060253456int);
    assert(5026878405060253456int % 4294967279int == 1084676875int);
    assert(1084676875int * 12int == 13016122500int);
    assert(13016122500int % 4294967279int == 131220663int);
    lemma_pow_mod_step(12, 65535, 4294967279, 131220663);
    assert(131220663int * 131220663int == 17218862398159569int);
    assert(17218862398159569int % 4294967279int == 3569200807int);
    assert(3569200807int * 12int == 42830409684int);
    assert(42830409684int % 4294967279int == 4175704173int);
    lemma_pow_mod_step(12, 131071, 4294967279, 4175704173);
    assert(4175704173int * 4175704173int == 17436505340409613929int);
    assert(17436505340409613929int % 4294967279int == 2365230146int);
    assert(2365230146int * 12int == 28382761752int);
    assert(28382761752int % 4294967279int == 2612958078int);
    lemma_pow_mod_step(12, 262143, 4294967279, 2612958078);
    assert(2612958078int * 2612958078int == 6827549917385454084int);
    assert(6827549917385454084int % 4294967279int == 583503492int);
    assert(583503492int * 12int == 7002041904int);
    assert(7002041904int % 4294967279int == 2707074625int);
}

#[verifier::rlimit(40)]
proof fn lemma_fermat_1_3()
    requires
        pow(12, 524287) % 4294967279 == 2707074625,
    ensures
        pow(12, 33554431) % 4294967279 == 574295628,
{
    lemma_pow_mod_step(12, 524287, 4294967279, 2707074625);
    assert(2707074625int * 2707074625int == 7328253025318890625int);
    assert(7328253025318890625int % 4294967279int == 2134282500int);
    assert(2134282500int * 12int == 25611390000int);
    assert(25611390000int % 4294967279int == 4136553605int);
    lemma_pow_mod_step(12, 1048575, 4294967279, 4136553605);
    assert(4136553605int * 4136553605int == 17111075727038496025int);
    assert(17111075727038496025int % 4294967279int == 3889367615int);
    assert(3889367615int * 12int == 46672411380int);
    assert(46672411380int % 4294967279int == 3722738590int);
    lemma_pow_mod_step(12, 2097151, 4294967279, 3722738590);
    assert(3722738590int * 3722738590int == 13858782609475188100int);
    assert(13858782609475188100int % 4294967279int == 4273608027int);
    assert(4273608027int * 12int == 51283296324int);
    assert(51283296324int % 4294967279int == 4038656255int);
    lemma_pow_mod_step(12, 4194303, 4294967279, 4038656255);
    assert(4038656255int * 4038656255int == 16310744346050625025int);
    assert(16310744346050625025int % 4294967279int == 2560679824int);
    assert(2560679824int * 12int == 30728157888int);
    assert(30728157888int % 4294967279int == 663386935int);
    lemma_pow_mod_step(12, 8388607, 4294967279, 663386935);
    assert(663386935int * 663386935int == 440082225528694225int);
    assert(440082225528694225int % 4294967279int == 1013787013int);
    assert(1013787013int * 12int == 12165444156int);
    assert(12165444156int % 4294967279int == 3575509598int);
    lemma_pow_mod_step(12, 16777215, 4294967279, 3575509598);
    assert(3575509598int * 3575509598int == 12784268885390121604int);
    assert(12784268885390121604int % 4294967279int == 47857969int);
    assert(47857969int * 12int == 574295628int);
    assert(574295628int % 4294967279int == 574295628int);
}

#[verifier::rlimit(40)]
proof fn lemma_fermat_1_4()
    requires
        pow(12, 33554431) % 4294967279 == 574295628,
    ensures
        pow(12, 2147483638) % 4294967279 == 357913940,
{
    lemma_pow_mod_step(12, 33554431, 4294967279, 574295628);
    assert(574295628int * 574295628int == 329815468339914384int);
    assert(329815468339914384int % 4294967279int == 363068092int);
    assert(363068092int * 12int == 4356817104int);
    assert(4356817104int % 4294967279int == 61849825int);
    lemma_pow_mod_step(12, 67108863, 4294967279, 61849825);
    assert(61849825int * 61849825int == 3825400852530625int);
    assert(3825400852530625int % 4294967279int == 2346143695int);
    assert(2346143695int * 12int == 28153724340int);
    assert(28153724340int % 4294967279int == 2383920666int);
    lemma_pow_mod_step(12, 134217727, 4294967279, 2383920666);
    assert(2383920666int * 2383920666int == 5683077741781883556int);
    assert(5683077741781883556int % 4294967279int == 3399124369int);
    lemma_pow_mod_step(12, 268435454, 4294967279, 3399124369);
    assert(3399124369int * 3399124369int == 11554046475929648161int);
    assert(11554046475929648161int % 4294967279int == 1912583609int);
    assert(1912583609int * 12int == 22951003308int);
    assert(22951003308int % 4294967279int == 1476166913int);
    lemma_pow_mod_step(12, 536870909, 4294967279, 1476166913);
    assert(1476166913int * 1476166913int == 2179068755035949569int);
    assert(2179068755035949569int % 4294967279int == 3475594591int);
    assert(3475594591int * 12int == 41707135092int);
    assert(41707135092int % 4294967279int == 3052429581int);
    lemma_pow_mod_step(12, 1073741819, 4294967279, 3052429581);
    assert(3052429581int * 3052429581int == 9317326346963835561int);
    assert(9317326346963835561int % 4294967279int == 357913940int);
}

#[verifier::rlimit(40)]
proof fn lemma_fermat_1_5()
    requires
        pow(12, 2147483638) % 4294967279 == 357913940,
    ensures
        pow(12, 4294967277) % 4294967279 == 357913940,
{
    lemma_pow_mod_step(12, 2147483638, 4294967279, 357913940);
    assert(357913940int * 357913940int == 128102388446323600int);
    assert(128102388446323600int % 4294967279int == 2893137681int);
    assert(2893137681int * 12int == 34717652172int);
    assert(34717652172int % 4294967279int == 357913940int);
}

proof fn lemma_fermat_1()
    ensures
        (12 * (pow(12, 4294967277) % 4294967279)) % 4294967279 == 1,
{
    lemma_pow1(12);
    assert(pow(12, 1) % 4294967279 == 12);
    lemma_fermat_1_0();
    lemma_fermat_1_1();
    lemma_fermat_1_2();
    lemma_fermat_1_3();
    lemma_fermat_1_4();
    lemma_fermat_1_5();
}

#[verifier::rlimit(40)]
proof fn lemma_fermat_2_0()
    requires
        pow(2880, 1) % 4294967231 == 2880,
    ensures
        pow(2880, 127) % 4294967231 == 3651851260,
{
    lemma_pow_mod_step(2880, 1, 4294967231, 2880);
    assert(2880int * 2880int == 8294400int);
    assert(8294400int % 4294967231int == 8294400int);
    assert(8294400int * 2880int == 23887872000int);
    assert(23887872000int % 4294967231int == 2413035845int);
    lemma_pow_mod_step(2880, 3, 4294967231, 2413035845);
    assert(2413035845int * 2413035845int == 5822741989254864025int);
    assert(5822741989254864025int % 4294967231int == 3032115690int);
    assert(3032115690int * 2880int == 8732493187200int);
    assert(8732493187200int % 4294967231int == 824806577int);
    lemma_pow_mod_step(2880, 7, 4294967231, 824806577);
    assert(824806577int * 824806577int == 680305889462456929int);
    assert(680305889462456929int % 4294967231int == 2242947069int);
    assert(2242947069int * 2880int == 6459687558720int);
    assert(6459687558720int % 4294967231int == 56843296int);
    lemma_pow_mod_step(2880, 15, 4294967231, 56843296);
    assert(56843296int * 56843296int == 3231160300143616int);
    assert(3231160300143616int % 4294967231int == 617688313int);
    assert(617688313int * 2880int == 1778942341440int);
    assert(1778942341440int % 4294967231int == 825907806int);
    lemma_pow_mod_step(2880, 31, 4294967231, 825907806);
    assert(825907806int * 825907806int == 682123704011733636int);
    assert(682123704011733636int % 4294967231int == 1976473643int);
    assert(1976473643int * 2880int == 5692244091840int);
    assert(5692244091840int % 4294967231int == 1412510765int);
    lemma_pow_mod_step(2880, 63, 4294967231, 1412510765);
    assert(1412510765int * 1412510765int == 1995186661240885225int);
    assert(1995186661240885225int % 4294967231int == 2476839394int);
    assert(2476839394int * 2880int == 7133297454720int);
    assert(7133297454720int % 4294967231int == 3651851260int);
}

#[verifier::rlimit(40)]
proof fn lemma_fermat_2_1()
    requires
        pow(2880, 127) % 4294967231 == 3651851260,
    ensures
        pow(2880, 8191) % 4294967231 == 2766500584,
{
    lemma_pow_mod_step(2880, 127, 4294967231, 3651851260);
    assert(3651851260int * 3651851260int == 13336017625163587600int);
    assert(13336017625163587600int % 4294967231int == 1880084766int);
    assert(1880084766int * 2880int == 5414644126080int);
    assert(5414644126080int % 4294967231int == 2985415020int);
    lemma_pow_mod_step(2880, 255, 4294967231, 2985415020);
    assert(2985415020int * 2985415020int == 8912702841641600400int);
    assert(8912702841641600400int % 4294967231int == 3094074930int);
    assert(3094074930int * 2880int == 8910935798400int);
    assert(8910935798400int % 4294967231int == 3173761306int);
    lemma_pow_mod_step(2880, 511, 4294967231, 3173761306);
    assert(3173761306int * 3173761306int == 10072760827462825636int);
    assert(10072760827462825636int % 4294967231int == 1385597154int);
    assert(1385597154int * 2880int == 3990519803520int);
    assert(3990519803520int % 4294967231int == 495245921int);
    lemma_pow_mod_step(2880, 1023, 4294967231, 495245921);
    assert(495245921int * 495245921int == 245268522267138241int);
    assert(245268522267138241int % 4294967231int == 3314569773int);
    assert(3314569773int * 2880int == 9545960946240int);
    assert(9545960946240int % 4294967231int == 2543758958int);
    lemma_pow_mod_step(2880, 2047, 4294967231, 2543758958);
    assert(2543758958int * 2543758958int == 6470709636405245764int);
    assert(6470709636405245764int % 4294967231int == 1469274492int);
    assert(1469274492int * 2880int == 4231510536960int);
    assert(4231510536960int % 4294967231int == 967814425int);
    lemma_pow_mod_step(2880, 4095, 4294967231, 967814425);
    assert(967814425int * 967814425int == 936664761238080625int);
    assert(936664761238080625int % 4294967231int == 2351262103int);
    assert(2351262103int * 2880int == 6771634856640int);
    assert(6771634856640int % 4294967231int == 2766500584int);
}

#[verifier::rlimit(40)]
proof fn lemma_fermat_2_2()
    requires
        pow(2880, 8191) % 4294967231 == 2766500584,
    ensures
        pow(2880, 524287) % 4294967231 == 715670311,
{
    lemma_pow_mod_step(2880, 8191, 4294967231, 2766500584);
    assert(2766500584int * 2766500584int == 7653525481272341056int);
    assert(7653525481272341056int % 4294967231int == 4270619066int);
    assert(4270619066int * 2880int == 12299382910080int);
    assert(12299382910080int % 4294967231int == 2891727727int);
    lemma_pow_mod_step(2880, 16383, 4294967231, 2891727727);
    assert(2891727727int * 2891727727int == 8362089247100586529int);
    assert(8362089247100586529int % 4294967231int == 681469148int);
    assert(681469148int * 2880int == 1962631146240int);
    assert(1962631146240int % 4294967231int == 4126088904int);
    lemma_pow_mod_step(2880, 32767, 4294967231, 4126088904);
    assert(4126088904int * 4126088904int == 17024609643711921216int);
    assert(17024609643711921216int % 4294967231int == 1246440705int);
    assert(1246440705int * 2880int == 3589749230400int);
    assert(3589749230400int % 4294967231int == 3451592515int);
    lemma_pow_mod_step(2880, 65535, 4294967231, 3451592515);
    assert(3451592515int * 3451592515int == 11913490889604025225int);
    assert(11913490889604025225int % 4294967231int == 4166436042int);
    assert(4166436042int * 2880int == 11999335800960int);
    assert(11999335800960int % 4294967231int == 3492324777int);
    lemma_pow_mod_step(2880, 131071, 4294967231, 3492324777);
    assert(3492324777int * 3492324777int == 12196332348048099729int);
    assert(12196332348048099729int % 4294967231int == 3385479586int);
    assert(3385479586int * 2880int == 9750181207680int);
    assert(9750181207680int % 4294967231int == 605593310int);
    lemma_pow_mod_step(2880, 262143, 4294967231, 605593310);
    assert(605593310int * 605593310int == 366743257116756100int);
    assert(366743257116756100int % 4294967231int == 3876158161int);
    assert(3876158161int * 2880int == 11163335503680int);
    assert(11163335503680int % 4294967231int == 715670311int);
}

#[verifier::rlimit(40)]
proof fn lemma_fermat_2_3()
    requires
        pow(2880, 524287) % 4294967231 == 715670311,
    ensures
        pow(2880, 33554431) % 4294967231 == 4229333527,
{
    lemma_pow_mod_step(2880, 524287, 4294967231, 715670311);
    assert(715670311int * 715670311int == 512183994046836721int);
    assert(512183994046836721int % 4294967231int == 3469884691int);
    assert(3469884691int * 2880int == 9993267910080int);
    assert(9993267910080int % 4294967231int == 3174130774int);
    lemma_pow_mod_step(2880, 1048575, 4294967231, 3174130774);
    assert(3174130774int * 3174130774int == 10075106170453839076int);
    assert(10075106170453839076int % 4294967231int == 210712886int);
    assert(210712886int * 2880int == 606853111680int);
    assert(606853111680int % 4294967231int == 1262732109int);
    lemma_pow_mod_step(2880, 2097151, 4294967231, 1262732109);
    assert(1262732109int * 1262732109int == 1594492379099587881int);
    assert(1594492379099587881int % 4294967231int == 2342438029int);
    assert(2342438029int * 2880int == 6746221523520int);
    assert(6746221523520int % 4294967231int == 3122970850int);
    lemma_pow_mod_step(2880, 4194303, 4294967231, 3122970850);
    assert(3122970850int * 3122970850int == 9752946929949722500int);
    assert(9752946929949722500int % 4294967231int == 2526585205int);
    assert(2526585205int * 2880int == 7276565390400int);
    assert(7276565390400int % 4294967231int == 890901086int);
    lemma_pow_mod_step(2880, 8388607, 4294967231, 890901086);
    assert(890901086int * 890901086int == 793704745035979396int);
    assert(793704745035979396int % 4294967231int == 1952496137int);
    assert(1952496137int * 2880int == 5623188874560int);
    assert(5623188874560int % 4294967231int == 1076769181int);
    lemma_pow_mod_step(2880, 16777215, 4294967231, 1076769181);
    assert(1076769181int * 1076769181int == 1159431869151410761int);
    assert(1159431869151410761int % 4294967231int == 1944642929int);
    assert(1944642929int * 2880int == 5600571635520int);
    assert(5600571635520int % 4294967231int == 4229333527int);
}

#[verifier::rlimit(40)]
proof fn lemma_fermat_2_4()
    requires
        pow(2880, 33554431) % 4294967231 == 4229333527,
    ensures
        pow(2880, 2147483614) % 4294967231 == 1146815903,
{
    lemma_pow_mod_step(2880, 33554431, 4294967231, 4229333527);
    assert(4229333527int * 4229333527int == 17887262082606259729int);
    assert(17887262082606259729int % 4294967231int == 3982509543int);
    lemma_pow_mod_step(2880, 67108862, 4294967231, 3982509543);
    assert(3982509543int * 3982509543int == 15860382260086068849int);
    assert(15860382260086068849int % 4294967231int == 424358603int);
    assert(424358603int * 2880int == 1222152776640int);
    assert(1222152776640int % 4294967231int == 2382083036int);
    lemma_pow_mod_step(2880, 134217725, 4294967231, 2382083036);
    assert(2382083036int * 2382083036int == 5674319590398977296int);
    assert(5674319590398977296int % 4294967231int == 2253622334int);
    assert(2253622334int * 2880int == 6490432321920int);
    assert(6490432321920int % 4294967231int == 736835879int);
    lemma_pow_mod_step(2880, 268435451, 4294967231, 736835879);
    assert(736835879int * 736835879int == 542927112581702641int);
    assert(542927112581702641int % 4294967231int == 4263286471int);
    assert(4263286471int * 2880int == 12278265036480int);
    assert(12278265036480int % 4294967231int == 3248690282int);
    lemma_pow_mod_step(2880, 536870903, 4294967231, 3248690282);
    assert(3248690282int * 3248690282int == 10553988548361239524int);
    assert(10553988548361239524int % 4294967231int == 82263220int);
    assert(82263220int * 2880int == 236918073600int);
    assert(236918073600int % 4294967231int == 694875895int);
    lemma_pow_mod_step(2880, 1073741807, 4294967231, 694875895);
    assert(694875895int * 694875895int == 482852509452051025int);
    assert(482852509452051025int % 4294967231int == 1146815903int);
}

#[verifier::rlimit(40)]
proof fn lemma_fermat_2_5()
    requires
        pow(2880, 2147483614) % 4294967231 == 1146815903,
    ensures
        pow(2880, 4294967229) % 4294967231 == 1146815903,
{
    lemma_pow_mod_step(2880, 2147483614, 4294967231, 1146815903);
    assert(1146815903int * 1146815903int == 1315186715373705409int);
    assert(1315186715373705409int % 4294967231int == 428403615int);
    assert(428403615int * 2880int == 1233802411200int);
    assert(1233802411200int % 4294967231int == 1146815903int);
}

proof fn lemma_fermat_2()
    ensures
        (2880 * (pow(2880, 4294967229) % 4294967231)) % 4294967231 == 1,
{
    lemma_pow1(2880);
    assert(pow(2880, 1) % 4294967231 == 2880);
    lemma_fermat_2_0();
    lemma_fermat_2_1();
    lemma_fermat_2_2();
    lemma_fermat_2_3();
    lemma_fermat_2_4();
    lemma_fermat_2_5();
}

#[verifier::rlimit(40)]
proof fn lemma_fermat_3_0()
    requires
        pow(262072, 1) % 4294967197 == 262072,
    ensures
        pow(262072, 127) % 4294967197 == 3434076153,
{
    lemma_pow_mod_step(262072, 1, 4294967197, 262072);
    assert(262072int * 262072int == 68681733184int);
    assert(68681733184int % 4294967197int == 4257225229int);
    assert(4257225229int * 262072int == 1115699530214488int);
    assert(1115699530214488int % 4294967197int == 196416995int);
    lemma_pow_mod_step(262072, 3, 4294967197, 196416995);
    assert(196416995int * 196416995int == 38579635924830025int);
    assert(38579635924830025int % 4294967197int == 2883466388int);
    assert(2883466388int * 262072int == 755675803235936int);
    assert(755675803235936int % 4294967197int == 2094726968int);
    lemma_pow_mod_step(262072, 7, 4294967197, 2094726968);
    assert(2094726968int * 2094726968int == 4387881070466473024int);
    assert(4387881070466473024int % 4294967197int == 1985234215int);
    assert(1985234215int * 262072int == 520274301193480int);
    assert(520274301193480int % 4294967197int == 3449784885int);
    lemma_pow_mod_step(262072, 15, 4294967197, 3449784885);
    assert(3449784885int * 3449784885int == 11901015752774463225int);
    assert(11901015752774463225int % 4294967197int == 3108275688int);
    assert(3108275688int * 262072int == 814592026105536int);
    assert(814592026105536int % 4294967197int == 4252555319int);
    lemma_pow_mod_step(262072, 31, 4294967197, 4252555319);
    assert(4252555319int * 4252555319int == 18084226741155191761int);
    assert(18084226741155191761int % 4294967197int == 773645708int);
    assert(773645708int * 262072int == 202750877986976int);
    assert(202750877986976int % 4294967197int == 2656485394int);
    lemma_pow_mod_step(262072, 63, 4294967197, 2656485394);
    assert(2656485394int * 2656485394int == 7056914648535335236int);
    assert(7056914648535335236int % 4294967197int == 3014890887int);
    assert(3014890887int * 262072int == 790118484537864int);
    assert(790118484537864int % 4294967197int == 3434076153int);
}

#[verifier::rlimit(40)]
proof fn lemma_fermat_3_1()
    requires
        pow(262072, 127) % 4294967197 == 3434076153,
    ensures
        pow(262072, 8191) % 4294967197 == 4129305352,
{
    lemma_pow_mod_step(262072, 127, 4294967197, 3434076153);
    assert(3434076153int * 3434076153int == 11792879024603279409int);
    assert(11792879024603279409int % 4294967197int == 518116040int);
    assert(518116040int * 262072int == 135783706834880int);
    assert(135783706834880int % 4294967197int == 2613868922int);
    lemma_pow_mod_step(262072, 255, 4294967197, 2613868922);
    assert(2613868922int * 2613868922int == 6832310741397442084int);
    assert(6832310741397442084int % 4294967197int == 989839316int);
    assert(989839316int * 262072int == 259409169222752int);
    assert(259409169222752int % 4294967197int == 1740458346int);
    lemma_pow_mod_step(262072, 511, 4294967197, 1740458346);
    assert(1740458346int * 1740458346int == 3029195254161055716int);
    assert(3029195254161055716int % 4294967197int == 157425807int);
    assert(157425807int * 262072int == 41256896092104int);
    assert(41256896092104int % 4294967197int == 3736164919int);
    lemma_pow_mod_step(262072, 1023, 4294967197, 3736164919);
    assert(3736164919int * 3736164919int == 13958928301966276561int);
    assert(13958928301966276561int % 4294967197int == 772296369int);
    assert(772296369int * 262072int == 202397254016568int);
    assert(202397254016568int % 4294967197int == 1219825140int);
    lemma_pow_mod_step(262072, 2047, 4294967197, 1219825140);
    assert(1219825140int * 1219825140int == 1487973372176019600int);
    assert(1487973372176019600int % 4294967197int == 4162761015int);
    assert(4162761015int * 262072int == 1090943104723080int);
    assert(1090943104723080int % 4294967197int == 4256816292int);
    lemma_pow_mod_step(262072, 4095, 4294967197, 4256816292);
    assert(4256816292int * 4256816292int == 18120484943836629264int);
    assert(18120484943836629264int % 4294967197int == 183698074int);
    assert(183698074int * 262072int == 48142121649328int);
    assert(48142121649328int % 4294967197int == 4129305352int);
}

#[verifier::rlimit(40)]
proof fn lemma_fermat_3_2()
    requires
        pow(262072, 8191) % 4294967197 == 4129305352,
    ensures
        pow(262072, 524287) % 4294967197 == 2594447783,
{
    lemma_pow_mod_step(262072, 8191, 4294967197, 4129305352);
    assert(4129305352int * 4129305352int == 17051162690055843904int);
    assert(17051162690055843904int % 4294967197int == 2932363729int);
    assert(2932363729int * 262072int == 768490427186488int);
    assert(768490427186488int % 4294967197int == 536561672int);
    lemma_pow_mod_step(262072, 16383, 4294967197, 536561672);
    assert(536561672int * 536561672int == 287898427859435584int);
    assert(287898427859435584int % 4294967197int == 3481255915int);
    assert(3481255915int * 262072int == 912339700155880int);
    assert(912339700155880int % 4294967197int == 2768169140int);
    lemma_pow_mod_step(262072, 32767, 4294967197, 2768169140);
    assert(2768169140int * 2768169140int == 7662760387648339600int);
    assert(7662760387648339600int % 4294967197int == 1486263222int);
    assert(1486263222int * 262072int == 389507975115984int);
    assert(389507975115984int % 4294967197int == 1694987251int);
    lemma_pow_mod_step(262072, 65535, 4294967197, 1694987251);
    assert(1694987251int * 1694987251int == 2872981781052537001int);
    assert(2872981781052537001int % 4294967197int == 3036645237int);
    assert(3036645237int * 262072int == 795819690551064int);
    assert(795819690551064int % 4294967197int == 923651737int);
    lemma_pow_mod_step(262072, 131071, 4294967197, 923651737);
    assert(923651737int * 923651737int == 853132531263117169int);
    assert(853132531263117169int % 4294967197int == 4100143369int);
    assert(4100143369int * 262072int == 1074532773000568int);
    assert(1074532773000568int % 4294967197int == 699786320int);
    lemma_pow_mod_step(262072, 262143, 4294967197, 699786320);
    assert(699786320int * 699786320int == 489700893659142400int);
    assert(489700893659142400int % 4294967197int == 3851127328int);
    assert(3851127328int * 262072int == 1009272641103616int);
    assert(1009272641103616int % 4294967197int == 2594447783int);
}

#[verifier::rlimit(40)]
proof fn lemma_fermat_3_3()
    requires
        pow(262072, 524287) % 4294967197 == 2594447783,
    ensures
        pow(262072, 33554431) % 4294967197 == 3398435079,
{
    lemma_pow_mod_step(262072, 524287, 4294967197, 2594447783);
    assert(2594447783int * 2594447783int == 6731159298713615089int);
    assert(6731159298713615089int % 4294967197int == 777442053int);
    assert(777442053int * 262072int == 203745793713816int);
    assert(203745793713816int % 4294967197int == 1139822530int);
    lemma_pow_mod_step(262072, 1048575, 4294967197, 1139822530);
    assert(1139822530int * 1139822530int == 1299195399895600900int);
    assert(1299195399895600900int % 4294967197int == 697340824int);
    assert(697340824int * 262072int == 182753504427328int);
    assert(182753504427328int % 4294967197int == 2650194978int);
    lemma_pow_mod_step(262072, 2097151, 4294967197, 2650194978);
    assert(2650194978int * 2650194978int == 7023533421416420484int);
    assert(7023533421416420484int % 4294967197int == 3980385216int);
    assert(3980385216int * 262072int == 1043147514327552int);
    assert(1043147514327552int % 4294967197int == 3061388980int);
    lemma_pow_mod_step(262072, 4194303, 4294967197, 3061388980);
    assert(3061388980int * 3061388980int == 9372102486865440400int);
    assert(9372102486865440400int % 4294967197int == 3028469712int);
    assert(3028469712int * 262072int == 793677114363264int);
    assert(793677114363264int % 4294967197int == 1536095240int);
    lemma_pow_mod_step(262072, 8388607, 4294967197, 1536095240);
    assert(1536095240int * 1536095240int == 2359588586350657600int);
    assert(2359588586350657600int % 4294967197int == 4216756023int);
    assert(4216756023int * 262072int == 1105093684459656int);
    assert(1105093684459656int % 4294967197int == 2919638753int);
    lemma_pow_mod_step(262072, 16777215, 4294967197, 2919638753);
    assert(2919638753int * 2919638753int == 8524290448019395009int);
    assert(8524290448019395009int % 4294967197int == 1945868840int);
    assert(1945868840int * 262072int == 509957738636480int);
    assert(509957738636480int % 4294967197int == 3398435079int);
}

#[verifier::rlimit(40)]
proof fn lemma_fermat_3_4()
    requires
        pow(262072, 33554431) % 4294967197 == 3398435079,
    ensures
        pow(262072, 2147483597) % 4294967197 == 2471992304,
{
    lemma_pow_mod_step(262072, 33554431, 4294967197, 3398435079);
    assert(3398435079int * 3398435079int == 11549360986177736241int);
    assert(11549360986177736241int % 4294967197int == 797891083int);
    lemma_pow_mod_step(262072, 67108862, 4294967197, 797891083);
    assert(797891083int * 797891083int == 636630180330912889int);
    assert(636630180330912889int % 4294967197int == 311784343int);
    lemma_pow_mod_step(262072, 134217724, 4294967197, 311784343);
    assert(311784343int * 311784343int == 97209476539941649int);
    assert(97209476539941649int % 4294967197int == 2206557684int);
    assert(2206557684int * 262072int == 578276985361248int);
    assert(578276985361248int % 4294967197int == 2601957168int);
    lemma_pow_mod_step(262072, 268435449, 4294967197, 2601957168);
    assert(2601957168int * 2601957168int == 6770181104106580224int);
    assert(6770181104106580224int % 4294967197int == 1961145204int);
    assert(1961145204int * 262072int == 513961245902688int);
    assert(513961245902688int % 4294967197int == 3996273683int);
    lemma_pow_mod_step(262072, 536870899, 4294967197, 3996273683);
    assert(3996273683int * 3996273683int == 15970203349438384489int);
    assert(15970203349438384489int % 4294967197int == 3615610919int);
    lemma_pow_mod_step(262072, 1073741798, 4294967197, 3615610919);
    assert(3615610919int * 3615610919int == 13072642317592024561int);
    assert(13072642317592024561int % 4294967197int == 945035946int);
    assert(945035946int * 262072int == 247667460440112int);
    assert(247667460440112int % 4294967197int == 2471992304int);
}

#[verifier::rlimit(40)]
proof fn lemma_fermat_3_5()
    requires
        pow(262072, 2147483597) % 4294967197 == 2471992304,
    ensures
        pow(262072, 4294967195) % 4294967197 == 1822974893,
{
    lemma_pow_mod_step(262072, 2147483597, 4294967197, 2471992304);
    assert(2471992304int * 2471992304int == 6110745951035228416int);
    assert(6110745951035228416int % 4294967197int == 3349931251int);
    assert(3349931251int * 262072int == 877923182812072int);
    assert(877923182812072int % 4294967197int == 1822974893int);
}

proof fn lemma_fermat_3()
    ensures
        (262072 * (pow(262072, 4294967195) % 4294967197)) % 4294967197 == 1,
{
    lemma_pow1(262072);
    assert(pow(262072, 1) % 4294967197 == 262072);
    lemma_fermat_3_0();
    lemma_fermat_3_1();
    lemma_fermat_3_2();
    lemma_fermat_3_3();
    lemma_fermat_3_4();
    lemma_fermat_3_5();
}

/// Each partial product of the candidate moduli has its Fermat inverse
/// modulo the next candidate.
pub proof fn lemma_candidates_invertible()
    ensures
        crt_invertible(crt_candidates()),
{
    let c = crt_candidates();
    assert(c.take(0) =~= Seq::<u64>::empty());
    assert(c.take(1).drop_last() =~= c.take(0));
    assert(c.take(2).drop_last() =~= c.take(1));
    assert(c.take(3).drop_last() =~= c.take(2));
    assert(c.take(1).last() == c[0]);
    assert(c.take(2).last() == c[1]);
    assert(c.take(3).last() == c[2]);
    assert(modulus_product(c.take(0)) == 1);
    assert(modulus_product(c.take(1)) == 4294967291nat);
    assert(modulus_product(c.take(2)) == 18446743979220271189nat);
    assert(modulus_product(c.take(3)) == 79228160909397609687688407659nat);
    lemma1_pow((4294967291 - 2) as nat);
    lemma_fermat_1();
    lemma_fermat_2();
    lemma_fermat_3();
    assert forall|i: int| 0 <= i < c.len() implies fermat_inverse_ok(modulus_product(c.take(i)), #[trigger] c[i]) by {
        if i == 0 {
            assert((1nat % (4294967291u64 as nat)) as int == 1);
        } else if i == 1 {
            assert((4294967291nat % (4294967279u64 as nat)) as int == 12);
        } else if i == 2 {
            assert((18446743979220271189nat % (4294967231u64 as nat)) as int == 2880);
        } else {
            assert((79228160909397609687688407659nat % (4294967197u64 as nat)) as int == 262072);
        }
    }
}

/// A prefix of the moduli has at most their whole product.
proof fn lemma_product_prefix_le(primes: Seq<u64>, k: int)
    requires
        0 <= k <= primes.len(),
        forall|j: int| 0 <= j < primes.len() ==> #[trigger] primes[j] >= 1,
    ensures
        modulus_product(primes.take(k)) <= modulus_product(primes),
    decreases primes.len(),
{
    if k < primes.len() {
        let d = primes.drop_last();
        assert forall|j: int| 0 <= j < d.len() implies #[trigger] d[j] >= 1 by {
            assert(d[j] == primes[j]);
        }
        lemma_product_prefix_le(d, k);
        assert(d.take(k) =~= primes.take(k));
        let m = modulus_product(d);
        assert(m <= m * (primes.last() as nat)) by (nonlinear_arith)
            requires
                primes.last() >= 1,
        ;
    } else {
        assert(primes.take(k) =~= primes);
    }
}

/// The value below the product of the moduli that agrees with each residue
/// modulo its modulus, by Garner's recursion; an error when the lists are
/// empty or of different lengths, when a partial product has no inverse
/// modulo the next modulus, or when a value outgrows `u128`.
pub fn reconstruct_crt(residues: &Vec<u64>, primes: &Vec<u64>) -> (value: Result<u128, String>)
    requires
        crt_moduli_ok(primes@),
    ensures
        residues@.len() != primes@.len() || residues@.len() == 0 ==> value is Err,
        residues@.len() == primes@.len() && residues@.len() > 0 && modulus_product(primes@) <= u128::MAX
            && crt_invertible(primes@) ==> value is Ok,
        value matches Ok(v) ==> {
            &&& v < modulus_product(primes@)
            &&& crt_agrees(v as nat, residues@, primes@, primes@.len() as int)
            &&& forall|c: nat|
                #[trigger] crt_agrees(c, residues@, primes@, primes@.len() as int) ==> v == c % modulus_product(primes@)
        },
{
    if residues.len() != primes.len() || residues.len() == 0 {
        return Err(message("CRT residue/modulus length mismatch"));
    }
    let mut value: u128 = 0;
    let mut modulus: u128 = 1;
    let mut i: usize = 0;
    let ghost owed = modulus_product(primes@) <= u128::MAX && crt_invertible(primes@);
    proof {
        assert(primes@.take(0) =~= Seq::<u64>::empty());
        assert forall|c: nat| #[trigger] crt_agrees(c, residues@, primes@, 0) implies c % (modulus as nat) == value by {
            vstd::arithmetic::div_mod::lemma_small_mod(0, 1);
            vstd::arithmetic::div_mod::lemma_mod_self_0(1);
            assert(c % 1 == 0) by {
                vstd::arithmetic::div_mod::lemma_fundamental_div_mod(c as int, 1);
            }
        }
    }
    while i < primes.len()
        invariant
            owed == (modulus_product(primes@) <= u128::MAX && crt_invertible(primes@)),
            crt_moduli_ok(primes@),
            residues@.len() == primes@.len(),
            i <= primes@.len(),
            modulus == modulus_product(primes@.take(i as int)),
            modulus >= 1,
            value < modulus,
            crt_agrees(value as nat, residues@, primes@, i as int),
            forall|c: nat| #[trigger] crt_agrees(c, residues@, primes@, i as int) ==> c % (modulus as nat) == value,
        decreases primes@.len() - i,
    {
        let prime = primes[i];
        let residue = residues[i];
        let prime_wide = prime as u128;
        let value_mod = (value % prime_wide) as u64;
        let delta = if residue >= value_mod {
            residue - value_mod
        } else {
            residue + prime - value_mod
        };
        let product_mod = (modulus % prime_wide) as u64;
        let inverse = crate::rank_diagnostic::mod_pow(product_mod, prime - 2, prime);
        proof {
            vstd::arithmetic::div_mod::lemma_mod_bound(
                vstd::arithmetic::power::pow(product_mod as int, (prime - 2) as nat),
                prime as int,
            );
            assert((product_mod as nat) * (inverse as nat) <= u128::MAX) by (nonlinear_arith)
                requires
                    product_mod < prime,
                    inverse < prime,
                    prime <= 0x8000_0000_0000_0000u64,
            ;
            assert((delta as nat) * (inverse as nat) <= u128::MAX) by (nonlinear_arith)
                requires
                    delta <= u64::MAX,
                    inverse < prime,
                    prime <= 0x8000_0000_0000_0000u64,
            ;
        }
        proof {
            if owed {
                assert(fermat_inverse_ok(modulus_product(primes@.take(i as int)), primes@[i as int]));
            }
        }
        if ((product_mod as u128) * (inverse as u128)) % prime_wide != 1 {
            return Err(message("CRT partial modulus has no inverse modulo the next prime"));
        }
        let step = (((delta as u128) * (inverse as u128)) % prime_wide) as u64;
        proof {
            if owed {
                let m = modulus as int;
                let p = prime as int;
                let sp = step as int;
                assert(primes@.take(i + 1).drop_last() =~= primes@.take(i as int));
                lemma_product_prefix_le(primes@, i + 1);
                assert(m * p <= u128::MAX);
                assert(value + m * sp < m * p) by (nonlinear_arith)
                    requires
                        0 <= value < m,
                        0 <= sp < p,
                ;
                assert(m * sp <= m * p) by (nonlinear_arith)
                    requires
                        0 <= sp < p,
                        m >= 1,
                ;
            }
        }
        let term = match modulus.checked_mul(step as u128) {
            Some(t) => t,
            None => {
                return Err(message("CRT reconstruction product overflow"));
            },
        };
        let next_value = match value.checked_add(term) {
            Some(v) => v,
            None => {
                return Err(message("CRT reconstruction sum overflow"));
            },
        };
        let next_modulus = match modulus.checked_mul(prime_wide) {
            Some(m) => m,
            None => {
                return Err(message("CRT reconstruction modulus overflow"));
            },
        };
        proof {
            let v = value as int;
            let m = modulus as int;
            let p = prime as int;
            let sp = step as int;
            assert(primes@.take(i + 1).drop_last() =~= primes@.take(i as int));
            assert(next_modulus == modulus_product(primes@.take(i + 1)));
            assert(v + m * sp < m * p) by (nonlinear_arith)
                requires
                    0 <= v < m,
                    0 <= sp < p,
            ;
            lemma_garner_residue(v, m, p, residue as int, delta as int, inverse as int, sp);
            lemma_mul_mod_noop_general(m, inverse as int, p);
            assert forall|j: int| 0 <= j < i + 1 implies (next_value as nat) % (#[trigger] primes@[j] as nat) == (
            residues@[j] as nat) % (primes@[j] as nat) by {
                if j < i {
                    let q = primes@[j] as int;
                    lemma_product_multiple(primes@, i as int, j);
                    lemma_add_mod_noop(v, m * sp, q);
                    lemma_mul_mod_noop_general(m, sp, q);
                    assert(0 * sp == 0);
                    lemma_small_mod(0, q as nat);
                    vstd::arithmetic::div_mod::lemma_mod_twice(v, q);
                }
            }
            assert forall|c: nat| #[trigger] crt_agrees(c, residues@, primes@, i + 1) implies c % (
            next_modulus as nat) == next_value by {
                assert(crt_agrees(c, residues@, primes@, i as int));
                assert(c % (primes@[i as int] as nat) == (residues@[i as int] as nat) % (primes@[i as int] as nat));
                lemma_crt_unique(c as int, v, m, p, sp, inverse as int);
            }
        }
        value = next_value;
        modulus = next_modulus;
        i = i + 1;
    }
    proof {
        assert(primes@.take(primes@.len() as int) =~= primes@);
    }
    Ok(value)
}


/// A prefix of the tasks has at most the weighted sum of all of them.
proof fn lemma_task_sum_prefix(tasks: Seq<WideCrtTask>, j: int, n: nat, remaining: nat)
    requires
        0 <= j <= tasks.len(),
    ensures
        task_sum(tasks.take(j), n, remaining) <= task_sum(tasks, n, remaining),
    decreases tasks.len(),
{
    if j < tasks.len() {
        lemma_task_sum_prefix(tasks.drop_last(), j, n, remaining);
        assert(tasks.drop_last().take(j) =~= tasks.take(j));
    } else {
        assert(tasks.take(j) =~= tasks);
    }
}

/// What a scalar task returns: its weighted completions, present exactly
/// when the completions and the weighted value are both within the limit.
pub open spec fn scalar_task_done(weight: nat, completions: nat, limit: nat, result: Option<u64>) -> bool {
    &&& result matches Some(v) ==> v == weight * completions
    &&& result is Some <==> (completions <= limit && weight * completions <= limit)
}

/// The tasks can be counted within `limit`: their weighted sum and the
/// completions of each are within it.
pub open spec fn scalar_within(tasks: Seq<WideCrtTask>, n: nat, remaining: nat, limit: nat) -> bool {
    &&& task_sum(tasks, n, remaining) <= limit
    &&& forall|i: int| 0 <= i < tasks.len() ==> paths(n, remaining, (#[trigger] tasks[i]).state, accept(n)) <= limit
}

/// The weighted completions of one task with a `u64` microkernel over its
/// last `microkernel_rows` rows, all sums bounded by `coefficient_limit`.
pub fn wide_scalar_task(
    task: WideCrtTask,
    n: usize,
    split_depth: usize,
    board_mask: u64,
    coefficient_limit: u64,
    microkernel_rows: usize,
) -> (weighted: Option<u64>)
    requires
        split_depth <= n,
        tail_ready(n as nat, (n - split_depth) as nat, task.state),
        board_mask == board_mask_spec(n as nat),
        coefficient_limit >= 1,
        4 <= microkernel_rows <= 6,
    ensures
        scalar_task_done(
            task.orbit_weight as nat,
            paths(n as nat, (n - split_depth) as nat, task.state, accept(n as nat)),
            coefficient_limit as nat,
            weighted,
        ),
{
    let ghost nn = n as nat;
    let remaining = n - split_depth;
    let state = task.state;
    proof {
        assert(words(state.columns, state.diag_dr, state.diag_dl) == state);
    }
    let completions = if microkernel_rows == 4 {
        contract_certified_tail_last_k_u64::<4>(Ghost(nn), remaining, state.columns, state.diag_dr, state.diag_dl, board_mask, coefficient_limit)
    } else if microkernel_rows == 5 {
        contract_certified_tail_last_k_u64::<5>(Ghost(nn), remaining, state.columns, state.diag_dr, state.diag_dl, board_mask, coefficient_limit)
    } else {
        contract_certified_tail_last_k_u64::<6>(Ghost(nn), remaining, state.columns, state.diag_dr, state.diag_dl, board_mask, coefficient_limit)
    };
    let completions = match completions {
        Some(c) => c,
        None => {
            return None;
        },
    };
    proof {
        assert((completions as nat) * (task.orbit_weight as nat) == (task.orbit_weight as nat) * (completions as nat))
            by (nonlinear_arith);
    }
    match completions.checked_mul(task.orbit_weight) {
        Some(v) => {
            if v <= coefficient_limit {
                Some(v)
            } else {
                None
            }
        },
        None => None,
    }
}

/// Counts each task with `wide_scalar_task`, the tasks in parallel through
/// rayon's `par_iter`, `map` and `collect`, which calls the closure once on
/// each task and returns the results in the order of the tasks.
/// Stated: one result per task, each what `wide_scalar_task` ensures of it.
#[verifier::external_body]
fn par_wide_scalar_tasks(
    tasks: &Vec<WideCrtTask>,
    n: usize,
    split_depth: usize,
    board_mask: u64,
    coefficient_limit: u64,
    microkernel_rows: usize,
) -> (results: Vec<Option<u64>>)
    requires
        split_depth <= n,
        tasks_ready(tasks@, n as nat, split_depth as nat),
        board_mask == board_mask_spec(n as nat),
        coefficient_limit >= 1,
        4 <= microkernel_rows <= 6,
    ensures
        results@.len() == tasks@.len(),
        forall|i: int|
            0 <= i < tasks@.len() ==> scalar_task_done(
                (#[trigger] tasks@[i]).orbit_weight as nat,
                paths(n as nat, (n - split_depth) as nat, tasks@[i].state, accept(n as nat)),
                coefficient_limit as nat,
                results@[i],
            ),
{
    tasks.par_iter().map(
        |&task| wide_scalar_task(task, n, split_depth, board_mask, coefficient_limit, microkernel_rows),
    ).collect()
}

/// The weighted completions of every task in checked `u64`, bounded by
/// `coefficient_limit`; `None` for a microkernel outside `4..=6` rows or
/// when a count passes the limit.
fn contract_wide_scalar_tasks(
    tasks: &Vec<WideCrtTask>,
    n: usize,
    split_depth: usize,
    board_mask: u64,
    coefficient_limit: u64,
    microkernel_rows: usize,
) -> (count: Option<u64>)
    requires
        split_depth <= n,
        n >= 1 ==> tasks_ready(tasks@, n as nat, split_depth as nat),
        n == 0 ==> tasks@ == seq![empty_task()] && split_depth == 0,
        board_mask == board_mask_spec(n as nat),
        coefficient_limit >= 1,
    ensures
        !(4 <= microkernel_rows <= 6) ==> count is None,
        4 <= microkernel_rows <= 6 ==> (count is Some <==> scalar_within(
            tasks@,
            n as nat,
            (n - split_depth) as nat,
            coefficient_limit as nat,
        )),
        count matches Some(v) ==> v == task_sum(tasks@, n as nat, (n - split_depth) as nat),
{
    if microkernel_rows < 4 || microkernel_rows > 6 {
        return None;
    }
    if n == 0 {
        proof {
            lemma_empty_task_sum();
            assert(tasks@[0] == empty_task());
        }
        return Some(1);
    }
    let ghost nn = n as nat;
    let ghost r = (n - split_depth) as nat;
    let ghost limit = coefficient_limit as nat;
    let results = par_wide_scalar_tasks(tasks, n, split_depth, board_mask, coefficient_limit, microkernel_rows);
    let mut total: u64 = 0;
    let mut ti: usize = 0;
    proof {
        assert(tasks@.take(0) =~= Seq::<WideCrtTask>::empty());
    }
    while ti < results.len()
        invariant
            results@.len() == tasks@.len(),
            ti <= tasks@.len(),
            nn == n,
            r == n - split_depth,
            limit == coefficient_limit,
            forall|i: int|
                0 <= i < tasks@.len() ==> scalar_task_done(
                    (#[trigger] tasks@[i]).orbit_weight as nat,
                    paths(nn, r, tasks@[i].state, accept(nn)),
                    limit,
                    results@[i],
                ),
            total == task_sum(tasks@.take(ti as int), nn, r),
            total <= coefficient_limit,
            forall|i: int| 0 <= i < ti ==> paths(nn, r, (#[trigger] tasks@[i]).state, accept(nn)) <= limit,
        decreases tasks@.len() - ti,
    {
        let ghost w = tasks@[ti as int].orbit_weight as nat;
        let ghost c = paths(nn, r, tasks@[ti as int].state, accept(nn));
        proof {
            lemma_task_sum_take(tasks@, ti as int, nn, r);
            lemma_task_sum_prefix(tasks@, ti + 1, nn, r);
            assert(scalar_task_done(w, c, limit, results@[ti as int]));
        }
        let weighted = match results[ti] {
            Some(v) => v,
            None => {
                proof {
                    if c <= limit {
                        assert(w * c > limit);
                        assert(task_sum(tasks@.take(ti + 1), nn, r) > limit);
                        assert(task_sum(tasks@, nn, r) > limit);
                    } else {
                        assert(paths(nn, r, tasks@[ti as int].state, accept(nn)) > limit);
                    }
                    assert(!scalar_within(tasks@, nn, r, limit));
                }
                return None;
            },
        };
        proof {
            assert(weighted == w * c);
            assert(task_sum(tasks@.take(ti + 1), nn, r) == total + weighted);
        }
        total = match total.checked_add(weighted) {
            Some(v) => {
                if v <= coefficient_limit {
                    v
                } else {
                    proof {
                        assert(!scalar_within(tasks@, nn, r, limit));
                    }
                    return None;
                }
            },
            None => {
                proof {
                    assert(!scalar_within(tasks@, nn, r, limit));
                }
                return None;
            },
        };
        ti = ti + 1;
    }
    proof {
        assert(tasks@.take(tasks@.len() as int) =~= tasks@);
    }
    Some(total)
}


/// The first task: the empty frontier with weight one.
pub open spec fn empty_task() -> WideCrtTask {
    WideCrtTask { state: empty_state(), orbit_weight: 1 }
}

/// A plan's moduli are the word-sized candidates.
proof fn lemma_plan_lanes(n: nat, plan: WideCrtPlan)
    requires
        plan_ok(n, plan),
    ensures
        lanes_ok(plan.primes@),
        crt_moduli_ok(plan.primes@),
{
    assert forall|i: int| 0 <= i < plan.primes@.len() implies 2 <= #[trigger] plan.primes@[i] < 0x1_0000_0000 by {
        assert(plan.primes@[i] == crt_candidates()[i]);
    }
}

/// A count below the plan's bound is what the reconstruction of its
/// residues gives back.
proof fn lemma_crt_count(n: nat, plan: WideCrtPlan, c: nat, residues: Seq<u64>)
    requires
        plan_ok(n, plan),
        residues_of(c, plan.primes@, residues),
        c <= factorial(n),
    ensures
        crt_agrees(c, residues, plan.primes@, plan.primes@.len() as int),
        c % modulus_product(plan.primes@) == c,
{
    lemma_plan_lanes(n, plan);
    assert forall|j: int| 0 <= j < plan.primes@.len() implies c % (#[trigger] plan.primes@[j] as nat) == (
    residues[j] as nat) % (plan.primes@[j] as nat) by {
        vstd::arithmetic::div_mod::lemma_mod_twice(c as int, plan.primes@[j] as int);
    }
    lemma_small_mod(c, modulus_product(plan.primes@));
}

/// The count of the empty board: the one placement of no queens.
proof fn lemma_empty_task_sum()
    ensures
        task_sum(seq![empty_task()], 0, 0) == 1,
        board_count(0, false) == 1,
{
    crate::sitewise::lemma_empty_board();
    let t = seq![empty_task()];
    assert(t.drop_last() =~= Seq::<WideCrtTask>::empty());
    assert(paths(0, 0, empty_state(), accept(0)) == 1);
    assert(t.last() == empty_task());
    assert(task_sum(t.drop_last(), 0, 0) == 0);
    assert((t.last().orbit_weight as nat) * paths(0, 0, t.last().state, accept(0)) == 1) by (nonlinear_arith)
        requires
            t.last().orbit_weight == 1,
            paths(0, 0, t.last().state, accept(0)) == 1,
    ;
}

/// The breadth-first prefix of the wide backend: its plan, depth, tasks and
/// the work done.
#[derive(Debug)]
pub struct WideCrtPrefixPlan {
    pub plan: WideCrtPlan,
    pub split_depth: usize,
    pub target_tail_tasks: usize,
    pub tail_tasks: usize,
    pub prefix_nodes: u128,
    pub prefix_accepted_entries: u128,
    pub prefix_kept_entries: u128,
    pub seed_elapsed: Duration,
    pub peak_rss_bytes: u64,
}

/// A prefix of the `n`-by-`n` board: the plan, the occupied relation, and
/// tasks whose weighted completions are the count of the board.
pub open spec fn prefix_ok(
    n: nat,
    plan: WideCrtPlan,
    relation: RecursiveTailRelation,
    tasks: Seq<WideCrtTask>,
    prefix: WideCrtPrefixPlan,
) -> bool {
    &&& plan_ok(n, plan)
    &&& plan_ok(n, prefix.plan)
    &&& relation.legs == occupied_legs()
    &&& relation.value == 1
    &&& prefix.split_depth <= n
    &&& prefix.tail_tasks == tasks.len()
    &&& n >= 1 ==> tasks_ready(tasks, n, prefix.split_depth as nat)
    &&& n == 0 ==> tasks == seq![empty_task()] && prefix.split_depth == 0
    &&& task_sum(tasks, n, (n - prefix.split_depth) as nat) == board_count(n, prefix.split_depth > 0)
}

fn copy_plan(plan: &WideCrtPlan) -> (copy: WideCrtPlan)
    ensures
        copy.n == plan.n,
        copy.factorial_bound == plan.factorial_bound,
        copy.primes@ == plan.primes@,
        copy.modulus_product == plan.modulus_product,
{
    let primes = plan.primes.clone();
    proof {
        assert(primes@ =~= plan.primes@);
    }
    WideCrtPlan { n: plan.n, factorial_bound: plan.factorial_bound, primes, modulus_product: plan.modulus_product }
}

/// The plan, the compiled relation, the tasks and the prefix of the wide
/// backend: rayon's worker count times `target_tasks_per_thread` tasks are
/// asked of the prefix.
fn prepare_wide_crt_prefix(n: usize, target_tasks_per_thread: usize) -> (prepared: Result<
    (WideCrtPlan, RecursiveTailRelation, Vec<WideCrtTask>, WideCrtPrefixPlan),
    String,
>)
    ensures
        target_tasks_per_thread == 0 || n > 34 ==> prepared is Err,
        target_tasks_per_thread > 0 && n <= 34 && candidates_prime_upto(factorial(n as nat)) ==> prepared is Ok,
        prepared matches Ok(p) ==> prefix_ok(n as nat, p.0, p.1, p.2@, p.3),
{
    if target_tasks_per_thread == 0 {
        return Err(message("wide CRT target tasks per thread must be positive"));
    }
    let plan = wide_crt_plan(n)?;
    let tensor = crate::tensor::SiteTensorC::sec_vi();
    let operator = CompiledRowOperator::compile(&tensor)?;
    let relation = RecursiveTailRelation::compile(&operator)?;
    if n == 0 {
        let prefix = WideCrtPrefixPlan {
            plan: copy_plan(&plan),
            split_depth: 0,
            target_tail_tasks: 1,
            tail_tasks: 1,
            prefix_nodes: 0,
            prefix_accepted_entries: 0,
            prefix_kept_entries: 0,
            seed_elapsed: zero_duration(),
            peak_rss_bytes: peak_rss_bytes(),
        };
        let tasks = vec![WideCrtTask { state: BoundaryState { columns: 0, diag_dr: 0, diag_dl: 0 }, orbit_weight: 1 }];
        proof {
            lemma_empty_task_sum();
            assert(tasks@ =~= seq![empty_task()]);
        }
        return Ok((plan, relation, tasks, prefix));
    }
    let _certified = crate::certified::CertifiedSecViTailPlan::compile(relation)?;
    let board_mask = crate::boundary::board_mask(n);
    let threads = crate::packed_layers::worker_count();
    let threads = if threads == 0 {
        1
    } else {
        threads
    };
    let target_tail_tasks = match threads.checked_mul(target_tasks_per_thread) {
        Some(t) => t,
        None => usize::MAX,
    };
    let seed_start = now();
    let (tasks, split_depth, prefix_nodes, prefix_accepted_entries, prefix_kept_entries) = build_wide_crt_tasks(
        n,
        relation,
        board_mask,
        target_tail_tasks,
    )?;
    let prefix = WideCrtPrefixPlan {
        plan: copy_plan(&plan),
        split_depth,
        target_tail_tasks,
        tail_tasks: tasks.len(),
        prefix_nodes,
        prefix_accepted_entries,
        prefix_kept_entries,
        seed_elapsed: elapsed(&seed_start),
        peak_rss_bytes: peak_rss_bytes(),
    };
    Ok((plan, relation, tasks, prefix))
}

/// The prefix of the wide backend for the `n`-by-`n` board with 512 tasks
/// asked per worker.
pub fn probe_wide_crt_prefix(n: usize) -> (prefix: Result<WideCrtPrefixPlan, String>)
    ensures
        n > 34 ==> prefix is Err,
        n <= 34 && candidates_prime_upto(factorial(n as nat)) ==> prefix is Ok,
        prefix matches Ok(p) ==> plan_ok(n as nat, p.plan) && p.split_depth <= n,
{
    let (_, _, _, prefix) = prepare_wide_crt_prefix(n, 512)?;
    Ok(prefix)
}

/// The weighted completions of every task modulo each of the moduli; an
/// error unless there are one to four moduli.
fn contract_wide_crt_residues(
    tasks: &Vec<WideCrtTask>,
    n: usize,
    split_depth: usize,
    board_mask: u64,
    primes: &Vec<u64>,
) -> (residues: Result<Vec<u64>, String>)
    requires
        split_depth <= n,
        n >= 1 ==> tasks_ready(tasks@, n as nat, split_depth as nat),
        n == 0 ==> tasks@ == seq![empty_task()] && split_depth == 0,
        board_mask == board_mask_spec(n as nat),
        lanes_ok(primes@),
    ensures
        residues is Ok <==> 1 <= primes@.len() <= 4,
        residues matches Ok(r) ==> residues_of(task_sum(tasks@, n as nat, (n - split_depth) as nat), primes@, r@),
{
    if primes.len() < 1 || primes.len() > 4 {
        return Err(message("wide CRT lane count must be in 1..=4"));
    }
    if n == 0 {
        proof {
            lemma_empty_task_sum();
        }
        return Ok(residues_of_value(1, primes));
    }
    Ok(contract_wide_crt_tasks(tasks, n, split_depth, board_mask, primes))
}

/// What the replay of one task returns: its weighted completions, when
/// they and the completions fit `u128`.
pub open spec fn replay_done(
    weight: nat,
    completions: nat,
    budget: nat,
    replayed: Result<(u128, RecursiveTailMetrics), String>,
) -> bool {
    &&& replayed is Ok <==> completions <= u128::MAX && weight * completions <= u128::MAX
    &&& replayed matches Ok(done) ==> done.0 == weight * completions && done.1.nodes <= budget
        && done.1.accepted_entries <= budget
}

/// The replay of the tasks fits `u128`: their weighted completions, the
/// completions of each, and the work bound of every recursion summed over
/// the tasks.
pub open spec fn replay_fits(tasks: Seq<WideCrtTask>, n: nat, remaining: nat) -> bool {
    &&& task_sum(tasks, n, remaining) <= u128::MAX
    &&& forall|i: int| 0 <= i < tasks.len() ==> paths(n, remaining, (#[trigger] tasks[i]).state, accept(n)) <= u128::MAX
    &&& tasks.len() * crate::recursive_tail::node_budget(remaining) <= u128::MAX
}

/// The replay of one task by the generic recursion of `C`: its weighted
/// completions and the work of the recursion.
pub fn wide_replay_task(
    task: WideCrtTask,
    n: usize,
    split_depth: usize,
    relation: RecursiveTailRelation,
    board_mask: u64,
) -> (replayed: Result<(u128, RecursiveTailMetrics), String>)
    requires
        n <= 21,
        split_depth <= n,
        relation.legs == occupied_legs(),
        relation.value == 1,
        board_mask == board_mask_spec(n as nat),
    ensures
        replay_done(
            task.orbit_weight as nat,
            paths(n as nat, (n - split_depth) as nat, task.state, accept(n as nat)),
            crate::recursive_tail::node_budget((n - split_depth) as nat),
            replayed,
        ),
{
    let mut metrics = RecursiveTailMetrics { nodes: 0, accepted_entries: 0 };
    proof {
        crate::recursive_tail::lemma_node_budget((n - split_depth) as nat, 21);
        crate::recursive_tail::lemma_node_budget_21();
    }
    let completions = contract_recursive_tail(n, split_depth, task.state, relation, board_mask, &mut metrics)?;
    proof {
        assert(completions * (task.orbit_weight as nat) == (task.orbit_weight as nat) * completions)
            by (nonlinear_arith);
    }
    match completions.checked_mul(task.orbit_weight as u128) {
        Some(weighted) => Ok((weighted, metrics)),
        None => Err(message("wide profile task weight overflow")),
    }
}

/// Replays each task with `wide_replay_task`, the tasks in parallel through
/// rayon's `par_iter`, `map` and `collect`, which calls the closure once on
/// each task and returns the results in the order of the tasks.
/// Stated: one result per task, each what `wide_replay_task` ensures of it.
#[verifier::external_body]
fn par_wide_replay_tasks(
    tasks: &Vec<WideCrtTask>,
    n: usize,
    split_depth: usize,
    relation: RecursiveTailRelation,
    board_mask: u64,
) -> (results: Vec<Result<(u128, RecursiveTailMetrics), String>>)
    requires
        n <= 21,
        split_depth <= n,
        relation.legs == occupied_legs(),
        relation.value == 1,
        board_mask == board_mask_spec(n as nat),
    ensures
        results@.len() == tasks@.len(),
        forall|i: int|
            0 <= i < tasks@.len() ==> replay_done(
                (#[trigger] tasks@[i]).orbit_weight as nat,
                paths(n as nat, (n - split_depth) as nat, tasks@[i].state, accept(n as nat)),
                crate::recursive_tail::node_budget((n - split_depth) as nat),
                results@[i],
            ),
{
    tasks.par_iter().map(|&task| wide_replay_task(task, n, split_depth, relation, board_mask)).collect()
}

/// The replay of every task by the generic recursion: the sum of the
/// weighted completions and the calls and entries of the recursions, each
/// total checked in `u128`.
fn replay_wide_tasks(
    tasks: &Vec<WideCrtTask>,
    n: usize,
    split_depth: usize,
    relation: RecursiveTailRelation,
    board_mask: u64,
) -> (replayed: Result<(u128, u128, u128), String>)
    requires
        n <= 21,
        split_depth <= n,
        relation.legs == occupied_legs(),
        relation.value == 1,
        board_mask == board_mask_spec(n as nat),
    ensures
        replayed matches Ok(r) ==> r.0 == task_sum(tasks@, n as nat, (n - split_depth) as nat),
        replay_fits(tasks@, n as nat, (n - split_depth) as nat) ==> replayed is Ok,
{
    let ghost r = (n - split_depth) as nat;
    let ghost budget = crate::recursive_tail::node_budget(r);
    let ghost fits = replay_fits(tasks@, n as nat, r);
    let partials = par_wide_replay_tasks(tasks, n, split_depth, relation, board_mask);
    let mut replay_count: u128 = 0;
    let mut recursive_nodes: u128 = 0;
    let mut recursive_accepted_entries: u128 = 0;
    let mut ti: usize = 0;
    proof {
        assert(tasks@.take(0) =~= Seq::<WideCrtTask>::empty());
    }
    while ti < partials.len()
        invariant
            partials@.len() == tasks@.len(),
            ti <= tasks@.len(),
            r == n - split_depth,
            forall|i: int|
                0 <= i < tasks@.len() ==> replay_done(
                    (#[trigger] tasks@[i]).orbit_weight as nat,
                    paths(n as nat, r, tasks@[i].state, accept(n as nat)),
                    crate::recursive_tail::node_budget((n - split_depth) as nat),
                    partials@[i],
                ),
            replay_count == task_sum(tasks@.take(ti as int), n as nat, r),
            budget == crate::recursive_tail::node_budget(r),
            fits == replay_fits(tasks@, n as nat, r),
            recursive_nodes <= ti * budget,
            recursive_accepted_entries <= ti * budget,
        decreases tasks@.len() - ti,
    {
        proof {
            if fits {
                lemma_task_sum_take(tasks@, ti as int, n as nat, r);
                lemma_task_sum_prefix(tasks@, ti + 1, n as nat, r);
                assert(paths(n as nat, r, tasks@[ti as int].state, accept(n as nat)) <= u128::MAX);
                assert(ti * budget + budget <= tasks@.len() * budget) by (nonlinear_arith)
                    requires
                        ti < tasks@.len(),
                ;
            }
            assert(ti * budget + budget == (ti + 1) * budget) by (nonlinear_arith);
        }
        proof {
            lemma_task_sum_take(tasks@, ti as int, n as nat, r);
            assert(replay_done(
                tasks@[ti as int].orbit_weight as nat,
                paths(n as nat, r, tasks@[ti as int].state, accept(n as nat)),
                crate::recursive_tail::node_budget((n - split_depth) as nat),
                partials@[ti as int],
            ));
        }
        let (weighted, metrics) = match &partials[ti] {
            Ok(done) => *done,
            Err(e) => {
                return Err(e.clone());
            },
        };
        replay_count = match replay_count.checked_add(weighted) {
            Some(v) => v,
            None => {
                return Err(message("wide profile reduction overflow"));
            },
        };
        recursive_nodes = match recursive_nodes.checked_add(metrics.nodes) {
            Some(v) => v,
            None => {
                return Err(message("wide recursive node counter overflow"));
            },
        };
        recursive_accepted_entries = match recursive_accepted_entries.checked_add(metrics.accepted_entries) {
            Some(v) => v,
            None => {
                return Err(message("wide accepted-entry counter overflow"));
            },
        };
        ti = ti + 1;
    }
    proof {
        assert(tasks@.take(tasks@.len() as int) =~= tasks@);
    }
    Ok((replay_count, recursive_nodes, recursive_accepted_entries))
}

/// The inputs on which the wide backends owe a count without a replay: a
/// board of width at most 34 whose needed candidate moduli are primes.
pub open spec fn wide_owed(n: nat) -> bool {
    &&& n <= 34
    &&& candidates_prime_upto(factorial(n))
}

/// The moduli of a plan inherit the inverses of the candidates.
proof fn lemma_plan_invertible(n: nat, plan: WideCrtPlan)
    requires
        plan_ok(n, plan),
        crt_invertible(crt_candidates()),
    ensures
        crt_invertible(plan.primes@),
        modulus_product(plan.primes@) <= u128::MAX,
{
    let p = plan.primes@;
    assert forall|i: int| 0 <= i < p.len() implies fermat_inverse_ok(modulus_product(p.take(i)), #[trigger] p[i]) by {
        assert(p.take(i) =~= crt_candidates().take(i));
        assert(p[i] == crt_candidates()[i]);
        assert(fermat_inverse_ok(modulus_product(crt_candidates().take(i)), crt_candidates()[i]));
    }
}

/// The result of the wide CRT backend.
#[derive(Debug)]
pub struct WideCrtResult {
    pub contraction: ContractionResult,
    pub plan: WideCrtPlan,
    pub split_depth: usize,
    pub target_tail_tasks: usize,
    pub tail_tasks: usize,
    pub prefix_nodes: u128,
    pub prefix_accepted_entries: u128,
    pub prefix_kept_entries: u128,
    pub recursive_nodes: u128,
    pub recursive_accepted_entries: u128,
    pub seed_elapsed: Duration,
    pub tail_elapsed: Duration,
    pub profile_replay_elapsed: Duration,
    pub residues: Vec<u64>,
}

/// What the wide CRT backend returns for the `n`-by-`n` board: the count,
/// by the first-row reflection orbits once the prefix has a row, which is
/// the plain exact count; its residues modulo the plan's primes; and the
/// plan.
pub open spec fn wide_crt_spec(n: nat, r: WideCrtResult) -> bool {
    &&& r.contraction.n == n
    &&& r.contraction.count == board_count(n, r.split_depth > 0)
    &&& r.contraction.count == board_count(n, false)
    &&& plan_ok(n, r.plan)
    &&& residues_of(r.contraction.count as nat, r.plan.primes@, r.residues@)
    &&& r.split_depth <= n
}

/// The exact count of the `n`-by-`n` board by the wide CRT backend with 512
/// tasks asked per worker.
pub fn contract_rows_wide_crt(n: usize, profile_replay: bool) -> (result: Result<WideCrtResult, String>)
    ensures
        n > 34 ==> result is Err,
        profile_replay && n > 21 ==> result is Err,
        !profile_replay && wide_owed(n as nat) ==> result is Ok,
        result matches Ok(r) ==> wide_crt_spec(n as nat, r),
{
    contract_rows_wide_crt_with_target(n, profile_replay, 512)
}

/// The exact count of the `n`-by-`n` board up to width 34: the weighted
/// completions of the prefix tasks modulo each prime of the plan, joined by
/// the Chinese remainder theorem; with `profile_replay` each task is
/// replayed by the generic recursion of `C` (up to width 21), which must
/// agree.
pub fn contract_rows_wide_crt_with_target(
    n: usize,
    profile_replay: bool,
    target_tasks_per_thread: usize,
) -> (result: Result<WideCrtResult, String>)
    ensures
        n > 34 || target_tasks_per_thread == 0 ==> result is Err,
        profile_replay && n > 21 ==> result is Err,
        !profile_replay && target_tasks_per_thread > 0 && wide_owed(n as nat) ==> result is Ok,
        result matches Ok(r) ==> wide_crt_spec(n as nat, r),
{
    let total_start = now();
    let (plan, relation, tasks, prefix) = prepare_wide_crt_prefix(n, target_tasks_per_thread)?;
    if profile_replay && n > 21 {
        return Err(message("wide profile replay by the generic C recursion supports N <= 21"));
    }
    let ghost nn = n as nat;
    let ghost target = board_count(nn, prefix.split_depth > 0);
    proof {
        lemma_plan_lanes(nn, plan);
        lemma_candidates_invertible();
        lemma_plan_invertible(nn, plan);
        lemma_board_count_factorial(nn, prefix.split_depth > 0);
    }
    let board_mask = if n == 0 {
        0
    } else {
        crate::boundary::board_mask(n)
    };
    proof {
        if n == 0 {
            crate::sitewise::lemma_empty_board();
        }
    }
    let tail_start = now();
    let residues = contract_wide_crt_residues(&tasks, n, prefix.split_depth, board_mask, &plan.primes)?;
    let tail_elapsed = elapsed(&tail_start);
    let total_elapsed = elapsed(&total_start);
    let count = reconstruct_crt(&residues, &plan.primes)?;
    proof {
        lemma_crt_count(nn, plan, target, residues@);
    }
    if count > plan.factorial_bound {
        return Err(message("CRT reconstruction exceeds certified N! count bound"));
    }
    let profile_start = now();
    let mut recursive_nodes: u128 = 0;
    let mut recursive_accepted_entries: u128 = 0;
    if profile_replay {
        let (replay_count, nodes, accepted) = replay_wide_tasks(&tasks, n, prefix.split_depth, relation, board_mask)?;
        if replay_count != count {
            return Err(message("wide CRT reconstruction disagrees with generic C replay"));
        }
        recursive_nodes = nodes;
        recursive_accepted_entries = accepted;
    }
    let profile_replay_elapsed = elapsed(&profile_start);
    let total_accepted = match prefix.prefix_accepted_entries.checked_add(recursive_accepted_entries) {
        Some(v) => v,
        None => {
            return Err(message("wide CRT total accepted-entry counter overflow"));
        },
    };
    let tail_tasks = tasks.len();
    Ok(
        WideCrtResult {
            contraction: ContractionResult {
                n,
                count,
                elapsed: total_elapsed,
                peak_states: if tail_tasks == 0 {
                    1
                } else {
                    tail_tasks
                },
                tensor_entries_examined: 17,
                tensor_entries_matched: 17,
                row_operator_candidates: total_accepted,
                row_operator_matched: total_accepted,
                peak_rss_bytes: peak_rss_bytes(),
                layers: Vec::new(),
            },
            plan,
            split_depth: prefix.split_depth,
            target_tail_tasks: prefix.target_tail_tasks,
            tail_tasks,
            prefix_nodes: prefix.prefix_nodes,
            prefix_accepted_entries: prefix.prefix_accepted_entries,
            prefix_kept_entries: prefix.prefix_kept_entries,
            recursive_nodes,
            recursive_accepted_entries,
            seed_elapsed: prefix.seed_elapsed,
            tail_elapsed,
            profile_replay_elapsed,
            residues,
        },
    )
}


/// Each task of a ready prefix has at most `n!` completions.
proof fn lemma_tasks_factorial(tasks: Seq<WideCrtTask>, n: nat, depth: nat)
    requires
        1 <= n,
        depth <= n,
        tasks_ready(tasks, n, depth),
    ensures
        forall|i: int|
            0 <= i < tasks.len() ==> paths(n, (n - depth) as nat, (#[trigger] tasks[i]).state, accept(n)) <= factorial(n),
{
    assert forall|i: int| 0 <= i < tasks.len() implies paths(
        n,
        (n - depth) as nat,
        (#[trigger] tasks[i]).state,
        accept(n),
    ) <= factorial(n) by {
        lemma_paths_factorial(n, (n - depth) as nat, tasks[i].state);
        lemma_factorial_monotone((n - depth) as nat, n);
    }
}

/// The result of the wide backend with a checked `u64` fast path.
#[derive(Debug)]
pub struct WideScalarResult {
    pub contraction: ContractionResult,
    pub plan: WideCrtPlan,
    pub split_depth: usize,
    pub target_tail_tasks: usize,
    pub tail_tasks: usize,
    pub prefix_nodes: u128,
    pub prefix_accepted_entries: u128,
    pub prefix_kept_entries: u128,
    pub recursive_nodes: u128,
    pub recursive_accepted_entries: u128,
    pub seed_elapsed: Duration,
    pub tail_elapsed: Duration,
    pub profile_replay_elapsed: Duration,
    pub used_scalar_u64: bool,
    pub promotion_reason: Option<String>,
    pub residues: Vec<u64>,
}

/// What the wide backend with a `u64` fast path returns for the `n`-by-`n`
/// board: the count and its residues as the CRT backend does; the fast path
/// is taken only when `n!` fits `u64` and the count is within the limit,
/// and always when the limit is `u64::MAX`; a reason is given exactly when
/// it was not taken.
pub open spec fn wide_scalar_spec(n: nat, limit: nat, microkernel_rows: nat, r: WideScalarResult) -> bool {
    &&& r.contraction.n == n
    &&& r.contraction.count == board_count(n, r.split_depth > 0)
    &&& r.contraction.count == board_count(n, false)
    &&& plan_ok(n, r.plan)
    &&& residues_of(r.contraction.count as nat, r.plan.primes@, r.residues@)
    &&& r.split_depth <= n
    &&& r.used_scalar_u64 <==> r.promotion_reason is None
    &&& r.used_scalar_u64 ==> factorial(n) <= u64::MAX && 4 <= microkernel_rows <= 6 && r.contraction.count <= limit
    &&& limit == u64::MAX && factorial(n) <= u64::MAX && 4 <= microkernel_rows <= 6 ==> r.used_scalar_u64
}

/// The exact count of the `n`-by-`n` board, with the `u64` fast path over
/// the last four rows and no limit but `u64::MAX`.
pub fn contract_rows_wide_scalar(n: usize, profile_replay: bool) -> (result: Result<WideScalarResult, String>)
    ensures
        n > 34 ==> result is Err,
        profile_replay && n > 21 ==> result is Err,
        !profile_replay && wide_owed(n as nat) ==> result is Ok,
        result matches Ok(r) ==> wide_scalar_spec(n as nat, u64::MAX as nat, 4, r),
{
    contract_rows_wide_scalar_last_k_impl(n, profile_replay, 512, u64::MAX, 4)
}

/// `contract_rows_wide_scalar` with `target_tasks_per_thread` tasks asked per
/// worker.
pub fn contract_rows_wide_scalar_with_target(
    n: usize,
    profile_replay: bool,
    target_tasks_per_thread: usize,
) -> (result: Result<WideScalarResult, String>)
    ensures
        n > 34 || target_tasks_per_thread == 0 ==> result is Err,
        profile_replay && n > 21 ==> result is Err,
        !profile_replay && target_tasks_per_thread > 0 && wide_owed(n as nat) ==> result is Ok,
        result matches Ok(r) ==> wide_scalar_spec(n as nat, u64::MAX as nat, 4, r),
{
    contract_rows_wide_scalar_last_k_impl(n, profile_replay, target_tasks_per_thread, u64::MAX, 4)
}

/// `contract_rows_wide_scalar_with_target` with the `u64` sums bounded by
/// `coefficient_limit`: past it the tasks are counted again by CRT.
pub fn contract_rows_wide_scalar_with_target_and_limit(
    n: usize,
    profile_replay: bool,
    target_tasks_per_thread: usize,
    coefficient_limit: u64,
) -> (result: Result<WideScalarResult, String>)
    ensures
        n > 34 || target_tasks_per_thread == 0 ==> result is Err,
        profile_replay && n > 21 ==> result is Err,
        !profile_replay && target_tasks_per_thread > 0 && wide_owed(n as nat) ==> result is Ok,
        result matches Ok(r) ==> wide_scalar_spec(n as nat, coefficient_limit as nat, 4, r),
{
    contract_rows_wide_scalar_last_k_impl(n, profile_replay, target_tasks_per_thread, coefficient_limit, 4)
}

/// The wide backend with the `u64` fast path over the last
/// `microkernel_rows` rows, refused outside `4..=6`.
pub fn contract_rows_wide_scalar_last_k_with_target(
    n: usize,
    profile_replay: bool,
    target_tasks_per_thread: usize,
    microkernel_rows: usize,
) -> (result: Result<WideScalarResult, String>)
    ensures
        !(4 <= microkernel_rows <= 6) || n > 34 || target_tasks_per_thread == 0 ==> result is Err,
        profile_replay && n > 21 ==> result is Err,
        4 <= microkernel_rows <= 6 && !profile_replay && target_tasks_per_thread > 0 && wide_owed(n as nat)
            ==> result is Ok,
        result matches Ok(r) ==> wide_scalar_spec(n as nat, u64::MAX as nat, microkernel_rows as nat, r),
{
    if microkernel_rows < 4 || microkernel_rows > 6 {
        return Err(message("wide scalar last-k rows must be in 4..=6"));
    }
    contract_rows_wide_scalar_last_k_impl(n, profile_replay, target_tasks_per_thread, u64::MAX, microkernel_rows)
}

fn contract_rows_wide_scalar_last_k_impl(
    n: usize,
    profile_replay: bool,
    target_tasks_per_thread: usize,
    coefficient_limit: u64,
    microkernel_rows: usize,
) -> (result: Result<WideScalarResult, String>)
    ensures
        n > 34 || target_tasks_per_thread == 0 ==> result is Err,
        profile_replay && n > 21 ==> result is Err,
        !profile_replay && target_tasks_per_thread > 0 && wide_owed(n as nat) ==> result is Ok,
        result matches Ok(r) ==> wide_scalar_spec(n as nat, coefficient_limit as nat, microkernel_rows as nat, r),
{
    let total_start = now();
    let (plan, relation, tasks, prefix) = prepare_wide_crt_prefix(n, target_tasks_per_thread)?;
    if profile_replay && n > 21 {
        return Err(message("wide profile replay by the generic C recursion supports N <= 21"));
    }
    let ghost nn = n as nat;
    let ghost r = (n - prefix.split_depth) as nat;
    let ghost target = board_count(nn, prefix.split_depth > 0);
    proof {
        lemma_plan_lanes(nn, plan);
        lemma_candidates_invertible();
        lemma_plan_invertible(nn, plan);
        lemma_board_count_factorial(nn, prefix.split_depth > 0);
        if n >= 1 {
            lemma_tasks_factorial(tasks@, nn, prefix.split_depth as nat);
        } else {
            lemma_empty_task_sum();
        }
    }
    let board_mask = if n == 0 {
        0
    } else {
        crate::boundary::board_mask(n)
    };
    proof {
        if n == 0 {
            crate::sitewise::lemma_empty_board();
        }
    }
    let scalar_bound_certified = plan.factorial_bound <= u64::MAX as u128;
    let tail_start = now();
    let scalar_count: Option<Option<u64>> = if !scalar_bound_certified {
        None
    } else if coefficient_limit == 0 {
        Some(None)
    } else {
        Some(
            contract_wide_scalar_tasks(&tasks, n, prefix.split_depth, board_mask, coefficient_limit, microkernel_rows),
        )
    };
    proof {
        if coefficient_limit == u64::MAX && factorial(nn) <= u64::MAX && 4 <= microkernel_rows <= 6 && n >= 1 {
            assert(scalar_within(tasks@, nn, r, coefficient_limit as nat));
        }
    }
    let count: u128;
    let used_scalar_u64: bool;
    let promotion_reason: Option<String>;
    let residues: Vec<u64>;
    match scalar_count {
        Some(Some(c)) => {
            count = c as u128;
            used_scalar_u64 = true;
            promotion_reason = None;
            residues = residues_of_value(c, &plan.primes);
        },
        Some(None) => {
            let lanes = contract_wide_crt_residues(&tasks, n, prefix.split_depth, board_mask, &plan.primes)?;
            let value = reconstruct_crt(&lanes, &plan.primes)?;
            proof {
                lemma_crt_count(nn, plan, target, lanes@);
            }
            count = value;
            used_scalar_u64 = false;
            promotion_reason = Some(message("checked scalar-u64 limit exceeded; replayed identical C sectors with CRT"));
            residues = lanes;
        },
        None => {
            let lanes = contract_wide_crt_residues(&tasks, n, prefix.split_depth, board_mask, &plan.primes)?;
            let value = reconstruct_crt(&lanes, &plan.primes)?;
            proof {
                lemma_crt_count(nn, plan, target, lanes@);
            }
            count = value;
            used_scalar_u64 = false;
            promotion_reason = Some(message("N! exactness bound exceeds u64; used certified CRT backend"));
            residues = lanes;
        },
    }
    let tail_elapsed = elapsed(&tail_start);
    let total_elapsed = elapsed(&total_start);
    if count > plan.factorial_bound {
        return Err(message("wide scalar/CRT reconstruction exceeds certified N! count bound"));
    }
    let profile_start = now();
    let mut recursive_nodes: u128 = 0;
    let mut recursive_accepted_entries: u128 = 0;
    if profile_replay {
        let (replay_count, nodes, accepted) = replay_wide_tasks(&tasks, n, prefix.split_depth, relation, board_mask)?;
        if replay_count != count {
            return Err(message("wide scalar/CRT result disagrees with generic C replay"));
        }
        recursive_nodes = nodes;
        recursive_accepted_entries = accepted;
    }
    let profile_replay_elapsed = elapsed(&profile_start);
    let total_accepted = match prefix.prefix_accepted_entries.checked_add(recursive_accepted_entries) {
        Some(v) => v,
        None => {
            return Err(message("wide scalar total accepted-entry counter overflow"));
        },
    };
    let tail_tasks = tasks.len();
    Ok(
        WideScalarResult {
            contraction: ContractionResult {
                n,
                count,
                elapsed: total_elapsed,
                peak_states: if tail_tasks == 0 {
                    1
                } else {
                    tail_tasks
                },
                tensor_entries_examined: 17,
                tensor_entries_matched: 17,
                row_operator_candidates: total_accepted,
                row_operator_matched: total_accepted,
                peak_rss_bytes: peak_rss_bytes(),
                layers: Vec::new(),
            },
            plan,
            split_depth: prefix.split_depth,
            target_tail_tasks: prefix.target_tail_tasks,
            tail_tasks,
            prefix_nodes: prefix.prefix_nodes,
            prefix_accepted_entries: prefix.prefix_accepted_entries,
            prefix_kept_entries: prefix.prefix_kept_entries,
            recursive_nodes,
            recursive_accepted_entries,
            seed_elapsed: prefix.seed_elapsed,
            tail_elapsed,
            profile_replay_elapsed,
            used_scalar_u64,
            promotion_reason,
            residues,
        },
    )
}

} // verus!
