use nqueens_peps_naive::known_count;
use nqueens_peps_naive::wide::{
    contract_rows_wide_crt, contract_rows_wide_scalar, contract_rows_wide_scalar_last_k_with_target,
    contract_rows_wide_scalar_with_target_and_limit, probe_wide_crt_prefix, reconstruct_crt, wide_crt_plan,
};

#[test]
fn wide_crt_bounds_primes_and_reconstruction_are_certified() {
    let plan22 = wide_crt_plan(22).unwrap();
    assert_eq!(plan22.primes.len(), 3);
    assert!(plan22.modulus_product > plan22.factorial_bound);
    let plan28 = wide_crt_plan(28).unwrap();
    assert_eq!(plan28.primes.len(), 4);
    assert!(plan28.modulus_product > plan28.factorial_bound);

    let value = 234_907_967_154_122_528_u128;
    let residues = plan28
        .primes
        .iter()
        .map(|&prime| (value % u128::from(prime)) as u64)
        .collect::<Vec<_>>();
    assert_eq!(reconstruct_crt(&residues, &plan28.primes).unwrap(), value);
}

#[test]
fn wide_crt_contraction_and_n22_prefix_are_explicit_c_exact() {
    for n in 0..=12 {
        let result = contract_rows_wide_crt(n, true).unwrap();
        assert_eq!(Some(result.contraction.count), known_count(n), "N={n}");
        assert!(result.plan.modulus_product > result.plan.factorial_bound);
    }
    for n in [22, 28] {
        let prefix = probe_wide_crt_prefix(n).unwrap();
        assert!(prefix.tail_tasks >= prefix.target_tail_tasks);
        assert!(prefix.split_depth <= n);
        assert_eq!(prefix.plan.n, n);
    }
}

#[test]
fn wide_scalar_fast_path_and_forced_crt_replay_are_explicit_c_exact() {
    for n in 0..=12 {
        let result = contract_rows_wide_scalar(n, true).unwrap();
        assert!(result.used_scalar_u64, "N={n}");
        assert_eq!(Some(result.contraction.count), known_count(n), "N={n}");
        assert!(result.plan.factorial_bound <= u128::from(u64::MAX));
    }
    let promoted = contract_rows_wide_scalar_with_target_and_limit(8, true, 512, 1).unwrap();
    assert!(!promoted.used_scalar_u64);
    assert!(promoted.promotion_reason.is_some());
    assert_eq!(promoted.contraction.count, 92);
    assert_eq!(promoted.residues.len(), promoted.plan.primes.len());
}

#[test]
fn wide_scalar_last_five_and_six_match_generic_c_replay() {
    for n in 0..=10 {
        for microkernel_rows in 4..=6 {
            let result = contract_rows_wide_scalar_last_k_with_target(n, true, 512, microkernel_rows).unwrap();
            assert!(result.used_scalar_u64, "N={n}, last-k={microkernel_rows}");
            assert_eq!(Some(result.contraction.count), known_count(n), "N={n}, last-k={microkernel_rows}");
        }
    }
    assert!(contract_rows_wide_scalar_last_k_with_target(8, false, 512, 7).is_err());
}

#[test]
fn wide_plan_refuses_boards_past_thirty_four() {
    assert!(wide_crt_plan(35).is_err());
    let plan = wide_crt_plan(0).unwrap();
    assert_eq!(plan.factorial_bound, 1);
    assert_eq!(plan.primes.len(), 1);
}

#[test]
fn wide_reconstruction_refuses_mismatched_lanes() {
    let plan = wide_crt_plan(22).unwrap();
    assert!(reconstruct_crt(&vec![1, 2], &plan.primes).is_err());
    assert!(reconstruct_crt(&Vec::new(), &Vec::new()).is_err());
}
