use nqueens_peps_naive::{
    contract_rows_adaptive_fast_tail, contract_rows_adaptive_fast_tail_impl,
    contract_rows_adaptive_last_k_tail, contract_rows_adaptive_last_k_tail_with_rows,
    contract_rows_certified_fast_tail, contract_rows_certified_fast_tail_with_limit, known_count,
};

#[test]
fn certified_u64_tail_and_forced_u128_replay_are_exact() {
    assert_eq!(contract_rows_certified_fast_tail(0, 8, 0, true).unwrap().contraction.count, 1);
    for n in 1..=10 {
        for cut in 1..=n {
            let result = contract_rows_certified_fast_tail(n, 8, cut, true).unwrap();
            assert!(result.used_u64_fast_path, "N={n}, cut={cut}");
            assert_eq!(Some(result.contraction.count), known_count(n), "N={n}, cut={cut}");
            if result.prefix_support > 0 {
                assert!(result.recursive_nodes > 0);
            }
        }
    }
    let promoted = contract_rows_certified_fast_tail_with_limit(8, 8, 1, false, 1).unwrap();
    assert!(!promoted.used_u64_fast_path);
    assert_eq!(promoted.contraction.count, 92);
    assert!(promoted.promotion_reason.is_some());
}

#[test]
fn adaptive_actual_support_cut_selection_is_exact() {
    for n in 0..=10 {
        let result = contract_rows_adaptive_fast_tail(n, 8, true).unwrap();
        assert_eq!(Some(result.fast.contraction.count), known_count(n), "N={n}");
        assert!(result.selected_cut <= n);
        if n > 0 {
            assert!(!result.probes.is_empty());
            assert_eq!(result.probes.last().unwrap().cut, result.selected_cut);
        }
    }
}

#[test]
fn certified_last_k_microkernel_and_forced_replay_are_exact() {
    for n in 0..=10 {
        for microkernel_rows in 2..=4 {
            let result =
                contract_rows_adaptive_last_k_tail_with_rows(n, 8, true, microkernel_rows).unwrap();
            assert_eq!(
                Some(result.fast.contraction.count),
                known_count(n),
                "N={n}, last-k={microkernel_rows}"
            );
            assert!(result.fast.used_u64_fast_path);
        }
    }
    let promoted = contract_rows_adaptive_fast_tail_impl(8, 8, false, 4, 1).unwrap();
    assert!(!promoted.fast.used_u64_fast_path);
    assert_eq!(promoted.fast.contraction.count, 92);
    assert!(promoted.fast.promotion_reason.is_some());
}

#[test]
fn certified_tails_refuse_bad_cuts_and_kernels() {
    assert!(contract_rows_certified_fast_tail(8, 8, 0, false).is_err());
    assert!(contract_rows_certified_fast_tail(8, 8, 9, false).is_err());
    assert!(contract_rows_certified_fast_tail(22, 8, 3, false).is_err());
    assert!(contract_rows_adaptive_last_k_tail_with_rows(8, 8, false, 5).is_err());
    assert!(contract_rows_adaptive_last_k_tail_with_rows(8, 8, false, 1).is_err());
    let last_four = contract_rows_adaptive_last_k_tail(9, 8, false).unwrap();
    assert_eq!(last_four.fast.contraction.count, 352);
    let deep = contract_rows_certified_fast_tail(9, 2, 9, false).unwrap();
    assert_eq!(deep.contraction.count, 352);
    assert_eq!(deep.contraction.layers.len(), 9);
}

#[test]
fn certified_u64_path_needs_the_sliced_count_within_the_limit() {
    // The reflection-sliced count of the 8-by-8 board is 92 (orbit-weighted
    // first row); a limit below it forces the exact replay.
    let fast = contract_rows_certified_fast_tail_with_limit(8, 8, 2, false, 92).unwrap();
    assert!(fast.used_u64_fast_path);
    assert_eq!(fast.contraction.count, 92);
    let replayed = contract_rows_certified_fast_tail_with_limit(8, 8, 2, false, 91).unwrap();
    assert!(!replayed.used_u64_fast_path);
    assert_eq!(replayed.contraction.count, 92);
    assert_eq!(
        replayed.promotion_reason.as_deref(),
        Some("checked u64 tail overflow; exact u128 replay used")
    );
}
