use nqueens_peps_naive::frontier_audit::{AUDIT_PRIMES, audit_frontier_distinguishability};
use nqueens_peps_naive::future_quotient::analyze_future_equivalence;
use nqueens_peps_naive::gpu::{
    AbiLayout, GpuError, GpuOptions, GpuScheme, compile_descriptor, from_limbs, limbs, plan_gpu_run,
    validate_abi,
};
use nqueens_peps_naive::known_count;
use nqueens_peps_naive::ordering_oracle::{SiteOrdering, ordered_sites, profile_ordering};
use std::collections::HashSet;
use nqueens_peps_naive::BoundaryState;
use nqueens_peps_naive::exact_mps;
use nqueens_peps_naive::exact_mps::{FIELD_PRIME, contract_exact_mps, inverse, rank_factor};
use nqueens_peps_naive::path_search::{PathKind, contract_with_path};
use nqueens_peps_naive::rank_diagnostic::{
    RANK_PRIMES, diagnose_peak_layer_rank, mod_pow, sparse_rank, spatial_flatten_key,
};
use nqueens_peps_naive::weighted_dd::contract_weighted_dd;

fn expected_layout() -> AbiLayout {
    AbiLayout {
        transition_descriptor_size: 64,
        options_size: 16,
        layer_metric_size: 120,
        run_result_size: 760,
        device_info_size: 680,
        run_result_align: 8,
        layer_metric_align: 8,
    }
}

#[test]
fn ffi_layout_and_tensor_descriptor_are_fail_closed() {
    validate_abi(&expected_layout()).unwrap();
    let descriptor = compile_descriptor().unwrap();
    assert_eq!(descriptor.tensor_entries_examined, 17);
    assert_eq!(descriptor.tensor_entries_matched, 17);
    assert_eq!(descriptor.column_in, 0);
    assert_eq!(descriptor.column_out, 1);
    assert_eq!(descriptor.row_in, 0);
    assert_eq!(descriptor.row_out, 1);
    assert_eq!(descriptor.diag_dr_in, 0);
    assert_eq!(descriptor.diag_dr_out, 1);
    assert_eq!(descriptor.diag_dl_in, 0);
    assert_eq!(descriptor.diag_dl_out, 1);
    assert_eq!(from_limbs(descriptor.value_lo, descriptor.value_hi), 1);
}

#[test]
fn scheme_resolution_is_exact_and_bounded() {
    assert_eq!(GpuScheme::Auto.resolve(20).unwrap(), GpuScheme::Compact64);
    assert_eq!(GpuScheme::Auto.resolve(21).unwrap(), GpuScheme::Wide128);
    assert_eq!(GpuScheme::Auto.resolve(42).unwrap(), GpuScheme::Wide128);
    assert!(GpuScheme::Auto.resolve(43).is_err());
    assert!(GpuScheme::Compact64.resolve(21).is_err());
    assert!((1_u128..=20).product::<u128>() < (1_u128 << 64));
}

#[test]
fn audit_primes_are_distinct_and_large() {
    assert_ne!(AUDIT_PRIMES[0], AUDIT_PRIMES[1]);
    assert!(AUDIT_PRIMES.iter().all(|&prime| prime > u64::MAX / 2));
}

#[test]
fn every_ordering_is_a_site_permutation() {
    for n in 1..=6 {
        for ordering in [
            SiteOrdering::RowMajor,
            SiteOrdering::Snake,
            SiteOrdering::DiagonalWavefront,
        ] {
            let sites = ordered_sites(n, ordering);
            assert_eq!(sites.len(), n * n);
            assert_eq!(sites.iter().copied().collect::<HashSet<_>>().len(), n * n);
        }
    }
}

#[test]
fn all_orderings_match_known_counts_through_n4() {
    for n in 0..=4 {
        for ordering in [
            SiteOrdering::RowMajor,
            SiteOrdering::Snake,
            SiteOrdering::DiagonalWavefront,
        ] {
            assert_eq!(
                profile_ordering(n, ordering).unwrap().count,
                known_count(n).unwrap(),
                "N={n}, ordering={}",
                ordering.name()
            );
        }
    }
}

#[test]
fn future_quotient_reconstructs_known_counts_through_n9() {
    for n in 0..=9 {
        let result = analyze_future_equivalence(n).unwrap();
        assert_eq!(result.count, known_count(n).unwrap(), "N={n}");
        assert!(result.peak_future_classes <= result.peak_reachable_states);
    }
}

#[test]
fn certified_audit_matches_known_counts_through_n9() {
    for n in 0..=9 {
        let result = audit_frontier_distinguishability(n).unwrap();
        assert!(result.certified);
        assert_eq!(result.count, known_count(n).unwrap(), "N={n}");
        assert_eq!(
            result.signature_transitions, result.witness_replay_transitions,
            "N={n}"
        );
        assert!(result.peak_certified_classes <= result.peak_reachable_states.max(2));
    }
}

#[test]
fn gpu_scheme_names_round_trip_and_reject_unknown_text() {
    for scheme in [GpuScheme::Auto, GpuScheme::Compact64, GpuScheme::Wide128] {
        assert_eq!(GpuScheme::parse(scheme.as_str()).unwrap(), scheme);
    }
    assert_eq!(GpuScheme::Wide128.as_str(), "wide128");
    assert!(matches!(
        GpuScheme::parse("fast"),
        Err(GpuError::InvalidArgument(_))
    ));
    assert_eq!(GpuOptions::default().memory_limit_percent, 85);
}

#[test]
fn abi_layout_mismatch_is_refused() {
    let mut layout = expected_layout();
    layout.run_result_size = 752;
    assert!(matches!(validate_abi(&layout), Err(GpuError::Abi(_))));
    let mut aligned = expected_layout();
    aligned.layer_metric_align = 4;
    assert!(validate_abi(&aligned).is_err());
}

#[test]
fn limbs_split_and_join_wide_values() {
    let value = (7_u128 << 64) | 9;
    assert_eq!(limbs(value), (9, 7));
    assert_eq!(from_limbs(9, 7), value);
    assert_eq!(from_limbs(limbs(u128::MAX).0, limbs(u128::MAX).1), u128::MAX);
}

#[test]
fn snake_order_reverses_odd_rows() {
    let sites = ordered_sites(3, SiteOrdering::Snake);
    assert_eq!(sites[3], (1, 2));
    assert_eq!(sites[5], (1, 0));
    let wave = ordered_sites(3, SiteOrdering::DiagonalWavefront);
    assert_eq!(wave[0], (0, 0));
    assert_eq!(wave[1], (0, 1));
    assert_eq!(wave[2], (1, 0));
    assert_eq!(wave[8], (2, 2));
}

#[test]
fn oracle_and_quotient_refuse_oversized_boards() {
    assert!(profile_ordering(7, SiteOrdering::RowMajor).is_err());
    assert!(analyze_future_equivalence(43).is_err());
    assert!(audit_frontier_distinguishability(43).is_err());
}

#[test]
fn sparse_elimination_finds_known_ranks_over_both_primes() {
    let full_rank = [(0, 0, 1), (0, 1, 2), (1, 0, 3), (1, 1, 5)];
    let rank_one = [(0, 0, 1), (0, 1, 2), (1, 0, 2), (1, 1, 4)];
    for prime in RANK_PRIMES {
        assert_eq!(sparse_rank(&full_rank, prime).unwrap().0, 2);
        assert_eq!(sparse_rank(&rank_one, prime).unwrap().0, 1);
    }
}

#[test]
fn boundary_flattening_rank_is_field_stable_through_n7() {
    for n in 1..=7 {
        let result = diagnose_peak_layer_rank(n).unwrap();
        assert_eq!(result.ranks[0], result.ranks[1], "N={n}");
        assert!(result.ranks[0] <= result.support);
    }
}

#[test]
fn modular_power_matches_small_cases() {
    assert_eq!(mod_pow(2, 10, 1_000_000_007), 1024);
    assert_eq!(mod_pow(3, 0, 7), 1);
    assert_eq!(mod_pow(5, 6, 7), 1);
    assert_eq!((mod_pow(123_456_789, 1_000_000_005, 1_000_000_007) as u128 * 123_456_789) % 1_000_000_007, 1);
}

#[test]
fn spatial_flattening_splits_columns_by_family() {
    let state = BoundaryState { columns: 0b0101, diag_dr: 0b1000, diag_dl: 0b0010 };
    let (left, right) = spatial_flatten_key(state, 4);
    assert_eq!(left, 0b10_00_01);
    assert_eq!(right, 0b00_10_01);
}

#[test]
fn rank_diagnostic_rejects_unsupported_boards() {
    assert!(diagnose_peak_layer_rank(0).is_err());
    assert!(diagnose_peak_layer_rank(22).is_err());
}

#[test]
fn exact_rank_factorization_reconstructs_rectangular_matrices() {
    let matrix = vec![1, 2, 3, 2, 4, 6, 4, 5, 6];
    let (left, right, rank) = rank_factor(&matrix, 3, 3).unwrap();
    assert_eq!(rank, 2);
    for row in 0..3 {
        for column in 0..3 {
            let reconstructed = (0..rank).fold(0_u64, |sum, middle| {
                exact_mps::add(sum, exact_mps::mul(left[row * rank + middle], right[middle * 3 + column]))
            });
            assert_eq!(reconstructed, matrix[row * 3 + column]);
        }
    }
}

#[test]
fn rank_factor_refuses_mismatched_shapes_and_handles_zero() {
    assert!(rank_factor(&[1, 2, 3], 2, 2).is_err());
    let (left, right, rank) = rank_factor(&[0, 0, 0, 0], 2, 2).unwrap();
    assert_eq!(rank, 1);
    assert_eq!(left, vec![0, 0]);
    assert_eq!(right, vec![0, 0]);
}

#[test]
fn field_arithmetic_wraps_at_the_prime() {
    assert_eq!(exact_mps::add(FIELD_PRIME - 1, 2), 1);
    assert_eq!(exact_mps::sub(1, 2), FIELD_PRIME - 1);
    assert_eq!(exact_mps::mul(FIELD_PRIME - 1, FIELD_PRIME - 1), 1);
    assert_eq!(exact_mps::mul(inverse(12345), 12345), 1);
}

#[test]
fn streaming_exact_mps_matches_known_counts_through_n5() {
    for n in 0..=5 {
        assert_eq!(
            contract_exact_mps(n).unwrap().count_mod_prime,
            (known_count(n).unwrap() % u128::from(FIELD_PRIME)) as u64,
            "N={n}"
        );
    }
}

#[test]
fn direct_sparse_paths_match_known_counts_through_n4() {
    for path in [
        PathKind::RowBlocks,
        PathKind::ColumnBlocks,
        PathKind::BalancedRectangles,
        PathKind::SupportAwareGreedy,
    ] {
        for n in 0..=4 {
            assert_eq!(
                contract_with_path(n, path).unwrap().count,
                known_count(n).unwrap(),
                "path={path:?}, N={n}"
            );
        }
    }
}

#[test]
fn every_path_contracts_each_site_once() {
    for path in [
        PathKind::RowBlocks,
        PathKind::ColumnBlocks,
        PathKind::BalancedRectangles,
        PathKind::SupportAwareGreedy,
    ] {
        let metrics = contract_with_path(3, path).unwrap();
        assert_eq!(metrics.contractions, 8);
        assert_eq!(metrics.local_tensor_entries_examined, 17 * 9);
        assert!(metrics.matching_entry_pairs <= metrics.cartesian_pair_upper_bound);
    }
    assert_eq!(contract_with_path(0, PathKind::RowBlocks).unwrap().count, 1);
}

#[test]
fn weighted_dd_matches_known_counts_through_n6() {
    for n in 0..=6 {
        assert_eq!(
            contract_weighted_dd(n).unwrap().count,
            known_count(n).unwrap(),
            "N={n}"
        );
    }
}

#[test]
fn weighted_dd_reports_one_layer_per_row_and_refuses_wide_boards() {
    let result = contract_weighted_dd(5).unwrap();
    assert_eq!(result.n, 5);
    assert_eq!(result.layers.len(), 5);
    for (i, layer) in result.layers.iter().enumerate() {
        assert_eq!(layer.row, i);
        assert!(layer.boundary_nodes >= 1);
    }
    assert!(result.tensor_entries_accepted <= result.tensor_entries_examined);
    assert!(contract_weighted_dd(22).is_err());
    let empty = contract_weighted_dd(0).unwrap();
    assert_eq!(empty.count, 1);
    assert!(empty.layers.is_empty());
}

#[test]
fn gpu_plan_refusals_name_their_reason() {
    let mut options = GpuOptions::default();
    options.memory_limit_percent = 0;
    match plan_gpu_run(8, options) {
        Err(GpuError::InvalidArgument(m)) => assert_eq!(m, "memory_limit_percent must be in 1..=95"),
        other => panic!("unexpected plan {other:?}"),
    }
    let mut compact = GpuOptions::default();
    compact.scheme = GpuScheme::Compact64;
    match plan_gpu_run(21, compact) {
        Err(GpuError::InvalidArgument(m)) => assert_eq!(m, "compact64 is exact only for N <= 20"),
        other => panic!("unexpected plan {other:?}"),
    }
    match plan_gpu_run(43, GpuOptions::default()) {
        Err(GpuError::InvalidArgument(m)) => assert_eq!(m, "wide128 packed boundaries support N <= 42"),
        other => panic!("unexpected plan {other:?}"),
    }
    assert!(plan_gpu_run(8, GpuOptions::default()).is_ok());
}

#[test]
fn weighted_dd_cache_hits_never_exceed_lookups() {
    for n in 1..=6 {
        let result = contract_weighted_dd(n).unwrap();
        assert!(result.unique_hits <= result.unique_lookups, "N={n}");
        assert!(result.apply_hits <= result.apply_lookups, "N={n}");
        assert!(result.relprod_hits <= result.relprod_lookups, "N={n}");
        assert!(result.unique_lookups > 0, "N={n}");
    }
}
