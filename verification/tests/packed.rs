use nqueens_peps_naive::compact::{CompactEntry, CompactEntry64};
use nqueens_peps_naive::joint::JointEntry;
use nqueens_peps_naive::{
    ShardMode, contract_rows_d4_compact_parallel_generation,
    contract_rows_d4_compact_sharded_sort_reduce, contract_rows_d4_compact_u64_promoting,
    contract_rows_d4_compact_u64_promoting_with_limit, contract_rows_d4_joint_u64_arena_reuse,
    contract_rows_d4_joint_u64_promoting, contract_rows_d4_joint_u64_with_limits,
    contract_rows_d4_sharded_sparse_sort_reduce, known_count,
};

#[test]
fn compact_sharded_layout_matches_e26() {
    assert_eq!(std::mem::size_of::<CompactEntry>(), 24);
    for n in 0..=10 {
        let baseline = contract_rows_d4_sharded_sparse_sort_reduce(n, 8, ShardMode::Prefix).unwrap();
        let candidate = contract_rows_d4_compact_sharded_sort_reduce(n, 8).unwrap();
        assert_eq!(candidate.count, baseline.count, "N={n}");
        assert_eq!(candidate.peak_states, baseline.peak_states, "N={n}");
        assert_eq!(candidate.row_operator_candidates, baseline.row_operator_candidates, "N={n}");
        assert_eq!(candidate.row_operator_matched, baseline.row_operator_matched, "N={n}");
    }
}

#[test]
fn parallel_generation_matches_compact_serial_generation() {
    for n in 0..=10 {
        let baseline = contract_rows_d4_compact_sharded_sort_reduce(n, 8).unwrap();
        let candidate = contract_rows_d4_compact_parallel_generation(n, 8).unwrap();
        assert_eq!(candidate.contraction.count, baseline.count, "N={n}");
        assert_eq!(candidate.contraction.peak_states, baseline.peak_states, "N={n}");
        assert_eq!(
            candidate.contraction.row_operator_candidates,
            baseline.row_operator_candidates,
            "N={n}"
        );
        assert_eq!(candidate.contraction.row_operator_matched, baseline.row_operator_matched, "N={n}");
    }
}

#[test]
fn compact64_fast_path_and_forced_promotion_are_exact() {
    assert_eq!(std::mem::size_of::<CompactEntry64>(), 16);
    for n in 0..=10 {
        let baseline = contract_rows_d4_compact_parallel_generation(n, 8).unwrap();
        let candidate = contract_rows_d4_compact_u64_promoting(n, 8).unwrap();
        assert!(candidate.used_u64_fast_path, "N={n}");
        assert_eq!(candidate.contraction.count, baseline.contraction.count, "N={n}");
        assert_eq!(candidate.contraction.peak_states, baseline.contraction.peak_states, "N={n}");
        assert_eq!(
            candidate.contraction.row_operator_matched,
            baseline.contraction.row_operator_matched,
            "N={n}"
        );
    }

    let promoted = contract_rows_d4_compact_u64_promoting_with_limit(8, 8, 1).unwrap();
    assert!(!promoted.used_u64_fast_path);
    assert!(promoted.promotion_reason.is_some());
    assert_eq!(promoted.contraction.count, 92);
    assert_eq!(
        promoted.contraction.peak_states,
        contract_rows_d4_compact_parallel_generation(8, 8).unwrap().contraction.peak_states
    );
}

#[test]
fn joint_u64_fast_path_and_two_level_promotion_are_exact() {
    assert_eq!(std::mem::size_of::<JointEntry>(), 8);
    for n in 0..=10 {
        let baseline = contract_rows_d4_compact_u64_promoting(n, 8).unwrap();
        let candidate = contract_rows_d4_joint_u64_promoting(n, 8).unwrap();
        assert!(candidate.used_joint_fast_path, "N={n}");
        assert_eq!(candidate.contraction.count, baseline.contraction.count, "N={n}");
        assert_eq!(candidate.contraction.peak_states, baseline.contraction.peak_states, "N={n}");
        assert_eq!(
            candidate.contraction.row_operator_matched,
            baseline.contraction.row_operator_matched,
            "N={n}"
        );
    }

    let compact64 = contract_rows_d4_joint_u64_with_limits(8, 8, 1, u64::MAX).unwrap();
    assert!(!compact64.used_joint_fast_path);
    assert_eq!(compact64.fallback_used_u64_fast_path, Some(true));
    assert_eq!(compact64.contraction.count, 92);

    let u128_fallback = contract_rows_d4_joint_u64_with_limits(8, 8, 1, 1).unwrap();
    assert!(!u128_fallback.used_joint_fast_path);
    assert_eq!(u128_fallback.fallback_used_u64_fast_path, Some(false));
    assert_eq!(u128_fallback.contraction.count, 92);
}

#[test]
fn reused_destination_arenas_preserve_joint_contraction() {
    for n in 0..=10 {
        let baseline = contract_rows_d4_joint_u64_promoting(n, 8).unwrap();
        let candidate = contract_rows_d4_joint_u64_arena_reuse(n, 8).unwrap();
        assert!(candidate.joint.used_joint_fast_path, "N={n}");
        assert_eq!(candidate.joint.contraction.count, baseline.contraction.count, "N={n}");
        assert_eq!(candidate.joint.contraction.peak_states, baseline.contraction.peak_states, "N={n}");
        assert_eq!(
            candidate.joint.contraction.row_operator_matched,
            baseline.contraction.row_operator_matched,
            "N={n}"
        );
    }
    let candidate = contract_rows_d4_joint_u64_arena_reuse(10, 8).unwrap();
    assert!(candidate.total_reused_capacity_bytes > 0);
    assert!(candidate.peak_spare_capacity_bytes > 0);
}

#[test]
fn compact_backends_refuse_wide_boards_and_bad_shards() {
    assert!(contract_rows_d4_compact_sharded_sort_reduce(22, 8).is_err());
    assert!(contract_rows_d4_compact_parallel_generation(4, 3).is_err());
    assert!(contract_rows_d4_compact_u64_promoting_with_limit(4, 8, 0).is_err());
    assert!(contract_rows_d4_joint_u64_promoting(22, 8).is_err());
    assert!(contract_rows_d4_joint_u64_with_limits(4, 8, 0, u64::MAX).is_err());
    assert!(contract_rows_d4_joint_u64_with_limits(21, 8, 2, u64::MAX).is_err());
}

#[test]
fn compact_backends_count_the_eight_queens() {
    assert_eq!(contract_rows_d4_compact_sharded_sort_reduce(8, 1).unwrap().count, 92);
    assert_eq!(contract_rows_d4_compact_parallel_generation(8, 256).unwrap().contraction.count, 92);
    let joint = contract_rows_d4_joint_u64_promoting(11, 4).unwrap();
    assert_eq!(Some(joint.contraction.count), known_count(11));
    assert_eq!(joint.coefficient_bits, 64 - 33);
    assert!(joint.promotion_reason.is_none());
}
