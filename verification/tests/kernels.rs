use nqueens_peps_naive::{
    DeferredCandidate, PackedBoundary, ShardMode, contract_rows_d4_batched_radix,
    contract_rows_d4_deferred_sparse_sort_reduce, sort_packed_radix, contract_rows_d4_arena_sort_reduce, contract_rows_d4_batched_sort_reduce,
    contract_rows_d4_batched_sparse_parallel_sort, contract_rows_d4_batched_sparse_sort_reduce,
    contract_rows_d4_orbit_sort_reduce, contract_rows_d4_sharded_sparse_sort_reduce,
    contract_rows_d4_sparse_sort_reduce, known_count,
};

#[test]
fn sparse_batched_variant_matches_existing_sparse_contraction() {
    for n in 0..=10 {
        let baseline = contract_rows_d4_sparse_sort_reduce(n).unwrap();
        let candidate = contract_rows_d4_batched_sparse_sort_reduce(n).unwrap();
        assert_eq!(candidate.count, baseline.count, "N={n}");
        assert_eq!(candidate.peak_states, baseline.peak_states, "N={n}");
        assert_eq!(candidate.row_operator_candidates, baseline.row_operator_candidates, "N={n}");
        assert_eq!(candidate.row_operator_matched, baseline.row_operator_matched, "N={n}");
    }
}

#[test]
fn parallel_sort_variant_matches_serial_sparse_contraction() {
    for n in 0..=10 {
        let baseline = contract_rows_d4_sparse_sort_reduce(n).unwrap();
        let candidate = contract_rows_d4_batched_sparse_parallel_sort(n).unwrap();
        assert_eq!(candidate.count, baseline.count, "N={n}");
        assert_eq!(candidate.peak_states, baseline.peak_states, "N={n}");
        assert_eq!(candidate.row_operator_candidates, baseline.row_operator_candidates, "N={n}");
        assert_eq!(candidate.row_operator_matched, baseline.row_operator_matched, "N={n}");
    }
}

#[test]
fn sharded_variants_match_serial_sparse_contraction() {
    for n in 0..=10 {
        let baseline = contract_rows_d4_sparse_sort_reduce(n).unwrap();
        for mode in [ShardMode::Prefix, ShardMode::Mixed] {
            for shards in [1, 8] {
                let candidate = contract_rows_d4_sharded_sparse_sort_reduce(n, shards, mode).unwrap();
                assert_eq!(candidate.count, baseline.count, "N={n}");
                assert_eq!(candidate.peak_states, baseline.peak_states, "N={n}");
                assert_eq!(candidate.row_operator_candidates, baseline.row_operator_candidates, "N={n}");
                assert_eq!(candidate.row_operator_matched, baseline.row_operator_matched, "N={n}");
            }
        }
    }
}

#[test]
fn sharded_contraction_refuses_unsupported_shard_counts() {
    for shards in [0, 3, 6, 100, 512] {
        assert!(contract_rows_d4_sharded_sparse_sort_reduce(6, shards, ShardMode::Prefix).is_err());
    }
    assert!(contract_rows_d4_sharded_sparse_sort_reduce(43, 8, ShardMode::Mixed).is_err());
    let result = contract_rows_d4_sharded_sparse_sort_reduce(9, 256, ShardMode::Mixed).unwrap();
    assert_eq!(result.count, known_count(9).unwrap());
    assert_eq!(result.layers.len(), 9);
}

#[test]
fn deferred_sparse_variant_matches_existing_sparse_contraction() {
    assert_eq!(std::mem::size_of::<DeferredCandidate>(), 16);
    for n in 0..=10 {
        let baseline = contract_rows_d4_sparse_sort_reduce(n).unwrap();
        let candidate = contract_rows_d4_deferred_sparse_sort_reduce(n).unwrap();
        assert_eq!(candidate.count, baseline.count, "N={n}");
        assert_eq!(candidate.peak_states, baseline.peak_states, "N={n}");
        assert_eq!(candidate.row_operator_candidates, baseline.row_operator_candidates, "N={n}");
        assert_eq!(candidate.row_operator_matched, baseline.row_operator_matched, "N={n}");
    }
}

#[test]
fn deferred_sparse_layers_match_orbit_layers_and_refuse_wide_boards() {
    for n in 1..=9 {
        let baseline = contract_rows_d4_orbit_sort_reduce(n).unwrap();
        let candidate = contract_rows_d4_deferred_sparse_sort_reduce(n).unwrap();
        assert_eq!(candidate.count, known_count(n).unwrap(), "N={n}");
        assert_eq!(candidate.layers.len(), n);
        for (a, b) in candidate.layers.iter().zip(baseline.layers.iter()) {
            assert_eq!(a.row, b.row);
            assert_eq!(a.output_weight, b.output_weight);
            assert_eq!(a.output_states, b.output_states);
        }
    }
    assert_eq!(
        contract_rows_d4_deferred_sparse_sort_reduce(22).unwrap_err(),
        "the compact deferred-candidate backend supports N <= 21"
    );
}

#[test]
fn in_place_radix_matches_standard_u128_key_sort() {
    let mut radix = (0..10_000_u128)
        .map(|index| {
            let key = index.wrapping_mul(0x9e37_79b9_7f4a_7c15).rotate_left((index % 127) as u32)
                & ((1_u128 << 45) - 1);
            (PackedBoundary(key), index)
        })
        .rev()
        .collect::<Vec<_>>();
    let mut expected = radix.clone();
    expected.sort_unstable_by_key(|(state, _)| state.0);
    sort_packed_radix(&mut radix, 15);
    assert_eq!(
        radix.iter().map(|entry| entry.0.0).collect::<Vec<_>>(),
        expected.iter().map(|entry| entry.0.0).collect::<Vec<_>>()
    );
}

#[test]
fn e24_variants_preserve_counts_support_and_operator_work() {
    for n in 0..=10 {
        let baseline = contract_rows_d4_orbit_sort_reduce(n).unwrap();
        for candidate in [
            contract_rows_d4_arena_sort_reduce(n).unwrap(),
            contract_rows_d4_batched_sort_reduce(n).unwrap(),
            contract_rows_d4_batched_radix(n).unwrap(),
        ] {
            assert_eq!(candidate.count, baseline.count, "N={n}");
            assert_eq!(candidate.peak_states, baseline.peak_states, "N={n}");
            assert_eq!(candidate.row_operator_candidates, baseline.row_operator_candidates, "N={n}");
            assert_eq!(candidate.row_operator_matched, baseline.row_operator_matched, "N={n}");
        }
    }
}

#[test]
fn radix_sort_keeps_the_terms_and_handles_wide_keys() {
    let mut wide = vec![
        (PackedBoundary(u128::MAX), 1),
        (PackedBoundary(3), 2),
        (PackedBoundary(1 << 100), 3),
        (PackedBoundary(3), 4),
    ];
    sort_packed_radix(&mut wide, 2);
    let keys = wide.iter().map(|entry| entry.0.0).collect::<Vec<_>>();
    assert_eq!(keys, vec![3, 3, 1 << 100, u128::MAX]);
    let mut weights = wide.iter().map(|entry| entry.1).collect::<Vec<_>>();
    weights.sort_unstable();
    assert_eq!(weights, vec![1, 2, 3, 4]);
    let mut many = (0..300_u128).map(|i| (PackedBoundary((i * 7919) % 4096), i)).collect::<Vec<_>>();
    sort_packed_radix(&mut many, 4);
    assert!(many.windows(2).all(|pair| pair[0].0.0 <= pair[1].0.0));
    assert_eq!(many.len(), 300);
}
