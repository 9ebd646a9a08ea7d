use nqueens_peps_naive::parallel::{
    contract_rows_d4_orbit_parallel_sort_reduce, contract_rows_d4_sparse_parallel_sort_reduce,
    contract_rows_parallel_sort_reduce, contract_rows_sparse_parallel_sort_reduce,
};
use nqueens_peps_naive::{
    ContractionResult, contract_rows_d4_orbit_sort_reduce, contract_rows_d4_sparse_sort_reduce,
    contract_rows_sort_reduce, contract_rows_sparse_sort_reduce,
};

fn layer_summary(result: &ContractionResult) -> Vec<(usize, u128, usize, u128)> {
    result
        .layers
        .iter()
        .map(|layer| {
            (
                layer.input_states,
                layer.completed_row_terms,
                layer.output_states,
                layer.output_weight,
            )
        })
        .collect()
}

#[test]
fn parallel_slices_match_serial_sort_reduce_through_n10() {
    for threads in [1, 2, 4] {
        for n in 0..=10 {
            let serial = contract_rows_sort_reduce(n).unwrap();
            let parallel = contract_rows_parallel_sort_reduce(n, threads).unwrap();
            assert_eq!(parallel.count, serial.count, "count mismatch at N={n}, threads={threads}");
            assert_eq!(
                parallel.peak_states, serial.peak_states,
                "support mismatch at N={n}, threads={threads}"
            );
            assert_eq!(
                parallel.row_operator_candidates, serial.row_operator_candidates,
                "candidate mismatch at N={n}, threads={threads}"
            );
            assert_eq!(
                parallel.row_operator_matched, serial.row_operator_matched,
                "matched mismatch at N={n}, threads={threads}"
            );
            assert_eq!(
                layer_summary(&parallel),
                layer_summary(&serial),
                "layer mismatch at N={n}, threads={threads}"
            );
        }
    }
}

#[test]
fn parallel_d4_orbit_slicing_matches_serial_through_n10() {
    for threads in [1, 2, 4] {
        for n in 0..=10 {
            let serial = contract_rows_d4_orbit_sort_reduce(n).unwrap();
            let parallel = contract_rows_d4_orbit_parallel_sort_reduce(n, threads).unwrap();
            assert_eq!(parallel.count, serial.count, "N={n}, threads={threads}");
            assert_eq!(parallel.peak_states, serial.peak_states, "N={n}, threads={threads}");
            assert_eq!(
                parallel.row_operator_matched, serial.row_operator_matched,
                "N={n}, threads={threads}"
            );
        }
    }
}

#[test]
fn parallel_sparse_and_d4_interaction_matches_serial_through_n9() {
    for threads in [1, 2, 4] {
        for n in 0..=9 {
            let sparse = contract_rows_sparse_sort_reduce(n).unwrap();
            let sparse_parallel = contract_rows_sparse_parallel_sort_reduce(n, threads).unwrap();
            assert_eq!(sparse_parallel.count, sparse.count, "N={n}, t={threads}");
            assert_eq!(sparse_parallel.peak_states, sparse.peak_states, "N={n}, t={threads}");

            let d4_sparse = contract_rows_d4_sparse_sort_reduce(n).unwrap();
            let d4_sparse_parallel = contract_rows_d4_sparse_parallel_sort_reduce(n, threads).unwrap();
            assert_eq!(d4_sparse_parallel.count, d4_sparse.count, "D4 N={n}, t={threads}");
            assert_eq!(
                d4_sparse_parallel.peak_states, d4_sparse.peak_states,
                "D4 N={n}, t={threads}"
            );
        }
    }
}

#[test]
fn parallel_contraction_refuses_zero_threads_and_wide_boards() {
    assert!(contract_rows_parallel_sort_reduce(5, 0).is_err());
    assert!(contract_rows_d4_sparse_parallel_sort_reduce(5, 0).is_err());
    assert!(contract_rows_parallel_sort_reduce(43, 2).is_err());
    let empty = contract_rows_d4_orbit_parallel_sort_reduce(0, 3).unwrap();
    assert_eq!(empty.count, 1);
    assert!(empty.layers.is_empty());
    let eight = contract_rows_sparse_parallel_sort_reduce(8, 3).unwrap();
    assert_eq!(eight.count, 92);
    assert_eq!(eight.row_operator_candidates, eight.row_operator_matched);
}
