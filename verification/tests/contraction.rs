use nqueens_peps_naive::{
    ExplicitFrontierOrder, contract_explicit_c_frontier, contract_rows, contract_rows_d4_orbit_sort_reduce, contract_rows_d4_sparse_sort_reduce,
    contract_rows_sort_reduce, contract_rows_sparse_sort_reduce, known_count,
};

fn brute_force_count(n: usize) -> u128 {
    fn place(row: usize, n: usize, queens: &mut Vec<usize>, count: &mut u128) {
        if row == n {
            *count += 1;
            return;
        }
        for column in 0..n {
            let legal = queens.iter().enumerate().all(|(previous_row, &other)| {
                other != column && row.abs_diff(previous_row) != column.abs_diff(other)
            });
            if legal {
                queens.push(column);
                place(row + 1, n, queens, count);
                queens.pop();
            }
        }
    }

    if n == 0 {
        return 1;
    }
    let mut count = 0;
    place(0, n, &mut Vec::with_capacity(n), &mut count);
    count
}

#[test]
fn peps_contraction_matches_known_counts_through_ten() {
    for n in 0..=10 {
        let result = contract_rows(n).unwrap();
        assert_eq!(result.count, known_count(n).unwrap(), "N={n}");
    }
}

#[test]
fn peps_contraction_matches_independent_brute_force_oracle() {
    for n in 0..=9 {
        assert_eq!(contract_rows(n).unwrap().count, brute_force_count(n), "N={n}");
    }
}

#[test]
fn final_column_v1_and_diagonal_v2_boundaries_give_q8() {
    let result = contract_rows(8).unwrap();
    assert_eq!(result.count, 92);
    assert_eq!(result.layers.last().unwrap().output_weight, 92);
}

#[test]
fn rejects_virtual_boundaries_wider_than_u128_layout() {
    assert!(contract_rows(43).is_err());
}

#[test]
fn d4_orbit_slicing_is_exact_and_reduces_support_through_n11() {
    for n in 0..=11 {
        let dense = contract_rows_sort_reduce(n).unwrap();
        let orbit = contract_rows_d4_orbit_sort_reduce(n).unwrap();
        assert_eq!(orbit.count, dense.count, "count mismatch at N={n}");
        if n >= 2 {
            assert!(orbit.peak_states < dense.peak_states, "support did not fall at N={n}");
            if n >= 4 {
                assert!(
                    orbit.row_operator_matched < dense.row_operator_matched,
                    "accepted work did not fall at N={n}"
                );
            }
        }
    }
}

#[test]
fn sparse_and_d4_ablation_variants_are_exact_through_n10() {
    for n in 0..=10 {
        let dense = contract_rows_sort_reduce(n).unwrap();
        let sparse = contract_rows_sparse_sort_reduce(n).unwrap();
        let d4 = contract_rows_d4_orbit_sort_reduce(n).unwrap();
        let d4_sparse = contract_rows_d4_sparse_sort_reduce(n).unwrap();
        assert_eq!(sparse.count, dense.count, "sparse count at N={n}");
        assert_eq!(d4.count, dense.count, "D4 count at N={n}");
        assert_eq!(d4_sparse.count, dense.count, "D4+sparse count at N={n}");
        assert_eq!(sparse.peak_states, dense.peak_states, "sparse support N={n}");
        assert_eq!(d4_sparse.peak_states, d4.peak_states, "D4 support N={n}");
        assert_eq!(
            sparse.row_operator_candidates, sparse.row_operator_matched,
            "sparse iterator work N={n}"
        );
        assert_eq!(
            d4_sparse.row_operator_candidates, d4_sparse.row_operator_matched,
            "D4+sparse iterator work N={n}"
        );
    }
}

#[test]
fn layer_weights_count_partial_placements() {
    // Row 1 of a 4-board places one queen in any of 4 columns; row 2 then has
    // 6 non-attacking continuations in total.
    let result = contract_rows_sort_reduce(4).unwrap();
    assert_eq!(result.layers[0].output_weight, 4);
    assert_eq!(result.layers[1].output_weight, 6);
    assert_eq!(result.count, 2);
    let orbit = contract_rows_d4_orbit_sort_reduce(4).unwrap();
    assert_eq!(orbit.layers[0].output_weight, 4);
    assert_eq!(orbit.layers[0].output_states, 2);
}

#[test]
fn empty_board_has_one_solution_and_no_layers() {
    let result = contract_rows(0).unwrap();
    assert_eq!(result.count, 1);
    assert!(result.layers.is_empty());
    assert_eq!(known_count(28), None);
}

#[test]
fn generic_explicit_c_frontiers_match_known_counts() {
    for n in 0..=6 {
        for order in [
            ExplicitFrontierOrder::RowMajor,
            ExplicitFrontierOrder::TopLeftDiamond,
        ] {
            let result = contract_explicit_c_frontier(n, order, 5_000_000).unwrap();
            assert!(result.complete, "N={n}, order={order:?}");
            assert_eq!(result.count, known_count(n), "N={n}, order={order:?}");
            assert_eq!(result.contracted_sites, n * n);
        }
    }
}

#[test]
fn explicit_c_frontier_stops_at_its_support_limit_and_refuses_bad_input() {
    let stopped = contract_explicit_c_frontier(6, ExplicitFrontierOrder::RowMajor, 3).unwrap();
    assert!(!stopped.complete);
    assert_eq!(stopped.count, None);
    assert!(stopped.peak_states > 3);
    assert!(stopped.tensor_entries_accepted <= stopped.tensor_entries_examined);
    assert!(contract_explicit_c_frontier(22, ExplicitFrontierOrder::RowMajor, 10).is_err());
    assert!(contract_explicit_c_frontier(4, ExplicitFrontierOrder::TopLeftDiamond, 0).is_err());
}

#[test]
fn explicit_c_frontier_is_complete_exactly_within_its_support_limit() {
    let complete = contract_explicit_c_frontier(5, ExplicitFrontierOrder::RowMajor, 1 << 20).unwrap();
    assert!(complete.complete);
    assert_eq!(complete.count, Some(10));
    assert!(complete.peak_states <= 1 << 20);
    let tight = contract_explicit_c_frontier(5, ExplicitFrontierOrder::RowMajor, complete.peak_states).unwrap();
    assert!(tight.complete);
    assert_eq!(tight.count, Some(10));
    let short = contract_explicit_c_frontier(5, ExplicitFrontierOrder::RowMajor, complete.peak_states - 1).unwrap();
    assert!(!short.complete);
    assert!(short.peak_states > complete.peak_states - 1);
}
