use nqueens_peps_naive::hash_layers::{contract_rows_hash_materialization, contract_rows_sitewise};
use nqueens_peps_naive::row::contract_one_row_compiled;
use nqueens_peps_naive::sitewise::contract_one_row_sitewise;
use nqueens_peps_naive::{
    BoundaryState, CompiledRowOperator, ConstraintFamily, D4Symmetry, PackedBoundary, RowCounters,
    SiteTensorB, SiteTensorC, VirtualLegs, contract_rows, contract_rows_sort_reduce, known_count,
    top_row_vertical_orbit_weight,
};
use std::collections::{HashMap, HashSet};

#[test]
fn rank_nine_b_has_the_sec_vi_seventeen_entries() {
    let tensor = SiteTensorB::sec_vi();
    assert_eq!(tensor.entries().len(), 17);
    assert_eq!(
        tensor
            .entries()
            .iter()
            .filter(|entry| entry.alpha == 0)
            .count(),
        16
    );
    assert_eq!(
        tensor
            .entries()
            .iter()
            .filter(|entry| entry.alpha == 1)
            .count(),
        1
    );
    for entry in tensor.entries().iter().filter(|entry| entry.alpha == 0) {
        let legs = entry.legs;
        assert_eq!(legs.column_in, legs.column_out);
        assert_eq!(legs.row_in, legs.row_out);
        assert_eq!(legs.diag_dr_in, legs.diag_dr_out);
        assert_eq!(legs.diag_dl_in, legs.diag_dl_out);
        assert_eq!(entry.value, 1);
    }
    let occupied = tensor
        .entries()
        .iter()
        .find(|entry| entry.alpha == 1)
        .unwrap();
    assert_eq!(
        occupied.legs,
        VirtualLegs {
            column_in: 0,
            column_out: 1,
            row_in: 0,
            row_out: 1,
            diag_dr_in: 0,
            diag_dr_out: 1,
            diag_dl_in: 0,
            diag_dl_out: 1,
        }
    );
}

fn line_amplitude_from_b(occupations: &[u8], end_vector: [u128; 2]) -> u128 {
    let tensor = SiteTensorB::sec_vi();
    let mut boundary = [1_u128, 0_u128];
    for &alpha in occupations {
        let mut transfer = [[None; 2]; 2];
        for entry in tensor.entries().iter().filter(|entry| entry.alpha == alpha) {
            let incoming = usize::from(entry.legs.column_in);
            let outgoing = usize::from(entry.legs.column_out);
            if let Some(previous) = transfer[incoming][outgoing] {
                assert_eq!(previous, entry.value);
            } else {
                transfer[incoming][outgoing] = Some(entry.value);
            }
        }
        let mut next = [0_u128; 2];
        for incoming in 0..2 {
            for (outgoing, local_value) in transfer[incoming].iter().enumerate() {
                if let Some(local_value) = local_value {
                    next[outgoing] += boundary[incoming] * local_value;
                }
            }
        }
        boundary = next;
    }
    boundary[0] * end_vector[0] + boundary[1] * end_vector[1]
}

#[test]
fn v0_v1_v2_line_boundaries_enforce_exactly_and_at_most_one() {
    let v1 = [0_u128, 1_u128];
    let v2 = [1_u128, 1_u128];
    for bits in 0_u8..16 {
        let occupations = (0..4).map(|site| (bits >> site) & 1).collect::<Vec<_>>();
        let queens = bits.count_ones();
        assert_eq!(
            line_amplitude_from_b(&occupations, v1),
            u128::from(queens == 1),
            "v0...v1 must accept exactly one occupied site: {occupations:?}"
        );
        assert_eq!(
            line_amplitude_from_b(&occupations, v2),
            u128::from(queens <= 1),
            "v0...v2 must accept at most one occupied site: {occupations:?}"
        );
    }
}

#[test]
fn physical_contraction_produces_rank_eight_c_with_seventeen_entries() {
    let tensor = SiteTensorC::sec_vi();
    assert_eq!(tensor.entries().len(), 17);
    assert!(tensor.entries().iter().all(|entry| entry.value == 1));
}

#[test]
fn local_c_truth_table_has_empty_and_occupied_branches() {
    let tensor = SiteTensorC::sec_vi();
    assert_eq!(tensor.matching_entries(0, 0, 0, 0).len(), 2);
    assert_eq!(tensor.matching_entries(1, 0, 0, 0).len(), 1);
    assert_eq!(tensor.matching_entries(0, 1, 0, 0).len(), 1);
    assert_eq!(tensor.matching_entries(1, 1, 1, 1).len(), 1);
}

#[test]
fn input_index_is_mechanically_equivalent_to_scanning_c() {
    let tensor = SiteTensorC::sec_vi();
    for signature in 0_u8..16 {
        let column_in = signature & 1;
        let row_in = (signature >> 1) & 1;
        let diag_dr_in = (signature >> 2) & 1;
        let diag_dl_in = (signature >> 3) & 1;
        let indexed = tensor.matching_entries(column_in, row_in, diag_dr_in, diag_dl_in);
        let scanned: Vec<_> = tensor
            .entries()
            .iter()
            .filter(|entry| {
                let legs = entry.legs;
                legs.column_in == column_in
                    && legs.row_in == row_in
                    && legs.diag_dr_in == diag_dr_in
                    && legs.diag_dl_in == diag_dl_in
            })
            .copied()
            .collect();
        assert_eq!(indexed, scanned.as_slice(), "input signature {signature:04b}");
    }
}

fn normalized_terms(terms: Vec<(BoundaryState, u128)>) -> HashMap<BoundaryState, u128> {
    let mut normalized = HashMap::new();
    for (state, weight) in terms {
        *normalized.entry(state).or_insert(0) += weight;
    }
    normalized
}

#[test]
fn compiled_operator_matches_sitewise_for_every_reachable_parent_through_n8() {
    let tensor = SiteTensorC::sec_vi();
    let operator = CompiledRowOperator::compile(&tensor).unwrap();

    for n in 1..=8 {
        let mut boundary = HashMap::from([(
            BoundaryState {
                columns: 0,
                diag_dr: 0,
                diag_dl: 0,
            },
            1_u128,
        )]);
        for row in 0..n {
            let mut next = HashMap::new();
            for (&parent, &parent_weight) in &boundary {
                let reference = contract_one_row_sitewise(
                    n,
                    &tensor,
                    parent,
                    parent_weight,
                    &mut RowCounters::default(),
                )
                .unwrap();
                let compiled = contract_one_row_compiled(
                    n,
                    &operator,
                    parent,
                    parent_weight,
                    &mut RowCounters::default(),
                )
                .unwrap();
                assert_eq!(
                    normalized_terms(reference.clone()),
                    normalized_terms(compiled),
                    "N={n}, row={}, parent={parent:?}",
                    row + 1
                );
                for (state, weight) in reference {
                    *next.entry(state).or_insert(0) += weight;
                }
            }
            boundary = next;
        }
    }
}

#[test]
fn sitewise_row_lists_latest_queen_column_first() {
    let tensor = SiteTensorC::sec_vi();
    let mut counters = RowCounters::default();
    let empty = BoundaryState {
        columns: 0,
        diag_dr: 0,
        diag_dl: 0,
    };
    let terms = contract_one_row_sitewise(3, &tensor, empty, 5, &mut counters).unwrap();
    assert_eq!(
        terms,
        vec![
            (
                BoundaryState {
                    columns: 0b100,
                    diag_dr: 0,
                    diag_dl: 0b010,
                },
                5
            ),
            (
                BoundaryState {
                    columns: 0b010,
                    diag_dr: 0b100,
                    diag_dl: 0b001,
                },
                5
            ),
            (
                BoundaryState {
                    columns: 0b001,
                    diag_dr: 0b010,
                    diag_dl: 0,
                },
                5
            ),
        ]
    );
    assert_eq!(counters.tensor_examined, counters.tensor_matched);
    assert_eq!(counters.operator_candidates, 0);
    let blocked = BoundaryState {
        columns: 0b001,
        diag_dr: 0b010,
        diag_dl: 0b100,
    };
    let none = contract_one_row_sitewise(3, &tensor, blocked, 1, &mut RowCounters::default()).unwrap();
    assert!(none.is_empty());
}

#[test]
fn complete_compiled_and_sitewise_contractions_agree_through_n10() {
    for n in 0..=10 {
        assert_eq!(
            contract_rows(n).unwrap().count,
            contract_rows_sitewise(n).unwrap().count,
            "N={n}"
        );
    }
}

#[test]
fn sort_reduce_matches_hash_materialization_through_n10() {
    for n in 0..=10 {
        let hash = contract_rows_hash_materialization(n).unwrap();
        let sorted = contract_rows_sort_reduce(n).unwrap();
        assert_eq!(sorted.count, hash.count, "count mismatch at N={n}");
        assert_eq!(sorted.peak_states, hash.peak_states, "support mismatch at N={n}");
        assert_eq!(
            sorted.row_operator_candidates, hash.row_operator_candidates,
            "candidate mismatch at N={n}"
        );
        assert_eq!(
            sorted.row_operator_matched, hash.row_operator_matched,
            "matched mismatch at N={n}"
        );
        let hash_layers = hash
            .layers
            .iter()
            .map(|layer| {
                (
                    layer.input_states,
                    layer.completed_row_terms,
                    layer.output_states,
                    layer.output_weight,
                )
            })
            .collect::<Vec<_>>();
        let sorted_layers = sorted
            .layers
            .iter()
            .map(|layer| {
                (
                    layer.input_states,
                    layer.completed_row_terms,
                    layer.output_states,
                    layer.output_weight,
                )
            })
            .collect::<Vec<_>>();
        assert_eq!(sorted_layers, hash_layers, "layer mismatch at N={n}");
    }
}

#[test]
fn hash_and_sitewise_backends_count_known_boards_and_refuse_wide_ones() {
    for n in 0..=8 {
        assert_eq!(
            contract_rows_hash_materialization(n).unwrap().count,
            known_count(n).unwrap(),
            "N={n}"
        );
        assert_eq!(
            contract_rows_sitewise(n).unwrap().count,
            known_count(n).unwrap(),
            "N={n}"
        );
    }
    assert!(contract_rows_hash_materialization(43).is_err());
    assert!(contract_rows_sitewise(43).is_err());
    let sitewise = contract_rows_sitewise(6).unwrap();
    assert_eq!(sitewise.row_operator_candidates, 0);
    assert_eq!(sitewise.tensor_entries_examined, sitewise.tensor_entries_matched);
    assert!(sitewise.tensor_entries_examined > 0);
    let compiled = contract_rows_hash_materialization(6).unwrap();
    assert_eq!(compiled.tensor_entries_examined, 17);
}

#[test]
fn packed_boundary_round_trips_without_losing_virtual_indices() {
    for n in 1..=42 {
        let mask = (1_u64 << n) - 1;
        let states = [
            BoundaryState {
                columns: 0,
                diag_dr: 0,
                diag_dl: 0,
            },
            BoundaryState {
                columns: mask,
                diag_dr: mask,
                diag_dl: mask,
            },
            BoundaryState {
                columns: 0x2aaa_aaaa_aaaa & mask,
                diag_dr: 0x1555_5555_5555 & mask,
                diag_dl: 0x3333_3333_3333 & mask,
            },
        ];
        for state in states {
            assert_eq!(PackedBoundary::pack(state, n).unpack(n), state, "N={n}");
        }
    }
}

#[test]
fn all_d4_actions_are_distinct_bijections_and_preserve_solutions() {
    let n = 8;
    let sample_solution = [0, 4, 7, 5, 2, 6, 1, 3];
    let mut action_maps = HashSet::new();
    for symmetry in D4Symmetry::ALL {
        let action_map = (0..n)
            .flat_map(|row| (0..n).map(move |column| symmetry.transform_coordinate(n, row, column)))
            .collect::<Vec<_>>();
        assert_eq!(action_map.iter().copied().collect::<HashSet<_>>().len(), n * n);
        action_maps.insert(action_map);

        let transformed = sample_solution
            .iter()
            .enumerate()
            .map(|(row, &column)| symmetry.transform_coordinate(n, row, column))
            .collect::<HashSet<_>>();
        assert_eq!(transformed.len(), n);
        for &(row_a, column_a) in &transformed {
            for &(row_b, column_b) in &transformed {
                if (row_a, column_a) != (row_b, column_b) {
                    assert_ne!(row_a, row_b);
                    assert_ne!(column_a, column_b);
                    assert_ne!(row_a.abs_diff(row_b), column_a.abs_diff(column_b));
                }
            }
        }
    }
    assert_eq!(action_maps.len(), 8);
}

#[test]
fn d4_constraint_family_permutations_match_square_geometry() {
    assert_eq!(
        D4Symmetry::Rotate90.transform_constraint_family(ConstraintFamily::Row),
        ConstraintFamily::Column
    );
    assert_eq!(
        D4Symmetry::Rotate90.transform_constraint_family(ConstraintFamily::Column),
        ConstraintFamily::Row
    );
    assert_eq!(
        D4Symmetry::Rotate90.transform_constraint_family(ConstraintFamily::DiagDownRight),
        ConstraintFamily::DiagDownLeft
    );
    assert_eq!(
        D4Symmetry::ReflectVertical.transform_constraint_family(ConstraintFamily::DiagDownLeft),
        ConstraintFamily::DiagDownRight
    );
    assert_eq!(
        D4Symmetry::ReflectMainDiagonal.transform_constraint_family(ConstraintFamily::DiagDownRight),
        ConstraintFamily::DiagDownRight
    );
}

#[test]
fn every_d4_action_preserves_the_explicit_local_b_and_c_tensors() {
    let tensor_b = SiteTensorB::sec_vi();
    let tensor_c = SiteTensorC::sec_vi();
    for symmetry in D4Symmetry::ALL {
        for entry in tensor_b.entries() {
            assert!(
                tensor_b.entries().iter().any(|candidate| {
                    candidate.alpha == entry.alpha
                        && candidate.value == entry.value
                        && candidate.legs == symmetry.transform_virtual_legs(entry.legs)
                }),
                "B is not invariant under {symmetry:?}: {entry:?}"
            );
        }
        for entry in tensor_c.entries() {
            assert!(
                tensor_c.entries().iter().any(|candidate| {
                    candidate.value == entry.value
                        && candidate.legs == symmetry.transform_virtual_legs(entry.legs)
                }),
                "C is not invariant under {symmetry:?}: {entry:?}"
            );
        }
    }
}

#[test]
fn only_identity_and_vertical_reflection_stabilize_interior_row_cuts() {
    for n in 2..=9 {
        for cut in 1..n {
            let stabilizer = D4Symmetry::ALL
                .into_iter()
                .filter(|symmetry| symmetry.stabilizes_top_row_cut(n, cut))
                .collect::<Vec<_>>();
            assert_eq!(
                stabilizer,
                vec![D4Symmetry::Identity, D4Symmetry::ReflectVertical],
                "N={n}, cut={cut}"
            );
        }
    }
}

#[test]
fn top_row_orbit_weights_handle_even_pairs_and_odd_fixed_point() {
    for n in 1..=12 {
        let weights = (0..n)
            .filter_map(|column| {
                top_row_vertical_orbit_weight(
                    n,
                    BoundaryState {
                        columns: 1_u64 << column,
                        diag_dr: 0,
                        diag_dl: 0,
                    },
                )
            })
            .collect::<Vec<_>>();
        assert_eq!(weights.len(), n.div_ceil(2));
        assert_eq!(weights.iter().sum::<u128>(), n as u128);
        assert_eq!(weights.iter().filter(|&&weight| weight == 1).count(), n % 2);
    }
}
