use nqueens_peps_naive::recursive_tail::{
    RecursiveTailMetrics, RecursiveTailRelation, contract_recursive_tail, recursive_tail_positions,
    recursive_tail_successor,
};
use nqueens_peps_naive::row::contract_one_row_compiled;
use nqueens_peps_naive::sitewise::contract_one_row_sitewise;
use nqueens_peps_naive::{
    BoundaryState, CompiledRowOperator, RowCounters, SiteTensorC, contract_rows_d4_recursive_tail,
    known_count,
};
use std::collections::HashMap;

fn normalized_tail_terms(terms: Vec<(BoundaryState, u128)>) -> HashMap<BoundaryState, u128> {
    let mut normalized = HashMap::new();
    for (state, weight) in terms {
        *normalized.entry(state).or_insert(0) += weight;
    }
    normalized
}

#[test]
fn recursive_tail_successors_replay_compiled_c_on_every_reachable_parent() {
    let tensor = SiteTensorC::sec_vi();
    let operator = CompiledRowOperator::compile(&tensor).unwrap();
    let relation = RecursiveTailRelation::compile(&operator).unwrap();

    for n in 1..=8 {
        let board_mask = (1_u64 << n) - 1;
        let mut boundary = HashMap::from([(
            BoundaryState {
                columns: 0,
                diag_dr: 0,
                diag_dl: 0,
            },
            1_u128,
        )]);
        for row in 0..n {
            let mut next = HashMap::new();
            for (&parent, &parent_weight) in &boundary {
                let compiled =
                    contract_one_row_compiled(n, &operator, parent, 1, &mut RowCounters::default())
                        .unwrap();
                let mut positions = recursive_tail_positions(parent, relation, board_mask);
                let mut recursive = Vec::new();
                while positions != 0 {
                    let selected = positions & positions.wrapping_neg();
                    positions &= positions - 1;
                    recursive.push((
                        recursive_tail_successor(parent, selected, relation, board_mask),
                        relation.value,
                    ));
                }
                assert_eq!(
                    normalized_tail_terms(recursive),
                    normalized_tail_terms(compiled),
                    "N={n}, row={}, parent={parent:?}",
                    row + 1
                );
                for (state, weight) in contract_one_row_sitewise(
                    n,
                    &tensor,
                    parent,
                    parent_weight,
                    &mut RowCounters::default(),
                )
                .unwrap()
                {
                    *next.entry(state).or_insert(0) += weight;
                }
            }
            boundary = next;
        }
    }
}

#[test]
fn every_recursive_tail_cut_matches_known_counts() {
    for n in 0..=10 {
        for cut in 0..=n {
            let result = contract_rows_d4_recursive_tail(n, 8, cut).unwrap();
            assert_eq!(Some(result.contraction.count), known_count(n), "N={n}, cut={cut}");
        }
    }
}

#[test]
fn recursive_tail_refuses_bad_inputs_and_reports_the_cut() {
    assert!(contract_rows_d4_recursive_tail(22, 8, 0).is_err());
    assert!(contract_rows_d4_recursive_tail(6, 8, 7).is_err());
    assert!(contract_rows_d4_recursive_tail(6, 6, 2).is_err());
    let result = contract_rows_d4_recursive_tail(8, 4, 3).unwrap();
    assert_eq!(result.cut, 3);
    assert_eq!(result.contraction.layers.len(), 3);
    assert_eq!(result.contraction.count, 92);
    assert_eq!(result.coefficient_bits, 64 - 24);
    assert_eq!(result.tail_tasks, result.prefix_support);
}

#[test]
fn recursive_tail_counts_completions_from_the_empty_frontier() {
    let tensor = SiteTensorC::sec_vi();
    let operator = CompiledRowOperator::compile(&tensor).unwrap();
    let relation = RecursiveTailRelation::compile(&operator).unwrap();
    let empty = BoundaryState { columns: 0, diag_dr: 0, diag_dl: 0 };
    let mut metrics = RecursiveTailMetrics { nodes: 0, accepted_entries: 0 };
    let count = contract_recursive_tail(6, 0, empty, relation, (1 << 6) - 1, &mut metrics).unwrap();
    assert_eq!(count, 4);
    assert_eq!(metrics.accepted_entries + 1, metrics.nodes);
}
