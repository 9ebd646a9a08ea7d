use nqueens_peps_naive::dfs_bitmask::{MAX_N, count_dfs_bitmask, profile_dfs_bitmask};
use nqueens_peps_naive::{contract_rows_sort_reduce, known_count};

#[test]
fn dfs_matches_known_counts_through_sixteen() {
    for n in 0..=16 {
        let result = count_dfs_bitmask(n, 1).unwrap();
        assert_eq!(result.count, known_count(n).unwrap(), "N={n}");
    }
}

#[test]
fn parallel_and_serial_search_agree() {
    for n in 8..=14 {
        assert_eq!(
            count_dfs_bitmask(n, 1).unwrap().count,
            count_dfs_bitmask(n, 4).unwrap().count,
            "N={n}"
        );
    }
}

#[test]
fn profiling_counts_the_same_search_tree_across_task_splits() {
    let serial = profile_dfs_bitmask(12, 1).unwrap();
    let parallel = profile_dfs_bitmask(12, 4).unwrap();
    assert_eq!(serial.recursive_nodes, parallel.recursive_nodes);
    assert_eq!(serial.candidate_placements, parallel.candidate_placements);
}

#[test]
fn rejects_zero_threads_and_oversized_boards() {
    assert!(count_dfs_bitmask(8, 0).is_err());
    assert!(count_dfs_bitmask(MAX_N + 1, 1).is_err());
}

#[test]
fn dfs_small_boards_have_exact_counts_and_metrics() {
    let empty = profile_dfs_bitmask(0, 1).unwrap();
    assert_eq!(empty.count, 1);
    assert_eq!(empty.recursive_nodes, 1);
    assert_eq!(empty.candidate_placements, 0);
    let one = profile_dfs_bitmask(1, 1).unwrap();
    assert_eq!(one.count, 1);
    assert_eq!(one.recursive_nodes, 1);
    assert_eq!(one.candidate_placements, 1);
    assert_eq!(count_dfs_bitmask(4, 2).unwrap().count, 2);
    assert_eq!(count_dfs_bitmask(6, 3).unwrap().count, 4);
    let fast = count_dfs_bitmask(8, 1).unwrap();
    assert!(!fast.metrics_collected);
    assert_eq!(fast.recursive_nodes, 0);
    assert_eq!(fast.count, 92);
}

#[test]
fn dfs_counting_run_on_the_empty_board_reports_its_root_call() {
    let empty = count_dfs_bitmask(0, 4).unwrap();
    assert_eq!(empty.count, 1);
    assert_eq!(empty.recursive_nodes, 1);
    assert_eq!(empty.candidate_placements, 0);
    assert!(!empty.metrics_collected);
}

#[test]
fn dfs_worker_count_is_bounded_by_threads_and_tasks() {
    let result = count_dfs_bitmask(10, 3).unwrap();
    assert!(result.threads >= 1 && result.threads <= 3);
    assert!(result.tasks >= 1);
}

#[test]
fn dfs_count_is_the_plain_contraction_count() {
    for n in 0..=10 {
        let plain = contract_rows_sort_reduce(n).unwrap();
        assert_eq!(count_dfs_bitmask(n, 1).unwrap().count, plain.count, "N={n}");
        assert_eq!(profile_dfs_bitmask(n, 3).unwrap().count, plain.count, "N={n}");
    }
}
