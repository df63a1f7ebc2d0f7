use blockcheckw::pipeline::benchmark::{
    default_max_workers, generate_strategies, recommend_workers, worker_counts_to_test,
    PointSummary,
};

struct Point {
    workers: usize,
    throughput: f64,
    errors: usize,
}

/// The float comparison that the program makes before the verified choice.
fn find_optimal(points: &[Point]) -> usize {
    let max = points
        .iter()
        .filter(|p| p.errors == 0)
        .map(|p| p.throughput)
        .fold(0.0_f64, f64::max);
    let threshold = max * 0.90;
    let summaries: Vec<PointSummary> = points
        .iter()
        .map(|p| PointSummary {
            workers: p.workers,
            errors: p.errors,
            reaches_threshold: p.throughput >= threshold,
        })
        .collect();
    recommend_workers(&summaries)
}

#[test]
fn test_find_optimal_basic() {
    let points = vec![
        Point { workers: 1, throughput: 0.9, errors: 0 },
        Point { workers: 2, throughput: 1.7, errors: 0 },
        Point { workers: 4, throughput: 3.3, errors: 0 },
        Point { workers: 8, throughput: 6.2, errors: 0 },
        Point { workers: 16, throughput: 10.5, errors: 0 },
        Point { workers: 32, throughput: 18.3, errors: 0 },
        Point { workers: 64, throughput: 27.1, errors: 0 },
        Point { workers: 128, throughput: 22.7, errors: 0 },
    ];
    assert_eq!(find_optimal(&points), 64);
}

#[test]
fn test_find_optimal_skips_errors() {
    let points = vec![
        Point { workers: 1, throughput: 1.0, errors: 0 },
        Point { workers: 4, throughput: 3.5, errors: 0 },
        Point { workers: 8, throughput: 7.0, errors: 5 },
    ];
    assert_eq!(find_optimal(&points), 4);
}

#[test]
fn test_find_optimal_all_errors() {
    let points = vec![
        Point { workers: 4, throughput: 2.0, errors: 1 },
        Point { workers: 8, throughput: 3.0, errors: 2 },
    ];
    assert_eq!(find_optimal(&points), 4);
}

#[test]
fn recommend_without_points_is_one() {
    assert_eq!(recommend_workers(&vec![]), 1);
}

#[test]
fn recommend_falls_back_to_last_clean_point() {
    let v = vec![
        PointSummary { workers: 2, errors: 0, reaches_threshold: false },
        PointSummary { workers: 6, errors: 0, reaches_threshold: false },
        PointSummary { workers: 9, errors: 3, reaches_threshold: true },
    ];
    assert_eq!(recommend_workers(&v), 6);
}

#[test]
fn recommend_takes_fewest_workers_not_first() {
    let v = vec![
        PointSummary { workers: 32, errors: 0, reaches_threshold: true },
        PointSummary { workers: 8, errors: 0, reaches_threshold: true },
        PointSummary { workers: 16, errors: 0, reaches_threshold: false },
    ];
    assert_eq!(recommend_workers(&v), 8);
}

#[test]
fn test_worker_counts_to_test() {
    assert_eq!(worker_counts_to_test(64), vec![1, 2, 4, 8, 16, 32, 64]);
    assert_eq!(worker_counts_to_test(48), vec![1, 2, 4, 8, 16, 32, 48]);
    assert_eq!(worker_counts_to_test(1), vec![1]);
}

#[test]
fn worker_counts_edge_cases() {
    assert_eq!(worker_counts_to_test(0), vec![0]);
    assert_eq!(worker_counts_to_test(3), vec![1, 2, 3]);
    let big = usize::MAX / 2;
    let counts = worker_counts_to_test(big);
    assert_eq!(*counts.last().unwrap(), big);
    assert_eq!(counts.len(), (usize::BITS as usize - 1) + 1);
}

#[test]
fn test_generate_strategies() {
    let strats = generate_strategies(3);
    assert_eq!(strats.len(), 3);
    assert_eq!(strats[0], vec!["--dpi-desync=fake", "--dpi-desync-ttl=1"]);
    assert_eq!(strats[2], vec!["--dpi-desync=fake", "--dpi-desync-ttl=3"]);
}

#[test]
fn generate_strategies_numbers_past_nine() {
    let strats = generate_strategies(64);
    assert_eq!(strats[9], vec!["--dpi-desync=fake", "--dpi-desync-ttl=10"]);
    assert_eq!(strats[63], vec!["--dpi-desync=fake", "--dpi-desync-ttl=64"]);
    assert!(generate_strategies(0).is_empty());
}

#[test]
fn default_max_workers_is_sixteen_per_cpu() {
    assert_eq!(default_max_workers(Some(4)), 64);
    assert_eq!(default_max_workers(Some(1)), 16);
    assert_eq!(default_max_workers(None), 64);
}

#[test]
fn recommendation_does_not_depend_on_run_order() {
    let a = PointSummary { workers: 4, errors: 0, reaches_threshold: true };
    let b = PointSummary { workers: 2, errors: 0, reaches_threshold: false };
    let c = PointSummary { workers: 16, errors: 0, reaches_threshold: true };
    let d = PointSummary { workers: 1, errors: 2, reaches_threshold: true };
    let orders = [vec![a, b, c, d], vec![d, c, b, a], vec![c, a, d, b], vec![b, d, a, c]];
    for order in orders {
        assert_eq!(recommend_workers(&order), 4);
    }
}

#[test]
fn worker_counts_are_powers_of_two_then_max() {
    assert_eq!(worker_counts_to_test(100), vec![1, 2, 4, 8, 16, 32, 64, 100]);
    assert_eq!(worker_counts_to_test(128), vec![1, 2, 4, 8, 16, 32, 64, 128]);
    assert_eq!(worker_counts_to_test(2), vec![1, 2]);
}
