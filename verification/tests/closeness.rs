use ips_pointcloud::closeness::axis_closeness;
use ips_pointcloud::columns::axis_column;
use ips_pointcloud::{can_count_pairs, closeness_1d, compute_closeness, Point};

fn along_x(xs: &[i64]) -> Vec<Point> {
    xs.iter().enumerate().map(|(i, &x)| (x, i as i64 * 1_000_000, 0, i as u16)).collect()
}

#[test]
fn cluster_of_three_counts_three_pairs() {
    assert_eq!(closeness_1d(&[0, 10_000, 20_000]), 3);
}

#[test]
fn two_clusters_count_the_pairs_of_each() {
    // 0, 0.01, 0.02 form three pairs, and 5, 5.01 a fourth
    let xs = [0, 10_000, 20_000, 5_000_000, 5_010_000];
    assert_eq!(closeness_1d(&xs), 4);
    assert_eq!(closeness_1d(&[0, 10_000, 20_000, 5_000_000]), 3);
}

#[test]
fn spread_values_count_no_pairs() {
    assert_eq!(closeness_1d(&[0, 50_001, 100_002, 150_003, -50_001]), 0);
}

#[test]
fn profile_of_a_line_along_x() {
    let points = along_x(&[0, 10_000, 20_000, 5_000_000, 5_010_000]);
    // close along x in four pairs, apart along y, the same along z
    assert_eq!(compute_closeness(&points), [4, 0, 10]);
}

#[test]
fn values_at_exactly_the_threshold_count() {
    assert_eq!(closeness_1d(&[0, 50_000]), 1);
    assert_eq!(closeness_1d(&[0, 50_001]), 0);
    assert_eq!(closeness_1d(&[-25_000, 25_000, 75_000]), 2);
}

#[test]
fn order_of_the_values_does_not_matter() {
    let sorted = [0, 10, 40_000, 60_000, 100_000, 100_000, 149_000];
    let shuffled = [100_000, 10, 149_000, 0, 60_000, 100_000, 40_000];
    assert_eq!(closeness_1d(&sorted), 9);
    assert_eq!(closeness_1d(&shuffled), 9);
}

#[test]
fn few_values_count_no_pairs() {
    assert_eq!(closeness_1d(&[]), 0);
    assert_eq!(closeness_1d(&[5]), 0);
    assert_eq!(compute_closeness(&[]), [0, 0, 0]);
    assert_eq!(compute_closeness(&[(1, 2, 3, 0)]), [0, 0, 0]);
}

#[test]
fn values_at_the_ends_of_the_range() {
    assert_eq!(closeness_1d(&[i64::MAX, i64::MIN, i64::MAX - 50_000, i64::MIN + 50_001]), 1);
}

#[test]
fn profile_tells_the_axes_apart() {
    let points: Vec<Point> = vec![
        (0, 0, 0, 0),
        (10, 60_000, 0, 1),
        (20, 120_000, 70_000, 2),
        (30, 120_001, 70_001, 3),
    ];
    assert_eq!(compute_closeness(&points), [6, 1, 2]);
}

#[test]
fn pair_count_capacity() {
    assert!(can_count_pairs(0));
    assert!(can_count_pairs(1));
    assert!(can_count_pairs(65_536));
    assert_eq!(can_count_pairs(usize::MAX), false);
}

#[test]
fn column_of_each_axis() {
    let points: Vec<Point> = vec![(1, 2, 3, 0), (40_000, 50_000, 60_000, 1), (7, 8, 9, 2)];
    assert_eq!(axis_column(&points, 0), vec![1, 40_000, 7]);
    assert_eq!(axis_column(&points, 1), vec![2, 50_000, 8]);
    assert_eq!(axis_column(&points, 2), vec![3, 60_000, 9]);
    assert_eq!(axis_closeness(&points, 0), 3);
    assert_eq!(axis_closeness(&points, 1), 3);
    assert_eq!(axis_closeness(&points, 2), 1);
}
