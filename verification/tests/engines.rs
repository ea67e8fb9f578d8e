use ips_pointcloud::{
    has_distinct_ids, is_close, is_sorted_by_x, rebuild_columns, solve_naive, solve_threaded,
    IntervalSolver, Pair, Point, ScanSolver, SubscanSolver, MAX_POINTS, THRESHOLD, THRESHOLD2,
    TICKS_PER_UNIT,
};

fn cloud(n: usize, side: i64, seed: u64) -> Vec<Point> {
    let mut state = seed;
    let mut next = move || {
        state = state.wrapping_mul(6364136223846793005).wrapping_add(1442695040888963407);
        ((state >> 33) as i64) % side
    };
    let mut points = Vec::new();
    for i in 0..n {
        // identities run against the positions, so that normalising matters
        points.push((next(), next(), next(), (n - 1 - i) as u16));
    }
    points
}

fn sorted(mut pairs: Vec<Pair>) -> Vec<Pair> {
    pairs.sort_unstable();
    pairs
}

fn threaded<IS: IntervalSolver>(points: &[Point], parallel: usize) -> Vec<Pair> {
    let mut xyzi = points.to_vec();
    let (mut x, mut y, mut z, mut id) = (Vec::new(), Vec::new(), Vec::new(), Vec::new());
    let mut ret = vec![(1, 2)];
    solve_threaded::<IS>(&mut xyzi, (&mut x, &mut y, &mut z, &mut id), parallel, &mut ret);
    assert!(is_sorted_by_x(&xyzi));
    ret
}

fn swept<IS: IntervalSolver>(points: &[Point], start: usize, end: usize) -> Vec<Pair> {
    let mut xyzi = points.to_vec();
    xyzi.sort_by_key(|p| p.0);
    let (mut x, mut y, mut z, mut id) = (Vec::new(), Vec::new(), Vec::new(), Vec::new());
    rebuild_columns(&xyzi, (&mut x, &mut y, &mut z, &mut id));
    let mut ret = Vec::new();
    IS::solve_interval(&xyzi, (&x, &y, &z, &id), start, end, &mut ret);
    ret
}

fn expected(points: &[Point]) -> Vec<Pair> {
    let mut pairs = Vec::new();
    for i in 0..points.len() {
        for j in 0..i {
            let (p, q) = (points[i], points[j]);
            let gap = |a: i64, b: i64| (a as i128 - b as i128).abs().min(THRESHOLD as i128);
            let (dx, dy, dz) = (gap(p.0, q.0), gap(p.1, q.1), gap(p.2, q.2));
            if dx * dx + dy * dy + dz * dz < THRESHOLD2 as i128 {
                pairs.push((p.3.min(q.3), p.3.max(q.3)));
            }
        }
    }
    sorted(pairs)
}

fn all_engines(points: &[Point]) -> Vec<Vec<Pair>> {
    let n = points.len();
    let mut answers = vec![
        solve_naive(points),
        swept::<ScanSolver>(points, 0, n),
        swept::<SubscanSolver>(points, 0, n),
    ];
    for parallel in [1usize, 2, 8] {
        answers.push(threaded::<ScanSolver>(points, parallel));
        answers.push(threaded::<SubscanSolver>(points, parallel));
    }
    answers
}

#[test]
fn constants_fit_together() {
    assert_eq!(TICKS_PER_UNIT, 1_000_000);
    assert_eq!(THRESHOLD, 50_000);
    assert_eq!(THRESHOLD2, THRESHOLD * THRESHOLD);
    assert_eq!(MAX_POINTS, u16::MAX as usize - 10);
}

#[test]
fn engines_agree_with_the_oracle_on_a_dense_cloud() {
    let points = cloud(2000, 1_000_000, 7);
    assert!(has_distinct_ids(&points));
    let want = expected(&points);
    assert!(want.len() > 500);
    for answer in all_engines(&points) {
        assert_eq!(sorted(answer), want);
    }
}

#[test]
fn engines_agree_with_the_oracle_on_a_clustered_cloud() {
    // every point within reach of every other along x, few along y
    let points: Vec<Point> = cloud(600, 40_000, 11)
        .into_iter()
        .map(|p| (p.0, p.1 * 40, p.2, p.3))
        .collect();
    let want = expected(&points);
    assert!(want.len() > 100);
    for answer in all_engines(&points) {
        assert_eq!(sorted(answer), want);
    }
}

#[test]
fn engines_agree_where_coordinates_repeat() {
    let mut points = Vec::new();
    for i in 0..300u16 {
        let k = i as i64;
        points.push(((k % 5) * 25_000, (k % 7) * 25_000, (k % 3) * 25_000, i));
    }
    let want = expected(&points);
    assert!(!want.is_empty());
    for answer in all_engines(&points) {
        assert_eq!(sorted(answer), want);
    }
}

#[test]
fn engines_agree_at_the_ends_of_the_coordinate_range() {
    let far = i64::MAX;
    let points: Vec<Point> = vec![
        (far, far, far, 0),
        (far - 10, far - 10, far - 10, 1),
        (-far - 1, -far - 1, -far - 1, 2),
        (-far, -far, -far, 3),
        (0, far, -far, 4),
        (1, far, -far - 1, 5),
        (0, 0, 0, 6),
    ];
    let want = vec![(0, 1), (2, 3), (4, 5)];
    assert_eq!(expected(&points), want);
    for answer in all_engines(&points) {
        assert_eq!(sorted(answer), want);
    }
}

#[test]
fn every_pair_has_its_smaller_identity_first() {
    let points = cloud(800, 500_000, 3);
    for answer in all_engines(&points) {
        assert!(!answer.is_empty());
        assert!(answer.iter().all(|p| p.0 < p.1));
    }
}

#[test]
fn no_pair_is_reported_twice() {
    let points = cloud(800, 500_000, 5);
    for answer in all_engines(&points) {
        let mut unique = sorted(answer.clone());
        unique.dedup();
        assert_eq!(unique.len(), answer.len());
    }
}

#[test]
fn distance_of_exactly_the_threshold_is_not_reported() {
    let on_axis: Vec<Point> = vec![(0, 0, 0, 0), (THRESHOLD, 0, 0, 1)];
    let diagonal: Vec<Point> = vec![(100, 100, 100, 0), (30_100, 40_100, 100, 1)];
    let upright: Vec<Point> = vec![(5, 5, 5, 0), (5, 5 - THRESHOLD, 5, 1)];
    for points in [on_axis, diagonal, upright] {
        assert!(!is_close(&points[0], &points[1]));
        for answer in all_engines(&points) {
            assert_eq!(answer, vec![]);
        }
    }
}

#[test]
fn distance_just_below_the_threshold_is_reported() {
    let on_axis: Vec<Point> = vec![(0, 0, 0, 0), (THRESHOLD - 1, 0, 0, 1)];
    let diagonal: Vec<Point> = vec![(100, 100, 100, 1), (30_100, 40_099, 100, 0)];
    let upright: Vec<Point> = vec![(5, 5, 5, 0), (5, 5, 5 - (THRESHOLD - 1), 1)];
    for points in [on_axis, diagonal, upright] {
        assert!(is_close(&points[0], &points[1]));
        for answer in all_engines(&points) {
            assert_eq!(answer, vec![(0, 1)]);
        }
    }
}

#[test]
fn distance_just_above_the_threshold_is_not_reported() {
    let points: Vec<Point> = vec![(100, 100, 100, 1), (30_100, 40_101, 100, 0)];
    assert!(!is_close(&points[0], &points[1]));
    for answer in all_engines(&points) {
        assert_eq!(answer, vec![]);
    }
}

#[test]
fn empty_cloud_has_no_pairs() {
    for answer in all_engines(&[]) {
        assert_eq!(answer, vec![]);
    }
}

#[test]
fn single_point_has_no_pairs() {
    for answer in all_engines(&[(3, 4, 5, 9)]) {
        assert_eq!(answer, vec![]);
    }
}

#[test]
fn any_number_of_chunks_gives_the_same_pairs() {
    let points = cloud(40, 150_000, 13);
    let want = expected(&points);
    assert!(want.len() > 5);
    for parallel in 1..=points.len() + 3 {
        assert_eq!(sorted(threaded::<ScanSolver>(&points, parallel)), want);
        assert_eq!(sorted(threaded::<SubscanSolver>(&points, parallel)), want);
    }
}

#[test]
fn sweeps_over_adjoining_ranges_add_up() {
    let points = cloud(300, 300_000, 17);
    let n = points.len();
    let whole = sorted(swept::<ScanSolver>(&points, 0, n));
    assert!(!whole.is_empty());
    for cut in [0usize, 1, 7, 150, 299, 300] {
        let mut scan = swept::<ScanSolver>(&points, 0, cut);
        scan.extend(swept::<ScanSolver>(&points, cut, n));
        assert_eq!(sorted(scan), whole);
        let mut subscan = swept::<SubscanSolver>(&points, 0, cut);
        subscan.extend(swept::<SubscanSolver>(&points, cut, n));
        assert_eq!(sorted(subscan), whole);
    }
}

#[test]
fn a_sweep_reaches_back_before_its_range() {
    let points: Vec<Point> = vec![(0, 0, 0, 0), (10, 0, 0, 1), (20, 0, 0, 2), (900_000, 0, 0, 3)];
    assert_eq!(sorted(swept::<ScanSolver>(&points, 2, 3)), vec![(0, 2), (1, 2)]);
    assert_eq!(sorted(swept::<SubscanSolver>(&points, 2, 3)), vec![(0, 2), (1, 2)]);
    assert_eq!(swept::<ScanSolver>(&points, 3, 4), vec![]);
    assert_eq!(swept::<SubscanSolver>(&points, 3, 4), vec![]);
    assert_eq!(swept::<ScanSolver>(&points, 2, 2), vec![]);
    assert_eq!(swept::<SubscanSolver>(&points, 4, 4), vec![]);
}

#[test]
fn threaded_join_sorts_the_points_in_place() {
    let points = cloud(500, 1_000_000, 19);
    assert!(!is_sorted_by_x(&points));
    let mut xyzi = points.clone();
    let (mut x, mut y, mut z, mut id) = (vec![1], vec![2], vec![3], vec![4]);
    let mut ret = Vec::new();
    solve_threaded::<SubscanSolver>(&mut xyzi, (&mut x, &mut y, &mut z, &mut id), 4, &mut ret);
    assert!(is_sorted_by_x(&xyzi));
    let mut before = points.clone();
    let mut after = xyzi.clone();
    before.sort_unstable();
    after.sort_unstable();
    assert_eq!(before, after);
    // the sliding-window engine leaves the columns alone
    assert_eq!((x, y, z, id), (vec![1], vec![2], vec![3], vec![4]));
}

#[test]
fn threaded_scan_rebuilds_the_columns() {
    let points = cloud(100, 1_000_000, 23);
    let mut xyzi = points.clone();
    let (mut x, mut y, mut z, mut id) = (vec![1], vec![2, 2], vec![3], vec![4]);
    let mut ret = Vec::new();
    solve_threaded::<ScanSolver>(&mut xyzi, (&mut x, &mut y, &mut z, &mut id), 3, &mut ret);
    assert_eq!(x, xyzi.iter().map(|p| p.0).collect::<Vec<_>>());
    assert_eq!(y, xyzi.iter().map(|p| p.1).collect::<Vec<_>>());
    assert_eq!(z, xyzi.iter().map(|p| p.2).collect::<Vec<_>>());
    assert_eq!(id, xyzi.iter().map(|p| p.3).collect::<Vec<_>>());
}

#[test]
fn window_query_tells_candidates_by_y() {
    // all within reach along x; only neighbours along y are close
    let mut points = Vec::new();
    for i in 0..50u16 {
        points.push((i as i64, i as i64 * 30_000, 0, i));
    }
    let want: Vec<Pair> = (0..49u16).map(|i| (i, i + 1)).collect();
    assert_eq!(sorted(swept::<SubscanSolver>(&points, 0, 50)), want);
}

#[test]
fn identity_checks_tell_clouds_apart() {
    assert!(has_distinct_ids(&[]));
    assert!(has_distinct_ids(&[(0, 0, 0, 5), (0, 0, 0, 65535), (0, 0, 0, 0)]));
    assert!(!has_distinct_ids(&[(0, 0, 0, 5), (1, 1, 1, 6), (2, 2, 2, 5)]));
    assert!(is_sorted_by_x(&[]));
    assert!(is_sorted_by_x(&[(1, 9, 9, 0), (1, 0, 0, 1), (2, 0, 0, 2)]));
    assert!(!is_sorted_by_x(&[(1, 0, 0, 0), (3, 0, 0, 1), (2, 0, 0, 2)]));
}

#[test]
fn a_cloud_of_full_capacity_is_joined() {
    let points = cloud(MAX_POINTS, 40_000_000, 29);
    assert!(has_distinct_ids(&points));
    let scan = sorted(threaded::<ScanSolver>(&points, 8));
    let subscan = sorted(threaded::<SubscanSolver>(&points, 5));
    assert!(!scan.is_empty());
    assert_eq!(scan, subscan);
    let by_id = |id: u16| points[MAX_POINTS - 1 - id as usize];
    for pair in &scan {
        assert!(pair.0 < pair.1);
        assert!(is_close(&by_id(pair.0), &by_id(pair.1)));
    }
}

fn window_without_columns(xyzi: &[Point], start: usize, end: usize) -> Vec<Pair> {
    assert!(is_sorted_by_x(xyzi) && has_distinct_ids(xyzi));
    let mut ret = vec![(8, 9)];
    SubscanSolver::solve_interval(xyzi, (&[], &[], &[], &[]), start, end, &mut ret);
    ret
}

#[test]
fn window_engine_needs_no_columns() {
    let points: Vec<Point> =
        vec![(0, 0, 0, 0), (30_000, 0, 0, 1), (10_000_000, 10_000_000, 10_000_000, 2)];
    assert_eq!(window_without_columns(&points, 0, 3), vec![(0, 1)]);
    // the window is rebuilt from the points before the range
    assert_eq!(window_without_columns(&points, 1, 3), vec![(0, 1)]);
    assert_eq!(window_without_columns(&points, 2, 3), vec![]);
}

#[test]
fn window_engine_tells_points_of_one_y_apart() {
    let points: Vec<Point> = vec![(0, 0, 0, 0), (10_000, 0, 0, 1), (20_000, 0, 0, 2)];
    assert_eq!(sorted(window_without_columns(&points, 0, 3)), vec![(0, 1), (0, 2), (1, 2)]);
}

#[test]
fn window_engine_at_the_edges_of_the_y_range() {
    let inside: Vec<Point> = vec![(0, 19_950_001, 0, 0), (0, 20_000_000, 0, 1)];
    assert_eq!(window_without_columns(&inside, 0, 2), vec![(0, 1)]);
    let below: Vec<Point> = vec![(0, 0, 0, 0), (0, 49_900, 0, 1)];
    assert_eq!(window_without_columns(&below, 0, 2), vec![(0, 1)]);
    let above: Vec<Point> = vec![(0, 49_900, 0, 0), (0, 0, 0, 1)];
    assert_eq!(window_without_columns(&above, 0, 2), vec![(0, 1)]);
    let at_threshold: Vec<Point> = vec![(0, 0, 0, 0), (0, THRESHOLD, 0, 1)];
    assert_eq!(window_without_columns(&at_threshold, 0, 2), vec![]);
    let at_threshold_below: Vec<Point> = vec![(0, THRESHOLD, 0, 0), (0, 0, 0, 1)];
    assert_eq!(window_without_columns(&at_threshold_below, 0, 2), vec![]);
}

#[test]
fn window_engine_puts_the_smaller_identity_first() {
    let points: Vec<Point> = vec![(0, 0, 0, 5), (10_000, 0, 0, 2)];
    assert_eq!(window_without_columns(&points, 0, 2), vec![(2, 5)]);
}

#[test]
fn engines_say_whether_they_read_the_columns() {
    assert!(ScanSolver::USE_SOA);
    assert!(!SubscanSolver::USE_SOA);
}
