use ips_pointcloud::{
    rebuild_columns, solve_naive, solve_threaded, IntervalSolver, Pair, Point, ScanSolver,
    SubscanSolver,
};

fn scenario() -> Vec<Point> {
    vec![(0, 0, 0, 0), (30_000, 0, 0, 1), (10_000_000, 10_000_000, 10_000_000, 2)]
}

fn threaded<IS: IntervalSolver>(points: &[Point], parallel: usize) -> Vec<Pair> {
    let mut xyzi = points.to_vec();
    let (mut x, mut y, mut z, mut id) = (Vec::new(), Vec::new(), Vec::new(), Vec::new());
    let mut ret = Vec::new();
    solve_threaded::<IS>(&mut xyzi, (&mut x, &mut y, &mut z, &mut id), parallel, &mut ret);
    ret.sort_unstable();
    ret
}

fn swept<IS: IntervalSolver>(points: &[Point]) -> Vec<Pair> {
    let mut xyzi = points.to_vec();
    xyzi.sort_by_key(|p| p.0);
    let (mut x, mut y, mut z, mut id) = (Vec::new(), Vec::new(), Vec::new(), Vec::new());
    rebuild_columns(&xyzi, (&mut x, &mut y, &mut z, &mut id));
    let mut ret = vec![(7, 9)];
    IS::solve_interval(&xyzi, (&x, &y, &z, &id), 0, xyzi.len(), &mut ret);
    ret.sort_unstable();
    ret
}

#[test]
fn scenario_naive_reports_the_one_close_pair() {
    assert_eq!(solve_naive(&scenario()), vec![(0, 1)]);
}

#[test]
fn scenario_scan_reports_the_one_close_pair() {
    assert_eq!(swept::<ScanSolver>(&scenario()), vec![(0, 1)]);
}

#[test]
fn scenario_subscan_reports_the_one_close_pair() {
    assert_eq!(swept::<SubscanSolver>(&scenario()), vec![(0, 1)]);
}

#[test]
fn scenario_threaded_scan_reports_the_one_close_pair() {
    for parallel in [1usize, 2, 8] {
        assert_eq!(threaded::<ScanSolver>(&scenario(), parallel), vec![(0, 1)]);
    }
}

#[test]
fn scenario_threaded_subscan_reports_the_one_close_pair() {
    for parallel in [1usize, 2, 8] {
        assert_eq!(threaded::<SubscanSolver>(&scenario(), parallel), vec![(0, 1)]);
    }
}

#[test]
fn scenario_far_point_is_far_on_every_axis() {
    let points = scenario();
    for axis in 0..3 {
        let of = |p: &Point| [p.0, p.1, p.2][axis];
        assert!(of(&points[2]) - of(&points[0]) > 50_000);
        assert!(of(&points[2]) - of(&points[1]) > 50_000);
    }
}

#[test]
fn scenario_read_from_text() {
    let points = ips_pointcloud::parse_input(b"0 0 0\n0.03 0 0\n10 10 10\n").unwrap();
    assert_eq!(points, scenario());
    assert_eq!(solve_naive(&points), vec![(0, 1)]);
    assert_eq!(threaded::<ScanSolver>(&points, 2), vec![(0, 1)]);
    assert_eq!(threaded::<SubscanSolver>(&points, 2), vec![(0, 1)]);
}

#[test]
fn threshold_written_as_a_number() {
    let text = "0.05";
    assert_eq!(
        ips_pointcloud::parse_number(text.as_bytes(), 0, text.len()),
        Some(ips_pointcloud::THRESHOLD)
    );
}
