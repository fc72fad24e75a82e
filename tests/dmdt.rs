use light_curve_dmdt::{CellIndex, CountMap, DmDt, Grid};

/// Coordinate units per time or magnitude unit
const SCALE: f64 = 1_000_000.0;

fn key(x: f64) -> i64 {
    (x * SCALE).round() as i64
}

fn keys(a: &[f32]) -> Vec<i64> {
    a.iter().map(|&x| key(x as f64)).collect()
}

/// A logarithmic dt grid over `[10^min_lgdt, 10^max_lgdt)`
fn lg_grid(min_lgdt: f64, max_lgdt: f64, n: usize) -> Grid {
    let mut borders: Vec<i64> = (0..=n)
        .map(|k| key(10f64.powf(min_lgdt + (max_lgdt - min_lgdt) * k as f64 / n as f64)))
        .collect();
    borders[0] = key(10f64.powf(min_lgdt));
    borders[n] = key(10f64.powf(max_lgdt));
    Grid::array(borders).unwrap()
}

fn dmdt_from_lgdt_dm_limits(
    min_lgdt: f64,
    max_lgdt: f64,
    lgdt_size: usize,
    max_abs_dm: f64,
    dm_size: usize,
) -> DmDt {
    DmDt::from_grids(
        lg_grid(min_lgdt, max_lgdt, lgdt_size),
        Grid::linear(-key(max_abs_dm), key(max_abs_dm), dm_size),
    )
}

fn linspace(start: f32, end: f32, n: usize) -> Vec<f32> {
    (0..n)
        .map(|k| start + (end - start) * k as f32 / (n - 1) as f32)
        .collect()
}

fn row_sums(points: &[u64], n_dt: usize, n_dm: usize) -> Vec<u64> {
    (0..n_dt)
        .map(|r| points[r * n_dm..(r + 1) * n_dm].iter().sum())
        .collect()
}

#[test]
fn dt_points_vs_points() {
    let dmdt = dmdt_from_lgdt_dm_limits(0.0, 2.0, 32, 3.0, 32);
    let t = linspace(0.0, 100.0, 101);
    // dm is within map borders
    let m: Vec<f32> = t.iter().map(|x| x.sin()).collect();

    let points = dmdt.points(&keys(&t), &keys(&m));
    let dt_points = dmdt.dt_points(&keys(&t));
    let (n_dt, n_dm) = dmdt.shape();

    assert_eq!(row_sums(&points.to_vec(), n_dt, n_dm), dt_points);
}

#[test]
fn two_cells_scenario() {
    // dt grid [10^0, 10^2) of two logarithmic cells, dm grid [-1, 1) of two cells
    let dmdt = DmDt::from_grids(
        Grid::array(vec![1, 10, 100]).unwrap(),
        Grid::linear(-10, 10, 2),
    );
    let t = [0, 1, 10];
    // magnitudes in tenths: 0, 0.5, -0.5
    let m = [0, 5, -5];
    let points = dmdt.points(&t, &m);
    assert_eq!(dmdt.shape(), (2, 2));
    // (0, 1): dt = 1, dm = 0.5; (0, 2): dt = 10, dm = -0.5;
    // (1, 2): dt = 9, dm = -1.0 sits on the left border of the dm grid
    assert_eq!(points.to_vec(), vec![1, 1, 1, 0]);
    assert_eq!(dmdt.dt_points(&t), vec![2, 1]);
}

#[test]
fn equal_times_are_never_counted() {
    let dmdt = DmDt::from_grids(Grid::array(vec![1, 10, 100]).unwrap(), Grid::linear(-10, 10, 2));
    let t = [5, 5];
    let m = [0, 1];
    assert_eq!(dmdt.points(&t, &m).to_vec(), vec![0, 0, 0, 0]);
    assert_eq!(dmdt.dt_points(&t), vec![0, 0]);
    assert_eq!(dmdt.dt_pairs(&t, 0), vec![]);
}

#[test]
fn dm_out_of_grid_is_not_counted_in_points() {
    let dmdt = DmDt::from_grids(Grid::linear(0, 100, 4), Grid::linear(-10, 10, 2));
    let t = [0, 10, 20];
    let m = [0, 50, 1];
    // dt cells are 25 wide: every pair is in the first one.
    // (0, 1): dm = 50 beyond the dm grid; (0, 2): dm = 1; (1, 2): dm = -49 beyond it
    assert_eq!(dmdt.points(&t, &m).to_vec(), vec![0, 1, 0, 0, 0, 0, 0, 0]);
    assert_eq!(dmdt.dt_points(&t), vec![3, 0, 0, 0]);
}

#[test]
fn scan_stops_beyond_the_dt_grid() {
    let dmdt = DmDt::from_grids(Grid::linear(1, 11, 2), Grid::linear(-10, 10, 2));
    let t = [0, 0, 3, 8, 20, 30];
    assert_eq!(dmdt.dt_pairs(&t, 0), vec![(2, 0), (3, 1)]);
    assert_eq!(dmdt.dt_pairs(&t, 2), vec![(3, 0)]);
    assert_eq!(dmdt.dt_pairs(&t, 4), vec![(5, 1)]);
    assert_eq!(dmdt.dt_pairs(&t, 5), vec![]);
    assert_eq!(dmdt.dt_points(&t), vec![3, 3]);
}

#[test]
fn dm_window_clamps_to_the_grid() {
    let dmdt = DmDt::from_grids(Grid::linear(1, 11, 2), Grid::linear(-10, 10, 4));
    // cells [-10, -5), [-5, 0), [0, 5), [5, 10)
    assert_eq!(dmdt.dm_window(-3, 2), Some((1, 3)));
    assert_eq!(dmdt.dm_window(-30, 2), Some((0, 3)));
    assert_eq!(dmdt.dm_window(-3, 30), Some((1, 4)));
    assert_eq!(dmdt.dm_window(-30, 30), Some((0, 4)));
    assert_eq!(dmdt.dm_window(10, 30), None);
    assert_eq!(dmdt.dm_window(-30, -11), None);
    assert_eq!(dmdt.dm_window(-5, -5), Some((1, 2)));
}

#[test]
fn wide_differences_fall_outside() {
    let dmdt = DmDt::from_grids(Grid::linear(1, 11, 2), Grid::linear(-10, 10, 2));
    assert_eq!(dmdt.dt_grid.idx_wide(i128::from(i64::MAX) * 2), CellIndex::GreaterMax);
    assert_eq!(dmdt.dt_grid.idx_wide(i128::from(i64::MIN) * 2), CellIndex::LowerMin);
    let t = [i64::MIN, i64::MAX];
    assert_eq!(dmdt.dt_points(&t), vec![0, 0]);
}

#[test]
fn count_map_cells_are_row_major() {
    let mut a = CountMap::zeros(2, 3);
    assert_eq!(a.to_vec(), vec![0; 6]);
    a.set(1, 0, 7);
    a.set(0, 2, 4);
    assert_eq!(a.get(1, 0), 7);
    assert_eq!(a.get(0, 2), 4);
    assert_eq!(a.get(1, 2), 0);
    assert_eq!(a.to_vec(), vec![0, 0, 4, 7, 0, 0]);
}
