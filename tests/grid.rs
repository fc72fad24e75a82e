use light_curve_dmdt::{is_sorted, ArrayGrid, ArrayGridError, CellIndex, Grid, GridTrait, LinearGrid};

#[test]
fn array_grid_rejects_empty_borders() {
    assert_eq!(ArrayGrid::new(vec![]).unwrap_err(), ArrayGridError::ArrayIsEmpty);
    assert_eq!(Grid::array(vec![]).unwrap_err(), ArrayGridError::ArrayIsEmpty);
}

#[test]
fn array_grid_rejects_unsorted_borders() {
    assert_eq!(
        ArrayGrid::new(vec![0, 2, 1]).unwrap_err(),
        ArrayGridError::ArrayIsNotAscending
    );
    assert_eq!(
        Grid::array(vec![0, 1, 1, 2]).unwrap_err(),
        ArrayGridError::ArrayIsNotAscending
    );
}

#[test]
fn array_grid_lookup() {
    let g = Grid::array(vec![-5, 0, 3, 10]).unwrap();
    assert_eq!(g.cell_count(), 3);
    assert_eq!(g.get_start(), -5);
    assert_eq!(g.get_end(), 10);
    assert_eq!(g.get_borders(), vec![-5, 0, 3, 10]);
    assert_eq!(g.idx(-6), CellIndex::LowerMin);
    assert_eq!(g.idx(-5), CellIndex::Value(0));
    assert_eq!(g.idx(-1), CellIndex::Value(0));
    assert_eq!(g.idx(0), CellIndex::Value(1));
    assert_eq!(g.idx(3), CellIndex::Value(2));
    assert_eq!(g.idx(9), CellIndex::Value(2));
    assert_eq!(g.idx(10), CellIndex::GreaterMax);
    assert_eq!(g.idx(i64::MAX), CellIndex::GreaterMax);
}

#[test]
fn single_border_grid_has_no_cell() {
    let g = Grid::array(vec![4]).unwrap();
    assert_eq!(g.cell_count(), 0);
    assert_eq!(g.idx(3), CellIndex::LowerMin);
    assert_eq!(g.idx(4), CellIndex::GreaterMax);
}

#[test]
fn linear_grid_cells_have_equal_width() {
    let g = LinearGrid::new(0, 10, 4);
    assert_eq!(g.cell_count(), 4);
    assert_eq!(g.get_width(), 10);
    // borders 0, 2.5, 5, 7.5, 10 rounded up to integers
    assert_eq!(g.get_borders(), vec![0, 3, 5, 8, 10]);
    assert_eq!(g.idx(-1), CellIndex::LowerMin);
    assert_eq!(g.idx(0), CellIndex::Value(0));
    assert_eq!(g.idx(2), CellIndex::Value(0));
    assert_eq!(g.idx(3), CellIndex::Value(1));
    assert_eq!(g.idx(7), CellIndex::Value(2));
    assert_eq!(g.idx(8), CellIndex::Value(3));
    assert_eq!(g.idx(9), CellIndex::Value(3));
    assert_eq!(g.idx(10), CellIndex::GreaterMax);
}

#[test]
fn linear_grid_last_cell_is_in_range() {
    let g = Grid::linear(-1_000_000_007, 999_999_999, 7);
    let end = g.get_end();
    assert_eq!(g.idx(end - 1), CellIndex::Value(6));
    assert_eq!(g.idx(end), CellIndex::GreaterMax);
    let b = g.get_borders();
    assert_eq!(b.len(), 8);
    for k in 0..7 {
        assert_eq!(g.idx(b[k]), CellIndex::Value(k));
        assert_eq!(g.idx(b[k + 1] - 1), CellIndex::Value(k));
    }
}

#[test]
fn linear_grid_on_full_range() {
    let g = Grid::linear(i64::MIN, i64::MAX, 2);
    assert_eq!(g.idx(-1), CellIndex::Value(0));
    assert_eq!(g.idx(0), CellIndex::Value(1));
    assert_eq!(g.idx(i64::MAX - 1), CellIndex::Value(1));
    assert_eq!(g.idx(i64::MAX), CellIndex::GreaterMax);
}

#[test]
fn sorted_means_strictly_ascending() {
    assert!(is_sorted(&[]));
    assert!(is_sorted(&[1]));
    assert!(is_sorted(&[1, 2, 5]));
    assert!(!is_sorted(&[1, 1]));
    assert!(!is_sorted(&[3, 2]));
}
