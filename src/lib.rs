//! dm–dt maps of irregularly sampled light curves: every pair of observations
//! is binned by its time lag (dt) and its magnitude change (dm).
//!
//! Coordinates are integers in a unit of the caller's choice (a fixed-point
//! scale of time and magnitude), so that every grid lookup and every count is
//! exact.

mod accum;
mod columns;
mod dmdt;
mod grid;
mod norm;
mod util;

pub use crate::accum::{count_cells, count_shape, CountMap};
pub use crate::columns::{first_columns, first_columns_of, is_blank, is_comment};
pub use crate::dmdt::{
    dm_within_grid, dt_cell, dt_count, dt_count_from, dt_pairs_from, flat, in_cell, in_pair_cell,
    lemma_dt_pairs_match_dt_count, lemma_equal_times_never_counted,
    lemma_points_rows_sum_to_dt_points, non_decreasing, pair_count, pair_count_from, sum_to,
    window_end, window_start, DmDt,
};
pub use crate::grid::{
    ceil_div, cell_of, in_linear_cell, lemma_cell_exists, lemma_linear_cells_equal_width,
    lemma_locates_is_cell_of, linear_border, locates, valid_borders, ArrayGrid, ArrayGridError,
    CellIndex, Grid, GridTrait, LinearGrid,
};
pub use crate::norm::{nonzero_divisors, saturate_u8, saturated, transpose, DmDtNorm, NormSet};
pub use crate::util::{is_sorted, strictly_ascending};
