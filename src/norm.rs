use vstd::prelude::*;

use crate::dmdt::{flat, lemma_flat};

verus! {

/// A normalisation of a dm–dt map
#[derive(Clone, Copy, Debug, PartialEq, Eq, Structural)]
pub enum DmDtNorm {
    /// divide each dt row by the number of pairs in that dt cell
    LgDt,
    /// divide every cell by the largest value of the map
    Max,
}

/// The normalisations asked for. They always run in one fixed order, by dt
/// total first and by global maximum second, whatever order they were asked in.
#[derive(Clone, Copy, Debug, PartialEq, Eq, Structural)]
pub struct NormSet {
    pub lgdt: bool,
    pub max: bool,
}

impl NormSet {
    /// The set of the given normalisations
    pub fn from_norms(norms: &[DmDtNorm]) -> (r: NormSet)
        ensures
            r.lgdt == exists|k: int| 0 <= k < norms@.len() && norms@[k] == DmDtNorm::LgDt,
            r.max == exists|k: int| 0 <= k < norms@.len() && norms@[k] == DmDtNorm::Max,
    {
        let mut r = NormSet { lgdt: false, max: false };
        let mut k: usize = 0;
        while k < norms.len()
            invariant
                k <= norms@.len(),
                r.lgdt == exists|q: int| 0 <= q < k && norms@[q] == DmDtNorm::LgDt,
                r.max == exists|q: int| 0 <= q < k && norms@[q] == DmDtNorm::Max,
            decreases norms@.len() - k,
        {
            match norms[k] {
                DmDtNorm::LgDt => r.lgdt = true,
                DmDtNorm::Max => r.max = true,
            }
            k = k + 1;
        }
        r
    }

    /// No normalisation was asked for
    pub fn is_empty(&self) -> (r: bool)
        ensures
            r == (!self.lgdt && !self.max),
    {
        !self.lgdt && !self.max
    }
}

/// `x` cut down to the range of `u8`
pub open spec fn saturated(x: u64) -> u8 {
    if x > 255 {
        255
    } else {
        x as u8
    }
}

/// Each count cut down to `[0, 255]`: the map of counts when no normalisation
/// is asked for
pub fn saturate_u8(a: &[u64]) -> (r: Vec<u8>)
    ensures
        r@.len() == a@.len(),
        forall|k: int| 0 <= k < a@.len() ==> #[trigger] r@[k] == saturated(a@[k]),
{
    let mut r: Vec<u8> = Vec::with_capacity(a.len());
    let mut k: usize = 0;
    while k < a.len()
        invariant
            k <= a@.len(),
            r@.len() == k,
            forall|q: int| 0 <= q < k ==> #[trigger] r@[q] == saturated(a@[q]),
        decreases a@.len() - k,
    {
        let x = a[k];
        r.push(
            if x > 255 {
                255
            } else {
                x as u8
            },
        );
        k = k + 1;
    }
    r
}

/// The divisor of each dt row when normalising by dt total: its pair count,
/// or one where there is no pair
pub fn nonzero_divisors(dt_points: &[u64]) -> (r: Vec<u64>)
    ensures
        r@.len() == dt_points@.len(),
        forall|k: int|
            0 <= k < r@.len() ==> #[trigger] r@[k] == if dt_points@[k] == 0 {
                1
            } else {
                dt_points@[k]
            },
{
    let mut r: Vec<u64> = Vec::with_capacity(dt_points.len());
    let mut k: usize = 0;
    while k < dt_points.len()
        invariant
            k <= dt_points@.len(),
            r@.len() == k,
            forall|q: int|
                0 <= q < k ==> #[trigger] r@[q] == if dt_points@[q] == 0 {
                    1
                } else {
                    dt_points@[q]
                },
        decreases dt_points@.len() - k,
    {
        let x = dt_points[k];
        r.push(
            if x == 0 {
                1
            } else {
                x
            },
        );
        k = k + 1;
    }
    r
}

/// The row-major `n_rows` by `n_cols` map `a` turned into a row-major
/// `n_cols` by `n_rows` one: dm along the rows and dt along the columns, as an
/// image has it
pub fn transpose(a: &[u8], n_rows: usize, n_cols: usize) -> (r: Vec<u8>)
    requires
        a@.len() == n_rows * n_cols,
    ensures
        r@.len() == a@.len(),
        forall|i: int, j: int|
            0 <= i < n_rows && 0 <= j < n_cols ==> #[trigger] r@[flat(j, i, n_rows as int)]
                == a@[flat(i, j, n_cols as int)],
{
    let mut r: Vec<u8> = Vec::with_capacity(a.len());
    let mut j: usize = 0;
    while j < n_cols
        invariant
            a@.len() == n_rows * n_cols,
            j <= n_cols,
            r@.len() == j * n_rows,
            forall|i: int, jj: int|
                0 <= i < n_rows && 0 <= jj < j ==> #[trigger] r@[flat(jj, i, n_rows as int)]
                    == a@[flat(i, jj, n_cols as int)],
        decreases n_cols - j,
    {
        let mut i: usize = 0;
        while i < n_rows
            invariant
                a@.len() == n_rows * n_cols,
                j < n_cols,
                i <= n_rows,
                r@.len() == j * n_rows + i,
                forall|ii: int, jj: int|
                    0 <= ii < n_rows && 0 <= jj < j ==> #[trigger] r@[flat(jj, ii, n_rows as int)]
                        == a@[flat(ii, jj, n_cols as int)],
                forall|ii: int|
                    0 <= ii < i ==> #[trigger] r@[flat(j as int, ii, n_rows as int)]
                        == a@[flat(ii, j as int, n_cols as int)],
            decreases n_rows - i,
        {
            proof {
                lemma_flat(i as int, j as int, i as int, j as int, n_rows as int, n_cols as int);
                lemma_flat(j as int, i as int, j as int, i as int, n_cols as int, n_rows as int);
                assert(a@.len() <= usize::MAX) by {
                    assert(a@.len() == a.len());
                }
            }
            let x = a[i * n_cols + j];
            let ghost r0 = r@;
            r.push(x);
            proof {
                assert forall|ii: int, jj: int|
                    0 <= ii < n_rows && 0 <= jj < j implies #[trigger] r@[flat(jj, ii, n_rows as int)]
                    == a@[flat(ii, jj, n_cols as int)] by {
                    assert(jj * n_rows + ii < j * n_rows) by (nonlinear_arith)
                        requires
                            0 <= jj < j,
                            0 <= ii < n_rows,
                    ;
                    assert(r@[flat(jj, ii, n_rows as int)] == r0[flat(jj, ii, n_rows as int)]);
                }
                assert forall|ii: int|
                    0 <= ii < i + 1 implies #[trigger] r@[flat(j as int, ii, n_rows as int)]
                    == a@[flat(ii, j as int, n_cols as int)] by {
                    lemma_flat(j as int, ii, j as int, i as int, n_cols as int, n_rows as int);
                    if ii < i {
                        assert(r@[flat(j as int, ii, n_rows as int)] == r0[flat(j as int, ii, n_rows as int)]);
                    }
                }
            }
            i = i + 1;
        }
        proof {
            assert((j + 1) * n_rows == j * n_rows + n_rows) by (nonlinear_arith);
        }
        j = j + 1;
    }
    proof {
        assert(n_cols * n_rows == n_rows * n_cols) by (nonlinear_arith);
    }
    r
}

} // verus!
