use vstd::prelude::*;

verus! {

/// A dense two-dimensional map of counts, kept in an `ndarray::Array2<u64>`
#[verifier::external_body]
pub struct CountMap {
    a: ndarray::Array2<u64>,
}

/// The cells of a count map, row by row
pub uninterp spec fn count_cells(m: CountMap) -> Seq<u64>;

/// The number of rows and the number of columns of a count map
pub uninterp spec fn count_shape(m: CountMap) -> (usize, usize);

impl CountMap {
    /// Relies on `ndarray::Array2::zeros`: a standard-layout array of the given
    /// shape filled with zeros; it panics when the product of the non-zero
    /// axis lengths overflows `isize`.
    #[verifier::external_body]
    pub fn zeros(n_rows: usize, n_cols: usize) -> (r: CountMap)
        requires
            n_rows <= isize::MAX,
            n_cols <= isize::MAX,
            n_rows * n_cols <= isize::MAX,
        ensures
            count_shape(r) == (n_rows, n_cols),
            count_cells(r) == Seq::new((n_rows * n_cols) as nat, |k: int| 0u64),
    {
        CountMap { a: ndarray::Array2::zeros((n_rows, n_cols)) }
    }

    /// Relies on indexing an `ndarray::Array2` by `(row, column)`, which panics
    /// out of its shape.
    #[verifier::external_body]
    pub fn get(&self, r: usize, c: usize) -> (x: u64)
        requires
            r < count_shape(*self).0,
            c < count_shape(*self).1,
        ensures
            x == count_cells(*self)[r * count_shape(*self).1 + c],
    {
        self.a[(r, c)]
    }

    /// Relies on mutable indexing of an `ndarray::Array2` by `(row, column)`,
    /// which panics out of its shape.
    #[verifier::external_body]
    pub fn set(&mut self, r: usize, c: usize, x: u64)
        requires
            r < count_shape(*old(self)).0,
            c < count_shape(*old(self)).1,
        ensures
            count_shape(*final(self)) == count_shape(*old(self)),
            count_cells(*final(self)) == count_cells(*old(self)).update(
                r * count_shape(*old(self)).1 + c,
                x,
            ),
    {
        self.a[(r, c)] = x;
    }

    /// Relies on `ndarray::ArrayBase::iter`, which visits the cells in logical
    /// order, row by row.
    #[verifier::external_body]
    pub fn to_vec(&self) -> (v: Vec<u64>)
        ensures
            v@ == count_cells(*self),
    {
        self.a.iter().copied().collect()
    }
}

} // verus!
