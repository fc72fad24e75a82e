use vstd::prelude::*;
use vstd::arithmetic::div_mod::{lemma_fundamental_div_mod, lemma_mod_pos_bound};

use crate::util::{is_sorted, strictly_ascending};

verus! {

/// Where a coordinate falls on a grid.
#[derive(Clone, Copy, Debug, PartialEq, Eq, Structural)]
pub enum CellIndex {
    /// Below the leftmost border
    LowerMin,
    /// Equal to or greater than the rightmost border
    GreaterMax,
    /// Index of the containing cell
    Value(usize),
}

/// `r` is where `x` falls on the grid with cell borders `b`: cells hold their
/// left border and not their right one.
pub open spec fn locates(b: Seq<i64>, x: int, r: CellIndex) -> bool {
    match r {
        CellIndex::LowerMin => x < b[0],
        CellIndex::GreaterMax => b[b.len() - 1] <= x,
        CellIndex::Value(i) => {
            &&& b[0] <= x < b[b.len() - 1]
            &&& i + 1 < b.len()
            &&& b[i as int] <= x < b[i + 1]
        },
    }
}

/// The cell of `x` on the grid with borders `b`.
pub open spec fn cell_of(b: Seq<i64>, x: int) -> CellIndex {
    if x < b[0] {
        CellIndex::LowerMin
    } else if b[b.len() - 1] <= x {
        CellIndex::GreaterMax
    } else {
        CellIndex::Value(
            (choose|i: usize| i + 1 < b.len() && #[trigger] b[i as int] <= x < b[i + 1]),
        )
    }
}

/// Borders of a usable grid: at least one, strictly ascending.
pub open spec fn valid_borders(b: Seq<i64>) -> bool {
    b.len() >= 1 && strictly_ascending(b)
}

/// Between the first and the last of valid borders every coordinate has a cell.
pub proof fn lemma_cell_exists(b: Seq<i64>, x: int)
    requires
        valid_borders(b),
        b.len() <= usize::MAX,
        b[0] <= x < b[b.len() - 1],
    ensures
        cell_of(b, x) matches CellIndex::Value(i) && i + 1 < b.len() && b[i as int] <= x < b[i + 1],
{
    lemma_cell_search(b, x, 0);
}

proof fn lemma_cell_search(b: Seq<i64>, x: int, k: int)
    requires
        valid_borders(b),
        b.len() <= usize::MAX,
        0 <= k < b.len() - 1,
        b[k] <= x < b[b.len() - 1],
        b[0] <= x,
    ensures
        cell_of(b, x) matches CellIndex::Value(i) && i + 1 < b.len() && b[i as int] <= x < b[i + 1],
    decreases b.len() - k,
{
    if x < b[k + 1] {
        let w = k as usize;
        assert(w + 1 < b.len() && b[w as int] <= x < b[w + 1]);
    } else {
        lemma_cell_search(b, x, k + 1);
    }
}

/// On valid borders `locates` has exactly one answer, `cell_of`.
pub proof fn lemma_locates_is_cell_of(b: Seq<i64>, x: int, r: CellIndex)
    requires
        valid_borders(b),
        locates(b, x, r),
    ensures
        r == cell_of(b, x),
{
    if let CellIndex::Value(i) = r {
        let j = choose|j: usize| j + 1 < b.len() && #[trigger] b[j as int] <= x < b[j + 1];
        assert(j + 1 < b.len() && b[j as int] <= x < b[j + 1]);
        if j < i {
            assert(b[j + 1] <= b[i as int]);
        } else if i < j {
            assert(b[i + 1] <= b[j as int]);
        }
    }
}

/// Cell lookup shared by all grids
pub trait GridTrait: Sized {
    /// The cell borders
    spec fn borders_view(&self) -> Seq<i64>;

    /// The grid is usable
    spec fn grid_wf(&self) -> bool;

    proof fn lemma_grid_wf(&self)
        requires
            self.grid_wf(),
        ensures
            valid_borders(self.borders_view()),
            self.borders_view().len() <= usize::MAX,
    ;

    /// Cell borders, `cell_count() + 1` of them
    fn get_borders(&self) -> (r: Vec<i64>)
        requires
            self.grid_wf(),
        ensures
            r@ == self.borders_view(),
    ;

    /// Number of cells
    fn cell_count(&self) -> (r: usize)
        requires
            self.grid_wf(),
        ensures
            r + 1 == self.borders_view().len(),
    ;

    /// Coordinate of the left border of the leftmost cell
    fn get_start(&self) -> (r: i64)
        requires
            self.grid_wf(),
        ensures
            r == self.borders_view()[0],
    ;

    /// Coordinate of the right border of the rightmost cell
    fn get_end(&self) -> (r: i64)
        requires
            self.grid_wf(),
        ensures
            r == self.borders_view()[self.borders_view().len() - 1],
    ;

    /// Index of the cell that holds `x`; cells hold their left border and not
    /// their right one
    fn idx(&self, x: i64) -> (r: CellIndex)
        requires
            self.grid_wf(),
        ensures
            locates(self.borders_view(), x as int, r),
            r == cell_of(self.borders_view(), x as int),
    ;
}

/// An error returned by the constructor of an explicit grid
#[derive(Clone, Copy, Debug, PartialEq, Eq, Structural)]
pub enum ArrayGridError {
    /// no borders were given
    ArrayIsEmpty,
    /// the borders are not strictly ascending
    ArrayIsNotAscending,
}

/// Grid whose cell borders are given by an ascending array
///
/// Lookup time is O(lb n)
#[derive(Clone, Debug)]
pub struct ArrayGrid {
    borders: Vec<i64>,
}

impl View for ArrayGrid {
    type V = Seq<i64>;

    closed spec fn view(&self) -> Seq<i64> {
        self.borders@
    }
}

impl ArrayGrid {
    pub open spec fn wf(&self) -> bool {
        valid_borders(self@)
    }

    /// Wraps the given borders into a grid, or tells why they cannot be one
    pub fn new(borders: Vec<i64>) -> (r: Result<ArrayGrid, ArrayGridError>)
        ensures
            borders@.len() == 0 <==> r == Err::<ArrayGrid, _>(ArrayGridError::ArrayIsEmpty),
            borders@.len() > 0 && !strictly_ascending(borders@) <==> r == Err::<ArrayGrid, _>(
                ArrayGridError::ArrayIsNotAscending,
            ),
            r is Ok <==> valid_borders(borders@),
            r matches Ok(g) ==> g@ == borders@ && g.wf(),
    {
        if borders.len() == 0 {
            return Err(ArrayGridError::ArrayIsEmpty);
        }
        if !is_sorted(borders.as_slice()) {
            return Err(ArrayGridError::ArrayIsNotAscending);
        }
        Ok(ArrayGrid { borders })
    }


    pub proof fn lemma_len(&self)
        ensures
            self@.len() <= usize::MAX,
    {
        assert(self.borders@.len() == self.borders.len());
    }

}

impl GridTrait for ArrayGrid {
    open spec fn borders_view(&self) -> Seq<i64> {
        self@
    }

    open spec fn grid_wf(&self) -> bool {
        self.wf()
    }

    proof fn lemma_grid_wf(&self) {
        self.lemma_len();
    }

    fn get_borders(&self) -> (r: Vec<i64>) {
        let b = &self.borders;
        let mut v: Vec<i64> = Vec::with_capacity(b.len());
        let mut k: usize = 0;
        while k < b.len()
            invariant
                k <= b@.len(),
                v@ == b@.subrange(0, k as int),
            decreases b@.len() - k,
        {
            v.push(b[k]);
            k = k + 1;
        }
        assert(b@.subrange(0, b@.len() as int) =~= b@);
        v
    }

    fn cell_count(&self) -> (r: usize) {
        self.borders.len() - 1
    }

    fn get_start(&self) -> (r: i64) {
        self.borders[0]
    }

    fn get_end(&self) -> (r: i64) {
        self.borders[self.borders.len() - 1]
    }

    /// Index of the cell that holds `x`, by binary search
    fn idx(&self, x: i64) -> (r: CellIndex)
    {
        let b = &self.borders;
        let n = b.len();
        // the number of borders not greater than x
        let mut lo: usize = 0;
        let mut hi: usize = n;
        while lo < hi
            invariant
                0 <= lo <= hi <= n,
                n == b@.len(),
                valid_borders(b@),
                forall|k: int| 0 <= k < lo ==> b@[k] <= x,
                forall|k: int| hi <= k < n ==> x < b@[k],
            decreases hi - lo,
        {
            let mid = lo + (hi - lo) / 2;
            if b[mid] <= x {
                lo = mid + 1;
            } else {
                hi = mid;
            }
        }
        let r = if lo == 0 {
            CellIndex::LowerMin
        } else if lo == n {
            CellIndex::GreaterMax
        } else {
            CellIndex::Value(lo - 1)
        };
        proof {
            if lo == n {
                assert(b@[n - 1] <= x);
            } else if lo > 0 {
                assert(b@[lo - 1] <= x);
                assert(x < b@[lo as int]);
                assert(b@[0] <= b@[lo - 1]);
                assert(b@[lo as int] <= b@[n - 1]);
            } else {
                assert(x < b@[0]);
            }
            lemma_locates_is_cell_of(b@, x as int, r);
        }
        r
    }
}

/// `a / n` rounded up, for `a >= 0` and `n > 0`.
pub open spec fn ceil_div(a: int, n: int) -> int {
    (a + n - 1) / n
}

/// Border `k` of the linear grid of `n` cells over `[start, end)`: the least
/// integer not below `start + k * (end - start) / n`.
pub open spec fn linear_border(start: i64, end: i64, n: usize, k: int) -> int {
    start + ceil_div(k * (end - start), n as int)
}

proof fn lemma_ceil_div(a: int, n: int)
    requires
        a >= 0,
        n > 0,
    ensures
        n * ceil_div(a, n) >= a,
        n * ceil_div(a, n) < a + n,
        ceil_div(a, n) >= 0,
{
    lemma_fundamental_div_mod(a + n - 1, n);
    lemma_mod_pos_bound(a + n - 1, n);
    assert((a + n - 1) / n >= 0) by (nonlinear_arith)
        requires
            a + n - 1 >= 0,
            n > 0,
    ;
}

/// `ceil(a / n) <= d` exactly when `a <= n * d`.
proof fn lemma_ceil_div_le(a: int, n: int, d: int)
    requires
        a >= 0,
        n > 0,
    ensures
        (ceil_div(a, n) <= d) == (a <= n * d),
{
    lemma_ceil_div(a, n);
    let q = ceil_div(a, n);
    assert(q <= d ==> n * q <= n * d) by (nonlinear_arith)
        requires
            n > 0,
    ;
    assert(n * q < n * (d + 1) ==> q < d + 1) by (nonlinear_arith)
        requires
            n > 0,
    ;
    assert(n * (d + 1) == n * d + n) by (nonlinear_arith);
}

proof fn lemma_linear_borders(start: i64, end: i64, n: usize, i: int, j: int)
    requires
        start < end,
        1 <= n <= end - start,
        0 <= i < j <= n,
    ensures
        linear_border(start, end, n, i) < linear_border(start, end, n, j),
        linear_border(start, end, n, 0) == start,
        linear_border(start, end, n, n as int) == end,
{
    let w = end - start;
    let nn = n as int;
    assert(i * w >= 0 && j * w >= i * w + w) by (nonlinear_arith)
        requires
            0 <= i < j,
            w > 0,
    ;
    lemma_ceil_div(i * w, nn);
    let c = ceil_div(i * w, nn);
    lemma_ceil_div_le(j * w, nn, c);
    assert(0 * w == 0);
    lemma_ceil_div(0, nn);
    assert(ceil_div(0, nn) == 0) by {
        lemma_ceil_div_le(0, nn, 0);
    }
    assert(nn * w == w * nn) by (nonlinear_arith);
    assert(ceil_div(nn * w, nn) == w) by {
        lemma_ceil_div_le(nn * w, nn, w);
        lemma_ceil_div_le(nn * w, nn, w - 1);
        assert(nn * (w - 1) == nn * w - nn) by (nonlinear_arith);
    }
}

/// The `n` cells of a linear grid have equal width: `x` is in cell `k` exactly
/// when `k * (end - start) <= (x - start) * n < (k + 1) * (end - start)`, and
/// no coordinate of `[start, end)` is looked up out of range.
pub proof fn lemma_linear_cells_equal_width(g: LinearGrid, x: i64, k: int)
    requires
        g.wf(),
        g.spec_start() <= x < g.spec_end(),
    ensures
        ({
            let w = g.spec_end() - g.spec_start();
            let d = x - g.spec_start();
            let n = g.spec_cell_count() as int;
            in_linear_cell(w, d, n, k) <==> (cell_of(g@, x as int) matches CellIndex::Value(i) && i == k)
        }),
        cell_of(g@, x as int) matches CellIndex::Value(i) && i < g.spec_cell_count(),
{
    g.lemma_view();
    let w = g.spec_end() - g.spec_start();
    let d = x - g.spec_start();
    let n = g.spec_cell_count() as int;
    lemma_cell_exists(g@, x as int);
    let i = choose|i: usize| cell_of(g@, x as int) == CellIndex::Value(i);
    assert(cell_of(g@, x as int) == CellIndex::Value(i));
    assert(g@[i as int] <= x < g@[i + 1]);
    assert(i * w >= 0 && (i + 1) * w >= 0) by (nonlinear_arith)
        requires
            w > 0,
            i >= 0,
    ;
    lemma_ceil_div_le(i * w, n, d);
    lemma_ceil_div_le((i + 1) * w, n, d);
    assert(in_linear_cell(w, d, n, i as int));
    if in_linear_cell(w, d, n, k) && k != i {
        assert(false) by (nonlinear_arith)
            requires
                k * w <= n * d < (k + 1) * w,
                i * w <= n * d < (i + 1) * w,
                k != i,
                w > 0,
        ;
    }
}

/// `d * n` lies in the `k`-th of `n` equal parts of `[0, w * n)`
pub open spec fn in_linear_cell(w: int, d: int, n: int, k: int) -> bool {
    k * w <= n * d < (k + 1) * w
}

/// Linear grid defined by its start, end and number of cells
///
/// Lookup time is O(1)
#[derive(Clone, Copy, Debug)]
pub struct LinearGrid {
    start: i64,
    end: i64,
    n: usize,
}

impl View for LinearGrid {
    type V = Seq<i64>;

    /// The `n + 1` borders
    closed spec fn view(&self) -> Seq<i64> {
        Seq::new((self.n + 1) as nat, |k: int| linear_border(self.start, self.end, self.n, k) as i64)
    }
}

impl LinearGrid {
    pub closed spec fn wf(&self) -> bool {
        &&& self.start < self.end
        &&& 1 <= self.n <= self.end - self.start
        &&& self.n < usize::MAX
    }

    pub closed spec fn spec_start(&self) -> i64 {
        self.start
    }

    pub closed spec fn spec_end(&self) -> i64 {
        self.end
    }

    pub closed spec fn spec_cell_count(&self) -> usize {
        self.n
    }

    proof fn lemma_view(&self)
        requires
            self.wf(),
        ensures
            self@.len() == self.n + 1,
            forall|k: int| 0 <= k <= self.n ==> #[trigger] self@[k] == linear_border(self.start, self.end, self.n, k),
            self@[0] == self.start,
            self@[self.n as int] == self.end,
            valid_borders(self@),
    {
        assert forall|k: int| 0 <= k <= self.n implies #[trigger] self@[k] == linear_border(self.start, self.end, self.n, k) by {
            if k < self.n {
                lemma_linear_borders(self.start, self.end, self.n, k, self.n as int);
            } else {
                lemma_linear_borders(self.start, self.end, self.n, 0, k);
            }
            if k > 0 {
                lemma_linear_borders(self.start, self.end, self.n, 0, k);
            }
        }
        lemma_linear_borders(self.start, self.end, self.n, 0, self.n as int);
        assert forall|i: int, j: int| 0 <= i < j < self@.len() implies self@[i] < self@[j] by {
            lemma_linear_borders(self.start, self.end, self.n, i, j);
        }
    }

    /// Create a grid of `n` equal cells from `start` (the left border of the
    /// leftmost cell) to `end` (the right border of the rightmost cell). Every
    /// cell holds at least one coordinate.
    pub fn new(start: i64, end: i64, n: usize) -> (r: LinearGrid)
        requires
            start < end,
            1 <= n <= end - start,
            n < usize::MAX,
        ensures
            r.wf(),
            r.spec_start() == start,
            r.spec_end() == end,
            r.spec_cell_count() == n,
            r@.len() == n + 1,
            forall|k: int| 0 <= k <= n ==> #[trigger] r@[k] == linear_border(start, end, n, k),
            valid_borders(r@),
    {
        let r = LinearGrid { start, end, n };
        proof {
            r.lemma_view();
        }
        r
    }

    /// The width `end - start` of the whole grid
    pub fn get_width(&self) -> (r: u64)
        requires
            self.wf(),
        ensures
            r == self.spec_end() - self.spec_start(),
    {
        (self.end as i128 - self.start as i128) as u64
    }





}

impl GridTrait for LinearGrid {
    open spec fn borders_view(&self) -> Seq<i64> {
        self@
    }

    open spec fn grid_wf(&self) -> bool {
        self.wf()
    }

    proof fn lemma_grid_wf(&self) {
        self.lemma_view();
    }

    fn cell_count(&self) -> (r: usize) {
        proof {
            self.lemma_view();
        }
        self.n
    }

    fn get_start(&self) -> (r: i64) {
        proof {
            self.lemma_view();
        }
        self.start
    }

    fn get_end(&self) -> (r: i64) {
        proof {
            self.lemma_view();
        }
        self.end
    }

    /// The `n + 1` cell borders
    fn get_borders(&self) -> (r: Vec<i64>)
    {
        proof {
            self.lemma_view();
        }
        let w = self.get_width() as u128;
        let n = self.n as u128;
        let mut v: Vec<i64> = Vec::with_capacity(self.n + 1);
        let mut k: usize = 0;
        while k <= self.n
            invariant
                self.wf(),
                k <= self.n + 1,
                w == self.end - self.start,
                n == self.n,
                v@.len() == k,
                forall|i: int| 0 <= i < k ==> v@[i] == self@[i],
                self@.len() == self.n + 1,
                forall|i: int| 0 <= i <= self.n ==> #[trigger] self@[i] == linear_border(self.start, self.end, self.n, i),
                self@[self.n as int] == self.end,
                valid_borders(self@),
            decreases self.n + 1 - k,
        {
            assert(k as int * w <= self.n as int * w && self.n as int * w <= 0xffff_ffff_ffff_ffff * 0xffff_ffff_ffff_ffffu128) by (nonlinear_arith)
                requires
                    k <= self.n,
                    w <= 0xffff_ffff_ffff_ffff,
                    self.n <= 0xffff_ffff_ffff_ffff,
            ;
            let c = (k as u128 * w + n - 1) / n;
            proof {
                assert(self@[k as int] <= self@[self.n as int]);
            }
            let b = (self.start as i128 + c as i128) as i64;
            v.push(b);
            k = k + 1;
        }
        assert(v@ =~= self@);
        v
    }

    /// Index of the cell that holds `x`, from `floor((x - start) * n / (end - start))`:
    /// the `n` cells split `[start, end)` into parts of equal width
    fn idx(&self, x: i64) -> (r: CellIndex)
    {
        proof {
            self.lemma_view();
        }
        if x < self.start {
            return CellIndex::LowerMin;
        }
        if x >= self.end {
            return CellIndex::GreaterMax;
        }
        let d = (x as i128 - self.start as i128) as u128;
        let w = self.get_width() as u128;
        let n = self.n as u128;
        assert(d * n <= 0xffff_ffff_ffff_ffff * 0xffff_ffff_ffff_ffffu128) by (nonlinear_arith)
            requires
                d <= 0xffff_ffff_ffff_ffff,
                n <= 0xffff_ffff_ffff_ffff,
        ;
        let i = (d * n) / w;
        proof {
            let di = d as int;
            let wi = w as int;
            let ni = n as int;
            let ii = i as int;
            lemma_fundamental_div_mod(di * ni, wi);
            lemma_mod_pos_bound(di * ni, wi);
            assert(wi * ii <= di * ni < wi * ii + wi);
            assert(di * ni < wi * ni) by (nonlinear_arith)
                requires
                    di < wi,
                    ni > 0,
            ;
            assert(ii < ni) by (nonlinear_arith)
                requires
                    wi * ii < wi * ni,
                    wi > 0,
            ;
            assert(ii >= 0);
            assert(ii * wi <= ni * di && ni * di < (ii + 1) * wi) by (nonlinear_arith)
                requires
                    wi * ii <= di * ni < wi * ii + wi,
            ;
            assert(ii * wi >= 0) by (nonlinear_arith)
                requires
                    ii >= 0,
                    wi >= 0,
            ;
            lemma_ceil_div_le(ii * wi, ni, di);
            lemma_ceil_div_le((ii + 1) * wi, ni, di);
            assert(self@[ii] <= x < self@[ii + 1]);
        }
        let r = CellIndex::Value(i as usize);
        proof {
            lemma_locates_is_cell_of(self@, x as int, r);
        }
        r
    }
}

} // verus!

verus! {

/// Grid of the dm or the dt axis
#[derive(Clone, Debug)]
pub enum Grid {
    Array(ArrayGrid),
    Linear(LinearGrid),
}

impl View for Grid {
    type V = Seq<i64>;

    /// The cell borders
    open spec fn view(&self) -> Seq<i64> {
        match self {
            Grid::Array(g) => g@,
            Grid::Linear(g) => g@,
        }
    }
}

impl Grid {
    pub open spec fn wf(&self) -> bool {
        match self {
            Grid::Array(g) => g.wf(),
            Grid::Linear(g) => g.wf(),
        }
    }

    pub proof fn lemma_wf(&self)
        requires
            self.wf(),
        ensures
            valid_borders(self@),
    {
        match self {
            Grid::Array(g) => {},
            Grid::Linear(g) => g.lemma_view(),
        }
    }

    /// A grid has fewer borders than `usize::MAX + 1`.
    pub proof fn lemma_len(&self)
        requires
            self.wf(),
        ensures
            self@.len() <= usize::MAX,
    {
        match self {
            Grid::Array(g) => g.lemma_len(),
            Grid::Linear(g) => g.lemma_view(),
        }
    }

    /// Grid with explicitly given borders
    pub fn array(borders: Vec<i64>) -> (r: Result<Grid, ArrayGridError>)
        ensures
            borders@.len() == 0 <==> r == Err::<Grid, _>(ArrayGridError::ArrayIsEmpty),
            borders@.len() > 0 && !strictly_ascending(borders@) <==> r == Err::<Grid, _>(
                ArrayGridError::ArrayIsNotAscending,
            ),
            r is Ok <==> valid_borders(borders@),
            r matches Ok(g) ==> g@ == borders@ && g.wf(),
    {
        match ArrayGrid::new(borders) {
            Ok(g) => Ok(Grid::Array(g)),
            Err(e) => Err(e),
        }
    }

    /// Grid of `n` equal cells over `[start, end)`
    pub fn linear(start: i64, end: i64, n: usize) -> (r: Grid)
        requires
            start < end,
            1 <= n <= end - start,
            n < usize::MAX,
        ensures
            r.wf(),
            r@.len() == n + 1,
            forall|k: int| 0 <= k <= n ==> #[trigger] r@[k] == linear_border(start, end, n, k),
    {
        Grid::Linear(LinearGrid::new(start, end, n))
    }






    /// Index of the cell that holds `x`, which may lie beyond the range of `i64`
    pub fn idx_wide(&self, x: i128) -> (r: CellIndex)
        requires
            self.wf(),
        ensures
            locates(self@, x as int, r),
            r == cell_of(self@, x as int),
    {
        proof {
            self.lemma_wf();
        }
        if x < i64::MIN as i128 {
            let r = CellIndex::LowerMin;
            proof {
                lemma_locates_is_cell_of(self@, x as int, r);
            }
            r
        } else if x > i64::MAX as i128 {
            let r = CellIndex::GreaterMax;
            proof {
                lemma_locates_is_cell_of(self@, x as int, r);
            }
            r
        } else {
            self.idx(x as i64)
        }
    }
}

impl GridTrait for Grid {
    open spec fn borders_view(&self) -> Seq<i64> {
        self@
    }

    open spec fn grid_wf(&self) -> bool {
        self.wf()
    }

    proof fn lemma_grid_wf(&self) {
        self.lemma_wf();
        self.lemma_len();
    }

    fn get_borders(&self) -> (r: Vec<i64>) {
        match self {
            Grid::Array(g) => g.get_borders(),
            Grid::Linear(g) => g.get_borders(),
        }
    }

    fn cell_count(&self) -> (r: usize) {
        match self {
            Grid::Array(g) => g.cell_count(),
            Grid::Linear(g) => g.cell_count(),
        }
    }

    fn get_start(&self) -> (r: i64) {
        match self {
            Grid::Array(g) => g.get_start(),
            Grid::Linear(g) => g.get_start(),
        }
    }

    fn get_end(&self) -> (r: i64) {
        match self {
            Grid::Array(g) => g.get_end(),
            Grid::Linear(g) => g.get_end(),
        }
    }

    fn idx(&self, x: i64) -> (r: CellIndex) {
        match self {
            Grid::Array(g) => g.idx(x),
            Grid::Linear(g) => g.idx(x),
        }
    }
}

} // verus!
