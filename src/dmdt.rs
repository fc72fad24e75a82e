use vstd::prelude::*;

use crate::accum::{count_cells, count_shape, CountMap};
use crate::grid::{cell_of, lemma_cell_exists, valid_borders, CellIndex, Grid, GridTrait};

verus! {

/// The times are sorted, equal times allowed.
pub open spec fn non_decreasing(t: Seq<i64>) -> bool {
    forall|i: int, j: int| 0 <= i <= j < t.len() ==> t[i] <= t[j]
}

/// `c` is cell `k`.
pub open spec fn in_cell(c: CellIndex, k: int) -> bool {
    match c {
        CellIndex::Value(v) => v == k,
        _ => false,
    }
}

/// The dt cell of the pair of observations `i` and `j` on the grid with borders `g`.
pub open spec fn dt_cell(g: Seq<i64>, t: Seq<i64>, i: int, j: int) -> CellIndex {
    cell_of(g, t[j] - t[i])
}

/// Number of `j` with `i < j < k` whose pair `(i, j)` falls in dt cell `r`.
pub open spec fn dt_count_from(g: Seq<i64>, t: Seq<i64>, i: int, k: int, r: int) -> nat
    decreases k - i,
{
    if k <= i + 1 {
        0
    } else {
        dt_count_from(g, t, i, k - 1, r) + if in_cell(dt_cell(g, t, i, k - 1), r) {
            1nat
        } else {
            0nat
        }
    }
}

/// Number of pairs `(i, j)` with `i < j`, `i < k`, `j < t.len()` that fall in dt cell `r`.
pub open spec fn dt_count(g: Seq<i64>, t: Seq<i64>, k: int, r: int) -> nat
    decreases k,
{
    if k <= 0 {
        0
    } else {
        dt_count(g, t, k - 1, r) + dt_count_from(g, t, k - 1, t.len() as int, r)
    }
}

/// The pair `(i, j)` falls in dt cell `r` and dm cell `c`.
pub open spec fn in_pair_cell(
    gt: Seq<i64>,
    gm: Seq<i64>,
    t: Seq<i64>,
    m: Seq<i64>,
    i: int,
    j: int,
    r: int,
    c: int,
) -> bool {
    in_cell(dt_cell(gt, t, i, j), r) && in_cell(cell_of(gm, m[j] - m[i]), c)
}

/// Number of `j` with `i < j < k` whose pair `(i, j)` falls in cell `(r, c)`.
pub open spec fn pair_count_from(
    gt: Seq<i64>,
    gm: Seq<i64>,
    t: Seq<i64>,
    m: Seq<i64>,
    i: int,
    k: int,
    r: int,
    c: int,
) -> nat
    decreases k - i,
{
    if k <= i + 1 {
        0
    } else {
        pair_count_from(gt, gm, t, m, i, k - 1, r, c) + if in_pair_cell(
            gt,
            gm,
            t,
            m,
            i,
            k - 1,
            r,
            c,
        ) {
            1nat
        } else {
            0nat
        }
    }
}

/// Number of pairs `(i, j)` with `i < j`, `i < k`, `j < t.len()` that fall in cell `(r, c)`.
pub open spec fn pair_count(
    gt: Seq<i64>,
    gm: Seq<i64>,
    t: Seq<i64>,
    m: Seq<i64>,
    k: int,
    r: int,
    c: int,
) -> nat
    decreases k,
{
    if k <= 0 {
        0
    } else {
        pair_count(gt, gm, t, m, k - 1, r, c) + pair_count_from(
            gt,
            gm,
            t,
            m,
            k - 1,
            t.len() as int,
            r,
            c,
        )
    }
}

/// Position of cell `(r, c)` in a row-major map with `n_cols` columns.
pub open spec fn flat(r: int, c: int, n_cols: int) -> int {
    r * n_cols + c
}

pub(crate) proof fn lemma_flat(r: int, c: int, r2: int, c2: int, n_rows: int, n_cols: int)
    requires
        0 <= r < n_rows,
        0 <= c < n_cols,
        0 <= r2 < n_rows,
        0 <= c2 < n_cols,
    ensures
        0 <= flat(r, c, n_cols) < n_rows * n_cols,
        flat(r, c, n_cols) == flat(r2, c2, n_cols) <==> (r == r2 && c == c2),
{
    assert(0 <= r * n_cols + c < n_rows * n_cols) by (nonlinear_arith)
        requires
            0 <= r < n_rows,
            0 <= c < n_cols,
    ;
    assert(r * n_cols + c == r2 * n_cols + c2 ==> r == r2) by (nonlinear_arith)
        requires
            0 <= c < n_cols,
            0 <= c2 < n_cols,
    ;
}

proof fn lemma_dt_count_from_bound(g: Seq<i64>, t: Seq<i64>, i: int, k: int, r: int)
    ensures
        dt_count_from(g, t, i, k, r) <= if k > i { k - i } else { 0 },
    decreases k - i,
{
    if k > i + 1 {
        lemma_dt_count_from_bound(g, t, i, k - 1, r);
    }
}

proof fn lemma_dt_count_bound(g: Seq<i64>, t: Seq<i64>, k: int, r: int)
    requires
        0 <= k,
    ensures
        dt_count(g, t, k, r) <= k * t.len(),
    decreases k,
{
    if k > 0 {
        lemma_dt_count_bound(g, t, k - 1, r);
        lemma_dt_count_from_bound(g, t, k - 1, t.len() as int, r);
        assert((k - 1) * t.len() + t.len() == k * t.len()) by (nonlinear_arith);
    }
}

proof fn lemma_pair_count_from_bound(
    gt: Seq<i64>,
    gm: Seq<i64>,
    t: Seq<i64>,
    m: Seq<i64>,
    i: int,
    k: int,
    r: int,
    c: int,
)
    ensures
        pair_count_from(gt, gm, t, m, i, k, r, c) <= if k > i { k - i } else { 0 },
    decreases k - i,
{
    if k > i + 1 {
        lemma_pair_count_from_bound(gt, gm, t, m, i, k - 1, r, c);
    }
}

proof fn lemma_pair_count_bound(
    gt: Seq<i64>,
    gm: Seq<i64>,
    t: Seq<i64>,
    m: Seq<i64>,
    k: int,
    r: int,
    c: int,
)
    requires
        0 <= k,
    ensures
        pair_count(gt, gm, t, m, k, r, c) <= k * t.len(),
    decreases k,
{
    if k > 0 {
        lemma_pair_count_bound(gt, gm, t, m, k - 1, r, c);
        lemma_pair_count_from_bound(gt, gm, t, m, k - 1, t.len() as int, r, c);
        assert((k - 1) * t.len() + t.len() == k * t.len()) by (nonlinear_arith);
    }
}

/// Once a pair `(i, j)` lies at or beyond the end of the dt grid, so do all
/// later pairs `(i, k)`: none of them adds to a dt cell.
proof fn lemma_dt_tail(g: Seq<i64>, t: Seq<i64>, i: int, j: int, k: int, r: int)
    requires
        valid_borders(g),
        non_decreasing(t),
        0 <= i < j <= k <= t.len(),
        j < t.len(),
        g[g.len() - 1] <= t[j] - t[i],
    ensures
        dt_count_from(g, t, i, k, r) == dt_count_from(g, t, i, j, r),
        forall|gm: Seq<i64>, m: Seq<i64>, c: int|
            pair_count_from(g, gm, t, m, i, k, r, c) == #[trigger] pair_count_from(
                g,
                gm,
                t,
                m,
                i,
                j,
                r,
                c,
            ),
    decreases k - j,
{
    if k > j {
        lemma_dt_tail(g, t, i, j, k - 1, r);
        assert(t[j] <= t[k - 1]);
        assert(g[0] <= g[g.len() - 1]);
        assert(dt_cell(g, t, i, k - 1) == CellIndex::GreaterMax);
    }
}

/// `f(0) + f(1) + ... + f(n - 1)`
pub open spec fn sum_to(f: spec_fn(int) -> nat, n: int) -> nat
    decreases n,
{
    if n <= 0 {
        0
    } else {
        sum_to(f, n - 1) + f(n - 1)
    }
}

proof fn lemma_sum_add(f: spec_fn(int) -> nat, g: spec_fn(int) -> nat, h: spec_fn(int) -> nat, n: int)
    requires
        forall|x: int| 0 <= x < n ==> #[trigger] h(x) == f(x) + g(x),
    ensures
        sum_to(h, n) == sum_to(f, n) + sum_to(g, n),
    decreases n,
{
    if n > 0 {
        lemma_sum_add(f, g, h, n - 1);
    }
}

proof fn lemma_sum_indicator(f: spec_fn(int) -> nat, n: int, x0: int)
    requires
        forall|x: int| 0 <= x < n ==> #[trigger] f(x) == if x == x0 {
            1nat
        } else {
            0nat
        },
    ensures
        sum_to(f, n) == if 0 <= x0 < n {
            1nat
        } else {
            0nat
        },
    decreases n,
{
    if n > 0 {
        lemma_sum_indicator(f, n - 1, x0);
    }
}

/// The magnitude change of every pair whose time lag lies on the dt grid lies
/// on the dm grid.
pub open spec fn dm_within_grid(gt: Seq<i64>, gm: Seq<i64>, t: Seq<i64>, m: Seq<i64>) -> bool {
    forall|i: int, j: int|
        0 <= i < j < t.len() && (#[trigger] dt_cell(gt, t, i, j) is Value) ==> gm[0] <= m[j] - m[i]
            < gm[gm.len() - 1]
}

proof fn lemma_row_sum_from(
    gt: Seq<i64>,
    gm: Seq<i64>,
    t: Seq<i64>,
    m: Seq<i64>,
    i: int,
    k: int,
    r: int,
)
    requires
        valid_borders(gm),
        gm.len() <= usize::MAX,
        t.len() == m.len(),
        0 <= i,
        k <= t.len(),
        dm_within_grid(gt, gm, t, m),
    ensures
        sum_to(|c: int| pair_count_from(gt, gm, t, m, i, k, r, c), gm.len() - 1) == dt_count_from(
            gt,
            t,
            i,
            k,
            r,
        ),
    decreases k - i,
{
    let n = gm.len() - 1;
    let f = |c: int| pair_count_from(gt, gm, t, m, i, k, r, c);
    if k <= i + 1 {
        lemma_sum_indicator(f, n, -1);
    } else {
        lemma_row_sum_from(gt, gm, t, m, i, k - 1, r);
        let f0 = |c: int| pair_count_from(gt, gm, t, m, i, k - 1, r, c);
        let g = |c: int|
            if in_pair_cell(gt, gm, t, m, i, k - 1, r, c) {
                1nat
            } else {
                0nat
            };
        lemma_sum_add(f0, g, f, n);
        if in_cell(dt_cell(gt, t, i, k - 1), r) {
            lemma_cell_exists(gm, m[k - 1] - m[i]);
            let c0 = choose|c0: usize| cell_of(gm, m[k - 1] - m[i]) == CellIndex::Value(c0);
            lemma_sum_indicator(g, n, c0 as int);
        } else {
            lemma_sum_indicator(g, n, -1);
        }
    }
}

proof fn lemma_row_sum(gt: Seq<i64>, gm: Seq<i64>, t: Seq<i64>, m: Seq<i64>, k: int, r: int)
    requires
        valid_borders(gm),
        gm.len() <= usize::MAX,
        t.len() == m.len(),
        dm_within_grid(gt, gm, t, m),
    ensures
        sum_to(|c: int| pair_count(gt, gm, t, m, k, r, c), gm.len() - 1) == dt_count(gt, t, k, r),
    decreases k,
{
    let n = gm.len() - 1;
    let f = |c: int| pair_count(gt, gm, t, m, k, r, c);
    if k <= 0 {
        lemma_sum_indicator(f, n, -1);
    } else {
        lemma_row_sum(gt, gm, t, m, k - 1, r);
        lemma_row_sum_from(gt, gm, t, m, k - 1, t.len() as int, r);
        let f0 = |c: int| pair_count(gt, gm, t, m, k - 1, r, c);
        let g = |c: int| pair_count_from(gt, gm, t, m, k - 1, t.len() as int, r, c);
        lemma_sum_add(f0, g, f, n);
    }
}

/// When the magnitude change of every pair whose time lag lies on the dt grid
/// lies on the dm grid, the cells of each dt row of `points` add up to that dt
/// cell of `dt_points`.
pub proof fn lemma_points_rows_sum_to_dt_points(d: DmDt, t: Seq<i64>, m: Seq<i64>, r: int)
    requires
        d.wf(),
        t.len() == m.len(),
        dm_within_grid(d.dt_grid@, d.dm_grid@, t, m),
    ensures
        sum_to(
            |c: int| pair_count(d.dt_grid@, d.dm_grid@, t, m, t.len() as int, r, c),
            d.n_dm(),
        ) == dt_count(d.dt_grid@, t, t.len() as int, r),
{
    d.dm_grid.lemma_wf();
    assert(d.dm_grid@.len() <= usize::MAX) by {
        d.dm_grid.lemma_len();
    }
    lemma_row_sum(d.dt_grid@, d.dm_grid@, t, m, t.len() as int, r);
}

/// Two observations at the same time fall below a dt grid that starts above
/// zero: the pair is counted in no cell.
pub proof fn lemma_equal_times_never_counted(d: DmDt, t: Seq<i64>, i: int, j: int)
    requires
        d.wf(),
        0 <= i < j < t.len(),
        t[i] == t[j],
        d.dt_grid@[0] > 0,
    ensures
        dt_cell(d.dt_grid@, t, i, j) == CellIndex::LowerMin,
        forall|r: int| !in_cell(#[trigger] dt_cell(d.dt_grid@, t, i, j), r),
{
}

/// The pairs `(i, j)` with `i < j < k` whose time lag lies on the dt grid, as
/// `(j, dt cell)` in the order of `j`.
pub open spec fn dt_pairs_from(g: Seq<i64>, t: Seq<i64>, i: int, k: int) -> Seq<(usize, usize)>
    decreases k - i,
{
    if k <= i + 1 {
        Seq::empty()
    } else {
        let prev = dt_pairs_from(g, t, i, k - 1);
        match dt_cell(g, t, i, k - 1) {
            CellIndex::Value(r) => prev.push(((k - 1) as usize, r)),
            _ => prev,
        }
    }
}

/// First dm cell that a Gaussian whose support starts in cell `c` can reach
pub open spec fn window_start(c: CellIndex) -> usize {
    match c {
        CellIndex::Value(i) => i,
        _ => 0,
    }
}

/// One past the last dm cell that a Gaussian whose support ends in cell `c`
/// can reach, on a grid of `n` cells
pub open spec fn window_end(c: CellIndex, n: usize) -> usize {
    match c {
        CellIndex::Value(i) => if i + 1 < n {
            (i + 1) as usize
        } else {
            n
        },
        _ => n,
    }
}

proof fn lemma_dt_pairs_tail(g: Seq<i64>, t: Seq<i64>, i: int, j: int, k: int)
    requires
        valid_borders(g),
        non_decreasing(t),
        0 <= i < j <= k <= t.len(),
        j < t.len(),
        g[g.len() - 1] <= t[j] - t[i],
    ensures
        dt_pairs_from(g, t, i, k) == dt_pairs_from(g, t, i, j),
    decreases k - j,
{
    if k > j {
        lemma_dt_pairs_tail(g, t, i, j, k - 1);
        assert(t[j] <= t[k - 1]);
        assert(g[0] <= g[g.len() - 1]);
        assert(dt_cell(g, t, i, k - 1) == CellIndex::GreaterMax);
    }
}

/// The pairs that `dt_pairs` hands out for observation `i` fall in dt cell
/// `r` exactly as often as `dt_points` counts them there: dividing a smeared
/// row by the number of its pairs divides it by its `dt_points` count.
pub proof fn lemma_dt_pairs_match_dt_count(g: Seq<i64>, t: Seq<i64>, i: int, k: int, r: int)
    ensures
        dt_pairs_from(g, t, i, k).filter(|p: (usize, usize)| p.1 == r).len() == dt_count_from(
            g,
            t,
            i,
            k,
            r,
        ),
    decreases k - i,
{
    let pred = |p: (usize, usize)| p.1 == r;
    if k <= i + 1 {
        assert(dt_pairs_from(g, t, i, k).filter(pred) =~= Seq::empty());
    } else {
        lemma_dt_pairs_match_dt_count(g, t, i, k - 1, r);
        let prev = dt_pairs_from(g, t, i, k - 1);
        if let CellIndex::Value(c) = dt_cell(g, t, i, k - 1) {
            let next = prev.push(((k - 1) as usize, c));
            assert(next.drop_last() =~= prev);
            reveal(Seq::filter);
        }
    }
}

/// dm–dt map maker: a dt grid and a dm grid
#[derive(Clone, Debug)]
pub struct DmDt {
    pub dt_grid: Grid,
    pub dm_grid: Grid,
}

impl DmDt {
    pub open spec fn wf(&self) -> bool {
        self.dt_grid.wf() && self.dm_grid.wf()
    }

    /// Number of dt cells
    pub open spec fn n_dt(&self) -> int {
        self.dt_grid@.len() - 1
    }

    /// Number of dm cells
    pub open spec fn n_dm(&self) -> int {
        self.dm_grid@.len() - 1
    }

    /// A map of the given dt and dm grids
    pub fn from_grids(dt_grid: Grid, dm_grid: Grid) -> (r: DmDt)
        ensures
            r.dt_grid == dt_grid,
            r.dm_grid == dm_grid,
    {
        DmDt { dt_grid, dm_grid }
    }

    /// Number of dt cells by number of dm cells
    pub fn shape(&self) -> (r: (usize, usize))
        requires
            self.wf(),
        ensures
            r.0 == self.n_dt(),
            r.1 == self.n_dm(),
    {
        (self.dt_grid.cell_count(), self.dm_grid.cell_count())
    }

    /// Number of pairs of observations in each dt cell
    ///
    /// `t` must be sorted.
    pub fn dt_points(&self, t: &[i64]) -> (r: Vec<u64>)
        requires
            self.wf(),
            non_decreasing(t@),
            t@.len() <= u32::MAX,
        ensures
            r@.len() == self.n_dt(),
            forall|k: int|
                0 <= k < self.n_dt() ==> #[trigger] r@[k] == dt_count(
                    self.dt_grid@,
                    t@,
                    t@.len() as int,
                    k,
                ),
    {
        proof {
            self.dt_grid.lemma_wf();
        }
        let g = Ghost(self.dt_grid@);
        let n_dt = self.dt_grid.cell_count();
        let len = t.len();
        let mut a: Vec<u64> = Vec::with_capacity(n_dt);
        while a.len() < n_dt
            invariant
                a@.len() <= n_dt,
                forall|k: int| 0 <= k < a@.len() ==> #[trigger] a@[k] == 0,
            decreases n_dt - a@.len(),
        {
            a.push(0);
        }
        let mut i: usize = 0;
        while i < len
            invariant
                self.wf(),
                g@ == self.dt_grid@,
                valid_borders(g@),
                n_dt == self.n_dt(),
                len == t@.len(),
                len <= u32::MAX,
                non_decreasing(t@),
                i <= len,
                a@.len() == n_dt,
                forall|k: int| 0 <= k < n_dt ==> #[trigger] a@[k] == dt_count(g@, t@, i as int, k),
            decreases len - i,
        {
            let mut j: usize = i + 1;
            while j < len
                invariant
                    self.wf(),
                    g@ == self.dt_grid@,
                    valid_borders(g@),
                    n_dt == self.n_dt(),
                    len == t@.len(),
                    len <= u32::MAX,
                    non_decreasing(t@),
                    i < len,
                    i < j <= len,
                    a@.len() == n_dt,
                    forall|k: int|
                        0 <= k < n_dt ==> #[trigger] a@[k] == dt_count(g@, t@, i as int, k)
                            + dt_count_from(g@, t@, i as int, j as int, k),
                ensures
                    a@.len() == n_dt,
                    forall|k: int|
                        0 <= k < n_dt ==> #[trigger] a@[k] == dt_count(g@, t@, i as int, k)
                            + dt_count_from(g@, t@, i as int, len as int, k),
                decreases len - j,
            {
                let dt = t[j] as i128 - t[i] as i128;
                match self.dt_grid.idx_wide(dt) {
                    CellIndex::LowerMin => {
                        j = j + 1;
                    },
                    CellIndex::GreaterMax => {
                        proof {
                            assert forall|k: int| 0 <= k < n_dt implies #[trigger] a@[k] == dt_count(
                                g@,
                                t@,
                                i as int,
                                k,
                            ) + dt_count_from(g@, t@, i as int, len as int, k) by {
                                lemma_dt_tail(g@, t@, i as int, j as int, len as int, k);
                            }
                        }
                        break;
                    },
                    CellIndex::Value(r) => {
                        proof {
                            lemma_dt_count_bound(g@, t@, i as int, r as int);
                            lemma_dt_count_from_bound(g@, t@, i as int, j as int, r as int);
                            assert(i * len + j <= u32::MAX * u32::MAX + u32::MAX) by (
                            nonlinear_arith)
                                requires
                                    i < len,
                                    j <= len,
                                    len <= u32::MAX,
                            ;
                        }
                        a.set(r, a[r] + 1);
                        j = j + 1;
                    },
                }
            }
            i = i + 1;
        }
        a
    }

    /// Number of pairs of observations in each cell of the map, row-major:
    /// cell `(r, c)` (dt cell `r`, dm cell `c`) at `r * n_dm + c`
    ///
    /// `t` must be sorted.
    pub fn points(&self, t: &[i64], m: &[i64]) -> (a: CountMap)
        requires
            self.wf(),
            t@.len() == m@.len(),
            non_decreasing(t@),
            t@.len() <= u32::MAX,
            self.n_dt() <= isize::MAX,
            self.n_dm() <= isize::MAX,
            self.n_dt() * self.n_dm() <= isize::MAX,
        ensures
            count_shape(a) == (self.n_dt() as usize, self.n_dm() as usize),
            count_cells(a).len() == self.n_dt() * self.n_dm(),
            forall|r: int, c: int|
                0 <= r < self.n_dt() && 0 <= c < self.n_dm() ==> #[trigger] count_cells(a)[flat(
                    r,
                    c,
                    self.n_dm(),
                )] == pair_count(self.dt_grid@, self.dm_grid@, t@, m@, t@.len() as int, r, c),
    {
        proof {
            self.dt_grid.lemma_wf();
            self.dm_grid.lemma_wf();
        }
        let gt = Ghost(self.dt_grid@);
        let gm = Ghost(self.dm_grid@);
        let (n_dt, n_dm) = self.shape();
        let len = t.len();
        let mut a = CountMap::zeros(n_dt, n_dm);
        assert forall|r: int, c: int|
            0 <= r < n_dt && 0 <= c < n_dm implies #[trigger] count_cells(a)[flat(r, c, n_dm as int)]
            == pair_count(gt@, gm@, t@, m@, 0, r, c) by {
            lemma_flat(r, c, r, c, n_dt as int, n_dm as int);
        }
        let mut i: usize = 0;
        while i < len
            invariant
                self.wf(),
                gt@ == self.dt_grid@,
                gm@ == self.dm_grid@,
                valid_borders(gt@),
                n_dt == self.n_dt(),
                n_dm == self.n_dm(),
                len == t@.len(),
                len == m@.len(),
                len <= u32::MAX,
                non_decreasing(t@),
                i <= len,
                count_cells(a).len() == n_dt * n_dm,
                count_shape(a) == (n_dt, n_dm),
                forall|r: int, c: int|
                    0 <= r < n_dt && 0 <= c < n_dm ==> #[trigger] count_cells(a)[flat(r, c, n_dm as int)]
                        == pair_count(gt@, gm@, t@, m@, i as int, r, c),
            decreases len - i,
        {
            let mut j: usize = i + 1;
            while j < len
                invariant
                    self.wf(),
                    gt@ == self.dt_grid@,
                    gm@ == self.dm_grid@,
                    valid_borders(gt@),
                    n_dt == self.n_dt(),
                    n_dm == self.n_dm(),
                    len == t@.len(),
                    len == m@.len(),
                    len <= u32::MAX,
                    non_decreasing(t@),
                    i < len,
                    i < j <= len,
                    count_cells(a).len() == n_dt * n_dm,
                    count_shape(a) == (n_dt, n_dm),
                    forall|r: int, c: int|
                        0 <= r < n_dt && 0 <= c < n_dm ==> #[trigger] count_cells(a)[flat(r, c, n_dm as int)]
                            == pair_count(gt@, gm@, t@, m@, i as int, r, c) + pair_count_from(
                            gt@,
                            gm@,
                            t@,
                            m@,
                            i as int,
                            j as int,
                            r,
                            c,
                        ),
                ensures
                    count_cells(a).len() == n_dt * n_dm,
                    count_shape(a) == (n_dt, n_dm),
                    forall|r: int, c: int|
                        0 <= r < n_dt && 0 <= c < n_dm ==> #[trigger] count_cells(a)[flat(r, c, n_dm as int)]
                            == pair_count(gt@, gm@, t@, m@, i as int, r, c) + pair_count_from(
                            gt@,
                            gm@,
                            t@,
                            m@,
                            i as int,
                            len as int,
                            r,
                            c,
                        ),
                decreases len - j,
            {
                let dt = t[j] as i128 - t[i] as i128;
                match self.dt_grid.idx_wide(dt) {
                    CellIndex::LowerMin => {
                        j = j + 1;
                    },
                    CellIndex::GreaterMax => {
                        proof {
                            lemma_dt_tail(gt@, t@, i as int, j as int, len as int, 0);
                            assert forall|r: int, c: int|
                                0 <= r < n_dt && 0 <= c < n_dm implies pair_count_from(
                                gt@,
                                gm@,
                                t@,
                                m@,
                                i as int,
                                len as int,
                                r,
                                c,
                            ) == pair_count_from(gt@, gm@, t@, m@, i as int, j as int, r, c) by {
                                lemma_dt_tail(gt@, t@, i as int, j as int, len as int, r);
                            }
                        }
                        break;
                    },
                    CellIndex::Value(r) => {
                        let dm = m[j] as i128 - m[i] as i128;
                        let cell_dm = self.dm_grid.idx_wide(dm);
                        proof {
                            assert forall|r2: int, c2: int|
                                0 <= r2 < n_dt && 0 <= c2 < n_dm implies #[trigger] pair_count_from(
                                gt@,
                                gm@,
                                t@,
                                m@,
                                i as int,
                                j + 1,
                                r2,
                                c2,
                            ) == pair_count_from(gt@, gm@, t@, m@, i as int, j as int, r2, c2)
                                + if r2 == r && in_cell(cell_dm, c2) {
                                1nat
                            } else {
                                0nat
                            } by {
                                assert(in_pair_cell(gt@, gm@, t@, m@, i as int, j as int, r2, c2)
                                    == (r2 == r && in_cell(cell_dm, c2)));
                            }
                        }
                        match cell_dm {
                            CellIndex::Value(c) => {
                                proof {
                                    lemma_flat(r as int, c as int, r as int, c as int, n_dt as int, n_dm as int);
                                    lemma_pair_count_bound(gt@, gm@, t@, m@, i as int, r as int, c as int);
                                    lemma_pair_count_from_bound(
                                        gt@,
                                        gm@,
                                        t@,
                                        m@,
                                        i as int,
                                        j as int,
                                        r as int,
                                        c as int,
                                    );
                                    assert(i * len + j <= u32::MAX * u32::MAX + u32::MAX) by (
                                    nonlinear_arith)
                                        requires
                                            i < len,
                                            j <= len,
                                            len <= u32::MAX,
                                    ;
                                    assert forall|r2: int, c2: int|
                                        0 <= r2 < n_dt && 0 <= c2 < n_dm implies (flat(
                                        r2,
                                        c2,
                                        n_dm as int,
                                    ) == flat(r as int, c as int, n_dm as int)) == (r2 == r && c2 == c) by {
                                        lemma_flat(r2, c2, r as int, c as int, n_dt as int, n_dm as int);
                                    }
                                }
                                let ghost a0 = count_cells(a);
                                let x = a.get(r, c);
                                a.set(r, c, x + 1);
                                assert forall|r2: int, c2: int|
                                    0 <= r2 < n_dt && 0 <= c2 < n_dm implies #[trigger] count_cells(a)[flat(
                                    r2,
                                    c2,
                                    n_dm as int,
                                )] == pair_count(gt@, gm@, t@, m@, i as int, r2, c2) + pair_count_from(
                                    gt@,
                                    gm@,
                                    t@,
                                    m@,
                                    i as int,
                                    j + 1,
                                    r2,
                                    c2,
                                ) by {
                                    lemma_flat(r2, c2, r as int, c as int, n_dt as int, n_dm as int);
                                    assert(a0[flat(r2, c2, n_dm as int)] == pair_count(
                                        gt@,
                                        gm@,
                                        t@,
                                        m@,
                                        i as int,
                                        r2,
                                        c2,
                                    ) + pair_count_from(gt@, gm@, t@, m@, i as int, j as int, r2, c2));
                                    assert(pair_count_from(gt@, gm@, t@, m@, i as int, j + 1, r2, c2)
                                        == pair_count_from(gt@, gm@, t@, m@, i as int, j as int, r2, c2)
                                        + if r2 == r && in_cell(cell_dm, c2) {
                                        1nat
                                    } else {
                                        0nat
                                    });
                                }
                            },
                            _ => {},
                        }
                        j = j + 1;
                    },
                }
            }
            i = i + 1;
        }
        a
    }

    /// The later observations `j` that observation `i` pairs with on the dt
    /// grid, each as `(j, dt cell)`, in the order of `j`
    ///
    /// `t` must be sorted.
    pub fn dt_pairs(&self, t: &[i64], i: usize) -> (p: Vec<(usize, usize)>)
        requires
            self.wf(),
            non_decreasing(t@),
            i < t@.len(),
        ensures
            p@ == dt_pairs_from(self.dt_grid@, t@, i as int, t@.len() as int),
    {
        proof {
            self.dt_grid.lemma_wf();
        }
        let g = Ghost(self.dt_grid@);
        let len = t.len();
        let mut p: Vec<(usize, usize)> = Vec::new();
        let mut j: usize = i + 1;
        while j < len
            invariant
                self.wf(),
                g@ == self.dt_grid@,
                valid_borders(g@),
                len == t@.len(),
                non_decreasing(t@),
                i < j <= len,
                p@ == dt_pairs_from(g@, t@, i as int, j as int),
            ensures
                p@ == dt_pairs_from(g@, t@, i as int, len as int),
            decreases len - j,
        {
            let dt = t[j] as i128 - t[i] as i128;
            match self.dt_grid.idx_wide(dt) {
                CellIndex::LowerMin => {},
                CellIndex::GreaterMax => {
                    proof {
                        lemma_dt_pairs_tail(g@, t@, i as int, j as int, len as int);
                    }
                    break;
                },
                CellIndex::Value(r) => {
                    p.push((j, r));
                },
            }
            j = j + 1;
        }
        p
    }

    /// The dm cells `[first, last)` that may hold mass of a Gaussian whose
    /// support on the dm axis is `[lo, hi)`, or `None` when no cell can
    pub fn dm_window(&self, lo: i64, hi: i64) -> (w: Option<(usize, usize)>)
        requires
            self.wf(),
            lo <= hi,
        ensures
            w is None <==> (cell_of(self.dm_grid@, lo as int) == CellIndex::GreaterMax
                || cell_of(self.dm_grid@, hi as int) == CellIndex::LowerMin),
            w matches Some((a, b)) ==> {
                &&& a == window_start(cell_of(self.dm_grid@, lo as int))
                &&& b == window_end(cell_of(self.dm_grid@, hi as int), self.n_dm() as usize)
                &&& a <= b <= self.n_dm()
            },
    {
        let n = self.dm_grid.cell_count();
        let c_lo = self.dm_grid.idx(lo);
        let c_hi = self.dm_grid.idx(hi);
        proof {
            self.dm_grid.lemma_wf();
        }
        let a = match c_lo {
            CellIndex::LowerMin => 0,
            CellIndex::GreaterMax => {
                return None;
            },
            CellIndex::Value(i) => i,
        };
        let b = match c_hi {
            CellIndex::LowerMin => {
                return None;
            },
            CellIndex::GreaterMax => n,
            CellIndex::Value(i) => if i + 1 < n {
                i + 1
            } else {
                n
            },
        };
        proof {
            if let CellIndex::Value(j) = c_hi {
                if let CellIndex::Value(i) = c_lo {
                    if i > j {
                        assert(self.dm_grid@[j + 1] <= self.dm_grid@[i as int]);
                    }
                }
            }
        }
        Some((a, b))
    }
}

} // verus!
