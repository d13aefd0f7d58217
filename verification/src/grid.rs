use vstd::prelude::*;

verus! {

/// View of an executable grid as a sequence of rows of cell rewards.
pub open spec fn rows_view(g: Seq<Vec<u64>>) -> Seq<Seq<u64>> {
    Seq::new(g.len(), |i: int| g[i]@)
}

/// The grid is an `h` by `w` rectangle.
pub open spec fn rect(g: Seq<Seq<u64>>, h: int, w: int) -> bool {
    &&& g.len() == h
    &&& forall|i: int| 0 <= i < h ==> (#[trigger] g[i]).len() == w
}

/// Sum of the rewards in one row.
pub open spec fn row_total(r: Seq<u64>) -> int
    decreases r.len(),
{
    if r.len() == 0 {
        0
    } else {
        row_total(r.drop_last()) + r.last()
    }
}

/// Sum of all rewards on the grid.
pub open spec fn grid_total(g: Seq<Seq<u64>>) -> int
    decreases g.len(),
{
    if g.len() == 0 {
        0
    } else {
        grid_total(g.drop_last()) + row_total(g.last())
    }
}

pub proof fn lemma_row_total_nonneg(r: Seq<u64>)
    ensures
        0 <= row_total(r),
    decreases r.len(),
{
    if r.len() > 0 {
        lemma_row_total_nonneg(r.drop_last());
    }
}

pub proof fn lemma_grid_total_nonneg(g: Seq<Seq<u64>>)
    ensures
        0 <= grid_total(g),
    decreases g.len(),
{
    if g.len() > 0 {
        lemma_grid_total_nonneg(g.drop_last());
        lemma_row_total_nonneg(g.last());
    }
}

/// Replacing one cell of a row shifts the row total by the difference.
pub proof fn lemma_row_total_update(r: Seq<u64>, i: int, v: u64)
    requires
        0 <= i < r.len(),
    ensures
        row_total(r.update(i, v)) == row_total(r) - r[i] + v,
    decreases r.len(),
{
    let u = r.update(i, v);
    if i == r.len() - 1 {
        assert(u.drop_last() =~= r.drop_last());
        assert(u.last() == v);
    } else {
        assert(u.drop_last() =~= r.drop_last().update(i, v));
        assert(u.last() == r.last());
        lemma_row_total_update(r.drop_last(), i, v);
    }
}

/// Replacing one row of a grid shifts the grid total by the difference.
pub proof fn lemma_grid_total_update_row(g: Seq<Seq<u64>>, y: int, row2: Seq<u64>)
    requires
        0 <= y < g.len(),
    ensures
        grid_total(g.update(y, row2)) == grid_total(g) - row_total(g[y]) + row_total(row2),
    decreases g.len(),
{
    let u = g.update(y, row2);
    if y == g.len() - 1 {
        assert(u.drop_last() =~= g.drop_last());
        assert(u.last() == row2);
    } else {
        assert(u.drop_last() =~= g.drop_last().update(y, row2));
        assert(u.last() == g.last());
        lemma_grid_total_update_row(g.drop_last(), y, row2);
    }
}

/// Zeroing the cell at `(x, y)` removes exactly that cell's reward from the
/// grid total.
pub proof fn lemma_grid_total_zero_cell(g: Seq<Seq<u64>>, y: int, x: int)
    requires
        0 <= y < g.len(),
        0 <= x < g[y].len(),
    ensures
        grid_total(g.update(y, g[y].update(x, 0u64))) == grid_total(g) - g[y][x],
{
    lemma_row_total_update(g[y], x, 0u64);
    lemma_grid_total_update_row(g, y, g[y].update(x, 0u64));
}

pub proof fn lemma_cell_le_row_total(r: Seq<u64>, i: int)
    requires
        0 <= i < r.len(),
    ensures
        r[i] <= row_total(r),
    decreases r.len(),
{
    if i == r.len() - 1 {
        lemma_row_total_nonneg(r.drop_last());
    } else {
        lemma_cell_le_row_total(r.drop_last(), i);
    }
}

pub proof fn lemma_row_le_grid_total(g: Seq<Seq<u64>>, y: int)
    requires
        0 <= y < g.len(),
    ensures
        row_total(g[y]) <= grid_total(g),
    decreases g.len(),
{
    if y == g.len() - 1 {
        lemma_grid_total_nonneg(g.drop_last());
    } else {
        lemma_row_le_grid_total(g.drop_last(), y);
        lemma_row_total_nonneg(g.last());
    }
}

/// Every single cell's reward is at most the grid total.
pub proof fn lemma_cell_le_grid_total(g: Seq<Seq<u64>>, y: int, x: int)
    requires
        0 <= y < g.len(),
        0 <= x < g[y].len(),
    ensures
        g[y][x] <= grid_total(g),
{
    lemma_cell_le_row_total(g[y], x);
    lemma_row_le_grid_total(g, y);
}

/// Extending a prefix of a row by one cell adds that cell to the total.
pub proof fn lemma_row_total_take_step(r: Seq<u64>, i: int)
    requires
        0 <= i < r.len(),
    ensures
        row_total(r.take(i + 1)) == row_total(r.take(i)) + r[i],
{
    assert(r.take(i + 1).drop_last() =~= r.take(i));
    assert(r.take(i + 1).last() == r[i]);
}

/// Extending a prefix of a grid by one row adds that row's total.
pub proof fn lemma_grid_total_take_step(g: Seq<Seq<u64>>, i: int)
    requires
        0 <= i < g.len(),
    ensures
        grid_total(g.take(i + 1)) == grid_total(g.take(i)) + row_total(g[i]),
{
    assert(g.take(i + 1).drop_last() =~= g.take(i));
    assert(g.take(i + 1).last() == g[i]);
}

/// A prefix of a row sums to no more than the whole row.
pub proof fn lemma_row_total_take_le(r: Seq<u64>, i: int)
    requires
        0 <= i <= r.len(),
    ensures
        row_total(r.take(i)) <= row_total(r),
    decreases r.len() - i,
{
    if i == r.len() {
        assert(r.take(i) =~= r);
    } else {
        lemma_row_total_take_step(r, i);
        lemma_row_total_take_le(r, i + 1);
    }
}

/// A prefix of a grid sums to no more than the whole grid.
pub proof fn lemma_grid_total_take_le(g: Seq<Seq<u64>>, i: int)
    requires
        0 <= i <= g.len(),
    ensures
        grid_total(g.take(i)) <= grid_total(g),
    decreases g.len() - i,
{
    if i == g.len() {
        assert(g.take(i) =~= g);
    } else {
        lemma_grid_total_take_step(g, i);
        lemma_row_total_nonneg(g[i]);
        lemma_grid_total_take_le(g, i + 1);
    }
}

pub proof fn lemma_row_total_bounded(r: Seq<u64>, m: int)
    requires
        forall|i: int| 0 <= i < r.len() ==> #[trigger] r[i] <= m,
    ensures
        row_total(r) <= r.len() * m,
    decreases r.len(),
{
    if r.len() > 0 {
        lemma_row_total_bounded(r.drop_last(), m);
        assert(r.len() * m == (r.len() - 1) * m + m) by (nonlinear_arith);
    }
}

/// A rectangular grid whose cells are all at most `m` has total at most
/// `h * w * m`.
pub proof fn lemma_grid_total_bounded(g: Seq<Seq<u64>>, w: int, m: int)
    requires
        0 <= m,
        0 <= w,
        forall|i: int| 0 <= i < g.len() ==> (#[trigger] g[i]).len() == w,
        forall|i: int, j: int|
            0 <= i < g.len() && 0 <= j < w ==> #[trigger] g[i][j] <= m,
    ensures
        grid_total(g) <= g.len() * w * m,
    decreases g.len(),
{
    if g.len() > 0 {
        lemma_grid_total_bounded(g.drop_last(), w, m);
        lemma_row_total_bounded(g.last(), m);
        assert(g.len() * w * m == (g.len() - 1) * w * m + w * m) by (nonlinear_arith);
    }
}

pub(crate) fn clone_row(r: &Vec<u64>) -> (c: Vec<u64>)
    ensures
        c@ == r@,
{
    let mut c: Vec<u64> = Vec::new();
    let mut i: usize = 0;
    while i < r.len()
        invariant
            i <= r.len(),
            c@.len() == i,
            forall|k: int| 0 <= k < i ==> #[trigger] c@[k] == r@[k],
        decreases r.len() - i,
    {
        c.push(r[i]);
        i = i + 1;
    }
    proof {
        assert(c@ =~= r@);
    }
    c
}

pub(crate) fn clone_grid(g: &Vec<Vec<u64>>) -> (c: Vec<Vec<u64>>)
    ensures
        rows_view(c@) == rows_view(g@),
{
    let mut c: Vec<Vec<u64>> = Vec::new();
    let mut i: usize = 0;
    while i < g.len()
        invariant
            i <= g.len(),
            c@.len() == i,
            forall|k: int| 0 <= k < i ==> #[trigger] c@[k]@ == g@[k]@,
        decreases g.len() - i,
    {
        c.push(clone_row(&g[i]));
        i = i + 1;
    }
    proof {
        assert(rows_view(c@) =~= rows_view(g@));
    }
    c
}

} // verus!
