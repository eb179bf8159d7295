use vstd::prelude::*;

verus! {

/// One when `b` holds, zero otherwise.
pub open spec fn bit(b: bool) -> nat {
    if b {
        1
    } else {
        0
    }
}

/// Number of columns `x` in `0..n` of row `y` where `f` holds.
pub open spec fn count_row(f: spec_fn(int, int) -> bool, y: int, n: int) -> nat
    decreases n,
{
    if n <= 0 {
        0
    } else {
        count_row(f, y, n - 1) + bit(f(n - 1, y))
    }
}

/// Number of cells `(x, y)` with `x` in `0..w` and `y` in `0..rows` where `f` holds.
pub open spec fn count_grid(f: spec_fn(int, int) -> bool, w: int, rows: int) -> nat
    decreases rows,
{
    if rows <= 0 {
        0
    } else {
        count_grid(f, w, rows - 1) + count_row(f, rows - 1, w)
    }
}

pub proof fn lemma_row_ext(f: spec_fn(int, int) -> bool, g: spec_fn(int, int) -> bool, y: int, n: int)
    requires
        forall|x: int| 0 <= x < n ==> #[trigger] f(x, y) == g(x, y),
    ensures
        count_row(f, y, n) == count_row(g, y, n),
    decreases n,
{
    if n > 0 {
        lemma_row_ext(f, g, y, n - 1);
    }
}

/// Counting depends only on the cells inside the box.
pub proof fn lemma_grid_ext(f: spec_fn(int, int) -> bool, g: spec_fn(int, int) -> bool, w: int, rows: int)
    requires
        forall|x: int, y: int| 0 <= x < w && 0 <= y < rows ==> #[trigger] f(x, y) == g(x, y),
    ensures
        count_grid(f, w, rows) == count_grid(g, w, rows),
    decreases rows,
{
    if rows > 0 {
        lemma_grid_ext(f, g, w, rows - 1);
        lemma_row_ext(f, g, rows - 1, w);
    }
}

pub proof fn lemma_row_split(
    f: spec_fn(int, int) -> bool,
    g: spec_fn(int, int) -> bool,
    h: spec_fn(int, int) -> bool,
    y: int,
    n: int,
)
    requires
        forall|x: int| 0 <= x < n ==> (#[trigger] f(x, y) == (g(x, y) || h(x, y)) && !(g(x, y) && h(x, y))),
    ensures
        count_row(f, y, n) == count_row(g, y, n) + count_row(h, y, n),
    decreases n,
{
    if n > 0 {
        lemma_row_split(f, g, h, y, n - 1);
    }
}

/// A count over a disjoint union is the sum of the counts.
pub proof fn lemma_grid_split(
    f: spec_fn(int, int) -> bool,
    g: spec_fn(int, int) -> bool,
    h: spec_fn(int, int) -> bool,
    w: int,
    rows: int,
)
    requires
        forall|x: int, y: int|
            0 <= x < w && 0 <= y < rows ==> (#[trigger] f(x, y) == (g(x, y) || h(x, y)) && !(g(x, y) && h(
                x,
                y,
            ))),
    ensures
        count_grid(f, w, rows) == count_grid(g, w, rows) + count_grid(h, w, rows),
    decreases rows,
{
    if rows > 0 {
        lemma_grid_split(f, g, h, w, rows - 1);
        assert forall|x: int| 0 <= x < w implies (#[trigger] f(x, rows - 1) == (g(x, rows - 1) || h(
            x,
            rows - 1,
        )) && !(g(x, rows - 1) && h(x, rows - 1))) by {
            assert(0 <= rows - 1 < rows);
        }
        lemma_row_split(f, g, h, rows - 1, w);
    }
}

pub proof fn lemma_row_all(f: spec_fn(int, int) -> bool, y: int, n: int)
    requires
        n >= 0,
        forall|x: int| 0 <= x < n ==> #[trigger] f(x, y),
    ensures
        count_row(f, y, n) == n,
    decreases n,
{
    if n > 0 {
        lemma_row_all(f, y, n - 1);
    }
}

/// A predicate that holds on the whole box counts every cell.
pub proof fn lemma_grid_all(f: spec_fn(int, int) -> bool, w: int, rows: int)
    requires
        w >= 0,
        rows >= 0,
        forall|x: int, y: int| 0 <= x < w && 0 <= y < rows ==> #[trigger] f(x, y),
    ensures
        count_grid(f, w, rows) == w * rows,
    decreases rows,
{
    if rows > 0 {
        lemma_grid_all(f, w, rows - 1);
        lemma_row_all(f, rows - 1, w);
        assert(w * (rows - 1) + w == w * rows) by (nonlinear_arith);
    } else {
        assert(w * rows == 0) by (nonlinear_arith)
            requires
                rows == 0,
        ;
    }
}

pub proof fn lemma_row_none(f: spec_fn(int, int) -> bool, y: int, n: int)
    requires
        forall|x: int| 0 <= x < n ==> !#[trigger] f(x, y),
    ensures
        count_row(f, y, n) == 0,
    decreases n,
{
    if n > 0 {
        lemma_row_none(f, y, n - 1);
    }
}

/// A predicate that holds nowhere in the box counts nothing.
pub proof fn lemma_grid_none(f: spec_fn(int, int) -> bool, w: int, rows: int)
    requires
        forall|x: int, y: int| 0 <= x < w && 0 <= y < rows ==> !#[trigger] f(x, y),
    ensures
        count_grid(f, w, rows) == 0,
    decreases rows,
{
    if rows > 0 {
        lemma_grid_none(f, w, rows - 1);
        lemma_row_none(f, rows - 1, w);
    }
}

pub proof fn lemma_row_zero(f: spec_fn(int, int) -> bool, y: int, n: int, x0: int)
    requires
        count_row(f, y, n) == 0,
        0 <= x0 < n,
    ensures
        !f(x0, y),
    decreases n,
{
    if x0 < n - 1 {
        lemma_row_zero(f, y, n - 1, x0);
    }
}

/// A count of zero means that the predicate holds nowhere in the box.
pub proof fn lemma_grid_zero(f: spec_fn(int, int) -> bool, w: int, rows: int, x0: int, y0: int)
    requires
        count_grid(f, w, rows) == 0,
        0 <= x0 < w,
        0 <= y0 < rows,
    ensures
        !f(x0, y0),
    decreases rows,
{
    if y0 < rows - 1 {
        lemma_grid_zero(f, w, rows - 1, x0, y0);
    } else {
        lemma_row_zero(f, y0, w, x0);
    }
}

pub proof fn lemma_row_bound(f: spec_fn(int, int) -> bool, y: int, n: int)
    requires
        n >= 0,
    ensures
        count_row(f, y, n) <= n,
    decreases n,
{
    if n > 0 {
        lemma_row_bound(f, y, n - 1);
    }
}

/// No count exceeds the number of cells of the box.
pub proof fn lemma_grid_bound(f: spec_fn(int, int) -> bool, w: int, rows: int)
    requires
        w >= 0,
        rows >= 0,
    ensures
        count_grid(f, w, rows) <= w * rows,
    decreases rows,
{
    if rows > 0 {
        lemma_grid_bound(f, w, rows - 1);
        lemma_row_bound(f, rows - 1, w);
        assert(w * (rows - 1) + w == w * rows) by (nonlinear_arith);
    } else {
        assert(w * rows == 0) by (nonlinear_arith)
            requires
                rows == 0,
        ;
    }
}

pub proof fn lemma_row_point(
    f: spec_fn(int, int) -> bool,
    g: spec_fn(int, int) -> bool,
    y: int,
    n: int,
    x0: int,
    y0: int,
)
    requires
        forall|x: int| 0 <= x < n && !(x == x0 && y == y0) ==> #[trigger] f(x, y) == g(x, y),
    ensures
        count_row(g, y, n) + (if y == y0 && 0 <= x0 < n { bit(f(x0, y0)) } else { 0 })
            == count_row(f, y, n) + (if y == y0 && 0 <= x0 < n { bit(g(x0, y0)) } else { 0 }),
    decreases n,
{
    if n > 0 {
        lemma_row_point(f, g, y, n - 1, x0, y0);
    }
}

/// Changing a predicate at one cell of the box changes the count by that cell alone.
pub proof fn lemma_grid_point(
    f: spec_fn(int, int) -> bool,
    g: spec_fn(int, int) -> bool,
    w: int,
    rows: int,
    x0: int,
    y0: int,
)
    requires
        0 <= x0 < w,
        0 <= y0 < rows,
        forall|x: int, y: int|
            0 <= x < w && 0 <= y < rows && !(x == x0 && y == y0) ==> #[trigger] f(x, y) == g(x, y),
    ensures
        count_grid(g, w, rows) + bit(f(x0, y0)) == count_grid(f, w, rows) + bit(g(x0, y0)),
    decreases rows,
{
    if y0 < rows - 1 {
        lemma_grid_point(f, g, w, rows - 1, x0, y0);
        lemma_row_ext(f, g, rows - 1, w);
    } else {
        lemma_grid_ext(f, g, w, rows - 1);
        lemma_row_point(f, g, rows - 1, w, x0, y0);
    }
}

} // verus!
