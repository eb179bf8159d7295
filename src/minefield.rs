use crate::cell::{Cell, CellState, XY};
use crate::rng::random_below;
use rand::rngs::StdRng;
use crate::counting::{
    bit, count_grid, lemma_grid_all, lemma_grid_bound, lemma_grid_none,
    lemma_grid_point, lemma_grid_split, lemma_grid_zero, count_row,
};
use vstd::prelude::*;

verus! {

/// Whether two distinct cells touch, along a side or at a corner.
pub open spec fn adjacent(ax: int, ay: int, bx: int, by: int) -> bool {
    !(ax == bx && ay == by) && -1 <= ax - bx <= 1 && -1 <= ay - by <= 1
}

/// Whether a cell lies in the three by three block centred on `(sx, sy)`.
pub open spec fn in_zone(sx: int, sy: int, x: int, y: int) -> bool {
    sx - 1 <= x <= sx + 1 && sy - 1 <= y <= sy + 1
}

/// The field: a grid of cells with its mine and closed-cell counters.
pub struct Minefield {
    /// The cells, row after row: column `x` of row `y` is `cells[y * width + x]`.
    pub cells: Vec<Cell>,
    pub width: usize,
    pub height: usize,
    /// Amount of mines on the field.
    pub mine_amt: u16,
    /// Amount of cells that are not open, together with any open mine.
    pub closed_cells: u16,
}

impl Minefield {
    pub open spec fn in_bounds(self, x: int, y: int) -> bool {
        0 <= x < self.width && 0 <= y < self.height
    }

    pub open spec fn at(self, x: int, y: int) -> Cell {
        self.cells@[y * self.width + x]
    }

    pub open spec fn mine_at(self, x: int, y: int) -> bool {
        self.in_bounds(x, y) && self.at(x, y).is_mine
    }

    /// Number of mines among the up to eight cells around `(x, y)`.
    pub open spec fn neighbour_mines(self, x: int, y: int) -> nat {
        bit(self.mine_at(x - 1, y - 1)) + bit(self.mine_at(x, y - 1)) + bit(
            self.mine_at(x + 1, y - 1),
        ) + bit(self.mine_at(x - 1, y)) + bit(self.mine_at(x + 1, y)) + bit(
            self.mine_at(x - 1, y + 1),
        ) + bit(self.mine_at(x, y + 1)) + bit(self.mine_at(x + 1, y + 1))
    }

    /// Number of cells of the field where `f` holds.
    pub open spec fn count(self, f: spec_fn(int, int) -> bool) -> nat {
        count_grid(f, self.width as int, self.height as int)
    }

    pub open spec fn mine_fn(self) -> spec_fn(int, int) -> bool {
        |x: int, y: int| self.at(x, y).is_mine
    }

    pub open spec fn closed_fn(self) -> spec_fn(int, int) -> bool {
        |x: int, y: int| self.at(x, y).counts_as_closed()
    }

    pub open spec fn mine_total(self) -> nat {
        self.count(self.mine_fn())
    }

    pub open spec fn closed_total(self) -> nat {
        self.count(self.closed_fn())
    }

    /// The shape is fixed and non-empty, and both counters agree with the cells.
    pub open spec fn wf(self) -> bool {
        &&& self.width > 0
        &&& self.height > 0
        &&& self.width * self.height <= u16::MAX
        &&& self.cells@.len() == self.width * self.height
        &&& self.mine_amt == self.mine_total()
        &&& self.closed_cells == self.closed_total()
    }

    /// Every cell without a mine is open.
    pub open spec fn all_safe_open(self) -> bool {
        forall|x: int, y: int|
            self.in_bounds(x, y) && !self.at(x, y).is_mine ==> (#[trigger] self.at(x, y)).state is Open
    }

    pub open spec fn same_shape(self, other: Minefield) -> bool {
        self.width == other.width && self.height == other.height && self.cells@.len()
            == other.cells@.len()
    }

    pub open spec fn same_mines(self, other: Minefield) -> bool {
        forall|x: int, y: int|
            self.in_bounds(x, y) ==> (#[trigger] self.at(x, y)).is_mine == other.at(x, y).is_mine
    }

    /// A chain of cells along which opening the first one goes on to open the rest: each
    /// lies in the field and is closed, each touches the one before it, and each but the
    /// last is free of mines and has no mine around it.
    pub open spec fn cascade_path(self, p: Seq<(int, int)>) -> bool {
        &&& p.len() >= 1
        &&& forall|i: int|
            0 <= i < p.len() ==> self.in_bounds(#[trigger] p[i].0, p[i].1) && self.at(
                p[i].0,
                p[i].1,
            ).state == CellState::Closed
        &&& forall|i: int|
            0 <= i < p.len() - 1 ==> adjacent(#[trigger] p[i].0, p[i].1, p[i + 1].0, p[i + 1].1)
                && !self.at(p[i].0, p[i].1).is_mine && self.neighbour_mines(p[i].0, p[i].1) == 0
    }

    /// Whether opening `(px, py)` also opens `(x, y)`.
    pub open spec fn reveals(self, px: int, py: int, x: int, y: int) -> bool {
        exists|p: Seq<(int, int)>|
            #[trigger] self.cascade_path(p) && p[0] == (px, py) && p.last() == (x, y)
    }

    pub open spec fn reveal_fn(self, px: int, py: int) -> spec_fn(int, int) -> bool {
        |x: int, y: int| self.reveals(px, py, x, y)
    }

    /// The cell at `(x, y)` once opened: it shows the number of mines around it.
    pub open spec fn opened(self, x: int, y: int) -> Cell {
        Cell {
            state: CellState::Open(self.neighbour_mines(x, y) as u8),
            is_mine: self.at(x, y).is_mine,
        }
    }

    /// What `open(pos)` makes of `self`, with `r` its result.
    pub open spec fn open_post(self, after: Minefield, pos: XY<usize>, r: bool) -> bool {
        let (px, py) = (pos.x as int, pos.y as int);
        &&& self.same_shape(after)
        &&& after.mine_amt == self.mine_amt
        &&& if self.at(px, py).state != CellState::Closed {
            !r && after == self
        } else if self.at(px, py).is_mine {
            &&& r
            &&& after.closed_cells == self.closed_cells
            &&& after.cells@ == self.cells@.update(py * self.width + px, self.opened(px, py))
        } else {
            &&& !r
            &&& forall|x: int, y: int|
                self.in_bounds(x, y) ==> #[trigger] after.at(x, y) == if self.reveals(px, py, x, y) {
                    self.opened(x, y)
                } else {
                    self.at(x, y)
                }
            &&& after.closed_cells == self.closed_cells - self.count(self.reveal_fn(px, py))
        }
    }

    /// Cells that `populate` around `(sx, sy)` may mine: not yet a mine, not open, and
    /// outside the safe zone.
    pub open spec fn eligible(self, sx: int, sy: int, x: int, y: int) -> bool {
        !self.at(x, y).is_mine && !(self.at(x, y).state is Open) && !in_zone(sx, sy, x, y)
    }

    pub open spec fn eligible_fn(self, sx: int, sy: int) -> spec_fn(int, int) -> bool {
        |x: int, y: int| self.eligible(sx, sy, x, y)
    }

    /// What `populate(rng, mines, safe_pos)` may make of `self`, whatever the random
    /// draws: only eligible cells get a mine, and as many as asked for while they last.
    pub open spec fn populate_post(self, after: Minefield, mines: u16, safe_pos: XY<usize>) -> bool {
        let (sx, sy) = (safe_pos.x as int, safe_pos.y as int);
        let available = self.count(self.eligible_fn(sx, sy));
        &&& self.same_shape(after)
        &&& after.closed_cells == self.closed_cells
        &&& forall|x: int, y: int|
            self.in_bounds(x, y) ==> {
                &&& (#[trigger] after.at(x, y)).state == self.at(x, y).state
                &&& self.at(x, y).is_mine ==> after.at(x, y).is_mine
                &&& after.at(x, y).is_mine && !self.at(x, y).is_mine ==> self.eligible(sx, sy, x, y)
            }
        &&& after.mine_total() == self.mine_total() + if mines as int <= available {
            mines as int
        } else {
            available as int
        }
    }

    /// What `toggle_flag(pos)` makes of `self`.
    pub open spec fn toggle_post(self, after: Minefield, pos: XY<usize>) -> bool {
        let c = self.at(pos.x as int, pos.y as int);
        let state = match c.state {
            CellState::Closed => CellState::Flagged,
            CellState::Flagged => CellState::Closed,
            CellState::Open(n) => CellState::Open(n),
        };
        &&& self.same_shape(after)
        &&& after.mine_amt == self.mine_amt
        &&& after.closed_cells == self.closed_cells
        &&& after.cells@ == self.cells@.update(
            pos.y * self.width + pos.x,
            Cell { state, is_mine: c.is_mine },
        )
    }
}

pub proof fn lemma_index(w: int, h: int, x: int, y: int)
    requires
        0 <= x < w,
        0 <= y < h,
    ensures
        0 <= y * w + x < w * h,
{
    assert(0 <= y * w) by (nonlinear_arith)
        requires
            0 <= y,
            0 <= w,
    ;
    assert(y * w + w <= w * h) by (nonlinear_arith)
        requires
            y + 1 <= h,
            0 <= w,
    ;
}

pub proof fn lemma_index_distinct(w: int, x: int, y: int, x0: int, y0: int)
    requires
        0 <= x < w,
        0 <= x0 < w,
        !(x == x0 && y == y0),
    ensures
        y * w + x != y0 * w + x0,
{
    if y < y0 {
        assert(y * w + w <= y0 * w) by (nonlinear_arith)
            requires
                y + 1 <= y0,
                0 <= w,
        ;
    } else if y > y0 {
        assert(y0 * w + w <= y * w) by (nonlinear_arith)
            requires
                y0 + 1 <= y,
                0 <= w,
        ;
    }
}

/// Writing one cell leaves every other cell as it was.
pub proof fn lemma_update_at(a: Minefield, b: Minefield, x0: int, y0: int, c: Cell)
    requires
        a.width == b.width,
        a.height == b.height,
        a.cells@.len() == a.width * a.height,
        a.in_bounds(x0, y0),
        b.cells@ == a.cells@.update(y0 * a.width + x0, c),
    ensures
        b.at(x0, y0) == c,
        forall|x: int, y: int|
            a.in_bounds(x, y) && !(x == x0 && y == y0) ==> #[trigger] b.at(x, y) == a.at(x, y),
{
    lemma_index(a.width as int, a.height as int, x0, y0);
    assert forall|x: int, y: int|
        a.in_bounds(x, y) && !(x == x0 && y == y0) implies #[trigger] b.at(x, y) == a.at(x, y) by {
        lemma_index(a.width as int, a.height as int, x, y);
        lemma_index_distinct(a.width as int, x, y, x0, y0);
    }
}

/// Fields with the same mines see the same numbers of neighbouring mines.
pub proof fn lemma_same_neighbour_mines(a: Minefield, b: Minefield, x: int, y: int)
    requires
        a.width == b.width,
        a.height == b.height,
        a.same_mines(b),
    ensures
        a.neighbour_mines(x, y) == b.neighbour_mines(x, y),
{
    assert(a.mine_at(x - 1, y - 1) == b.mine_at(x - 1, y - 1));
    assert(a.mine_at(x, y - 1) == b.mine_at(x, y - 1));
    assert(a.mine_at(x + 1, y - 1) == b.mine_at(x + 1, y - 1));
    assert(a.mine_at(x - 1, y) == b.mine_at(x - 1, y));
    assert(a.mine_at(x + 1, y) == b.mine_at(x + 1, y));
    assert(a.mine_at(x - 1, y + 1) == b.mine_at(x - 1, y + 1));
    assert(a.mine_at(x, y + 1) == b.mine_at(x, y + 1));
    assert(a.mine_at(x + 1, y + 1) == b.mine_at(x + 1, y + 1));
}

/// A cell with no mine around it has no mine in any cell next to it.
pub proof fn lemma_no_mine_next_to_zero(f: Minefield, x: int, y: int, a: int, b: int)
    requires
        f.neighbour_mines(x, y) == 0,
        f.in_bounds(a, b),
        adjacent(x, y, a, b),
    ensures
        !f.at(a, b).is_mine,
{
    assert(f.mine_at(a, b) == false);
}

/// Counts after writing one cell.
pub proof fn lemma_update_counts(a: Minefield, b: Minefield, x0: int, y0: int, c: Cell)
    requires
        a.width == b.width,
        a.height == b.height,
        a.cells@.len() == a.width * a.height,
        a.in_bounds(x0, y0),
        b.cells@ == a.cells@.update(y0 * a.width + x0, c),
    ensures
        b.mine_total() + bit(a.at(x0, y0).is_mine) == a.mine_total() + bit(c.is_mine),
        b.closed_total() + bit(a.at(x0, y0).counts_as_closed()) == a.closed_total() + bit(
            c.counts_as_closed(),
        ),
        b.mine_total() <= b.width * b.height,
        b.closed_total() <= b.width * b.height,
{
    lemma_update_at(a, b, x0, y0, c);
    let w = a.width as int;
    let h = a.height as int;
    lemma_grid_point(a.mine_fn(), b.mine_fn(), w, h, x0, y0);
    lemma_grid_point(a.closed_fn(), b.closed_fn(), w, h, x0, y0);
    lemma_grid_bound(b.mine_fn(), w, h);
    lemma_grid_bound(b.closed_fn(), w, h);
}

/// No cell around `(x, y)` is closed.
pub open spec fn settled(f: Minefield, x: int, y: int) -> bool {
    forall|a: int, b: int|
        f.in_bounds(a, b) && #[trigger] adjacent(x, y, a, b) ==> f.at(a, b).state != CellState::Closed
}

pub open spec fn on_stack(stack: Seq<XY<usize>>, x: int, y: int) -> bool {
    exists|k: int| 0 <= k < stack.len() && #[trigger] stack[k].x == x && stack[k].y == y
}

/// A cell that was opened, is free of mines and has none around it.
pub open spec fn opened_zero(g0: Minefield, cur: Minefield, x: int, y: int) -> bool {
    cur.at(x, y) != g0.at(x, y) && !g0.at(x, y).is_mine && g0.neighbour_mines(x, y) == 0
}

/// Every cell along a cascade path from an opened start has been opened, once each
/// opened cell with no mine around it is settled.
pub proof fn lemma_path_opened(g0: Minefield, cur: Minefield, p: Seq<(int, int)>, i: int)
    requires
        g0.cascade_path(p),
        0 <= i < p.len(),
        cur.width == g0.width,
        cur.height == g0.height,
        cur.at(p[0].0, p[0].1) != g0.at(p[0].0, p[0].1),
        forall|x: int, y: int|
            g0.in_bounds(x, y) && #[trigger] cur.at(x, y) != g0.at(x, y) ==> cur.at(x, y).state
                != CellState::Closed,
        forall|x: int, y: int|
            g0.in_bounds(x, y) && #[trigger] opened_zero(g0, cur, x, y) ==> settled(cur, x, y),
    ensures
        cur.at(p[i].0, p[i].1) != g0.at(p[i].0, p[i].1),
    decreases i,
{
    if i > 0 {
        lemma_path_opened(g0, cur, p, i - 1);
        let (x, y) = p[i - 1];
        assert(g0.in_bounds(p[i - 1].0, p[i - 1].1));
        assert(adjacent(p[i - 1].0, p[i - 1].1, p[i - 1 + 1].0, p[i - 1 + 1].1));
        assert(opened_zero(g0, cur, x, y));
        assert(settled(cur, x, y));
        assert(g0.in_bounds(p[i].0, p[i].1));
        assert(adjacent(x, y, p[i].0, p[i].1));
    }
}

impl Minefield {
    /// A field of `dims.x` columns and `dims.y` rows, every cell closed and without a
    /// mine. Both sides must be at least one, and the field at most `u16::MAX` cells.
    pub fn new(dims: XY<u16>) -> (r: Minefield)
        requires
            dims.x > 0,
            dims.y > 0,
            dims.x * dims.y <= u16::MAX,
        ensures
            r.wf(),
            r.width == dims.x,
            r.height == dims.y,
            r.mine_amt == 0,
            r.closed_cells == dims.x * dims.y,
            forall|i: int| 0 <= i < r.cells@.len() ==> #[trigger] r.cells@[i] == Cell::fresh(),
    {
        let cells_amt: u16 = dims.x * dims.y;
        let n: usize = cells_amt as usize;
        let mut cells: Vec<Cell> = Vec::new();
        while cells.len() < n
            invariant
                cells@.len() <= n,
                forall|i: int| 0 <= i < cells@.len() ==> #[trigger] cells@[i] == Cell::fresh(),
            decreases n - cells.len(),
        {
            cells.push(Cell::new());
        }
        let r = Minefield {
            cells,
            width: dims.x as usize,
            height: dims.y as usize,
            mine_amt: 0,
            closed_cells: cells_amt,
        };
        proof {
            assert forall|x: int, y: int| r.in_bounds(x, y) implies #[trigger] r.at(x, y)
                == Cell::fresh() by {
                lemma_index(r.width as int, r.height as int, x, y);
            }
            lemma_grid_none(r.mine_fn(), r.width as int, r.height as int);
            lemma_grid_all(r.closed_fn(), r.width as int, r.height as int);
        }
        r
    }

    pub fn dimensions(&self) -> (r: XY<usize>)
        ensures
            r.x == self.width,
            r.y == self.height,
    {
        XY { x: self.width, y: self.height }
    }

    /// Whether all non-mine cells are open.
    pub fn is_clear(&self) -> (r: bool)
        ensures
            r == (self.closed_cells == self.mine_amt),
            self.wf() ==> (r == self.all_safe_open()),
    {
        proof {
            if self.wf() {
                let w = self.width as int;
                let h = self.height as int;
                let hidden = |x: int, y: int|
                    !(self.at(x, y).state is Open) && !self.at(x, y).is_mine;
                lemma_grid_split(self.closed_fn(), self.mine_fn(), hidden, w, h);
                if self.all_safe_open() {
                    assert forall|x: int, y: int| 0 <= x < w && 0 <= y < h implies !#[trigger] hidden(x, y) by {
                        assert(self.in_bounds(x, y));
                        assert(self.at(x, y) == self.at(x, y));
                    }
                    lemma_grid_none(hidden, w, h);
                }
                if self.closed_cells == self.mine_amt {
                    assert forall|x: int, y: int|
                        self.in_bounds(x, y) && !self.at(x, y).is_mine implies (#[trigger] self.at(
                            x,
                            y,
                        )).state is Open by {
                        lemma_grid_zero(hidden, w, h, x, y);
                    }
                }
            }
        }
        self.closed_cells == self.mine_amt
    }

    proof fn lemma_dims(self)
        requires
            self.wf(),
        ensures
            self.width <= u16::MAX,
            self.height <= u16::MAX,
    {
        assert(self.width <= self.width * self.height) by (nonlinear_arith)
            requires
                self.height >= 1,
        ;
        assert(self.height <= self.width * self.height) by (nonlinear_arith)
            requires
                self.width >= 1,
        ;
    }

    fn index(&self, x: usize, y: usize) -> (i: usize)
        requires
            self.wf(),
            self.in_bounds(x as int, y as int),
        ensures
            i == y * self.width + x,
            i < self.cells@.len(),
    {
        proof {
            lemma_index(self.width as int, self.height as int, x as int, y as int);
        }
        y * self.width + x
    }

    /// Flags a closed cell, or unflags a flagged one; an open cell stays as it is. `pos`
    /// must lie in the field.
    pub fn toggle_flag(&mut self, pos: XY<usize>)
        requires
            old(self).wf(),
            old(self).in_bounds(pos.x as int, pos.y as int),
        ensures
            final(self).wf(),
            old(self).toggle_post(*final(self), pos),
    {
        let i = self.index(pos.x, pos.y);
        let c = self.cells[i];
        let state = match c.state {
            CellState::Closed => CellState::Flagged,
            CellState::Flagged => CellState::Closed,
            CellState::Open(n) => CellState::Open(n),
        };
        let ghost before = *self;
        self.cells[i] = Cell { state, is_mine: c.is_mine };
        proof {
            lemma_update_counts(before, *self, pos.x as int, pos.y as int, Cell { state, is_mine: c.is_mine });
        }
    }
    /// The up to eight cells around `pos` that lie in the field, each once: left, right,
    /// up, down, then the four corners.
    pub fn neighbour_positions(&self, pos: XY<usize>) -> (r: Vec<XY<usize>>)
        requires
            self.wf(),
            self.in_bounds(pos.x as int, pos.y as int),
        ensures
            r@.len() <= 8,
            forall|i: int|
                0 <= i < r@.len() ==> self.in_bounds(r@[i].x as int, r@[i].y as int) && adjacent(
                    pos.x as int,
                    pos.y as int,
                    #[trigger] r@[i].x as int,
                    r@[i].y as int,
                ),
            forall|x: int, y: int|
                self.in_bounds(x, y) && #[trigger] adjacent(pos.x as int, pos.y as int, x, y)
                    ==> exists|i: int| 0 <= i < r@.len() && r@[i].x == x && r@[i].y == y,
            forall|i: int, j: int|
                0 <= i < j < r@.len() ==> !(r@[i].x == r@[j].x && r@[i].y == r@[j].y),
    {
        proof {
            self.lemma_dims();
        }
        let mut neighbours: Vec<XY<usize>> = Vec::new();

        let left = pos.x > 0;
        let right = pos.x + 1 < self.width;
        let up = pos.y > 0;
        let down = pos.y + 1 < self.height;
        let ghost mut kl: int = 0;
        let ghost mut kr: int = 0;
        let ghost mut ku: int = 0;
        let ghost mut kd: int = 0;
        let ghost mut klu: int = 0;
        let ghost mut kru: int = 0;
        let ghost mut kld: int = 0;
        let ghost mut krd: int = 0;

        if left {
            proof {
                kl = neighbours@.len() as int;
            }
            neighbours.push(XY { x: pos.x - 1, y: pos.y });
        }
        if right {
            proof {
                kr = neighbours@.len() as int;
            }
            neighbours.push(XY { x: pos.x + 1, y: pos.y });
        }
        if up {
            proof {
                ku = neighbours@.len() as int;
            }
            neighbours.push(XY { x: pos.x, y: pos.y - 1 });
        }
        if down {
            proof {
                kd = neighbours@.len() as int;
            }
            neighbours.push(XY { x: pos.x, y: pos.y + 1 });
        }
        if left && up {
            proof {
                klu = neighbours@.len() as int;
            }
            neighbours.push(XY { x: pos.x - 1, y: pos.y - 1 });
        }
        if right && up {
            proof {
                kru = neighbours@.len() as int;
            }
            neighbours.push(XY { x: pos.x + 1, y: pos.y - 1 });
        }
        if left && down {
            proof {
                kld = neighbours@.len() as int;
            }
            neighbours.push(XY { x: pos.x - 1, y: pos.y + 1 });
        }
        if right && down {
            proof {
                krd = neighbours@.len() as int;
            }
            neighbours.push(XY { x: pos.x + 1, y: pos.y + 1 });
        }
        proof {
            let r = neighbours@;
            assert forall|x: int, y: int|
                self.in_bounds(x, y) && #[trigger] adjacent(pos.x as int, pos.y as int, x, y)
                    implies exists|i: int| 0 <= i < r.len() && r[i].x == x && r[i].y == y by {
                let (px, py) = (pos.x as int, pos.y as int);
                if x == px - 1 && y == py {
                    assert(r[kl].x == x && r[kl].y == y);
                } else if x == px + 1 && y == py {
                    assert(r[kr].x == x && r[kr].y == y);
                } else if x == px && y == py - 1 {
                    assert(r[ku].x == x && r[ku].y == y);
                } else if x == px && y == py + 1 {
                    assert(r[kd].x == x && r[kd].y == y);
                } else if x == px - 1 && y == py - 1 {
                    assert(r[klu].x == x && r[klu].y == y);
                } else if x == px + 1 && y == py - 1 {
                    assert(r[kru].x == x && r[kru].y == y);
                } else if x == px - 1 && y == py + 1 {
                    assert(r[kld].x == x && r[kld].y == y);
                } else {
                    assert(r[krd].x == x && r[krd].y == y);
                }
            }
        }
        neighbours
    }

    /// 1 if the cell at offset `(dx - 1, dy - 1)` from `pos` is in the field and holds a
    /// mine, else 0.
    fn mine_bit(&self, pos: XY<usize>, dx: usize, dy: usize) -> (r: u8)
        requires
            self.wf(),
            self.in_bounds(pos.x as int, pos.y as int),
            dx <= 2,
            dy <= 2,
        ensures
            r == bit(self.mine_at(pos.x + dx - 1, pos.y + dy - 1)),
    {
        proof {
            self.lemma_dims();
        }
        if pos.x + dx >= 1 && pos.x + dx - 1 < self.width && pos.y + dy >= 1 && pos.y + dy - 1
            < self.height {
            let i = self.index(pos.x + dx - 1, pos.y + dy - 1);
            if self.cells[i].is_mine {
                1
            } else {
                0
            }
        } else {
            0
        }
    }

    fn neighbour_mine_count(&self, pos: XY<usize>) -> (r: u8)
        requires
            self.wf(),
            self.in_bounds(pos.x as int, pos.y as int),
        ensures
            r == self.neighbour_mines(pos.x as int, pos.y as int),
            r <= 8,
    {
        self.mine_bit(pos, 0, 0) + self.mine_bit(pos, 1, 0) + self.mine_bit(pos, 2, 0)
            + self.mine_bit(pos, 0, 1) + self.mine_bit(pos, 2, 1) + self.mine_bit(pos, 0, 2)
            + self.mine_bit(pos, 1, 2) + self.mine_bit(pos, 2, 2)
    }
    /// Opens the cell at `pos` and, where it has no mine around it, the cells around it
    /// in turn. Returns whether a mine was opened. A flagged or open cell is left as it
    /// is. Opening a mine does not lower `closed_cells`, so a lost field never reads as
    /// clear. `pos` must lie in the field.
    #[must_use]
    #[verifier::rlimit(100)]
    #[verifier::spinoff_prover]
    pub fn open(&mut self, pos: XY<usize>) -> (r: bool)
        requires
            old(self).wf(),
            old(self).in_bounds(pos.x as int, pos.y as int),
        ensures
            final(self).wf(),
            old(self).open_post(*final(self), pos, r),
    {
        let ghost g0 = *self;
        let ghost (px, py) = (pos.x as int, pos.y as int);
        let i = self.index(pos.x, pos.y);
        let cell = self.cells[i];
        match cell.state {
            CellState::Closed => {},
            _ => {
                return false;
            },
        }
        let mine_neighbours = self.neighbour_mine_count(pos);
        self.cells[i] = Cell { state: CellState::Open(mine_neighbours), is_mine: cell.is_mine };
        proof {
            lemma_update_counts(g0, *self, px, py, g0.opened(px, py));
        }
        if cell.is_mine {
            return true;
        }
        self.closed_cells = self.closed_cells - 1;
        proof {
            lemma_update_counts(g0, *self, px, py, g0.opened(px, py));
            lemma_update_at(g0, *self, px, py, g0.opened(px, py));
            let p = seq![(px, py)];
            assert(g0.cascade_path(p));
            assert(g0.reveals(px, py, px, py));
        }

        // Cells that were opened with no mine around them, whose neighbours are still to
        // be opened.
        let mut stack: Vec<XY<usize>> = Vec::new();
        if mine_neighbours == 0 {
            stack.push(pos);
        }
        proof {
            assert forall|x: int, y: int|
                g0.in_bounds(x, y) && #[trigger] opened_zero(g0, *self, x, y) implies on_stack(
                stack@,
                x,
                y,
            ) || settled(*self, x, y) by {
                if !(x == px && y == py) {
                    assert(self.at(x, y) == g0.at(x, y));
                } else {
                    assert(stack@[0] == pos);
                }
            }
        }
        while stack.len() > 0
            invariant
                self.wf(),
                self.width == g0.width,
                self.height == g0.height,
                self.mine_amt == g0.mine_amt,
                g0.wf(),
                g0.in_bounds(px, py),
                g0.at(px, py).state == CellState::Closed,
                !g0.at(px, py).is_mine,
                self.at(px, py) == g0.opened(px, py),
                forall|x: int, y: int|
                    g0.in_bounds(x, y) && #[trigger] self.at(x, y) != g0.at(x, y) ==> {
                        &&& g0.reveals(px, py, x, y)
                        &&& self.at(x, y) == g0.opened(x, y)
                        &&& g0.at(x, y).state == CellState::Closed
                        &&& !g0.at(x, y).is_mine
                    },
                forall|k: int|
                    0 <= k < stack@.len() ==> g0.in_bounds(
                        (#[trigger] stack@[k]).x as int,
                        stack@[k].y as int,
                    ) && opened_zero(g0, *self, stack@[k].x as int, stack@[k].y as int),
                forall|x: int, y: int|
                    g0.in_bounds(x, y) && #[trigger] opened_zero(g0, *self, x, y) ==> on_stack(
                        stack@,
                        x,
                        y,
                    ) || settled(*self, x, y),
            decreases 2 * self.closed_cells + stack@.len(),
        {
            let ghost full_stack = stack@;
            let c = stack.pop().unwrap();
            proof {
                assert forall|x: int, y: int|
                    g0.in_bounds(x, y) && #[trigger] opened_zero(g0, *self, x, y) implies on_stack(
                    stack@,
                    x,
                    y,
                ) || settled(*self, x, y) || (x == c.x && y == c.y) by {
                    if on_stack(full_stack, x, y) {
                        let k = choose|k: int|
                            0 <= k < full_stack.len() && #[trigger] full_stack[k].x == x
                                && full_stack[k].y == y;
                        if k < stack@.len() {
                            assert(stack@[k] == full_stack[k]);
                        }
                    }
                }
                assert forall|k: int| 0 <= k < stack@.len() implies g0.in_bounds(
                    (#[trigger] stack@[k]).x as int,
                    stack@[k].y as int,
                ) && opened_zero(g0, *self, stack@[k].x as int, stack@[k].y as int) by {
                    assert(stack@[k] == full_stack[k]);
                }
                assert(full_stack[full_stack.len() - 1] == c);
            }
            let ghost m0 = 2 * self.closed_cells + stack@.len() + 1;
            let ghost (cx, cy) = (c.x as int, c.y as int);
            let neighbours = self.neighbour_positions(c);
            let mut j: usize = 0;
            while j < neighbours.len()
                invariant
                    self.wf(),
                    self.width == g0.width,
                    self.height == g0.height,
                    self.mine_amt == g0.mine_amt,
                    g0.wf(),
                    g0.in_bounds(px, py),
                    self.at(px, py) == g0.opened(px, py),
                    g0.in_bounds(cx, cy),
                    opened_zero(g0, *self, cx, cy),
                    2 * self.closed_cells + stack@.len() < m0,
                    j <= neighbours@.len(),
                    forall|k: int|
                        0 <= k < neighbours@.len() ==> g0.in_bounds(
                            (#[trigger] neighbours@[k]).x as int,
                            neighbours@[k].y as int,
                        ) && adjacent(cx, cy, neighbours@[k].x as int, neighbours@[k].y as int),
                    forall|x: int, y: int|
                        g0.in_bounds(x, y) && #[trigger] adjacent(cx, cy, x, y) ==> exists|k: int|
                            0 <= k < neighbours@.len() && neighbours@[k].x == x && neighbours@[k].y
                                == y,
                    forall|k: int|
                        0 <= k < j ==> self.at(
                            (#[trigger] neighbours@[k]).x as int,
                            neighbours@[k].y as int,
                        ).state != CellState::Closed,
                    forall|x: int, y: int|
                        g0.in_bounds(x, y) && #[trigger] self.at(x, y) != g0.at(x, y) ==> {
                            &&& g0.reveals(px, py, x, y)
                            &&& self.at(x, y) == g0.opened(x, y)
                            &&& g0.at(x, y).state == CellState::Closed
                            &&& !g0.at(x, y).is_mine
                        },
                    forall|k: int|
                        0 <= k < stack@.len() ==> g0.in_bounds(
                            (#[trigger] stack@[k]).x as int,
                            stack@[k].y as int,
                        ) && opened_zero(g0, *self, stack@[k].x as int, stack@[k].y as int),
                    forall|x: int, y: int|
                        g0.in_bounds(x, y) && #[trigger] opened_zero(g0, *self, x, y) ==> on_stack(
                            stack@,
                            x,
                            y,
                        ) || settled(*self, x, y) || (x == cx && y == cy),
                decreases neighbours@.len() - j,
            {
                let d = neighbours[j];
                let ghost (dx, dy) = (d.x as int, d.y as int);
                let di = self.index(d.x, d.y);
                let dcell = self.cells[di];
                if let CellState::Closed = dcell.state {
                    let ghost before = *self;
                    proof {
                        assert(self.at(dx, dy) == g0.at(dx, dy));
                        lemma_no_mine_next_to_zero(g0, cx, cy, dx, dy);
                        lemma_same_neighbour_mines(g0, *self, dx, dy);
                    }
                    let n = self.neighbour_mine_count(d);
                    self.cells[di] = Cell { state: CellState::Open(n), is_mine: dcell.is_mine };
                    proof {
                        lemma_update_counts(before, *self, dx, dy, g0.opened(dx, dy));
                    }
                    self.closed_cells = self.closed_cells - 1;
                    proof {
                        lemma_update_counts(before, *self, dx, dy, g0.opened(dx, dy));
                        lemma_update_at(before, *self, dx, dy, g0.opened(dx, dy));
                        // The path to `c`, one step longer, reaches `d`.
                        assert(g0.reveals(px, py, cx, cy));
                        let p = choose|p: Seq<(int, int)>|
                            #[trigger] g0.cascade_path(p) && p[0] == (px, py) && p.last() == (cx, cy);
                        let q = p.push((dx, dy));
                        assert(g0.cascade_path(q)) by {
                            assert forall|i: int| 0 <= i < q.len() - 1 implies adjacent(
                                #[trigger] q[i].0,
                                q[i].1,
                                q[i + 1].0,
                                q[i + 1].1,
                            ) && !g0.at(q[i].0, q[i].1).is_mine && g0.neighbour_mines(q[i].0, q[i].1)
                                == 0 by {
                                if i < p.len() - 1 {
                                    assert(q[i] == p[i] && q[i + 1] == p[i + 1]);
                                }
                            }
                        }
                        assert(q[0] == (px, py) && q.last() == (dx, dy));
                        assert(g0.reveals(px, py, dx, dy));
                        assert forall|x: int, y: int|
                            g0.in_bounds(x, y) && #[trigger] opened_zero(g0, before, x, y)
                                && settled(before, x, y) implies settled(*self, x, y) by {
                            assert forall|a: int, b: int|
                                self.in_bounds(a, b) && #[trigger] adjacent(x, y, a, b) implies self.at(
                                a,
                                b,
                            ).state != CellState::Closed by {
                                assert(before.at(a, b).state != CellState::Closed);
                                if !(a == dx && b == dy) {
                                    assert(self.at(a, b) == before.at(a, b));
                                }
                            }
                        }
                        assert forall|x: int, y: int|
                            g0.in_bounds(x, y) && #[trigger] opened_zero(g0, *self, x, y)
                                && !(x == dx && y == dy) implies opened_zero(g0, before, x, y) by {
                            assert(self.at(x, y) == before.at(x, y));
                        }
                    }
                    let ghost old_stack = stack@;
                    if n == 0 {
                        stack.push(d);
                        proof {
                            assert(stack@[stack@.len() - 1] == d);
                        }
                    }
                    proof {
                        assert forall|k: int| 0 <= k < stack@.len() implies g0.in_bounds(
                            (#[trigger] stack@[k]).x as int,
                            stack@[k].y as int,
                        ) && opened_zero(g0, *self, stack@[k].x as int, stack@[k].y as int) by {
                            let (sx, sy) = (stack@[k].x as int, stack@[k].y as int);
                            if !(sx == dx && sy == dy) {
                                assert(self.at(sx, sy) == before.at(sx, sy));
                            }
                        }
                        assert forall|x: int, y: int|
                            g0.in_bounds(x, y) && #[trigger] opened_zero(g0, *self, x, y) implies on_stack(
                            stack@,
                            x,
                            y,
                        ) || settled(*self, x, y) || (x == cx && y == cy) by {
                            if x == dx && y == dy {
                                assert(n == 0);
                                assert(stack@[stack@.len() - 1] == d);
                            } else {
                                assert(opened_zero(g0, before, x, y));
                                if on_stack(old_stack, x, y) {
                                    let k = choose|k: int|
                                        0 <= k < old_stack.len() && #[trigger] old_stack[k].x == x
                                            && old_stack[k].y == y;
                                    assert(stack@[k] == old_stack[k]);
                                }
                            }
                        }
                        assert forall|k: int| 0 <= k < j + 1 implies self.at(
                            (#[trigger] neighbours@[k]).x as int,
                            neighbours@[k].y as int,
                        ).state != CellState::Closed by {
                            let (nx, ny) = (neighbours@[k].x as int, neighbours@[k].y as int);
                            if !(nx == dx && ny == dy) {
                                assert(self.at(nx, ny) == before.at(nx, ny));
                            }
                        }
                        assert forall|x: int, y: int|
                            g0.in_bounds(x, y) && #[trigger] self.at(x, y) != g0.at(x, y) implies {
                            &&& g0.reveals(px, py, x, y)
                            &&& self.at(x, y) == g0.opened(x, y)
                            &&& g0.at(x, y).state == CellState::Closed
                            &&& !g0.at(x, y).is_mine
                        } by {
                            if !(x == dx && y == dy) {
                                assert(self.at(x, y) == before.at(x, y));
                            }
                        }
                    }
                }
                j = j + 1;
            }
            proof {
                assert(settled(*self, cx, cy)) by {
                    assert forall|a: int, b: int|
                        self.in_bounds(a, b) && #[trigger] adjacent(cx, cy, a, b) implies self.at(
                        a,
                        b,
                    ).state != CellState::Closed by {
                        let k = choose|k: int|
                            0 <= k < neighbours@.len() && neighbours@[k].x == a && neighbours@[k].y
                                == b;
                        assert(self.at(neighbours@[k].x as int, neighbours@[k].y as int).state
                            != CellState::Closed);
                    }
                }
            }
        }
        proof {
            let w = g0.width as int;
            let h = g0.height as int;
            assert forall|x: int, y: int| g0.in_bounds(x, y) implies #[trigger] self.at(x, y) == if g0.reveals(
                px,
                py,
                x,
                y,
            ) {
                g0.opened(x, y)
            } else {
                g0.at(x, y)
            } by {
                if g0.reveals(px, py, x, y) {
                    let p = choose|p: Seq<(int, int)>|
                        #[trigger] g0.cascade_path(p) && p[0] == (px, py) && p.last() == (x, y);
                    lemma_path_opened(g0, *self, p, p.len() - 1);
                }
            }
            let rf = g0.reveal_fn(px, py);
            assert forall|x: int, y: int| 0 <= x < w && 0 <= y < h implies (#[trigger] g0.closed_fn()(x, y)
                == (self.closed_fn()(x, y) || rf(x, y)) && !(self.closed_fn()(x, y) && rf(x, y))) by {
                assert(g0.in_bounds(x, y));
                assert(self.at(x, y) == self.at(x, y));
                if rf(x, y) {
                    let p = choose|p: Seq<(int, int)>|
                        #[trigger] g0.cascade_path(p) && p[0] == (px, py) && p.last() == (x, y);
                    assert(p[p.len() - 1] == (x, y));
                    assert(g0.at(x, y).state == CellState::Closed);
                    lemma_path_opened(g0, *self, p, p.len() - 1);
                }
            }
            lemma_grid_split(g0.closed_fn(), self.closed_fn(), rf, w, h);
        }
        false
    }
    /// Places mines on cells chosen at random, never on `safe_pos` or the cells around it
    /// and never on an open cell or a cell that already holds one. Places `mines` of them,
    /// or as many as there are such cells if there are fewer; `mine_amt` then counts
    /// every mine on the field.
    pub fn populate(&mut self, rng: &mut StdRng, mines: u16, safe_pos: XY<usize>)
        requires
            old(self).wf(),
            old(self).in_bounds(safe_pos.x as int, safe_pos.y as int),
        ensures
            final(self).wf(),
            old(self).populate_post(*final(self), mines, safe_pos),
    {
        let ghost g0 = *self;
        let ghost (sx, sy) = (safe_pos.x as int, safe_pos.y as int);
        let ghost ef = g0.eligible_fn(sx, sy);
        proof {
            self.lemma_dims();
        }
        let w = self.width;
        let h = self.height;

        // Every eligible cell, row after row.
        let mut candidates: Vec<XY<usize>> = Vec::new();
        let mut y: usize = 0;
        while y < h
            invariant
                *self == g0,
                g0.wf(),
                w == g0.width,
                h == g0.height,
                y <= h,
                g0.in_bounds(sx, sy),
                sx == safe_pos.x,
                sy == safe_pos.y,
                ef == g0.eligible_fn(sx, sy),
                h <= u16::MAX,
                candidates@.len() == count_grid(ef, w as int, y as int),
                forall|k: int|
                    0 <= k < candidates@.len() ==> g0.in_bounds(
                        (#[trigger] candidates@[k]).x as int,
                        candidates@[k].y as int,
                    ) && g0.eligible(sx, sy, candidates@[k].x as int, candidates@[k].y as int)
                        && candidates@[k].y < y,
                forall|k: int, l: int|
                    0 <= k < l < candidates@.len() ==> !(candidates@[k].x == candidates@[l].x
                        && candidates@[k].y == candidates@[l].y),
            decreases h - y,
        {
            let mut x: usize = 0;
            while x < w
                invariant
                    *self == g0,
                    g0.wf(),
                    w == g0.width,
                    h == g0.height,
                    y < h,
                    x <= w,
                    g0.in_bounds(sx, sy),
                    sx == safe_pos.x,
                    sy == safe_pos.y,
                    ef == g0.eligible_fn(sx, sy),
                    h <= u16::MAX,
                    candidates@.len() == count_grid(ef, w as int, y as int) + count_row(
                        ef,
                        y as int,
                        x as int,
                    ),
                    forall|k: int|
                        0 <= k < candidates@.len() ==> g0.in_bounds(
                            (#[trigger] candidates@[k]).x as int,
                            candidates@[k].y as int,
                        ) && g0.eligible(sx, sy, candidates@[k].x as int, candidates@[k].y as int)
                            && (candidates@[k].y < y || (candidates@[k].y == y && candidates@[k].x
                            < x)),
                    forall|k: int, l: int|
                        0 <= k < l < candidates@.len() ==> !(candidates@[k].x == candidates@[l].x
                            && candidates@[k].y == candidates@[l].y),
                decreases w - x,
            {
                let i = self.index(x, y);
                let cell = self.cells[i];
                let open = match cell.state {
                    CellState::Open(_) => true,
                    _ => false,
                };
                let in_safe_zone = x + 1 >= safe_pos.x && x <= safe_pos.x + 1 && y + 1
                    >= safe_pos.y && y <= safe_pos.y + 1;
                if !cell.is_mine && !open && !in_safe_zone {
                    candidates.push(XY { x, y });
                }
                proof {
                    assert(cell == g0.at(x as int, y as int));
                    assert(open == (g0.at(x as int, y as int).state is Open));
                    assert(in_safe_zone == in_zone(sx, sy, x as int, y as int));
                    assert(ef(x as int, y as int) == (!cell.is_mine && !open && !in_safe_zone));
                }
                x = x + 1;
            }
            y = y + 1;
        }

        let n = candidates.len();
        let to_place: usize = if (mines as usize) < n {
            mines as usize
        } else {
            n
        };

        // A partial shuffle: the first `to_place` candidates become a uniform choice.
        let mut t: usize = 0;
        while t < to_place
            invariant
                *self == g0,
                to_place <= n,
                t <= to_place,
                sx == safe_pos.x,
                sy == safe_pos.y,
                ef == g0.eligible_fn(sx, sy),
                n == count_grid(ef, g0.width as int, g0.height as int),
                candidates@.len() == n,
                forall|k: int|
                    0 <= k < candidates@.len() ==> g0.in_bounds(
                        (#[trigger] candidates@[k]).x as int,
                        candidates@[k].y as int,
                    ) && g0.eligible(sx, sy, candidates@[k].x as int, candidates@[k].y as int),
                forall|k: int, l: int|
                    0 <= k < l < candidates@.len() ==> !(candidates@[k].x == candidates@[l].x
                        && candidates@[k].y == candidates@[l].y),
            decreases to_place - t,
        {
            let j = random_below(rng, t, n);
            let a = candidates[t];
            let b = candidates[j];
            candidates[t] = b;
            candidates[j] = a;
            t = t + 1;
        }

        let mut t: usize = 0;
        while t < to_place
            invariant
                self.wf(),
                g0.wf(),
                self.same_shape(g0),
                self.closed_cells == g0.closed_cells,
                to_place <= n,
                t <= to_place,
                sx == safe_pos.x,
                sy == safe_pos.y,
                ef == g0.eligible_fn(sx, sy),
                n == count_grid(ef, g0.width as int, g0.height as int),
                candidates@.len() == n,
                self.mine_total() == g0.mine_total() + t,
                forall|k: int|
                    0 <= k < candidates@.len() ==> g0.in_bounds(
                        (#[trigger] candidates@[k]).x as int,
                        candidates@[k].y as int,
                    ) && g0.eligible(sx, sy, candidates@[k].x as int, candidates@[k].y as int),
                forall|k: int, l: int|
                    0 <= k < l < candidates@.len() ==> !(candidates@[k].x == candidates@[l].x
                        && candidates@[k].y == candidates@[l].y),
                forall|k: int|
                    t <= k < candidates@.len() ==> self.at(
                        (#[trigger] candidates@[k]).x as int,
                        candidates@[k].y as int,
                    ) == g0.at(candidates@[k].x as int, candidates@[k].y as int),
                forall|x: int, y: int|
                    g0.in_bounds(x, y) ==> {
                        &&& (#[trigger] self.at(x, y)).state == g0.at(x, y).state
                        &&& g0.at(x, y).is_mine ==> self.at(x, y).is_mine
                        &&& self.at(x, y).is_mine && !g0.at(x, y).is_mine ==> g0.eligible(
                            sx,
                            sy,
                            x,
                            y,
                        )
                    },
            decreases to_place - t,
        {
            let c = candidates[t];
            let i = self.index(c.x, c.y);
            let cell = self.cells[i];
            let ghost before = *self;
            let mined = Cell { state: cell.state, is_mine: true };
            self.cells[i] = mined;
            proof {
                lemma_update_counts(before, *self, c.x as int, c.y as int, mined);
            }
            self.mine_amt = self.mine_amt + 1;
            proof {
                lemma_update_counts(before, *self, c.x as int, c.y as int, mined);
                lemma_update_at(before, *self, c.x as int, c.y as int, mined);
                assert forall|k: int|
                    t + 1 <= k < candidates@.len() implies self.at(
                    (#[trigger] candidates@[k]).x as int,
                    candidates@[k].y as int,
                ) == g0.at(candidates@[k].x as int, candidates@[k].y as int) by {
                    assert(before.at(candidates@[k].x as int, candidates@[k].y as int) == g0.at(
                        candidates@[k].x as int,
                        candidates@[k].y as int,
                    ));
                }
                assert forall|x: int, y: int| g0.in_bounds(x, y) implies {
                    &&& (#[trigger] self.at(x, y)).state == g0.at(x, y).state
                    &&& g0.at(x, y).is_mine ==> self.at(x, y).is_mine
                    &&& self.at(x, y).is_mine && !g0.at(x, y).is_mine ==> g0.eligible(sx, sy, x, y)
                } by {
                    assert(before.at(x, y) == before.at(x, y));
                    if !(x == c.x && y == c.y) {
                        assert(self.at(x, y) == before.at(x, y));
                    }
                }
            }
            t = t + 1;
        }
    }
}

} // verus!
