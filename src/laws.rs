use crate::cell::{Cell, CellState, XY};
use crate::counting::{lemma_grid_all, lemma_grid_none, lemma_grid_split};
use crate::minefield::{adjacent, in_zone, Minefield};
use vstd::prelude::*;

verus! {

/// A freshly built field: every cell closed and free of mines, no mine counted, every
/// cell counted as closed, and therefore not clear.
pub proof fn law_fresh_field(f: Minefield)
    requires
        f.wf(),
        forall|i: int| 0 <= i < f.cells@.len() ==> #[trigger] f.cells@[i] == Cell::fresh(),
    ensures
        forall|x: int, y: int|
            f.in_bounds(x, y) ==> (#[trigger] f.at(x, y)).state == CellState::Closed && !f.at(
                x,
                y,
            ).is_mine,
        f.mine_amt == 0,
        f.closed_cells == f.width * f.height,
        f.closed_cells != f.mine_amt,
{
    let w = f.width as int;
    let h = f.height as int;
    assert forall|x: int, y: int| f.in_bounds(x, y) implies #[trigger] f.at(x, y) == Cell::fresh() by {
        crate::minefield::lemma_index(w, h, x, y);
    }
    assert forall|x: int, y: int| 0 <= x < w && 0 <= y < h implies !#[trigger] f.mine_fn()(x, y) by {
        assert(f.in_bounds(x, y));
    }
    lemma_grid_none(f.mine_fn(), w, h);
    assert forall|x: int, y: int| 0 <= x < w && 0 <= y < h implies #[trigger] f.closed_fn()(x, y) by {
        assert(f.in_bounds(x, y));
    }
    lemma_grid_all(f.closed_fn(), w, h);
    assert(w * h > 0) by (nonlinear_arith)
        requires
            w > 0,
            h > 0,
    ;
}

/// On a field with no mine and no open cell, `populate` leaves `safe_pos` and the cells
/// around it free of mines and places exactly the smaller of `mines` and the number of
/// cells outside that safe zone.
pub proof fn law_populate_places(
    before: Minefield,
    after: Minefield,
    mines: u16,
    safe_pos: XY<usize>,
)
    requires
        before.wf(),
        after.wf(),
        before.in_bounds(safe_pos.x as int, safe_pos.y as int),
        forall|x: int, y: int|
            before.in_bounds(x, y) ==> !(#[trigger] before.at(x, y)).is_mine && !(before.at(
                x,
                y,
            ).state is Open),
        before.populate_post(after, mines, safe_pos),
    ensures
        forall|x: int, y: int|
            after.in_bounds(x, y) && in_zone(safe_pos.x as int, safe_pos.y as int, x, y)
                ==> !(#[trigger] after.at(x, y)).is_mine,
        ({
            let zone = before.count(
                |x: int, y: int| in_zone(safe_pos.x as int, safe_pos.y as int, x, y),
            );
            let outside = before.width * before.height - zone;
            after.mine_amt == if mines as int <= outside {
                mines as int
            } else {
                outside
            }
        }),
{
    let (sx, sy) = (safe_pos.x as int, safe_pos.y as int);
    let w = before.width as int;
    let h = before.height as int;
    let zone = |x: int, y: int| in_zone(sx, sy, x, y);
    let all = |x: int, y: int| true;
    let ef = before.eligible_fn(sx, sy);
    assert forall|x: int, y: int| 0 <= x < w && 0 <= y < h implies (#[trigger] all(x, y) == (zone(
        x,
        y,
    ) || ef(x, y)) && !(zone(x, y) && ef(x, y))) by {
        assert(before.in_bounds(x, y));
        assert(before.at(x, y) == before.at(x, y));
    }
    lemma_grid_split(all, zone, ef, w, h);
    lemma_grid_all(all, w, h);
    assert forall|x: int, y: int| 0 <= x < w && 0 <= y < h implies !#[trigger] before.mine_fn()(
        x,
        y,
    ) by {
        assert(before.in_bounds(x, y));
    }
    lemma_grid_none(before.mine_fn(), w, h);
    assert forall|x: int, y: int|
        after.in_bounds(x, y) && in_zone(sx, sy, x, y) implies !(#[trigger] after.at(x, y)).is_mine by {
        assert(before.at(x, y) == before.at(x, y));
    }
}

/// Opening a closed cell: on a mine it returns true and leaves the closed count as it
/// was; elsewhere it returns false, opens the cell itself and every cell that the
/// cascade reaches, and lowers the closed count by exactly the number of cells opened.
pub proof fn law_open_closed_cell(before: Minefield, after: Minefield, pos: XY<usize>, r: bool)
    requires
        before.in_bounds(pos.x as int, pos.y as int),
        before.at(pos.x as int, pos.y as int).state == CellState::Closed,
        before.open_post(after, pos, r),
    ensures
        r == before.at(pos.x as int, pos.y as int).is_mine,
        r ==> after.closed_cells == before.closed_cells,
        !r ==> before.reveals(pos.x as int, pos.y as int, pos.x as int, pos.y as int),
        !r ==> forall|x: int, y: int|
            before.in_bounds(x, y) && #[trigger] before.reveals(pos.x as int, pos.y as int, x, y)
                ==> before.at(x, y).state == CellState::Closed && after.at(x, y).state is Open,
        !r ==> after.closed_cells + before.count(before.reveal_fn(pos.x as int, pos.y as int))
            == before.closed_cells,
{
    let (px, py) = (pos.x as int, pos.y as int);
    if !before.at(px, py).is_mine {
        lemma_open_reveals(before, after, pos, r);
    }
}

proof fn lemma_open_reveals(before: Minefield, after: Minefield, pos: XY<usize>, r: bool)
    requires
        before.in_bounds(pos.x as int, pos.y as int),
        before.at(pos.x as int, pos.y as int).state == CellState::Closed,
        !before.at(pos.x as int, pos.y as int).is_mine,
        before.open_post(after, pos, r),
    ensures
        before.reveals(pos.x as int, pos.y as int, pos.x as int, pos.y as int),
        forall|x: int, y: int|
            before.in_bounds(x, y) && #[trigger] before.reveals(pos.x as int, pos.y as int, x, y)
                ==> before.at(x, y).state == CellState::Closed && after.at(x, y).state is Open,
{
    let (px, py) = (pos.x as int, pos.y as int);
    assert(before.cascade_path(seq![(px, py)]));
    assert forall|x: int, y: int|
        before.in_bounds(x, y) && #[trigger] before.reveals(px, py, x, y) implies before.at(
        x,
        y,
    ).state == CellState::Closed && after.at(x, y).state is Open by {
        let p = choose|p: Seq<(int, int)>|
            #[trigger] before.cascade_path(p) && p[0] == (px, py) && p.last() == (x, y);
        assert(p[p.len() - 1] == (x, y));
        assert(after.at(x, y) == before.opened(x, y));
    }
}

/// Opening a flagged or open cell changes nothing and returns false.
pub proof fn law_open_not_closed(before: Minefield, after: Minefield, pos: XY<usize>, r: bool)
    requires
        before.in_bounds(pos.x as int, pos.y as int),
        before.at(pos.x as int, pos.y as int).state != CellState::Closed,
        before.open_post(after, pos, r),
    ensures
        after == before,
        !r,
{
}

spec fn dist(a: int, b: int) -> int {
    if a < b {
        b - a
    } else {
        a - b
    }
}

/// A path of adjacent cells from `(ax, ay)` to `(tx, ty)` on a field with no mine and
/// every cell closed.
proof fn walk(f: Minefield, ax: int, ay: int, tx: int, ty: int) -> (p: Seq<(int, int)>)
    requires
        f.in_bounds(ax, ay),
        f.in_bounds(tx, ty),
        forall|x: int, y: int|
            f.in_bounds(x, y) ==> (#[trigger] f.at(x, y)).state == CellState::Closed && !f.at(
                x,
                y,
            ).is_mine,
    ensures
        f.cascade_path(p),
        p[0] == (ax, ay),
        p.last() == (tx, ty),
    decreases dist(ax, tx) + dist(ay, ty),
{
    if ax == tx && ay == ty {
        seq![(ax, ay)]
    } else {
        let nx = if ax < tx { ax + 1 } else if ax > tx { ax - 1 } else { ax };
        let ny = if ay < ty { ay + 1 } else if ay > ty { ay - 1 } else { ay };
        let rest = walk(f, nx, ny, tx, ty);
        let p = seq![(ax, ay)] + rest;
        assert(f.at(ax, ay) == f.at(ax, ay));
        assert(f.neighbour_mines(ax, ay) == 0);
        assert forall|i: int| 0 <= i < p.len() implies f.in_bounds(#[trigger] p[i].0, p[i].1)
            && f.at(p[i].0, p[i].1).state == CellState::Closed by {
            if i > 0 {
                assert(p[i] == rest[i - 1]);
            }
        }
        assert forall|i: int| 0 <= i < p.len() - 1 implies adjacent(
            #[trigger] p[i].0,
            p[i].1,
            p[i + 1].0,
            p[i + 1].1,
        ) && !f.at(p[i].0, p[i].1).is_mine && f.neighbour_mines(p[i].0, p[i].1) == 0 by {
            if i > 0 {
                assert(p[i] == rest[i - 1]);
                assert(p[i + 1] == rest[i]);
                assert(f.in_bounds(rest[i - 1].0, rest[i - 1].1));
                assert(f.at(p[i].0, p[i].1) == f.at(p[i].0, p[i].1));
            } else {
                assert(p[1] == rest[0]);
            }
        }
        assert(p.last() == rest.last());
        p
    }
}

/// On a field with no mine and every cell closed, one `open` anywhere opens every cell
/// with a zero, and the field is then clear.
pub proof fn law_open_mine_free(before: Minefield, after: Minefield, pos: XY<usize>, r: bool)
    requires
        before.wf(),
        after.wf(),
        before.in_bounds(pos.x as int, pos.y as int),
        forall|x: int, y: int|
            before.in_bounds(x, y) ==> (#[trigger] before.at(x, y)).state == CellState::Closed
                && !before.at(x, y).is_mine,
        before.open_post(after, pos, r),
    ensures
        !r,
        forall|x: int, y: int|
            after.in_bounds(x, y) ==> #[trigger] after.at(x, y) == (Cell {
                state: CellState::Open(0),
                is_mine: false,
            }),
        after.closed_cells == after.mine_amt,
{
    let (px, py) = (pos.x as int, pos.y as int);
    let w = after.width as int;
    let h = after.height as int;
    assert forall|x: int, y: int| after.in_bounds(x, y) implies #[trigger] after.at(x, y) == (Cell {
        state: CellState::Open(0),
        is_mine: false,
    }) by {
        let p = walk(before, px, py, x, y);
        assert(before.reveals(px, py, x, y));
        assert(before.at(x, y) == before.at(x, y));
        assert(before.neighbour_mines(x, y) == 0);
    }
    assert forall|x: int, y: int| 0 <= x < w && 0 <= y < h implies !#[trigger] after.mine_fn()(
        x,
        y,
    ) && !after.closed_fn()(x, y) by {
        assert(after.in_bounds(x, y));
        assert(after.at(x, y) == after.at(x, y));
    }
    lemma_grid_none(after.mine_fn(), w, h);
    lemma_grid_none(after.closed_fn(), w, h);
}

/// Toggling a flag twice restores the field, and toggling an open cell changes nothing.
pub proof fn law_toggle_twice(a: Minefield, b: Minefield, c: Minefield, pos: XY<usize>)
    requires
        a.wf(),
        a.in_bounds(pos.x as int, pos.y as int),
        a.toggle_post(b, pos),
        b.toggle_post(c, pos),
    ensures
        c.cells@ == a.cells@,
        c.mine_amt == a.mine_amt,
        c.closed_cells == a.closed_cells,
        a.at(pos.x as int, pos.y as int).state is Open ==> b.cells@ == a.cells@,
{
    let i = pos.y * a.width + pos.x;
    crate::minefield::lemma_index(a.width as int, a.height as int, pos.x as int, pos.y as int);
    assert(b.at(pos.x as int, pos.y as int) == b.cells@[i]);
    assert(c.cells@ =~= a.cells@);
    if a.at(pos.x as int, pos.y as int).state is Open {
        assert(b.cells@ =~= a.cells@);
    }
}

} // verus!
