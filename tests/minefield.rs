use minesweeper::cell::{Cell, CellState, XY};
use minesweeper::minefield::Minefield;
use rand::rngs::StdRng;
use rand::SeedableRng;

fn at(f: &Minefield, x: usize, y: usize) -> Cell {
    f.cells[y * f.width + x]
}

fn mine_count(f: &Minefield) -> usize {
    f.cells.iter().filter(|c| c.is_mine).count()
}

fn place_mine(f: &mut Minefield, x: usize, y: usize) {
    let w = f.width;
    f.cells[y * w + x].is_mine = true;
    f.mine_amt += 1;
}

#[test]
fn new_field_is_closed_and_not_clear() {
    let f = Minefield::new(XY { x: 4, y: 3 });
    assert_eq!(f.cells.len(), 12);
    assert_eq!(f.mine_amt, 0);
    assert_eq!(f.closed_cells, 12);
    for c in &f.cells {
        assert_eq!(c.state, CellState::Closed);
        assert!(!c.is_mine);
    }
    assert!(!f.is_clear());
}

#[test]
fn new_cell_is_closed_without_mine() {
    let c = Cell::new();
    assert_eq!(c.state, CellState::Closed);
    assert!(!c.is_mine);
}

#[test]
fn dimensions_are_width_and_height() {
    let f = Minefield::new(XY { x: 7, y: 2 });
    assert_eq!(f.dimensions(), XY { x: 7, y: 2 });
}

#[test]
fn neighbours_of_centre_in_order() {
    let f = Minefield::new(XY { x: 3, y: 3 });
    let n = f.neighbour_positions(XY { x: 1, y: 1 });
    let expected = vec![
        XY { x: 0, y: 1 },
        XY { x: 2, y: 1 },
        XY { x: 1, y: 0 },
        XY { x: 1, y: 2 },
        XY { x: 0, y: 0 },
        XY { x: 2, y: 0 },
        XY { x: 0, y: 2 },
        XY { x: 2, y: 2 },
    ];
    assert_eq!(n, expected);
}

#[test]
fn neighbours_of_corner_and_edge() {
    let f = Minefield::new(XY { x: 4, y: 3 });
    let corner = f.neighbour_positions(XY { x: 3, y: 2 });
    assert_eq!(
        corner,
        vec![XY { x: 2, y: 2 }, XY { x: 3, y: 1 }, XY { x: 2, y: 1 }]
    );
    let edge = f.neighbour_positions(XY { x: 1, y: 0 });
    assert_eq!(edge.len(), 5);
    let single = Minefield::new(XY { x: 1, y: 1 });
    assert!(single.neighbour_positions(XY { x: 0, y: 0 }).is_empty());
}

#[test]
fn populate_keeps_safe_zone_free() {
    let mut f = Minefield::new(XY { x: 8, y: 8 });
    let mut rng = StdRng::seed_from_u64(7);
    f.populate(&mut rng, 10, XY { x: 3, y: 3 });
    for y in 2..=4 {
        for x in 2..=4 {
            assert!(!at(&f, x, y).is_mine);
        }
    }
    assert_eq!(mine_count(&f), 10);
    assert_eq!(f.mine_amt, 10);
    assert_eq!(f.closed_cells, 64);
    for c in &f.cells {
        assert_eq!(c.state, CellState::Closed);
    }
}

#[test]
fn populate_many_seeds_places_exact_count() {
    for seed in 0..20u64 {
        let mut f = Minefield::new(XY { x: 5, y: 4 });
        let mut rng = StdRng::seed_from_u64(seed);
        f.populate(&mut rng, 6, XY { x: 0, y: 3 });
        assert_eq!(mine_count(&f), 6);
        assert!(!at(&f, 0, 3).is_mine);
        assert!(!at(&f, 1, 3).is_mine);
        assert!(!at(&f, 0, 2).is_mine);
        assert!(!at(&f, 1, 2).is_mine);
    }
}

#[test]
fn populate_saturates_outside_safe_zone() {
    let mut f = Minefield::new(XY { x: 4, y: 4 });
    let mut rng = StdRng::seed_from_u64(1);
    f.populate(&mut rng, 20, XY { x: 0, y: 0 });
    assert_eq!(mine_count(&f), 12);
    assert_eq!(f.mine_amt, 12);
    assert!(!at(&f, 0, 0).is_mine);
    assert!(!at(&f, 1, 0).is_mine);
    assert!(!at(&f, 0, 1).is_mine);
    assert!(!at(&f, 1, 1).is_mine);
}

#[test]
fn populate_on_tiny_grid_places_nothing() {
    let mut f = Minefield::new(XY { x: 3, y: 3 });
    let mut rng = StdRng::seed_from_u64(3);
    f.populate(&mut rng, 5, XY { x: 1, y: 1 });
    assert_eq!(mine_count(&f), 0);
    assert_eq!(f.mine_amt, 0);
    let opened = f.open(XY { x: 1, y: 1 });
    assert!(!opened);
    assert!(f.is_clear());
}

#[test]
fn populate_then_open_first_click_is_safe() {
    let mut f = Minefield::new(XY { x: 8, y: 8 });
    let mut rng = StdRng::seed_from_u64(42);
    f.populate(&mut rng, 10, XY { x: 5, y: 2 });
    let opened = f.open(XY { x: 5, y: 2 });
    assert!(!opened);
    assert_eq!(at(&f, 5, 2).state, CellState::Open(0));
    let open_cells = f.cells.iter().filter(|c| matches!(c.state, CellState::Open(_))).count();
    assert_eq!(f.closed_cells as usize, 64 - open_cells);
}

#[test]
fn open_centre_of_empty_three_by_three() {
    let mut f = Minefield::new(XY { x: 3, y: 3 });
    let opened = f.open(XY { x: 1, y: 1 });
    assert!(!opened);
    for c in &f.cells {
        assert_eq!(c.state, CellState::Open(0));
    }
    assert_eq!(f.closed_cells, 0);
    assert!(f.is_clear());
}

#[test]
fn open_stops_at_numbers_next_to_mine() {
    let mut f = Minefield::new(XY { x: 3, y: 3 });
    place_mine(&mut f, 0, 0);
    let opened = f.open(XY { x: 2, y: 2 });
    assert!(!opened);
    assert_eq!(at(&f, 0, 0).state, CellState::Closed);
    assert_eq!(at(&f, 1, 0).state, CellState::Open(1));
    assert_eq!(at(&f, 0, 1).state, CellState::Open(1));
    assert_eq!(at(&f, 1, 1).state, CellState::Open(1));
    assert_eq!(at(&f, 2, 0).state, CellState::Open(0));
    assert_eq!(at(&f, 0, 2).state, CellState::Open(0));
    assert_eq!(at(&f, 2, 2).state, CellState::Open(0));
    assert_eq!(f.closed_cells, 1);
    assert!(f.is_clear());
}

#[test]
fn open_mine_at_centre_of_five_by_five() {
    let mut f = Minefield::new(XY { x: 5, y: 5 });
    place_mine(&mut f, 2, 2);
    let before = f.closed_cells;
    let opened = f.open(XY { x: 2, y: 2 });
    assert!(opened);
    assert_eq!(f.closed_cells, before);
    assert_eq!(f.closed_cells, 25);
    assert_eq!(at(&f, 2, 2).state, CellState::Open(0));
    assert!(at(&f, 2, 2).is_mine);
    assert!(!f.is_clear());
}

#[test]
fn open_numbered_cell_opens_only_itself() {
    let mut f = Minefield::new(XY { x: 4, y: 4 });
    place_mine(&mut f, 0, 0);
    place_mine(&mut f, 2, 0);
    let opened = f.open(XY { x: 1, y: 1 });
    assert!(!opened);
    assert_eq!(at(&f, 1, 1).state, CellState::Open(2));
    assert_eq!(f.closed_cells, 15);
    let open_cells = f.cells.iter().filter(|c| matches!(c.state, CellState::Open(_))).count();
    assert_eq!(open_cells, 1);
}

#[test]
fn open_counts_cascade_exactly() {
    let mut f = Minefield::new(XY { x: 4, y: 1 });
    place_mine(&mut f, 3, 0);
    let opened = f.open(XY { x: 0, y: 0 });
    assert!(!opened);
    assert_eq!(at(&f, 0, 0).state, CellState::Open(0));
    assert_eq!(at(&f, 1, 0).state, CellState::Open(0));
    assert_eq!(at(&f, 2, 0).state, CellState::Open(1));
    assert_eq!(at(&f, 3, 0).state, CellState::Closed);
    assert_eq!(f.closed_cells, 1);
    assert!(f.is_clear());
}

#[test]
fn open_flagged_or_open_cell_is_no_op() {
    let mut f = Minefield::new(XY { x: 3, y: 3 });
    place_mine(&mut f, 0, 0);
    f.toggle_flag(XY { x: 2, y: 2 });
    let opened = f.open(XY { x: 2, y: 2 });
    assert!(!opened);
    assert_eq!(at(&f, 2, 2).state, CellState::Flagged);
    assert_eq!(f.closed_cells, 9);

    let opened = f.open(XY { x: 1, y: 1 });
    assert!(!opened);
    let snapshot = f.cells.clone();
    let closed = f.closed_cells;
    let opened = f.open(XY { x: 1, y: 1 });
    assert!(!opened);
    assert_eq!(f.cells, snapshot);
    assert_eq!(f.closed_cells, closed);
}

#[test]
fn flagged_cell_blocks_cascade() {
    let mut f = Minefield::new(XY { x: 3, y: 1 });
    f.toggle_flag(XY { x: 1, y: 0 });
    let opened = f.open(XY { x: 0, y: 0 });
    assert!(!opened);
    assert_eq!(at(&f, 0, 0).state, CellState::Open(0));
    assert_eq!(at(&f, 1, 0).state, CellState::Flagged);
    assert_eq!(at(&f, 2, 0).state, CellState::Closed);
    assert_eq!(f.closed_cells, 2);
    assert!(!f.is_clear());
}

#[test]
fn open_anywhere_on_mine_free_square_clears_it() {
    for n in 1..6usize {
        for start in 0..n * n {
            let mut f = Minefield::new(XY { x: n as u16, y: n as u16 });
            let opened = f.open(XY { x: start % n, y: start / n });
            assert!(!opened);
            for c in &f.cells {
                assert_eq!(c.state, CellState::Open(0));
            }
            assert!(f.is_clear());
        }
    }
}

#[test]
fn toggle_flag_twice_restores() {
    let mut f = Minefield::new(XY { x: 2, y: 2 });
    f.toggle_flag(XY { x: 1, y: 0 });
    assert_eq!(at(&f, 1, 0).state, CellState::Flagged);
    f.toggle_flag(XY { x: 1, y: 0 });
    assert_eq!(at(&f, 1, 0).state, CellState::Closed);
    assert_eq!(f.closed_cells, 4);
}

#[test]
fn toggle_flag_on_open_cell_is_no_op() {
    let mut f = Minefield::new(XY { x: 3, y: 3 });
    place_mine(&mut f, 2, 2);
    let opened = f.open(XY { x: 0, y: 0 });
    assert!(!opened);
    assert_eq!(at(&f, 1, 1).state, CellState::Open(1));
    f.toggle_flag(XY { x: 1, y: 1 });
    assert_eq!(at(&f, 1, 1).state, CellState::Open(1));
    f.toggle_flag(XY { x: 0, y: 0 });
    assert_eq!(at(&f, 0, 0).state, CellState::Open(0));
}

#[test]
fn largest_field_builds() {
    let f = Minefield::new(XY { x: 255, y: 257 });
    assert_eq!(f.closed_cells, 65535);
    assert_eq!(f.cells.len(), 65535);
}
