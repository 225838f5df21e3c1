use gol::cell_matrix::CellMatrix;
use gol::cell_matrix::GridError;
use gol::CellId;
use gol::Position;

fn cid(n: u64) -> CellId {
    CellId { id: n }
}

fn pos(x: i32, y: i32) -> Position {
    Position { x, y }
}

#[test]
fn corner_cell_counts() {
    // A single live cell in the corner of a 2x2 grid: contributions reach
    // exactly the three in-bounds neighbors, nothing wraps around.
    let cells = vec![(cid(7), pos(0, 0))];
    let grid = CellMatrix::new(2, 2, &cells).unwrap();
    assert_eq!(grid.live_cells(), vec![(cid(7), 0)]);
    assert_eq!(grid.dead_cells(), vec![(pos(1, 0), 1), (pos(0, 1), 1), (pos(1, 1), 1)]);
}

#[test]
fn corner_cell_counts_large_grid() {
    let cells = vec![(cid(1), pos(0, 0))];
    let grid = CellMatrix::new(6, 6, &cells).unwrap();
    assert_eq!(grid.live_cells(), vec![(cid(1), 0)]);
    assert_eq!(grid.dead_cells(), vec![(pos(1, 0), 1), (pos(0, 1), 1), (pos(1, 1), 1)]);
}

#[test]
fn center_cell_counts() {
    // A cell away from every edge reaches all eight neighbors.
    let cells = vec![(cid(3), pos(1, 1))];
    let grid = CellMatrix::new(3, 3, &cells).unwrap();
    assert_eq!(grid.live_cells(), vec![(cid(3), 0)]);
    let dead = grid.dead_cells();
    assert_eq!(dead.len(), 8);
    for (_, count) in &dead {
        assert_eq!(*count, 1);
    }
}

#[test]
fn enumeration_sizes_sum_to_area() {
    // Blinker on 5x3: 3 live, 9 dead (everything in columns 1..=4), and
    // the x = 0 column of 3 empties: the three classes partition the grid.
    let cells = vec![(cid(1), pos(2, 1)), (cid(2), pos(3, 1)), (cid(3), pos(4, 1))];
    let grid = CellMatrix::new(5, 3, &cells).unwrap();
    let live = grid.live_cells();
    let dead = grid.dead_cells();
    assert_eq!(live.len(), 3);
    assert_eq!(dead.len(), 9);
    assert_eq!(live.len() + dead.len() + 3, (grid.width() * grid.height()) as usize);
    // Disjointness: no dead entry sits at a live position.
    for (p, _) in &dead {
        assert!(!cells.iter().any(|(_, q)| q == p));
    }
}

#[test]
fn construction_is_order_independent() {
    let a = vec![
        (cid(1), pos(1, 1)),
        (cid(2), pos(2, 1)),
        (cid(3), pos(1, 2)),
        (cid(4), pos(2, 2)),
    ];
    let mut b = a.clone();
    b.reverse();
    b.swap(0, 2);
    let ga = CellMatrix::new(4, 4, &a).unwrap();
    let gb = CellMatrix::new(4, 4, &b).unwrap();
    assert_eq!(ga.live_cells(), gb.live_cells());
    assert_eq!(ga.dead_cells(), gb.dead_cells());
}

#[test]
fn duplicate_position_rejected() {
    let cells = vec![(cid(1), pos(1, 1)), (cid(2), pos(1, 1))];
    assert!(matches!(CellMatrix::new(4, 4, &cells), Err(GridError::DuplicatePosition)));
}

#[test]
fn out_of_bounds_rejected() {
    let east = vec![(cid(1), pos(4, 0))];
    assert!(matches!(CellMatrix::new(4, 4, &east), Err(GridError::OutOfBoundsPosition)));
    let negative = vec![(cid(1), pos(-1, 2))];
    assert!(matches!(CellMatrix::new(4, 4, &negative), Err(GridError::OutOfBoundsPosition)));
}

#[test]
fn first_violation_wins() {
    // The scan reports the violation met first in input order.
    let oob_first = vec![(cid(1), pos(1, 1)), (cid(2), pos(9, 9)), (cid(3), pos(1, 1))];
    assert!(matches!(CellMatrix::new(4, 4, &oob_first), Err(GridError::OutOfBoundsPosition)));
    let dup_first = vec![(cid(1), pos(1, 1)), (cid(3), pos(1, 1)), (cid(2), pos(9, 9))];
    assert!(matches!(CellMatrix::new(4, 4, &dup_first), Err(GridError::DuplicatePosition)));
}

#[test]
fn neighbor_counts_in_a_block() {
    // Every cell of a 2x2 block has exactly 3 live neighbors.
    let cells = vec![
        (cid(1), pos(1, 1)),
        (cid(2), pos(1, 2)),
        (cid(3), pos(2, 1)),
        (cid(4), pos(2, 2)),
    ];
    let grid = CellMatrix::new(4, 4, &cells).unwrap();
    let live = grid.live_cells();
    assert_eq!(live.len(), 4);
    for (_, count) in &live {
        assert_eq!(*count, 3);
    }
    // And no surrounding dead cell has more than 2.
    for (_, count) in &grid.dead_cells() {
        assert!(*count <= 2);
    }
}

#[test]
fn empty_grid_has_no_enumerations() {
    let cells: Vec<(CellId, Position)> = Vec::new();
    let grid = CellMatrix::new(20, 20, &cells).unwrap();
    assert!(grid.live_cells().is_empty());
    assert!(grid.dead_cells().is_empty());
    assert_eq!(grid.width(), 20);
    assert_eq!(grid.height(), 20);
}

#[test]
fn default_position_is_origin() {
    assert_eq!(Position::default(), pos(0, 0));
}
