use aquarium::{Board, Cell, CellState, FloorState, WallState};

fn u_shape() -> Board {
    // 0 1 0
    // 0 0 0
    Board::new(3, 2, vec![0, 1, 0, 0, 0, 0], vec![2, 3], vec![2, 1, 2]).unwrap()
}

fn states(board: &Board) -> Vec<CellState> {
    let mut out = Vec::new();
    for iy in 0..board.height() {
        for ix in 0..board.width() {
            out.push(board.cell_state_at(ix, iy));
        }
    }
    out
}

#[test]
fn make_gives_a_blank_board() {
    let board = Board::make(3, 2);
    assert_eq!(board.width(), 3);
    assert_eq!(board.height(), 2);
    for iy in 0..2 {
        assert_eq!(board.row_hint(iy), 0);
        for ix in 0..3 {
            assert_eq!(
                board.cell_at(ix, iy),
                Cell { state: CellState::Empty, partition: -1 }
            );
        }
    }
    for ix in 0..3 {
        assert_eq!(board.col_hint(ix), 0);
    }
    assert!(board.is_solved());
}

#[test]
fn make_accepts_an_empty_board() {
    let board = Board::make(0, 0);
    assert_eq!(board.width(), 0);
    assert_eq!(board.height(), 0);
    assert!(board.is_solved());
}

#[test]
fn new_lays_the_regions_out_row_by_row() {
    let board = u_shape();
    assert_eq!(board.partition_at(0, 0), 0);
    assert_eq!(board.partition_at(1, 0), 1);
    assert_eq!(board.partition_at(2, 0), 0);
    assert_eq!(board.partition_at(1, 1), 0);
    assert_eq!(board.cell_state_at(1, 0), CellState::Empty);
    assert_eq!(board.row_hint(1), 3);
    assert_eq!(board.col_hint(1), 1);
}

#[test]
fn new_rejects_parts_that_do_not_fit() {
    assert!(Board::new(3, 2, vec![0; 5], vec![0, 0], vec![0, 0, 0]).is_none());
    assert!(Board::new(3, 2, vec![0; 7], vec![0, 0], vec![0, 0, 0]).is_none());
    assert!(Board::new(3, 2, vec![0; 6], vec![0], vec![0, 0, 0]).is_none());
    assert!(Board::new(3, 2, vec![0; 6], vec![0, 0], vec![0, 0]).is_none());
    assert!(Board::new(3, 2, vec![0; 6], vec![0, -1], vec![0, 0, 0]).is_none());
    assert!(Board::new(3, 2, vec![0; 6], vec![0, 0], vec![0, 0, -2]).is_none());
    assert!(Board::new(usize::MAX, 2, vec![], vec![0, 0], vec![]).is_none());
    assert!(Board::new(3, 2, vec![0; 6], vec![0, 0], vec![0, 0, 0]).is_some());
    assert!(Board::new(0, 0, vec![], vec![], vec![]).is_some());
}

#[test]
fn set_cell_at_changes_one_cell_only() {
    let mut board = u_shape();
    board.set_cell_at(2, 0, CellState::Flooded);
    assert_eq!(
        states(&board),
        vec![
            CellState::Empty,
            CellState::Empty,
            CellState::Flooded,
            CellState::Empty,
            CellState::Empty,
            CellState::Empty
        ]
    );
    assert_eq!(board.partition_at(2, 0), 0);
    board.set_cell_at(2, 0, CellState::Invalid);
    assert_eq!(board.cell_state_at(2, 0), CellState::Invalid);
    board.set_cell_at(2, 0, CellState::Empty);
    assert_eq!(board.cell_state_at(2, 0), CellState::Empty);
}

#[test]
fn walls_and_floors_lie_between_regions() {
    let board = u_shape();
    assert!(board.wall_at(0, 0));
    assert!(board.wall_at(1, 0));
    assert!(!board.wall_at(0, 1));
    assert!(!board.wall_at(1, 1));
    assert!(!board.floor_at(0, 0));
    assert!(board.floor_at(1, 0));
    assert!(!board.floor_at(2, 0));
}

#[test]
fn flood_fills_the_region_from_the_row_down() {
    let mut board = u_shape();
    board.flood(0, 1);
    assert_eq!(
        states(&board),
        vec![
            CellState::Empty,
            CellState::Empty,
            CellState::Empty,
            CellState::Flooded,
            CellState::Flooded,
            CellState::Flooded
        ]
    );
    board.flood(2, 0);
    assert_eq!(
        states(&board),
        vec![
            CellState::Flooded,
            CellState::Empty,
            CellState::Flooded,
            CellState::Flooded,
            CellState::Flooded,
            CellState::Flooded
        ]
    );
}

#[test]
fn invalidate_rules_the_region_out_from_the_row_up() {
    let mut board = u_shape();
    board.invalidate(0, 0);
    assert_eq!(
        states(&board),
        vec![
            CellState::Invalid,
            CellState::Empty,
            CellState::Invalid,
            CellState::Empty,
            CellState::Empty,
            CellState::Empty
        ]
    );
    board.invalidate(1, 1);
    assert_eq!(
        states(&board),
        vec![
            CellState::Invalid,
            CellState::Empty,
            CellState::Invalid,
            CellState::Invalid,
            CellState::Invalid,
            CellState::Invalid
        ]
    );
}

#[test]
fn tallies_count_cells_by_state_and_region() {
    let mut board = u_shape();
    board.flood(0, 1);
    board.invalidate(1, 0);
    assert_eq!(board.row_count(0, CellState::Empty), 2);
    assert_eq!(board.row_count(0, CellState::Invalid), 1);
    assert_eq!(board.row_count(1, CellState::Flooded), 3);
    assert_eq!(board.row_partition_size(0, 0), 2);
    assert_eq!(board.row_partition_size(0, 1), 1);
    assert_eq!(board.row_partition_size(1, 1), 0);
    assert_eq!(board.col_count(1, CellState::Flooded), 1);
    assert_eq!(board.col_count(1, CellState::Invalid), 1);
    assert_eq!(board.col_count(0, CellState::Empty), 1);
    assert_eq!(board.col_partition_count(0, 0, CellState::Empty), 1);
    assert_eq!(board.col_partition_count(0, 0, CellState::Flooded), 1);
    assert_eq!(board.col_partition_count(1, 1, CellState::Invalid), 1);
    assert_eq!(board.col_partition_count(1, 0, CellState::Invalid), 0);
    assert_eq!(board.col_rows(0, 0), vec![0, 1]);
    assert_eq!(board.col_rows(1, 0), vec![1]);
    assert_eq!(board.col_rows(1, 1), vec![0]);
    assert_eq!(board.col_rows(1, 9), Vec::<usize>::new());
}

#[test]
fn remaining_is_hint_less_flooded() {
    let mut board = u_shape();
    assert_eq!(board.row_remaining(0), 2);
    assert_eq!(board.row_remaining(1), 3);
    assert_eq!(board.col_remaining(1), 1);
    board.flood(1, 0);
    assert_eq!(board.row_remaining(0), 1);
    assert_eq!(board.col_remaining(1), 0);
    board.flood(0, 0);
    assert_eq!(board.row_remaining(0), -1);
    assert_eq!(board.row_remaining(1), 0);
    assert_eq!(board.col_remaining(1), -1);
    assert_eq!(board.col_remaining(0), 0);
}

#[test]
fn is_solved_compares_flooded_counts_with_hints() {
    let mut board = u_shape();
    assert!(!board.is_solved());
    board.set_cell_at(0, 0, CellState::Flooded);
    board.set_cell_at(2, 0, CellState::Flooded);
    board.set_cell_at(1, 0, CellState::Invalid);
    board.set_cell_at(0, 1, CellState::Flooded);
    board.set_cell_at(1, 1, CellState::Flooded);
    board.set_cell_at(2, 1, CellState::Flooded);
    assert!(board.is_solved());
    board.set_cell_at(1, 1, CellState::Invalid);
    assert!(!board.is_solved());
    board.set_cell_at(1, 1, CellState::Flooded);
    board.set_cell_at(1, 0, CellState::Flooded);
    assert!(!board.is_solved());
}

#[test]
fn glyphs_of_states_and_separators() {
    assert_eq!(CellState::Empty.rep(), ' ');
    assert_eq!(CellState::Flooded.rep(), '*');
    assert_eq!(CellState::Invalid.rep(), 'X');
    assert_eq!(WallState::Open.rep(), '|');
    assert_eq!(WallState::Wall.rep(), '#');
    assert_eq!(FloorState::Open.rep(), '-');
    assert_eq!(FloorState::Bott.rep(), '#');
    assert!(WallState::from_bool(true) == WallState::Wall);
    assert!(WallState::from_bool(false) == WallState::Open);
    assert!(FloorState::from_bool(true) == FloorState::Bott);
    assert!(FloorState::from_bool(false) == FloorState::Open);
    assert_eq!(WallState::rep_bool(true), '#');
    assert_eq!(WallState::rep_bool(false), '|');
    assert_eq!(FloorState::rep_bool(true), '#');
    assert_eq!(FloorState::rep_bool(false), '-');
    assert_eq!(Cell::rep_width(), 3);
}

#[test]
fn col_remainders_lists_every_column() {
    let mut board = u_shape();
    assert_eq!(board.col_remainders(), vec![2, 1, 2]);
    board.flood(1, 0);
    assert_eq!(board.col_remainders(), vec![2, 0, 2]);
    board.flood(0, 0);
    assert_eq!(board.col_remainders(), vec![0, -1, 0]);
    for ix in 0..3 {
        assert_eq!(board.col_remainders()[ix], board.col_remaining(ix));
    }
}

#[test]
fn col_remainders_of_a_single_column_and_of_no_rows() {
    let mut tall = Board::new(1, 3, vec![0, 1, 2], vec![1, 0, 1], vec![2]).unwrap();
    tall.set_cell_at(0, 2, CellState::Flooded);
    assert_eq!(tall.col_remainders(), vec![1]);
    let flat = Board::new(2, 0, vec![], vec![], vec![3, 4]).unwrap();
    assert_eq!(flat.col_remainders(), vec![3, 4]);
    let none = Board::new(0, 2, vec![], vec![0, 0], vec![]).unwrap();
    assert_eq!(none.col_remainders(), Vec::<isize>::new());
}

#[test]
fn col_remainders_of_the_sample() {
    let board = Board::make_b0_solved();
    assert_eq!(board.col_remainders(), vec![0, 0, 0, 0, 0, 0]);
    let mut board = Board::make_b0();
    assert_eq!(board.col_remainders(), vec![1, 2, 1, 3, 5, 4]);
    board.flood(4, 0);
    assert_eq!(board.col_remainders(), vec![1, 2, 1, 3, 3, 2]);
}

#[test]
fn row_partition_states_gives_each_region_of_the_row() {
    let mut board = u_shape();
    board.invalidate(1, 0);
    board.flood(0, 1);
    let top = board.row_partition_states(0);
    assert_eq!(top.len(), 2);
    assert_eq!(top[&0], CellState::Empty);
    assert_eq!(top[&1], CellState::Invalid);
    let bottom = board.row_partition_states(1);
    assert_eq!(bottom.len(), 1);
    assert_eq!(bottom[&0], CellState::Flooded);
}

#[test]
fn row_partition_states_takes_the_leftmost_cell_of_a_region() {
    let mut board = u_shape();
    board.set_cell_at(2, 0, CellState::Flooded);
    let top = board.row_partition_states(0);
    assert_eq!(top[&0], CellState::Empty);
    board.set_cell_at(0, 0, CellState::Invalid);
    let top = board.row_partition_states(0);
    assert_eq!(top[&0], CellState::Invalid);
}

#[test]
fn cells_are_listed_row_by_row() {
    let board = u_shape();
    let cells = board.cells();
    assert_eq!(cells.len(), 6);
    assert_eq!(cells[1], Cell { state: CellState::Empty, partition: 1 });
    assert_eq!(cells[4], Cell { state: CellState::Empty, partition: 0 });
}

#[test]
fn with_cells_takes_states_as_given() {
    let cells = vec![
        Cell { state: CellState::Flooded, partition: 4 },
        Cell { state: CellState::Invalid, partition: 5 },
    ];
    let board = Board::with_cells(2, 1, cells.clone(), vec![1], vec![1, 0]).unwrap();
    assert_eq!(board.cells(), &cells);
    assert!(board.is_solved());
    assert!(Board::with_cells(2, 2, cells.clone(), vec![1, 0], vec![1, 0]).is_none());
    assert!(Board::with_cells(2, 1, cells.clone(), vec![-1], vec![1, 0]).is_none());
    assert!(Board::with_cells(2, 1, cells, vec![1], vec![1]).is_none());
}

#[test]
fn cell_text_shows_state_and_region() {
    let cell = Cell { state: CellState::Flooded, partition: 7 };
    assert_eq!(cell.rep(false), "*  ");
    assert_eq!(cell.rep(true), "* 7");
    let cell = Cell { state: CellState::Invalid, partition: 12 };
    assert_eq!(cell.rep(false), "X  ");
    assert_eq!(cell.rep(true), "X12");
    let cell = Cell { state: CellState::Empty, partition: -1 };
    assert_eq!(cell.rep(false), "   ");
    assert_eq!(cell.rep(true), " -1");
    let cell = Cell { state: CellState::Empty, partition: 0 };
    assert_eq!(cell.rep(true), "  0");
    let cell = Cell { state: CellState::Empty, partition: 345 };
    assert_eq!(cell.rep(true), " 345");
    let cell = Cell { state: CellState::Empty, partition: -20 };
    assert_eq!(cell.rep(true), " -20");
    assert_eq!(Cell { state: CellState::Flooded, partition: 3 }.rep(true).chars().count(), Cell::rep_width());
    assert_eq!(Cell { state: CellState::Flooded, partition: 3 }.rep(false).chars().count(), Cell::rep_width());
}
