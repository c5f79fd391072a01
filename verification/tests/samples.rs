use aquarium::{Board, CellState};

fn states(board: &Board) -> Vec<CellState> {
    board.cells().iter().map(|cell| cell.state).collect()
}

fn partitions(board: &Board) -> Vec<isize> {
    board.cells().iter().map(|cell| cell.partition).collect()
}

#[test]
fn the_sample_is_six_by_six_and_undecided() {
    let board = Board::make_b0();
    assert_eq!(board.width(), 6);
    assert_eq!(board.height(), 6);
    assert_eq!(
        partitions(&board),
        vec![
            0, 0, 0, 0, 1, 1, //
            0, 0, 2, 2, 1, 1, //
            3, 0, 3, 2, 4, 5, //
            3, 3, 3, 2, 4, 5, //
            3, 3, 3, 3, 3, 5, //
            3, 3, 5, 5, 5, 5,
        ]
    );
    assert!(states(&board).iter().all(|s| *s == CellState::Empty));
    let rows: Vec<isize> = (0..6).map(|iy| board.row_hint(iy)).collect();
    let cols: Vec<isize> = (0..6).map(|ix| board.col_hint(ix)).collect();
    assert_eq!(rows, vec![2, 4, 3, 2, 1, 4]);
    assert_eq!(cols, vec![1, 2, 1, 3, 5, 4]);
    assert!(!board.is_solved());
}

#[test]
fn the_solved_sample_is_solved() {
    let board = Board::make_b0_solved();
    assert!(board.is_solved());
    assert_eq!(partitions(&board), partitions(&Board::make_b0()));
    assert!(states(&board).iter().all(|s| *s != CellState::Empty));
}

#[test]
fn one_changed_cell_unsolves_the_sample() {
    for iy in 0..6 {
        for ix in 0..6 {
            let mut board = Board::make_b0_solved();
            let flipped = match board.cell_state_at(ix, iy) {
                CellState::Flooded => CellState::Invalid,
                _ => CellState::Flooded,
            };
            board.set_cell_at(ix, iy, flipped);
            assert!(!board.is_solved());
        }
    }
}

#[test]
fn solving_the_sample_gives_the_solved_sample() {
    let mut board = Board::make_b0();
    board.solve();
    assert_eq!(states(&board), states(&Board::make_b0_solved()));
    assert!(board.is_solved());
}

#[test]
fn solving_the_solved_sample_changes_nothing() {
    let mut board = Board::make_b0_solved();
    assert_eq!(board.solve(), 0);
    assert_eq!(states(&board), states(&Board::make_b0_solved()));
}
