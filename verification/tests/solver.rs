use aquarium::{Board, CellState};

const I: CellState = CellState::Invalid;
const F: CellState = CellState::Flooded;
const E: CellState = CellState::Empty;

fn six_by_six() -> Board {
    let partitions: Vec<isize> = vec![
        0, 0, 0, 0, 1, 1, //
        0, 0, 2, 2, 1, 1, //
        3, 0, 3, 2, 4, 5, //
        3, 3, 3, 2, 4, 5, //
        3, 3, 3, 3, 3, 5, //
        3, 3, 5, 5, 5, 5,
    ];
    Board::new(6, 6, partitions, vec![2, 4, 3, 2, 1, 4], vec![1, 2, 1, 3, 5, 4]).unwrap()
}

fn six_by_six_solution() -> Vec<CellState> {
    vec![
        I, I, I, I, F, F, //
        F, F, I, I, F, F, //
        I, F, I, F, F, I, //
        I, I, I, F, F, I, //
        I, I, I, I, I, F, //
        I, I, F, F, F, F,
    ]
}

fn states(board: &Board) -> Vec<CellState> {
    let mut out = Vec::new();
    for iy in 0..board.height() {
        for ix in 0..board.width() {
            out.push(board.cell_state_at(ix, iy));
        }
    }
    out
}

fn partitions(board: &Board) -> Vec<isize> {
    let mut out = Vec::new();
    for iy in 0..board.height() {
        for ix in 0..board.width() {
            out.push(board.partition_at(ix, iy));
        }
    }
    out
}

/// The physics of water, checked cell against cell.
fn settled(board: &Board) -> bool {
    let w = board.width();
    let h = board.height();
    for y1 in 0..h {
        for x1 in 0..w {
            for y2 in 0..h {
                for x2 in 0..w {
                    if board.partition_at(x1, y1) != board.partition_at(x2, y2) {
                        continue;
                    }
                    let a = board.cell_state_at(x1, y1);
                    let b = board.cell_state_at(x2, y2);
                    if y1 == y2 && a != b {
                        return false;
                    }
                    if a == I && y2 <= y1 && b != I {
                        return false;
                    }
                    if a == F && y2 >= y1 && b != F {
                        return false;
                    }
                }
            }
        }
    }
    true
}

#[test]
fn six_by_six_is_solved_by_propagation() {
    let mut board = six_by_six();
    assert!(!board.is_solved());
    let rounds = board.solve();
    assert_eq!(states(&board), six_by_six_solution());
    assert!(board.is_solved());
    assert!(rounds >= 1);
    assert!(rounds <= 36);
}

#[test]
fn solving_keeps_the_puzzle() {
    let mut board = six_by_six();
    let before = partitions(&board);
    board.solve();
    assert_eq!(partitions(&board), before);
    assert_eq!(board.width(), 6);
    assert_eq!(board.height(), 6);
    for i in 0..6 {
        assert_eq!(board.row_hint(i), [2, 4, 3, 2, 1, 4][i]);
        assert_eq!(board.col_hint(i), [1, 2, 1, 3, 5, 4][i]);
    }
}

#[test]
fn every_round_keeps_the_physics_and_never_undoes_a_decision() {
    let mut board = six_by_six();
    assert!(settled(&board));
    let mut rounds = 0;
    loop {
        let before = states(&board);
        let updated = board.round();
        let after = states(&board);
        assert!(settled(&board));
        for (old, new) in before.iter().zip(after.iter()) {
            assert!(old == new || *old == E);
        }
        assert_eq!(updated, before != after);
        if !updated {
            break;
        }
        rounds += 1;
        assert!(rounds <= 36);
    }
    assert_eq!(states(&board), six_by_six_solution());
}

#[test]
fn a_round_after_quiescence_changes_nothing() {
    let mut board = six_by_six();
    board.solve();
    let before = states(&board);
    assert!(!board.round());
    assert_eq!(states(&board), before);
    assert_eq!(board.solve(), 0);
    assert_eq!(states(&board), before);
}

#[test]
fn round_count_is_the_number_of_rounds_that_changed_the_board() {
    let mut by_hand = six_by_six();
    let mut counted = 0;
    while by_hand.round() {
        counted += 1;
    }
    let mut board = six_by_six();
    assert_eq!(board.solve(), counted);
    assert_eq!(states(&board), states(&by_hand));
}

#[test]
fn quiescence_is_reached_within_as_many_rounds_as_cells() {
    let mut board = Board::new(2, 1, vec![0, 1], vec![1], vec![1, 0]).unwrap();
    let rounds = board.solve();
    assert!(rounds <= 2);
    assert_eq!(states(&board), vec![F, I]);
    assert!(board.is_solved());
}

#[test]
fn an_ambiguous_puzzle_stays_undecided() {
    // Two single-cell regions side by side, one of them flooded: the hints
    // of the columns would tell which, but both say "at most one".
    let mut board = Board::new(2, 2, vec![0, 1, 2, 3], vec![1, 1], vec![1, 1]).unwrap();
    let rounds = board.solve();
    assert_eq!(rounds, 0);
    assert_eq!(states(&board), vec![E, E, E, E]);
    assert!(!board.is_solved());
}

#[test]
fn unsatisfiable_hints_end_unsolved_without_a_panic() {
    // One region over the whole row, but the row asks for one cell of two.
    let mut board = Board::new(2, 1, vec![7, 7], vec![1], vec![1, 0]).unwrap();
    board.solve();
    assert!(!board.is_solved());
    assert!(settled(&board));
}

#[test]
fn row_rule_invalidates_a_region_too_wide_for_the_row() {
    // Region 0 takes two cells of the row, the hint allows one.
    let mut board = Board::new(3, 1, vec![0, 0, 1], vec![1], vec![0, 0, 1]).unwrap();
    assert!(board.apply_row_invalidate(0, 0));
    assert_eq!(states(&board), vec![I, I, E]);
    assert!(!board.apply_row_invalidate(1, 0));
    assert!(!board.apply_row_invalidate(2, 0));
    assert_eq!(states(&board), vec![I, I, E]);
}

#[test]
fn row_rule_floods_a_region_the_row_cannot_do_without() {
    // The hint asks for two cells; without region 0 only one is left.
    let mut board = Board::new(3, 1, vec![0, 0, 1], vec![2], vec![1, 1, 0]).unwrap();
    assert!(!board.apply_row_flood(2, 0));
    assert!(board.apply_row_flood(1, 0));
    assert_eq!(states(&board), vec![F, F, E]);
    assert!(!board.apply_row_flood(0, 0));
}

#[test]
fn column_rule_invalidates_the_cells_in_excess_from_the_top() {
    // One region down a column of four, the column asks for one cell:
    // three are in excess, the third from the top is row 2.
    let mut board = Board::new(1, 4, vec![5, 5, 5, 5], vec![0, 0, 0, 1], vec![1]).unwrap();
    assert!(board.apply_col_invalidate(0, 5));
    assert_eq!(states(&board), vec![I, I, I, E]);
    assert!(!board.apply_col_invalidate(0, 5));
    assert!(!board.apply_col_invalidate(0, 6));
}

#[test]
fn column_rule_floods_the_cells_required_from_the_bottom() {
    // Regions 1 (rows 0 and 2) and 2 (rows 1 and 3) share a column that asks
    // for three cells: each must supply at least one, its lowest.
    let mut board =
        Board::new(1, 4, vec![1, 2, 1, 2], vec![0, 1, 1, 1], vec![3]).unwrap();
    assert!(board.apply_col_flood(0, 1));
    assert_eq!(states(&board), vec![E, E, F, E]);
    assert!(board.apply_col_flood(0, 2));
    assert_eq!(states(&board), vec![E, E, F, F]);
    assert!(!board.apply_col_flood(0, 1));
    assert!(!board.apply_col_flood(0, 3));
}

#[test]
fn column_rules_act_once_per_region_at_its_first_row() {
    let mut board = Board::new(1, 4, vec![5, 5, 5, 5], vec![0, 0, 0, 1], vec![1]).unwrap();
    assert!(board.is_first_in_col(0, 0));
    assert!(!board.is_first_in_col(0, 1));
    assert!(!board.apply_col_rules(0, 1));
    assert_eq!(states(&board), vec![E, E, E, E]);
    assert!(board.apply_col_rules(0, 0));
    assert_eq!(states(&board), vec![I, I, I, F]);
}

#[test]
fn column_rule_skips_a_cell_that_is_decided() {
    // The column holds more flooded cells than its hint allows; the slot
    // the rule computes is decided already, so nothing happens.
    let mut board = Board::new(1, 2, vec![0, 0], vec![1, 1], vec![0]).unwrap();
    board.set_cell_at(0, 0, F);
    board.set_cell_at(0, 1, F);
    assert!(!board.apply_col_invalidate(0, 0));
    assert!(!board.apply_col_flood(0, 0));
    assert_eq!(states(&board), vec![F, F]);
}

#[test]
fn passes_report_whether_they_changed_the_board() {
    let mut board = Board::new(3, 1, vec![0, 0, 1], vec![1], vec![0, 0, 1]).unwrap();
    assert!(board.row_invalidate_pass());
    assert_eq!(states(&board), vec![I, I, E]);
    assert!(!board.row_invalidate_pass());
    assert!(board.row_flood_pass());
    assert_eq!(states(&board), vec![I, I, F]);
    assert!(!board.row_flood_pass());
    assert!(!board.col_pass());
    assert!(board.is_solved());
}

fn copy(board: &Board) -> Board {
    let rows = (0..board.height()).map(|iy| board.row_hint(iy)).collect();
    let cols = (0..board.width()).map(|ix| board.col_hint(ix)).collect();
    Board::with_cells(board.width(), board.height(), board.cells().clone(), rows, cols).unwrap()
}

/// Whether any of the four rules would still fire somewhere.
fn some_rule_fires(board: &Board) -> bool {
    for iy in 0..board.height() {
        for ix in 0..board.width() {
            let mut probe = copy(board);
            if probe.apply_row_invalidate(ix, iy) {
                return true;
            }
            let mut probe = copy(board);
            if probe.apply_row_flood(ix, iy) {
                return true;
            }
            let region = board.partition_at(ix, iy);
            let mut probe = copy(board);
            if probe.apply_col_invalidate(ix, region) {
                return true;
            }
            let mut probe = copy(board);
            if probe.apply_col_flood(ix, region) {
                return true;
            }
        }
    }
    false
}

#[test]
fn after_solving_no_rule_fires() {
    let mut board = six_by_six();
    assert!(some_rule_fires(&board));
    board.solve();
    assert!(!some_rule_fires(&board));

    let mut board = Board::new(2, 2, vec![0, 1, 2, 3], vec![1, 1], vec![1, 1]).unwrap();
    assert!(!some_rule_fires(&board));
    assert!(!board.round());

    let mut board = Board::new(2, 1, vec![7, 7], vec![1], vec![1, 0]).unwrap();
    board.solve();
    assert!(!some_rule_fires(&board));
}

#[test]
fn a_rule_that_fires_decides_cells_and_changes_no_other() {
    let mut board = six_by_six();
    let before = states(&board);
    // Column 4 asks for five of its six cells.  Region 1 holds rows 0 and 1
    // of it, so one of the two is needed, the lower: row 1 of region 1 is
    // flooded, which is two cells wide.
    assert!(board.apply_col_flood(4, 1));
    let after = states(&board);
    let mut decided = Vec::new();
    for i in 0..36 {
        if before[i] != after[i] {
            assert_eq!(before[i], E);
            assert_eq!(after[i], F);
            assert_eq!(partitions(&board)[i], 1);
            decided.push(i);
        }
    }
    assert_eq!(decided, vec![10, 11]);
}

#[test]
fn seeded_board_is_solved_from_where_it_stands() {
    let mut board = six_by_six();
    board.flood(4, 0);
    board.invalidate(0, 0);
    let seeded = states(&board);
    board.solve();
    let solved = states(&board);
    for i in 0..36 {
        assert!(seeded[i] == solved[i] || seeded[i] == E);
    }
    assert_eq!(solved, six_by_six_solution());
}
