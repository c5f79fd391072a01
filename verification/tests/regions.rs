use aquarium::regions::derive_partitions;
use aquarium::{Board, CellState};

#[test]
fn two_by_two_without_separators_is_one_region() {
    let ids = derive_partitions(2, 2, &vec![false, false], &vec![false, false]).unwrap();
    assert_eq!(ids, vec![0, 0, 0, 0]);
}

#[test]
fn two_by_two_with_a_wall_down_the_middle_is_two_regions() {
    let ids = derive_partitions(2, 2, &vec![true, true], &vec![false, false]).unwrap();
    assert_eq!(ids, vec![0, 1, 0, 1]);
}

#[test]
fn two_by_two_with_a_floor_across_is_two_regions() {
    let ids = derive_partitions(2, 2, &vec![false, false], &vec![true, true]).unwrap();
    assert_eq!(ids, vec![0, 0, 1, 1]);
}

#[test]
fn a_wall_that_can_be_walked_around_does_not_separate() {
    let ids = derive_partitions(2, 2, &vec![true, false], &vec![false, false]).unwrap();
    assert_eq!(ids, vec![0, 0, 0, 0]);
}

#[test]
fn every_separator_set_gives_one_region_per_cell() {
    let ids = derive_partitions(3, 2, &vec![true; 4], &vec![true; 3]).unwrap();
    assert_eq!(ids, vec![0, 1, 2, 3, 4, 5]);
}

#[test]
fn a_region_may_reach_round_another() {
    // 0 1 0
    // 0 0 0
    let walls = vec![true, true, false, false];
    let floors = vec![false, true, false];
    let ids = derive_partitions(3, 2, &walls, &floors).unwrap();
    assert_eq!(ids, vec![0, 1, 0, 0, 0, 0]);
}

#[test]
fn regions_are_numbered_by_their_first_cells() {
    // 0 0 1
    // 2 0 1
    // 2 2 2
    let walls = vec![false, true, true, true, false, false];
    let floors = vec![true, false, false, false, true, true];
    let ids = derive_partitions(3, 3, &walls, &floors).unwrap();
    assert_eq!(ids, vec![0, 0, 1, 2, 0, 1, 2, 2, 2]);
}

#[test]
fn a_long_winding_region_is_followed_to_its_end() {
    // A corridor that runs right along row 0, down, left along row 1, down,
    // and right along row 2.
    let walls = vec![false; 12];
    let floors = vec![
        true, true, true, true, false, //
        false, true, true, true, true,
    ];
    let ids = derive_partitions(5, 3, &walls, &floors).unwrap();
    assert_eq!(ids, vec![0; 15]);
}

#[test]
fn the_sample_puzzle_from_its_separators() {
    let partitions: Vec<isize> = vec![
        0, 0, 0, 0, 1, 1, //
        0, 0, 2, 2, 1, 1, //
        3, 0, 3, 2, 4, 5, //
        3, 3, 3, 2, 4, 5, //
        3, 3, 3, 3, 3, 5, //
        3, 3, 5, 5, 5, 5,
    ];
    let mut walls = Vec::new();
    for y in 0..6 {
        for x in 0..5 {
            walls.push(partitions[y * 6 + x] != partitions[y * 6 + x + 1]);
        }
    }
    let mut floors = Vec::new();
    for y in 0..5 {
        for x in 0..6 {
            floors.push(partitions[y * 6 + x] != partitions[(y + 1) * 6 + x]);
        }
    }
    let ids = derive_partitions(6, 6, &walls, &floors).unwrap();
    assert_eq!(ids, partitions);

    let mut board = Board::from_separators(
        6,
        6,
        &walls,
        &floors,
        vec![2, 4, 3, 2, 1, 4],
        vec![1, 2, 1, 3, 5, 4],
    )
    .unwrap();
    for y in 0..6 {
        for x in 0..6 {
            assert_eq!(board.partition_at(x, y), partitions[y * 6 + x]);
            assert_eq!(board.cell_state_at(x, y), CellState::Empty);
        }
    }
    for y in 0..6 {
        for x in 0..5 {
            assert_eq!(board.wall_at(x, y), walls[y * 5 + x]);
        }
    }
    for y in 0..5 {
        for x in 0..6 {
            assert_eq!(board.floor_at(x, y), floors[y * 6 + x]);
        }
    }
    board.solve();
    assert!(board.is_solved());
}

#[test]
fn separators_that_do_not_fit_are_rejected() {
    assert!(derive_partitions(2, 2, &vec![false], &vec![false, false]).is_none());
    assert!(derive_partitions(2, 2, &vec![false, false], &vec![false]).is_none());
    assert!(derive_partitions(2, 2, &vec![false; 3], &vec![false, false]).is_none());
    assert!(derive_partitions(usize::MAX, 2, &vec![], &vec![]).is_none());
    assert!(derive_partitions(0, 0, &vec![false], &vec![]).is_none());
}

#[test]
fn grids_without_cells_have_no_regions() {
    assert_eq!(derive_partitions(0, 0, &vec![], &vec![]).unwrap(), Vec::<isize>::new());
    assert_eq!(derive_partitions(0, 3, &vec![], &vec![]).unwrap(), Vec::<isize>::new());
    assert_eq!(derive_partitions(3, 0, &vec![], &vec![]).unwrap(), Vec::<isize>::new());
}

#[test]
fn single_rows_and_columns() {
    assert_eq!(
        derive_partitions(4, 1, &vec![false, true, false], &vec![]).unwrap(),
        vec![0, 0, 1, 1]
    );
    assert_eq!(
        derive_partitions(1, 4, &vec![], &vec![true, false, true]).unwrap(),
        vec![0, 1, 1, 2]
    );
    assert_eq!(derive_partitions(1, 1, &vec![], &vec![]).unwrap(), vec![0]);
}

#[test]
fn from_separators_checks_the_hints_too() {
    let walls = vec![true, true];
    let floors = vec![false, false];
    assert!(Board::from_separators(2, 2, &walls, &floors, vec![1, 1], vec![2, 0]).is_some());
    assert!(Board::from_separators(2, 2, &walls, &floors, vec![1], vec![2, 0]).is_none());
    assert!(Board::from_separators(2, 2, &walls, &floors, vec![1, 1], vec![2, -1]).is_none());
    assert!(Board::from_separators(2, 2, &vec![true], &floors, vec![1, 1], vec![2, 0]).is_none());
    let mut board =
        Board::from_separators(2, 2, &walls, &floors, vec![1, 1], vec![2, 0]).unwrap();
    assert_eq!(board.partition_at(0, 1), 0);
    assert_eq!(board.partition_at(1, 1), 1);
    board.solve();
    assert!(board.is_solved());
    assert_eq!(board.cell_state_at(0, 0), CellState::Flooded);
    assert_eq!(board.cell_state_at(1, 0), CellState::Invalid);
}
