//! A sample puzzle: six rows by six columns, six regions.
//!
//! ```text
//!      1  2  1  3  5  4
//!    +------------------
//!  2 | 0  0  0  0  1  1
//!  4 | 0  0  2  2  1  1
//!  3 | 3  0  3  2  4  5
//!  2 | 3  3  3  2  4  5
//!  1 | 3  3  3  3  3  5
//!  4 | 3  3  5  5  5  5
//! ```
use vstd::prelude::*;
use crate::board::Board;
use crate::cell::{Cell, CellState};
use crate::grid::Grid;

verus! {

impl Grid {
    /// The regions of the sample puzzle, row by row.
    pub open spec fn b0_partitions() -> Seq<isize> {
        seq![
            0, 0, 0, 0, 1, 1,
            0, 0, 2, 2, 1, 1,
            3, 0, 3, 2, 4, 5,
            3, 3, 3, 2, 4, 5,
            3, 3, 3, 3, 3, 5,
            3, 3, 5, 5, 5, 5,
        ]
    }

    /// The row hints of the sample puzzle.
    pub open spec fn b0_row_hints() -> Seq<isize> {
        seq![2, 4, 3, 2, 1, 4]
    }

    /// The column hints of the sample puzzle.
    pub open spec fn b0_col_hints() -> Seq<isize> {
        seq![1, 2, 1, 3, 5, 4]
    }

    /// The states of the solved sample puzzle, row by row.
    pub open spec fn b0_solution() -> Seq<CellState> {
        seq![
            CellState::Invalid, CellState::Invalid, CellState::Invalid,
            CellState::Invalid, CellState::Flooded, CellState::Flooded,
            CellState::Flooded, CellState::Flooded, CellState::Invalid,
            CellState::Invalid, CellState::Flooded, CellState::Flooded,
            CellState::Invalid, CellState::Flooded, CellState::Invalid,
            CellState::Flooded, CellState::Flooded, CellState::Invalid,
            CellState::Invalid, CellState::Invalid, CellState::Invalid,
            CellState::Flooded, CellState::Flooded, CellState::Invalid,
            CellState::Invalid, CellState::Invalid, CellState::Invalid,
            CellState::Invalid, CellState::Invalid, CellState::Flooded,
            CellState::Invalid, CellState::Invalid, CellState::Flooded,
            CellState::Flooded, CellState::Flooded, CellState::Flooded,
        ]
    }

    /// The sample puzzle, undecided.
    pub open spec fn b0() -> Grid {
        Grid::fresh(6, 6, Grid::b0_partitions(), Grid::b0_row_hints(), Grid::b0_col_hints())
    }

    /// The sample puzzle, solved.
    pub open spec fn b0_solved() -> Grid {
        Grid {
            width: 6,
            height: 6,
            cells: Seq::new(
                36,
                |i: int| Cell { state: Grid::b0_solution()[i], partition: Grid::b0_partitions()[i] },
            ),
            row_hints: Grid::b0_row_hints(),
            col_hints: Grid::b0_col_hints(),
        }
    }
}

/// The sample puzzle is a well-formed grid, undecided and solved.
pub proof fn lemma_b0_wf()
    ensures
        Grid::b0().wf(),
        Grid::b0_solved().wf(),
{
    let rows = Grid::b0_row_hints();
    let cols = Grid::b0_col_hints();
    assert(rows.len() == 6 && cols.len() == 6);
    assert(Grid::b0_partitions().len() == 36);
    assert(Grid::b0().cells.len() == 36);
    assert(Grid::b0().row_hints == rows);
    assert(Grid::b0().col_hints == cols);
    assert(Grid::b0().width == 6 && Grid::b0().height == 6);
    assert forall|y: int| 0 <= y < 6 implies 0 <= #[trigger] rows[y] by {
        assert(rows[0] == 2 && rows[1] == 4 && rows[2] == 3 && rows[3] == 2 && rows[4] == 1
            && rows[5] == 4);
    }
    assert forall|x: int| 0 <= x < 6 implies 0 <= #[trigger] cols[x] by {
        assert(cols[0] == 1 && cols[1] == 2 && cols[2] == 1 && cols[3] == 3 && cols[4] == 5
            && cols[5] == 4);
    }
}

/// The regions of the sample puzzle, row by row.
fn b0_partitions() -> (partitions: Vec<isize>)
    ensures
        partitions@ == Grid::b0_partitions(),
{
    let partitions: Vec<isize> = vec![
        0, 0, 0, 0, 1, 1,
        0, 0, 2, 2, 1, 1,
        3, 0, 3, 2, 4, 5,
        3, 3, 3, 2, 4, 5,
        3, 3, 3, 3, 3, 5,
        3, 3, 5, 5, 5, 5,
    ];
    assert(partitions@ =~= Grid::b0_partitions());
    partitions
}

/// The row hints of the sample puzzle.
fn b0_row_hints() -> (hints: Vec<isize>)
    ensures
        hints@ == Grid::b0_row_hints(),
{
    let hints: Vec<isize> = vec![2, 4, 3, 2, 1, 4];
    assert(hints@ =~= Grid::b0_row_hints());
    hints
}

/// The column hints of the sample puzzle.
fn b0_col_hints() -> (hints: Vec<isize>)
    ensures
        hints@ == Grid::b0_col_hints(),
{
    let hints: Vec<isize> = vec![1, 2, 1, 3, 5, 4];
    assert(hints@ =~= Grid::b0_col_hints());
    hints
}

/// The states of the solved sample puzzle, row by row.
fn b0_solution() -> (states: Vec<CellState>)
    ensures
        states@ == Grid::b0_solution(),
{
    let states: Vec<CellState> = vec![
        CellState::Invalid, CellState::Invalid, CellState::Invalid,
        CellState::Invalid, CellState::Flooded, CellState::Flooded,
        CellState::Flooded, CellState::Flooded, CellState::Invalid,
        CellState::Invalid, CellState::Flooded, CellState::Flooded,
        CellState::Invalid, CellState::Flooded, CellState::Invalid,
        CellState::Flooded, CellState::Flooded, CellState::Invalid,
        CellState::Invalid, CellState::Invalid, CellState::Invalid,
        CellState::Flooded, CellState::Flooded, CellState::Invalid,
        CellState::Invalid, CellState::Invalid, CellState::Invalid,
        CellState::Invalid, CellState::Invalid, CellState::Flooded,
        CellState::Invalid, CellState::Invalid, CellState::Flooded,
        CellState::Flooded, CellState::Flooded, CellState::Flooded,
    ];
    assert(states@ =~= Grid::b0_solution());
    states
}

impl Board {
    /// The sample puzzle, undecided.
    pub fn make_b0() -> (board: Board)
        ensures
            board.wf(),
            board@ == Grid::b0(),
            board@.settled(),
    {
        let board = Board::new(6, 6, b0_partitions(), b0_row_hints(), b0_col_hints());
        proof {
            lemma_b0_wf();
        }
        board.unwrap()
    }

    /// The sample puzzle, solved.
    pub fn make_b0_solved() -> (board: Board)
        ensures
            board.wf(),
            board@ == Grid::b0_solved(),
    {
        let partitions = b0_partitions();
        let states = b0_solution();
        let mut cells: Vec<Cell> = Vec::new();
        let mut i: usize = 0;
        while i < 36
            invariant
                i <= 36,
                partitions@ == Grid::b0_partitions(),
                states@ == Grid::b0_solution(),
                cells@.len() == i,
                forall|k: int|
                    0 <= k < i ==> cells@[k] == (Cell {
                        state: Grid::b0_solution()[k],
                        partition: Grid::b0_partitions()[k],
                    }),
            decreases 36 - i,
        {
            cells.push(Cell { state: states[i], partition: partitions[i] });
            i += 1;
        }
        assert(cells@ =~= Grid::b0_solved().cells);
        let board = Board::with_cells(6, 6, cells, b0_row_hints(), b0_col_hints());
        proof {
            lemma_b0_wf();
        }
        board.unwrap()
    }
}

} // verus!
