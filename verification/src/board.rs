//! The board: a grid of cells with its hints, its queries, and the two
//! primitives that change it, `flood` and `invalidate`.
use vstd::prelude::*;
use crate::cell::{Cell, CellState};
use crate::grid::Grid;

verus! {

/// An Aquarium board.
///
/// The cells are kept in one array, row by row from the top.  What the board
/// is to its contracts is its view, a [`Grid`].
pub struct Board {
    width: usize,
    height: usize,
    cells: Vec<Cell>,
    row_hints: Vec<isize>,
    col_hints: Vec<isize>,
}

impl View for Board {
    type V = Grid;

    closed spec fn view(&self) -> Grid {
        Grid {
            width: self.width as nat,
            height: self.height as nat,
            cells: self.cells@,
            row_hints: self.row_hints@,
            col_hints: self.col_hints@,
        }
    }
}

impl Grid {
    /// The undecided grid of the given dimensions, regions and hints: the
    /// cell at place `i` lies in region `partitions[i]`.
    pub open spec fn fresh(
        width: nat,
        height: nat,
        partitions: Seq<isize>,
        row_hints: Seq<isize>,
        col_hints: Seq<isize>,
    ) -> Grid {
        Grid {
            width,
            height,
            cells: Seq::new(
                partitions.len(),
                |i: int| Cell { state: CellState::Empty, partition: partitions[i] },
            ),
            row_hints,
            col_hints,
        }
    }

    /// The undecided grid of the given dimensions in which no region has
    /// been assigned yet (every cell lies in region -1) and every hint is 0.
    pub open spec fn blank(width: nat, height: nat) -> Grid {
        Grid::fresh(
            width,
            height,
            Seq::new(width * height, |i: int| -1isize),
            Seq::new(height, |i: int| 0isize),
            Seq::new(width, |i: int| 0isize),
        )
    }
}

/// A vector of `n` copies of `value`.
fn repeated<T: Copy>(value: T, n: usize) -> (v: Vec<T>)
    ensures
        v@ == Seq::new(n as nat, |i: int| value),
{
    let mut v: Vec<T> = Vec::new();
    let mut i: usize = 0;
    while i < n
        invariant
            i <= n,
            v@.len() == i,
            forall|k: int| 0 <= k < i ==> v@[k] == value,
        decreases n - i,
    {
        v.push(value);
        i += 1;
    }
    assert(v@ =~= Seq::new(n as nat, |i: int| value));
    v
}

/// Whether no entry of `hints` is negative.
fn all_non_negative(hints: &Vec<isize>) -> (ok: bool)
    ensures
        ok <==> forall|k: int| 0 <= k < hints@.len() ==> 0 <= #[trigger] hints@[k],
{
    let mut i: usize = 0;
    while i < hints.len()
        invariant
            i <= hints@.len(),
            forall|k: int| 0 <= k < i ==> 0 <= #[trigger] hints@[k],
        decreases hints@.len() - i,
    {
        if hints[i] < 0 {
            return false;
        }
        i += 1;
    }
    true
}

impl Board {
    /// The board is well formed: its view is.  Every board that this library
    /// hands out is well formed, and every method keeps it so.
    pub open spec fn wf(&self) -> bool {
        self@.wf()
    }

    /// An undecided board of the given dimensions with no regions assigned
    /// (every cell lies in region -1) and every hint 0.
    pub fn make(width: usize, height: usize) -> (board: Board)
        requires
            width * height <= usize::MAX,
            width <= isize::MAX,
            height <= isize::MAX,
        ensures
            board.wf(),
            board@ == Grid::blank(width as nat, height as nat),
            board@.settled(),
    {
        let blank = Cell { state: CellState::Empty, partition: -1 };
        let board = Board {
            width,
            height,
            cells: repeated(blank, width * height),
            row_hints: repeated(0isize, height),
            col_hints: repeated(0isize, width),
        };
        assert(board@.cells =~= Grid::blank(width as nat, height as nat).cells);
        proof {
            board@.lemma_undecided_is_settled();
        }
        board
    }

    /// The undecided board of a puzzle: `partitions` gives the region of
    /// each cell, row by row from the top, and the hints give the number of
    /// flooded cells that each row and each column must reach.
    ///
    /// Returns `None` where the parts do not make a well-formed board:
    /// where `partitions` does not hold `width * height` entries, a list of
    /// hints has not one entry per row or column, or a hint is negative.
    pub fn new(
        width: usize,
        height: usize,
        partitions: Vec<isize>,
        row_hints: Vec<isize>,
        col_hints: Vec<isize>,
    ) -> (board: Option<Board>)
        ensures
            board.is_some() <==> Grid::fresh(
                width as nat,
                height as nat,
                partitions@,
                row_hints@,
                col_hints@,
            ).wf(),
            board matches Some(b) ==> b.wf() && b@.settled() && b@ == Grid::fresh(
                width as nat,
                height as nat,
                partitions@,
                row_hints@,
                col_hints@,
            ),
    {
        let ghost grid = Grid::fresh(
            width as nat,
            height as nat,
            partitions@,
            row_hints@,
            col_hints@,
        );
        let mut cells: Vec<Cell> = Vec::new();
        let mut i: usize = 0;
        while i < partitions.len()
            invariant
                i <= partitions@.len(),
                cells@.len() == i,
                forall|k: int|
                    0 <= k < i ==> cells@[k] == (Cell {
                        state: CellState::Empty,
                        partition: partitions@[k],
                    }),
            decreases partitions@.len() - i,
        {
            cells.push(Cell { state: CellState::Empty, partition: partitions[i] });
            i += 1;
        }
        assert(cells@ =~= grid.cells);
        proof {
            grid.lemma_undecided_is_settled();
        }
        Board::with_cells(width, height, cells, row_hints, col_hints)
    }

    /// A board in given states: `cells` gives each cell, row by row from
    /// the top, and the hints give the number of flooded cells that each row
    /// and each column must reach.
    ///
    /// Returns `None` where the parts do not make a well-formed board:
    /// where `cells` does not hold `width * height` entries, a list of hints
    /// has not one entry per row or column, or a hint is negative.
    pub fn with_cells(
        width: usize,
        height: usize,
        cells: Vec<Cell>,
        row_hints: Vec<isize>,
        col_hints: Vec<isize>,
    ) -> (board: Option<Board>)
        ensures
            board.is_some() <==> (Grid {
                width: width as nat,
                height: height as nat,
                cells: cells@,
                row_hints: row_hints@,
                col_hints: col_hints@,
            }).wf(),
            board matches Some(b) ==> b.wf() && b@ == (Grid {
                width: width as nat,
                height: height as nat,
                cells: cells@,
                row_hints: row_hints@,
                col_hints: col_hints@,
            }),
    {
        assert(cells@.len() == cells.len());
        if width > isize::MAX as usize || height > isize::MAX as usize {
            return None;
        }
        match width.checked_mul(height) {
            None => {
                return None;
            },
            Some(n) => {
                if cells.len() != n {
                    return None;
                }
            },
        }
        if row_hints.len() != height || col_hints.len() != width {
            return None;
        }
        if !all_non_negative(&row_hints) || !all_non_negative(&col_hints) {
            return None;
        }
        Some(Board { width, height, cells, row_hints, col_hints })
    }

    /// The cells, row by row from the top, each row from the left.
    pub fn cells(&self) -> (cells: &Vec<Cell>)
        ensures
            cells@ == self@.cells,
    {
        &self.cells
    }

    /// The number of columns.
    pub fn width(&self) -> (w: usize)
        ensures
            w == self@.width,
    {
        self.width
    }

    /// The number of rows.
    pub fn height(&self) -> (h: usize)
        ensures
            h == self@.height,
    {
        self.height
    }

    /// The number of cells of row `iy` that must end up flooded.
    pub fn row_hint(&self, iy: usize) -> (hint: isize)
        requires
            self.wf(),
            iy < self@.height,
        ensures
            hint == self@.row_hints[iy as int],
    {
        self.row_hints[iy]
    }

    /// The number of cells of column `ix` that must end up flooded.
    pub fn col_hint(&self, ix: usize) -> (hint: isize)
        requires
            self.wf(),
            ix < self@.width,
        ensures
            hint == self@.col_hints[ix as int],
    {
        self.col_hints[ix]
    }

    /// The place in the cell array of the cell in column `ix` of row `iy`.
    fn offset(&self, ix: usize, iy: usize) -> (i: usize)
        requires
            self.wf(),
            self@.contains(ix as int, iy as int),
        ensures
            i == self@.index(ix as int, iy as int),
            i < self.cells@.len(),
    {
        proof {
            self@.lemma_index(ix as int, iy as int);
            assert(self@.index(ix as int, iy as int) == iy * self.width + ix);
            assert(0 <= iy * self.width) by (nonlinear_arith);
            assert(self.cells@.len() == self.width * self.height);
            assert(self.cells@.len() == self.cells.len());
        }
        iy * self.width + ix
    }

    /// The cell in column `ix` of row `iy`.
    pub fn cell_at(&self, ix: usize, iy: usize) -> (cell: Cell)
        requires
            self.wf(),
            self@.contains(ix as int, iy as int),
        ensures
            cell == self@.cell(ix as int, iy as int),
    {
        let i = self.offset(ix, iy);
        self.cells[i]
    }

    /// The state of the cell in column `ix` of row `iy`.
    pub fn cell_state_at(&self, ix: usize, iy: usize) -> (state: CellState)
        requires
            self.wf(),
            self@.contains(ix as int, iy as int),
        ensures
            state == self@.state(ix as int, iy as int),
    {
        let i = self.offset(ix, iy);
        self.cells[i].state
    }

    /// The region of the cell in column `ix` of row `iy`.
    pub fn partition_at(&self, ix: usize, iy: usize) -> (partition: isize)
        requires
            self.wf(),
            self@.contains(ix as int, iy as int),
        ensures
            partition == self@.partition(ix as int, iy as int),
    {
        let i = self.offset(ix, iy);
        self.cells[i].partition
    }

    /// Puts the one cell in column `ix` of row `iy` into `state`, whatever
    /// it was before.  No other cell changes: this is for setting a board
    /// up, not for solving it.
    pub fn set_cell_at(&mut self, ix: usize, iy: usize, state: CellState)
        requires
            old(self).wf(),
            old(self)@.contains(ix as int, iy as int),
        ensures
            final(self).wf(),
            final(self)@ == old(self)@.with_state(ix as int, iy as int, state),
    {
        let i = self.offset(ix, iy);
        let partition = self.cells[i].partition;
        self.cells.set(i, Cell { state, partition });
    }

    /// Floods the region of the cell in column `ix` of row `iy` from row
    /// `iy` downwards: every cell of that region in row `iy` or a lower row
    /// becomes flooded, whatever it was before.  No other cell changes.
    pub fn flood(&mut self, ix: usize, iy: usize)
        requires
            old(self).wf(),
            old(self)@.contains(ix as int, iy as int),
        ensures
            final(self).wf(),
            final(self)@ == old(self)@.flood(ix as int, iy as int),
    {
        let p = self.partition_at(ix, iy);
        let ghost before = self@;
        let n = self.cells.len();
        proof {
            before.lemma_index(ix as int, iy as int);
            assert(0 <= iy * self.width) by (nonlinear_arith);
        }
        let start = iy * self.width;
        let mut i = start;
        while i < n
            invariant
                start <= i <= n,
                n == before.cells.len(),
                self@ == (Grid { cells: self.cells@, ..before }),
                self.cells@.len() == n,
                forall|k: int|
                    0 <= k < n ==> #[trigger] self.cells@[k] == if start <= k < i
                        && before.cells[k].partition == p {
                        before.cells[k].with_state(CellState::Flooded)
                    } else {
                        before.cells[k]
                    },
            decreases n - i,
        {
            if self.cells[i].partition == p {
                self.cells.set(i, Cell { state: CellState::Flooded, partition: p });
            }
            i += 1;
        }
        proof {
            let after = before.flood(ix as int, iy as int);
            assert forall|k: int| 0 <= k < n implies self.cells@[k] == after.cells[k] by {
                before.lemma_row_bounds(k, iy as int);
            }
            assert(self.cells@ =~= after.cells);
        }
    }

    /// Rules out the region of the cell in column `ix` of row `iy` from row
    /// `iy` upwards: every cell of that region in row `iy` or a higher row
    /// becomes invalid, whatever it was before.  No other cell changes.
    pub fn invalidate(&mut self, ix: usize, iy: usize)
        requires
            old(self).wf(),
            old(self)@.contains(ix as int, iy as int),
        ensures
            final(self).wf(),
            final(self)@ == old(self)@.invalidate(ix as int, iy as int),
    {
        let p = self.partition_at(ix, iy);
        let ghost before = self@;
        proof {
            before.lemma_index(self.width - 1, iy as int);
            assert(0 <= iy * self.width) by (nonlinear_arith);
            assert((iy + 1) * self.width == iy * self.width + self.width) by (nonlinear_arith);
            assert(self.cells@.len() == self.cells.len());
        }
        let end = iy * self.width + self.width;
        let mut i: usize = 0;
        while i < end
            invariant
                i <= end <= before.cells.len(),
                self@ == (Grid { cells: self.cells@, ..before }),
                self.cells@.len() == before.cells.len(),
                forall|k: int|
                    0 <= k < self.cells@.len() ==> #[trigger] self.cells@[k] == if k < i
                        && before.cells[k].partition == p {
                        before.cells[k].with_state(CellState::Invalid)
                    } else {
                        before.cells[k]
                    },
            decreases end - i,
        {
            if self.cells[i].partition == p {
                self.cells.set(i, Cell { state: CellState::Invalid, partition: p });
            }
            i += 1;
        }
        proof {
            let after = before.invalidate(ix as int, iy as int);
            assert forall|k: int| 0 <= k < self.cells@.len() implies self.cells@[k]
                == after.cells[k] by {
                before.lemma_row_bounds(k, iy as int);
            }
            assert(self.cells@ =~= after.cells);
        }
    }

    /// Whether a wall stands between the cell in column `ix` of row `iy`
    /// and its right-hand neighbour.
    pub fn wall_at(&self, ix: usize, iy: usize) -> (wall: bool)
        requires
            self.wf(),
            ix + 1 < self@.width,
            iy < self@.height,
        ensures
            wall == self@.has_wall(ix as int, iy as int),
    {
        self.partition_at(ix, iy) != self.partition_at(ix + 1, iy)
    }

    /// Whether a floor lies between the cell in column `ix` of row `iy` and
    /// the cell below it.
    pub fn floor_at(&self, ix: usize, iy: usize) -> (floor: bool)
        requires
            self.wf(),
            ix < self@.width,
            iy + 1 < self@.height,
        ensures
            floor == self@.has_floor(ix as int, iy as int),
    {
        self.partition_at(ix, iy) != self.partition_at(ix, iy + 1)
    }
}

} // verus!
