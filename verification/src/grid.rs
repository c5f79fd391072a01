//! The mathematical model of a board.
//!
//! A [`Grid`] is what a board is to its contracts: its dimensions, its cells
//! in row-major order, and the hints of its rows and columns.  Rows are
//! numbered from the top, so a row with a greater index lies lower.
use vstd::prelude::*;
use vstd::arithmetic::div_mod::{lemma_fundamental_div_mod, lemma_mod_bound};
use crate::cell::{Cell, CellState};
use crate::count::count;
use crate::place::lemma_place_of_cell;

verus! {

/// A board as a mathematical value.
pub struct Grid {
    /// The number of columns.
    pub width: nat,
    /// The number of rows.
    pub height: nat,
    /// The cells, row by row from the top, each row from the left.
    pub cells: Seq<Cell>,
    /// For each row, the number of its cells that must end up flooded.
    pub row_hints: Seq<isize>,
    /// For each column, the number of its cells that must end up flooded.
    pub col_hints: Seq<isize>,
}

impl Grid {
    /// The region of each cell, row by row from the top.
    pub open spec fn regions(self) -> Seq<isize> {
        Seq::new(self.cells.len(), |i: int| self.cells[i].partition)
    }

    /// The hints suit a grid of the given dimensions: there is one per row
    /// and one per column, none is negative, and both dimensions fit a
    /// signed machine word.
    pub open spec fn hints_fit(
        width: nat,
        height: nat,
        row_hints: Seq<isize>,
        col_hints: Seq<isize>,
    ) -> bool {
        &&& row_hints.len() == height
        &&& col_hints.len() == width
        &&& width <= isize::MAX
        &&& height <= isize::MAX
        &&& forall|y: int| 0 <= y < height ==> 0 <= #[trigger] row_hints[y]
        &&& forall|x: int| 0 <= x < width ==> 0 <= #[trigger] col_hints[x]
    }

    /// The grid is rectangular, the number of its cells fits an unsigned
    /// machine word, and its hints suit its dimensions.
    pub open spec fn wf(self) -> bool {
        &&& self.cells.len() == self.width * self.height
        &&& self.cells.len() <= usize::MAX
        &&& Grid::hints_fit(self.width, self.height, self.row_hints, self.col_hints)
    }

    /// Column `x` of row `y` lies on the grid.
    pub open spec fn contains(self, x: int, y: int) -> bool {
        0 <= x < self.width && 0 <= y < self.height
    }

    /// The place in `cells` of the cell in column `x` of row `y`.
    pub open spec fn index(self, x: int, y: int) -> int {
        y * self.width + x
    }

    /// The row of the cell at place `i` of `cells`.
    pub open spec fn row_of(self, i: int) -> int {
        i / (self.width as int)
    }

    /// The column of the cell at place `i` of `cells`.
    pub open spec fn col_of(self, i: int) -> int {
        i % (self.width as int)
    }

    /// The cell in column `x` of row `y`.
    pub open spec fn cell(self, x: int, y: int) -> Cell {
        self.cells[self.index(x, y)]
    }

    /// The state of the cell in column `x` of row `y`.
    pub open spec fn state(self, x: int, y: int) -> CellState {
        self.cell(x, y).state
    }

    /// The region of the cell in column `x` of row `y`.
    pub open spec fn partition(self, x: int, y: int) -> isize {
        self.cell(x, y).partition
    }

    /// There is a separator between the cell at `(x, y)` and its right-hand
    /// neighbour: the two lie in different regions.
    pub open spec fn has_wall(self, x: int, y: int) -> bool {
        self.partition(x, y) != self.partition(x + 1, y)
    }

    /// There is a separator between the cell at `(x, y)` and the cell below
    /// it: the two lie in different regions.
    pub open spec fn has_floor(self, x: int, y: int) -> bool {
        self.partition(x, y) != self.partition(x, y + 1)
    }

    /// No cell of row `y` to the left of column `x` lies in the region of
    /// the cell at `(x, y)`.
    pub open spec fn first_in_row(self, x: int, y: int) -> bool {
        forall|left: int| 0 <= left < x ==> #[trigger] self.partition(left, y) != self.partition(x, y)
    }

    /// The grid with the one cell at `(x, y)` put into `state`.
    pub open spec fn with_state(self, x: int, y: int, state: CellState) -> Grid {
        Grid {
            cells: self.cells.update(self.index(x, y), self.cell(x, y).with_state(state)),
            ..self
        }
    }

    /// The grid in which every cell of region `p` in row `from` or a lower
    /// row is flooded.
    pub open spec fn flood_region(self, p: isize, from: int) -> Grid {
        Grid {
            cells: Seq::new(
                self.cells.len(),
                |i: int|
                    if self.cells[i].partition == p && self.row_of(i) >= from {
                        self.cells[i].with_state(CellState::Flooded)
                    } else {
                        self.cells[i]
                    },
            ),
            ..self
        }
    }

    /// The grid in which every cell of region `p` in row `upto` or a higher
    /// row is invalid.
    pub open spec fn invalidate_region(self, p: isize, upto: int) -> Grid {
        Grid {
            cells: Seq::new(
                self.cells.len(),
                |i: int|
                    if self.cells[i].partition == p && self.row_of(i) <= upto {
                        self.cells[i].with_state(CellState::Invalid)
                    } else {
                        self.cells[i]
                    },
            ),
            ..self
        }
    }

    /// Water poured into the cell at `(x, y)`: its region is flooded from
    /// row `y` downwards.
    pub open spec fn flood(self, x: int, y: int) -> Grid {
        self.flood_region(self.partition(x, y), y)
    }

    /// The cell at `(x, y)` ruled out: its region is invalid from row `y`
    /// upwards.
    pub open spec fn invalidate(self, x: int, y: int) -> Grid {
        self.invalidate_region(self.partition(x, y), y)
    }

    /// `other` is the same puzzle as `self`: same dimensions, same hints,
    /// same regions.  Only the states of the cells may differ.
    pub open spec fn same_puzzle(self, other: Grid) -> bool {
        &&& self.width == other.width
        &&& self.height == other.height
        &&& self.row_hints == other.row_hints
        &&& self.col_hints == other.col_hints
        &&& self.cells.len() == other.cells.len()
        &&& forall|i: int|
            #![trigger self.cells[i]]
            #![trigger other.cells[i]]
            0 <= i < self.cells.len() ==> self.cells[i].partition == other.cells[i].partition
    }

    /// Every cell of `other` is in the state it has in `self`, or was
    /// undecided in `self`: nothing decided was changed.
    pub open spec fn advances_to(self, other: Grid) -> bool {
        &&& self.cells.len() == other.cells.len()
        &&& forall|i: int|
            #![trigger self.cells[i]]
            #![trigger other.cells[i]]
            0 <= i < self.cells.len() ==> self.cells[i].state.may_become(other.cells[i].state)
    }

    /// Whether the cell at place `i` of `cells` is undecided, as a predicate
    /// on `i`.
    pub open spec fn undecided(self) -> spec_fn(int) -> bool {
        |i: int| self.cells[i].state == CellState::Empty
    }

    /// The number of undecided cells.
    pub open spec fn empties(self) -> nat {
        count(self.cells.len() as int, self.undecided())
    }

    /// Within a row, the cells of one region share one state.
    pub open spec fn level_uniform(self) -> bool {
        forall|i: int, j: int|
            0 <= i < self.cells.len() && 0 <= j < self.cells.len() && (#[trigger] self.cells[i]).partition
                == (#[trigger] self.cells[j]).partition && self.row_of(i) == self.row_of(j)
                ==> self.cells[i].state == self.cells[j].state
    }

    /// Where a cell is invalid, so is every cell of its region in the same
    /// row or a higher one.
    pub open spec fn invalid_rises(self) -> bool {
        forall|i: int, j: int|
            0 <= i < self.cells.len() && 0 <= j < self.cells.len() && (#[trigger] self.cells[i]).partition
                == (#[trigger] self.cells[j]).partition && self.cells[i].state
                == CellState::Invalid && self.row_of(j) <= self.row_of(i) ==> self.cells[j].state
                == CellState::Invalid
    }

    /// Where a cell is flooded, so is every cell of its region in the same
    /// row or a lower one.
    pub open spec fn flooded_sinks(self) -> bool {
        forall|i: int, j: int|
            0 <= i < self.cells.len() && 0 <= j < self.cells.len() && (#[trigger] self.cells[i]).partition
                == (#[trigger] self.cells[j]).partition && self.cells[i].state
                == CellState::Flooded && self.row_of(j) >= self.row_of(i) ==> self.cells[j].state
                == CellState::Flooded
    }

    /// The states obey the physics of water: each region is level within a
    /// row, its invalid rows reach up to the top and its flooded rows down to
    /// the bottom.
    pub open spec fn settled(self) -> bool {
        &&& self.level_uniform()
        &&& self.invalid_rises()
        &&& self.flooded_sinks()
    }

    /// Whether the cell of row `y` in column `x` is in state `s`, as a
    /// predicate on `x`.
    pub open spec fn row_state_is(self, y: int, s: CellState) -> spec_fn(int) -> bool {
        |x: int| self.state(x, y) == s
    }

    /// Whether the cell of row `y` in column `x` lies in region `p`, as a
    /// predicate on `x`.
    pub open spec fn row_partition_is(self, y: int, p: isize) -> spec_fn(int) -> bool {
        |x: int| self.partition(x, y) == p
    }

    /// Whether the cell of column `x` in row `y` is in state `s`, as a
    /// predicate on `y`.
    pub open spec fn col_state_is(self, x: int, s: CellState) -> spec_fn(int) -> bool {
        |y: int| self.state(x, y) == s
    }

    /// Whether the cell of column `x` in row `y` lies in region `p`, as a
    /// predicate on `y`.
    pub open spec fn col_partition_is(self, x: int, p: isize) -> spec_fn(int) -> bool {
        |y: int| self.partition(x, y) == p
    }

    /// Whether the cell of column `x` in row `y` lies in region `p` and is in
    /// state `s`, as a predicate on `y`.
    pub open spec fn col_partition_state_is(self, x: int, p: isize, s: CellState) -> spec_fn(
        int,
    ) -> bool {
        |y: int| self.partition(x, y) == p && self.state(x, y) == s
    }

    /// The number of cells of row `y` in state `s`.
    pub open spec fn row_count(self, y: int, s: CellState) -> nat {
        count(self.width as int, self.row_state_is(y, s))
    }

    /// The number of cells of row `y` that lie in region `p`.
    pub open spec fn row_partition_size(self, y: int, p: isize) -> nat {
        count(self.width as int, self.row_partition_is(y, p))
    }

    /// The number of cells of column `x` in state `s`.
    pub open spec fn col_count(self, x: int, s: CellState) -> nat {
        count(self.height as int, self.col_state_is(x, s))
    }

    /// The number of cells of column `x` that lie in region `p` and are in
    /// state `s`.
    pub open spec fn col_partition_count(self, x: int, p: isize, s: CellState) -> nat {
        count(self.height as int, self.col_partition_state_is(x, p, s))
    }

    /// The rows above row `n` at which column `x` lies in region `p`, from
    /// the top down.
    pub open spec fn col_rows(self, x: int, p: isize, n: int) -> Seq<int>
        decreases n,
    {
        if n <= 0 {
            Seq::empty()
        } else if self.partition(x, n - 1) == p {
            self.col_rows(x, p, n - 1).push(n - 1)
        } else {
            self.col_rows(x, p, n - 1)
        }
    }

    /// How many more cells of row `y` must be flooded to meet its hint.
    pub open spec fn row_remaining(self, y: int) -> int {
        self.row_hints[y] - self.row_count(y, CellState::Flooded)
    }

    /// How many more cells of column `x` must be flooded to meet its hint.
    pub open spec fn col_remaining(self, x: int) -> int {
        self.col_hints[x] - self.col_count(x, CellState::Flooded)
    }

    /// Every row and every column holds exactly as many flooded cells as its
    /// hint asks for.
    pub open spec fn is_solved(self) -> bool {
        &&& forall|y: int| 0 <= y < self.height ==> #[trigger] self.row_remaining(y) == 0
        &&& forall|x: int| 0 <= x < self.width ==> #[trigger] self.col_remaining(x) == 0
    }

    /// A cell of the grid has a place in `cells`, and that place gives back
    /// its row and its column.
    pub proof fn lemma_index(self, x: int, y: int)
        requires
            self.contains(x, y),
        ensures
            0 <= self.index(x, y) < self.width * self.height,
            self.row_of(self.index(x, y)) == y,
            self.col_of(self.index(x, y)) == x,
    {
        lemma_place_of_cell(self.width as int, self.height as int, x, y);
    }

    /// The places of the cells in row `y` or a lower row are those from
    /// `y * width` on; the places of the cells in row `y` or a higher row
    /// are those below `(y + 1) * width`.
    pub proof fn lemma_row_bounds(self, i: int, y: int)
        requires
            0 < self.width,
            0 <= i,
        ensures
            self.row_of(i) >= y <==> i >= y * self.width,
            self.row_of(i) <= y <==> i < (y + 1) * self.width,
    {
        let w = self.width as int;
        let r = i / w;
        lemma_fundamental_div_mod(i, w);
        lemma_mod_bound(i, w);
        assert(r >= y ==> w * r >= y * w) by (nonlinear_arith)
            requires
                0 < w,
        ;
        assert(r < y ==> w * r + w <= y * w) by (nonlinear_arith)
            requires
                0 < w,
        ;
        assert(r <= y ==> w * r + w <= (y + 1) * w) by (nonlinear_arith)
            requires
                0 < w,
        ;
        assert(r > y ==> w * r >= (y + 1) * w) by (nonlinear_arith)
            requires
                0 < w,
        ;
    }
}

} // verus!
