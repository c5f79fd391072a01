//! The deduction rules of the solver, as functions on grids.
//!
//! There are four rules.  Each looks at one row or one column, reads the
//! grid as it is at that moment, and either leaves it unchanged or decides
//! cells of one region with `flood` or `invalidate`.  A rule acts only on a
//! cell that is still undecided.
//!
//! A round applies the row rule that invalidates to every cell, row by row
//! from the bottom; then the row rule that floods to every cell, row by row
//! from the top; then both column rules to every region of every column,
//! column by column from the left.  Solving is repeating rounds until one
//! changes nothing.
use vstd::prelude::*;
use crate::cell::CellState;
use crate::grid::Grid;

verus! {

impl Grid {
    /// The cell at `(x, y)` is undecided and its region takes more cells of
    /// row `y` than the row may still flood: the region cannot hold water
    /// in this row.
    pub open spec fn row_invalidate_fires(self, x: int, y: int) -> bool {
        &&& self.state(x, y) == CellState::Empty
        &&& self.row_partition_size(y, self.partition(x, y)) > self.row_remaining(y)
    }

    /// The row rule that invalidates, applied at `(x, y)`.
    pub open spec fn row_invalidate(self, x: int, y: int) -> Grid {
        if self.row_invalidate_fires(x, y) {
            self.invalidate(x, y)
        } else {
            self
        }
    }

    /// The cell at `(x, y)` is undecided and the undecided cells of row `y`
    /// outside its region are fewer than the row must still flood: the hint
    /// cannot be met without this region.
    pub open spec fn row_flood_fires(self, x: int, y: int) -> bool {
        &&& self.state(x, y) == CellState::Empty
        &&& self.row_count(y, CellState::Empty) - self.row_partition_size(
            y,
            self.partition(x, y),
        ) < self.row_remaining(y)
    }

    /// The row rule that floods, applied at `(x, y)`.
    pub open spec fn row_flood(self, x: int, y: int) -> Grid {
        if self.row_flood_fires(x, y) {
            self.flood(x, y)
        } else {
            self
        }
    }

    /// The rows of column `x` that lie in region `p`, from the top down.
    pub open spec fn col_region_rows(self, x: int, p: isize) -> Seq<int> {
        self.col_rows(x, p, self.height as int)
    }

    /// Entry `k` of the rows of region `p` in column `x` exists, and the
    /// cell there is undecided.
    pub open spec fn col_slot_open(self, x: int, p: isize, k: int) -> bool {
        &&& 0 <= k < self.col_region_rows(x, p).len()
        &&& self.state(x, self.col_region_rows(x, p)[k]) == CellState::Empty
    }

    /// By how many the undecided cells of region `p` in column `x` exceed
    /// what the column may still flood.
    pub open spec fn col_extra(self, x: int, p: isize) -> int {
        self.col_partition_count(x, p, CellState::Empty) - self.col_remaining(x)
    }

    /// The entry, among the rows of region `p` in column `x`, of the lowest
    /// cell that cannot hold water: the invalid cells come first, then as
    /// many undecided cells as are in excess.
    pub open spec fn col_invalidate_slot(self, x: int, p: isize) -> int {
        self.col_partition_count(x, p, CellState::Invalid) + self.col_extra(x, p) - 1
    }

    /// Region `p` has more undecided cells in column `x` than the column
    /// may still flood, and the lowest cell in excess is undecided.
    pub open spec fn col_invalidate_fires(self, x: int, p: isize) -> bool {
        &&& self.col_extra(x, p) > 0
        &&& self.col_slot_open(x, p, self.col_invalidate_slot(x, p))
    }

    /// The column rule that invalidates, applied to region `p` in column
    /// `x`.
    pub open spec fn col_invalidate(self, x: int, p: isize) -> Grid {
        if self.col_invalidate_fires(x, p) {
            self.invalidate(x, self.col_region_rows(x, p)[self.col_invalidate_slot(x, p)])
        } else {
            self
        }
    }

    /// How many cells of region `p` column `x` must flood even if every
    /// undecided cell of its other regions is flooded.
    pub open spec fn col_required(self, x: int, p: isize) -> int {
        self.col_remaining(x) - (self.col_count(x, CellState::Empty) - self.col_partition_count(
            x,
            p,
            CellState::Empty,
        ))
    }

    /// The entry, among the rows of region `p` in column `x`, of the highest
    /// cell that must hold water: the invalid cells come first, then the
    /// undecided cells that are not required.
    pub open spec fn col_flood_slot(self, x: int, p: isize) -> int {
        self.col_partition_count(x, p, CellState::Invalid) + (self.col_partition_count(
            x,
            p,
            CellState::Empty,
        ) - self.col_required(x, p))
    }

    /// Column `x` cannot meet its hint without cells of region `p`, and the
    /// highest cell required is undecided.
    pub open spec fn col_flood_fires(self, x: int, p: isize) -> bool {
        &&& self.col_required(x, p) > 0
        &&& self.col_slot_open(x, p, self.col_flood_slot(x, p))
    }

    /// The column rule that floods, applied to region `p` in column `x`.
    pub open spec fn col_flood(self, x: int, p: isize) -> Grid {
        if self.col_flood_fires(x, p) {
            self.flood(x, self.col_region_rows(x, p)[self.col_flood_slot(x, p)])
        } else {
            self
        }
    }

    /// No cell of column `x` above row `y` lies in the region of the cell
    /// at `(x, y)`.
    pub open spec fn first_in_col(self, x: int, y: int) -> bool {
        forall|above: int| 0 <= above < y ==> #[trigger] self.partition(x, above) != self.partition(x, y)
    }

    /// Both column rules applied to the region of the cell at `(x, y)`,
    /// first the one that invalidates; nothing where the region was met
    /// higher up in the column.
    pub open spec fn col_rules(self, x: int, y: int) -> Grid {
        if self.first_in_col(x, y) {
            self.col_invalidate(x, self.partition(x, y)).col_flood(x, self.partition(x, y))
        } else {
            self
        }
    }

    /// The row rule that invalidates, applied to the first `n` cells of row
    /// `y` from the left.
    pub open spec fn row_invalidate_along(self, y: int, n: int) -> Grid
        decreases n,
    {
        if n <= 0 {
            self
        } else {
            self.row_invalidate_along(y, n - 1).row_invalidate(n - 1, y)
        }
    }

    /// The row rule that invalidates, applied to the lowest `m` rows, the
    /// bottom row first.
    pub open spec fn row_invalidate_pass(self, m: int) -> Grid
        decreases m,
    {
        if m <= 0 {
            self
        } else {
            self.row_invalidate_pass(m - 1).row_invalidate_along(
                self.height - m,
                self.width as int,
            )
        }
    }

    /// The row rule that floods, applied to the first `n` cells of row `y`
    /// from the left.
    pub open spec fn row_flood_along(self, y: int, n: int) -> Grid
        decreases n,
    {
        if n <= 0 {
            self
        } else {
            self.row_flood_along(y, n - 1).row_flood(n - 1, y)
        }
    }

    /// The row rule that floods, applied to the highest `m` rows, the top
    /// row first.
    pub open spec fn row_flood_pass(self, m: int) -> Grid
        decreases m,
    {
        if m <= 0 {
            self
        } else {
            self.row_flood_pass(m - 1).row_flood_along(m - 1, self.width as int)
        }
    }

    /// The column rules applied to the regions met in the highest `n` cells
    /// of column `x`, from the top down.
    pub open spec fn col_rules_along(self, x: int, n: int) -> Grid
        decreases n,
    {
        if n <= 0 {
            self
        } else {
            self.col_rules_along(x, n - 1).col_rules(x, n - 1)
        }
    }

    /// The column rules applied to the first `m` columns, the leftmost
    /// first.
    pub open spec fn col_pass(self, m: int) -> Grid
        decreases m,
    {
        if m <= 0 {
            self
        } else {
            self.col_pass(m - 1).col_rules_along(m - 1, self.height as int)
        }
    }

    /// One round of the solver.
    pub open spec fn round(self) -> Grid {
        self.row_invalidate_pass(self.height as int).row_flood_pass(self.height as int).col_pass(
            self.width as int,
        )
    }

    /// `n` rounds of the solver, one after the other.
    pub open spec fn rounds(self, n: nat) -> Grid
        decreases n,
    {
        if n == 0 {
            self
        } else {
            self.rounds((n - 1) as nat).round()
        }
    }

    /// A round changes nothing.
    pub open spec fn quiescent(self) -> bool {
        self.round() == self
    }

    /// No rule has anything left to deduce: neither row rule fires at any
    /// cell, and neither column rule fires for any region in any column.
    pub open spec fn at_rest(self) -> bool {
        &&& forall|x: int, y: int|
            self.contains(x, y) ==> !#[trigger] self.row_invalidate_fires(x, y)
        &&& forall|x: int, y: int| self.contains(x, y) ==> !#[trigger] self.row_flood_fires(x, y)
        &&& forall|x: int, p: isize|
            0 <= x < self.width ==> !#[trigger] self.col_invalidate_fires(x, p)
        &&& forall|x: int, p: isize| 0 <= x < self.width ==> !#[trigger] self.col_flood_fires(x, p)
    }
}

} // verus!
