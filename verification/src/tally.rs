//! Tallies of a board's rows and columns, and the check that it is solved.
use vstd::prelude::*;
use std::collections::HashMap;
use crate::board::Board;
use crate::cell::CellState;
use crate::count::{count, lemma_count_zero};

verus! {

impl Board {
    /// The number of cells of row `iy` in state `state`.
    pub fn row_count(&self, iy: usize, state: CellState) -> (n: usize)
        requires
            self.wf(),
            iy < self@.height,
        ensures
            n == self@.row_count(iy as int, state),
            n <= self@.width,
    {
        let width = self.width();
        let mut n: usize = 0;
        let mut ix: usize = 0;
        while ix < width
            invariant
                self.wf(),
                iy < self@.height,
                width == self@.width,
                ix <= width,
                n <= ix,
                n == count(ix as int, self@.row_state_is(iy as int, state)),
            decreases width - ix,
        {
            if self.cell_state_at(ix, iy) == state {
                n += 1;
            }
            ix += 1;
        }
        n
    }

    /// The number of cells of row `iy` that lie in region `partition`.
    pub fn row_partition_size(&self, iy: usize, partition: isize) -> (n: usize)
        requires
            self.wf(),
            iy < self@.height,
        ensures
            n == self@.row_partition_size(iy as int, partition),
            n <= self@.width,
    {
        let width = self.width();
        let mut n: usize = 0;
        let mut ix: usize = 0;
        while ix < width
            invariant
                self.wf(),
                iy < self@.height,
                width == self@.width,
                ix <= width,
                n <= ix,
                n == count(ix as int, self@.row_partition_is(iy as int, partition)),
            decreases width - ix,
        {
            if self.partition_at(ix, iy) == partition {
                n += 1;
            }
            ix += 1;
        }
        n
    }

    /// The number of cells of column `ix` in state `state`.
    pub fn col_count(&self, ix: usize, state: CellState) -> (n: usize)
        requires
            self.wf(),
            ix < self@.width,
        ensures
            n == self@.col_count(ix as int, state),
            n <= self@.height,
    {
        let height = self.height();
        let mut n: usize = 0;
        let mut iy: usize = 0;
        while iy < height
            invariant
                self.wf(),
                ix < self@.width,
                height == self@.height,
                iy <= height,
                n <= iy,
                n == count(iy as int, self@.col_state_is(ix as int, state)),
            decreases height - iy,
        {
            if self.cell_state_at(ix, iy) == state {
                n += 1;
            }
            iy += 1;
        }
        n
    }

    /// The number of cells of column `ix` that lie in region `partition`
    /// and are in state `state`.
    pub fn col_partition_count(&self, ix: usize, partition: isize, state: CellState) -> (n: usize)
        requires
            self.wf(),
            ix < self@.width,
        ensures
            n == self@.col_partition_count(ix as int, partition, state),
            n <= self@.height,
    {
        let height = self.height();
        let mut n: usize = 0;
        let mut iy: usize = 0;
        while iy < height
            invariant
                self.wf(),
                ix < self@.width,
                height == self@.height,
                iy <= height,
                n <= iy,
                n == count(iy as int, self@.col_partition_state_is(ix as int, partition, state)),
            decreases height - iy,
        {
            let cell = self.cell_at(ix, iy);
            if cell.partition == partition && cell.state == state {
                n += 1;
            }
            iy += 1;
        }
        n
    }

    /// For row `iy`, the state of each region that has cells in the row: the
    /// state of the region's leftmost cell in the row.  On a board whose
    /// regions are level, that is the state of all the region's cells in the
    /// row.
    pub fn row_partition_states(&self, iy: usize) -> (states: HashMap<isize, CellState>)
        requires
            self.wf(),
            iy < self@.height,
        ensures
            forall|p: isize| #[trigger]
                states@.contains_key(p) <==> self@.row_partition_size(iy as int, p) > 0,
            forall|x: int|
                0 <= x < self@.width && #[trigger] self@.first_in_row(x, iy as int)
                    ==> states@.contains_key(self@.partition(x, iy as int))
                    && states@[self@.partition(x, iy as int)] == self@.state(x, iy as int),
    {
        let width = self.width();
        let mut states: HashMap<isize, CellState> = HashMap::new();
        let mut ix: usize = 0;
        while ix < width
            invariant
                self.wf(),
                iy < self@.height,
                width == self@.width,
                ix <= width,
                forall|p: isize| #[trigger]
                    states@.contains_key(p) <==> count(
                        ix as int,
                        self@.row_partition_is(iy as int, p),
                    ) > 0,
                forall|x: int|
                    0 <= x < ix && #[trigger] self@.first_in_row(x, iy as int)
                        ==> states@.contains_key(self@.partition(x, iy as int))
                        && states@[self@.partition(x, iy as int)] == self@.state(x, iy as int),
            decreases width - ix,
        {
            let cell = self.cell_at(ix, iy);
            proof {
                lemma_count_zero(ix as int, self@.row_partition_is(iy as int, cell.partition));
            }
            if !states.contains_key(&cell.partition) {
                states.insert(cell.partition, cell.state);
            }
            proof {
                assert forall|p: isize| #[trigger]
                    states@.contains_key(p) <==> count(
                        ix + 1,
                        self@.row_partition_is(iy as int, p),
                    ) > 0 by {
                    assert(self@.row_partition_is(iy as int, p)(ix as int) == (cell.partition
                        == p));
                }
                assert forall|x: int|
                    0 <= x < ix + 1 && #[trigger] self@.first_in_row(
                        x,
                        iy as int,
                    ) implies states@.contains_key(self@.partition(x, iy as int))
                    && states@[self@.partition(x, iy as int)] == self@.state(x, iy as int) by {
                    if x < ix {
                        assert(self@.row_partition_is(iy as int, cell.partition)(x) == (
                        self@.partition(x, iy as int) == cell.partition));
                    } else {
                        assert(forall|left: int|
                            0 <= left < ix ==> self@.partition(left, iy as int) != cell.partition
                                ==> !#[trigger] self@.row_partition_is(iy as int, cell.partition)(
                                left,
                            ));
                    }
                }
            }
            ix += 1;
        }
        states
    }

    /// The rows at which column `ix` lies in region `partition`, from the
    /// top down.
    pub fn col_rows(&self, ix: usize, partition: isize) -> (rows: Vec<usize>)
        requires
            self.wf(),
            ix < self@.width,
        ensures
            rows@.len() == self@.col_rows(ix as int, partition, self@.height as int).len(),
            forall|k: int|
                0 <= k < rows@.len() ==> #[trigger] rows@[k] == self@.col_rows(
                    ix as int,
                    partition,
                    self@.height as int,
                )[k],
    {
        let height = self.height();
        let mut rows: Vec<usize> = Vec::new();
        let mut iy: usize = 0;
        while iy < height
            invariant
                self.wf(),
                ix < self@.width,
                height == self@.height,
                iy <= height,
                rows@.len() == self@.col_rows(ix as int, partition, iy as int).len(),
                forall|k: int|
                    0 <= k < rows@.len() ==> #[trigger] rows@[k] == self@.col_rows(
                        ix as int,
                        partition,
                        iy as int,
                    )[k],
            decreases height - iy,
        {
            if self.partition_at(ix, iy) == partition {
                rows.push(iy);
            }
            iy += 1;
        }
        rows
    }

    /// How many more cells of row `iy` must be flooded to meet its hint;
    /// negative where the row holds more flooded cells than its hint allows.
    pub fn row_remaining(&self, iy: usize) -> (r: isize)
        requires
            self.wf(),
            iy < self@.height,
        ensures
            r == self@.row_remaining(iy as int),
    {
        let flooded = self.row_count(iy, CellState::Flooded);
        self.row_hint(iy) - flooded as isize
    }

    /// How many more cells of column `ix` must be flooded to meet its hint;
    /// negative where the column holds more flooded cells than its hint
    /// allows.
    pub fn col_remaining(&self, ix: usize) -> (r: isize)
        requires
            self.wf(),
            ix < self@.width,
        ensures
            r == self@.col_remaining(ix as int),
    {
        let flooded = self.col_count(ix, CellState::Flooded);
        self.col_hint(ix) - flooded as isize
    }

    /// Whether the board is solved: every row and every column holds
    /// exactly as many flooded cells as its hint asks for.
    pub fn is_solved(&self) -> (solved: bool)
        requires
            self.wf(),
        ensures
            solved == self@.is_solved(),
    {
        let height = self.height();
        let width = self.width();
        let mut iy: usize = 0;
        while iy < height
            invariant
                self.wf(),
                height == self@.height,
                iy <= height,
                forall|y: int| 0 <= y < iy ==> #[trigger] self@.row_remaining(y) == 0,
            decreases height - iy,
        {
            if self.row_remaining(iy) != 0 {
                return false;
            }
            iy += 1;
        }
        let mut ix: usize = 0;
        while ix < width
            invariant
                self.wf(),
                width == self@.width,
                ix <= width,
                forall|y: int| 0 <= y < self@.height ==> #[trigger] self@.row_remaining(y) == 0,
                forall|x: int| 0 <= x < ix ==> #[trigger] self@.col_remaining(x) == 0,
            decreases width - ix,
        {
            if self.col_remaining(ix) != 0 {
                return false;
            }
            ix += 1;
        }
        true
    }
}

} // verus!
