//! The solver: the four deduction rules, the passes that apply them over
//! the whole board, and the loop that repeats rounds until nothing changes.
//!
//! What each function does to the board is stated by the function of the
//! same name on [`Grid`](crate::grid::Grid).
use vstd::prelude::*;
use crate::board::Board;
use crate::cell::CellState;

verus! {

impl Board {
    /// Applies the row rule that invalidates at the cell in column `ix` of
    /// row `iy`: if the cell is undecided and its region takes more cells
    /// of the row than the row may still flood, the region is invalidated
    /// from this row upwards.  Returns whether the rule fired.
    pub fn apply_row_invalidate(&mut self, ix: usize, iy: usize) -> (fired: bool)
        requires
            old(self).wf(),
            old(self)@.contains(ix as int, iy as int),
        ensures
            final(self).wf(),
            final(self)@ == old(self)@.row_invalidate(ix as int, iy as int),
            fired == old(self)@.row_invalidate_fires(ix as int, iy as int),
    {
        let cell = self.cell_at(ix, iy);
        if cell.state != CellState::Empty {
            return false;
        }
        let size = self.row_partition_size(iy, cell.partition);
        let remaining = self.row_remaining(iy);
        if size as isize > remaining {
            self.invalidate(ix, iy);
            true
        } else {
            false
        }
    }

    /// Applies the row rule that floods at the cell in column `ix` of row
    /// `iy`: if the cell is undecided and the row cannot meet its hint with
    /// the undecided cells outside the cell's region, the region is flooded
    /// from this row downwards.  Returns whether the rule fired.
    pub fn apply_row_flood(&mut self, ix: usize, iy: usize) -> (fired: bool)
        requires
            old(self).wf(),
            old(self)@.contains(ix as int, iy as int),
        ensures
            final(self).wf(),
            final(self)@ == old(self)@.row_flood(ix as int, iy as int),
            fired == old(self)@.row_flood_fires(ix as int, iy as int),
    {
        let cell = self.cell_at(ix, iy);
        if cell.state != CellState::Empty {
            return false;
        }
        let size = self.row_partition_size(iy, cell.partition);
        let empty = self.row_count(iy, CellState::Empty);
        let remaining = self.row_remaining(iy);
        if empty as isize - (size as isize) < remaining {
            self.flood(ix, iy);
            true
        } else {
            false
        }
    }

    /// Applies the column rule that invalidates to region `partition` in
    /// column `ix`: if the region has more undecided cells in the column
    /// than the column may still flood, the cells in excess, counted from
    /// the top of the region's undecided cells, are invalidated.  Returns
    /// whether the rule fired.
    pub fn apply_col_invalidate(&mut self, ix: usize, partition: isize) -> (fired: bool)
        requires
            old(self).wf(),
            ix < old(self)@.width,
        ensures
            final(self).wf(),
            final(self)@ == old(self)@.col_invalidate(ix as int, partition),
            fired == old(self)@.col_invalidate_fires(ix as int, partition),
    {
        let empty = self.col_partition_count(ix, partition, CellState::Empty);
        let invalid = self.col_partition_count(ix, partition, CellState::Invalid);
        let remaining = self.col_remaining(ix);
        let extra = empty as i128 - remaining as i128;
        if extra <= 0 {
            return false;
        }
        let slot = invalid as i128 + extra - 1;
        let rows = self.col_rows(ix, partition);
        if slot >= rows.len() as i128 {
            return false;
        }
        let iy = rows[slot as usize];
        proof {
            self@.lemma_col_rows(ix as int, partition, self@.height as int);
        }
        if self.cell_state_at(ix, iy) != CellState::Empty {
            return false;
        }
        self.invalidate(ix, iy);
        true
    }

    /// Applies the column rule that floods to region `partition` in column
    /// `ix`: if the column cannot meet its hint with the undecided cells of
    /// its other regions, the cells that this region must supply, counted
    /// from the bottom of its undecided cells, are flooded.  Returns whether
    /// the rule fired.
    pub fn apply_col_flood(&mut self, ix: usize, partition: isize) -> (fired: bool)
        requires
            old(self).wf(),
            ix < old(self)@.width,
        ensures
            final(self).wf(),
            final(self)@ == old(self)@.col_flood(ix as int, partition),
            fired == old(self)@.col_flood_fires(ix as int, partition),
    {
        let empty = self.col_partition_count(ix, partition, CellState::Empty);
        let invalid = self.col_partition_count(ix, partition, CellState::Invalid);
        let others = self.col_count(ix, CellState::Empty) as i128 - empty as i128;
        let required = self.col_remaining(ix) as i128 - others;
        if required <= 0 {
            return false;
        }
        let slot = invalid as i128 + (empty as i128 - required);
        let rows = self.col_rows(ix, partition);
        if slot < 0 || slot >= rows.len() as i128 {
            return false;
        }
        let iy = rows[slot as usize];
        proof {
            self@.lemma_col_rows(ix as int, partition, self@.height as int);
        }
        if self.cell_state_at(ix, iy) != CellState::Empty {
            return false;
        }
        self.flood(ix, iy);
        true
    }

    /// Whether no cell of column `ix` above row `iy` lies in the region of
    /// the cell in column `ix` of row `iy`.
    pub fn is_first_in_col(&self, ix: usize, iy: usize) -> (first: bool)
        requires
            self.wf(),
            self@.contains(ix as int, iy as int),
        ensures
            first == self@.first_in_col(ix as int, iy as int),
    {
        let partition = self.partition_at(ix, iy);
        let mut above: usize = 0;
        while above < iy
            invariant
                self.wf(),
                self@.contains(ix as int, iy as int),
                partition == self@.partition(ix as int, iy as int),
                above <= iy,
                forall|k: int| 0 <= k < above ==> #[trigger] self@.partition(ix as int, k) != partition,
            decreases iy - above,
        {
            if self.partition_at(ix, above) == partition {
                return false;
            }
            above += 1;
        }
        true
    }

    /// Applies both column rules to the region of the cell in column `ix`
    /// of row `iy`, first the one that invalidates; does nothing where the
    /// region occurs higher up in the column.  Returns whether the board
    /// changed.
    pub fn apply_col_rules(&mut self, ix: usize, iy: usize) -> (updated: bool)
        requires
            old(self).wf(),
            old(self)@.contains(ix as int, iy as int),
        ensures
            final(self).wf(),
            final(self)@ == old(self)@.col_rules(ix as int, iy as int),
            updated == (final(self)@ != old(self)@),
    {
        if !self.is_first_in_col(ix, iy) {
            return false;
        }
        let partition = self.partition_at(ix, iy);
        let ghost start = self@;
        let invalidated = self.apply_col_invalidate(ix, partition);
        let ghost mid = self@;
        let flooded = self.apply_col_flood(ix, partition);
        proof {
            start.lemma_col_invalidate_progress(ix as int, partition);
            mid.lemma_col_flood_progress(ix as int, partition);
        }
        invalidated || flooded
    }

    /// Applies the row rule that invalidates to every cell, row by row from
    /// the bottom, each row from the left.  Returns whether the board
    /// changed.
    pub fn row_invalidate_pass(&mut self) -> (updated: bool)
        requires
            old(self).wf(),
        ensures
            final(self).wf(),
            final(self)@ == old(self)@.row_invalidate_pass(old(self)@.height as int),
            updated == (final(self)@ != old(self)@),
            old(self)@.progresses_to(final(self)@),
    {
        let ghost start = self@;
        let height = self.height();
        let width = self.width();
        let mut updated = false;
        let mut done: usize = 0;
        while done < height
            invariant
                self.wf(),
                start.wf(),
                height == start.height,
                width == start.width,
                done <= height,
                self@ == start.row_invalidate_pass(done as int),
                start.progresses_to(self@),
                updated <==> self@ != start,
            decreases height - done,
        {
            let iy = height - 1 - done;
            let ghost row_start = self@;
            let mut ix: usize = 0;
            while ix < width
                invariant
                    self.wf(),
                    start.wf(),
                    height == start.height,
                    width == start.width,
                    iy < height,
                    ix <= width,
                    self@ == row_start.row_invalidate_along(iy as int, ix as int),
                    start.progresses_to(self@),
                    updated <==> self@ != start,
                decreases width - ix,
            {
                let ghost cur = self@;
                let fired = self.apply_row_invalidate(ix, iy);
                proof {
                    cur.lemma_row_invalidate_progress(ix as int, iy as int);
                    start.lemma_progress_chain(cur, self@);
                }
                if fired {
                    updated = true;
                }
                ix += 1;
            }
            done += 1;
        }
        updated
    }

    /// Applies the row rule that floods to every cell, row by row from the
    /// top, each row from the left.  Returns whether the board changed.
    pub fn row_flood_pass(&mut self) -> (updated: bool)
        requires
            old(self).wf(),
        ensures
            final(self).wf(),
            final(self)@ == old(self)@.row_flood_pass(old(self)@.height as int),
            updated == (final(self)@ != old(self)@),
            old(self)@.progresses_to(final(self)@),
    {
        let ghost start = self@;
        let height = self.height();
        let width = self.width();
        let mut updated = false;
        let mut iy: usize = 0;
        while iy < height
            invariant
                self.wf(),
                start.wf(),
                height == start.height,
                width == start.width,
                iy <= height,
                self@ == start.row_flood_pass(iy as int),
                start.progresses_to(self@),
                updated <==> self@ != start,
            decreases height - iy,
        {
            let ghost row_start = self@;
            let mut ix: usize = 0;
            while ix < width
                invariant
                    self.wf(),
                    start.wf(),
                    height == start.height,
                    width == start.width,
                    iy < height,
                    ix <= width,
                    self@ == row_start.row_flood_along(iy as int, ix as int),
                    start.progresses_to(self@),
                    updated <==> self@ != start,
                decreases width - ix,
            {
                let ghost cur = self@;
                let fired = self.apply_row_flood(ix, iy);
                proof {
                    cur.lemma_row_flood_progress(ix as int, iy as int);
                    start.lemma_progress_chain(cur, self@);
                }
                if fired {
                    updated = true;
                }
                ix += 1;
            }
            iy += 1;
        }
        updated
    }

    /// Applies the column rules to every region of every column, column by
    /// column from the left, the regions of a column in the order in which
    /// they are met from the top.  Returns whether the board changed.
    pub fn col_pass(&mut self) -> (updated: bool)
        requires
            old(self).wf(),
        ensures
            final(self).wf(),
            final(self)@ == old(self)@.col_pass(old(self)@.width as int),
            updated == (final(self)@ != old(self)@),
            old(self)@.progresses_to(final(self)@),
    {
        let ghost start = self@;
        let height = self.height();
        let width = self.width();
        let mut updated = false;
        let mut ix: usize = 0;
        while ix < width
            invariant
                self.wf(),
                start.wf(),
                height == start.height,
                width == start.width,
                ix <= width,
                self@ == start.col_pass(ix as int),
                start.progresses_to(self@),
                updated <==> self@ != start,
            decreases width - ix,
        {
            let ghost col_start = self@;
            let mut iy: usize = 0;
            while iy < height
                invariant
                    self.wf(),
                    start.wf(),
                    height == start.height,
                    width == start.width,
                    ix < width,
                    iy <= height,
                    self@ == col_start.col_rules_along(ix as int, iy as int),
                    start.progresses_to(self@),
                    updated <==> self@ != start,
                decreases height - iy,
            {
                let ghost cur = self@;
                let changed = self.apply_col_rules(ix, iy);
                proof {
                    cur.lemma_col_rules_progress(ix as int, iy as int);
                    start.lemma_progress_chain(cur, self@);
                }
                if changed {
                    updated = true;
                }
                iy += 1;
            }
            ix += 1;
        }
        updated
    }

    /// Runs one round of the solver: the row rule that invalidates over the
    /// whole board, then the row rule that floods, then the column rules.
    /// Returns whether the board changed.
    ///
    /// A round never changes the puzzle and never leaves more cells
    /// undecided.  On a board that obeys the physics of water it keeps that
    /// physics and changes no cell that was decided.
    pub fn round(&mut self) -> (updated: bool)
        requires
            old(self).wf(),
        ensures
            final(self).wf(),
            final(self)@ == old(self)@.round(),
            updated == (final(self)@ != old(self)@),
            old(self)@.progresses_to(final(self)@),
    {
        let ghost start = self@;
        let invalidated = self.row_invalidate_pass();
        let ghost first = self@;
        let flooded = self.row_flood_pass();
        let ghost second = self@;
        let by_column = self.col_pass();
        proof {
            start.lemma_progress_chain(first, second);
            start.lemma_progress_chain(second, self@);
        }
        invalidated || flooded || by_column
    }

    /// Solves the board as far as the rules reach: runs rounds until one
    /// changes nothing.  Returns the number of rounds that changed the
    /// board.
    ///
    /// Afterwards no rule fires anywhere on the board, and one more round
    /// would change nothing.  Every round counted decided at least one cell,
    /// so there are no more of them than cells.  The puzzle is the same; on
    /// a board that obeys the physics of water, the result obeys it too and
    /// every cell that was decided before is as it was.
    ///
    /// The rules do not guess: where the hints leave a choice, cells stay
    /// undecided, and `is_solved` tells.
    pub fn solve(&mut self) -> (rounds: usize)
        requires
            old(self).wf(),
        ensures
            final(self).wf(),
            final(self)@ == old(self)@.rounds(rounds as nat),
            final(self)@.quiescent(),
            final(self)@.at_rest(),
            rounds + final(self)@.empties() <= old(self)@.empties(),
            rounds <= old(self)@.width * old(self)@.height,
            old(self)@.same_puzzle(final(self)@),
            old(self)@.settled() ==> final(self)@.settled(),
            old(self)@.settled() ==> old(self)@.advances_to(final(self)@),
    {
        let ghost start = self@;
        let mut rounds: usize = 0;
        proof {
            start.lemma_empties_bound();
        }
        loop
            invariant
                self.wf(),
                start.wf(),
                self@ == start.rounds(rounds as nat),
                start.progresses_to(self@),
                rounds + self@.empties() <= start.empties(),
                start.empties() <= start.width * start.height,
            ensures
                self@.quiescent(),
            decreases self@.empties(),
        {
            let ghost cur = self@;
            let updated = self.round();
            proof {
                start.lemma_progress_chain(cur, self@);
            }
            if !updated {
                break ;
            }
            rounds += 1;
        }
        proof {
            self@.lemma_quiescent_is_at_rest();
        }
        rounds
    }
}

} // verus!
