//! What holds of the deduction rules, proved once for every grid.
//!
//! The central notion is [`Grid::progresses_to`]: the relation between a
//! grid and a grid that the rules made of it.  Every rule, every pass and
//! every round is shown to stand in it.  From it follow that the physics of
//! water is never broken, that no decided cell is ever changed, and that the
//! solver stops.
use vstd::prelude::*;
use crate::cell::CellState;
use crate::count::{count, lemma_count_bound, lemma_count_strict};
use crate::grid::Grid;

verus! {

impl Grid {
    /// What holds between a grid and a grid that the rules made of it.
    ///
    /// It is the same puzzle.  No cell became undecided, and unless nothing
    /// changed at all, fewer cells are undecided.  And if the first grid
    /// obeyed the physics of water, so does the second, and no cell that was
    /// decided in the first has another state in the second.
    pub open spec fn progresses_to(self, other: Grid) -> bool {
        &&& self.same_puzzle(other)
        &&& other.empties() <= self.empties()
        &&& (other == self || other.empties() < self.empties())
        &&& (self.settled() ==> other.settled() && self.advances_to(other))
    }

    /// The same puzzle in other states is as well formed as the first.
    pub proof fn lemma_same_puzzle_wf(self, other: Grid)
        requires
            self.wf(),
            self.same_puzzle(other),
        ensures
            other.wf(),
    {
    }

    /// There are no more undecided cells than cells.
    pub proof fn lemma_empties_bound(self)
        requires
            self.wf(),
        ensures
            self.empties() <= self.width * self.height,
    {
        lemma_count_bound(self.cells.len() as int, self.undecided());
    }

    /// A grid with no decided cell obeys the physics of water.
    pub proof fn lemma_undecided_is_settled(self)
        requires
            forall|i: int|
                0 <= i < self.cells.len() ==> (#[trigger] self.cells[i]).state == CellState::Empty,
        ensures
            self.settled(),
    {
    }

    /// Progress upon progress is progress.
    pub proof fn lemma_progress_chain(self, mid: Grid, end: Grid)
        requires
            self.progresses_to(mid),
            mid.progresses_to(end),
        ensures
            self.progresses_to(end),
    {
        assert forall|i: int| 0 <= i < self.cells.len() implies (#[trigger] self.cells[i]).partition
            == end.cells[i].partition by {
            assert(mid.cells[i].partition == end.cells[i].partition);
        }
        if self.settled() {
            assert forall|i: int| 0 <= i < self.cells.len() implies (
            #[trigger] self.cells[i]).state.may_become(end.cells[i].state) by {
                assert(mid.cells[i].state.may_become(end.cells[i].state));
            }
        }
    }

    /// Flooding from an undecided cell is progress, and decides that cell.
    pub proof fn lemma_flood_progress(self, x: int, y: int)
        requires
            self.wf(),
            self.contains(x, y),
            self.state(x, y) == CellState::Empty,
        ensures
            self.progresses_to(self.flood(x, y)),
            self.flood(x, y).empties() < self.empties(),
    {
        let after = self.flood(x, y);
        let t = self.index(x, y);
        let n = self.cells.len() as int;
        self.lemma_index(x, y);
        assert(after.cells[t].state == CellState::Flooded);
        assert forall|k: int| 0 <= k < n && #[trigger] after.undecided()(k) implies #[trigger] self.undecided()(k) by {
            assert(after.cells[k].state == CellState::Empty);
        }
        lemma_count_strict(n, after.undecided(), self.undecided(), t);
        if self.settled() {
            assert(after.level_uniform());
            assert(after.invalid_rises());
            assert(after.flooded_sinks());
            assert(self.advances_to(after));
        }
    }

    /// Invalidating from an undecided cell is progress, and decides that
    /// cell.
    pub proof fn lemma_invalidate_progress(self, x: int, y: int)
        requires
            self.wf(),
            self.contains(x, y),
            self.state(x, y) == CellState::Empty,
        ensures
            self.progresses_to(self.invalidate(x, y)),
            self.invalidate(x, y).empties() < self.empties(),
    {
        let after = self.invalidate(x, y);
        let t = self.index(x, y);
        let n = self.cells.len() as int;
        self.lemma_index(x, y);
        assert(after.cells[t].state == CellState::Invalid);
        assert forall|k: int| 0 <= k < n && #[trigger] after.undecided()(k) implies #[trigger] self.undecided()(k) by {
            assert(after.cells[k].state == CellState::Empty);
        }
        lemma_count_strict(n, after.undecided(), self.undecided(), t);
        if self.settled() {
            assert(after.level_uniform());
            assert(after.invalid_rises());
            assert(after.flooded_sinks());
            assert(self.advances_to(after));
        }
    }

    /// The rows listed for region `p` in column `x` are rows above row `n`
    /// at which the column lies in `p`; they are listed from the top down,
    /// each once; and no such row is left out.
    pub proof fn lemma_col_rows(self, x: int, p: isize, n: int)
        requires
            0 <= n,
        ensures
            forall|k: int|
                0 <= k < self.col_rows(x, p, n).len() ==> 0 <= #[trigger] self.col_rows(x, p, n)[k]
                    < n && self.partition(x, self.col_rows(x, p, n)[k]) == p,
            forall|j: int, k: int|
                0 <= j < k < self.col_rows(x, p, n).len() ==> #[trigger] self.col_rows(x, p, n)[j]
                    < #[trigger] self.col_rows(x, p, n)[k],
            forall|y: int|
                0 <= y < n && #[trigger] self.partition(x, y) == p ==> self.col_rows(
                    x,
                    p,
                    n,
                ).contains(y),
        decreases n,
    {
        if n > 0 {
            self.lemma_col_rows(x, p, n - 1);
            let shorter = self.col_rows(x, p, n - 1);
            let rows = self.col_rows(x, p, n);
            assert forall|y: int| 0 <= y < n && #[trigger] self.partition(x, y) == p implies rows.contains(
                y,
            ) by {
                if y < n - 1 {
                    assert(shorter.contains(y));
                    let k = choose|k: int| 0 <= k < shorter.len() && shorter[k] == y;
                    assert(rows[k] == y);
                } else {
                    assert(rows[rows.len() - 1] == y);
                }
            }
        }
    }

    /// On a grid that obeys the physics of water, the cells of a region in
    /// a column, read from the top down, are first its invalid cells, then
    /// its undecided cells, then its flooded cells.
    pub proof fn lemma_col_layers(self, x: int, p: isize, n: int)
        requires
            self.wf(),
            self.settled(),
            0 <= x < self.width,
            0 <= n <= self.height,
        ensures
            self.col_rows(x, p, n).len() == count(
                n,
                self.col_partition_state_is(x, p, CellState::Invalid),
            ) + count(n, self.col_partition_state_is(x, p, CellState::Empty)) + count(
                n,
                self.col_partition_state_is(x, p, CellState::Flooded),
            ),
            forall|k: int|
                0 <= k < self.col_rows(x, p, n).len() ==> self.state(
                    x,
                    #[trigger] self.col_rows(x, p, n)[k],
                ) == if k < count(n, self.col_partition_state_is(x, p, CellState::Invalid)) {
                    CellState::Invalid
                } else if k < count(n, self.col_partition_state_is(x, p, CellState::Invalid))
                    + count(n, self.col_partition_state_is(x, p, CellState::Empty)) {
                    CellState::Empty
                } else {
                    CellState::Flooded
                },
        decreases n,
    {
        if n > 0 {
            self.lemma_col_layers(x, p, n - 1);
            self.lemma_col_rows(x, p, n - 1);
            if self.partition(x, n - 1) == p {
                let above = self.col_rows(x, p, n - 1);
                let rows = self.col_rows(x, p, n);
                let invalid = count(n - 1, self.col_partition_state_is(x, p, CellState::Invalid));
                let empty = count(n - 1, self.col_partition_state_is(x, p, CellState::Empty));
                let j = self.index(x, n - 1);
                self.lemma_index(x, n - 1);
                assert(self.cells[j] == self.cell(x, n - 1));
                assert forall|k: int| 0 <= k < above.len() implies {
                    &&& self.state(x, n - 1) == CellState::Invalid ==> self.state(x, above[k])
                        == CellState::Invalid
                    &&& self.state(x, above[k]) == CellState::Flooded ==> self.state(x, n - 1)
                        == CellState::Flooded
                } by {
                    let i = self.index(x, above[k]);
                    self.lemma_index(x, above[k]);
                    assert(self.cells[i] == self.cell(x, above[k]));
                }
                if self.state(x, n - 1) == CellState::Invalid {
                    if invalid < above.len() {
                        assert(self.state(x, above[invalid as int]) == CellState::Invalid);
                    }
                } else if self.state(x, n - 1) == CellState::Empty {
                    if invalid + empty < above.len() {
                        assert(self.state(x, above[(invalid + empty) as int])
                            == CellState::Flooded);
                    }
                }
                assert forall|k: int| 0 <= k < rows.len() implies self.state(x, #[trigger] rows[k])
                    == if k < count(n, self.col_partition_state_is(x, p, CellState::Invalid)) {
                    CellState::Invalid
                } else if k < count(n, self.col_partition_state_is(x, p, CellState::Invalid))
                    + count(n, self.col_partition_state_is(x, p, CellState::Empty)) {
                    CellState::Empty
                } else {
                    CellState::Flooded
                } by {
                    if k < above.len() {
                        assert(rows[k] == above[k]);
                    }
                }
            }
        }
    }

    /// On a grid that obeys the physics of water, in a column that can
    /// still meet its hint, the column rules act whenever their counts ask
    /// for it: the cell they point at is there and undecided.
    pub proof fn lemma_col_rules_find_their_cell(self, x: int, p: isize)
        requires
            self.wf(),
            self.settled(),
            0 <= x < self.width,
            0 <= self.col_remaining(x) <= self.col_count(x, CellState::Empty),
        ensures
            self.col_invalidate_fires(x, p) <==> self.col_extra(x, p) > 0,
            self.col_flood_fires(x, p) <==> self.col_required(x, p) > 0,
    {
        self.lemma_col_layers(x, p, self.height as int);
    }

    /// The row rule that invalidates makes progress; it changes the grid
    /// exactly where it fires.
    pub proof fn lemma_row_invalidate_progress(self, x: int, y: int)
        requires
            self.wf(),
            self.contains(x, y),
        ensures
            self.progresses_to(self.row_invalidate(x, y)),
            self.row_invalidate_fires(x, y) <==> self.row_invalidate(x, y) != self,
    {
        if self.row_invalidate_fires(x, y) {
            self.lemma_invalidate_progress(x, y);
        }
    }

    /// The row rule that floods makes progress; it changes the grid exactly
    /// where it fires.
    pub proof fn lemma_row_flood_progress(self, x: int, y: int)
        requires
            self.wf(),
            self.contains(x, y),
        ensures
            self.progresses_to(self.row_flood(x, y)),
            self.row_flood_fires(x, y) <==> self.row_flood(x, y) != self,
    {
        if self.row_flood_fires(x, y) {
            self.lemma_flood_progress(x, y);
        }
    }

    /// The column rule that invalidates makes progress; it changes the grid
    /// exactly where it fires.
    pub proof fn lemma_col_invalidate_progress(self, x: int, p: isize)
        requires
            self.wf(),
            0 <= x < self.width,
        ensures
            self.progresses_to(self.col_invalidate(x, p)),
            self.col_invalidate_fires(x, p) <==> self.col_invalidate(x, p) != self,
    {
        if self.col_invalidate_fires(x, p) {
            self.lemma_col_rows(x, p, self.height as int);
            let y = self.col_region_rows(x, p)[self.col_invalidate_slot(x, p)];
            self.lemma_invalidate_progress(x, y);
        }
    }

    /// The column rule that floods makes progress; it changes the grid
    /// exactly where it fires.
    pub proof fn lemma_col_flood_progress(self, x: int, p: isize)
        requires
            self.wf(),
            0 <= x < self.width,
        ensures
            self.progresses_to(self.col_flood(x, p)),
            self.col_flood_fires(x, p) <==> self.col_flood(x, p) != self,
    {
        if self.col_flood_fires(x, p) {
            self.lemma_col_rows(x, p, self.height as int);
            let y = self.col_region_rows(x, p)[self.col_flood_slot(x, p)];
            self.lemma_flood_progress(x, y);
        }
    }

    /// The two column rules, applied to the region of a cell, make progress.
    pub proof fn lemma_col_rules_progress(self, x: int, y: int)
        requires
            self.wf(),
            self.contains(x, y),
        ensures
            self.progresses_to(self.col_rules(x, y)),
    {
        if self.first_in_col(x, y) {
            let p = self.partition(x, y);
            let mid = self.col_invalidate(x, p);
            self.lemma_col_invalidate_progress(x, p);
            self.lemma_same_puzzle_wf(mid);
            mid.lemma_col_flood_progress(x, p);
            self.lemma_progress_chain(mid, mid.col_flood(x, p));
        }
    }

    /// The row rule that invalidates, applied along a row, makes progress.
    pub proof fn lemma_row_invalidate_along_progress(self, y: int, n: int)
        requires
            self.wf(),
            0 <= y < self.height,
            0 <= n <= self.width,
        ensures
            self.progresses_to(self.row_invalidate_along(y, n)),
        decreases n,
    {
        if n > 0 {
            let prev = self.row_invalidate_along(y, n - 1);
            self.lemma_row_invalidate_along_progress(y, n - 1);
            self.lemma_same_puzzle_wf(prev);
            prev.lemma_row_invalidate_progress(n - 1, y);
            self.lemma_progress_chain(prev, prev.row_invalidate(n - 1, y));
        }
    }

    /// The row rule that invalidates, applied to the lowest rows, makes
    /// progress.
    pub proof fn lemma_row_invalidate_pass_progress(self, m: int)
        requires
            self.wf(),
            0 <= m <= self.height,
        ensures
            self.progresses_to(self.row_invalidate_pass(m)),
        decreases m,
    {
        if m > 0 {
            let prev = self.row_invalidate_pass(m - 1);
            self.lemma_row_invalidate_pass_progress(m - 1);
            self.lemma_same_puzzle_wf(prev);
            prev.lemma_row_invalidate_along_progress(self.height - m, self.width as int);
            self.lemma_progress_chain(
                prev,
                prev.row_invalidate_along(self.height - m, self.width as int),
            );
        }
    }

    /// The row rule that floods, applied along a row, makes progress.
    pub proof fn lemma_row_flood_along_progress(self, y: int, n: int)
        requires
            self.wf(),
            0 <= y < self.height,
            0 <= n <= self.width,
        ensures
            self.progresses_to(self.row_flood_along(y, n)),
        decreases n,
    {
        if n > 0 {
            let prev = self.row_flood_along(y, n - 1);
            self.lemma_row_flood_along_progress(y, n - 1);
            self.lemma_same_puzzle_wf(prev);
            prev.lemma_row_flood_progress(n - 1, y);
            self.lemma_progress_chain(prev, prev.row_flood(n - 1, y));
        }
    }

    /// The row rule that floods, applied to the highest rows, makes
    /// progress.
    pub proof fn lemma_row_flood_pass_progress(self, m: int)
        requires
            self.wf(),
            0 <= m <= self.height,
        ensures
            self.progresses_to(self.row_flood_pass(m)),
        decreases m,
    {
        if m > 0 {
            let prev = self.row_flood_pass(m - 1);
            self.lemma_row_flood_pass_progress(m - 1);
            self.lemma_same_puzzle_wf(prev);
            prev.lemma_row_flood_along_progress(m - 1, self.width as int);
            self.lemma_progress_chain(prev, prev.row_flood_along(m - 1, self.width as int));
        }
    }

    /// The column rules, applied down a column, make progress.
    pub proof fn lemma_col_rules_along_progress(self, x: int, n: int)
        requires
            self.wf(),
            0 <= x < self.width,
            0 <= n <= self.height,
        ensures
            self.progresses_to(self.col_rules_along(x, n)),
        decreases n,
    {
        if n > 0 {
            let prev = self.col_rules_along(x, n - 1);
            self.lemma_col_rules_along_progress(x, n - 1);
            self.lemma_same_puzzle_wf(prev);
            prev.lemma_col_rules_progress(x, n - 1);
            self.lemma_progress_chain(prev, prev.col_rules(x, n - 1));
        }
    }

    /// The column rules, applied to the first columns, make progress.
    pub proof fn lemma_col_pass_progress(self, m: int)
        requires
            self.wf(),
            0 <= m <= self.width,
        ensures
            self.progresses_to(self.col_pass(m)),
        decreases m,
    {
        if m > 0 {
            let prev = self.col_pass(m - 1);
            self.lemma_col_pass_progress(m - 1);
            self.lemma_same_puzzle_wf(prev);
            prev.lemma_col_rules_along_progress(m - 1, self.height as int);
            self.lemma_progress_chain(prev, prev.col_rules_along(m - 1, self.height as int));
        }
    }

    /// A round makes progress: it keeps the puzzle, never undoes a decision
    /// on a grid that obeys the physics of water, keeps that physics, and
    /// unless it changes nothing it leaves fewer cells undecided.
    pub proof fn lemma_round_progress(self)
        requires
            self.wf(),
        ensures
            self.progresses_to(self.round()),
            self.round().wf(),
    {
        let h = self.height as int;
        let w = self.width as int;
        let first = self.row_invalidate_pass(h);
        self.lemma_row_invalidate_pass_progress(h);
        self.lemma_same_puzzle_wf(first);
        let second = first.row_flood_pass(h);
        first.lemma_row_flood_pass_progress(h);
        first.lemma_same_puzzle_wf(second);
        second.lemma_col_pass_progress(w);
        self.lemma_progress_chain(first, second);
        self.lemma_progress_chain(second, second.col_pass(w));
        self.lemma_same_puzzle_wf(self.round());
    }

    /// Any number of rounds makes progress.
    pub proof fn lemma_rounds_progress(self, n: nat)
        requires
            self.wf(),
        ensures
            self.progresses_to(self.rounds(n)),
            self.rounds(n).wf(),
        decreases n,
    {
        if n > 0 {
            let prev = self.rounds((n - 1) as nat);
            self.lemma_rounds_progress((n - 1) as nat);
            prev.lemma_round_progress();
            self.lemma_progress_chain(prev, prev.round());
        }
    }

    /// Progress that leaves no fewer cells undecided has changed nothing.
    pub proof fn lemma_progress_without_gain(self, other: Grid)
        requires
            self.progresses_to(other),
            other.empties() >= self.empties(),
        ensures
            other == self,
    {
    }

    /// Applying the row rule that invalidates along a row changes nothing
    /// exactly if the rule fires at none of the cells.
    pub proof fn lemma_row_invalidate_along_fixed(self, y: int, n: int)
        requires
            self.wf(),
            0 <= y < self.height,
            0 <= n <= self.width,
        ensures
            self.row_invalidate_along(y, n) == self <==> forall|x: int|
                0 <= x < n ==> !#[trigger] self.row_invalidate_fires(x, y),
        decreases n,
    {
        if n > 0 {
            let prev = self.row_invalidate_along(y, n - 1);
            self.lemma_row_invalidate_along_fixed(y, n - 1);
            self.lemma_row_invalidate_along_progress(y, n - 1);
            self.lemma_same_puzzle_wf(prev);
            prev.lemma_row_invalidate_progress(n - 1, y);
            if self.row_invalidate_along(y, n) == self {
                self.lemma_progress_without_gain(prev);
            }
        }
    }

    /// Applying the row rule that invalidates to the lowest rows changes
    /// nothing exactly if the rule fires at none of their cells.
    pub proof fn lemma_row_invalidate_pass_fixed(self, m: int)
        requires
            self.wf(),
            0 <= m <= self.height,
        ensures
            self.row_invalidate_pass(m) == self <==> forall|x: int, y: int|
                0 <= x < self.width && self.height - m <= y < self.height
                    ==> !#[trigger] self.row_invalidate_fires(x, y),
        decreases m,
    {
        if m > 0 {
            let prev = self.row_invalidate_pass(m - 1);
            let y = self.height - m;
            self.lemma_row_invalidate_pass_fixed(m - 1);
            self.lemma_row_invalidate_pass_progress(m - 1);
            self.lemma_same_puzzle_wf(prev);
            prev.lemma_row_invalidate_along_progress(y, self.width as int);
            if self.row_invalidate_pass(m) == self {
                self.lemma_progress_without_gain(prev);
            }
            self.lemma_row_invalidate_along_fixed(y, self.width as int);
        }
    }

    /// Applying the row rule that floods along a row changes nothing exactly
    /// if the rule fires at none of the cells.
    pub proof fn lemma_row_flood_along_fixed(self, y: int, n: int)
        requires
            self.wf(),
            0 <= y < self.height,
            0 <= n <= self.width,
        ensures
            self.row_flood_along(y, n) == self <==> forall|x: int|
                0 <= x < n ==> !#[trigger] self.row_flood_fires(x, y),
        decreases n,
    {
        if n > 0 {
            let prev = self.row_flood_along(y, n - 1);
            self.lemma_row_flood_along_fixed(y, n - 1);
            self.lemma_row_flood_along_progress(y, n - 1);
            self.lemma_same_puzzle_wf(prev);
            prev.lemma_row_flood_progress(n - 1, y);
            if self.row_flood_along(y, n) == self {
                self.lemma_progress_without_gain(prev);
            }
        }
    }

    /// Applying the row rule that floods to the highest rows changes
    /// nothing exactly if the rule fires at none of their cells.
    pub proof fn lemma_row_flood_pass_fixed(self, m: int)
        requires
            self.wf(),
            0 <= m <= self.height,
        ensures
            self.row_flood_pass(m) == self <==> forall|x: int, y: int|
                0 <= x < self.width && 0 <= y < m ==> !#[trigger] self.row_flood_fires(x, y),
        decreases m,
    {
        if m > 0 {
            let prev = self.row_flood_pass(m - 1);
            self.lemma_row_flood_pass_fixed(m - 1);
            self.lemma_row_flood_pass_progress(m - 1);
            self.lemma_same_puzzle_wf(prev);
            prev.lemma_row_flood_along_progress(m - 1, self.width as int);
            if self.row_flood_pass(m) == self {
                self.lemma_progress_without_gain(prev);
            }
            self.lemma_row_flood_along_fixed(m - 1, self.width as int);
        }
    }

    /// Neither column rule fires for the region of the cell at `(x, y)`,
    /// or the region occurs higher up in the column.
    pub open spec fn col_rules_idle(self, x: int, y: int) -> bool {
        self.first_in_col(x, y) ==> !self.col_invalidate_fires(x, self.partition(x, y))
            && !self.col_flood_fires(x, self.partition(x, y))
    }

    /// Applying the column rules to the region of a cell changes nothing
    /// exactly if neither fires.
    pub proof fn lemma_col_rules_fixed(self, x: int, y: int)
        requires
            self.wf(),
            self.contains(x, y),
        ensures
            self.col_rules(x, y) == self <==> self.col_rules_idle(x, y),
    {
        if self.first_in_col(x, y) {
            let p = self.partition(x, y);
            let mid = self.col_invalidate(x, p);
            self.lemma_col_invalidate_progress(x, p);
            self.lemma_same_puzzle_wf(mid);
            mid.lemma_col_flood_progress(x, p);
            if self.col_rules(x, y) == self {
                self.lemma_progress_without_gain(mid);
            }
        }
    }

    /// Applying the column rules down a column changes nothing exactly if
    /// no rule fires for the regions met.
    pub proof fn lemma_col_rules_along_fixed(self, x: int, n: int)
        requires
            self.wf(),
            0 <= x < self.width,
            0 <= n <= self.height,
        ensures
            self.col_rules_along(x, n) == self <==> forall|y: int|
                0 <= y < n ==> #[trigger] self.col_rules_idle(x, y),
        decreases n,
    {
        if n > 0 {
            let prev = self.col_rules_along(x, n - 1);
            self.lemma_col_rules_along_fixed(x, n - 1);
            self.lemma_col_rules_along_progress(x, n - 1);
            self.lemma_same_puzzle_wf(prev);
            prev.lemma_col_rules_progress(x, n - 1);
            if self.col_rules_along(x, n) == self {
                self.lemma_progress_without_gain(prev);
            }
            self.lemma_col_rules_fixed(x, n - 1);
        }
    }

    /// Applying the column rules to the first columns changes nothing
    /// exactly if no rule fires for the regions met.
    pub proof fn lemma_col_pass_fixed(self, m: int)
        requires
            self.wf(),
            0 <= m <= self.width,
        ensures
            self.col_pass(m) == self <==> forall|x: int, y: int|
                0 <= x < m && 0 <= y < self.height ==> #[trigger] self.col_rules_idle(x, y),
        decreases m,
    {
        if m > 0 {
            let prev = self.col_pass(m - 1);
            self.lemma_col_pass_fixed(m - 1);
            self.lemma_col_pass_progress(m - 1);
            self.lemma_same_puzzle_wf(prev);
            prev.lemma_col_rules_along_progress(m - 1, self.height as int);
            if self.col_pass(m) == self {
                self.lemma_progress_without_gain(prev);
            }
            self.lemma_col_rules_along_fixed(m - 1, self.height as int);
        }
    }

    /// A region either has no cell in column `x`, and then no column rule
    /// fires for it there, or has a highest cell in the column.
    pub proof fn lemma_col_first_row(self, x: int, p: isize)
        ensures
            self.col_region_rows(x, p).len() == 0 ==> !self.col_invalidate_fires(x, p)
                && !self.col_flood_fires(x, p),
            self.col_region_rows(x, p).len() > 0 ==> {
                let y = self.col_region_rows(x, p)[0];
                &&& 0 <= y < self.height
                &&& self.partition(x, y) == p
                &&& self.first_in_col(x, y)
            },
    {
        let rows = self.col_region_rows(x, p);
        self.lemma_col_rows(x, p, self.height as int);
        if rows.len() > 0 {
            let y = rows[0];
            assert forall|above: int| 0 <= above < y implies #[trigger] self.partition(x, above)
                != self.partition(x, y) by {
                if self.partition(x, above) == p {
                    assert(rows.contains(above));
                    let k = choose|k: int| 0 <= k < rows.len() && rows[k] == above;
                    if k > 0 {
                        assert(rows[0] < rows[k]);
                    }
                }
            }
        }
    }

    /// A round changes nothing exactly if no rule fires anywhere: what the
    /// solver stops at is a grid on which nothing is left to deduce.
    pub proof fn lemma_quiescent_is_at_rest(self)
        requires
            self.wf(),
        ensures
            self.quiescent() <==> self.at_rest(),
    {
        let h = self.height as int;
        let w = self.width as int;
        let first = self.row_invalidate_pass(h);
        let second = first.row_flood_pass(h);
        self.lemma_row_invalidate_pass_progress(h);
        self.lemma_same_puzzle_wf(first);
        first.lemma_row_flood_pass_progress(h);
        first.lemma_same_puzzle_wf(second);
        second.lemma_col_pass_progress(w);
        self.lemma_row_invalidate_pass_fixed(h);
        self.lemma_row_flood_pass_fixed(h);
        self.lemma_col_pass_fixed(w);
        if self.quiescent() {
            self.lemma_progress_chain(first, second);
            second.lemma_progress_without_gain(self);
            first.lemma_progress_without_gain(second);
            assert(first == self && second == self);
            assert forall|x: int, p: isize| 0 <= x < self.width implies !#[trigger] self.col_invalidate_fires(
                x,
                p,
            ) by {
                self.lemma_col_first_row(x, p);
                if self.col_region_rows(x, p).len() > 0 {
                    assert(self.col_rules_idle(x, self.col_region_rows(x, p)[0]));
                }
            }
            assert forall|x: int, p: isize| 0 <= x < self.width implies !#[trigger] self.col_flood_fires(
                x,
                p,
            ) by {
                self.lemma_col_first_row(x, p);
                if self.col_region_rows(x, p).len() > 0 {
                    assert(self.col_rules_idle(x, self.col_region_rows(x, p)[0]));
                }
            }
        }
        if self.at_rest() {
            assert forall|x: int, y: int| 0 <= x < w && 0 <= y < h implies #[trigger] self.col_rules_idle(
                x,
                y,
            ) by {
                assert(!self.col_invalidate_fires(x, self.partition(x, y)));
                assert(!self.col_flood_fires(x, self.partition(x, y)));
            }
            assert(first == self);
            assert(second == self);
        }
    }

    /// A round and then `n` rounds are `n + 1` rounds.
    pub proof fn lemma_rounds_after_round(self, n: nat)
        ensures
            self.round().rounds(n) == self.rounds(n + 1),
        decreases n,
    {
        assert(self.rounds(n + 1) == self.rounds(n).round());
        if n > 0 {
            self.lemma_rounds_after_round((n - 1) as nat);
            assert(self.round().rounds(n) == self.round().rounds((n - 1) as nat).round());
        } else {
            assert(self.rounds(0) == self);
        }
    }

    /// Rounds come to rest after no more rounds than there are undecided
    /// cells, and so after no more than there are cells: the result names
    /// such a number of rounds.
    pub proof fn lemma_rest_within_bound(self) -> (n: nat)
        requires
            self.wf(),
        ensures
            n <= self.empties(),
            n <= self.width * self.height,
            self.rounds(n).quiescent(),
        decreases self.empties(),
    {
        self.lemma_empties_bound();
        if self.quiescent() {
            0
        } else {
            self.lemma_round_progress();
            let m = self.round().lemma_rest_within_bound();
            self.lemma_rounds_after_round(m);
            m + 1
        }
    }

    /// Once a round changes nothing, no number of further rounds does.
    pub proof fn lemma_quiescent_stays(self, n: nat)
        requires
            self.quiescent(),
        ensures
            self.rounds(n) == self,
        decreases n,
    {
        if n > 0 {
            self.lemma_quiescent_stays((n - 1) as nat);
        }
    }
}

} // verus!
