//! The columns of a board, taken out of its row-major cell array as strided
//! slices, and what each column still needs.
use vstd::prelude::*;
use vstd::arithmetic::div_mod::lemma_fundamental_div_mod_converse;
use strided::Stride;
use crate::board::Board;
use crate::cell::{Cell, CellState};
use crate::count::count;
use crate::grid::Grid;

verus! {

/// Every `step`-th entry of `cells`, from place `start` on.
pub open spec fn every_nth(cells: Seq<Cell>, start: int, step: int) -> Seq<Cell> {
    Seq::new(
        ((cells.len() - start + step - 1) / step) as nat,
        |j: int| cells[start + j * step],
    )
}

/// The strided slices of `cells` with stride `width`, one per offset below
/// `width`, each copied into a vector.
///
/// Calls `strided::Stride::new` on the cells and `Stride::substrides` with
/// `width`, and collects what each substride's `iter` yields.  Nothing of
/// this is proved here; it is taken from the source of `strided`: there are
/// `width` substrides, and the one at offset `k` holds the entries at places
/// `k`, `k + width`, `k + 2 * width` and so on, as far as `cells` reaches.
/// `substrides` panics on a stride of zero and on one whose size in bytes
/// overflows; a stride no longer than `cells` can be neither.
#[verifier::external_body]
fn substrides(cells: &Vec<Cell>, width: usize) -> (cols: Vec<Vec<Cell>>)
    requires
        0 < width <= cells@.len(),
    ensures
        cols@.len() == width,
        forall|k: int|
            0 <= k < width ==> (#[trigger] cols@[k])@ == every_nth(cells@, k, width as int),
{
    Stride::new(cells.as_slice()).substrides(width).map(|col| col.iter().copied().collect()).collect()
}

impl Grid {
    /// In a well-formed grid, every `width`-th cell from place `x` on is
    /// column `x`, from the top down.
    pub proof fn lemma_every_nth_is_column(self, x: int)
        requires
            self.wf(),
            0 <= x < self.width,
        ensures
            every_nth(self.cells, x, self.width as int).len() == self.height,
            forall|y: int|
                0 <= y < self.height ==> #[trigger] every_nth(self.cells, x, self.width as int)[y]
                    == self.cell(x, y),
    {
        let w = self.width as int;
        let h = self.height as int;
        assert(w * h - x + w - 1 == h * w + (w - 1 - x)) by (nonlinear_arith);
        lemma_fundamental_div_mod_converse(w * h - x + w - 1, w, h, w - 1 - x);
    }
}

impl Board {
    /// For each column, how many more of its cells must be flooded to meet
    /// its hint; negative where the column holds more flooded cells than its
    /// hint allows.
    pub fn col_remainders(&self) -> (remainders: Vec<isize>)
        requires
            self.wf(),
        ensures
            remainders@.len() == self@.width,
            forall|x: int|
                0 <= x < self@.width ==> #[trigger] remainders@[x] == self@.col_remaining(x),
    {
        let width = self.width();
        let height = self.height();
        let mut remainders: Vec<isize> = Vec::new();
        if width == 0 {
            return remainders;
        }
        if height == 0 {
            let mut ix: usize = 0;
            while ix < width
                invariant
                    self.wf(),
                    width == self@.width,
                    self@.height == 0,
                    ix <= width,
                    remainders@.len() == ix,
                    forall|x: int|
                        0 <= x < ix ==> #[trigger] remainders@[x] == self@.col_remaining(x),
                decreases width - ix,
            {
                remainders.push(self.col_hint(ix));
                ix += 1;
            }
            return remainders;
        }
        proof {
            assert(self@.width <= self@.width * self@.height) by (nonlinear_arith)
                requires
                    self@.height >= 1,
            ;
        }
        let cols = substrides(self.cells(), width);
        let mut ix: usize = 0;
        while ix < width
            invariant
                self.wf(),
                width == self@.width,
                height == self@.height,
                ix <= width,
                cols@.len() == width,
                forall|k: int|
                    0 <= k < width ==> (#[trigger] cols@[k])@ == every_nth(
                        self@.cells,
                        k,
                        width as int,
                    ),
                remainders@.len() == ix,
                forall|x: int| 0 <= x < ix ==> #[trigger] remainders@[x] == self@.col_remaining(x),
            decreases width - ix,
        {
            let col = &cols[ix];
            proof {
                self@.lemma_every_nth_is_column(ix as int);
            }
            let mut flooded: usize = 0;
            let mut iy: usize = 0;
            while iy < height
                invariant
                    height == self@.height,
                    iy <= height,
                    col@.len() == height,
                    forall|y: int| 0 <= y < height ==> #[trigger] col@[y] == self@.cell(ix as int, y),
                    flooded <= iy,
                    flooded == count(iy as int, self@.col_state_is(ix as int, CellState::Flooded)),
                decreases height - iy,
            {
                if col[iy].state == CellState::Flooded {
                    flooded += 1;
                }
                iy += 1;
            }
            remainders.push(self.col_hint(ix) - flooded as isize);
            ix += 1;
        }
        remainders
    }
}

} // verus!
