//! Regions derived from walls and floors.
//!
//! The cells are visited row by row.  A cell that has no region yet starts
//! a new one, which then spreads to every cell that can be reached from it
//! without crossing a separator.  The cells still to be spread from are kept
//! in a work list, so no call stack grows with the size of a region.
use vstd::prelude::*;
use crate::board::Board;
use crate::count::{count, lemma_count_strict};
use crate::grid::Grid;
use crate::layout::Layout;
use crate::place::{lemma_cell_of_place, lemma_place_of_cell};

verus! {

/// Whether the cell at place `i` has no region yet, as a predicate on `i`.
spec fn unlabelled(ids: Seq<isize>) -> spec_fn(int) -> bool {
    |i: int| ids[i] == -1
}

/// Whether place `i` is on the work list.
spec fn listed(work: Seq<usize>, i: int) -> bool {
    exists|k: int| 0 <= k < work.len() && #[trigger] work[k] == i
}

/// What is left to do: twice the number of cells without a region, plus
/// the length of the work list.
spec fn remaining_work(ids: Seq<isize>, work: Seq<usize>) -> nat {
    2 * count(ids.len() as int, unlabelled(ids)) + work.len()
}

impl Layout {
    /// The regions of all cells before place `seed` are complete and
    /// numbered up to `next`; every other cell has no region yet, which is
    /// written -1.
    spec fn labelled_upto(self, ids: Seq<isize>, seed: int, next: int) -> bool {
        &&& ids.len() == self.size()
        &&& 0 <= seed <= self.size()
        &&& next == count(seed, self.leaders())
        &&& forall|i: int| 0 <= i < self.size() ==> -1 <= #[trigger] ids[i] < next
        &&& forall|i: int| 0 <= i < seed ==> #[trigger] ids[i] != -1
        &&& forall|i: int, j: int|
            0 <= i < self.size() && 0 <= j < self.size() && #[trigger] ids[i] != -1 ==> (ids[i]
                == #[trigger] ids[j] <==> self.connected(i, j))
        &&& forall|i: int|
            0 <= i < self.size() && #[trigger] ids[i] != -1 && self.leads(i) ==> ids[i] == count(
                i,
                self.leaders(),
            )
    }

    /// The region `label` is being spread from the cell at place `seed`.
    ///
    /// Against `before`, the ids when the spreading began, only cells
    /// without a region have changed, and they have joined `label`.  Every
    /// cell of `label` is connected to `seed`.  The work list holds cells of
    /// `label`.  And every cell of `label` that is neither on the work list
    /// nor the cell `current` has all its open neighbours in `label`.
    #[verifier::opaque]
    spec fn spreading(
        self,
        before: Seq<isize>,
        ids: Seq<isize>,
        work: Seq<usize>,
        seed: int,
        label: int,
        current: int,
    ) -> bool {
        &&& ids.len() == self.size()
        &&& 0 <= seed < self.size()
        &&& forall|i: int|
            0 <= i < self.size() ==> #[trigger] ids[i] == before[i] || (before[i] == -1 && ids[i]
                == label)
        &&& ids[seed] == label
        &&& forall|i: int|
            0 <= i < self.size() && #[trigger] ids[i] == label ==> self.connected(seed, i)
        &&& forall|k: int|
            0 <= k < work.len() ==> 0 <= #[trigger] work[k] < self.size() && ids[work[k] as int]
                == label
        &&& forall|i: int, j: int|
            0 <= i < self.size() && ids[i] == label && i != current && !listed(work, i)
                && #[trigger] self.open(i, j) ==> ids[j] == label
    }

    /// The ids when a new region is begun at `seed`: what came before is
    /// complete, and the cell at `seed` has no region yet.
    spec fn begun(self, before: Seq<isize>, seed: int, label: int) -> bool {
        &&& self.labelled_upto(before, seed, label)
        &&& 0 <= seed < self.size()
        &&& before[seed] == -1
    }

    /// A cell that has no region when the cells before it are complete is
    /// the first of its region.
    proof fn lemma_seed_leads(self, before: Seq<isize>, seed: int, label: int)
        requires
            self.begun(before, seed, label),
        ensures
            self.leads(seed),
    {
        assert forall|k: int| 0 <= k < seed implies !#[trigger] self.connected(k, seed) by {
            assert(before[k] != -1);
            assert(before[k] == before[seed] <==> self.connected(k, seed));
        }
    }

    /// A cell that is complete stays as it is: a neighbour across an open
    /// border of a cell of the region being spread has that region or none.
    proof fn lemma_neighbour_is_new(
        self,
        before: Seq<isize>,
        ids: Seq<isize>,
        work: Seq<usize>,
        seed: int,
        label: int,
        current: int,
        to: int,
    )
        requires
            self.begun(before, seed, label),
            self.spreading(before, ids, work, seed, label, current),
            0 <= current < self.size(),
            ids[current] == label,
            self.open(current, to),
        ensures
            ids[to] == -1 || ids[to] == label,
            self.connected(seed, to),
    {
        reveal(Layout::spreading);
        assert(self.connected(seed, current));
        self.lemma_connected_step(seed, current, to);
        if ids[to] != -1 && ids[to] != label {
            assert(ids[to] == before[to]);
            assert(before[to] == before[seed] <==> self.connected(to, seed));
            self.lemma_connected_symmetric(seed, to);
        }
    }

    /// When the work list is empty, the region that was spread is complete.
    proof fn lemma_spread_done(self, before: Seq<isize>, ids: Seq<isize>, seed: int, label: int)
        requires
            self.begun(before, seed, label),
            self.spreading(before, ids, Seq::<usize>::empty(), seed, label, -1),
        ensures
            self.labelled_upto(ids, seed + 1, label + 1),
    {
        reveal(Layout::spreading);
        self.lemma_seed_leads(before, seed, label);
        assert(self.leaders()(seed));
        let inside = |a: int| 0 <= a < self.size() && ids[a] == label;
        assert forall|a: int, b: int| inside(a) && #[trigger] self.open(a, b) implies inside(b) by {
            assert(!listed(Seq::<usize>::empty(), a));
        }
        assert forall|i: int| 0 <= i < seed + 1 implies #[trigger] ids[i] != -1 by {
            if i < seed {
                assert(before[i] != -1);
            }
        }
        assert forall|i: int, j: int|
            0 <= i < self.size() && 0 <= j < self.size() && #[trigger] ids[i] != -1 implies (ids[i]
            == #[trigger] ids[j] <==> self.connected(i, j)) by {
            if ids[i] == label {
                assert(inside(i));
                if self.connected(i, j) {
                    self.lemma_closed_holds_region(inside, i, j);
                }
                if ids[j] == label {
                    assert(self.connected(seed, i));
                    assert(self.connected(seed, j));
                    self.lemma_connected_symmetric(seed, i);
                    self.lemma_connected_transitive(i, seed, j);
                }
            } else {
                assert(ids[i] == before[i]);
                assert(before[i] == before[j] <==> self.connected(i, j));
                assert(-1 <= before[j] < label);
            }
        }
        assert forall|i: int|
            0 <= i < self.size() && #[trigger] ids[i] != -1 && self.leads(i) implies ids[i]
            == count(i, self.leaders()) by {
            if ids[i] == label {
                assert(self.connected(seed, i));
                if i < seed {
                    assert(before[i] != -1);
                    assert(-1 <= before[i] < label);
                }
            } else {
                assert(ids[i] == before[i]);
            }
        }
        assert forall|i: int| 0 <= i < self.size() implies -1 <= #[trigger] ids[i] < label + 1 by {
            assert(-1 <= before[i] < label);
        }
    }

    /// When every cell has been visited, the ids number the regions.
    proof fn lemma_labelled_all(self, ids: Seq<isize>, next: int)
        requires
            self.labelled_upto(ids, self.size(), next),
        ensures
            self.numbered_by(ids),
    {
        assert forall|i: int, j: int|
            0 <= i < self.size() && 0 <= j < self.size() implies (#[trigger] ids[i]
            == #[trigger] ids[j] <==> self.connected(i, j)) by {
            assert(ids[i] != -1);
        }
    }

    /// The open neighbours of a cell are the cells at the four places next
    /// to it, where the grid has such a place and no separator is in the
    /// way.
    proof fn lemma_open_neighbours(self, c: int, j: int)
        requires
            self.wf(),
            self.open(c, j),
        ensures
            ({
                let w = self.width as int;
                let x = c % w;
                let y = c / w;
                ||| j == c + 1 && x + 1 < self.width && !self.wall(x, y)
                ||| j == c - 1 && x > 0 && !self.wall(x - 1, y)
                ||| j == c + w && y + 1 < self.height && !self.floor(x, y)
                ||| j == c - w && y > 0 && !self.floor(x, y - 1)
            }),
    {
        let w = self.width as int;
        let h = self.height as int;
        lemma_cell_of_place(w, h, c);
        lemma_cell_of_place(w, h, j);
        let y = c / w;
        assert((y + 1) * w == y * w + w) by (nonlinear_arith);
        assert((y - 1) * w == y * w - w) by (nonlinear_arith);
    }

    /// A cell and the cell at the next place in its row, or at the same
    /// place in the next row, have an open border where no separator is in
    /// the way.
    proof fn lemma_open_to(self, c: int)
        requires
            self.wf(),
            0 <= c < self.size(),
        ensures
            ({
                let w = self.width as int;
                let x = c % w;
                let y = c / w;
                &&& 0 <= x < w
                &&& 0 <= y < self.height
                &&& c == y * w + x
                &&& x + 1 < w ==> 0 <= y * (w - 1) + x < self.walls.len() && c + 1 < self.size()
                    && (!self.wall(x, y) ==> self.open(c, c + 1))
                &&& x > 0 ==> 0 <= y * (w - 1) + x - 1 < self.walls.len() && (!self.wall(x - 1, y)
                    ==> self.open(c, c - 1))
                &&& y + 1 < self.height ==> c < self.floors.len() && c + w < self.size() && (
                !self.floor(x, y) ==> self.open(c, c + w))
                &&& y > 0 ==> 0 <= c - w < self.floors.len() && self.floors[c - w] == self.floor(
                    x,
                    y - 1,
                ) && (!self.floor(x, y - 1) ==> self.open(c, c - w))
            }),
    {
        let w = self.width as int;
        let h = self.height as int;
        lemma_cell_of_place(w, h, c);
        let x = c % w;
        let y = c / w;
        if x + 1 < w {
            lemma_place_of_cell(w, h, x + 1, y);
            lemma_place_of_cell(w - 1, h, x, y);
        }
        if x > 0 {
            lemma_place_of_cell(w, h, x - 1, y);
            lemma_place_of_cell(w - 1, h, x - 1, y);
        }
        if y + 1 < h {
            lemma_place_of_cell(w, h, x, y + 1);
            lemma_place_of_cell(w, h - 1, x, y);
            assert((y + 1) * w + x == c + w) by (nonlinear_arith)
                requires
                    c == y * w + x,
            ;
        }
        if y > 0 {
            lemma_place_of_cell(w, h, x, y - 1);
            lemma_place_of_cell(w, h - 1, x, y - 1);
            assert((y - 1) * w + x == c - w) by (nonlinear_arith)
                requires
                    c == y * w + x,
            ;
        }
    }

    /// Once the four neighbours of the cell `current` have been looked at,
    /// the cell needs no exemption any more.
    proof fn lemma_current_done(
        self,
        before: Seq<isize>,
        ids: Seq<isize>,
        work: Seq<usize>,
        seed: int,
        label: int,
        current: int,
    )
        requires
            self.wf(),
            self.spreading(before, ids, work, seed, label, current),
            0 <= current < self.size(),
            ({
                let w = self.width as int;
                let x = current % w;
                let y = current / w;
                &&& x + 1 < w && !self.wall(x, y) ==> ids[current + 1] == label
                &&& x > 0 && !self.wall(x - 1, y) ==> ids[current - 1] == label
                &&& y + 1 < self.height && !self.floor(x, y) ==> ids[current + w] == label
                &&& y > 0 && !self.floor(x, y - 1) ==> ids[current - w] == label
            }),
        ensures
            self.spreading(before, ids, work, seed, label, -1),
    {
        reveal(Layout::spreading);
        assert forall|i: int, j: int|
            0 <= i < self.size() && ids[i] == label && !listed(work, i) && #[trigger] self.open(
                i,
                j,
            ) implies ids[j] == label by {
            if i == current {
                self.lemma_open_neighbours(current, j);
            }
        }
    }
}

/// Takes the cell at place `to`, an open neighbour of the cell `from` of
/// region `label`, into that region and onto the work list, unless it is in
/// the region already.
fn spread_to(
    ids: &mut Vec<isize>,
    work: &mut Vec<usize>,
    to: usize,
    label: isize,
    Ghost(layout): Ghost<Layout>,
    Ghost(before): Ghost<Seq<isize>>,
    Ghost(seed): Ghost<int>,
    Ghost(from): Ghost<int>,
)
    requires
        layout.begun(before, seed, label as int),
        layout.spreading(before, old(ids)@, old(work)@, seed, label as int, from),
        0 <= from < layout.size(),
        old(ids)@[from] == label,
        layout.open(from, to as int),
    ensures
        layout.spreading(before, final(ids)@, final(work)@, seed, label as int, from),
        final(ids)@.len() == old(ids)@.len(),
        final(ids)@[to as int] == label,
        forall|i: int|
            0 <= i < layout.size() && old(ids)@[i] == label ==> #[trigger] final(ids)@[i] == label,
        remaining_work(final(ids)@, final(work)@) <= remaining_work(old(ids)@, old(work)@),
{
    proof {
        reveal(Layout::spreading);
        layout.lemma_neighbour_is_new(before, ids@, work@, seed, label as int, from, to as int);
    }
    if ids[to] == -1 {
        let ghost old_ids = ids@;
        let ghost old_work = work@;
        ids.set(to, label);
        work.push(to);
        proof {
            assert(work@[old_work.len() as int] == to);
            assert forall|i: int| listed(old_work, i) implies listed(work@, i) by {
                let k = choose|k: int| 0 <= k < old_work.len() && old_work[k] == i;
                assert(work@[k] == i);
            }
            assert(listed(work@, to as int));
            assert forall|k: int| 0 <= k < work@.len() implies 0 <= #[trigger] work@[k]
                < layout.size() && ids@[work@[k] as int] == label by {
                if k < old_work.len() {
                    assert(work@[k] == old_work[k]);
                }
            }
            assert forall|i: int, j: int|
                0 <= i < layout.size() && ids@[i] == label && i != from && !listed(work@, i)
                    && #[trigger] layout.open(i, j) implies ids@[j] == label by {
                assert(i != to);
                assert(old_ids[i] == label);
                assert(!listed(old_work, i));
                assert(old_ids[j] == label);
            }
            assert forall|k: int|
                0 <= k < ids@.len() && #[trigger] unlabelled(ids@)(k) implies #[trigger] unlabelled(
                old_ids,
            )(k) by {}
            lemma_count_strict(ids@.len() as int, unlabelled(ids@), unlabelled(old_ids), to as int);
        }
    }
}

/// Spreads region `label` from the cell at place `c` to its open neighbours:
/// each of the four cells next to it that lies on the grid, is not cut off
/// by a separator and has no region yet joins the region and the work list.
fn spread_from(
    ids: &mut Vec<isize>,
    work: &mut Vec<usize>,
    c: usize,
    label: isize,
    width: usize,
    height: usize,
    walls: &Vec<bool>,
    floors: &Vec<bool>,
    Ghost(before): Ghost<Seq<isize>>,
    Ghost(seed): Ghost<int>,
)
    requires
        (Layout { width: width as nat, height: height as nat, walls: walls@, floors: floors@ }).wf(),
        (Layout {
            width: width as nat,
            height: height as nat,
            walls: walls@,
            floors: floors@,
        }).begun(before, seed, label as int),
        (Layout {
            width: width as nat,
            height: height as nat,
            walls: walls@,
            floors: floors@,
        }).spreading(before, old(ids)@, old(work)@, seed, label as int, c as int),
        c < width * height,
        old(ids)@.len() == width * height,
        old(ids)@[c as int] == label,
    ensures
        (Layout {
            width: width as nat,
            height: height as nat,
            walls: walls@,
            floors: floors@,
        }).spreading(before, final(ids)@, final(work)@, seed, label as int, -1),
        remaining_work(final(ids)@, final(work)@) <= remaining_work(old(ids)@, old(work)@),
{
    let ghost layout = Layout {
        width: width as nat,
        height: height as nat,
        walls: walls@,
        floors: floors@,
    };
    proof {
        layout.lemma_open_to(c as int);
    }
    let x = c % width;
    let y = c / width;
    let walls_per_row = width - 1;
    proof {
        assert(0 <= y * walls_per_row) by (nonlinear_arith)
            requires
                0 <= y,
                0 <= walls_per_row,
        ;
        assert(y * walls_per_row == y * (layout.width - 1));
        assert(walls@.len() == walls.len() && floors@.len() == floors.len());
    }
    if x + 1 < width && !walls[y * walls_per_row + x] {
        spread_to(ids, work, c + 1, label, Ghost(layout), Ghost(before), Ghost(seed), Ghost(c as int));
    }
    if x > 0 && !walls[y * walls_per_row + x - 1] {
        spread_to(ids, work, c - 1, label, Ghost(layout), Ghost(before), Ghost(seed), Ghost(c as int));
    }
    if y + 1 < height && !floors[c] {
        spread_to(
            ids,
            work,
            c + width,
            label,
            Ghost(layout),
            Ghost(before),
            Ghost(seed),
            Ghost(c as int),
        );
    }
    if y > 0 && !floors[c - width] {
        spread_to(
            ids,
            work,
            c - width,
            label,
            Ghost(layout),
            Ghost(before),
            Ghost(seed),
            Ghost(c as int),
        );
    }
    proof {
        layout.lemma_current_done(before, ids@, work@, seed, label as int, c as int);
    }
}

/// The regions that the walls and floors of a grid mark out.
///
/// `walls` tells for each cell but those of the last column whether a wall
/// stands to its right, and `floors` for each cell but those of the last
/// row whether a floor lies below it, both row by row from the top.  The
/// result gives each cell its region, row by row: cells have the same id
/// exactly if a path leads from one to the other that crosses no separator,
/// and the regions are numbered from 0 in the order of their first cells.
///
/// Returns `None` where the lists do not fit the dimensions.
pub fn derive_partitions(
    width: usize,
    height: usize,
    walls: &Vec<bool>,
    floors: &Vec<bool>,
) -> (partitions: Option<Vec<isize>>)
    ensures
        partitions.is_some() <==> (Layout {
            width: width as nat,
            height: height as nat,
            walls: walls@,
            floors: floors@,
        }).wf(),
        partitions matches Some(ids) ==> (Layout {
            width: width as nat,
            height: height as nat,
            walls: walls@,
            floors: floors@,
        }).numbered_by(ids@),
{
    let ghost layout = Layout {
        width: width as nat,
        height: height as nat,
        walls: walls@,
        floors: floors@,
    };
    let n = match width.checked_mul(height) {
        None => {
            return None;
        },
        Some(n) => n,
    };
    if n > isize::MAX as usize {
        return None;
    }
    proof {
        assert(layout.wall_places() <= n && layout.floor_places() <= n) by (nonlinear_arith)
            requires
                n == width * height,
                layout.wall_places() == if width == 0 {
                    0
                } else {
                    (width - 1) * height
                },
                layout.floor_places() == if height == 0 {
                    0
                } else {
                    width * (height - 1)
                },
        ;
    }
    let wall_places = if width == 0 {
        0
    } else {
        (width - 1) * height
    };
    let floor_places = if height == 0 {
        0
    } else {
        width * (height - 1)
    };
    if walls.len() != wall_places || floors.len() != floor_places {
        return None;
    }
    let mut ids: Vec<isize> = Vec::new();
    let mut filled: usize = 0;
    while filled < n
        invariant
            filled <= n,
            ids@.len() == filled,
            forall|i: int| 0 <= i < filled ==> #[trigger] ids@[i] == -1,
        decreases n - filled,
    {
        ids.push(-1);
        filled += 1;
    }
    let mut work: Vec<usize> = Vec::new();
    let mut next: isize = 0;
    let mut seed: usize = 0;
    while seed < n
        invariant
            layout.wf(),
            layout == (Layout {
                width: width as nat,
                height: height as nat,
                walls: walls@,
                floors: floors@,
            }),
            n == layout.size(),
            n <= isize::MAX,
            seed <= n,
            0 <= next <= seed,
            work@.len() == 0,
            layout.labelled_upto(ids@, seed as int, next as int),
        decreases n - seed,
    {
        if ids[seed] == -1 {
            let ghost before = ids@;
            ids.set(seed, next);
            work.push(seed);
            proof {
                reveal(Layout::spreading);
                layout.lemma_connected_self(seed as int);
                assert(listed(work@, seed as int)) by {
                    assert(work@[0] == seed);
                }
                assert(layout.spreading(before, ids@, work@, seed as int, next as int, -1));
            }
            while work.len() > 0
                invariant
                    layout.wf(),
                    layout == (Layout {
                        width: width as nat,
                        height: height as nat,
                        walls: walls@,
                        floors: floors@,
                    }),
                    n == layout.size(),
                    seed < n,
                    layout.begun(before, seed as int, next as int),
                    layout.spreading(before, ids@, work@, seed as int, next as int, -1),
                decreases remaining_work(ids@, work@),
            {
                let ghost old_work = work@;
                let c = work.pop().unwrap();
                proof {
                    reveal(Layout::spreading);
                    assert(old_work[old_work.len() - 1] == c);
                    assert forall|i: int| listed(work@, i) implies listed(old_work, i) by {
                        let k = choose|k: int| 0 <= k < work@.len() && work@[k] == i;
                        assert(old_work[k] == i);
                    }
                    assert forall|i: int| listed(old_work, i) && i != c implies listed(
                        work@,
                        i,
                    ) by {
                        let k = choose|k: int| 0 <= k < old_work.len() && old_work[k] == i;
                        assert(work@[k] == i);
                    }
                    assert forall|k: int| 0 <= k < work@.len() implies 0 <= #[trigger] work@[k]
                        < layout.size() && ids@[work@[k] as int] == next by {
                        assert(work@[k] == old_work[k]);
                    }
                    assert(layout.spreading(
                        before,
                        ids@,
                        work@,
                        seed as int,
                        next as int,
                        c as int,
                    ));
                }
                spread_from(
                    &mut ids,
                    &mut work,
                    c,
                    next,
                    width,
                    height,
                    walls,
                    floors,
                    Ghost(before),
                    Ghost(seed as int),
                );
            }
            proof {
                assert(work@ =~= Seq::<usize>::empty());
                layout.lemma_spread_done(before, ids@, seed as int, next as int);
            }
            next += 1;
        } else {
            proof {
                let i = seed as int;
                assert(!layout.leads(i)) by {
                    if layout.leads(i) {
                        assert(ids@[i] == count(i, layout.leaders()));
                    }
                }
                assert(!layout.leaders()(i));
            }
        }
        seed += 1;
    }
    proof {
        layout.lemma_labelled_all(ids@, next as int);
    }
    Some(ids)
}

impl Board {
    /// The undecided board of a puzzle that is given by its walls and
    /// floors: the regions are those that the separators mark out, as
    /// `derive_partitions` numbers them.
    ///
    /// Returns `None` where the lists of separators do not fit the
    /// dimensions, or the hints do not make a well-formed board.
    pub fn from_separators(
        width: usize,
        height: usize,
        walls: &Vec<bool>,
        floors: &Vec<bool>,
        row_hints: Vec<isize>,
        col_hints: Vec<isize>,
    ) -> (board: Option<Board>)
        ensures
            board.is_some() <==> {
                &&& (Layout {
                    width: width as nat,
                    height: height as nat,
                    walls: walls@,
                    floors: floors@,
                }).wf()
                &&& Grid::hints_fit(width as nat, height as nat, row_hints@, col_hints@)
            },
            board matches Some(b) ==> {
                &&& b.wf()
                &&& b@.settled()
                &&& b@ == Grid::fresh(
                    width as nat,
                    height as nat,
                    b@.regions(),
                    row_hints@,
                    col_hints@,
                )
                &&& (Layout {
                    width: width as nat,
                    height: height as nat,
                    walls: walls@,
                    floors: floors@,
                }).numbered_by(b@.regions())
            },
    {
        match derive_partitions(width, height, walls, floors) {
            None => None,
            Some(partitions) => {
                let ghost ids = partitions@;
                let board = Board::new(width, height, partitions, row_hints, col_hints);
                proof {
                    let grid = Grid::fresh(
                        width as nat,
                        height as nat,
                        ids,
                        row_hints@,
                        col_hints@,
                    );
                    assert(grid.regions() =~= ids);
                }
                board
            },
        }
    }
}

} // verus!
