//! The separators of a board, and which cells they leave connected.
//!
//! A puzzle may be given by its walls and floors instead of its regions.
//! A [`Layout`] is that form as a mathematical value.  Two cells lie in one
//! region exactly if a path leads from one to the other that crosses no
//! wall and no floor.
use vstd::prelude::*;
use crate::count::count;

verus! {

/// The walls and floors of a grid.
pub struct Layout {
    /// The number of columns.
    pub width: nat,
    /// The number of rows.
    pub height: nat,
    /// Whether a wall stands to the right of a cell, for each cell but those
    /// of the last column, row by row from the top.
    pub walls: Seq<bool>,
    /// Whether a floor lies below a cell, for each cell but those of the
    /// last row, row by row from the top.
    pub floors: Seq<bool>,
}

impl Layout {
    /// The number of walls that a grid of these dimensions has room for.
    pub open spec fn wall_places(self) -> int {
        if self.width == 0 {
            0
        } else {
            (self.width - 1) * self.height
        }
    }

    /// The number of floors that a grid of these dimensions has room for.
    pub open spec fn floor_places(self) -> int {
        if self.height == 0 {
            0
        } else {
            self.width * (self.height - 1)
        }
    }

    /// There is one entry for each place of a wall and of a floor, and the
    /// number of cells fits a signed machine word.
    pub open spec fn wf(self) -> bool {
        &&& self.width * self.height <= isize::MAX
        &&& self.walls.len() == self.wall_places()
        &&& self.floors.len() == self.floor_places()
    }

    /// The number of cells.
    pub open spec fn size(self) -> int {
        (self.width * self.height) as int
    }

    /// Column `x` of row `y` lies on the grid.
    pub open spec fn contains(self, x: int, y: int) -> bool {
        0 <= x < self.width && 0 <= y < self.height
    }

    /// A wall stands between the cell at `(x, y)` and its right-hand
    /// neighbour.
    pub open spec fn wall(self, x: int, y: int) -> bool {
        self.walls[y * (self.width - 1) + x]
    }

    /// A floor lies between the cell at `(x, y)` and the cell below it.
    pub open spec fn floor(self, x: int, y: int) -> bool {
        self.floors[y * self.width + x]
    }

    /// The cells at `(x1, y1)` and `(x2, y2)` are neighbours, side by side
    /// or one above the other, with no separator between them.
    pub open spec fn open_between(self, x1: int, y1: int, x2: int, y2: int) -> bool {
        &&& self.contains(x1, y1)
        &&& self.contains(x2, y2)
        &&& {
            ||| y1 == y2 && x2 == x1 + 1 && !self.wall(x1, y1)
            ||| y1 == y2 && x1 == x2 + 1 && !self.wall(x2, y1)
            ||| x1 == x2 && y2 == y1 + 1 && !self.floor(x1, y1)
            ||| x1 == x2 && y1 == y2 + 1 && !self.floor(x1, y2)
        }
    }

    /// The cells at places `i` and `j`, counted row by row, are neighbours
    /// with no separator between them.
    pub open spec fn open(self, i: int, j: int) -> bool {
        &&& 0 <= i < self.size()
        &&& 0 <= j < self.size()
        &&& self.open_between(
            i % (self.width as int),
            i / (self.width as int),
            j % (self.width as int),
            j / (self.width as int),
        )
    }

    /// `path` is a walk over the grid that crosses no separator: a list of
    /// places of cells, each a neighbour of the one before with no separator
    /// between them.
    pub open spec fn is_path(self, path: Seq<int>) -> bool {
        &&& path.len() > 0
        &&& forall|k: int| 0 <= k < path.len() ==> 0 <= #[trigger] path[k] < self.size()
        &&& forall|k: int| 0 <= k < path.len() - 1 ==> self.open(#[trigger] path[k], path[k + 1])
    }

    /// `path` is a walk without crossing a separator from the cell at place
    /// `i` to the cell at place `j`.
    pub open spec fn joins(self, path: Seq<int>, i: int, j: int) -> bool {
        self.is_path(path) && path[0] == i && path[path.len() - 1] == j
    }

    /// The cells at places `i` and `j` lie in one region: a walk leads from
    /// one to the other that crosses no separator.
    pub open spec fn connected(self, i: int, j: int) -> bool {
        exists|path: Seq<int>| self.joins(path, i, j)
    }

    /// The cell at place `i` is the first of its region: no cell at a lower
    /// place is connected to it.
    pub open spec fn leads(self, i: int) -> bool {
        forall|k: int| 0 <= k < i ==> !#[trigger] self.connected(k, i)
    }

    /// Whether the cell at place `i` is the first of its region, as a
    /// predicate on `i`.
    pub open spec fn leaders(self) -> spec_fn(int) -> bool {
        |i: int| self.leads(i)
    }

    /// `ids` gives each cell its region: cells have the same id exactly if
    /// they are connected, and the regions are numbered from 0 in the order
    /// of their first cells.
    pub open spec fn numbered_by(self, ids: Seq<isize>) -> bool {
        &&& ids.len() == self.size()
        &&& forall|i: int, j: int|
            0 <= i < self.size() && 0 <= j < self.size() ==> (#[trigger] ids[i] == #[trigger] ids[j]
                <==> self.connected(i, j))
        &&& forall|i: int|
            0 <= i < self.size() && self.leads(i) ==> #[trigger] ids[i] == count(i, self.leaders())
    }

    /// Every cell is connected to itself.
    pub proof fn lemma_connected_self(self, i: int)
        requires
            0 <= i < self.size(),
        ensures
            self.connected(i, i),
    {
        assert(self.joins(seq![i], i, i));
    }

    /// A walk can be taken one cell further.
    pub proof fn lemma_connected_step(self, i: int, j: int, k: int)
        requires
            self.connected(i, j),
            self.open(j, k),
        ensures
            self.connected(i, k),
    {
        let path = choose|path: Seq<int>| self.joins(path, i, j);
        let longer = path.push(k);
        assert forall|n: int| 0 <= n < longer.len() - 1 implies self.open(
            #[trigger] longer[n],
            longer[n + 1],
        ) by {
            if n < path.len() - 1 {
                assert(self.open(path[n], path[n + 1]));
            }
        }
        assert(self.joins(longer, i, k));
    }

    /// A walk can be taken backwards.
    pub proof fn lemma_connected_symmetric(self, i: int, j: int)
        requires
            self.connected(i, j),
        ensures
            self.connected(j, i),
    {
        let path = choose|path: Seq<int>| self.joins(path, i, j);
        let back = Seq::new(path.len(), |n: int| path[path.len() - 1 - n]);
        assert forall|n: int| 0 <= n < back.len() - 1 implies self.open(
            #[trigger] back[n],
            back[n + 1],
        ) by {
            let m = path.len() - 2 - n;
            assert(self.open(path[m], path[m + 1]));
        }
        assert(self.joins(back, j, i));
    }

    /// Two walks, one ending where the other starts, make one walk.
    pub proof fn lemma_connected_transitive(self, i: int, j: int, k: int)
        requires
            self.connected(i, j),
            self.connected(j, k),
        ensures
            self.connected(i, k),
    {
        let first = choose|path: Seq<int>| self.joins(path, i, j);
        let second = choose|path: Seq<int>| self.joins(path, j, k);
        let whole = first + second.subrange(1, second.len() as int);
        assert forall|n: int| 0 <= n < whole.len() - 1 implies self.open(
            #[trigger] whole[n],
            whole[n + 1],
        ) by {
            if n < first.len() - 1 {
                assert(self.open(first[n], first[n + 1]));
            } else {
                let m = n - (first.len() - 1);
                assert(self.open(second[m], second[m + 1]));
            }
        }
        assert(self.joins(whole, i, k));
    }

    /// Every region has a first cell: each cell is connected to a cell at
    /// the same or a lower place to which no cell at a lower place still is
    /// connected.
    pub proof fn lemma_leader_exists(self, i: int) -> (k: int)
        requires
            0 <= i < self.size(),
        ensures
            0 <= k <= i,
            self.connected(k, i),
            self.leads(k),
        decreases i,
    {
        if self.leads(i) {
            self.lemma_connected_self(i);
            i
        } else {
            let m = choose|m: int| 0 <= m < i && self.connected(m, i);
            let k = self.lemma_leader_exists(m);
            self.lemma_connected_transitive(k, m, i);
            k
        }
    }

    /// The regions can be numbered in one way only.
    pub proof fn lemma_numbering_unique(self, a: Seq<isize>, b: Seq<isize>)
        requires
            self.numbered_by(a),
            self.numbered_by(b),
        ensures
            a == b,
    {
        assert forall|i: int| 0 <= i < a.len() implies a[i] == b[i] by {
            let k = self.lemma_leader_exists(i);
            assert(a[k] == a[i] <==> self.connected(k, i));
            assert(b[k] == b[i] <==> self.connected(k, i));
        }
        assert(a =~= b);
    }

    /// Neighbours with no separator between them get the same id.
    pub proof fn lemma_open_shares_region(self, ids: Seq<isize>, i: int, j: int)
        requires
            self.numbered_by(ids),
            self.open(i, j),
        ensures
            ids[i] == ids[j],
    {
        self.lemma_connected_self(i);
        self.lemma_connected_step(i, i, j);
    }

    /// A walk that starts inside a set of cells which no open border leads
    /// out of stays inside it.
    pub proof fn lemma_path_stays_inside(self, inside: spec_fn(int) -> bool, path: Seq<int>, n: int)
        requires
            self.is_path(path),
            inside(path[0]),
            forall|a: int, b: int| inside(a) && #[trigger] self.open(a, b) ==> inside(b),
            0 <= n < path.len(),
        ensures
            inside(path[n]),
        decreases n,
    {
        if n > 0 {
            self.lemma_path_stays_inside(inside, path, n - 1);
            assert(self.open(path[n - 1], path[n]));
        }
    }

    /// A set of cells which no open border leads out of holds every cell
    /// connected to one of its own.
    pub proof fn lemma_closed_holds_region(self, inside: spec_fn(int) -> bool, i: int, j: int)
        requires
            inside(i),
            self.connected(i, j),
            forall|a: int, b: int| inside(a) && #[trigger] self.open(a, b) ==> inside(b),
        ensures
            inside(j),
    {
        let path = choose|path: Seq<int>| self.joins(path, i, j);
        self.lemma_path_stays_inside(inside, path, path.len() - 1);
    }
}

} // verus!
