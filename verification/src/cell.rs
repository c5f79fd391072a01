//! Cells, their states, and the separators between neighbouring cells.
use vstd::prelude::*;

verus! {

/// What is known of one cell.
///
/// A cell starts out `Empty` (undecided).  It may become `Flooded` or
/// `Invalid`; both are final.
#[derive(PartialEq, Eq, Structural, Hash, Copy, Clone, Debug)]
pub enum CellState {
    /// Undecided.
    Empty,
    /// Known to hold water.
    Flooded,
    /// Known to hold no water.
    Invalid,
}

impl CellState {
    /// The character that stands for this state in a drawing of the board.
    pub open spec fn glyph(self) -> char {
        match self {
            CellState::Empty => ' ',
            CellState::Flooded => '*',
            CellState::Invalid => 'X',
        }
    }

    /// Whether a cell in state `self` may later be found in state `later`:
    /// a state is kept, or an undecided cell is decided.
    pub open spec fn may_become(self, later: CellState) -> bool {
        self == later || self == CellState::Empty
    }

    /// The character that stands for this state in a drawing of the board.
    pub fn rep(&self) -> (c: char)
        ensures
            c == self.glyph(),
    {
        match self {
            CellState::Empty => ' ',
            CellState::Flooded => '*',
            CellState::Invalid => 'X',
        }
    }
}

/// The separator between a cell and its right-hand neighbour.
#[derive(PartialEq, Eq, Structural, Copy, Clone, Debug)]
pub enum WallState {
    /// The two cells belong to one region.
    Open,
    /// The two cells belong to different regions.
    Wall,
}

impl WallState {
    /// The character that stands for this separator in a drawing.
    pub open spec fn glyph(self) -> char {
        match self {
            WallState::Open => '|',
            WallState::Wall => '#',
        }
    }

    /// The separator that `state` stands for: a wall where it is `true`.
    pub open spec fn of(state: bool) -> WallState {
        if state {
            WallState::Wall
        } else {
            WallState::Open
        }
    }

    /// The character that stands for this separator in a drawing.
    pub fn rep(&self) -> (c: char)
        ensures
            c == self.glyph(),
    {
        match self {
            WallState::Open => '|',
            WallState::Wall => '#',
        }
    }

    /// A wall where `state` is `true`, no wall otherwise.
    pub fn from_bool(state: bool) -> (w: WallState)
        ensures
            w == WallState::of(state),
    {
        if state {
            WallState::Wall
        } else {
            WallState::Open
        }
    }

    /// The character for a wall that is present (`true`) or absent.
    pub fn rep_bool(state: bool) -> (c: char)
        ensures
            c == WallState::of(state).glyph(),
    {
        WallState::from_bool(state).rep()
    }
}

/// The separator between a cell and the cell below it.
#[derive(PartialEq, Eq, Structural, Copy, Clone, Debug)]
pub enum FloorState {
    /// The two cells belong to one region.
    Open,
    /// The two cells belong to different regions.
    Bott,
}

impl FloorState {
    /// The character that stands for this separator in a drawing.
    pub open spec fn glyph(self) -> char {
        match self {
            FloorState::Open => '-',
            FloorState::Bott => '#',
        }
    }

    /// The separator that `state` stands for: a floor where it is `true`.
    pub open spec fn of(state: bool) -> FloorState {
        if state {
            FloorState::Bott
        } else {
            FloorState::Open
        }
    }

    /// The character that stands for this separator in a drawing.
    pub fn rep(&self) -> (c: char)
        ensures
            c == self.glyph(),
    {
        match self {
            FloorState::Open => '-',
            FloorState::Bott => '#',
        }
    }

    /// A floor where `state` is `true`, no floor otherwise.
    pub fn from_bool(state: bool) -> (f: FloorState)
        ensures
            f == FloorState::of(state),
    {
        if state {
            FloorState::Bott
        } else {
            FloorState::Open
        }
    }

    /// The character for a floor that is present (`true`) or absent.
    pub fn rep_bool(state: bool) -> (c: char)
        ensures
            c == FloorState::of(state).glyph(),
    {
        FloorState::from_bool(state).rep()
    }
}

/// One cell of the board: what is known of it, and the region it lies in.
#[derive(PartialEq, Eq, Structural, Hash, Copy, Clone, Debug)]
pub struct Cell {
    /// What is known of the cell.
    pub state: CellState,
    /// The id of the cell's region.  Cells with equal ids form one region.
    pub partition: isize,
}

/// The decimal digits of `n`, the most significant first.
pub open spec fn digits(n: nat) -> Seq<char>
    decreases n,
{
    if n < 10 {
        seq![(('0' as u8) + n) as u8 as char]
    } else {
        digits(n / 10).push((('0' as u8) + n % 10) as u8 as char)
    }
}

/// The number `n` written in decimal, with a minus sign where it is
/// negative, and with blanks before it where that is shorter than two
/// characters.
pub open spec fn two_wide(n: int) -> Seq<char> {
    if n < 0 {
        seq!['-'] + digits((-n) as nat)
    } else if n < 10 {
        seq![' '] + digits(n as nat)
    } else {
        digits(n as nat)
    }
}

/// A state's character followed by two blanks.
///
/// Calls `format!` with `"{}  "`.  Trusted: the text is the character and
/// two blanks.
#[verifier::external_body]
fn text_without_partition(glyph: char) -> (text: String)
    ensures
        text@ == seq![glyph, ' ', ' '],
{
    format!("{}  ", glyph)
}

/// A state's character followed by a region id.
///
/// Calls `format!` with `"{}{:>2}"`.  Trusted: the text is the character,
/// then the id in decimal, right-aligned in a field two characters wide.
#[verifier::external_body]
fn text_with_partition(glyph: char, partition: isize) -> (text: String)
    ensures
        text@ == seq![glyph] + two_wide(partition as int),
{
    format!("{}{:>2}", glyph, partition)
}

impl Cell {
    /// The same cell in another state.
    pub open spec fn with_state(self, state: CellState) -> Cell {
        Cell { state, partition: self.partition }
    }

    /// The text that stands for this cell in a drawing of the board.
    pub open spec fn text(self, show_partition: bool) -> Seq<char> {
        if show_partition {
            seq![self.state.glyph()] + two_wide(self.partition as int)
        } else {
            seq![self.state.glyph(), ' ', ' ']
        }
    }

    /// The text that stands for this cell in a drawing of the board: the
    /// character of its state, followed by two blanks or, where
    /// `show_partition` is set, by the id of its region.  It is
    /// `rep_width()` characters long unless the id needs more than two.
    pub fn rep(&self, show_partition: bool) -> (text: String)
        ensures
            text@ == self.text(show_partition),
    {
        if !show_partition {
            text_without_partition(self.state.rep())
        } else {
            text_with_partition(self.state.rep(), self.partition)
        }
    }

    /// The number of characters that a drawn cell takes.
    pub fn rep_width() -> (n: usize)
        ensures
            n == 3,
    {
        3
    }
}

} // verus!
