//! Constraint propagation for the Aquarium logic puzzle.
//!
//! An Aquarium board is a rectangular grid cut into regions ("aquariums").
//! Each region is filled with water up to some level, or left dry; the
//! numbers beside the grid say how many cells of each row and each column
//! hold water.  The solver here marks cells as flooded or as impossible to
//! flood by local deductions on single rows and columns, and repeats them
//! until nothing more follows.  It does not guess: a puzzle that needs
//! trial and error is left partly undecided.
//!
//! The modules, from the ground up:
//!
//! * [`cell`]: the cell and separator types;
//! * [`count`]: the counting function that every tally is stated with;
//! * [`place`]: row-major order;
//! * [`grid`]: the mathematical model of a board, `Grid`;
//! * [`board`]: the board itself, its constructors, its cell queries and
//!   its two primitives, `flood` and `invalidate`;
//! * [`tally`]: counts over rows and columns, and `is_solved`;
//! * [`columns`]: what every column still needs, by way of strided slices;
//! * [`rules`]: the four deduction rules, their passes and the round, as
//!   functions on grids;
//! * [`laws`]: what holds of the rules on every grid;
//! * [`solver`]: the rules, the passes, `round` and `solve` on a board;
//! * [`layout`]: walls and floors, and which cells they leave connected;
//! * [`regions`]: the regions that walls and floors mark out;
//! * [`samples`]: a sample puzzle.
use vstd::prelude::*;

pub mod board;
pub mod cell;
pub mod columns;
pub mod count;
pub mod grid;
pub mod laws;
pub mod layout;
pub mod place;
pub mod regions;
pub mod rules;
pub mod samples;
pub mod solver;
pub mod tally;

pub use board::Board;
pub use cell::{Cell, CellState, FloorState, WallState};
pub use grid::Grid;
pub use layout::Layout;
pub use regions::derive_partitions;
