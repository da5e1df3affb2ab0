//! Verified core of a water-sort puzzle: glasses hold stacks of colored
//! units, a pour moves the top run of one glass onto another, and a solver
//! searches the state space for a shortest winning move sequence.
use vstd::prelude::*;

pub mod board;
pub mod canonical;
pub mod generator;
pub mod laws;
pub mod glass;
pub mod level;
pub mod mixer;
pub mod persist;
pub mod solver;
pub mod ui;
pub mod space;

verus! {

/// Number of distinct colors a level may use; color ids run from 1 to this
/// value, and 0 marks an empty cell.
pub const MAX_COLORS: usize = 12;

/// Largest number of glasses a saved level record can hold; records are
/// zero-padded to this many glasses so that every record has one width.
pub const MAX_GLASSES_PER_LEVEL: usize = 16;

} // verus!
