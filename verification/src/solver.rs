//! The solver family. Every solver returns one position per entry of the
//! problem's `musicians` sequence, or an explicit error where the stage
//! cannot hold that many players.

pub mod ga;
pub mod random_of_n;
pub mod trivial;

use vstd::prelude::*;

verus! {

/// Why a solver could not produce a placement.
#[derive(Clone, Copy, PartialEq, Eq, Structural, Debug)]
pub enum SolveError {
    /// The stage's margin-inset grid holds fewer cells than there are
    /// players to place.
    InsufficientStage { players: usize, cells: u64 },
    /// The randomized generator exhausted its draw budget without finding a
    /// free cell.
    RetriesExhausted,
}

} // verus!
