use vstd::prelude::*;

pub mod algorithms;
pub mod components;

verus! {

/// Which rule a rejected placement broke.
#[derive(Clone, Copy, Debug, PartialEq, Eq, Structural)]
pub enum PlacementErrorKind {
    /// The index lies outside 1..=9.
    InvalidPosition,
    /// The target cell already carries a mark.
    CellOccupied,
}

/// Error returned by `Board::place_move` when a move is rejected.
#[derive(Clone, Copy, Debug, PartialEq, Eq, Structural)]
pub struct BoardPlacementError {
    pub kind: PlacementErrorKind,
}

/// A move chosen by the search: a cell index in 1..=9, or -1 for
/// "no move" (a leaf), together with the score of the continuation.
#[derive(Clone, Copy, Debug, PartialEq, Eq, Structural)]
pub struct OptimalMove {
    pub position: i8,
    pub score: i8,
}

} // verus!
