use vstd::prelude::*;

verus! {

/// The ways a request to the game engine can fail.
#[derive(Debug, Clone, Copy, PartialEq, Eq, Structural)]
pub enum GameError {
    /// A position lies outside the board; carries its coordinates.
    OutOfBoundsError { x: usize, y: usize },
    /// The targeted cell is already revealed.
    RepeatMoveError,
    /// The move is malformed or otherwise not playable.
    InvalidMoveError,
    /// The requested bomb count does not fit outside the safe region.
    InvalidConfigError,
}

} // verus!
