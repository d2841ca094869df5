//! The ways a move command can be rejected. Every rejection is recoverable:
//! the game state is left exactly as it was before the command.

use vstd::prelude::*;

verus! {

/// Why a command was rejected. All variants leave the puzzle state unchanged.
#[derive(Clone, Copy, Debug, PartialEq, Eq, Structural)]
pub enum HanoiError {
    /// A token of the command names no known peg.
    InvalidPegIdentifier,
    /// The source peg holds no disk to move.
    EmptyPegError,
    /// The input line does not split into a source and a destination token.
    MalformedCommandError,
    /// The moving disk is not strictly smaller than the destination's top
    /// disk; both sizes are reported.
    IllegalMoveError { moving: usize, blocking: usize },
}

} // verus!
