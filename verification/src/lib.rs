//! A verified model of the Tower of Hanoi puzzle: three pegs holding
//! size-ordered disks, textual move commands, and the legality rule that a
//! disk may only rest on a strictly larger one.
//!
//! The library owns all puzzle logic: the peg state container ([`pegs`]),
//! the command parser and the game controller ([`game`]), and the error
//! taxonomy ([`errors`]). Reading standard input and printing the board are
//! left to the surrounding program.

pub mod errors;
pub mod game;
pub mod pegs;

pub use errors::HanoiError;
pub use game::LineOutcome;
pub use game::ParsedCommand;
pub use game::TowerOfHanoi;
pub use pegs::PegId;
pub use pegs::Towers;
