use crate::tic_tac_toe::Player;
use vstd::prelude::*;

verus! {

/// The result of a game.
#[derive(Debug, Clone, Copy, PartialEq, Eq, Hash, Structural)]
pub enum GameResult {
    Draw,
    Win { winner: Player, reason: WinReason },
}

/// A reason for winning a game.
#[derive(Debug, Clone, Copy, PartialEq, Eq, Hash, Structural)]
pub enum WinReason {
    /// Three marks in a row or column.
    RowOrColumn,
    /// Three marks on a diagonal.
    Diagonal,
    /// The opponent resigned.
    Resignation,
}

} // verus!
