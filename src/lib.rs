pub mod game_result;
pub mod machine;
pub mod move_scores;
pub mod moves;
pub mod tic_tac_toe;

pub use game_result::{GameResult, WinReason};
pub use machine::Machine;
pub use move_scores::MoveScores;
pub use moves::{Move, MoveSet, ParseError};
pub use tic_tac_toe::{Mark, Player, State};
