//! Rules engine for the dice game Farkle: die faces, scoring of a selection of
//! dice, the state machine of one turn and a round-robin game over players.
pub mod dice;
pub mod game;
pub mod player;
pub mod retain_indexed;
pub mod scoring;
pub mod turn;

pub use dice::{face_from_byte, Dice, DiceTrait, RegularDice, RollResult};
pub use game::{FarkleGame, ZonkCreationError};
pub use player::{Player, PlayerCreationError};
pub use retain_indexed::RetainIndexed;
pub use scoring::get_score;
pub use turn::{RollError, Turn, TurnState, UseDiceError};
