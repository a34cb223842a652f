//! A Reversi (Othello) game engine: board state, the capture-based move
//! legality rule, terminal-status classification, and a depth-bounded
//! minimax search for a computer opponent.
//!
//! Every function is specified by `requires`/`ensures` contracts and
//! verified. Rendering, input prompting and the outer game loop live in a
//! separate, unverified front end that consumes this crate.

pub mod play;
pub mod reversi;
mod seq_facts;

pub use crate::play::player::MinimaxBot;
pub use crate::play::player::MinimaxStrategy;
pub use crate::play::player::Player;
pub use crate::play::Opponent;
pub use crate::reversi::board::Board;
pub use crate::reversi::board::GameStatus;
pub use crate::reversi::board::PlaceError;
pub use crate::reversi::display::DisplayOptions;
pub use crate::reversi::field::Field;
pub use crate::reversi::Color;
