//! The player-facing side of the engine: the kinds of opponent, the
//! player capability, and the minimax bot.

pub mod player;

use vstd::prelude::*;

verus! {

/// Against whom the game is played.
pub enum Opponent {
    Human,
    Bot,
}

} // verus!
