//! The values read from the player: the game parameters asked for once at
//! startup, and the plays typed during the game.

pub mod arguments;
pub mod plays;
