//! A Texas Hold'em engine: cards and hand ranking, side pots and showdown
//! resolution, the betting state machine, the binary wire protocol with its
//! length-prefix framing, and the lobby that owns the game state.
pub mod cards;
pub mod game;
pub mod events;
pub mod protocol;
pub mod framing;
pub mod lobby;
pub mod commands;
