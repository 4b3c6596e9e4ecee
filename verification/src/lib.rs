//! Referee library for the board game Hex.
//!
//! The board model with its connectivity-based win detector, the algebraic
//! move codec, the bot wire-protocol grammar and the match-turn state machine
//! all live here, each with a verified contract.  Process handling, terminal
//! rendering and the operator loop sit outside the library and drive it
//! through these entry points.

pub mod board;
pub mod codec;
pub mod controller;
pub mod display;
pub mod laws;
pub mod protocol;
pub mod testing;
pub mod text;
