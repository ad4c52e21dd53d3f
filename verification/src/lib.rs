//! A chess position representation and legal-move-generation engine.
//!
//! The crate models a board state, parses that state from the standard
//! positional notation, enumerates pseudo-legal moves per piece family,
//! applies moves to produce successor states, and filters pseudo-legal
//! moves down to legal ones by detecting whether a king would be left
//! in check.

pub mod board;
pub mod fen;
pub mod moves;
pub mod generate;
pub mod legality;
pub mod display;
