//! Rules engine for a match-five puzzle played on a square board of
//! coloured circles.
//!
//! The player relocates one circle per turn along a path of empty cells;
//! straight runs of five or more circles of one colour disappear and score;
//! after every move the board is refilled from a preview batch until no room
//! is left.  Every executable function carries a contract.  Verus proves them
//! all but those of the two calls into `rand`, which it believes.

pub mod common;
pub mod game_state;
pub mod matching;
pub mod path;
pub mod refill;
mod table;
pub mod turn;
