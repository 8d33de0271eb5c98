//! Core engine of a 4x4 sliding-tile merge puzzle.
//!
//! The library owns the grid transformation (pack, merge, pack again), the
//! win/loss state machine, the undo history and the persistence codec.
//! Presentation, input mapping and file I/O live outside the library and
//! talk to it through plain commands, records and state snapshots.

pub mod board;
pub mod game;
pub mod line;
mod rng;

pub use board::Direction;
pub use board::evaluate;
pub use game::Command;
pub use game::DecodeError;
pub use game::Game;
pub use game::SaveRecord;
pub use game::SnapshotRecord;
pub use line::slide_row_left;
pub use line::slide_row_right;
