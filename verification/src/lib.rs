//! Replay decoding and board simulation for recorded Minesweeper sessions.
//!
//! A finished game session arrives as a compact text encoding: a board size,
//! a mine layout, and two time-stamped action logs (cell openings and flag
//! changes).  This crate decodes that encoding, reconstructs the board with
//! its per-cell adjacency counts, replays the actions in tick order through
//! a flood-fill opening algorithm, and yields one frame per tick together
//! with a display duration and a completion percentage.  Rendering the
//! frames to an image or an animation is left to the binary around it.

pub mod base62;
pub mod board;
pub mod error;
pub mod parser;
pub mod scheduler;
pub mod text;
