//! Core engine of a 2048-style sliding-tile puzzle.
//!
//! A board holds an `N x N` grid of tiles, each stored as the exponent of its
//! displayed value (`0` marks an empty cell, a stored `v > 0` displays as
//! `2^v`).  The engine applies directional shift-and-merge moves, reports
//! movement traces for a UI, detects terminal states, and snapshots the board
//! as a JSON document.

pub mod codec;
pub mod game;
pub mod lanes;
pub mod sums;

pub use game::Board;
pub use game::Core;
pub use game::Direction;
