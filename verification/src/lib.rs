//! Game engine for a sliding-tile merge puzzle on a configurable grid.
//!
//! The library owns the board state and the deterministic slide-and-merge
//! rules; rendering and keyboard handling live outside, behind the narrow
//! interface that `game::Game` exposes.

pub mod game;
pub mod line;
pub mod model;
