//! Simulation core of a turn-based, hex-grid tactical strategy game.
//!
//! The engine decides where units may legally move, what a move costs,
//! which tiles are currently reachable, and whose turn it is. It is a
//! pure, synchronous library: rendering, input devices and procedural
//! terrain generation are external collaborators that feed it plain
//! values and consume its results.

pub mod hex;
pub mod terrain;
pub mod grid;
pub mod reach;
pub mod path;
pub mod turn;
pub mod control;
pub mod command;
