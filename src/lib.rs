//! Parsing, solving and exporting character-grid mazes.
//!
//! A maze is a rectangular grid of the symbols `S` (start), `G` (goal),
//! `.` (open) and `#` (wall). The library locates the start, runs a
//! depth-first search to a goal cell, rebuilds the route from the
//! predecessor relation and lays out the maze and route as a document.

pub mod cell;
pub mod error;
pub mod export;
pub mod grid;
pub mod search;
