//! A tile-clearing board puzzle and an automated solver for it.
//!
//! A rectangular grid holds colored cells. Selecting an occupied cell removes
//! the whole connected region of cells of that color (4-directional), after
//! which the remaining cells of each column fall to the bottom. The solver
//! searches for a move sequence that clears the board entirely, using a
//! width-bounded, depth-bounded beam search with a small lookahead heuristic.

pub mod cells;
pub mod cluster;
pub mod color;
pub mod grid;
pub mod parser;
pub mod shape;
pub mod solver;
