//! A randomized perfect-maze generator and depth-first maze solver on a
//! rectangular grid of cells.
//!
//! [`generate::generate_maze`] carves a spanning tree of corridors into an
//! all-wall grid by randomized recursive backtracking and reports an end
//! coordinate; [`solve::solve_maze`] searches the carved grid exhaustively
//! for a route between two coordinates, marking the cells it explores.

pub mod generate;
pub mod grid;
pub mod solve;
