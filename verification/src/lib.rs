//! Perfect mazes on a rectangular grid, built with randomized Kruskal.
//!
//! `graph` says what it means for two nodes to be joined by open passages,
//! `union_find` keeps track of which cells already are, and `maze` builds the
//! grid, opens the walls and renders the result.

pub mod graph;
pub mod grid;
pub mod kruskal;
pub mod maze;
pub mod random;
pub mod union_find;
