//! Conway's Game of Life on a toroidal grid, seeded from run-length encoded
//! patterns.
pub mod cells;
pub mod parsers;
pub mod shape;
pub mod universe;

pub use parsers::RleSymbol;
