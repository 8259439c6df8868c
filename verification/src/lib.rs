//! A verified engine for Conway's Game of Life on an unbounded grid of
//! signed integer coordinates. The live cells are kept as a sparse set;
//! one generation is advanced by scanning each live cell's Moore
//! neighborhood, so the cost of a step is proportional to the number of
//! live cells rather than to any grid area.

pub mod cell;
pub mod grid;
pub mod rules;
