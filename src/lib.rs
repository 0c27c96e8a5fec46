//! Conway's Game of Life on a bounded, bit-packed grid: the grid itself, the
//! birth and survival rule, stepping one generation into a reused or fresh
//! grid, and reading a seed of live cells from text.

mod bits;
pub mod grid;
pub mod rules;
pub mod seed;
pub mod run;
pub mod octree;
