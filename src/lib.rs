//! A `D`-dimensional grid of samples with row-major storage, bounds-checked
//! access, the stencil and interpolation-corner lookups that finite-difference
//! operators are built on, and a row-major sweep over every cell.

pub mod coord;
pub mod grid;
pub mod index;
pub mod iter;

pub use coord::CoordInt;
pub use grid::{capacity, corner_bit, Grid};
pub use iter::GridIter;
