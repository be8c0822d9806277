//! The integer core of a two-dimensional particle-life engine.
//!
//! - `grid`: the uniform partition of the world into cells, rebuilt from the
//!   cell of every particle, with the neighbour walk of the force pass for a
//!   bounded (`Barrier`) or toroidal (`Wrap`) world and the merge of
//!   per-cell results back into per-particle slots.
//! - `color_table`: the palette and its interaction matrix, kept square as
//!   colours come and go.
//! - `spawn`: the seeded generator of a spawn, colour ids and their clamping.
//! - `settings`: the edge topology and fresh seed strings.
//!
//! Positions, velocities and the force law are floating-point values and
//! are left to the caller; the matrix's coefficients and the merged values
//! are generic for that reason.

pub mod color_table;
pub mod grid;
pub mod neighbors;
pub mod settings;
pub mod spawn;
