//! An exact 3D packing solver: given a rectangular container and a multiset of
//! rectangular block shapes (each placeable in any axis-aligned rotation), the
//! search engine finds an assignment of block instances to non-overlapping
//! positions that exactly fills the container volume, or reports that none was
//! found.
//!
//! `data_structs` holds the block, position, parameter and solution types;
//! `model` holds the mathematical model (grid index bijection, cell coverage,
//! occupancy counting, volume accounting) that the contracts are stated over;
//! `solver` holds the verified engine: grid state with place/undo, the
//! placement validator, the necessary-frontier-cell selector, the recursive
//! depth-first search and the per-shape first-level fan-out.

pub mod data_structs;
pub mod model;
pub mod solver;
