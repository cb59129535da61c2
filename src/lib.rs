//! Conway's Game of Life: the cell rule, a grid engine that advances every cell
//! of a fixed lattice by one generation at a time, and the bookkeeping of a
//! recording (frame order, frame files, the per-tick schedule).

pub mod cell;
pub mod store;
pub mod grid;
pub mod laws;
pub mod frames;
pub mod disk;
pub mod schedule;
