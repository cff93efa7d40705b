//! vivere: the integer heart of a deterministic, conserved-energy world.
//!
//! This crate holds the parts of the simulation whose behaviour is exact
//! integer logic: the seeded random stream every run is replayed from, the
//! wrapped neighbour grid, the per-tick permutations and samples, the
//! ordering and matching of wiring genes, the genome census, the framing
//! of snapshot files, the stamping and compression of rendered frames, and
//! the decisions the runner and the interactive windows make between
//! ticks. Each is stated against a mathematical model and proved.

pub mod census;
pub mod controls;
pub mod counters;
pub mod genome;
pub mod grid;
pub mod heredity;
pub mod raster;
pub mod rng;
pub mod roster;
pub mod sampling;
pub mod schedule;
pub mod snapshot;
