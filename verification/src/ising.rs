//! The two-dimensional Ising model.

pub mod lattice;
pub mod wolff;
pub mod metropolis;
pub mod ramp;
pub mod cli;
pub mod temperature_sweep;
pub mod snapshots;
pub mod analysis;
