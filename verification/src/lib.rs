//! Verified lattice, cluster and scheduling logic of a statistical-physics
//! course project: the periodic Ising lattice with its Metropolis and Wolff
//! updates, the temperature-ramp scheduler, and the integer parts of the
//! molecular-dynamics and spectral-flow exercises.

pub mod ising;
pub mod flow;
pub mod md;
