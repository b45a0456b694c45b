//! The two-dimensional Lennard-Jones fluid: its integer set-up rules, its
//! integrator markers and its error kinds.

pub mod analysis;
pub mod fluid;
pub mod simulation;
