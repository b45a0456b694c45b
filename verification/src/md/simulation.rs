//! The two integrators of the dimer and fluid runs.

use vstd::prelude::*;

verus! {

/// Forward Euler: positions and velocities from the old rates.
pub struct Euler;

/// Velocity Verlet: half kick, drift, new forces, half kick.
pub struct VelocityVerlet;

} // verus!
