//! The advection-diffusion line and the two-dimensional flow exercise: the
//! integrator names and choice, and the integer bookkeeping of the FFT.

pub mod integrator;
pub mod line;
pub mod spectral;
