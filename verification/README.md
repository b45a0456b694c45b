# simlab

Programs of a computational-physics course: a two-dimensional Ising sampler
(Metropolis and Wolff updates along a temperature ramp), a two-dimensional
Lennard-Jones fluid, and an advection-diffusion line with a spectral
vorticity solver.

- `src/` is the verified library (Verus). It holds the integer side of the
  programs: the periodic spin lattice and its energy, the Metropolis sweep and
  the Wolff cluster growth (with the random decisions supplied by the caller),
  the ramp scheduler that numbers and records steps, the course temperature
  grid, the FFT's bit-reversal permutation and wavenumber order, the
  two-thirds dealiasing rule, and the set-up rules of the fluid.
- `app/` is the program around it: command-line parsing, files, random
  number streams, plotting, and everything computed in floating point.
- `tests/` runs the library on concrete values.
