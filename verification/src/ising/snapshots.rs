//! The snapshot ramp that records spin frames for the movie.

use vstd::prelude::*;

verus! {

/// How many frames a snapshot ramp recorded and how many sweeps it made.
#[derive(Clone, Copy, Debug, PartialEq, Eq)]
pub struct SnapshotSummary {
    pub frames: usize,
    pub sweeps: usize,
}

} // verus!
