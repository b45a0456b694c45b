//! The kinds of failure of the artifact check, and the frames at which it
//! recomputes the energies.

use vstd::prelude::*;
use vstd::string::StringExecFns;

verus! {

/// Why a run's artifacts failed the check.
#[derive(Clone, Debug, PartialEq, Eq)]
pub enum CheckError {
    /// The artifacts break the file contract.
    Contract(String),
    /// The artifacts keep the contract but fail a physics gate.
    Physics(String),
}

impl CheckError {
    /// The failure as the check prints it: `contract: ...` or `physics: ...`.
    pub fn describe(&self) -> (text: String)
        ensures
            text@ == (match self {
                CheckError::Contract(message) => "contract: "@ + message@,
                CheckError::Physics(message) => "physics: "@ + message@,
            }),
    {
        match self {
            CheckError::Contract(message) => {
                let mut text = "contract: ".to_owned();
                text.append(message.as_str());
                text
            },
            CheckError::Physics(message) => {
                let mut text = "physics: ".to_owned();
                text.append(message.as_str());
                text
            },
        }
    }

    /// The exit status of `md check` that fails this way: 2 for a broken
    /// contract, 1 for a failed physics gate.
    pub fn exit_code(&self) -> (code: u8)
        ensures
            code == (match self {
                CheckError::Contract(_) => 2u8,
                CheckError::Physics(_) => 1u8,
            }),
    {
        match self {
            CheckError::Contract(_) => 2,
            CheckError::Physics(_) => 1,
        }
    }
}

/// How many frames at most the energy consistency check recomputes.
pub const CONSISTENCY_SAMPLES: usize = 25;

/// The spacing of the frames that the consistency check recomputes:
/// `frame_count / 25`, and at least one.
pub open spec fn sample_stride(frame_count: int) -> int {
    if frame_count / 25 >= 1 {
        frame_count / 25
    } else {
        1
    }
}

/// The indices of the frames whose energies the check recomputes: the
/// multiples of the stride below `frame_count`, the first 25 of them.
pub fn consistency_sample(frame_count: usize) -> (indices: Vec<usize>)
    ensures
        indices@.len() <= CONSISTENCY_SAMPLES,
        forall|k: int|
            0 <= k < indices@.len() ==> #[trigger] indices@[k] == k * sample_stride(
                frame_count as int,
            ) && indices@[k] < frame_count,
        indices@.len() < CONSISTENCY_SAMPLES ==> indices@.len() * sample_stride(frame_count as int)
            >= frame_count,
{
    let stride = if frame_count / 25 >= 1 {
        frame_count / 25
    } else {
        1
    };
    let mut indices: Vec<usize> = Vec::new();
    let mut k: usize = 0;
    while k < CONSISTENCY_SAMPLES
        invariant
            stride == sample_stride(frame_count as int),
            k <= CONSISTENCY_SAMPLES,
            indices@.len() == k,
            forall|m: int|
                0 <= m < k ==> #[trigger] indices@[m] == m * stride && indices@[m] < frame_count,
        decreases CONSISTENCY_SAMPLES - k,
    {
        assert(k * stride <= frame_count || k * stride <= 24) by (nonlinear_arith)
            requires
                k < 25,
                stride >= 1,
                stride == 1 || stride * 25 <= frame_count,
        ;
        let index = k * stride;
        if index >= frame_count {
            return indices;
        }
        indices.push(index);
        k = k + 1;
    }
    indices
}

} // verus!
