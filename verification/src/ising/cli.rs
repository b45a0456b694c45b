//! The `--update` value of the command line.

use vstd::prelude::*;
use crate::ising::ramp::Update;

verus! {

/// The `--update` value.
#[derive(Clone, Copy, Debug, PartialEq, Eq)]
pub enum UpdateArg {
    Metropolis,
    Wolff,
}

/// The rule an `--update` value names.
pub open spec fn update_of(value: UpdateArg) -> Update {
    match value {
        UpdateArg::Metropolis => Update::Metropolis,
        UpdateArg::Wolff => Update::Wolff,
    }
}

impl From<UpdateArg> for Update {
    fn from(value: UpdateArg) -> (update: Update) {
        match value {
            UpdateArg::Metropolis => Update::Metropolis,
            UpdateArg::Wolff => Update::Wolff,
        }
    }
}

impl vstd::std_specs::convert::FromSpecImpl<UpdateArg> for Update {
    open spec fn obeys_from_spec() -> bool {
        true
    }

    open spec fn from_spec(v: UpdateArg) -> Update {
        update_of(v)
    }
}

} // verus!
