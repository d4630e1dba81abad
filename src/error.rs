//! Failures of the compressor.
use vstd::prelude::*;

verus! {

/// Why a compression run stopped.
#[derive(Debug, Clone, Copy, PartialEq, Eq, Structural)]
pub enum Error {
    /// the header does not describe observation data
    NotObsRinexData,
    /// an epoch descriptor line is too short or its satellite count is not a number
    MalformedEpochDescriptor,
    /// the satellite of the current body line cannot be identified
    VehiculeIdentificationError,
    /// a satellite carries more observables than its constellation declares
    MalformedEpochBody,
    /// a numeric differentiator was asked for an order out of range
    KernelInit,
}

} // verus!
