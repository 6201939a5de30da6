//! Failures of the memory protocol.
use vstd::prelude::*;

verus! {

/// Why a step of the memory protocol failed.
#[derive(Clone, Copy, PartialEq, Eq, Structural, Debug)]
pub enum RamError {
    /// Fewer bytes have arrived from the other party than the step reads.
    Channel,
    /// Received bytes that encode no field element.
    Decode,
    /// The supply of correlated randomness for commitments ran out.
    Exhausted,
    /// An address was inserted while it was still present.
    DoubleInsert,
    /// An authentication or permutation check rejected.
    CheckFailed,
}

} // verus!
