//! Failure kinds reported by the engine.

use vstd::prelude::*;

verus! {

/// Every way an operation of the engine can fail.
#[derive(Clone, Copy, Debug, PartialEq, Eq, Structural)]
pub enum RecError {
    /// A query named a user identifier that was never observed.
    UnknownUser,
    /// A query named an item identifier that was never observed.
    UnknownItem,
    /// A prediction or recommendation was requested before the first fit.
    ModelNotFit,
    /// A weight was negative or above the largest representable weight.
    InvalidWeight,
    /// No neighbour of the user has interacted with the requested item.
    NoNeighborData,
    /// The configured number of users or items would be exceeded.
    CapacityExceeded,
}

} // verus!
