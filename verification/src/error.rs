//! Why an instance refuses a request.
use vstd::prelude::*;

use crate::ids::{CollectionMissing, GlobalId, ReplicaId};

verus! {

/// A replica with this identifier exists already.
#[derive(Clone, Copy, Debug, PartialEq, Eq, Structural)]
pub struct ReplicaExists(pub ReplicaId);

/// No replica with this identifier exists.
#[derive(Clone, Copy, Debug, PartialEq, Eq, Structural)]
pub struct ReplicaMissing(pub ReplicaId);

/// Why dataflows are not created.
#[derive(Clone, Copy, Debug, PartialEq, Eq, Structural)]
pub enum DataflowCreationError {
    /// A collection that a dataflow reads or writes does not exist.
    CollectionMissing(GlobalId),
    /// A dataflow does not say from which times on it computes.
    MissingAsOf,
    /// A dataflow would read a collection at times that are no longer readable.
    SinceViolation(GlobalId),
}

/// Why a peek is refused.
#[derive(Clone, Copy, Debug, PartialEq, Eq, Structural)]
pub enum PeekError {
    /// The collection to read does not exist.
    CollectionMissing(GlobalId),
    /// The collection is no longer readable at the time of the peek.
    SinceViolation(GlobalId),
}

impl vstd::std_specs::convert::FromSpecImpl<CollectionMissing> for DataflowCreationError {
    open spec fn obeys_from_spec() -> bool {
        true
    }

    open spec fn from_spec(error: CollectionMissing) -> Self {
        DataflowCreationError::CollectionMissing(error.0)
    }
}

impl From<CollectionMissing> for DataflowCreationError {
    fn from(error: CollectionMissing) -> (result: Self)
        ensures
            result == DataflowCreationError::CollectionMissing(error.0),
    {
        DataflowCreationError::CollectionMissing(error.0)
    }
}

impl vstd::std_specs::convert::FromSpecImpl<CollectionMissing> for PeekError {
    open spec fn obeys_from_spec() -> bool {
        true
    }

    open spec fn from_spec(error: CollectionMissing) -> Self {
        PeekError::CollectionMissing(error.0)
    }
}

impl From<CollectionMissing> for PeekError {
    fn from(error: CollectionMissing) -> (result: Self)
        ensures
            result == PeekError::CollectionMissing(error.0),
    {
        PeekError::CollectionMissing(error.0)
    }
}

} // verus!
