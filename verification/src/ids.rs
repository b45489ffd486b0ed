//! The identifiers that commands, responses and state are keyed by.
use vstd::prelude::*;

verus! {

/// Names a collection: an index, a sink, a source or a log.
pub type GlobalId = u64;

/// Names a replica of a compute instance.
pub type ReplicaId = u64;

/// Names a compute instance.
pub type ComputeInstanceId = u64;

/// Names a peek: the 128 bits of its UUID.
pub type Uuid = u128;

/// Names a kind of log.
pub type LogVariant = u64;

/// No collection with this identifier is tracked.
#[derive(Clone, Copy, Debug, PartialEq, Eq, Structural)]
pub struct CollectionMissing(pub GlobalId);

} // verus!
