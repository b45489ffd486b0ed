//! Reads that have not been answered yet.
use vstd::prelude::*;

use crate::command::OpenTelemetryContext;
use crate::ids::{GlobalId, ReplicaId};

verus! {

/// A peek that has not been answered yet.
#[derive(Debug)]
pub struct PendingPeek<P> {
    /// The collection that is read.
    pub target: GlobalId,
    /// The time that is read at.
    pub time: u64,
    /// The replica whose answer counts; with `None`, the first answer counts.
    pub target_replica: Option<ReplicaId>,
    /// The tracing context of the peek.
    pub otel_ctx: OpenTelemetryContext<P>,
}

} // verus!
