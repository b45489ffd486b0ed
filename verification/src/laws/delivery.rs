//! What clients are handed, and how failures of replicas are noted.
use std::sync::Arc;
use vstd::prelude::*;

use super::membership::{law_replica_is_added, law_replica_state_is_removed, next_start};
use crate::command::{ComputeReplicaLocation, LoggingModel};
use crate::model::InstanceModel;
use crate::policy::FrontierLogic;

verus! {

/// Responses are delivered one at a time, in the order in which they became ready, and nothing
/// else changes; there is none exactly if none is ready.
pub proof fn law_responses_come_in_order<P, L: FrontierLogic>(state: InstanceModel<P, L>)
    ensures
        ({
            let (after, response) = state.next_response();
            let ready = state.ready_responses;
            &&& after == (InstanceModel { ready_responses: after.ready_responses, ..state })
            &&& if ready.len() == 0 {
                response is None && after.ready_responses.len() == 0
            } else {
                &&& response == Some(ready[0])
                &&& after.ready_responses.len() == ready.len() - 1
                &&& forall|i: int|
                    0 <= i < ready.len() - 1 ==> #[trigger] after.ready_responses[i] == ready[i + 1]
            }
        }),
{
}

/// That a command could not be sent marks the replica as failed exactly if it is still the start
/// that the command was for, and changes nothing else.
pub proof fn law_failed_sends_are_noted<P, L: FrontierLogic>(
    state: InstanceModel<P, L>,
    id: u64,
    starts: u64,
)
    ensures
        ({
            let after = state.send_failed(id, starts);
            &&& after == (InstanceModel { failed_replicas: after.failed_replicas, ..state })
            &&& forall|other: u64| #[trigger]
                after.failed_replicas.contains(other) <==> state.failed_replicas.contains(other)
                    || (other == id && state.replicas.contains_key(id) && state.replicas[id].starts
                    == starts)
        }),
{
}

/// That receiving from a replica has failed marks it as failed, and changes nothing else.
pub proof fn law_failed_receives_are_noted<P, L: FrontierLogic>(
    state: InstanceModel<P, L>,
    id: u64,
)
    ensures
        ({
            let after = state.with_failed(id);
            &&& after == (InstanceModel { failed_replicas: after.failed_replicas, ..state })
            &&& forall|other: u64| #[trigger]
                after.failed_replicas.contains(other) <==> state.failed_replicas.contains(other)
                    || other == id
        }),
{
}

/// The starts of replicas are counted: there is none in a new instance, each addition of a
/// replica is one more, also after the replica was removed in between, and those of other
/// replicas stay.
pub proof fn law_starts_are_counted<P, L: FrontierLogic>(
    state: InstanceModel<P, L>,
    storage_ids: Set<u64>,
    id: u64,
    location: Arc<ComputeReplicaLocation<P>>,
    logging_config: LoggingModel<P>,
    other: u64,
)
    requires
        next_start(state.replica_epochs, id) <= u64::MAX,
    ensures
        ({
            let added = state.add_replica(storage_ids, id, location, logging_config);
            let removed = state.remove_replica_state(id);
            &&& added.starts(other) == state.starts(other) + if other == id {
                1int
            } else {
                0int
            }
            &&& removed.starts(other) == state.starts(other)
        }),
        state.replica_epochs.contains_key(other) ==> state.starts(other)
            == state.replica_epochs[other],
        !state.replica_epochs.contains_key(other) ==> state.starts(other) == 0,
        forall|instance_id: u64, logs: Map<u64, u64>, size: u32, epoch: i64|
            (#[trigger] InstanceModel::<P, L>::created(instance_id, logs, size, epoch)).starts(
                other,
            ) == 0,
{
    law_replica_is_added(state, storage_ids, id, location, logging_config);
    law_replica_state_is_removed(state, id);
}

} // verus!
