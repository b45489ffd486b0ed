//! Replicas that come, go and come back.
use std::sync::Arc;
use vstd::prelude::*;

use super::accounts::law_capabilities_change_alone;
use super::growth::{law_uppers_add_nothing, lemma_logged_finite};
use super::history::{law_uppers_extend_history, lemma_retained};
use crate::action::ActionModel;
use crate::command::{ComputeReplicaLocation, ComputeStartupEpoch, LoggingModel};
use crate::model::{given_up, is_wanted, lemma_initial_uppers, retained, InstanceModel};
use crate::ordered::{lemma_sorted_ids, sorted_ids};
use crate::policy::FrontierLogic;
use crate::response::{ControllerResponseModel, PeekResponseModel};

verus! {

/// Nothing is left of a replica that was removed: neither the replica, nor that it has failed,
/// nor what it has reported, nor a peek that only it could answer. Each such peek is answered
/// with an error.
pub proof fn law_removed_replica_leaves_nothing<P, L: FrontierLogic>(
    state: InstanceModel<P, L>,
    storage_ids: Set<u64>,
    id: u64,
)
    requires
        state.peeks.dom().finite(),
    ensures
        ({
            let after = state.remove_replica(storage_ids, id);
            &&& after.replicas == state.replicas.remove(id)
            &&& after.failed_replicas == state.failed_replicas.remove(id)
            &&& forall|other: u64| #[trigger]
                after.collections.contains_key(other) ==> !after.collections[
                    other
                ].replica_write_frontiers.contains_key(id)
            &&& after.peeks == state.peeks.remove_keys(state.peeks_targeting(id))
            &&& forall|uuid: u128| #[trigger]
                after.peeks.contains_key(uuid) ==> after.peeks[uuid].target_replica != Some(id)
            &&& forall|uuid: u128| #[trigger]
                state.peeks_targeting(id).contains(uuid) ==> after.ready_responses.contains(
                    ControllerResponseModel::PeekResponse(
                        uuid,
                        PeekResponseModel::Error("target replica was dropped"@),
                        state.peeks[uuid].otel_ctx,
                    ),
                )
        }),
{
    let unanswered = state.peeks_targeting(id);
    let answered = state.give_replica_up(id);
    let list = sorted_ids(unanswered);
    vstd::set_lib::lemma_set_subset_finite(state.peeks.dom(), unanswered);
    crate::ordered::lemma_sorted_ids(unanswered);
    law_capabilities_change_alone(
        InstanceModel {
            peeks: answered.peeks.remove_keys(unanswered),
            spent: answered.spent + unanswered.len(),
            ..answered
        },
        storage_ids,
        given_up(answered.peeks, list),
    );
    let after = state.remove_replica(storage_ids, id);
    assert forall|uuid: u128| #[trigger]
        unanswered.contains(uuid) implies after.ready_responses.contains(
        ControllerResponseModel::PeekResponse(
            uuid,
            PeekResponseModel::Error("target replica was dropped"@),
            state.peeks[uuid].otel_ctx,
        ),
    ) by {
        assert(list.contains(uuid));
        let i = choose|i: int| 0 <= i < list.len() && list[i] == uuid;
        assert(answered.ready_responses[state.ready_responses.len() + i]
            == ControllerResponseModel::<P>::PeekResponse(
            uuid,
            PeekResponseModel::Error("target replica was dropped"@),
            state.peeks[uuid].otel_ctx,
        ));
    }
}

/// A replica that is added is there with its location and logging, was started once more than
/// before, and is told exactly the commands of the history, peeks that are no longer pending
/// left out.
pub proof fn law_added_replica_catches_up<P, L: FrontierLogic>(
    state: InstanceModel<P, L>,
    storage_ids: Set<u64>,
    id: u64,
    location: Arc<ComputeReplicaLocation<P>>,
    logging_config: LoggingModel<P>,
)
    requires
        state.collections.dom().finite(),
        logging_config.sink_logs.dom().finite(),
        state.can_start(id),
    ensures
        ({
            let after = state.add_replica(storage_ids, id, location, logging_config);
            let complete = state.complete_logging(logging_config);
            &&& after.replicas.contains_key(id)
            &&& after.replicas[id].location == location
            &&& after.replicas[id].logging_config == complete
            &&& after.replicas[id].starts == state.starts(id) + 1
            &&& after.starts(id) == state.starts(id) + 1
            &&& forall|other: u64|
                other != id ==> #[trigger] after.starts(other) == state.starts(other)
            &&& forall|other: u64|
                other != id ==> (#[trigger] after.replicas.contains_key(other)
                    <==> state.replicas.contains_key(other))
            &&& after.peeks == state.peeks
            &&& after.actions.last() == (ActionModel::SpawnReplica {
                id,
                instance_id: state.instance_id,
                location,
                logging_config: complete,
                epoch: ComputeStartupEpoch {
                    envd: state.envd_epoch,
                    replica: (state.starts(id) + 1) as u64,
                },
                commands: after.history,
            })
            &&& forall|i: int|
                0 <= i < after.history.len() ==> is_wanted(
                    #[trigger] after.history[i],
                    state.peeks,
                )
            &&& forall|i: int|
                0 <= i < state.history.len() && is_wanted(#[trigger] state.history[i], state.peeks)
                    ==> after.history.contains(state.history[i])
        }),
{
    let logged = state.with_logs(logging_config);
    let complete = logged.complete_logging(logging_config);
    let uppers = logged.initial_uppers(complete);
    lemma_logged_finite(state, logging_config);
    lemma_initial_uppers(logged, complete);
    law_uppers_add_nothing(logged, storage_ids, id, uppers);
    law_uppers_extend_history(logged, storage_ids, id, uppers);
    let joined = logged.update_write_frontiers(storage_ids, id, uppers);
    lemma_retained(joined.history, joined.peeks);
    assert forall|i: int|
        0 <= i < state.history.len() && is_wanted(
            #[trigger] state.history[i],
            state.peeks,
        ) implies retained(joined.history, joined.peeks).contains(state.history[i]) by {
        assert(joined.history[i] == state.history[i]);
    }
}

/// Starting a replica again keeps the set of replicas, and the replica has not failed any more.
proof fn lemma_rehydrated<P, L: FrontierLogic>(
    state: InstanceModel<P, L>,
    storage_ids: Set<u64>,
    id: u64,
)
    requires
        state.replicas.contains_key(id),
    ensures
        ({
            let after = state.rehydrate_replica(storage_ids, id);
            &&& after.replicas.dom() == state.replicas.dom()
            &&& after.failed_replicas == state.failed_replicas.remove(id)
            &&& after.peeks == state.peeks
        }),
{
    let after = state.rehydrate_replica(storage_ids, id);
    assert(after.replicas.dom() =~= state.replicas.dom());
}

/// Once the failed replicas were started again, none has failed, and all are still there.
pub proof fn law_rehydrated_replicas_are_back<P, L: FrontierLogic>(
    state: InstanceModel<P, L>,
    storage_ids: Set<u64>,
)
    requires
        state.failed_replicas.finite(),
        state.failed_replicas.subset_of(state.replicas.dom()),
    ensures
        ({
            let after = state.rehydrate_replicas(storage_ids, sorted_ids(state.failed_replicas));
            &&& after.failed_replicas.is_empty()
            &&& after.replicas.dom() == state.replicas.dom()
            &&& after.peeks == state.peeks
        }),
{
    let ids = sorted_ids(state.failed_replicas);
    lemma_sorted_ids(state.failed_replicas);
    assert forall|i: int| 0 <= i < ids.len() implies state.replicas.contains_key(
        #[trigger] ids[i],
    ) by {
        assert(ids.contains(ids[i]));
    }
    lemma_rehydrated_all(state, storage_ids, ids);
    let after = state.rehydrate_replicas(storage_ids, ids);
    assert(after.failed_replicas =~= Set::empty()) by {
        assert forall|id: u64| !after.failed_replicas.contains(id) by {
            if state.failed_replicas.contains(id) {
                assert(ids.contains(id));
            }
        }
    }
}

/// Starting replicas again, one after the other, takes each from those that have failed.
proof fn lemma_rehydrated_all<P, L: FrontierLogic>(
    state: InstanceModel<P, L>,
    storage_ids: Set<u64>,
    ids: Seq<u64>,
)
    requires
        forall|i: int| 0 <= i < ids.len() ==> state.replicas.contains_key(#[trigger] ids[i]),
    ensures
        ({
            let after = state.rehydrate_replicas(storage_ids, ids);
            &&& after.replicas.dom() == state.replicas.dom()
            &&& forall|id: u64| #[trigger]
                after.failed_replicas.contains(id) <==> state.failed_replicas.contains(id)
                    && !ids.contains(id)
            &&& after.peeks == state.peeks
        }),
    decreases ids.len(),
{
    if ids.len() > 0 {
        let front = ids.drop_last();
        assert forall|i: int| 0 <= i < front.len() implies state.replicas.contains_key(
            #[trigger] front[i],
        ) by {
            assert(front[i] == ids[i]);
        }
        lemma_rehydrated_all(state, storage_ids, front);
        let before = state.rehydrate_replicas(storage_ids, front);
        let last = ids[ids.len() - 1];
        assert(state.replicas.contains_key(last));
        assert(before.replicas.contains_key(last));
        lemma_rehydrated(before, storage_ids, last);
        let after = state.rehydrate_replicas(storage_ids, ids);
        assert forall|id: u64| #[trigger]
            after.failed_replicas.contains(id) <==> state.failed_replicas.contains(id)
                && !ids.contains(id) by {
            assert(ids.contains(id) <==> front.contains(id) || id == last) by {
                if ids.contains(id) && id != last {
                    let i = choose|i: int| 0 <= i < ids.len() && ids[i] == id;
                    assert(front[i] == id);
                }
                if front.contains(id) {
                    let i = choose|i: int| 0 <= i < front.len() && front[i] == id;
                    assert(ids[i] == id);
                }
            }
        }
    }
}

/// What is said of the start of a replica before the one that runs is of no concern.
pub proof fn law_earlier_failure_is_ignored<P, L: FrontierLogic>(
    state: InstanceModel<P, L>,
    storage_ids: Set<u64>,
    id: u64,
    starts: u64,
)
    requires
        state.replicas.contains_key(id),
        state.collections.dom().finite(),
        state.replicas[id].logging_config.sink_logs.dom().finite(),
        state.can_start(id),
        starts <= state.starts(id),
    ensures
        ({
            let after = state.rehydrate_replica(storage_ids, id);
            after.send_failed(id, starts) == after
        }),
{
    vstd::set_lib::lemma_set_subset_finite(
        state.collections.dom(),
        state.remove_replica_state(id).collections.dom(),
    );
    law_added_replica_catches_up(
        state.remove_replica_state(id),
        storage_ids,
        id,
        state.replicas[id].location,
        state.replicas[id].logging_config,
    );
}

} // verus!
