//! Which requests keep the accounts of the read capabilities balanced.
use vstd::prelude::*;

use super::balance::{
    advances, balanced, law_policies_balance, law_removing_peeks_balances, law_uppers_balance,
    unclaimed,
};
use super::growth::{
    exports_are_new, law_adding_replica_balances, law_installing_balances,
    law_removing_replica_state_balances, law_uppers_add_nothing, lemma_logged_finite,
    logs_unclaimed,
};
use crate::collection::CollectionModel;
use crate::command::{DataflowModel, LoggingModel};
use crate::frontier::{frontier_le, is_antichain, lemma_le_reflexive, lemma_le_transitive};
use crate::model::{distinct, dropping, lemma_all_dropped, lemma_initial_uppers, InstanceModel};
use crate::policy::FrontierLogic;
use crate::response::ComputeResponseModel;
use crate::storage::StorageCollectionModel;

verus! {

/// Giving up peeks keeps the accounts balanced.
pub proof fn law_canceling_peeks_balances<P, L: FrontierLogic>(
    state: InstanceModel<P, L>,
    storage_ids: Set<u64>,
    uuids: Set<u128>,
)
    requires
        balanced(state),
        uuids.finite(),
    ensures
        balanced(state.cancel_peeks(storage_ids, uuids)),
        advances(
            state.collections,
            state.cancel_peeks(storage_ids, uuids).collections,
            Set::empty(),
        ),
{
    let answered = InstanceModel {
        ready_responses: state.ready_responses + crate::ordered::sorted_ids(uuids).map_values(
            |uuid: u128| crate::model::cancel_response(state.peeks, uuid),
        ),
        ..state
    };
    law_removing_peeks_balances(answered, storage_ids, uuids);
}

/// Dropping collections that exist keeps the accounts balanced.
pub proof fn law_dropping_collections_balances<P, L: FrontierLogic>(
    state: InstanceModel<P, L>,
    storage_ids: Set<u64>,
    ids: Seq<u64>,
)
    requires
        balanced(state),
        state.first_missing(ids) is None,
    ensures
        balanced(state.drop_collections(storage_ids, ids)),
        advances(
            state.collections,
            state.drop_collections(storage_ids, ids).collections,
            Set::empty(),
        ),
{
    let policies = dropping::<L>(ids);
    lemma_all_dropped(state, ids);
    law_policies_balance(state, storage_ids, policies);
}

/// A response of a replica, with at most one write frontier for each collection, keeps the
/// accounts balanced.
pub proof fn law_response_balances<P, L: FrontierLogic>(
    state: InstanceModel<P, L>,
    storage_ids: Set<u64>,
    response: ComputeResponseModel<P>,
    replica: u64,
)
    requires
        balanced(state),
        state.tracks_response(response),
        response matches ComputeResponseModel::FrontierUppers(uppers) ==> distinct(
            state.tracked_uppers(uppers),
        ),
    ensures
        balanced(state.handle_response(storage_ids, response, replica).0),
        advances(
            state.collections,
            state.handle_response(storage_ids, response, replica).0.collections,
            Set::empty(),
        ),
{
    match response {
        ComputeResponseModel::FrontierUppers(uppers) => {
            law_uppers_balance(state, storage_ids, replica, state.tracked_uppers(uppers));
        },
        ComputeResponseModel::PeekResponse(uuid, _, _) => {
            if state.awaits_peek(uuid, replica) {
                law_removing_peeks_balances(state, storage_ids, Set::empty().insert(uuid));
            } else {
                lemma_advances_to_itself(state.collections);
            }
        },
        ComputeResponseModel::SubscribeResponse(id, response) => {
            let (after, upper, _) = state.subscribe_response(id, response);
            law_uppers_balance(after, storage_ids, replica, seq![(id, upper)]);
        },
    }
}

/// Read frontiers that stay do not move back.
pub proof fn lemma_advances_to_itself<L>(collections: Map<u64, CollectionModel<L>>)
    ensures
        advances(collections, collections, Set::empty()),
{
    assert forall|id: u64| #[trigger] collections.contains_key(id) implies frontier_le(
        collections[id].read_frontier(),
        collections[id].read_frontier(),
    ) by {
        lemma_le_reflexive(collections[id].read_frontier());
    }
}

/// Removing a replica's state leaves the logs unclaimed that were.
pub proof fn lemma_logs_stay_unclaimed<P, L: FrontierLogic>(
    state: InstanceModel<P, L>,
    replica: u64,
    logging_config: LoggingModel<P>,
)
    requires
        logs_unclaimed(state, logging_config),
    ensures
        logs_unclaimed(state.remove_replica_state(replica), logging_config),
{
    let after = state.remove_replica_state(replica);
    assert forall|id: u64| #[trigger] logging_config.sink_log_ids().contains(id) implies unclaimed(
        after,
        id,
    ) && (after.collections.contains_key(id)
        ==> after.collections[id].compute_dependencies.len() == 0) by {
        assert(unclaimed(state, id));
        assert forall|reader: u64| #[trigger]
            after.collections.contains_key(reader) && after.collections[
                reader
            ].read_frontier().len() > 0 implies !after.collections[
            reader
        ].compute_dependencies.contains(id) by {
            assert(state.collections.contains_key(reader));
            assert(after.collections[reader].read_frontier()
                == state.collections[reader].read_frontier());
        }
        assert(after.collections.contains_key(id) ==> state.collections.contains_key(id));
    }
}

/// Starting a replica again whose logs nobody reads keeps the accounts balanced.
pub proof fn law_rehydrating_balances<P, L: FrontierLogic>(
    state: InstanceModel<P, L>,
    storage_ids: Set<u64>,
    id: u64,
)
    requires
        balanced(state),
        state.replicas.contains_key(id),
        logs_unclaimed(state, state.replicas[id].logging_config),
    ensures
        balanced(state.rehydrate_replica(storage_ids, id)),
        advances(
            state.collections,
            state.rehydrate_replica(storage_ids, id).collections,
            state.replicas[id].logging_config.sink_log_ids(),
        ),
{
    let removed = state.remove_replica_state(id);
    let logging_config = state.replicas[id].logging_config;
    law_removing_replica_state_balances(state, id);
    lemma_logs_stay_unclaimed(state, id, logging_config);
    law_adding_replica_balances(
        removed,
        storage_ids,
        id,
        state.replicas[id].location,
        logging_config,
    );
    let after = state.rehydrate_replica(storage_ids, id);
    let but = logging_config.sink_log_ids();
    let logged = removed.with_logs(logging_config);
    lemma_logged_finite(removed, logging_config);
    lemma_initial_uppers(logged, logged.complete_logging(logging_config));
    law_uppers_add_nothing(
        logged,
        storage_ids,
        id,
        logged.initial_uppers(logged.complete_logging(logging_config)),
    );
    assert forall|other: u64| #[trigger]
        after.collections.contains_key(other) && state.collections.contains_key(other)
            && !but.contains(other) implies frontier_le(
        state.collections[other].read_frontier(),
        after.collections[other].read_frontier(),
    ) by {
        assert(logged.collections.contains_key(other));
        assert(removed.collections.contains_key(other));
        lemma_le_transitive(
            state.collections[other].read_frontier(),
            removed.collections[other].read_frontier(),
            after.collections[other].read_frontier(),
        );
    }
}

/// Whether the outputs of each dataflow that can be created are new when its turn comes.
pub open spec fn each_is_new<P, L: FrontierLogic>(
    state: InstanceModel<P, L>,
    storage: Seq<Map<u64, StorageCollectionModel<P>>>,
    dataflows: Seq<DataflowModel<P, ()>>,
) -> bool
    decreases dataflows.len(),
{
    dataflows.len() > 0 ==> {
        let (before, error) = state.install_all(storage, dataflows.drop_last());
        let last = dataflows.last();
        let known = storage[dataflows.len() - 1];
        &&& each_is_new(state, storage, dataflows.drop_last())
        &&& error is None && before.import_error(known, last) is None ==> {
            &&& last.index_imports.dom().finite()
            &&& is_antichain(last.as_of->0)
            &&& exports_are_new(before, last)
        }
    }
}

/// Tracking dataflows until one cannot be created keeps the accounts balanced.
pub proof fn lemma_installing_all_balances<P, L: FrontierLogic>(
    state: InstanceModel<P, L>,
    storage: Seq<Map<u64, StorageCollectionModel<P>>>,
    dataflows: Seq<DataflowModel<P, ()>>,
)
    requires
        balanced(state),
        state.replicas.dom().finite(),
        state.takes_dataflows(storage, dataflows),
        each_is_new(state, storage, dataflows),
    ensures
        balanced(state.install_all(storage, dataflows).0),
        state.install_all(storage, dataflows).0.replicas.dom().finite(),
    decreases dataflows.len(),
{
    if dataflows.len() > 0 {
        lemma_installing_all_balances(state, storage, dataflows.drop_last());
        let (before, error) = state.install_all(storage, dataflows.drop_last());
        let known = storage[dataflows.len() - 1];
        if error is None && before.import_error(known, dataflows.last()) is None {
            law_installing_balances(before, known, dataflows.last());
            lemma_installing_keeps_replicas(before, known.dom(), dataflows.last());
        }
    }
}

/// Tracking a dataflow keeps the replicas.
pub proof fn lemma_installing_keeps_replicas<P, L: FrontierLogic>(
    state: InstanceModel<P, L>,
    storage_ids: Set<u64>,
    dataflow: DataflowModel<P, ()>,
)
    ensures
        state.install(storage_ids, dataflow).replicas == state.replicas,
{
    let exported = state.with_exports(storage_ids, dataflow);
    lemma_updating_keeps_replicas(
        exported,
        storage_ids,
        crate::ordered::sorted_ids(exported.replicas.dom()),
        dataflow.export_ids().map_values(|id: u64| (id, dataflow.as_of->0)),
    );
}

/// Tracking dataflows keeps the replicas.
pub proof fn lemma_installing_all_keeps_replicas<P, L: FrontierLogic>(
    state: InstanceModel<P, L>,
    storage: Seq<Map<u64, StorageCollectionModel<P>>>,
    dataflows: Seq<DataflowModel<P, ()>>,
)
    ensures
        state.install_all(storage, dataflows).0.replicas == state.replicas,
    decreases dataflows.len(),
{
    if dataflows.len() > 0 {
        let before = state.install_all(storage, dataflows.drop_last()).0;
        lemma_installing_all_keeps_replicas(state, storage, dataflows.drop_last());
        lemma_installing_keeps_replicas(
            before,
            storage[dataflows.len() - 1].dom(),
            dataflows.last(),
        );
    }
}

/// Starting with replicas keeps them.
proof fn lemma_updating_keeps_replicas<P, L: FrontierLogic>(
    state: InstanceModel<P, L>,
    storage_ids: Set<u64>,
    replicas: Seq<u64>,
    uppers: Seq<(u64, crate::frontier::Frontier)>,
)
    ensures
        state.update_on_replicas(storage_ids, replicas, uppers).replicas == state.replicas,
    decreases replicas.len(),
{
    if replicas.len() > 0 {
        lemma_updating_keeps_replicas(state, storage_ids, replicas.drop_last(), uppers);
    }
}

/// Creating dataflows with new outputs keeps the accounts balanced.
pub proof fn law_creating_dataflows_balances<P, L: FrontierLogic>(
    state: InstanceModel<P, L>,
    storage: Seq<Map<u64, StorageCollectionModel<P>>>,
    dataflows: Seq<DataflowModel<P, ()>>,
)
    requires
        balanced(state),
        state.replicas.dom().finite(),
        state.takes_dataflows(storage, dataflows),
        each_is_new(state, storage, dataflows),
    ensures
        balanced(state.create_dataflows(storage, dataflows).0),
{
    lemma_installing_all_balances(state, storage, dataflows);
}

} // verus!
