//! The commands that a new replica is told.
use std::sync::Arc;
use vstd::prelude::*;

use super::accounts::law_capabilities_change_alone;
use super::growth::law_uppers_add_nothing;
use crate::changes::{count_at, Counts};
use crate::command::{CommandModel, ComputeReplicaLocation, DataflowModel, LoggingModel, PeekModel};
use crate::frontier::Frontier;
use crate::model::{given_up, is_wanted, retained, same_for_all, InstanceModel};
use crate::ordered::sorted_ids;
use crate::pending::PendingPeek;
use crate::policy::{FrontierLogic, PolicyModel};
use crate::response::ComputeResponseModel;
use crate::storage::StorageCollectionModel;

verus! {

/// What is left of a history is what is wanted of it.
pub proof fn lemma_retained<P>(
    history: Seq<CommandModel<P>>,
    peeks: Map<u128, PendingPeek<P>>,
)
    ensures
        forall|i: int|
            0 <= i < retained(history, peeks).len() ==> is_wanted(
                #[trigger] retained(history, peeks)[i],
                peeks,
            ),
        forall|i: int|
            0 <= i < history.len() && is_wanted(#[trigger] history[i], peeks) ==> retained(
                history,
                peeks,
            ).contains(history[i]),
    decreases history.len(),
{
    reveal(Seq::filter);
    if history.len() > 0 {
        let front = history.drop_last();
        lemma_retained(front, peeks);
        let kept = retained(history, peeks);
        let before = retained(front, peeks);
        assert forall|i: int| 0 <= i < kept.len() implies is_wanted(#[trigger] kept[i], peeks) by {
            if i < before.len() {
                assert(kept[i] == before[i]);
            }
        }
        assert forall|i: int|
            0 <= i < history.len() && is_wanted(#[trigger] history[i], peeks) implies kept.contains(
            history[i],
        ) by {
            if i < front.len() {
                assert(front[i] == history[i]);
                assert(before.contains(front[i]));
                let j = choose|j: int| 0 <= j < before.len() && before[j] == front[i];
                assert(kept[j] == history[i]);
            } else {
                assert(kept[before.len() as int] == history[i]);
            }
        }
    }
}

/// Whether the commands of the one history come first in the other.
pub open spec fn extends<P>(before: Seq<CommandModel<P>>, after: Seq<CommandModel<P>>) -> bool {
    before.len() <= after.len() && after.take(before.len() as int) == before
}

/// Changes to read capabilities only add to the history.
pub proof fn law_update_extends_history<P, L: FrontierLogic>(
    state: InstanceModel<P, L>,
    storage_ids: Set<u64>,
    updates: Map<u64, Counts>,
)
    ensures
        extends(
            state.history,
            state.update_read_capabilities(storage_ids, updates).history,
        ),
{
    let after = state.update_read_capabilities(storage_ids, updates);
    assert(after.history.take(state.history.len() as int) =~= state.history);
}

/// Write frontiers that are taken in only add to the history.
pub proof fn law_uppers_extend_history<P, L: FrontierLogic>(
    state: InstanceModel<P, L>,
    storage_ids: Set<u64>,
    replica: u64,
    uppers: Seq<(u64, Frontier)>,
)
    ensures
        extends(
            state.history,
            state.update_write_frontiers(storage_ids, replica, uppers).history,
        ),
        forall|i: int|
            0 <= i < state.history.len() ==> #[trigger] state.update_write_frontiers(
                storage_ids,
                replica,
                uppers,
            ).history[i] == state.history[i],
{
    let update = state.absorbed(replica, uppers);
    let absorbed = InstanceModel { collections: update.collections, spent: update.spent, ..state };
    law_update_extends_history(absorbed, storage_ids, update.capabilities);
    let after = state.update_write_frontiers(storage_ids, replica, uppers);
    assert forall|i: int| 0 <= i < state.history.len() implies #[trigger] after.history[i]
        == state.history[i] by {
        assert(after.history.take(state.history.len() as int)[i] == state.history[i]);
    }
}

/// Whether a command of the history asks for the peek `uuid`, which is pending.
pub open spec fn asks_for<P>(command: CommandModel<P>, uuid: u128, peek: PendingPeek<P>) -> bool {
    command matches CommandModel::Peek(asked) && asked.uuid == uuid && asked.id == peek.target
        && asked.timestamp == peek.time
}

/// Whether the history asks for every pending peek, so that a new replica learns of it.
pub open spec fn peeks_recorded<P, L>(state: InstanceModel<P, L>) -> bool {
    forall|uuid: u128| #[trigger]
        state.peeks.contains_key(uuid) ==> exists|i: int|
            0 <= i < state.history.len() && asks_for(
                #[trigger] state.history[i],
                uuid,
                state.peeks[uuid],
            )
}

/// A longer history asks for fewer pending peeks.
proof fn lemma_extending_records<P, L>(
    before: InstanceModel<P, L>,
    after: InstanceModel<P, L>,
)
    requires
        peeks_recorded(before),
        extends(before.history, after.history),
        after.peeks.submap_of(before.peeks),
    ensures
        peeks_recorded(after),
{
    assert forall|uuid: u128| #[trigger] after.peeks.contains_key(uuid) implies exists|i: int|
        0 <= i < after.history.len() && asks_for(
            #[trigger] after.history[i],
            uuid,
            after.peeks[uuid],
        ) by {
        assert(before.peeks.contains_key(uuid));
        let i = choose|i: int|
            0 <= i < before.history.len() && asks_for(
                #[trigger] before.history[i],
                uuid,
                before.peeks[uuid],
            );
        assert(after.history.take(before.history.len() as int)[i] == after.history[i]);
        assert(asks_for(after.history[i], uuid, after.peeks[uuid]));
    }
}

/// What extends a history that extends another extends that.
proof fn lemma_extends_twice<P>(
    first: Seq<CommandModel<P>>,
    second: Seq<CommandModel<P>>,
    third: Seq<CommandModel<P>>,
)
    requires
        extends(first, second),
        extends(second, third),
    ensures
        extends(first, third),
{
    assert forall|i: int| 0 <= i < first.len() implies third[i] == first[i] by {
        assert(second.take(first.len() as int)[i] == second[i]);
        assert(third.take(second.len() as int)[i] == third[i]);
    }
    assert(third.take(first.len() as int) =~= first);
}

/// A command that is sent extends the history.
proof fn lemma_sending_extends<P, L: FrontierLogic>(
    state: InstanceModel<P, L>,
    command: CommandModel<P>,
)
    ensures
        extends(state.history, state.send(command).history),
{
    assert(state.send(command).history.take(state.history.len() as int) =~= state.history);
}

/// Whatever command is sent, the pending peeks stay recorded.
pub proof fn law_sending_keeps_recorded<P, L: FrontierLogic>(
    state: InstanceModel<P, L>,
    command: CommandModel<P>,
)
    requires
        peeks_recorded(state),
    ensures
        peeks_recorded(state.send(command)),
{
    lemma_sending_extends(state, command);
    lemma_extending_records(state, state.send(command));
}

/// A peek that was started is recorded, and so are the others still.
pub proof fn law_peek_is_recorded<P, L: FrontierLogic>(
    state: InstanceModel<P, L>,
    storage_ids: Set<u64>,
    peek: PeekModel<P>,
    target_replica: Option<u64>,
)
    requires
        peeks_recorded(state),
    ensures
        peeks_recorded(state.peek(storage_ids, peek, target_replica)),
{
    let start = InstanceModel { spent: state.spent + 1, ..state };
    let updates = Map::<u64, Counts>::empty().insert(peek.id, count_at(peek.timestamp, 1));
    let held = start.update_read_capabilities(storage_ids, updates);
    let after = state.peek(storage_ids, peek, target_replica);
    law_update_extends_history(start, storage_ids, updates);
    law_capabilities_change_alone(start, storage_ids, updates);
    lemma_extending_records(state, held);
    assert forall|uuid: u128| #[trigger] after.peeks.contains_key(uuid) implies exists|i: int|
        0 <= i < after.history.len() && asks_for(
            #[trigger] after.history[i],
            uuid,
            after.peeks[uuid],
        ) by {
        if uuid == peek.uuid {
            assert(asks_for(after.history[after.history.len() - 1], uuid, after.peeks[uuid]));
        } else {
            assert(held.peeks.contains_key(uuid));
            let i = choose|i: int|
                0 <= i < held.history.len() && asks_for(
                    #[trigger] held.history[i],
                    uuid,
                    held.peeks[uuid],
                );
            assert(after.history[i] == held.history[i]);
            assert(asks_for(after.history[i], uuid, after.peeks[uuid]));
        }
    }
}

/// Forgetting peeks extends the history and leaves the other peeks.
proof fn lemma_removing_extends<P, L: FrontierLogic>(
    state: InstanceModel<P, L>,
    storage_ids: Set<u64>,
    uuids: Set<u128>,
)
    ensures
        extends(state.history, state.remove_peeks(storage_ids, uuids).history),
        state.remove_peeks(storage_ids, uuids).peeks.submap_of(state.peeks),
{
    let start = InstanceModel {
        peeks: state.peeks.remove_keys(uuids),
        spent: state.spent + uuids.len(),
        ..state
    };
    let updates = given_up(state.peeks, sorted_ids(uuids));
    law_update_extends_history(start, storage_ids, updates);
    law_capabilities_change_alone(start, storage_ids, updates);
}

/// Whatever is canceled, the pending peeks stay recorded.
pub proof fn law_canceling_keeps_recorded<P, L: FrontierLogic>(
    state: InstanceModel<P, L>,
    storage_ids: Set<u64>,
    uuids: Set<u128>,
)
    requires
        peeks_recorded(state),
    ensures
        peeks_recorded(state.cancel_peeks(storage_ids, uuids)),
{
    let answered = InstanceModel {
        ready_responses: state.ready_responses + sorted_ids(uuids).map_values(
            |uuid: u128| crate::model::cancel_response(state.peeks, uuid),
        ),
        ..state
    };
    let removed = answered.remove_peeks(storage_ids, uuids);
    let after = state.cancel_peeks(storage_ids, uuids);
    lemma_removing_extends(answered, storage_ids, uuids);
    lemma_sending_extends(removed, CommandModel::CancelPeeks { uuids });
    lemma_extends_twice(state.history, removed.history, after.history);
    lemma_extending_records(state, after);
}

/// Whatever a replica says, the pending peeks stay recorded.
pub proof fn law_response_keeps_recorded<P, L: FrontierLogic>(
    state: InstanceModel<P, L>,
    storage_ids: Set<u64>,
    response: ComputeResponseModel<P>,
    replica: u64,
)
    requires
        peeks_recorded(state),
        state.tracks_response(response),
    ensures
        peeks_recorded(state.handle_response(storage_ids, response, replica).0),
{
    let after = state.handle_response(storage_ids, response, replica).0;
    match response {
        ComputeResponseModel::FrontierUppers(uppers) => {
            let uppers = state.tracked_uppers(uppers);
            law_uppers_add_nothing(state, storage_ids, replica, uppers);
            law_uppers_extend_history(state, storage_ids, replica, uppers);
            lemma_extending_records(state, after);
        },
        ComputeResponseModel::PeekResponse(uuid, _, _) => {
            if state.awaits_peek(uuid, replica) {
                lemma_removing_extends(state, storage_ids, Set::empty().insert(uuid));
                lemma_extending_records(state, after);
            }
        },
        ComputeResponseModel::SubscribeResponse(id, response) => {
            let (before, upper, _) = state.subscribe_response(id, response);
            law_uppers_add_nothing(before, storage_ids, replica, seq![(id, upper)]);
            law_uppers_extend_history(before, storage_ids, replica, seq![(id, upper)]);
            lemma_extending_records(state, after);
        },
    }
}

/// Whatever policies are assigned, the pending peeks stay recorded.
pub proof fn law_policies_keep_recorded<P, L: FrontierLogic>(
    state: InstanceModel<P, L>,
    storage_ids: Set<u64>,
    policies: Seq<(u64, PolicyModel<L>)>,
)
    requires
        peeks_recorded(state),
    ensures
        peeks_recorded(state.set_read_policy(storage_ids, policies)),
{
    let update = state.assigned(policies);
    let assigned = InstanceModel { collections: update.collections, spent: update.spent, ..state };
    law_update_extends_history(assigned, storage_ids, update.capabilities);
    law_capabilities_change_alone(assigned, storage_ids, update.capabilities);
    if update.missing is Some {
        assert(peeks_recorded(assigned));
    } else {
        lemma_extending_records(state, state.set_read_policy(storage_ids, policies));
    }
}

/// A history that was cleaned up still asks for the pending peeks.
pub proof fn law_adding_replica_keeps_recorded<P, L: FrontierLogic>(
    state: InstanceModel<P, L>,
    storage_ids: Set<u64>,
    id: u64,
    location: Arc<ComputeReplicaLocation<P>>,
    logging_config: LoggingModel<P>,
)
    requires
        peeks_recorded(state),
    ensures
        peeks_recorded(state.add_replica(storage_ids, id, location, logging_config)),
{
    let logged = state.with_logs(logging_config);
    let uppers = logged.initial_uppers(logged.complete_logging(logging_config));
    let joined = logged.update_write_frontiers(storage_ids, id, uppers);
    let after = state.add_replica(storage_ids, id, location, logging_config);
    law_uppers_extend_history(logged, storage_ids, id, uppers);
    lemma_extending_records(state, joined);
    lemma_retained(joined.history, joined.peeks);
    assert forall|uuid: u128| #[trigger] after.peeks.contains_key(uuid) implies exists|i: int|
        0 <= i < after.history.len() && asks_for(
            #[trigger] after.history[i],
            uuid,
            after.peeks[uuid],
        ) by {
        assert(joined.peeks.contains_key(uuid));
        let i = choose|i: int|
            0 <= i < joined.history.len() && asks_for(
                #[trigger] joined.history[i],
                uuid,
                joined.peeks[uuid],
            );
        assert(is_wanted(joined.history[i], joined.peeks));
        assert(after.history.contains(joined.history[i]));
        let j = choose|j: int|
            0 <= j < after.history.len() && after.history[j] == joined.history[i];
        assert(asks_for(after.history[j], uuid, after.peeks[uuid]));
    }
}

/// Whatever replica is removed, the pending peeks stay recorded.
pub proof fn law_removing_replica_keeps_recorded<P, L: FrontierLogic>(
    state: InstanceModel<P, L>,
    storage_ids: Set<u64>,
    id: u64,
)
    requires
        peeks_recorded(state),
    ensures
        peeks_recorded(state.remove_replica(storage_ids, id)),
{
    lemma_removing_extends(state.give_replica_up(id), storage_ids, state.peeks_targeting(id));
    lemma_extending_records(state, state.remove_replica(storage_ids, id));
}

/// Whatever replica is started again, the pending peeks stay recorded.
pub proof fn law_rehydrating_keeps_recorded<P, L: FrontierLogic>(
    state: InstanceModel<P, L>,
    storage_ids: Set<u64>,
    id: u64,
)
    requires
        peeks_recorded(state),
    ensures
        peeks_recorded(state.rehydrate_replica(storage_ids, id)),
{
    let removed = state.remove_replica_state(id);
    assert(removed.history == state.history && removed.peeks == state.peeks);
    assert(extends(state.history, removed.history)) by {
        assert(state.history.take(state.history.len() as int) =~= state.history);
    }
    lemma_extending_records(state, removed);
    law_adding_replica_keeps_recorded(
        removed,
        storage_ids,
        id,
        state.replicas[id].location,
        state.replicas[id].logging_config,
    );
}

/// Whatever replicas are started again, the pending peeks stay recorded.
pub proof fn law_rehydrating_all_keeps_recorded<P, L: FrontierLogic>(
    state: InstanceModel<P, L>,
    storage_ids: Set<u64>,
    ids: Seq<u64>,
)
    requires
        peeks_recorded(state),
    ensures
        peeks_recorded(state.rehydrate_replicas(storage_ids, ids)),
    decreases ids.len(),
{
    if ids.len() > 0 {
        law_rehydrating_all_keeps_recorded(state, storage_ids, ids.drop_last());
        law_rehydrating_keeps_recorded(
            state.rehydrate_replicas(storage_ids, ids.drop_last()),
            storage_ids,
            ids.last(),
        );
    }
}

/// Starting with replicas extends the history and leaves the peeks.
proof fn lemma_updating_extends<P, L: FrontierLogic>(
    state: InstanceModel<P, L>,
    storage_ids: Set<u64>,
    replicas: Seq<u64>,
    uppers: Seq<(u64, Frontier)>,
)
    ensures
        extends(
            state.history,
            state.update_on_replicas(storage_ids, replicas, uppers).history,
        ),
        state.update_on_replicas(storage_ids, replicas, uppers).peeks == state.peeks,
    decreases replicas.len(),
{
    if replicas.len() == 0 {
        assert(state.history.take(state.history.len() as int) =~= state.history);
    } else {
        let before = state.update_on_replicas(storage_ids, replicas.drop_last(), uppers);
        lemma_updating_extends(state, storage_ids, replicas.drop_last(), uppers);
        law_uppers_extend_history(before, storage_ids, replicas.last(), uppers);
        lemma_extends_twice(
            state.history,
            before.history,
            state.update_on_replicas(storage_ids, replicas, uppers).history,
        );
    }
}

/// Whatever dataflow is tracked, the pending peeks stay recorded.
pub proof fn law_installing_keeps_recorded<P, L: FrontierLogic>(
    state: InstanceModel<P, L>,
    storage_ids: Set<u64>,
    dataflow: DataflowModel<P, ()>,
)
    requires
        peeks_recorded(state),
    ensures
        peeks_recorded(state.install(storage_ids, dataflow)),
        extends(state.history, state.install(storage_ids, dataflow).history),
{
    let start = state.with_sources_held(dataflow);
    let updates = same_for_all(dataflow.index_imports.dom(), dataflow.hold());
    let held = start.update_read_capabilities(storage_ids, updates);
    let exported = state.with_exports(storage_ids, dataflow);
    let after = state.install(storage_ids, dataflow);
    law_update_extends_history(start, storage_ids, updates);
    lemma_updating_extends(
        exported,
        storage_ids,
        sorted_ids(exported.replicas.dom()),
        dataflow.export_ids().map_values(|id: u64| (id, dataflow.as_of->0)),
    );
    lemma_extends_twice(state.history, held.history, after.history);
    lemma_extending_records(state, after);
}

/// Tracking dataflows until one cannot be created keeps the pending peeks recorded.
proof fn lemma_installing_all_keeps_recorded<P, L: FrontierLogic>(
    state: InstanceModel<P, L>,
    storage: Seq<Map<u64, StorageCollectionModel<P>>>,
    dataflows: Seq<DataflowModel<P, ()>>,
)
    requires
        peeks_recorded(state),
    ensures
        peeks_recorded(state.install_all(storage, dataflows).0),
        extends(state.history, state.install_all(storage, dataflows).0.history),
    decreases dataflows.len(),
{
    if dataflows.len() == 0 {
        assert(state.history.take(state.history.len() as int) =~= state.history);
    } else {
        let (before, error) = state.install_all(storage, dataflows.drop_last());
        let known = storage[dataflows.len() - 1];
        lemma_installing_all_keeps_recorded(state, storage, dataflows.drop_last());
        if error is None && before.import_error(known, dataflows.last()) is None {
            law_installing_keeps_recorded(before, known.dom(), dataflows.last());
            lemma_extends_twice(
                state.history,
                before.history,
                before.install(known.dom(), dataflows.last()).history,
            );
        }
    }
}

/// Whatever dataflows are created, the pending peeks stay recorded, and nothing of the history
/// is lost.
pub proof fn law_creating_dataflows_keeps_recorded<P, L: FrontierLogic>(
    state: InstanceModel<P, L>,
    storage: Seq<Map<u64, StorageCollectionModel<P>>>,
    dataflows: Seq<DataflowModel<P, ()>>,
)
    requires
        peeks_recorded(state),
    ensures
        peeks_recorded(state.create_dataflows(storage, dataflows).0),
        extends(state.history, state.create_dataflows(storage, dataflows).0.history),
{
    lemma_installing_all_keeps_recorded(state, storage, dataflows);
    let installed = state.install_all(storage, dataflows).0;
    let after = state.create_dataflows(storage, dataflows).0;
    if after != installed {
        let known = storage[dataflows.len() as int];
        lemma_sending_extends(
            installed,
            CommandModel::CreateDataflows(
                dataflows.map_values(
                    |dataflow: DataflowModel<P, ()>| dataflow.looked_up(known),
                ),
            ),
        );
        lemma_extends_twice(state.history, installed.history, after.history);
        lemma_extending_records(installed, after);
    }
}

} // verus!
