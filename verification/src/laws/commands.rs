//! Which commands the replicas get, word for word.
use std::sync::Arc;
use vstd::prelude::*;

use super::accounts::{law_capabilities_change_alone, same_but_capabilities};
use super::reports::report_of_others;
use super::requests::lemma_installing_all_keeps_replicas;
use super::told::sends_to_all;
use crate::action::ActionModel;
use crate::changes::{count_at, Counts};
use crate::collection::CollectionModel;
use crate::command::{
    CommandModel, ComputeSinkConnection, ComputeSinkDesc, DataflowModel, PeekModel,
    SourceInstanceDesc,
};
use crate::model::{given_up, lookup_errors, InstanceModel, ReplicaModel};
use crate::ordered::{lemma_sorted_ids, sorted_ids};
use crate::policy::{FrontierLogic, PolicyModel};
use crate::response::{ComputeResponseModel, ControllerResponseModel, PeekResponseModel};
use crate::storage::StorageCollectionModel;

verus! {

/// Whether `command` was recorded last, and left last to the surroundings to be sent to all
/// replicas.
pub open spec fn concludes_with<P, L>(
    before: InstanceModel<P, L>,
    after: InstanceModel<P, L>,
    command: CommandModel<P>,
) -> bool {
    &&& after.history.len() > before.history.len()
    &&& after.history[after.history.len() - 1] == command
    &&& after.actions.len() > before.actions.len()
    &&& sends_to_all(after.actions[after.actions.len() - 1], before.replicas, command)
}

/// Whether everything was only added to: the commands that were recorded and the work that was
/// left to the surroundings still come first.
pub open spec fn only_adds<P, L>(before: InstanceModel<P, L>, after: InstanceModel<P, L>) -> bool {
    &&& before.history.len() <= after.history.len()
    &&& forall|i: int| 0 <= i < before.history.len() ==> #[trigger] after.history[i]
        == before.history[i]
    &&& before.actions.len() <= after.actions.len()
    &&& forall|i: int| 0 <= i < before.actions.len() ==> #[trigger] after.actions[i]
        == before.actions[i]
}

/// Whether what an instance is made with stays.
pub open spec fn same_identity<P, L>(
    before: InstanceModel<P, L>,
    after: InstanceModel<P, L>,
) -> bool {
    &&& after.instance_id == before.instance_id
    &&& after.arranged_logs == before.arranged_logs
    &&& after.envd_epoch == before.envd_epoch
}

/// A command that is sent is recorded, goes to all replicas, and changes nothing else.
pub proof fn law_command_is_recorded_and_sent<P, L: FrontierLogic>(
    state: InstanceModel<P, L>,
    command: CommandModel<P>,
)
    ensures
        ({
            let after = state.send(command);
            &&& concludes_with(state, after, command)
            &&& only_adds(state, after)
            &&& after.history.len() == state.history.len() + 1
            &&& after.actions.len() == state.actions.len() + 1
            &&& after == (InstanceModel {
                history: after.history,
                actions: after.actions,
                ..state
            })
        }),
{
    let addressees = state.replicas.map_values(|replica: ReplicaModel<P>| replica.starts);
    assert(addressees.dom() =~= state.replicas.dom());
}

/// A new instance has no replicas, peeks, subscriptions or responses, has told its future
/// replicas how to start and how large results may be, and keeps each of the given logs as a
/// collection that is readable from the start, depends on nothing and was not reported on.
pub proof fn law_new_instance<P, L: FrontierLogic>(
    instance_id: u64,
    arranged_logs: Map<u64, u64>,
    max_result_size: u32,
    envd_epoch: i64,
)
    ensures
        ({
            let made = InstanceModel::<P, L>::created(
                instance_id,
                arranged_logs,
                max_result_size,
                envd_epoch,
            );
            &&& made.instance_id == instance_id
            &&& made.arranged_logs == arranged_logs
            &&& made.envd_epoch == envd_epoch
            &&& made.replicas.is_empty()
            &&& made.replica_epochs.is_empty()
            &&& made.peeks.is_empty()
            &&& made.subscribes.is_empty()
            &&& made.failed_replicas.is_empty()
            &&& made.ready_responses.len() == 0
            &&& made.history.len() == 2
            &&& made.history[0] matches CommandModel::CreateTimely { comm_config, epoch }
                && comm_config is None && epoch.envd == envd_epoch && epoch.replica == 0
            &&& made.history[1] matches CommandModel::CreateInstance(config)
                && config.logging is None && config.max_result_size == max_result_size
            &&& made.actions.len() == 2
            &&& sends_to_all(made.actions[0], made.replicas, made.history[0])
            &&& sends_to_all(made.actions[1], made.replicas, made.history[1])
            &&& forall|variant: u64| #[trigger]
                arranged_logs.contains_key(variant) ==> made.collections.contains_key(
                    arranged_logs[variant],
                )
            &&& forall|id: u64| #[trigger]
                made.collections.contains_key(id) ==> {
                    let log = made.collections[id];
                    &&& exists|variant: u64| #[trigger]
                        arranged_logs.contains_key(variant) && arranged_logs[variant] == id
                    &&& log.log_collection
                    &&& log.read_frontier() == seq![0u64]
                    &&& log.implied_capability == seq![0u64]
                    &&& log.read_policy == PolicyModel::<L>::ValidFrom(seq![0u64])
                    &&& log.write_frontier == seq![0u64]
                    &&& log.storage_dependencies.len() == 0
                    &&& log.compute_dependencies.len() == 0
                    &&& log.replica_write_frontiers.is_empty()
                }
        }),
{
    let made = InstanceModel::<P, L>::created(
        instance_id,
        arranged_logs,
        max_result_size,
        envd_epoch,
    );
    super::growth::lemma_lower_of_antichain(seq![0u64]);
    assert(made.replicas =~= Map::empty());
    let addressees = made.replicas.map_values(|replica: ReplicaModel<P>| replica.starts);
    assert(addressees.dom() =~= made.replicas.dom());
}

/// A peek ends with the command that asks all replicas for exactly what was requested, whichever
/// replica it targets: it is the only peek that is recorded, and it is pending with its target,
/// its time, the replica that it targets and its context. Everything else of the instance but the
/// collections stays.
pub proof fn law_peek_is_sent<P, L: FrontierLogic>(
    state: InstanceModel<P, L>,
    storage_ids: Set<u64>,
    peek: PeekModel<P>,
    target_replica: Option<u64>,
)
    ensures
        ({
            let after = state.peek(storage_ids, peek, target_replica);
            &&& concludes_with(state, after, CommandModel::Peek(peek))
            &&& only_adds(state, after)
            &&& after.history[after.history.len() - 1] matches CommandModel::Peek(sent) && {
                &&& sent.id == peek.id
                &&& sent.literal_constraints == peek.literal_constraints
                &&& sent.uuid == peek.uuid
                &&& sent.timestamp == peek.timestamp
                &&& sent.finishing == peek.finishing
                &&& sent.map_filter_project == peek.map_filter_project
                &&& sent.otel_ctx == peek.otel_ctx
            }
            &&& forall|i: int|
                state.history.len() <= i < after.history.len() - 1 ==> (
                #[trigger] after.history[i]) is AllowCompaction
            &&& after.peeks.contains_key(peek.uuid)
            &&& after.peeks[peek.uuid].target == peek.id
            &&& after.peeks[peek.uuid].time == peek.timestamp
            &&& after.peeks[peek.uuid].target_replica == target_replica
            &&& after.peeks[peek.uuid].otel_ctx == peek.otel_ctx
            &&& after.peeks == state.peeks.insert(peek.uuid, after.peeks[peek.uuid])
            &&& same_identity(state, after)
            &&& after.replicas == state.replicas
            &&& after.replica_epochs == state.replica_epochs
            &&& after.subscribes == state.subscribes
            &&& after.failed_replicas == state.failed_replicas
            &&& after.ready_responses == state.ready_responses
        }),
{
    let start = InstanceModel { spent: state.spent + 1, ..state };
    let updates = Map::<u64, Counts>::empty().insert(peek.id, count_at(peek.timestamp, 1));
    let held = start.update_read_capabilities(storage_ids, updates);
    let addressees = held.replicas.map_values(|replica: ReplicaModel<P>| replica.starts);
    law_capabilities_change_alone(start, storage_ids, updates);
    assert(addressees.dom() =~= state.replicas.dom());
}

/// Canceling peeks ends with the command that tells all replicas of them. Each of them is
/// answered once, in ascending order, that it was canceled, with its context if it was pending;
/// these peeks and no others are no longer pending. Everything else of the instance but the
/// collections stays.
pub proof fn law_cancel_is_sent<P, L: FrontierLogic>(
    state: InstanceModel<P, L>,
    storage_ids: Set<u64>,
    uuids: Set<u128>,
)
    requires
        uuids.finite(),
    ensures
        ({
            let after = state.cancel_peeks(storage_ids, uuids);
            let list = sorted_ids(uuids);
            let ready = state.ready_responses.len() as int;
            &&& concludes_with(state, after, CommandModel::CancelPeeks { uuids })
            &&& only_adds(state, after)
            &&& forall|i: int|
                state.history.len() <= i < after.history.len() - 1 ==> (
                #[trigger] after.history[i]) is AllowCompaction
            &&& forall|uuid: u128| #[trigger]
                after.peeks.contains_key(uuid) <==> state.peeks.contains_key(uuid)
                    && !uuids.contains(uuid)
            &&& forall|uuid: u128| #[trigger]
                after.peeks.contains_key(uuid) ==> after.peeks[uuid] == state.peeks[uuid]
            &&& after.ready_responses.len() == ready + uuids.len()
            &&& list.len() == uuids.len()
            &&& forall|i: int| 0 <= i < ready ==> #[trigger] after.ready_responses[i]
                == state.ready_responses[i]
            &&& forall|i: int|
                0 <= i < list.len() ==> uuids.contains(#[trigger] list[i])
                    && after.ready_responses[ready + i] == ControllerResponseModel::PeekResponse(
                    list[i],
                    PeekResponseModel::<P>::Canceled,
                    if state.peeks.contains_key(list[i]) {
                        state.peeks[list[i]].otel_ctx
                    } else {
                        None
                    },
                )
            &&& same_identity(state, after)
            &&& after.replicas == state.replicas
            &&& after.replica_epochs == state.replica_epochs
            &&& after.subscribes == state.subscribes
            &&& after.failed_replicas == state.failed_replicas
        }),
{
    let list = sorted_ids(uuids);
    let answers = list.map_values(|uuid: u128| crate::model::cancel_response(state.peeks, uuid));
    let answered = InstanceModel { ready_responses: state.ready_responses + answers, ..state };
    let start = InstanceModel {
        peeks: answered.peeks.remove_keys(uuids),
        spent: answered.spent + uuids.len(),
        ..answered
    };
    let updates = given_up(answered.peeks, list);
    let removed = answered.remove_peeks(storage_ids, uuids);
    let addressees = removed.replicas.map_values(|replica: ReplicaModel<P>| replica.starts);
    lemma_sorted_ids(uuids);
    law_capabilities_change_alone(start, storage_ids, updates);
    assert(addressees.dom() =~= state.replicas.dom());
    let after = state.cancel_peeks(storage_ids, uuids);
    let ready = state.ready_responses.len() as int;
    assert forall|i: int| 0 <= i < list.len() implies uuids.contains(#[trigger] list[i])
        && after.ready_responses[ready + i] == ControllerResponseModel::PeekResponse(
        list[i],
        PeekResponseModel::<P>::Canceled,
        if state.peeks.contains_key(list[i]) {
            state.peeks[list[i]].otel_ctx
        } else {
            None
        },
    ) by {
        assert(list.contains(list[i]));
        assert(after.ready_responses[ready + i] == answers[i]);
    }
}

/// Whether a source is read as it was requested, with what storage knows of it.
pub open spec fn source_as_requested<P>(
    sent: (SourceInstanceDesc<P, Arc<P>>, bool),
    requested: (SourceInstanceDesc<P, ()>, bool),
    known: StorageCollectionModel<P>,
) -> bool {
    &&& sent.0.arguments == requested.0.arguments
    &&& sent.1 == requested.1
    &&& sent.0.storage_metadata == known.collection_metadata
    &&& sent.0.typ == known.typ
}

/// Whether a sink is fed as it was requested; one that goes to storage, with what storage knows
/// of it.
pub open spec fn sink_as_requested<P>(
    sent: ComputeSinkDesc<P, Arc<P>>,
    requested: ComputeSinkDesc<P, ()>,
    known: StorageCollectionModel<P>,
) -> bool {
    &&& sent.from == requested.from
    &&& sent.from_desc == requested.from_desc
    &&& sent.as_of == requested.as_of
    &&& match requested.connection {
        ComputeSinkConnection::Subscribe(wanted) => sent.connection matches
            ComputeSinkConnection::Subscribe(given) && given == wanted,
        ComputeSinkConnection::Persist(wanted) => sent.connection matches
            ComputeSinkConnection::Persist(given) && given.value_desc == wanted.value_desc
            && given.storage_metadata == known.collection_metadata,
    }
}

/// Whether a dataflow is described as it was requested, with what storage knows of the
/// collections that it reads and writes.
pub open spec fn described_as_requested<P>(
    sent: DataflowModel<P, Arc<P>>,
    requested: DataflowModel<P, ()>,
    storage: Map<u64, StorageCollectionModel<P>>,
) -> bool {
    &&& sent.index_imports == requested.index_imports
    &&& sent.objects_to_build == requested.objects_to_build
    &&& sent.index_exports == requested.index_exports
    &&& sent.as_of == requested.as_of
    &&& sent.until == requested.until
    &&& sent.debug_name == requested.debug_name
    &&& sent.source_imports.dom() == requested.source_imports.dom()
    &&& forall|id: u64| #[trigger]
        requested.source_imports.contains_key(id) ==> storage.contains_key(id)
            && source_as_requested(
            sent.source_imports[id],
            requested.source_imports[id],
            storage[id],
        )
    &&& sent.sink_exports.dom() == requested.sink_exports.dom()
    &&& forall|id: u64| #[trigger]
        requested.sink_exports.contains_key(id) ==> (
        requested.sink_exports[id].connection is Persist ==> storage.contains_key(id))
            && sink_as_requested(
            sent.sink_exports[id],
            requested.sink_exports[id],
            storage[id],
        )
}

/// Whether dataflows are described as they were requested, in the same order.
pub open spec fn all_as_requested<P>(
    sent: Seq<DataflowModel<P, Arc<P>>>,
    requested: Seq<DataflowModel<P, ()>>,
    storage: Map<u64, StorageCollectionModel<P>>,
) -> bool {
    &&& sent.len() == requested.len()
    &&& forall|i: int|
        0 <= i < sent.len() ==> described_as_requested(#[trigger] sent[i], requested[i], storage)
}

/// Whether the state concludes with the command that describes the dataflows as requested.
pub open spec fn dataflows_sent<P, L>(
    before: InstanceModel<P, L>,
    after: InstanceModel<P, L>,
    requested: Seq<DataflowModel<P, ()>>,
    storage: Map<u64, StorageCollectionModel<P>>,
) -> bool {
    exists|sent: Seq<DataflowModel<P, Arc<P>>>| #[trigger]
        all_as_requested(sent, requested, storage) && concludes_with(
            before,
            after,
            CommandModel::CreateDataflows(sent),
        )
}

/// Where a dataflow can be looked up, it is described as it was requested.
proof fn lemma_looked_up<P>(
    dataflow: DataflowModel<P, ()>,
    storage: Map<u64, StorageCollectionModel<P>>,
)
    requires
        dataflow.lookup_error(storage) is None,
        dataflow.source_imports.dom().finite(),
        dataflow.sink_exports.dom().finite(),
    ensures
        described_as_requested(dataflow.looked_up(storage), dataflow, storage),
{
    let sent = dataflow.looked_up(storage);
    let sources = sorted_ids(dataflow.source_imports.dom());
    let sinks = sorted_ids(dataflow.sink_exports.dom());
    lemma_sorted_ids(dataflow.source_imports.dom());
    lemma_sorted_ids(dataflow.sink_exports.dom());
    crate::model::lemma_no_first_error(sources, crate::model::missing_source(storage));
    crate::model::lemma_no_first_error(
        sinks,
        crate::model::missing_sink(storage, dataflow.sink_exports),
    );
    assert(sent.source_imports.dom() =~= dataflow.source_imports.dom());
    assert(sent.sink_exports.dom() =~= dataflow.sink_exports.dom());
    assert forall|id: u64| #[trigger] dataflow.source_imports.contains_key(
        id,
    ) implies storage.contains_key(id) && source_as_requested(
        sent.source_imports[id],
        dataflow.source_imports[id],
        storage[id],
    ) by {
        assert(sources.contains(id));
        let i = choose|i: int| 0 <= i < sources.len() && sources[i] == id;
        assert(crate::model::missing_source(storage)(sources[i]) is None);
    }
    assert forall|id: u64| #[trigger] dataflow.sink_exports.contains_key(id) implies (
    dataflow.sink_exports[id].connection is Persist ==> storage.contains_key(id))
        && sink_as_requested(
        sent.sink_exports[id],
        dataflow.sink_exports[id],
        storage[id],
    ) by {
        assert(sinks.contains(id));
        let i = choose|i: int| 0 <= i < sinks.len() && sinks[i] == id;
        assert(crate::model::missing_sink(storage, dataflow.sink_exports)(sinks[i]) is None);
    }
}

/// Where no dataflow of a list fails to be looked up, none of its dataflows does.
proof fn lemma_all_looked_up<P>(
    dataflows: Seq<DataflowModel<P, ()>>,
    storage: Map<u64, StorageCollectionModel<P>>,
    i: int,
)
    requires
        lookup_errors(dataflows, storage) is None,
        0 <= i < dataflows.len(),
    ensures
        dataflows[i].lookup_error(storage) is None,
    decreases dataflows.len(),
{
    if i < dataflows.len() - 1 {
        lemma_all_looked_up(dataflows.drop_last(), storage, i);
        assert(dataflows.drop_last()[i] == dataflows[i]);
    }
}

/// Whether the maps of all dataflows are finite.
pub open spec fn all_finite<P>(dataflows: Seq<DataflowModel<P, ()>>) -> bool {
    forall|i: int|
        0 <= i < dataflows.len() ==> (#[trigger] dataflows[i]).source_imports.dom().finite()
            && dataflows[i].sink_exports.dom().finite()
}

/// Sending dataflows that were tracked concludes with the command that describes each of them
/// exactly as it was requested, with what storage knows of the collections that it reads and
/// writes. It changes nothing else, and where it fails, nothing at all.
pub proof fn law_tracked_dataflows_are_sent<P, L: FrontierLogic>(
    state: InstanceModel<P, L>,
    storage: Map<u64, StorageCollectionModel<P>>,
    dataflows: Seq<DataflowModel<P, ()>>,
)
    requires
        all_finite(dataflows),
    ensures
        ({
            let (after, result) = state.send_dataflows(storage, dataflows);
            &&& result is Ok ==> dataflows_sent(state, after, dataflows, storage)
            &&& result is Ok ==> after.history.len() == state.history.len() + 1
            &&& result is Ok ==> after.actions.len() == state.actions.len() + 1
            &&& result is Err ==> after == state
            &&& only_adds(state, after)
            &&& after == (InstanceModel {
                history: after.history,
                actions: after.actions,
                ..state
            })
        }),
{
    let (after, result) = state.send_dataflows(storage, dataflows);
    if result is Ok {
        let sent = dataflows.map_values(
            |dataflow: DataflowModel<P, ()>| dataflow.looked_up(storage),
        );
        law_command_is_recorded_and_sent(state, CommandModel::CreateDataflows(sent));
        assert forall|i: int| 0 <= i < sent.len() implies described_as_requested(
            #[trigger] sent[i],
            dataflows[i],
            storage,
        ) by {
            lemma_all_looked_up(dataflows, storage, i);
            lemma_looked_up(dataflows[i], storage);
        }
        assert(all_as_requested(sent, dataflows, storage));
    }
}

/// Creating dataflows concludes with the command that has all replicas create each of them
/// exactly as it was requested.
pub proof fn law_created_dataflows_are_sent<P, L: FrontierLogic>(
    state: InstanceModel<P, L>,
    storage: Seq<Map<u64, StorageCollectionModel<P>>>,
    dataflows: Seq<DataflowModel<P, ()>>,
)
    requires
        all_finite(dataflows),
        state.create_dataflows(storage, dataflows).1 is Ok,
    ensures
        dataflows_sent(
            state,
            state.create_dataflows(storage, dataflows).0,
            dataflows,
            storage[dataflows.len() as int],
        ),
        only_adds(state, state.create_dataflows(storage, dataflows).0),
{
    let installed = state.install_all(storage, dataflows).0;
    let known = storage[dataflows.len() as int];
    let after = state.create_dataflows(storage, dataflows).0;
    lemma_installing_all_keeps_replicas(state, storage, dataflows);
    lemma_installing_all_only_adds(state, storage, dataflows);
    law_tracked_dataflows_are_sent(installed, known, dataflows);
    let sent = choose|sent: Seq<DataflowModel<P, Arc<P>>>| #[trigger]
        all_as_requested(sent, dataflows, known) && concludes_with(
            installed,
            after,
            CommandModel::CreateDataflows(sent),
        );
    assert(concludes_with(state, after, CommandModel::CreateDataflows(sent)));
}

/// What is only added to twice is only added to.
pub proof fn lemma_only_adds_twice<P, L>(
    first: InstanceModel<P, L>,
    second: InstanceModel<P, L>,
    third: InstanceModel<P, L>,
)
    requires
        only_adds(first, second),
        only_adds(second, third),
    ensures
        only_adds(first, third),
{
    assert forall|i: int| 0 <= i < first.history.len() implies #[trigger] third.history[i]
        == first.history[i] by {
        assert(second.history[i] == first.history[i]);
    }
    assert forall|i: int| 0 <= i < first.actions.len() implies #[trigger] third.actions[i]
        == first.actions[i] by {
        assert(second.actions[i] == first.actions[i]);
    }
}

/// Starting with replicas only adds.
pub proof fn lemma_updating_only_adds<P, L: FrontierLogic>(
    state: InstanceModel<P, L>,
    storage_ids: Set<u64>,
    replicas: Seq<u64>,
    uppers: Seq<(u64, crate::frontier::Frontier)>,
)
    ensures
        only_adds(state, state.update_on_replicas(storage_ids, replicas, uppers)),
    decreases replicas.len(),
{
    if replicas.len() > 0 {
        let before = state.update_on_replicas(storage_ids, replicas.drop_last(), uppers);
        lemma_updating_only_adds(state, storage_ids, replicas.drop_last(), uppers);
        lemma_only_adds_twice(
            state,
            before,
            before.update_write_frontiers(storage_ids, replicas.last(), uppers),
        );
    }
}

/// Tracking dataflows only adds.
pub proof fn lemma_installing_all_only_adds<P, L: FrontierLogic>(
    state: InstanceModel<P, L>,
    storage: Seq<Map<u64, StorageCollectionModel<P>>>,
    dataflows: Seq<DataflowModel<P, ()>>,
)
    ensures
        only_adds(state, state.install_all(storage, dataflows).0),
    decreases dataflows.len(),
{
    if dataflows.len() > 0 {
        let (before, error) = state.install_all(storage, dataflows.drop_last());
        let known = storage[dataflows.len() - 1];
        let last = dataflows.last();
        lemma_installing_all_only_adds(state, storage, dataflows.drop_last());
        if error is None && before.import_error(known, last) is None {
            let exported = before.with_exports(known.dom(), last);
            let uppers = last.export_ids().map_values(|id: u64| (id, last.as_of->0));
            let replicas = sorted_ids(exported.replicas.dom());
            lemma_updating_only_adds(exported, known.dom(), replicas, uppers);
            assert(only_adds(before, exported));
            lemma_only_adds_twice(before, exported, before.install(known.dom(), last));
            lemma_only_adds_twice(state, before, before.install(known.dom(), last));
        }
    }
}

/// Whether nothing of the collections changed but their read capabilities.
pub open spec fn changes_capabilities_alone<L>(
    before: Map<u64, CollectionModel<L>>,
    after: Map<u64, CollectionModel<L>>,
) -> bool {
    forall|id: u64| #[trigger]
        after.contains_key(id) ==> before.contains_key(id) && report_of_others(
            before[id],
            after[id],
        )
}

/// Whether the action follows from a change of read capabilities: replicas may forget, or storage
/// is asked for changes of its own.
pub open spec fn passes_capabilities_on<P>(action: ActionModel<P>) -> bool {
    match action {
        ActionModel::Send { command, .. } => command is AllowCompaction,
        ActionModel::UpdateStorageReadCapabilities(_) => true,
        _ => false,
    }
}

/// Starting a peek, giving peeks up and taking the answer to a peek in change nothing of the
/// collections but their read capabilities. Nothing is left to the surroundings but to pass these
/// changes on, and, at the end, to send the command that starts the peek or gives the peeks up.
pub proof fn law_peeks_change_capabilities_alone<P, L: FrontierLogic>(
    state: InstanceModel<P, L>,
    storage_ids: Set<u64>,
    peek: PeekModel<P>,
    target_replica: Option<u64>,
    uuids: Set<u128>,
    response: PeekResponseModel<P>,
    replica: u64,
)
    ensures
        ({
            let started = state.peek(storage_ids, peek, target_replica);
            let canceled = state.cancel_peeks(storage_ids, uuids);
            let answered = state.handle_response(
                storage_ids,
                ComputeResponseModel::PeekResponse(peek.uuid, response, peek.otel_ctx),
                replica,
            ).0;
            &&& changes_capabilities_alone(state.collections, started.collections)
            &&& changes_capabilities_alone(state.collections, canceled.collections)
            &&& changes_capabilities_alone(state.collections, answered.collections)
            &&& forall|i: int|
                state.actions.len() <= i < started.actions.len() - 1 ==> passes_capabilities_on(
                    #[trigger] started.actions[i],
                )
            &&& forall|i: int|
                state.actions.len() <= i < canceled.actions.len() - 1 ==> passes_capabilities_on(
                    #[trigger] canceled.actions[i],
                )
            &&& forall|i: int|
                state.actions.len() <= i < answered.actions.len() ==> passes_capabilities_on(
                    #[trigger] answered.actions[i],
                )
        }),
{
    let begun = InstanceModel { spent: state.spent + 1, ..state };
    let hold = Map::<u64, Counts>::empty().insert(peek.id, count_at(peek.timestamp, 1));
    lemma_changes_capabilities_alone(begun, storage_ids, hold);
    let list = sorted_ids(uuids);
    let answers = list.map_values(|uuid: u128| crate::model::cancel_response(state.peeks, uuid));
    let given = InstanceModel {
        ready_responses: state.ready_responses + answers,
        peeks: state.peeks.remove_keys(uuids),
        spent: state.spent + uuids.len(),
        ..state
    };
    lemma_changes_capabilities_alone(given, storage_ids, given_up(state.peeks, list));
    let one = Set::<u128>::empty().insert(peek.uuid);
    let forgotten = InstanceModel {
        peeks: state.peeks.remove_keys(one),
        spent: state.spent + one.len(),
        ..state
    };
    lemma_changes_capabilities_alone(
        forgotten,
        storage_ids,
        given_up(state.peeks, sorted_ids(one)),
    );
}

/// Changes to read capabilities change nothing else of the collections, and are passed on.
proof fn lemma_changes_capabilities_alone<P, L: FrontierLogic>(
    state: InstanceModel<P, L>,
    storage_ids: Set<u64>,
    updates: Map<u64, Counts>,
)
    ensures
        ({
            let after = state.update_read_capabilities(storage_ids, updates);
            &&& changes_capabilities_alone(state.collections, after.collections)
            &&& forall|i: int|
                state.actions.len() <= i < after.actions.len() ==> passes_capabilities_on(
                    #[trigger] after.actions[i],
                )
        }),
{
    law_capabilities_change_alone(state, storage_ids, updates);
    let after = state.update_read_capabilities(storage_ids, updates);
    let settled = state.propagation(updates).settled(storage_ids).collections;
    assert forall|id: u64| #[trigger]
        after.collections.contains_key(id) implies state.collections.contains_key(id)
        && report_of_others(state.collections[id], after.collections[id]) by {
        assert(same_but_capabilities(settled[id], state.collections[id]));
    }
}

} // verus!
