//! What the models show of the values that callers hand in and get back.
use std::sync::Arc;
use timely::progress::Antichain;
use vstd::prelude::*;

use crate::action::{Action, ActionModel};
use crate::changes::{
    batch_updates, held_updates, is_least, lemma_totals_of_both, moved, occurrences, plus, total_at,
    totals,
};
use crate::collection::{CollectionModel, CollectionState};
use crate::command::{
    commands_model, dataflows_model, frontier_option, rows_option, uppers_model, CommandModel,
    ComputeCommand, DataflowDescription, DataflowModel, LoggingConfig, Peek,
};
use crate::frontier::{antichain_elements, Frontier};
use crate::instance::{actions_model, policies_model, responses_model};
use crate::policy::{FrontierLogic, LagBy, PolicyModel, ReadPolicy};
use crate::response::{
    response_option, ComputeControllerResponse, ComputeResponse, ComputeResponseModel,
    ControllerResponseModel, PeekResponse, PeekResponseModel, SubscribeResponse,
    SubscribeResponseModel,
};
use crate::storage::{storage_models, StorageController};

verus! {

/// Whether the list shows the frontiers of another, name by name.
pub open spec fn shows_frontiers(
    uppers: Seq<(u64, Antichain<u64>)>,
    shown: Seq<(u64, Frontier)>,
) -> bool {
    &&& shown.len() == uppers.len()
    &&& forall|i: int|
        0 <= i < uppers.len() ==> (#[trigger] shown[i]).0 == uppers[i].0 && shown[i].1
            == antichain_elements(uppers[i].1)
}

/// A peek is shown with all that it asks for.
pub proof fn law_peek_is_shown<P>(peek: Peek<P>)
    ensures
        peek@.id == peek.id,
        peek.literal_constraints matches Some(rows) ==> peek@.literal_constraints == Some(rows@),
        peek.literal_constraints is None ==> peek@.literal_constraints is None,
        peek@.uuid == peek.uuid,
        peek@.timestamp == peek.timestamp,
        peek@.finishing == peek.finishing,
        peek@.map_filter_project == peek.map_filter_project,
        peek@.otel_ctx == peek.otel_ctx,
{
}

/// Whether a dataflow is shown with all that it reads, computes and writes.
pub open spec fn shows_dataflow<P, S>(
    dataflow: DataflowDescription<P, S>,
    shown: DataflowModel<P, S>,
) -> bool {
    &&& shown.source_imports == dataflow.source_imports@
    &&& shown.index_imports == dataflow.index_imports@
    &&& shown.objects_to_build == dataflow.objects_to_build@
    &&& shown.index_exports == dataflow.index_exports@
    &&& shown.sink_exports == dataflow.sink_exports@
    &&& shown.as_of is Some <==> dataflow.as_of is Some
    &&& dataflow.as_of matches Some(as_of) ==> shown.as_of == Some(antichain_elements(as_of))
    &&& shown.until == antichain_elements(dataflow.until)
    &&& shown.debug_name == dataflow.debug_name@
}

/// A dataflow is shown with all that it reads, computes and writes.
pub proof fn law_dataflow_is_shown<P, S>(dataflow: DataflowDescription<P, S>)
    ensures
        shows_dataflow(dataflow, dataflow@),
{
}

/// A command is shown as what it is.
pub proof fn law_command_is_shown<P>(command: ComputeCommand<P>)
    ensures
        match command {
            ComputeCommand::CreateTimely { comm_config, epoch } => command@
                == CommandModel::CreateTimely { comm_config, epoch },
            ComputeCommand::CreateInstance(config) => command@ == CommandModel::CreateInstance(
                config,
            ),
            ComputeCommand::InitializationComplete => command@
                == CommandModel::<P>::InitializationComplete,
            ComputeCommand::UpdateMaxResultSize(size) => command@
                == CommandModel::<P>::UpdateMaxResultSize(size),
            ComputeCommand::CreateDataflows(dataflows) => command@ matches
                CommandModel::CreateDataflows(shown) && shown.len() == dataflows@.len()
                && forall|i: int|
                0 <= i < shown.len() ==> shows_dataflow(dataflows@[i], #[trigger] shown[i]),
            ComputeCommand::AllowCompaction(uppers) => command@ matches
                CommandModel::AllowCompaction(shown) && shows_frontiers(uppers@, shown),
            ComputeCommand::Peek(peek) => command@ == CommandModel::Peek(peek@),
            ComputeCommand::CancelPeeks { uuids } => command@ == (CommandModel::<
                P,
            >::CancelPeeks { uuids: uuids@ }),
        },
{
}

/// A piece of work is shown as what it is.
pub proof fn law_action_is_shown<P>(action: Action<P>)
    ensures
        match action {
            Action::Send { command, replicas } => action@ == (ActionModel::Send {
                command: (*command)@,
                replicas: replicas@,
            }),
            Action::SpawnReplica {
                id,
                instance_id,
                location,
                logging_config,
                epoch,
                commands,
            } => action@ matches ActionModel::SpawnReplica {
                id: shown_id,
                instance_id: shown_instance,
                location: shown_location,
                logging_config: shown_logging,
                epoch: shown_epoch,
                commands: shown,
            } && shown_id == id && shown_instance == instance_id && shown_location == location
                && shown_logging == (*logging_config)@ && shown_epoch == epoch && shown.len()
                == commands@.len() && forall|i: int|
                0 <= i < shown.len() ==> #[trigger] shown[i] == (*commands@[i])@,
            Action::Disconnect { id } => action@ == (ActionModel::<P>::Disconnect { id }),
            Action::DropReplica { instance_id, id } => action@ == (ActionModel::<P>::DropReplica {
                instance_id,
                id,
            }),
            Action::UpdateStorageReadCapabilities(changes) => action@ matches
                ActionModel::UpdateStorageReadCapabilities(shown) && shown.dom()
                == changes@.dom() && forall|id: u64, time: u64|
                changes@.contains_key(id) ==> (#[trigger] shown[id](time)) == total_at(
                    batch_updates(changes@[id]),
                    time,
                ),
            Action::UpdateStorageWriteFrontiers(uppers) => action@ matches
                ActionModel::UpdateStorageWriteFrontiers(shown) && shows_frontiers(uppers@, shown),
        },
{
    if let Action::UpdateStorageReadCapabilities(changes) = action {
        assert(crate::changes::batches_counts(changes@).dom() =~= changes@.dom());
    }
}

/// What a replica says is shown as what it is.
pub proof fn law_response_is_shown<P>(response: ComputeResponse<P>)
    ensures
        match response {
            ComputeResponse::FrontierUppers(uppers) => response@ matches
                ComputeResponseModel::FrontierUppers(shown) && shows_frontiers(uppers@, shown),
            ComputeResponse::PeekResponse(uuid, answer, context) => response@
                == ComputeResponseModel::PeekResponse(uuid, answer@, context),
            ComputeResponse::SubscribeResponse(id, answer) => response@
                == ComputeResponseModel::SubscribeResponse(id, answer@),
        },
{
}

/// The answer to a peek is shown as what it is.
pub proof fn law_peek_answer_is_shown<P>(answer: PeekResponse<P>)
    ensures
        match answer {
            PeekResponse::Rows(rows) => answer@ == PeekResponseModel::Rows(rows),
            PeekResponse::Error(text) => answer@ == PeekResponseModel::<P>::Error(text@),
            PeekResponse::Canceled => answer@ == PeekResponseModel::<P>::Canceled,
        },
{
}

/// The answer to a subscription is shown as what it is, with its bounds and all of its updates.
pub proof fn law_subscribe_answer_is_shown<P>(answer: SubscribeResponse<P>)
    ensures
        match answer {
            SubscribeResponse::Batch(batch) => answer@ matches
                SubscribeResponseModel::Batch(shown) && shown.lower == antichain_elements(
                batch.lower,
            ) && shown.upper == antichain_elements(batch.upper) && match batch.updates {
                Ok(updates) => shown.updates == Ok::<_, Seq<char>>(updates@),
                Err(text) => shown.updates == Err::<Seq<(u64, P, i64)>, _>(text@),
            },
            SubscribeResponse::DroppedAt(frontier) => answer@
                == SubscribeResponseModel::<P>::DroppedAt(antichain_elements(frontier)),
        },
{
}

/// What an instance tells its clients is shown as what it is.
pub proof fn law_answer_is_shown<P>(response: ComputeControllerResponse<P>)
    ensures
        match response {
            ComputeControllerResponse::PeekResponse(uuid, answer, context) => response@
                == ControllerResponseModel::PeekResponse(uuid, answer@, context),
            ComputeControllerResponse::SubscribeResponse(id, answer) => response@
                == ControllerResponseModel::SubscribeResponse(id, answer@),
        },
{
}

/// The logs that a replica maintains are shown with their names.
pub proof fn law_logging_is_shown<P>(logging_config: LoggingConfig<P>)
    ensures
        logging_config@.settings == logging_config.settings,
        logging_config@.index_logs == logging_config.index_logs@,
        logging_config@.sink_logs == logging_config.sink_logs@,
{
}

/// What storage knows is shown, collection by collection.
pub proof fn law_storage_is_shown<P>(storage: StorageController<P>, id: u64)
    ensures
        storage@.contains_key(id) <==> storage.collections@.contains_key(id),
        storage.collections@.contains_key(id) ==> {
            let state = storage.collections@[id];
            &&& storage@[id].read_frontier == antichain_elements(state.read_frontier)
            &&& storage@[id].collection_metadata == state.collection_metadata
            &&& storage@[id].typ == state.typ
        },
{
}

/// What storage knows now comes first, then what it knows at each later moment, in order.
pub proof fn law_later_storage_is_shown<P>(
    now: StorageController<P>,
    later: Seq<&StorageController<P>>,
)
    ensures
        storage_models(now, later).len() == later.len() + 1,
        storage_models(now, later)[0] == now@,
        forall|i: int|
            0 <= i < later.len() ==> #[trigger] storage_models(now, later)[i + 1] == later[i]@,
{
}

/// A collection is shown with what is kept of it: each time counts what was recorded for it.
pub proof fn law_collection_is_shown<L>(collection: CollectionState<L>)
    ensures
        collection@.log_collection == collection.log_collection,
        forall|time: u64| #[trigger]
            (collection@.read_capabilities)(time) == total_at(
                held_updates(collection.read_capabilities),
                time,
            ),
        collection@.implied_capability == antichain_elements(collection.implied_capability),
        collection@.read_policy == collection.read_policy@,
        collection@.storage_dependencies == collection.storage_dependencies@,
        collection@.compute_dependencies == collection.compute_dependencies@,
        collection@.write_frontier == antichain_elements(collection.write_frontier),
        collection@.replica_write_frontiers.dom() == collection.replica_write_frontiers@.dom(),
        forall|id: u64| #[trigger]
            collection.replica_write_frontiers@.contains_key(id)
                ==> collection@.replica_write_frontiers[id] == antichain_elements(
                collection.replica_write_frontiers@[id],
            ),
{
    assert(collection@.replica_write_frontiers.dom()
        =~= collection.replica_write_frontiers@.dom());
}

/// A collection is readable from the least time on at which a capability is held, and from none
/// on where there is no such time.
pub proof fn law_read_frontier_is_least<L>(collection: CollectionModel<L>)
    ensures
        collection.read_frontier().len() <= 1,
        forall|time: u64|
            collection.read_frontier() == seq![time] <==> {
                &&& #[trigger] (collection.read_capabilities)(time) > 0
                &&& forall|other: u64|
                    other < time ==> #[trigger] (collection.read_capabilities)(other) <= 0
            },
        collection.read_frontier().len() == 0 ==> forall|time: u64| #[trigger]
            (collection.read_capabilities)(time) <= 0,
{
    let counts = collection.read_capabilities;
    let frontier = collection.read_frontier();
    assert forall|time: u64| frontier == seq![time] <==> {
        &&& #[trigger] counts(time) > 0
        &&& forall|other: u64| other < time ==> #[trigger] counts(other) <= 0
    } by {
        if is_least(counts, time) {
            let least = choose|other: u64| is_least(counts, other);
            if least < time {
                assert(counts(least) <= 0);
            } else if time < least {
                assert(counts(time) <= 0);
            }
        } else if frontier == seq![time] {
            assert(frontier[0] == time);
        }
    }
    if frontier.len() == 0 {
        assert forall|time: u64| #[trigger] counts(time) <= 0 by {
            if counts(time) > 0 {
                super::readable::lemma_lower_reaches(counts, time);
            }
        }
    }
}

/// A policy is shown as what it is, and so is each policy of a list.
pub proof fn law_policy_is_shown<L>(policy: ReadPolicy<L>, policies: Seq<(u64, ReadPolicy<L>)>)
    ensures
        match policy {
            ReadPolicy::ValidFrom(frontier) => policy@ == PolicyModel::<L>::ValidFrom(
                antichain_elements(frontier),
            ),
            ReadPolicy::LagWriteFrontier(logic) => policy@ == PolicyModel::LagWriteFrontier(logic),
        },
        policies_model(policies).len() == policies.len(),
        forall|i: int|
            0 <= i < policies.len() ==> (#[trigger] policies_model(policies)[i]).0 == policies[i].0
                && policies_model(policies)[i].1 == policies[i].1@,
{
}

/// Whether `behind` is `lag` before `time`, or the first time where there is none that early.
pub open spec fn trails(behind: u64, time: u64, lag: u64) -> bool {
    behind + lag == time || (behind == 0 && time < lag)
}

/// A policy that stays behind the write frontier by a fixed distance asks for a read frontier
/// that is empty exactly if the write frontier is, and else holds one time: that distance before
/// the write frontier, as far as there are times.
pub proof fn law_lag_stays_behind(policy: LagBy, upper: Frontier)
    ensures
        ({
            let asked = policy.answer(upper);
            &&& upper.len() == 0 ==> asked.len() == 0
            &&& upper.len() > 0 ==> asked.len() == 1 && trails(asked[0], upper[0], policy.lag)
        }),
{
}

/// What a policy asks for: the frontier that is fixed, or what its logic answers.
pub proof fn law_policy_answers<L: FrontierLogic>(logic: L, frontier: Frontier, upper: Frontier)
    ensures
        PolicyModel::<L>::ValidFrom(frontier).answer(upper) == frontier,
        PolicyModel::LagWriteFrontier(logic).answer(upper) == logic.answer(upper),
{
}

/// Lists of work and of responses are shown in order.
pub proof fn law_lists_are_shown<P>(
    actions: Seq<Action<P>>,
    responses: Seq<ComputeControllerResponse<P>>,
)
    ensures
        actions_model(actions).len() == actions.len(),
        forall|i: int|
            0 <= i < actions.len() ==> #[trigger] actions_model(actions)[i] == actions[i]@,
        responses_model(responses).len() == responses.len(),
        forall|i: int|
            0 <= i < responses.len() ==> #[trigger] responses_model(responses)[i]
                == responses[i]@,
{
}

/// Lists of dataflows, commands and write frontiers are shown in order.
pub proof fn law_requests_are_shown<P>(
    dataflows: Seq<DataflowDescription<P, ()>>,
    commands: Seq<Arc<ComputeCommand<P>>>,
    uppers: Seq<(u64, Antichain<u64>)>,
)
    ensures
        dataflows_model(dataflows).len() == dataflows.len(),
        forall|i: int|
            0 <= i < dataflows.len() ==> shows_dataflow(
                dataflows[i],
                #[trigger] dataflows_model(dataflows)[i],
            ),
        commands_model(commands).len() == commands.len(),
        forall|i: int|
            0 <= i < commands.len() ==> #[trigger] commands_model(commands)[i] == (*commands[i])@,
        shows_frontiers(uppers, uppers_model(uppers)),
{
}

/// What may be absent is shown as absent exactly if it is.
pub proof fn law_options_are_shown<P>(
    response: ComputeControllerResponse<P>,
    rows: Vec<P>,
    frontier: Antichain<u64>,
)
    ensures
        response_option(Some(response)) == Some(response@),
        response_option(None::<ComputeControllerResponse<P>>) is None,
        rows_option(Some(rows)) == Some(rows@),
        rows_option(None::<Vec<P>>) is None,
        frontier_option(Some(frontier)) == Some(antichain_elements(frontier)),
        frontier_option(None) is None,
{
}

/// A new collection is readable from where it is said to be, as its policy says, depends on what
/// it is said to depend on, was written up to the first time and not reported on. A log is
/// readable from the first time on and depends on nothing.
pub proof fn law_new_collections<L>(since: Frontier, sources: Seq<u64>, indexes: Seq<u64>)
    ensures
        ({
            let made = CollectionModel::<L>::created(since, sources, indexes);
            &&& !made.log_collection
            &&& forall|time: u64| #[trigger]
                (made.read_capabilities)(time) == occurrences(since, time)
            &&& made.implied_capability == since
            &&& made.read_policy == PolicyModel::<L>::ValidFrom(since)
            &&& made.storage_dependencies == sources
            &&& made.compute_dependencies == indexes
            &&& made.write_frontier == seq![0u64]
            &&& made.replica_write_frontiers.is_empty()
        }),
        ({
            let log = CollectionModel::<L>::created_log();
            &&& log.log_collection
            &&& forall|time: u64| #[trigger]
                (log.read_capabilities)(time) == if time == 0 {
                    1int
                } else {
                    0int
                }
            &&& log.implied_capability == seq![0u64]
            &&& log.read_policy == PolicyModel::<L>::ValidFrom(seq![0u64])
            &&& log.storage_dependencies.len() == 0
            &&& log.compute_dependencies.len() == 0
            &&& log.write_frontier == seq![0u64]
            &&& log.replica_write_frontiers.is_empty()
        }),
{
    reveal_with_fuel(occurrences, 2);
}

/// A frontier counts each of its elements once, wherever it stands; changes add up in whatever
/// lists they come; and a move from one frontier to another is what the second counts more than
/// the first.
pub proof fn law_counts_add_up(
    left: Frontier,
    right: Frontier,
    first: Seq<(u64, i64)>,
    second: Seq<(u64, i64)>,
    time: u64,
    change: i64,
    other: u64,
)
    ensures
        occurrences(left + right, other) == occurrences(left, other) + occurrences(right, other),
        occurrences(seq![time], other) == if other == time {
            1int
        } else {
            0int
        },
        total_at(first + second, other) == total_at(first, other) + total_at(second, other),
        total_at(seq![(time, change)], other) == if other == time {
            change as int
        } else {
            0int
        },
        moved(left, right)(other) == occurrences(right, other) - occurrences(left, other),
{
    lemma_occurrences_of_both(left, right, other);
    lemma_totals_of_both(first, second);
    assert(plus(totals(first), totals(second))(other) == totals(first + second)(other));
    reveal_with_fuel(occurrences, 2);
    reveal_with_fuel(total_at, 2);
    assert(seq![(time, change)].drop_last() =~= Seq::empty());
}

/// Two frontiers count together what they count apart.
proof fn lemma_occurrences_of_both(left: Frontier, right: Frontier, time: u64)
    ensures
        occurrences(left + right, time) == occurrences(left, time) + occurrences(right, time),
    decreases right.len(),
{
    if right.len() == 0 {
        assert(left + right =~= left);
    } else {
        assert((left + right).drop_last() =~= left + right.drop_last());
        lemma_occurrences_of_both(left, right.drop_last(), time);
    }
}

} // verus!
