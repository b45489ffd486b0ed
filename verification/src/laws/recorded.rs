//! What is sent to replicas is recorded for those that come later.
use std::sync::Arc;
use vstd::prelude::*;

use super::membership::{is_sink_log, law_replica_state_is_removed, still_concerns};
use super::told::{
    allows_to_forget, law_forgotten_peeks_are_told, law_reports_are_told, readable_from,
    tells_moves,
};
use crate::action::ActionModel;
use crate::changes::Counts;
use crate::command::{CommandModel, ComputeReplicaLocation, DataflowModel, LoggingModel, PeekModel};
use crate::frontier::Frontier;
use crate::model::{lemma_initial_uppers, InstanceModel};
use crate::ordered::sorted_ids;
use crate::policy::{FrontierLogic, PolicyModel};
use crate::response::ComputeResponseModel;
use crate::storage::StorageCollectionModel;

verus! {

/// The commands that the actions send, in order.
pub open spec fn sent<P>(actions: Seq<ActionModel<P>>) -> Seq<CommandModel<P>>
    decreases actions.len(),
{
    if actions.len() == 0 {
        Seq::empty()
    } else {
        let before = sent(actions.drop_last());
        match actions.last() {
            ActionModel::Send { command, .. } => before.push(command),
            _ => before,
        }
    }
}

/// Whether just these commands were sent and recorded, in this order.
pub open spec fn records<P, L>(
    before: InstanceModel<P, L>,
    after: InstanceModel<P, L>,
    commands: Seq<CommandModel<P>>,
) -> bool {
    &&& sent(after.actions) == sent(before.actions) + commands
    &&& after.history == before.history + commands
}

/// Whether all commands that were sent were recorded, in the same order, and no others.
pub open spec fn records_what_is_sent<P, L>(
    before: InstanceModel<P, L>,
    after: InstanceModel<P, L>,
) -> bool {
    exists|commands: Seq<CommandModel<P>>| #[trigger] records(before, after, commands)
}

/// Where neither the history nor the actions changed, nothing was sent or recorded.
proof fn lemma_nothing_sent<P, L>(before: InstanceModel<P, L>, after: InstanceModel<P, L>)
    requires
        after.history == before.history,
        after.actions == before.actions,
    ensures
        records_what_is_sent(before, after),
{
    let none = Seq::<CommandModel<P>>::empty();
    assert(sent(before.actions) + none =~= sent(before.actions));
    assert(before.history + none =~= before.history);
    assert(records(before, after, none));
}

/// An action that sends no command sends none.
proof fn lemma_asking_sends_nothing<P, L: FrontierLogic>(
    state: InstanceModel<P, L>,
    action: ActionModel<P>,
)
    requires
        !(action is Send),
    ensures
        records_what_is_sent(state, state.ask(action)),
{
    let none = Seq::<CommandModel<P>>::empty();
    let after = state.ask(action);
    assert(after.actions.drop_last() =~= state.actions);
    assert(sent(state.actions) + none =~= sent(state.actions));
    assert(state.history + none =~= state.history);
    assert(records(state, after, none));
}

/// A command that is sent is recorded.
proof fn lemma_sending_records<P, L: FrontierLogic>(
    state: InstanceModel<P, L>,
    command: CommandModel<P>,
)
    ensures
        records_what_is_sent(state, state.send(command)),
{
    let after = state.send(command);
    assert(after.actions.drop_last() =~= state.actions);
    assert(sent(state.actions) + seq![command] =~= sent(state.actions).push(command));
    assert(state.history + seq![command] =~= state.history.push(command));
    assert(records(state, after, seq![command]));
}

/// What records all that is sent twice in a row records all that is sent.
proof fn lemma_records_twice<P, L>(
    first: InstanceModel<P, L>,
    second: InstanceModel<P, L>,
    third: InstanceModel<P, L>,
)
    requires
        records_what_is_sent(first, second),
        records_what_is_sent(second, third),
    ensures
        records_what_is_sent(first, third),
{
    let left = choose|commands: Seq<CommandModel<P>>| #[trigger] records(first, second, commands);
    let right = choose|commands: Seq<CommandModel<P>>| #[trigger] records(second, third, commands);
    let both = left + right;
    assert(sent(first.actions) + left + right =~= sent(first.actions) + both);
    assert(first.history + left + right =~= first.history + both);
    assert(records(first, third, both));
}

/// Changes to read capabilities record all that they have sent.
pub proof fn law_changes_are_recorded<P, L: FrontierLogic>(
    state: InstanceModel<P, L>,
    storage_ids: Set<u64>,
    updates: Map<u64, Counts>,
)
    ensures
        records_what_is_sent(state, state.update_read_capabilities(storage_ids, updates)),
{
    let end = state.propagation(updates).settled(storage_ids);
    let applied = InstanceModel { collections: end.collections, spent: end.spent, ..state };
    let compactions = crate::model::compactions(end.collections, end.net);
    let compacted = if compactions.len() == 0 {
        applied
    } else {
        applied.send(CommandModel::AllowCompaction(compactions))
    };
    let cleaned = InstanceModel {
        collections: crate::model::without_dropped(
            end.collections,
            crate::model::visited(end.net),
        ),
        ..compacted
    };
    let after = state.update_read_capabilities(storage_ids, updates);
    lemma_nothing_sent(state, applied);
    if compactions.len() > 0 {
        lemma_sending_records(applied, CommandModel::AllowCompaction(compactions));
    } else {
        lemma_nothing_sent(applied, compacted);
    }
    lemma_nothing_sent(compacted, cleaned);
    if end.storage.is_empty() {
        lemma_nothing_sent(cleaned, after);
    } else {
        lemma_asking_sends_nothing(
            cleaned,
            ActionModel::UpdateStorageReadCapabilities(end.storage),
        );
    }
    lemma_records_twice(state, applied, compacted);
    lemma_records_twice(state, compacted, cleaned);
    lemma_records_twice(state, cleaned, after);
}

/// Reports that are taken in record all that is sent.
proof fn lemma_reports_are_recorded<P, L: FrontierLogic>(
    state: InstanceModel<P, L>,
    storage_ids: Set<u64>,
    replica: u64,
    uppers: Seq<(u64, Frontier)>,
)
    ensures
        records_what_is_sent(state, state.update_write_frontiers(storage_ids, replica, uppers)),
{
    let update = state.absorbed(replica, uppers);
    let absorbed = InstanceModel { collections: update.collections, spent: update.spent, ..state };
    let applied = state.with_uppers(storage_ids, replica, uppers);
    let held = if update.storage.is_empty() {
        applied
    } else {
        applied.ask(ActionModel::UpdateStorageReadCapabilities(update.storage))
    };
    let reports = ActionModel::UpdateStorageWriteFrontiers(
        crate::model::reports(update.collections, update.advanced, storage_ids),
    );
    let told = held.ask(reports);
    let after = state.update_write_frontiers(storage_ids, replica, uppers);
    lemma_nothing_sent(state, absorbed);
    law_changes_are_recorded(absorbed, storage_ids, update.capabilities);
    if update.storage.is_empty() {
        lemma_nothing_sent(applied, held);
    } else {
        lemma_asking_sends_nothing(
            applied,
            ActionModel::UpdateStorageReadCapabilities(update.storage),
        );
    }
    lemma_asking_sends_nothing(held, reports);
    lemma_nothing_sent(told, after);
    lemma_records_twice(state, absorbed, applied);
    lemma_records_twice(state, applied, held);
    lemma_records_twice(state, held, told);
    lemma_records_twice(state, told, after);
}

/// Peeks that are forgotten record all that is sent.
proof fn lemma_forgotten_peeks_are_recorded<P, L: FrontierLogic>(
    state: InstanceModel<P, L>,
    storage_ids: Set<u64>,
    uuids: Set<u128>,
)
    ensures
        records_what_is_sent(state, state.remove_peeks(storage_ids, uuids)),
{
    let start = InstanceModel {
        peeks: state.peeks.remove_keys(uuids),
        spent: state.spent + uuids.len(),
        ..state
    };
    let updates = crate::model::given_up(state.peeks, sorted_ids(uuids));
    lemma_nothing_sent(state, start);
    law_changes_are_recorded(start, storage_ids, updates);
    lemma_records_twice(state, start, state.remove_peeks(storage_ids, uuids));
}

/// Starting a peek, giving peeks up, assigning policies and dropping collections record all that
/// is sent.
pub proof fn law_requests_are_recorded<P, L: FrontierLogic>(
    state: InstanceModel<P, L>,
    storage_ids: Set<u64>,
    peek: PeekModel<P>,
    target_replica: Option<u64>,
    uuids: Set<u128>,
    policies: Seq<(u64, PolicyModel<L>)>,
    ids: Seq<u64>,
)
    ensures
        records_what_is_sent(state, state.peek(storage_ids, peek, target_replica)),
        records_what_is_sent(state, state.cancel_peeks(storage_ids, uuids)),
        records_what_is_sent(state, state.set_read_policy(storage_ids, policies)),
        records_what_is_sent(state, state.drop_collections(storage_ids, ids)),
{
    let begun = InstanceModel { spent: state.spent + 1, ..state };
    let hold = Map::<u64, Counts>::empty().insert(
        peek.id,
        crate::changes::count_at(peek.timestamp, 1),
    );
    let held = begun.update_read_capabilities(storage_ids, hold);
    let after = state.peek(storage_ids, peek, target_replica);
    let pending = InstanceModel { peeks: after.peeks, ..held };
    lemma_nothing_sent(state, begun);
    law_changes_are_recorded(begun, storage_ids, hold);
    lemma_nothing_sent(held, pending);
    lemma_sending_records(pending, CommandModel::Peek(peek));
    lemma_records_twice(state, begun, held);
    lemma_records_twice(state, held, pending);
    lemma_records_twice(state, pending, after);

    let answers = sorted_ids(uuids).map_values(
        |uuid: u128| crate::model::cancel_response(state.peeks, uuid),
    );
    let answered = InstanceModel { ready_responses: state.ready_responses + answers, ..state };
    let removed = answered.remove_peeks(storage_ids, uuids);
    lemma_nothing_sent(state, answered);
    lemma_forgotten_peeks_are_recorded(answered, storage_ids, uuids);
    lemma_sending_records(removed, CommandModel::CancelPeeks { uuids });
    lemma_records_twice(state, answered, removed);
    lemma_records_twice(state, removed, state.cancel_peeks(storage_ids, uuids));

    lemma_policies_are_recorded(state, storage_ids, policies);
    lemma_policies_are_recorded(state, storage_ids, crate::model::dropping(ids));
}

/// Policies that are assigned record all that is sent.
proof fn lemma_policies_are_recorded<P, L: FrontierLogic>(
    state: InstanceModel<P, L>,
    storage_ids: Set<u64>,
    policies: Seq<(u64, PolicyModel<L>)>,
)
    ensures
        records_what_is_sent(state, state.set_read_policy(storage_ids, policies)),
{
    let update = state.assigned(policies);
    let assigned = InstanceModel { collections: update.collections, spent: update.spent, ..state };
    lemma_nothing_sent(state, assigned);
    if update.missing is None {
        law_changes_are_recorded(assigned, storage_ids, update.capabilities);
        lemma_records_twice(state, assigned, state.set_read_policy(storage_ids, policies));
    }
}

/// Taking in what a replica says records all that is sent.
pub proof fn law_responses_are_recorded<P, L: FrontierLogic>(
    state: InstanceModel<P, L>,
    storage_ids: Set<u64>,
    response: ComputeResponseModel<P>,
    replica: u64,
)
    ensures
        records_what_is_sent(state, state.handle_response(storage_ids, response, replica).0),
{
    match response {
        ComputeResponseModel::FrontierUppers(uppers) => {
            lemma_reports_are_recorded(
                state,
                storage_ids,
                replica,
                state.tracked_uppers(uppers),
            );
        },
        ComputeResponseModel::PeekResponse(uuid, _, _) => {
            if state.awaits_peek(uuid, replica) {
                lemma_forgotten_peeks_are_recorded(
                    state,
                    storage_ids,
                    Set::empty().insert(uuid),
                );
            } else {
                lemma_nothing_sent(state, state);
            }
        },
        ComputeResponseModel::SubscribeResponse(id, answer) => {
            let (before, upper, _) = state.subscribe_response(id, answer);
            lemma_nothing_sent(state, before);
            lemma_reports_are_recorded(before, storage_ids, replica, seq![(id, upper)]);
            lemma_records_twice(
                state,
                before,
                before.update_write_frontiers(storage_ids, replica, seq![(id, upper)]),
            );
        },
    }
}

/// Reports of the first replicas record all that is sent.
proof fn lemma_replicas_are_recorded<P, L: FrontierLogic>(
    state: InstanceModel<P, L>,
    storage_ids: Set<u64>,
    replicas: Seq<u64>,
    uppers: Seq<(u64, Frontier)>,
)
    ensures
        records_what_is_sent(state, state.update_on_replicas(storage_ids, replicas, uppers)),
    decreases replicas.len(),
{
    if replicas.len() == 0 {
        lemma_nothing_sent(state, state);
    } else {
        let before = state.update_on_replicas(storage_ids, replicas.drop_last(), uppers);
        lemma_replicas_are_recorded(state, storage_ids, replicas.drop_last(), uppers);
        lemma_reports_are_recorded(before, storage_ids, replicas.last(), uppers);
        lemma_records_twice(
            state,
            before,
            before.update_write_frontiers(storage_ids, replicas.last(), uppers),
        );
    }
}

/// Tracking a dataflow records all that is sent.
pub proof fn law_tracking_is_recorded<P, L: FrontierLogic>(
    state: InstanceModel<P, L>,
    storage_ids: Set<u64>,
    dataflow: DataflowModel<P, ()>,
)
    ensures
        records_what_is_sent(state, state.install(storage_ids, dataflow)),
{
    let asked = state.with_sources_held(dataflow);
    let begun = InstanceModel { spent: asked.spent, ..state };
    let sources = crate::model::same_for_all(dataflow.source_imports.dom(), dataflow.hold());
    let indexes = crate::model::same_for_all(dataflow.index_imports.dom(), dataflow.hold());
    let held = asked.update_read_capabilities(storage_ids, indexes);
    let exported = state.with_exports(storage_ids, dataflow);
    let replicas = sorted_ids(exported.replicas.dom());
    let uppers = dataflow.export_ids().map_values(|id: u64| (id, dataflow.as_of->0));
    let started = exported.update_on_replicas(storage_ids, replicas, uppers);
    let after = state.install(storage_ids, dataflow);
    lemma_nothing_sent(state, begun);
    lemma_asking_sends_nothing(begun, ActionModel::UpdateStorageReadCapabilities(sources));
    assert(asked == begun.ask(ActionModel::UpdateStorageReadCapabilities(sources)));
    law_changes_are_recorded(asked, storage_ids, indexes);
    lemma_nothing_sent(held, exported);
    lemma_replicas_are_recorded(exported, storage_ids, replicas, uppers);
    lemma_nothing_sent(started, after);
    lemma_records_twice(state, begun, asked);
    lemma_records_twice(state, asked, held);
    lemma_records_twice(state, held, exported);
    lemma_records_twice(state, exported, started);
    lemma_records_twice(state, started, after);
}

/// Tracking dataflows until one is refused records all that is sent.
proof fn lemma_tracking_all_is_recorded<P, L: FrontierLogic>(
    state: InstanceModel<P, L>,
    storage: Seq<Map<u64, StorageCollectionModel<P>>>,
    dataflows: Seq<DataflowModel<P, ()>>,
)
    ensures
        records_what_is_sent(state, state.install_all(storage, dataflows).0),
    decreases dataflows.len(),
{
    if dataflows.len() == 0 {
        lemma_nothing_sent(state, state);
    } else {
        let (before, error) = state.install_all(storage, dataflows.drop_last());
        let known = storage[dataflows.len() - 1];
        lemma_tracking_all_is_recorded(state, storage, dataflows.drop_last());
        if error is None && before.import_error(known, dataflows.last()) is None {
            law_tracking_is_recorded(before, known.dom(), dataflows.last());
            lemma_records_twice(state, before, before.install(known.dom(), dataflows.last()));
        }
    }
}

/// Sending dataflows and creating dataflows, also where one is refused, record all that is sent.
pub proof fn law_creating_is_recorded<P, L: FrontierLogic>(
    state: InstanceModel<P, L>,
    storage: Seq<Map<u64, StorageCollectionModel<P>>>,
    now: Map<u64, StorageCollectionModel<P>>,
    dataflows: Seq<DataflowModel<P, ()>>,
)
    ensures
        records_what_is_sent(state, state.send_dataflows(now, dataflows).0),
        records_what_is_sent(state, state.create_dataflows(storage, dataflows).0),
{
    let (installed, error) = state.install_all(storage, dataflows);
    lemma_tracking_all_is_recorded(state, storage, dataflows);
    lemma_sent_dataflows_are_recorded(state, now, dataflows);
    if error is None {
        let last = storage[dataflows.len() as int];
        lemma_sent_dataflows_are_recorded(installed, last, dataflows);
        lemma_records_twice(state, installed, installed.send_dataflows(last, dataflows).0);
    }
}

/// Dataflows that are sent are recorded.
proof fn lemma_sent_dataflows_are_recorded<P, L: FrontierLogic>(
    state: InstanceModel<P, L>,
    storage: Map<u64, StorageCollectionModel<P>>,
    dataflows: Seq<DataflowModel<P, ()>>,
)
    ensures
        records_what_is_sent(state, state.send_dataflows(storage, dataflows).0),
{
    if crate::model::lookup_errors(dataflows, storage) is Some {
        lemma_nothing_sent(state, state);
    } else {
        lemma_sending_records(
            state,
            CommandModel::CreateDataflows(
                dataflows.map_values(
                    |dataflow: DataflowModel<P, ()>| dataflow.looked_up(storage),
                ),
            ),
        );
    }
}

/// Removing what is tracked of a replica sends and records nothing.
proof fn lemma_removing_state_records<P, L: FrontierLogic>(state: InstanceModel<P, L>, id: u64)
    ensures
        records_what_is_sent(state, state.remove_replica_state(id)),
{
    let ids = sorted_ids(state.collections.dom());
    let storage = crate::model::released(state.collections, id, ids);
    let forgotten = state.remove_write_frontiers(id);
    let after = state.remove_replica_state(id);
    let begun = InstanceModel { spent: forgotten.spent, ..state };
    lemma_nothing_sent(state, begun);
    if storage.is_empty() {
        lemma_nothing_sent(begun, forgotten);
    } else {
        let told = begun.ask(ActionModel::UpdateStorageReadCapabilities(storage));
        lemma_asking_sends_nothing(begun, ActionModel::UpdateStorageReadCapabilities(storage));
        lemma_nothing_sent(told, forgotten);
        lemma_records_twice(begun, told, forgotten);
    }
    lemma_records_twice(state, begun, forgotten);
    let fewer = InstanceModel {
        replicas: forgotten.replicas.remove(id),
        failed_replicas: forgotten.failed_replicas.remove(id),
        ..forgotten
    };
    lemma_nothing_sent(forgotten, fewer);
    lemma_asking_sends_nothing(fewer, ActionModel::Disconnect { id });
    lemma_records_twice(state, forgotten, fewer);
    lemma_records_twice(state, fewer, after);
}

/// Removing a replica records all that is sent, and all replicas are told of the moves of read
/// frontiers that follow.
pub proof fn law_removal_is_told_and_recorded<P, L: FrontierLogic>(
    state: InstanceModel<P, L>,
    storage_ids: Set<u64>,
    id: u64,
)
    ensures
        records_what_is_sent(state, state.remove_replica(storage_ids, id)),
        tells_moves(state, state.remove_replica(storage_ids, id), Set::empty()),
{
    let given = state.give_replica_up(id);
    let uuids = state.peeks_targeting(id);
    let removed = given.remove_peeks(storage_ids, uuids);
    let after = state.remove_replica(storage_ids, id);
    if given.actions == state.actions {
        lemma_nothing_sent(state, given);
    } else {
        let drop = ActionModel::<P>::DropReplica { instance_id: state.instance_id, id };
        lemma_asking_sends_nothing(state, drop);
        lemma_nothing_sent(state.ask(drop), given);
        lemma_records_twice(state, state.ask(drop), given);
    }
    lemma_forgotten_peeks_are_recorded(given, storage_ids, uuids);
    lemma_removing_state_records(removed, id);
    lemma_records_twice(state, given, removed);
    lemma_records_twice(state, removed, after);

    law_forgotten_peeks_are_told(given, storage_ids, uuids);
    law_replica_state_is_removed(removed, id);
    assert forall|other: u64| #[trigger]
        state.collections.contains_key(other) && !Set::<u64>::empty().contains(other)
            && state.collections[other].read_frontier() != readable_from(
            after.collections,
            other,
        ) implies exists|i: int|
        state.actions.len() <= i < after.actions.len() && allows_to_forget(
            #[trigger] after.actions[i],
            state.replicas,
            other,
            readable_from(after.collections, other),
        ) by {
        let frontier = readable_from(after.collections, other);
        assert(given.collections.contains_key(other));
        assert(readable_from(removed.collections, other) =~= frontier);
        let i = choose|i: int|
            given.actions.len() <= i < removed.actions.len() && allows_to_forget(
                #[trigger] removed.actions[i],
                given.replicas,
                other,
                frontier,
            );
        assert(after.actions[i] == removed.actions[i]);
    }
}

/// Whether just these commands were sent, and recorded after those before, of which all stay but
/// peeks that are not pending.
pub open spec fn records_what_concerns<P, L>(
    before: InstanceModel<P, L>,
    after: InstanceModel<P, L>,
    commands: Seq<CommandModel<P>>,
) -> bool {
    &&& sent(after.actions) == sent(before.actions) + commands
    &&& after.history == (before.history + commands).filter(
        |command: CommandModel<P>| still_concerns(command, before.peeks),
    )
}

/// Adding a replica tells the replicas that are there of the moves of read frontiers that follow.
/// What is sent is recorded as well, and what is recorded is what brings the new replica up to
/// date: in order, with nothing left out but peeks that are not pending.
pub proof fn law_addition_is_told_and_recorded<P, L: FrontierLogic>(
    state: InstanceModel<P, L>,
    storage_ids: Set<u64>,
    id: u64,
    location: Arc<ComputeReplicaLocation<P>>,
    logging_config: LoggingModel<P>,
)
    requires
        state.collections.dom().finite(),
        logging_config.sink_logs.dom().finite(),
    ensures
        ({
            let after = state.add_replica(storage_ids, id, location, logging_config);
            let logs = Set::new(|log: u64| is_sink_log(logging_config, log));
            &&& tells_moves(state, after, logs)
            &&& exists|commands: Seq<CommandModel<P>>| #[trigger]
                records_what_concerns(state, after, commands)
        }),
{
    let logs = Set::new(|log: u64| is_sink_log(logging_config, log));
    let logged = state.with_logs(logging_config);
    let complete = logged.complete_logging(logging_config);
    let uppers = logged.initial_uppers(complete);
    let joined = logged.update_write_frontiers(storage_ids, id, uppers);
    let after = state.add_replica(storage_ids, id, location, logging_config);
    super::growth::lemma_logged_finite(state, logging_config);
    lemma_initial_uppers(logged, complete);
    law_reports_are_told(logged, storage_ids, id, uppers);
    lemma_reports_are_recorded(logged, storage_ids, id, uppers);
    let commands = choose|commands: Seq<CommandModel<P>>| #[trigger]
        records(logged, joined, commands);
    assert(after.actions.drop_last() =~= joined.actions);
    assert(sent(after.actions) == sent(state.actions) + commands);
    let concerns = |command: CommandModel<P>| still_concerns(command, state.peeks);
    let wanted = |command: CommandModel<P>| crate::model::is_wanted(command, joined.peeks);
    assert(concerns =~= wanted);
    assert(after.history == (state.history + commands).filter(concerns));
    assert(records_what_concerns(state, after, commands));
    assert forall|other: u64| #[trigger]
        state.collections.contains_key(other) && !logs.contains(other)
            && state.collections[other].read_frontier() != readable_from(
            after.collections,
            other,
        ) implies exists|i: int|
        state.actions.len() <= i < after.actions.len() && allows_to_forget(
            #[trigger] after.actions[i],
            state.replicas,
            other,
            readable_from(after.collections, other),
        ) by {
        assert(!logging_config.sink_log_ids().contains(other));
        assert(logged.collections.contains_key(other));
        assert(logged.collections[other] == state.collections[other]);
        let i = choose|i: int|
            logged.actions.len() <= i < joined.actions.len() && allows_to_forget(
                #[trigger] joined.actions[i],
                logged.replicas,
                other,
                readable_from(after.collections, other),
            );
        assert(after.actions[i] == joined.actions[i]);
    }
}

} // verus!
