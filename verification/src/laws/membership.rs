//! What adding, removing and restarting replicas does.
use std::sync::Arc;
use vstd::prelude::*;

use super::accounts::{law_capabilities_change_alone, same_but_capabilities};
use super::commands::{lemma_only_adds_twice, only_adds, same_identity};
use super::growth::{law_uppers_add_nothing, lemma_logged_finite};
use super::reports::{
    all_done, all_done_but, concerns_storage, law_storage_learns_of_write_frontiers, lemma_absorbs,
    lemma_filter_all, names, names_once, report_of_others, report_taken_in,
};
use super::told::lemma_pick_is_picked;
use crate::action::ActionModel;
use crate::collection::CollectionModel;
use crate::command::{CommandModel, ComputeReplicaLocation, LoggingModel};
use crate::frontier::{frontier_lt, Frontier};
use crate::model::{given_up, lemma_initial_uppers, InstanceModel, ReplicaModel};
use crate::ordered::{lemma_picked, lemma_sorted_ids, sorted_ids};
use crate::pending::PendingPeek;
use crate::policy::FrontierLogic;
use crate::response::{ControllerResponseModel, PeekResponseModel};

verus! {

/// The number of the next start of a replica.
pub open spec fn next_start(starts: Map<u64, u64>, id: u64) -> int {
    if starts.contains_key(id) {
        starts[id] + 1
    } else {
        1
    }
}

/// Whether the collection is one of those that the logging writes to storage.
pub open spec fn is_sink_log<P>(logging_config: LoggingModel<P>, id: u64) -> bool {
    exists|variant: u64| #[trigger]
        logging_config.sink_logs.contains_key(variant) && logging_config.sink_logs[variant].0 == id
}

/// Whether the collection is that of one of the logs.
pub open spec fn is_log_of(logs: Map<u64, u64>, id: u64) -> bool {
    exists|variant: u64| #[trigger] logs.contains_key(variant) && logs[variant] == id
}

/// Whether a command still concerns a new replica: all do but the peeks that are not pending.
pub open spec fn still_concerns<P>(
    command: CommandModel<P>,
    peeks: Map<u128, PendingPeek<P>>,
) -> bool {
    match command {
        CommandModel::Peek(peek) => peeks.contains_key(peek.uuid),
        _ => true,
    }
}

/// Whether `full` is the history, with nothing added but what replicas may forget.
pub open spec fn adds_compactions<P>(
    history: Seq<CommandModel<P>>,
    full: Seq<CommandModel<P>>,
) -> bool {
    &&& history.len() <= full.len()
    &&& forall|i: int| 0 <= i < history.len() ==> #[trigger] full[i] == history[i]
    &&& forall|i: int| history.len() <= i < full.len() ==> (#[trigger] full[i]) is AllowCompaction
}

/// Whether the commands are those of the history, in order, with nothing added but what replicas
/// may forget, and nothing left out but peeks that are not pending.
pub open spec fn catches_up<P>(
    history: Seq<CommandModel<P>>,
    peeks: Map<u128, PendingPeek<P>>,
    commands: Seq<CommandModel<P>>,
) -> bool {
    exists|full: Seq<CommandModel<P>>| #[trigger]
        adds_compactions(history, full) && commands == full.filter(
            |command: CommandModel<P>| still_concerns(command, peeks),
        )
}

/// A replica that is added is there, with its location and its logging, in which the logs of the
/// instance are kept as indexes. It was started once more than before, and the surroundings are
/// asked, at the end, to start it with just that and with the commands that it has missed.
/// Nothing else of the instance changes but its collections.
pub proof fn law_replica_is_added<P, L: FrontierLogic>(
    state: InstanceModel<P, L>,
    storage_ids: Set<u64>,
    id: u64,
    location: Arc<ComputeReplicaLocation<P>>,
    logging_config: LoggingModel<P>,
)
    requires
        next_start(state.replica_epochs, id) <= u64::MAX,
    ensures
        ({
            let after = state.add_replica(storage_ids, id, location, logging_config);
            let added = after.replicas[id];
            let start = next_start(state.replica_epochs, id);
            &&& after.replicas.contains_key(id)
            &&& after.replicas == state.replicas.insert(id, added)
            &&& added.location == location
            &&& added.logging_config.settings == logging_config.settings
            &&& added.logging_config.sink_logs == logging_config.sink_logs
            &&& added.logging_config.index_logs == state.arranged_logs
            &&& added.starts == start
            &&& after.replica_epochs == state.replica_epochs.insert(id, added.starts)
            &&& after.actions.len() > state.actions.len()
            &&& after.actions[after.actions.len() - 1] matches ActionModel::SpawnReplica {
                id: spawned,
                instance_id,
                location: place,
                logging_config: logging,
                epoch,
                commands,
            } && {
                &&& spawned == id
                &&& instance_id == state.instance_id
                &&& place == location
                &&& logging == added.logging_config
                &&& epoch.envd == state.envd_epoch
                &&& epoch.replica == start
                &&& commands == after.history
            }
            &&& catches_up(state.history, state.peeks, after.history)
            &&& forall|i: int| 0 <= i < state.actions.len() ==> #[trigger] after.actions[i]
                == state.actions[i]
            &&& forall|i: int|
                state.actions.len() <= i < after.actions.len() - 1 ==> match
                #[trigger] after.actions[i] {
                    ActionModel::Send { command, .. } => command is AllowCompaction,
                    ActionModel::UpdateStorageReadCapabilities(_) => true,
                    ActionModel::UpdateStorageWriteFrontiers(_) => true,
                    _ => false,
                }
            &&& same_identity(state, after)
            &&& after.peeks == state.peeks
            &&& after.subscribes == state.subscribes
            &&& after.failed_replicas == state.failed_replicas
            &&& after.ready_responses == state.ready_responses
        }),
{
    let logged = state.with_logs(logging_config);
    let uppers = logged.initial_uppers(logged.complete_logging(logging_config));
    let joined = logged.update_write_frontiers(storage_ids, id, uppers);
    let after = state.add_replica(storage_ids, id, location, logging_config);
    let concerns = |command: CommandModel<P>| still_concerns(command, state.peeks);
    let wanted = |command: CommandModel<P>| crate::model::is_wanted(command, joined.peeks);
    assert(adds_compactions(state.history, joined.history));
    assert(concerns =~= wanted);
    assert(after.history == joined.history.filter(concerns));
}

/// Whether a new replica maintains the collection, where it does not write it to storage: all do
/// but logs that the instance does not keep.
pub open spec fn maintains<P, L>(state: InstanceModel<P, L>, id: u64) -> bool {
    !state.collections[id].log_collection || is_log_of(state.arranged_logs, id)
}

/// When a replica is added, the logs that it writes to storage are tracked as new collections,
/// readable from the start, and stand there on this replica. Each other collection that the
/// replica maintains stands at its read frontier on this replica, and one that it does not
/// maintain stays as it was; a collection that the replica may still write stays. What other
/// replicas have reported is not touched.
pub proof fn law_added_replica_reports<P, L: FrontierLogic>(
    state: InstanceModel<P, L>,
    storage_ids: Set<u64>,
    id: u64,
    location: Arc<ComputeReplicaLocation<P>>,
    logging_config: LoggingModel<P>,
    collection: u64,
)
    requires
        state.collections.dom().finite(),
        logging_config.sink_logs.dom().finite(),
    ensures
        ({
            let after = state.add_replica(storage_ids, id, location, logging_config);
            let before = state.collections[collection];
            let now = after.collections[collection];
            if is_sink_log(logging_config, collection) {
                &&& after.collections.contains_key(collection)
                &&& now.log_collection
                &&& now.implied_capability == seq![0u64]
                &&& now.read_policy == crate::policy::PolicyModel::<L>::ValidFrom(seq![0u64])
                &&& now.storage_dependencies.len() == 0
                &&& now.compute_dependencies.len() == 0
                &&& now.write_frontier == seq![0u64]
                &&& now.replica_write_frontiers == Map::<u64, Frontier>::empty().insert(
                    id,
                    seq![0u64],
                )
            } else if !state.collections.contains_key(collection) {
                !after.collections.contains_key(collection)
            } else if maintains(state, collection) {
                &&& before.read_frontier().len() > 0 ==> after.collections.contains_key(collection)
                &&& after.collections.contains_key(collection) ==> report_taken_in(
                    before,
                    now,
                    id,
                    before.read_frontier(),
                )
            } else {
                &&& after.collections.contains_key(collection) ==> report_of_others(before, now)
                &&& !after.collections.contains_key(collection) ==> all_done(before)
            }
        }),
{
    let logged = state.with_logs(logging_config);
    let complete = logged.complete_logging(logging_config);
    let uppers = logged.initial_uppers(complete);
    let joined = logged.update_write_frontiers(storage_ids, id, uppers);
    let start = logged.absorbed(id, Seq::empty());
    let update = logged.absorbed(id, uppers);
    assert(update == start.absorb_all(id, uppers));
    lemma_logged_finite(state, logging_config);
    lemma_initial_uppers(logged, complete);
    law_uppers_add_nothing(logged, storage_ids, id, uppers);
    super::growth::lemma_lower_of_antichain(seq![0u64]);
    let absorbed = InstanceModel { collections: update.collections, spent: update.spent, ..logged };
    law_capabilities_change_alone(absorbed, storage_ids, update.capabilities);
    let settled = absorbed.propagation(update.capabilities).settled(storage_ids).collections;
    let applied = logged.with_uppers(storage_ids, id, uppers);
    if logged.collections.contains_key(collection) {
        let picked = |upper: (u64, Frontier)| true;
        lemma_filter_all(uppers, picked);
        lemma_absorbs(start, id, uppers, picked, collection);
        lemma_maintained_are_named(logged, complete, collection);
        assert(absorbed.collections.contains_key(collection));
        assert(same_but_capabilities(settled[collection], absorbed.collections[collection]));
        let kept = !logged.collections[collection].log_collection
            || complete.log_identifiers().contains(collection);
        let logged_one = logged.collections[collection];
        if kept {
            let i = choose|i: int|
                #![trigger names_once(uppers, collection, i)]
                names_once(uppers, collection, i) && uppers[i].1 == logged_one.read_frontier();
            assert(report_taken_in(
                logged_one,
                update.collections[collection],
                id,
                uppers[i].1,
            ));
            if !joined.collections.contains_key(collection) {
                if applied.collections.contains_key(collection) {
                    assert(applied.collections[collection] == settled[collection]);
                }
                assert(settled[collection].is_droppable());
                assert(settled[collection].replica_write_frontiers.contains_key(id));
            }
            if is_sink_log(logging_config, collection) {
                crate::frontier::lemma_le_reflexive(seq![0u64]);
                assert(crate::frontier::same_elements(seq![0u64], seq![0u64])) by {
                    assert(seq![0u64].contains(seq![0u64][0]));
                }
            }
        } else if !joined.collections.contains_key(collection) {
            if applied.collections.contains_key(collection) {
                assert(applied.collections[collection] == settled[collection]);
            }
            assert(settled[collection].is_droppable());
            assert(settled[collection].replica_write_frontiers
                == logged_one.replica_write_frontiers);
            assert forall|replica: u64| #[trigger]
                logged_one.replica_write_frontiers.contains_key(
                    replica,
                ) implies logged_one.replica_write_frontiers[replica].len() == 0 by {
                assert(settled[collection].replica_write_frontiers.contains_key(replica));
            }
            assert(all_done(logged_one));
        }
    }
}

/// Whether storage has to learn that a new replica stands at `frontier` with a collection: the
/// replica maintains it and starts there, beyond the write frontier, and storage knows it.
pub open spec fn advances_storage<P, L>(
    state: InstanceModel<P, L>,
    storage_ids: Set<u64>,
    logging_config: LoggingModel<P>,
    upper: (u64, Frontier),
) -> bool {
    &&& state.collections.contains_key(upper.0)
    &&& !is_sink_log(logging_config, upper.0)
    &&& maintains(state, upper.0)
    &&& storage_ids.contains(upper.0)
    &&& upper.1 == state.collections[upper.0].read_frontier()
    &&& frontier_lt(state.collections[upper.0].write_frontier, upper.1)
}

/// When a replica is added, storage is told once, just before the replica is started: of exactly
/// the collections that storage knows and that advance by where the replica starts.
pub proof fn law_added_replica_tells_storage<P, L: FrontierLogic>(
    state: InstanceModel<P, L>,
    storage_ids: Set<u64>,
    id: u64,
    location: Arc<ComputeReplicaLocation<P>>,
    logging_config: LoggingModel<P>,
)
    requires
        state.collections.dom().finite(),
        logging_config.sink_logs.dom().finite(),
    ensures
        ({
            let after = state.add_replica(storage_ids, id, location, logging_config);
            let last = after.actions.len() - 2;
            &&& last >= state.actions.len()
            &&& after.actions[last] matches ActionModel::UpdateStorageWriteFrontiers(told)
                && forall|upper: (u64, Frontier)| #[trigger]
                told.contains(upper) <==> advances_storage(
                    state,
                    storage_ids,
                    logging_config,
                    upper,
                )
            &&& forall|i: int|
                state.actions.len() <= i < last ==> !((
                #[trigger] after.actions[i]) is UpdateStorageWriteFrontiers)
        }),
{
    let logged = state.with_logs(logging_config);
    let complete = logged.complete_logging(logging_config);
    let uppers = logged.initial_uppers(complete);
    let joined = logged.update_write_frontiers(storage_ids, id, uppers);
    let after = state.add_replica(storage_ids, id, location, logging_config);
    let picked = |upper: (u64, Frontier)| logged.collections.contains_key(upper.0);
    lemma_logged_finite(state, logging_config);
    lemma_initial_uppers(logged, complete);
    lemma_filter_all(uppers, picked);
    assert(logged.tracked_uppers(uppers) == uppers);
    super::growth::lemma_lower_of_antichain(seq![0u64]);
    law_storage_learns_of_write_frontiers(logged, storage_ids, id, uppers);
    let last = after.actions.len() - 2;
    assert(after.actions[last] == joined.actions[last]);
    let told = match joined.actions[last] {
        ActionModel::UpdateStorageWriteFrontiers(told) => told,
        _ => Seq::empty(),
    };
    crate::frontier::lemma_le_reflexive(seq![0u64]);
    assert(crate::frontier::same_elements(seq![0u64], seq![0u64])) by {
        assert(seq![0u64].contains(seq![0u64][0]));
    }
    assert forall|upper: (u64, Frontier)| #[trigger]
        told.contains(upper) <==> advances_storage(
            state,
            storage_ids,
            logging_config,
            upper,
        ) by {
        let c = upper.0;
        if told.contains(upper) {
            let i = choose|i: int| 0 <= i < told.len() && told[i] == upper;
            assert(uppers.contains(told[i]));
            let k = choose|k: int| 0 <= k < uppers.len() && uppers[k] == upper;
            lemma_maintained_are_named(logged, complete, c);
            assert(names(uppers, c)) by {
                assert(uppers[k].0 == c);
            }
            let j = choose|j: int|
                #![trigger names_once(uppers, c, j)]
                names_once(uppers, c, j) && uppers[j].1 == logged.collections[c].read_frontier();
            assert(uppers[k].0 == c);
            assert(k == j);
        }
        if advances_storage(state, storage_ids, logging_config, upper) {
            assert(logged.collections.contains_key(c));
            assert(logged.collections[c] == state.collections[c]);
            lemma_maintained_are_named(logged, complete, c);
            let j = choose|j: int|
                #![trigger names_once(uppers, c, j)]
                names_once(uppers, c, j) && uppers[j].1 == logged.collections[c].read_frontier();
            assert(uppers[j] == upper);
            assert(concerns_storage(logged.collections, storage_ids, uppers[j]));
        }
    }
    assert forall|i: int| state.actions.len() <= i < last implies !((
    #[trigger] after.actions[i]) is UpdateStorageWriteFrontiers) by {
        assert(after.actions[i] == joined.actions[i]);
    }
}

/// A new replica starts with one report for each collection that it maintains, and with none for
/// others.
proof fn lemma_maintained_are_named<P, L: FrontierLogic>(
    state: InstanceModel<P, L>,
    logging_config: LoggingModel<P>,
    id: u64,
)
    requires
        state.collections.dom().finite(),
        state.collections.contains_key(id),
    ensures
        ({
            let uppers = state.initial_uppers(logging_config);
            if !state.collections[id].log_collection || logging_config.log_identifiers().contains(
                id,
            ) {
                exists|i: int|
                    #![trigger names_once(uppers, id, i)]
                    names_once(uppers, id, i) && uppers[i].1
                        == state.collections[id].read_frontier()
            } else {
                !names(uppers, id)
            }
        }),
{
    let uppers = state.initial_uppers(logging_config);
    let all = sorted_ids(state.collections.dom());
    let pick = |id: u64|
        !state.collections[id].log_collection || logging_config.log_identifiers().contains(id);
    let show = |id: u64| (id, state.collections[id].read_frontier());
    let kept = all.filter(pick);
    assert(uppers == kept.map_values(show));
    lemma_sorted_ids(state.collections.dom());
    lemma_picked(all, pick);
    lemma_initial_uppers(state, logging_config);
    if pick(id) {
        assert(all.contains(id));
        let j = choose|j: int| 0 <= j < all.len() && all[j] == id;
        lemma_pick_is_picked(all, pick, j);
        let i = choose|i: int| 0 <= i < kept.len() && kept[i] == id;
        assert(uppers[i] == show(kept[i]));
        assert forall|k: int| 0 <= k < uppers.len() && k != i implies (#[trigger] uppers[k]).0
            != id by {
            if k < i {
                assert(uppers[k].0 != uppers[i].0);
            } else {
                assert(uppers[i].0 != uppers[k].0);
            }
        }
        assert(names_once(uppers, id, i));
    } else if names(uppers, id) {
        let i = choose|i: int| 0 <= i < uppers.len() && (#[trigger] uppers[i]).0 == id;
        assert(uppers[i] == show(kept[i]));
        assert(pick(kept[i]));
    }
}

/// Whether nothing of a collection changed but that what `replica` has reported is forgotten.
pub open spec fn report_forgotten<L>(
    before: CollectionModel<L>,
    after: CollectionModel<L>,
    replica: u64,
) -> bool {
    &&& after.replica_write_frontiers == before.replica_write_frontiers.remove(replica)
    &&& after.write_frontier == before.write_frontier
    &&& after.implied_capability == before.implied_capability
    &&& after.read_policy == before.read_policy
    &&& after.storage_dependencies == before.storage_dependencies
    &&& after.compute_dependencies == before.compute_dependencies
    &&& after.log_collection == before.log_collection
}

/// When all that is tracked of a replica is removed, the replica is gone, and so is that it has
/// failed and what it has reported, the surroundings are asked, at the end, to close the
/// connection, and no command is sent. A collection goes only when all other replicas are done
/// with it and nobody reads it, and then it does if the replica had reported on it. Nothing else
/// changes.
pub proof fn law_replica_state_is_removed<P, L: FrontierLogic>(
    state: InstanceModel<P, L>,
    id: u64,
)
    ensures
        ({
            let after = state.remove_replica_state(id);
            &&& after.replicas == state.replicas.remove(id)
            &&& after.failed_replicas == state.failed_replicas.remove(id)
            &&& after.replica_epochs == state.replica_epochs
            &&& after.history == state.history
            &&& after.peeks == state.peeks
            &&& after.subscribes == state.subscribes
            &&& after.ready_responses == state.ready_responses
            &&& same_identity(state, after)
            &&& only_adds(state, after)
            &&& after.actions.len() > state.actions.len()
            &&& after.actions[after.actions.len() - 1] == (ActionModel::<P>::Disconnect { id })
            &&& forall|i: int|
                state.actions.len() <= i < after.actions.len() - 1 ==> (
                #[trigger] after.actions[i]) is UpdateStorageReadCapabilities
            &&& forall|other: u64| #[trigger]
                after.collections.contains_key(other) ==> {
                    let before = state.collections[other];
                    let now = after.collections[other];
                    &&& state.collections.contains_key(other)
                    &&& now.read_capabilities == before.read_capabilities
                    &&& report_forgotten(before, now, id)
                    &&& before.replica_write_frontiers.contains_key(id) ==> !all_done(now)
                        || now.read_frontier().len() > 0
                }
            &&& forall|other: u64| #[trigger]
                state.collections.contains_key(other) && !after.collections.contains_key(other)
                    ==> all_done_but(state.collections[other], id)
                    && state.collections[other].read_frontier().len() == 0
        }),
{
    let after = state.remove_replica_state(id);
    let forgotten = state.collections.map_values(
        |collection: CollectionModel<L>| collection.without_replica(id),
    );
    assert forall|other: u64| #[trigger] after.collections.contains_key(other) implies {
        let before = state.collections[other];
        let now = after.collections[other];
        &&& state.collections.contains_key(other)
        &&& now.read_capabilities == before.read_capabilities
        &&& report_forgotten(before, now, id)
        &&& before.replica_write_frontiers.contains_key(id) ==> !all_done(now)
            || now.read_frontier().len() > 0
    } by {
        assert(forgotten.contains_key(other));
        assert(after.collections[other] == forgotten[other]);
        let now = after.collections[other];
        if state.collections[other].replica_write_frontiers.contains_key(id) && all_done(now)
            && now.read_frontier().len() == 0 {
            assert(forgotten[other].is_droppable());
        }
    }
    assert forall|other: u64| #[trigger]
        state.collections.contains_key(other) && !after.collections.contains_key(
            other,
        ) implies all_done_but(state.collections[other], id)
        && state.collections[other].read_frontier().len() == 0 by {
        assert(forgotten[other].is_droppable());
        assert forall|replica: u64| #[trigger]
            state.collections[other].replica_write_frontiers.contains_key(replica) && replica
                != id implies state.collections[other].replica_write_frontiers[replica].len()
            == 0 by {
            assert(forgotten[other].replica_write_frontiers.contains_key(replica));
        }
    }
}

/// The peeks that only `replica` may answer.
pub open spec fn only_for<P>(peeks: Map<u128, PendingPeek<P>>, replica: u64) -> Set<u128> {
    Set::new(|uuid: u128| peeks.contains_key(uuid) && peeks[uuid].target_replica == Some(replica))
}

/// When a replica is removed for good, it is gone and so is what is tracked of it. The orchestrator
/// is asked to remove it exactly if it runs the replica, and the connection is closed. Each peek
/// that only this replica could answer is answered once, in ascending order, that the replica was
/// dropped, and no longer pending; all others are. No command is sent but of what replicas may
/// forget.
pub proof fn law_replica_is_removed<P, L: FrontierLogic>(
    state: InstanceModel<P, L>,
    storage_ids: Set<u64>,
    id: u64,
)
    requires
        state.replicas.contains_key(id),
        state.peeks.dom().finite(),
    ensures
        ({
            let after = state.remove_replica(storage_ids, id);
            let unanswered = only_for(state.peeks, id);
            let list = sorted_ids(unanswered);
            let ready = state.ready_responses.len() as int;
            let managed = *state.replicas[id].location is Managed;
            &&& after.replicas == state.replicas.remove(id)
            &&& after.failed_replicas == state.failed_replicas.remove(id)
            &&& after.replica_epochs == state.replica_epochs
            &&& after.subscribes == state.subscribes
            &&& same_identity(state, after)
            &&& only_adds(state, after)
            &&& forall|i: int|
                state.history.len() <= i < after.history.len() ==> (
                #[trigger] after.history[i]) is AllowCompaction
            &&& after.actions.len() > state.actions.len()
            &&& after.actions[after.actions.len() - 1] == (ActionModel::<P>::Disconnect { id })
            &&& managed ==> after.actions[state.actions.len() as int] == (
            ActionModel::<P>::DropReplica { instance_id: state.instance_id, id })
            &&& forall|i: int|
                state.actions.len() + (if managed {
                    1int
                } else {
                    0int
                }) <= i < after.actions.len() - 1 ==> match #[trigger] after.actions[i] {
                    ActionModel::Send { command, .. } => command is AllowCompaction,
                    ActionModel::UpdateStorageReadCapabilities(_) => true,
                    _ => false,
                }
            &&& forall|uuid: u128| #[trigger]
                after.peeks.contains_key(uuid) <==> state.peeks.contains_key(uuid)
                    && state.peeks[uuid].target_replica != Some(id)
            &&& forall|uuid: u128| #[trigger]
                after.peeks.contains_key(uuid) ==> after.peeks[uuid] == state.peeks[uuid]
            &&& list.len() == unanswered.len()
            &&& after.ready_responses.len() == ready + list.len()
            &&& forall|i: int| 0 <= i < ready ==> #[trigger] after.ready_responses[i]
                == state.ready_responses[i]
            &&& forall|i: int|
                0 <= i < list.len() ==> unanswered.contains(#[trigger] list[i])
                    && after.ready_responses[ready + i] == ControllerResponseModel::PeekResponse(
                    list[i],
                    PeekResponseModel::<P>::Error("target replica was dropped"@),
                    state.peeks[list[i]].otel_ctx,
                )
            &&& forall|other: u64| #[trigger]
                after.collections.contains_key(other) ==> {
                    &&& state.collections.contains_key(other)
                    &&& report_forgotten(state.collections[other], after.collections[other], id)
                    &&& state.collections[other].replica_write_frontiers.contains_key(id)
                        ==> !all_done(after.collections[other])
                        || after.collections[other].read_frontier().len() > 0
                }
            &&& forall|other: u64| #[trigger]
                state.collections.contains_key(other) && !after.collections.contains_key(other)
                    ==> all_done_but(state.collections[other], id)
        }),
{
    let unanswered = only_for(state.peeks, id);
    let list = sorted_ids(unanswered);
    assert(unanswered =~= state.peeks_targeting(id));
    vstd::set_lib::lemma_set_subset_finite(state.peeks.dom(), unanswered);
    lemma_sorted_ids(unanswered);
    let answered = state.give_replica_up(id);
    let start = InstanceModel {
        peeks: answered.peeks.remove_keys(unanswered),
        spent: answered.spent + unanswered.len(),
        ..answered
    };
    let updates = given_up(answered.peeks, list);
    let removed = answered.remove_peeks(storage_ids, unanswered);
    let after = state.remove_replica(storage_ids, id);
    law_capabilities_change_alone(start, storage_ids, updates);
    law_replica_state_is_removed(removed, id);
    assert(only_adds(state, answered));
    assert(only_adds(answered, removed));
    lemma_only_adds_twice(state, answered, removed);
    lemma_only_adds_twice(state, removed, after);
    let ready = state.ready_responses.len() as int;
    assert(after.ready_responses == answered.ready_responses);
    assert forall|i: int| 0 <= i < list.len() implies unanswered.contains(#[trigger] list[i])
        && after.ready_responses[ready + i] == ControllerResponseModel::PeekResponse(
        list[i],
        PeekResponseModel::<P>::Error("target replica was dropped"@),
        state.peeks[list[i]].otel_ctx,
    ) by {
        assert(list.contains(list[i]));
    }
    let settled = start.propagation(updates).settled(storage_ids).collections;
    assert forall|other: u64| #[trigger] after.collections.contains_key(other) implies {
        &&& state.collections.contains_key(other)
        &&& report_forgotten(state.collections[other], after.collections[other], id)
        &&& state.collections[other].replica_write_frontiers.contains_key(id) ==> !all_done(
            after.collections[other],
        ) || after.collections[other].read_frontier().len() > 0
    } by {
        assert(removed.collections.contains_key(other));
        assert(start.collections.contains_key(other));
        assert(same_but_capabilities(settled[other], start.collections[other]));
    }
    assert forall|other: u64| #[trigger]
        state.collections.contains_key(other) && !after.collections.contains_key(
            other,
        ) implies all_done_but(state.collections[other], id) by {
        assert(start.collections.contains_key(other));
        assert(same_but_capabilities(settled[other], start.collections[other]));
        if removed.collections.contains_key(other) {
            assert(all_done_but(removed.collections[other], id));
        } else {
            assert(settled[other].is_droppable());
            assert forall|replica: u64| #[trigger]
                state.collections[other].replica_write_frontiers.contains_key(replica) && replica
                    != id implies state.collections[other].replica_write_frontiers[replica].len()
                == 0 by {
                assert(settled[other].replica_write_frontiers.contains_key(replica));
            }
        }
    }
    assert forall|i: int|
        state.actions.len() + (if *state.replicas[id].location is Managed {
            1int
        } else {
            0int
        }) <= i < after.actions.len() - 1 implies match #[trigger] after.actions[i] {
        ActionModel::Send { command, .. } => command is AllowCompaction,
        ActionModel::UpdateStorageReadCapabilities(_) => true,
        _ => false,
    } by {
        if i < removed.actions.len() {
            assert(after.actions[i] == removed.actions[i]);
        }
    }
}

/// A replica that is started again keeps its location and its logging, has not failed any more,
/// and was started once more than before: its connection is closed, then it is started with the
/// commands that it has missed. All other replicas, the peeks and the subscriptions stay.
pub proof fn law_replica_is_restarted<P, L: FrontierLogic>(
    state: InstanceModel<P, L>,
    storage_ids: Set<u64>,
    id: u64,
)
    requires
        state.replicas.contains_key(id),
        next_start(state.replica_epochs, id) <= u64::MAX,
    ensures
        ({
            let after = state.rehydrate_replica(storage_ids, id);
            let before = state.replicas[id];
            let now = after.replicas[id];
            &&& after.replicas.contains_key(id)
            &&& after.replicas == state.replicas.insert(id, now)
            &&& now.location == before.location
            &&& now.logging_config.settings == before.logging_config.settings
            &&& now.logging_config.sink_logs == before.logging_config.sink_logs
            &&& now.logging_config.index_logs == state.arranged_logs
            &&& now.starts == next_start(state.replica_epochs, id)
            &&& after.replica_epochs == state.replica_epochs.insert(id, now.starts)
            &&& after.failed_replicas == state.failed_replicas.remove(id)
            &&& forall|i: int| 0 <= i < state.actions.len() ==> #[trigger] after.actions[i]
                == state.actions[i]
            &&& exists|i: int|
                state.actions.len() <= i < after.actions.len() - 1 && #[trigger] after.actions[i]
                    == (ActionModel::<P>::Disconnect { id })
            &&& after.actions[after.actions.len() - 1] matches ActionModel::SpawnReplica {
                id: spawned,
                instance_id,
                location,
                logging_config,
                epoch,
                commands,
            } && {
                &&& spawned == id
                &&& instance_id == state.instance_id
                &&& location == before.location
                &&& logging_config == now.logging_config
                &&& epoch.envd == state.envd_epoch
                &&& epoch.replica == now.starts
                &&& commands == after.history
            }
            &&& catches_up(state.history, state.peeks, after.history)
            &&& same_identity(state, after)
            &&& after.peeks == state.peeks
            &&& after.subscribes == state.subscribes
            &&& after.ready_responses == state.ready_responses
        }),
{
    let removed = state.remove_replica_state(id);
    law_replica_state_is_removed(state, id);
    law_replica_is_added(
        removed,
        storage_ids,
        id,
        state.replicas[id].location,
        state.replicas[id].logging_config,
    );
    let after = state.rehydrate_replica(storage_ids, id);
    let i = removed.actions.len() - 1;
    assert(after.actions[i] == removed.actions[i]);
    assert forall|j: int| 0 <= j < state.actions.len() implies #[trigger] after.actions[j]
        == state.actions[j] by {
        assert(removed.actions[j] == state.actions[j]);
    }
    assert(after.replicas =~= state.replicas.insert(id, after.replicas[id]));
}

/// When a replica is started again, what it has reported of a collection that is no log is
/// replaced by where it starts: at the read frontier. What other replicas have reported stays,
/// and a collection that is readable stays.
pub proof fn law_restarted_replica_reports<P, L: FrontierLogic>(
    state: InstanceModel<P, L>,
    storage_ids: Set<u64>,
    id: u64,
    collection: u64,
)
    requires
        state.replicas.contains_key(id),
        state.collections.dom().finite(),
        state.replicas[id].logging_config.sink_logs.dom().finite(),
        state.collections.contains_key(collection),
        !state.collections[collection].log_collection,
        !is_sink_log(state.replicas[id].logging_config, collection),
    ensures
        ({
            let after = state.rehydrate_replica(storage_ids, id);
            let before = state.collections[collection];
            let now = after.collections[collection];
            &&& before.read_frontier().len() > 0 ==> after.collections.contains_key(collection)
            &&& after.collections.contains_key(collection) ==> report_taken_in(
                before,
                now,
                id,
                before.read_frontier(),
            )
        }),
{
    let removed = state.remove_replica_state(id);
    let replica = state.replicas[id];
    let after = state.rehydrate_replica(storage_ids, id);
    law_replica_state_is_removed(state, id);
    assert(removed.collections.dom().subset_of(state.collections.dom())) by {
        assert forall|other: u64| removed.collections.dom().contains(
            other,
        ) implies state.collections.dom().contains(other) by {
            assert(removed.collections.contains_key(other));
        }
    }
    vstd::set_lib::lemma_set_subset_finite(state.collections.dom(), removed.collections.dom());
    law_added_replica_reports(
        removed,
        storage_ids,
        id,
        replica.location,
        replica.logging_config,
        collection,
    );
    if after.collections.contains_key(collection) {
        assert(removed.collections.contains_key(collection));
        let before = state.collections[collection];
        assert(before.replica_write_frontiers.remove(id).insert(id, before.read_frontier())
            =~= before.replica_write_frontiers.insert(id, before.read_frontier()));
    }
}

/// Whether one of the actions that were added starts the replica as it now is.
pub open spec fn asks_to_start<P>(
    before: Seq<ActionModel<P>>,
    after: Seq<ActionModel<P>>,
    id: u64,
    replica: ReplicaModel<P>,
) -> bool {
    exists|i: int|
        before.len() <= i < after.len() && starts_replica(#[trigger] after[i], id, replica)
}

/// Whether the action starts the replica as it now is.
pub open spec fn starts_replica<P>(
    action: ActionModel<P>,
    id: u64,
    replica: ReplicaModel<P>,
) -> bool {
    match action {
        ActionModel::SpawnReplica { id: spawned, location, logging_config, epoch, .. } => {
            &&& spawned == id
            &&& location == replica.location
            &&& logging_config == replica.logging_config
            &&& epoch.replica == replica.starts
        },
        _ => false,
    }
}

/// When the failed replicas are started again, each of them was started once more, keeps its
/// location and has not failed any more; those that have not failed stay as they are.
pub proof fn law_failed_replicas_restart<P, L: FrontierLogic>(
    state: InstanceModel<P, L>,
    storage_ids: Set<u64>,
    id: u64,
)
    requires
        state.failed_replicas.finite(),
        state.failed_replicas.subset_of(state.replicas.dom()),
        forall|failed: u64| #[trigger]
            state.failed_replicas.contains(failed) ==> next_start(state.replica_epochs, failed)
                <= u64::MAX,
        state.replicas.contains_key(id),
    ensures
        ({
            let after = state.rehydrate_replicas(storage_ids, sorted_ids(state.failed_replicas));
            &&& after.replicas.dom() == state.replicas.dom()
            &&& after.replicas[id].location == state.replicas[id].location
            &&& after.failed_replicas.is_empty()
            &&& state.actions.len() <= after.actions.len()
            &&& forall|i: int| 0 <= i < state.actions.len() ==> #[trigger] after.actions[i]
                == state.actions[i]
            &&& state.failed_replicas.contains(id) ==> asks_to_start(
                state.actions,
                after.actions,
                id,
                after.replicas[id],
            )
            &&& after.peeks == state.peeks
            &&& after.subscribes == state.subscribes
            &&& after.ready_responses == state.ready_responses
            &&& same_identity(state, after)
            &&& if state.failed_replicas.contains(id) {
                after.replicas[id].starts == next_start(state.replica_epochs, id)
                    && after.replica_epochs[id] == next_start(state.replica_epochs, id)
            } else {
                &&& after.replicas[id] == state.replicas[id]
                &&& after.replica_epochs.contains_key(id) <==> state.replica_epochs.contains_key(id)
                &&& state.replica_epochs.contains_key(id) ==> after.replica_epochs[id]
                    == state.replica_epochs[id]
            }
        }),
{
    let ids = sorted_ids(state.failed_replicas);
    lemma_sorted_ids(state.failed_replicas);
    assert forall|i: int| 0 <= i < ids.len() implies state.replicas.contains_key(
        #[trigger] ids[i],
    ) && next_start(state.replica_epochs, ids[i]) <= u64::MAX by {
        assert(ids.contains(ids[i]));
        assert(state.failed_replicas.contains(ids[i]));
        assert(state.replicas.dom().contains(ids[i]));
    }
    lemma_restarted(state, storage_ids, ids, id);
    let after = state.rehydrate_replicas(storage_ids, ids);
    assert(after.failed_replicas =~= Set::empty()) by {
        assert forall|failed: u64| !after.failed_replicas.contains(failed) by {
            if after.failed_replicas.contains(failed) {
                assert(ids.contains(failed));
            }
        }
    }
}

/// The same of the first replicas of an ascending list.
proof fn lemma_restarted<P, L: FrontierLogic>(
    state: InstanceModel<P, L>,
    storage_ids: Set<u64>,
    ids: Seq<u64>,
    id: u64,
)
    requires
        crate::ordered::increasing(ids),
        forall|i: int|
            0 <= i < ids.len() ==> state.replicas.contains_key(#[trigger] ids[i]) && next_start(
                state.replica_epochs,
                ids[i],
            ) <= u64::MAX,
        state.replicas.contains_key(id),
    ensures
        ({
            let after = state.rehydrate_replicas(storage_ids, ids);
            &&& after.replicas.dom() == state.replicas.dom()
            &&& after.replicas[id].location == state.replicas[id].location
            &&& state.actions.len() <= after.actions.len()
            &&& forall|i: int| 0 <= i < state.actions.len() ==> #[trigger] after.actions[i]
                == state.actions[i]
            &&& ids.contains(id) ==> asks_to_start(
                state.actions,
                after.actions,
                id,
                after.replicas[id],
            )
            &&& forall|failed: u64| #[trigger]
                after.failed_replicas.contains(failed) <==> state.failed_replicas.contains(failed)
                    && !ids.contains(failed)
            &&& after.peeks == state.peeks
            &&& after.subscribes == state.subscribes
            &&& after.ready_responses == state.ready_responses
            &&& same_identity(state, after)
            &&& if ids.contains(id) {
                after.replicas[id].starts == next_start(state.replica_epochs, id)
                    && after.replica_epochs.contains_key(id) && after.replica_epochs[id]
                    == next_start(state.replica_epochs, id)
            } else {
                &&& after.replicas[id] == state.replicas[id]
                &&& after.replica_epochs.contains_key(id) <==> state.replica_epochs.contains_key(id)
                &&& state.replica_epochs.contains_key(id) ==> after.replica_epochs[id]
                    == state.replica_epochs[id]
            }
        }),
    decreases ids.len(),
{
    if ids.len() > 0 {
        let front = ids.drop_last();
        let last = ids[ids.len() - 1];
        assert(crate::ordered::increasing(front));
        assert forall|i: int| 0 <= i < front.len() implies state.replicas.contains_key(
            #[trigger] front[i],
        ) && next_start(state.replica_epochs, front[i]) <= u64::MAX by {
            assert(front[i] == ids[i]);
        }
        assert(!front.contains(last)) by {
            if front.contains(last) {
                let i = choose|i: int| 0 <= i < front.len() && front[i] == last;
                assert(ids[i] < ids[ids.len() - 1]);
            }
        }
        lemma_restarted(state, storage_ids, front, id);
        assert(state.replicas.contains_key(last));
        lemma_restarted(state, storage_ids, front, last);
        let before = state.rehydrate_replicas(storage_ids, front);
        assert(before.replicas.dom().contains(last));
        law_replica_is_restarted(before, storage_ids, last);
        let after = state.rehydrate_replicas(storage_ids, ids);
        assert(forall|i: int|
            0 <= i < before.actions.len() ==> #[trigger] after.actions[i] == before.actions[i]);
        if id == last {
            assert(starts_replica(after.actions[after.actions.len() - 1], id, after.replicas[id]));
            assert(asks_to_start(state.actions, after.actions, id, after.replicas[id]));
        } else if front.contains(id) {
            let i = choose|i: int|
                state.actions.len() <= i < before.actions.len() && starts_replica(
                    #[trigger] before.actions[i],
                    id,
                    before.replicas[id],
                );
            assert(starts_replica(after.actions[i], id, after.replicas[id]));
            assert(asks_to_start(state.actions, after.actions, id, after.replicas[id]));
        }
        assert(after.replicas.dom() =~= state.replicas.dom());
        assert forall|other: u64| ids.contains(other) <==> front.contains(other) || other
            == last by {
            crate::ordered::lemma_push_to_set(front, last);
            assert(front.push(last) =~= ids);
            assert(ids.to_set().contains(other) <==> front.to_set().insert(last).contains(other));
        }
    }
}

} // verus!
