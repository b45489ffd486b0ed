//! Requests ask storage for what the collections then need.
use std::sync::Arc;
use vstd::prelude::*;

use super::accounts::law_capabilities_change_alone;
use super::balance::{balanced, law_balanced_is_readable, unclaimed};
use super::growth::{
    exports_are_new, held_with_exports, law_removing_replica_state_balances, law_uppers_add_nothing,
    lemma_exports_balance, lemma_exports_differ, lemma_exports_keep, lemma_exports_make_up,
    lemma_logged_finite, lemma_logs_balance, lemma_logs_finite, lemma_lower_of_antichain,
    lemma_occurs_once, lemma_replicas_balance, lemma_still_readable, logs_unclaimed,
};
use super::requests::{
    each_is_new, law_rehydrating_balances, lemma_installing_all_balances, lemma_logs_stay_unclaimed,
};
use super::storage_claims::{
    asked_at, asks_for_needs, finitely_reported, law_forgetting_uppers_asks, law_policies_ask,
    law_removing_peeks_asks, law_uppers_ask, lemma_asked_more, lemma_asks_twice,
    lemma_sending_asks_nothing, lemma_settling_asks, needed_at, needed_by, reported_at,
};
use crate::action::ActionModel;
use crate::changes::occurrences;
use crate::collection::CollectionModel;
use crate::command::{CommandModel, ComputeReplicaLocation, DataflowModel, LoggingModel};
use crate::fresh::{has_fresh, is_fresh, lemma_fresh_on_replicas, lemma_fresh_uppers};
use crate::frontier::{is_antichain, Frontier};
use crate::model::{
    distinct, dropping, lemma_all_dropped, lemma_initial_uppers, same_for_all, with_each,
    InstanceModel,
};
use crate::ordered::{lemma_sorted_ids, sorted_ids};
use crate::policy::FrontierLogic;
use crate::response::ComputeResponseModel;
use crate::storage::StorageCollectionModel;
use crate::sums::{lemma_sum_of_equals, lemma_sum_part, lemma_sum_same, lemma_sum_union};

verus! {

/// Giving up peeks asks storage for what is then needed.
pub proof fn law_canceling_peeks_asks<P, L: FrontierLogic>(
    state: InstanceModel<P, L>,
    storage_ids: Set<u64>,
    uuids: Set<u128>,
)
    requires
        balanced(state),
        finitely_reported(state.collections),
        uuids.finite(),
    ensures
        asks_for_needs(state, state.cancel_peeks(storage_ids, uuids)),
        finitely_reported(state.cancel_peeks(storage_ids, uuids).collections),
{
    let answered = InstanceModel {
        ready_responses: state.ready_responses + crate::ordered::sorted_ids(uuids).map_values(
            |uuid: u128| crate::model::cancel_response(state.peeks, uuid),
        ),
        ..state
    };
    law_removing_peeks_asks(answered, storage_ids, uuids);
    let removed = answered.remove_peeks(storage_ids, uuids);
    lemma_sending_keeps_asking(answered, removed, CommandModel::CancelPeeks { uuids });
    assert forall|source: u64, time: u64| #[trigger]
        asked_at(state.cancel_peeks(storage_ids, uuids).actions, source, time) - asked_at(
            state.actions,
            source,
            time,
        ) == needed_at(
            state.cancel_peeks(storage_ids, uuids).collections,
            source,
            time,
        ) - needed_at(state.collections, source, time) by {
        assert(asked_at(state.cancel_peeks(storage_ids, uuids).actions, source, time) - asked_at(
            answered.actions,
            source,
            time,
        ) == needed_at(
            state.cancel_peeks(storage_ids, uuids).collections,
            source,
            time,
        ) - needed_at(answered.collections, source, time));
    }
}

/// A command that is sent on top asks storage for nothing more.
proof fn lemma_sending_keeps_asking<P, L: FrontierLogic>(
    before: InstanceModel<P, L>,
    after: InstanceModel<P, L>,
    command: CommandModel<P>,
)
    requires
        asks_for_needs(before, after),
    ensures
        asks_for_needs(before, after.send(command)),
{
    lemma_sending_asks_nothing(after, command);
    assert forall|source: u64, time: u64| #[trigger]
        asked_at(after.send(command).actions, source, time) - asked_at(
            before.actions,
            source,
            time,
        ) == needed_at(after.send(command).collections, source, time) - needed_at(
            before.collections,
            source,
            time,
        ) by {
        assert(asked_at(after.actions, source, time) - asked_at(before.actions, source, time)
            == needed_at(after.collections, source, time) - needed_at(
            before.collections,
            source,
            time,
        ));
    }
}

/// Dropping collections that exist asks storage for what is then needed.
pub proof fn law_dropping_collections_asks<P, L: FrontierLogic>(
    state: InstanceModel<P, L>,
    storage_ids: Set<u64>,
    ids: Seq<u64>,
)
    requires
        balanced(state),
        finitely_reported(state.collections),
        state.first_missing(ids) is None,
    ensures
        asks_for_needs(state, state.drop_collections(storage_ids, ids)),
        finitely_reported(state.drop_collections(storage_ids, ids).collections),
{
    let policies = dropping::<L>(ids);
    lemma_all_dropped(state, ids);
    law_policies_ask(state, storage_ids, policies);
}

/// A response of a replica, with at most one write frontier for each collection, asks storage for
/// what is then needed.
pub proof fn law_response_asks<P, L: FrontierLogic>(
    state: InstanceModel<P, L>,
    storage_ids: Set<u64>,
    response: ComputeResponseModel<P>,
    replica: u64,
)
    requires
        balanced(state),
        finitely_reported(state.collections),
        state.tracks_response(response),
        response matches ComputeResponseModel::FrontierUppers(uppers) ==> distinct(
            state.tracked_uppers(uppers),
        ),
    ensures
        asks_for_needs(state, state.handle_response(storage_ids, response, replica).0),
        finitely_reported(
            state.handle_response(storage_ids, response, replica).0.collections,
        ),
{
    match response {
        ComputeResponseModel::FrontierUppers(uppers) => {
            law_uppers_ask(state, storage_ids, replica, state.tracked_uppers(uppers));
        },
        ComputeResponseModel::PeekResponse(uuid, _, _) => {
            if state.awaits_peek(uuid, replica) {
                law_removing_peeks_asks(state, storage_ids, Set::empty().insert(uuid));
            }
        },
        ComputeResponseModel::SubscribeResponse(id, response) => {
            let (after, upper, _) = state.subscribe_response(id, response);
            law_uppers_ask(after, storage_ids, replica, seq![(id, upper)]);
            lemma_asks_twice(
                state,
                after,
                after.update_write_frontiers(storage_ids, replica, seq![(id, upper)]),
            );
        },
    }
}

/// Whether the collections with the given identifiers, where there are any, need nothing from
/// storage.
pub open spec fn need_nothing<L>(collections: Map<u64, CollectionModel<L>>, ids: Set<u64>) -> bool {
    forall|id: u64| #[trigger]
        ids.contains(id) && collections.contains_key(id)
            ==> collections[id].storage_dependencies.len() == 0
}

/// Further collections need what they need, each for itself.
proof fn lemma_needs_added<L>(
    collections: Map<u64, CollectionModel<L>>,
    ids: Set<u64>,
    added: CollectionModel<L>,
    source: u64,
    time: u64,
)
    requires
        finitely_reported(collections),
        ids.finite(),
        need_nothing(collections, ids),
        added.replica_write_frontiers == Map::<u64, Frontier>::empty(),
    ensures
        finitely_reported(with_each(collections, ids, added)),
        needed_at(with_each(collections, ids, added), source, time) == needed_at(
            collections,
            source,
            time,
        ) + ids.len() * (occurrences(added.storage_dependencies, source) * occurrences(
            added.read_frontier(),
            time,
        )),
{
    let more = with_each(collections, ids, added);
    let kept = collections.dom().difference(ids);
    let before = needed_by(collections, source, time);
    let after = needed_by(more, source, time);
    let each = occurrences(added.storage_dependencies, source) * occurrences(
        added.read_frontier(),
        time,
    );
    assert(more.dom() =~= kept.union(ids));
    assert forall|id: u64| #[trigger] more.contains_key(id) implies more[
        id
    ].replica_write_frontiers.dom().finite() by {
        assert(!ids.contains(id) ==> collections.contains_key(id));
    }
    assert forall|id: u64| #[trigger]
        collections.dom().contains(id) && !kept.contains(id) implies before(id) == 0 by {
        assert(ids.contains(id) && collections.contains_key(id));
        let n = occurrences(collections[id].read_frontier(), time) + reported_at(
            collections[id],
            time,
        );
        assert(0 * n == 0) by (nonlinear_arith);
    }
    assert(reported_at(added, time) == 0);
    lemma_sum_part(collections.dom(), kept, before);
    lemma_sum_union(kept, ids, after);
    lemma_sum_same(kept, before, after);
    lemma_sum_of_equals(ids, after, each);
}

/// Adding a replica whose logs nobody reads yet asks storage for what is then needed.
pub proof fn law_adding_replica_asks<P, L: FrontierLogic>(
    state: InstanceModel<P, L>,
    storage_ids: Set<u64>,
    id: u64,
    location: Arc<ComputeReplicaLocation<P>>,
    logging_config: LoggingModel<P>,
)
    requires
        balanced(state),
        finitely_reported(state.collections),
        logs_unclaimed(state, logging_config),
        need_nothing(state.collections, logging_config.sink_log_ids()),
    ensures
        asks_for_needs(state, state.add_replica(storage_ids, id, location, logging_config)),
        finitely_reported(
            state.add_replica(storage_ids, id, location, logging_config).collections,
        ),
{
    let ids = logging_config.sink_log_ids();
    let log = CollectionModel::<L>::created_log();
    let logged = state.with_logs(logging_config);
    let complete = logged.complete_logging(logging_config);
    let uppers = logged.initial_uppers(complete);
    lemma_logs_finite(logging_config);
    lemma_logs_balance(state, ids);
    lemma_initial_uppers(logged, complete);
    lemma_needs_added(state.collections, ids, log, 0, 0);
    assert(asks_for_needs(state, logged)) by {
        assert forall|source: u64, time: u64| #[trigger]
            asked_at(logged.actions, source, time) - asked_at(state.actions, source, time)
                == needed_at(logged.collections, source, time) - needed_at(
                state.collections,
                source,
                time,
            ) by {
            lemma_needs_added(state.collections, ids, log, source, time);
            let n = ids.len() as int;
            let x = occurrences(log.read_frontier(), time);
            assert(n * (0 * x) == 0) by (nonlinear_arith);
        }
    }
    law_uppers_ask(logged, storage_ids, id, uppers);
    let joined = logged.update_write_frontiers(storage_ids, id, uppers);
    lemma_asks_twice(state, logged, joined);
    let after = state.add_replica(storage_ids, id, location, logging_config);
    assert(asks_for_needs(joined, after)) by {
        assert forall|source: u64, time: u64| #[trigger]
            asked_at(after.actions, source, time) - asked_at(joined.actions, source, time)
                == needed_at(after.collections, source, time) - needed_at(
                joined.collections,
                source,
                time,
            ) by {
            lemma_asked_more(joined.actions, after.actions.last(), source, time);
            assert(after.actions =~= joined.actions.push(after.actions.last()));
        }
    }
    lemma_asks_twice(state, joined, after);
}

/// Removing all that is tracked of a replica asks storage for what is then needed.
pub proof fn law_removing_replica_state_asks<P, L: FrontierLogic>(
    state: InstanceModel<P, L>,
    id: u64,
)
    requires
        finitely_reported(state.collections),
    ensures
        asks_for_needs(state, state.remove_replica_state(id)),
        finitely_reported(state.remove_replica_state(id).collections),
{
    law_forgetting_uppers_asks(state, id);
    let forgotten = state.remove_write_frontiers(id);
    let after = state.remove_replica_state(id);
    assert(asks_for_needs(forgotten, after)) by {
        assert forall|source: u64, time: u64| #[trigger]
            asked_at(after.actions, source, time) - asked_at(forgotten.actions, source, time)
                == needed_at(after.collections, source, time) - needed_at(
                forgotten.collections,
                source,
                time,
            ) by {
            lemma_asked_more(forgotten.actions, ActionModel::Disconnect { id }, source, time);
        }
    }
    lemma_asks_twice(state, forgotten, after);
}

/// Removing a replica asks storage for what is then needed.
pub proof fn law_removing_replica_asks<P, L: FrontierLogic>(
    state: InstanceModel<P, L>,
    storage_ids: Set<u64>,
    id: u64,
)
    requires
        balanced(state),
        finitely_reported(state.collections),
    ensures
        asks_for_needs(state, state.remove_replica(storage_ids, id)),
        finitely_reported(state.remove_replica(storage_ids, id).collections),
{
    let unanswered = state.peeks_targeting(id);
    vstd::set_lib::lemma_set_subset_finite(state.peeks.dom(), unanswered);
    let answered = state.give_replica_up(id);
    assert(asks_for_needs(state, answered)) by {
        assert forall|source: u64, time: u64| #[trigger]
            asked_at(answered.actions, source, time) - asked_at(state.actions, source, time)
                == needed_at(answered.collections, source, time) - needed_at(
                state.collections,
                source,
                time,
            ) by {
            lemma_asked_more(
                state.actions,
                ActionModel::DropReplica { instance_id: state.instance_id, id },
                source,
                time,
            );
        }
    }
    law_removing_peeks_asks(answered, storage_ids, unanswered);
    let removed = answered.remove_peeks(storage_ids, unanswered);
    law_removing_replica_state_asks(removed, id);
    lemma_asks_twice(state, answered, removed);
    lemma_asks_twice(state, removed, removed.remove_replica_state(id));
}

/// The outputs of a dataflow ask storage for what they need.
proof fn lemma_exports_ask<P, L: FrontierLogic>(
    state: InstanceModel<P, L>,
    storage: Map<u64, StorageCollectionModel<P>>,
    dataflow: DataflowModel<P, ()>,
)
    requires
        balanced(state),
        finitely_reported(state.collections),
        dataflow.index_imports.dom().finite(),
        dataflow.source_imports.dom().finite(),
        state.import_error(storage, dataflow) is None,
        is_antichain(dataflow.as_of->0),
        exports_are_new(state, dataflow),
    ensures
        asks_for_needs(state, state.with_exports(storage.dom(), dataflow)),
        finitely_reported(state.with_exports(storage.dom(), dataflow).collections),
{
    let as_of = dataflow.as_of->0;
    let sources = sorted_ids(dataflow.source_imports.dom());
    let indexes = sorted_ids(dataflow.index_imports.dom());
    let created = CollectionModel::<L>::created(as_of, sources, indexes);
    let ids = dataflow.export_ids().to_set();
    let updates = same_for_all(dataflow.index_imports.dom(), dataflow.hold());
    let changes = same_for_all(dataflow.source_imports.dom(), dataflow.hold());
    let start = state.with_sources_held(dataflow);
    let held = start.update_read_capabilities(storage.dom(), updates);
    let exported = state.with_exports(storage.dom(), dataflow);
    law_balanced_is_readable(state);
    lemma_exports_make_up(state, storage, dataflow);
    lemma_exports_differ(dataflow, as_of);
    lemma_lower_of_antichain(as_of);
    lemma_sorted_ids(dataflow.source_imports.dom());
    lemma_settling_asks(start, storage.dom(), updates, held_with_exports(state, dataflow));
    law_capabilities_change_alone(start, storage.dom(), updates);
    assert(need_nothing(held.collections, ids)) by {
        assert forall|id: u64| #[trigger]
            ids.contains(id) && held.collections.contains_key(id) implies held.collections[
            id
        ].storage_dependencies.len() == 0 by {
            assert(dataflow.export_ids().contains(id));
            assert(state.collections.contains_key(id));
        }
    }
    lemma_needs_added(held.collections, ids, created, 0, 0);
    assert forall|source: u64, time: u64| #[trigger]
        asked_at(exported.actions, source, time) - asked_at(state.actions, source, time)
            == needed_at(exported.collections, source, time) - needed_at(
            state.collections,
            source,
            time,
        ) by {
        assert(asked_at(held.actions, source, time) - asked_at(start.actions, source, time)
            == needed_at(held.collections, source, time) - needed_at(
            start.collections,
            source,
            time,
        ));
        lemma_asked_more(
            state.actions,
            ActionModel::UpdateStorageReadCapabilities(changes),
            source,
            time,
        );
        lemma_needs_added(held.collections, ids, created, source, time);
        lemma_occurs_once(sources, source);
        assert(sources.contains(source) <==> dataflow.source_imports.contains_key(source));
        let n = ids.len() as int;
        let x = occurrences(as_of, time);
        assert(n * (1 * x) == n * x && n * (0 * x) == 0) by (nonlinear_arith);
    }
}

/// Starting with replicas asks storage for what is then needed.
proof fn lemma_replicas_ask<P, L: FrontierLogic>(
    state: InstanceModel<P, L>,
    storage_ids: Set<u64>,
    replicas: Seq<u64>,
    ids: Seq<u64>,
    as_of: Frontier,
)
    requires
        balanced(state),
        finitely_reported(state.collections),
        has_fresh(state, ids, as_of),
        distinct(ids.map_values(|id: u64| (id, as_of))),
        as_of.len() > 0 || ids.len() == 0 || replicas.len() <= 1,
    ensures
        asks_for_needs(
            state,
            state.update_on_replicas(
                storage_ids,
                replicas,
                ids.map_values(|id: u64| (id, as_of)),
            ),
        ),
        finitely_reported(
            state.update_on_replicas(
                storage_ids,
                replicas,
                ids.map_values(|id: u64| (id, as_of)),
            ).collections,
        ),
    decreases replicas.len(),
{
    if replicas.len() > 0 {
        let uppers = ids.map_values(|id: u64| (id, as_of));
        let before = state.update_on_replicas(storage_ids, replicas.drop_last(), uppers);
        lemma_replicas_ask(state, storage_ids, replicas.drop_last(), ids, as_of);
        lemma_replicas_balance(state, storage_ids, replicas.drop_last(), ids, as_of);
        lemma_fresh_on_replicas(state, storage_ids, replicas.drop_last(), ids, as_of);
        lemma_fresh_uppers(before, storage_ids, replicas.last(), ids, as_of);
        law_uppers_ask(before, storage_ids, replicas.last(), uppers);
        lemma_asks_twice(
            state,
            before,
            before.update_write_frontiers(storage_ids, replicas.last(), uppers),
        );
    }
}

/// Tracking a dataflow with new outputs asks storage for what is then needed.
pub proof fn law_installing_asks<P, L: FrontierLogic>(
    state: InstanceModel<P, L>,
    storage: Map<u64, StorageCollectionModel<P>>,
    dataflow: DataflowModel<P, ()>,
)
    requires
        balanced(state),
        finitely_reported(state.collections),
        state.replicas.dom().finite(),
        dataflow.index_imports.dom().finite(),
        dataflow.source_imports.dom().finite(),
        state.import_error(storage, dataflow) is None,
        state.takes_dataflow(storage.dom(), dataflow),
        is_antichain(dataflow.as_of->0),
        exports_are_new(state, dataflow),
    ensures
        asks_for_needs(state, state.install(storage.dom(), dataflow)),
        finitely_reported(state.install(storage.dom(), dataflow).collections),
{
    let as_of = dataflow.as_of->0;
    let exported = state.with_exports(storage.dom(), dataflow);
    let exports = dataflow.export_ids();
    lemma_exports_ask(state, storage, dataflow);
    lemma_exports_balance(state, storage, dataflow);
    lemma_exports_keep(state, storage.dom(), dataflow);
    lemma_exports_differ(dataflow, as_of);
    lemma_sorted_ids(state.replicas.dom());
    assert(has_fresh(exported, exports, as_of)) by {
        assert forall|i: int| 0 <= i < exports.len() implies exported.collections.contains_key(
            #[trigger] exports[i],
        ) && is_fresh(exported.collections[exports[i]], as_of) by {
            assert(exports.contains(exports[i]));
        }
    }
    let replicas = sorted_ids(exported.replicas.dom());
    lemma_replicas_ask(exported, storage.dom(), replicas, exports, as_of);
    let started = exported.update_on_replicas(
        storage.dom(),
        replicas,
        exports.map_values(|id: u64| (id, as_of)),
    );
    lemma_asks_twice(state, exported, started);
    lemma_asks_twice(state, started, state.install(storage.dom(), dataflow));
}

/// Whether the logs of a replica are nobody's input and have none themselves.
pub open spec fn logs_stand_alone<P, L>(
    state: InstanceModel<P, L>,
    logging_config: LoggingModel<P>,
) -> bool {
    &&& logs_unclaimed(state, logging_config)
    &&& need_nothing(state.collections, logging_config.sink_log_ids())
}

/// Starting a replica again whose logs stand alone asks storage for what is then needed.
pub proof fn law_rehydrating_asks<P, L: FrontierLogic>(
    state: InstanceModel<P, L>,
    storage_ids: Set<u64>,
    id: u64,
)
    requires
        balanced(state),
        finitely_reported(state.collections),
        state.replicas.contains_key(id),
        logs_stand_alone(state, state.replicas[id].logging_config),
    ensures
        asks_for_needs(state, state.rehydrate_replica(storage_ids, id)),
        finitely_reported(state.rehydrate_replica(storage_ids, id).collections),
{
    let removed = state.remove_replica_state(id);
    let logging_config = state.replicas[id].logging_config;
    law_removing_replica_state_balances(state, id);
    law_removing_replica_state_asks(state, id);
    lemma_logs_stay_unclaimed(state, id, logging_config);
    assert(need_nothing(removed.collections, logging_config.sink_log_ids())) by {
        assert forall|log: u64| #[trigger]
            logging_config.sink_log_ids().contains(log) && removed.collections.contains_key(
                log,
            ) implies removed.collections[log].storage_dependencies.len() == 0 by {
            assert(state.collections.contains_key(log));
        }
    }
    law_adding_replica_asks(
        removed,
        storage_ids,
        id,
        state.replicas[id].location,
        logging_config,
    );
    lemma_asks_twice(state, removed, state.rehydrate_replica(storage_ids, id));
}

/// Starting a replica again leaves logs that stand alone alone.
proof fn lemma_logs_keep_standing_alone<P, L: FrontierLogic>(
    state: InstanceModel<P, L>,
    storage_ids: Set<u64>,
    id: u64,
    logging_config: LoggingModel<P>,
)
    requires
        balanced(state),
        state.replicas.contains_key(id),
        logs_unclaimed(state, state.replicas[id].logging_config),
        logs_stand_alone(state, logging_config),
    ensures
        logs_stand_alone(state.rehydrate_replica(storage_ids, id), logging_config),
{
    let removed = state.remove_replica_state(id);
    let own = state.replicas[id].logging_config;
    let logged = removed.with_logs(own);
    let after = state.rehydrate_replica(storage_ids, id);
    law_rehydrating_balances(state, storage_ids, id);
    vstd::set_lib::lemma_set_subset_finite(state.collections.dom(), removed.collections.dom());
    lemma_logged_finite(removed, own);
    lemma_initial_uppers(logged, logged.complete_logging(own));
    law_uppers_add_nothing(
        logged,
        storage_ids,
        id,
        logged.initial_uppers(logged.complete_logging(own)),
    );
    assert forall|other: u64| #[trigger] after.collections.contains_key(other) implies (
    state.collections.contains_key(other) && after.collections[other].compute_dependencies
        == state.collections[other].compute_dependencies
        && after.collections[other].storage_dependencies
        == state.collections[other].storage_dependencies) || (
    after.collections[other].compute_dependencies.len() == 0
        && after.collections[other].storage_dependencies.len() == 0) by {
        assert(logged.collections.contains_key(other));
        if !own.sink_log_ids().contains(other) {
            assert(removed.collections.contains_key(other));
            assert(state.collections.contains_key(other));
        }
    }
    assert forall|log: u64| #[trigger] logging_config.sink_log_ids().contains(log) implies {
        &&& unclaimed(after, log)
        &&& after.collections.contains_key(log)
            ==> after.collections[log].compute_dependencies.len() == 0
    } by {
        assert(unclaimed(state, log));
        assert forall|reader: u64| #[trigger]
            after.collections.contains_key(reader) && after.collections[
                reader
            ].read_frontier().len() > 0 implies !after.collections[
            reader
        ].compute_dependencies.contains(log) by {
            if after.collections[reader].compute_dependencies.len() > 0 {
                assert(state.collections.contains_key(reader));
                if own.sink_log_ids().contains(reader) {
                    assert(state.collections[reader].compute_dependencies.len() == 0);
                }
                lemma_still_readable(state.collections, after.collections, reader);
            }
        }
    }
    assert forall|log: u64| #[trigger]
        logging_config.sink_log_ids().contains(log) && after.collections.contains_key(
            log,
        ) implies after.collections[log].storage_dependencies.len() == 0 by {}
}

/// Starting replicas again whose logs stand alone, one after the other, keeps the accounts
/// balanced and asks storage for what is then needed.
pub proof fn law_rehydrating_all_balances<P, L: FrontierLogic>(
    state: InstanceModel<P, L>,
    storage_ids: Set<u64>,
    ids: Seq<u64>,
)
    requires
        balanced(state),
        finitely_reported(state.collections),
        ids.no_duplicates(),
        forall|i: int|
            0 <= i < ids.len() ==> state.replicas.contains_key(#[trigger] ids[i])
                && logs_stand_alone(state, state.replicas[ids[i]].logging_config),
    ensures
        balanced(state.rehydrate_replicas(storage_ids, ids)),
        asks_for_needs(state, state.rehydrate_replicas(storage_ids, ids)),
        finitely_reported(state.rehydrate_replicas(storage_ids, ids).collections),
{
    assert(ids.take(ids.len() as int) =~= ids);
    lemma_rehydrating_all(state, storage_ids, ids, ids);
}

/// Starting the first of a list of replicas again leaves the others as they are.
proof fn lemma_rehydrating_all<P, L: FrontierLogic>(
    state: InstanceModel<P, L>,
    storage_ids: Set<u64>,
    ids: Seq<u64>,
    all: Seq<u64>,
)
    requires
        balanced(state),
        finitely_reported(state.collections),
        all.no_duplicates(),
        ids.len() <= all.len(),
        ids == all.take(ids.len() as int),
        forall|i: int|
            0 <= i < all.len() ==> state.replicas.contains_key(#[trigger] all[i])
                && logs_stand_alone(state, state.replicas[all[i]].logging_config),
    ensures
        ({
            let after = state.rehydrate_replicas(storage_ids, ids);
            &&& balanced(after)
            &&& asks_for_needs(state, after)
            &&& finitely_reported(after.collections)
            &&& forall|i: int|
                0 <= i < all.len() ==> logs_stand_alone(
                    after,
                    state.replicas[#[trigger] all[i]].logging_config,
                )
            &&& forall|i: int|
                ids.len() <= i < all.len() ==> after.replicas.contains_key(#[trigger] all[i])
                    && after.replicas[all[i]] == state.replicas[all[i]]
        }),
    decreases ids.len(),
{
    if ids.len() > 0 {
        let front = ids.drop_last();
        assert(front =~= all.take(front.len() as int));
        lemma_rehydrating_all(state, storage_ids, front, all);
        let before = state.rehydrate_replicas(storage_ids, front);
        let last = all[front.len() as int];
        assert(ids.last() == last);
        assert(before.replicas.contains_key(last));
        assert(before.replicas[last] == state.replicas[last]);
        assert(logs_stand_alone(before, state.replicas[last].logging_config));
        law_rehydrating_balances(before, storage_ids, last);
        law_rehydrating_asks(before, storage_ids, last);
        let after = before.rehydrate_replica(storage_ids, last);
        lemma_asks_twice(state, before, after);
        assert forall|i: int| 0 <= i < all.len() implies logs_stand_alone(
            after,
            state.replicas[#[trigger] all[i]].logging_config,
        ) by {
            lemma_logs_keep_standing_alone(
                before,
                storage_ids,
                last,
                state.replicas[all[i]].logging_config,
            );
        }
        assert forall|i: int| ids.len() <= i < all.len() implies after.replicas.contains_key(
            #[trigger] all[i],
        ) && after.replicas[all[i]] == state.replicas[all[i]] by {
            assert(all[i] != all[front.len() as int]);
            assert(before.replicas.contains_key(all[i]));
        }
    }
}

/// Creating dataflows with new outputs asks storage for what is then needed.
pub proof fn law_creating_dataflows_asks<P, L: FrontierLogic>(
    state: InstanceModel<P, L>,
    storage: Seq<Map<u64, StorageCollectionModel<P>>>,
    dataflows: Seq<DataflowModel<P, ()>>,
)
    requires
        balanced(state),
        finitely_reported(state.collections),
        state.replicas.dom().finite(),
        state.takes_dataflows(storage, dataflows),
        each_is_new(state, storage, dataflows),
        forall|i: int|
            0 <= i < dataflows.len() ==> (#[trigger] dataflows[i]).source_imports.dom().finite(),
    ensures
        asks_for_needs(state, state.create_dataflows(storage, dataflows).0),
        finitely_reported(state.create_dataflows(storage, dataflows).0.collections),
{
    lemma_installing_all_asks(state, storage, dataflows);
    let installed = state.install_all(storage, dataflows).0;
    let after = state.create_dataflows(storage, dataflows).0;
    if after != installed {
        lemma_sending_keeps_asking(
            state,
            installed,
            CommandModel::CreateDataflows(
                dataflows.map_values(
                    |dataflow: DataflowModel<P, ()>|
                        dataflow.looked_up(storage[dataflows.len() as int]),
                ),
            ),
        );
    }
}

/// Tracking dataflows until one cannot be created asks storage for what is then needed.
proof fn lemma_installing_all_asks<P, L: FrontierLogic>(
    state: InstanceModel<P, L>,
    storage: Seq<Map<u64, StorageCollectionModel<P>>>,
    dataflows: Seq<DataflowModel<P, ()>>,
)
    requires
        balanced(state),
        finitely_reported(state.collections),
        state.replicas.dom().finite(),
        state.takes_dataflows(storage, dataflows),
        each_is_new(state, storage, dataflows),
        forall|i: int|
            0 <= i < dataflows.len() ==> (#[trigger] dataflows[i]).source_imports.dom().finite(),
    ensures
        asks_for_needs(state, state.install_all(storage, dataflows).0),
        finitely_reported(state.install_all(storage, dataflows).0.collections),
    decreases dataflows.len(),
{
    if dataflows.len() > 0 {
        let front = dataflows.drop_last();
        assert forall|i: int| 0 <= i < front.len() implies (
        #[trigger] front[i]).source_imports.dom().finite() by {
            assert(front[i] == dataflows[i]);
        }
        lemma_installing_all_asks(state, storage, front);
        lemma_installing_all_balances(state, storage, front);
        let (before, error) = state.install_all(storage, front);
        let last = dataflows[dataflows.len() - 1];
        assert(last.source_imports.dom().finite());
        let known = storage[dataflows.len() - 1];
        if error is None && before.import_error(known, last) is None {
            law_installing_asks(before, known, last);
            lemma_asks_twice(state, before, before.install(known.dom(), last));
        }
    }
}

} // verus!
