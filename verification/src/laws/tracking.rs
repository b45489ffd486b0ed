//! What is tracked of a dataflow.
use vstd::prelude::*;

use super::accounts::law_capabilities_change_alone;
use super::commands::{lemma_only_adds_twice, lemma_updating_only_adds, only_adds, same_identity};
use super::growth::{lemma_exports_differ, lemma_exports_keep, outputs_differ};
use super::reports::{
    concerns_storage, law_storage_learns_of_write_frontiers, lemma_absorbs, lemma_filter_all, names,
    names_once, report_of_others, report_taken_in,
};
use crate::action::ActionModel;
use crate::changes::occurrences;
use crate::collection::CollectionModel;
use crate::command::DataflowModel;
use crate::fresh::{has_fresh, is_fresh, lemma_fresh_on_replicas, lemma_fresh_uppers};
use crate::frontier::{frontier_lt, Frontier};
use crate::model::{same_for_all, without_dropped, InstanceModel};
use crate::ordered::{lemma_sorted_ids, sorted_ids};
use crate::policy::{FrontierLogic, PolicyModel};
use crate::storage::StorageCollectionModel;

verus! {

/// Whether `id` is a sink of the dataflow whose data goes to a subscribing client.
pub open spec fn subscribes_to<P>(dataflow: DataflowModel<P, ()>, id: u64) -> bool {
    dataflow.sink_exports.contains_key(id) && dataflow.sink_exports[id].connection is Subscribe
}

/// Tracking a dataflow starts its subscriptions at the first time, and leaves each other
/// subscription in progress where it stands.
pub proof fn law_tracking_keeps_subscriptions<P, L: FrontierLogic>(
    state: InstanceModel<P, L>,
    storage_ids: Set<u64>,
    dataflow: DataflowModel<P, ()>,
    id: u64,
)
    ensures
        ({
            let after = state.install(storage_ids, dataflow);
            if subscribes_to(dataflow, id) {
                after.subscribes.contains_key(id) && after.subscribes[id] == seq![0u64]
            } else {
                &&& after.subscribes.contains_key(id) <==> state.subscribes.contains_key(id)
                &&& state.subscribes.contains_key(id) ==> after.subscribes[id]
                    == state.subscribes[id]
            }
        }),
{
    let exported = state.with_exports(storage_ids, dataflow);
    lemma_updating_keeps(
        exported,
        storage_ids,
        sorted_ids(exported.replicas.dom()),
        dataflow.export_ids().map_values(|id: u64| (id, dataflow.as_of->0)),
    );
}

/// Starting with replicas changes nothing but collections, the history and the work that is left
/// to the surroundings.
proof fn lemma_updating_keeps<P, L: FrontierLogic>(
    state: InstanceModel<P, L>,
    storage_ids: Set<u64>,
    replicas: Seq<u64>,
    uppers: Seq<(u64, Frontier)>,
)
    ensures
        ({
            let after = state.update_on_replicas(storage_ids, replicas, uppers);
            after == (InstanceModel {
                collections: after.collections,
                history: after.history,
                actions: after.actions,
                spent: after.spent,
                ..state
            })
        }),
    decreases replicas.len(),
{
    if replicas.len() > 0 {
        lemma_updating_keeps(state, storage_ids, replicas.drop_last(), uppers);
    }
}

/// Tracking a dataflow leaves the identity of the instance, its replicas, its peeks and the
/// responses that are ready.
pub proof fn law_tracking_leaves_the_rest<P, L: FrontierLogic>(
    state: InstanceModel<P, L>,
    storage_ids: Set<u64>,
    dataflow: DataflowModel<P, ()>,
)
    ensures
        ({
            let after = state.install(storage_ids, dataflow);
            &&& same_identity(state, after)
            &&& after.replicas == state.replicas
            &&& after.replica_epochs == state.replica_epochs
            &&& after.failed_replicas == state.failed_replicas
            &&& after.ready_responses == state.ready_responses
            &&& after.peeks == state.peeks
        }),
{
    let exported = state.with_exports(storage_ids, dataflow);
    lemma_updating_keeps(
        exported,
        storage_ids,
        sorted_ids(exported.replicas.dom()),
        dataflow.export_ids().map_values(|id: u64| (id, dataflow.as_of->0)),
    );
}

/// Creating dataflows, also where one of them is refused, leaves each subscription in progress
/// that is none of theirs where it stands; where none is refused, their own start at the first
/// time. The identity of the instance, its replicas, its peeks and the responses that are ready
/// stay.
pub proof fn law_creating_keeps_subscriptions<P, L: FrontierLogic>(
    state: InstanceModel<P, L>,
    storage: Seq<Map<u64, StorageCollectionModel<P>>>,
    dataflows: Seq<DataflowModel<P, ()>>,
    id: u64,
)
    ensures
        ({
            let (after, result) = state.create_dataflows(storage, dataflows);
            let own = exists|i: int|
                0 <= i < dataflows.len() && subscribes_to(#[trigger] dataflows[i], id);
            &&& !own ==> (after.subscribes.contains_key(id) <==> state.subscribes.contains_key(id))
            &&& !own && state.subscribes.contains_key(id) ==> after.subscribes[id]
                == state.subscribes[id]
            &&& own && result is Ok ==> after.subscribes.contains_key(id) && after.subscribes[id]
                == seq![0u64]
            &&& same_identity(state, after)
            &&& after.replicas == state.replicas
            &&& after.replica_epochs == state.replica_epochs
            &&& after.failed_replicas == state.failed_replicas
            &&& after.ready_responses == state.ready_responses
            &&& after.peeks == state.peeks
        }),
{
    lemma_tracking_all(state, storage, dataflows, id);
}

/// The same of dataflows that are tracked until one is refused.
proof fn lemma_tracking_all<P, L: FrontierLogic>(
    state: InstanceModel<P, L>,
    storage: Seq<Map<u64, StorageCollectionModel<P>>>,
    dataflows: Seq<DataflowModel<P, ()>>,
    id: u64,
)
    ensures
        ({
            let (after, error) = state.install_all(storage, dataflows);
            let own = exists|i: int|
                0 <= i < dataflows.len() && subscribes_to(#[trigger] dataflows[i], id);
            &&& !own ==> (after.subscribes.contains_key(id) <==> state.subscribes.contains_key(id))
            &&& !own && state.subscribes.contains_key(id) ==> after.subscribes[id]
                == state.subscribes[id]
            &&& own && error is None ==> after.subscribes.contains_key(id) && after.subscribes[id]
                == seq![0u64]
            &&& same_identity(state, after)
            &&& after.replicas == state.replicas
            &&& after.replica_epochs == state.replica_epochs
            &&& after.failed_replicas == state.failed_replicas
            &&& after.ready_responses == state.ready_responses
            &&& after.peeks == state.peeks
        }),
    decreases dataflows.len(),
{
    if dataflows.len() > 0 {
        let front = dataflows.drop_last();
        let last = dataflows[dataflows.len() - 1];
        let known = storage[dataflows.len() - 1];
        let (before, error) = state.install_all(storage, front);
        lemma_tracking_all(state, storage, front, id);
        law_tracking_keeps_subscriptions(before, known.dom(), last, id);
        law_tracking_leaves_the_rest(before, known.dom(), last);
        assert(forall|i: int| 0 <= i < front.len() ==> front[i] == #[trigger] dataflows[i]);
        if exists|i: int| 0 <= i < front.len() && subscribes_to(#[trigger] front[i], id) {
            let i = choose|i: int| 0 <= i < front.len() && subscribes_to(#[trigger] front[i], id);
            assert(subscribes_to(dataflows[i], id));
        } else if exists|i: int|
            0 <= i < dataflows.len() && subscribes_to(#[trigger] dataflows[i], id) {
            let i = choose|i: int|
                0 <= i < dataflows.len() && subscribes_to(#[trigger] dataflows[i], id);
            if i < front.len() {
                assert(subscribes_to(front[i], id));
            }
            assert(subscribes_to(last, id));
        } else {
            assert(!subscribes_to(dataflows[dataflows.len() - 1], id));
        }
    }
}

/// Whether a list holds exactly the members of a set, each once, ascending.
pub open spec fn lists_once(list: Seq<u64>, set: Set<u64>) -> bool {
    &&& forall|i: int, j: int| 0 <= i < j < list.len() ==> #[trigger] list[i] < #[trigger] list[j]
    &&& forall|id: u64| #[trigger] list.contains(id) <==> set.contains(id)
}

/// Whether a collection is a new output: readable from `as_of` on, as its policy says, dependent
/// on what the dataflow reads, and reported to stand at `as_of` by all of the replicas.
pub open spec fn is_output<P, L>(
    collection: CollectionModel<L>,
    dataflow: DataflowModel<P, ()>,
    as_of: Frontier,
    replicas: Set<u64>,
) -> bool {
    &&& !collection.log_collection
    &&& forall|time: u64| #[trigger]
        (collection.read_capabilities)(time) == occurrences(as_of, time)
    &&& collection.implied_capability == as_of
    &&& collection.read_policy == PolicyModel::<L>::ValidFrom(as_of)
    &&& lists_once(collection.storage_dependencies, dataflow.source_imports.dom())
    &&& lists_once(collection.compute_dependencies, dataflow.index_imports.dom())
    &&& collection.replica_write_frontiers.dom() == replicas
    &&& forall|replica: u64| #[trigger]
        replicas.contains(replica) ==> collection.replica_write_frontiers[replica] == as_of
    &&& collection.write_frontier == if !replicas.is_empty() && frontier_lt(seq![0u64], as_of) {
        as_of
    } else {
        seq![0u64]
    }
}

/// A report of `as_of` by one more replica leaves new outputs as one more replica reports them,
/// and everything else as it is.
proof fn lemma_outputs_on_replica<P, L: FrontierLogic>(
    before: InstanceModel<P, L>,
    storage_ids: Set<u64>,
    replica: u64,
    dataflow: DataflowModel<P, ()>,
    as_of: Frontier,
    id: u64,
)
    requires
        as_of.len() > 0,
        outputs_differ(dataflow),
        has_fresh(before, dataflow.export_ids(), as_of),
        before.collections.contains_key(id),
    ensures
        ({
            let exports = dataflow.export_ids();
            let uppers = exports.map_values(|id: u64| (id, as_of));
            let after = before.update_write_frontiers(storage_ids, replica, uppers);
            &&& after.collections.contains_key(id)
            &&& exports.contains(id) ==> report_taken_in(
                before.collections[id],
                after.collections[id],
                replica,
                as_of,
            ) && after.collections[id].read_capabilities
                == before.collections[id].read_capabilities
            &&& !exports.contains(id) ==> after.collections[id] == before.collections[id]
        }),
{
    let exports = dataflow.export_ids();
    let uppers = exports.map_values(|id: u64| (id, as_of));
    let after = before.update_write_frontiers(storage_ids, replica, uppers);
    lemma_fresh_uppers(before, storage_ids, replica, exports, as_of);
    lemma_exports_differ(dataflow, as_of);
    let start = before.absorbed(replica, Seq::empty());
    let update = before.absorbed(replica, uppers);
    assert(update == start.absorb_all(replica, uppers));
    let picked = |upper: (u64, Frontier)| true;
    lemma_filter_all(uppers, picked);
    lemma_absorbs(start, replica, uppers, picked, id);
    assert(update.finished =~= Seq::empty());
    assert(without_dropped(update.collections, update.finished.to_set()) =~= update.collections);
    assert(after.collections == update.collections);
    if exports.contains(id) {
        let i = choose|i: int| 0 <= i < exports.len() && exports[i] == id;
        assert(names_once(uppers, id, i)) by {
            assert forall|j: int| 0 <= j < uppers.len() && j != i implies (#[trigger] uppers[j]).0
                != id by {
                if j < i {
                    assert(uppers[j].0 != uppers[i].0);
                } else {
                    assert(uppers[i].0 != uppers[j].0);
                }
            }
        }
    } else {
        assert(!names(uppers, id)) by {
            if names(uppers, id) {
                let i = choose|i: int| 0 <= i < uppers.len() && (#[trigger] uppers[i]).0 == id;
                assert(exports[i] == id);
            }
        }
    }
}

/// An output that one more replica reports is one that these replicas report.
proof fn lemma_output_reported<P, L: FrontierLogic>(
    was: CollectionModel<L>,
    now: CollectionModel<L>,
    dataflow: DataflowModel<P, ()>,
    as_of: Frontier,
    replicas: Set<u64>,
    replica: u64,
)
    requires
        is_output(was, dataflow, as_of, replicas),
        report_taken_in(was, now, replica, as_of),
        now.read_capabilities == was.read_capabilities,
    ensures
        is_output(now, dataflow, as_of, replicas.insert(replica)),
{
    assert(now.replica_write_frontiers.dom() =~= replicas.insert(replica));
    assert(replicas.insert(replica).contains(replica));
    crate::frontier::lemma_le_reflexive(as_of);
    assert(!frontier_lt(as_of, as_of)) by {
        assert(crate::frontier::same_elements(as_of, as_of));
    }
}

/// Reports of `as_of` by the first replicas leave new outputs as these replicas report them.
proof fn lemma_outputs_on_replicas<P, L: FrontierLogic>(
    state: InstanceModel<P, L>,
    storage_ids: Set<u64>,
    replicas: Seq<u64>,
    dataflow: DataflowModel<P, ()>,
    as_of: Frontier,
    id: u64,
)
    requires
        as_of.len() > 0,
        outputs_differ(dataflow),
        has_fresh(state, dataflow.export_ids(), as_of),
        state.collections.contains_key(id),
        dataflow.export_ids().contains(id) ==> is_output(
            state.collections[id],
            dataflow,
            as_of,
            Set::empty(),
        ),
    ensures
        ({
            let after = state.update_on_replicas(
                storage_ids,
                replicas,
                dataflow.export_ids().map_values(|id: u64| (id, as_of)),
            );
            &&& after.collections.contains_key(id)
            &&& dataflow.export_ids().contains(id) ==> is_output(
                after.collections[id],
                dataflow,
                as_of,
                replicas.to_set(),
            )
            &&& !dataflow.export_ids().contains(id) ==> after.collections[id]
                == state.collections[id]
        }),
    decreases replicas.len(),
{
    let exports = dataflow.export_ids();
    let uppers = exports.map_values(|id: u64| (id, as_of));
    if replicas.len() == 0 {
        assert(replicas.to_set() =~= Set::empty());
    } else {
        let front = replicas.drop_last();
        let last = replicas.last();
        let before = state.update_on_replicas(storage_ids, front, uppers);
        let after = before.update_write_frontiers(storage_ids, last, uppers);
        lemma_outputs_on_replicas(state, storage_ids, front, dataflow, as_of, id);
        lemma_fresh_on_replicas(state, storage_ids, front, exports, as_of);
        lemma_outputs_on_replica(before, storage_ids, last, dataflow, as_of, id);
        if exports.contains(id) {
            lemma_output_reported(
                before.collections[id],
                after.collections[id],
                dataflow,
                as_of,
                front.to_set(),
                last,
            );
        }
        crate::ordered::lemma_push_to_set(front, last);
        assert(front.push(last) =~= replicas);
    }
}

/// The outputs of a dataflow are its indexes and its sinks.
proof fn lemma_exports_listed<P>(dataflow: DataflowModel<P, ()>, id: u64)
    requires
        dataflow.index_exports.dom().finite(),
        dataflow.sink_exports.dom().finite(),
    ensures
        dataflow.export_ids().contains(id) <==> dataflow.index_exports.contains_key(id)
            || dataflow.sink_exports.contains_key(id),
{
    let exports = dataflow.export_ids();
    let indexes = sorted_ids(dataflow.index_exports.dom());
    let sinks = sorted_ids(dataflow.sink_exports.dom());
    lemma_sorted_ids(dataflow.index_exports.dom());
    lemma_sorted_ids(dataflow.sink_exports.dom());
    if indexes.contains(id) {
        let i = choose|i: int| 0 <= i < indexes.len() && indexes[i] == id;
        assert(exports[i] == id);
    }
    if sinks.contains(id) {
        let i = choose|i: int| 0 <= i < sinks.len() && sinks[i] == id;
        assert(exports[indexes.len() + i] == id);
    }
    if exports.contains(id) {
        let i = choose|i: int| 0 <= i < exports.len() && exports[i] == id;
        if i < indexes.len() {
            assert(indexes[i] == id);
        } else {
            assert(sinks[i - indexes.len()] == id);
        }
    }
}

/// Tracking a dataflow that can be created, with new outputs that have different names and are of
/// use at some time: each index and sink that it exports is tracked from then on, and nothing of
/// another collection changes but its read capabilities.
pub proof fn law_outputs_are_tracked<P, L: FrontierLogic>(
    state: InstanceModel<P, L>,
    storage_ids: Set<u64>,
    dataflow: DataflowModel<P, ()>,
    as_of: Frontier,
    id: u64,
)
    requires
        state.replicas.dom().finite(),
        dataflow.source_imports.dom().finite(),
        dataflow.index_imports.dom().finite(),
        dataflow.index_exports.dom().finite(),
        dataflow.sink_exports.dom().finite(),
        dataflow.index_exports.dom().disjoint(dataflow.sink_exports.dom()),
        dataflow.as_of == Some(as_of),
        as_of.len() > 0,
    ensures
        ({
            let after = state.install(storage_ids, dataflow);
            if dataflow.index_exports.contains_key(id) || dataflow.sink_exports.contains_key(id) {
                after.collections.contains_key(id) && is_output(
                    after.collections[id],
                    dataflow,
                    as_of,
                    state.replicas.dom(),
                )
            } else {
                after.collections.contains_key(id) ==> state.collections.contains_key(id)
                    && report_of_others(state.collections[id], after.collections[id])
            }
        }),
{
    let exported = state.with_exports(storage_ids, dataflow);
    let exports = dataflow.export_ids();
    let replicas = sorted_ids(state.replicas.dom());
    let after = state.install(storage_ids, dataflow);
    lemma_exports_keep(state, storage_ids, dataflow);
    lemma_sorted_ids(state.replicas.dom());
    lemma_sorted_ids(dataflow.source_imports.dom());
    lemma_sorted_ids(dataflow.index_imports.dom());
    lemma_exports_listed(dataflow, id);
    assert(has_fresh(exported, exports, as_of)) by {
        assert forall|i: int| 0 <= i < exports.len() implies exported.collections.contains_key(
            #[trigger] exports[i],
        ) && is_fresh(exported.collections[exports[i]], as_of) by {
            assert(exports.contains(exports[i]));
        }
    }
    assert(replicas.to_set() =~= state.replicas.dom());
    if exported.collections.contains_key(id) {
        lemma_outputs_on_replicas(exported, storage_ids, replicas, dataflow, as_of, id);
    }
    let start = state.with_sources_held(dataflow);
    let updates = same_for_all(dataflow.index_imports.dom(), dataflow.hold());
    law_capabilities_change_alone(start, storage_ids, updates);
    if !exports.contains(id) && after.collections.contains_key(id) {
        lemma_updating_adds_none(
            exported,
            storage_ids,
            replicas,
            exports.map_values(|id: u64| (id, as_of)),
            id,
        );
        assert(!exports.to_set().contains(id));
        assert(start.update_read_capabilities(storage_ids, updates).collections.contains_key(id));
        assert(start.collections.contains_key(id));
    }
}

/// Tracking a dataflow asks storage first to hold what it reads there: for each of its sources, as
/// often as it has outputs, the times that it starts at.
pub proof fn law_sources_are_held_first<P, L: FrontierLogic>(
    state: InstanceModel<P, L>,
    storage_ids: Set<u64>,
    dataflow: DataflowModel<P, ()>,
    as_of: Frontier,
)
    requires
        dataflow.as_of == Some(as_of),
    ensures
        ({
            let after = state.install(storage_ids, dataflow);
            let outputs = dataflow.index_exports.dom().len() + dataflow.sink_exports.dom().len();
            &&& only_adds(state, after)
            &&& after.actions.len() > state.actions.len()
            &&& after.actions[state.actions.len() as int] matches
                ActionModel::UpdateStorageReadCapabilities(held) && held.dom()
                == dataflow.source_imports.dom() && forall|source: u64, time: u64|
                dataflow.source_imports.contains_key(source) ==> #[trigger] held[source](time)
                    == outputs * occurrences(as_of, time)
        }),
{
    let asked = state.with_sources_held(dataflow);
    let exported = state.with_exports(storage_ids, dataflow);
    let after = state.install(storage_ids, dataflow);
    let first = state.actions.len() as int;
    lemma_updating_only_adds(
        exported,
        storage_ids,
        sorted_ids(exported.replicas.dom()),
        dataflow.export_ids().map_values(|id: u64| (id, as_of)),
    );
    assert(only_adds(state, asked));
    assert(only_adds(asked, exported));
    lemma_only_adds_twice(state, asked, exported);
    lemma_only_adds_twice(state, exported, after);
    assert(after.actions[first] == exported.actions[first]);
    assert(exported.actions[first] == asked.actions[first]);
    let held = same_for_all(dataflow.source_imports.dom(), dataflow.hold());
    assert(held.dom() =~= dataflow.source_imports.dom());
}

/// Whether one of the actions that were added tells storage that a collection stands at
/// `frontier`.
pub open spec fn tells_storage<P>(
    before: Seq<ActionModel<P>>,
    after: Seq<ActionModel<P>>,
    id: u64,
    frontier: Frontier,
) -> bool {
    exists|i: int|
        before.len() <= i < after.len() && reports_frontier(#[trigger] after[i], id, frontier)
}

/// Whether the action tells storage that a collection stands at `frontier`.
pub open spec fn reports_frontier<P>(action: ActionModel<P>, id: u64, frontier: Frontier) -> bool {
    action matches ActionModel::UpdateStorageWriteFrontiers(told) && told.contains((id, frontier))
}

/// The first of the replicas tells storage where its new outputs start.
proof fn lemma_outputs_tell_storage<P, L: FrontierLogic>(
    state: InstanceModel<P, L>,
    storage_ids: Set<u64>,
    replicas: Seq<u64>,
    dataflow: DataflowModel<P, ()>,
    as_of: Frontier,
    id: u64,
)
    requires
        replicas.len() > 0,
        outputs_differ(dataflow),
        has_fresh(state, dataflow.export_ids(), as_of),
        dataflow.export_ids().contains(id),
        storage_ids.contains(id),
        frontier_lt(state.collections[id].write_frontier, as_of),
    ensures
        tells_storage(
            state.actions,
            state.update_on_replicas(
                storage_ids,
                replicas,
                dataflow.export_ids().map_values(|id: u64| (id, as_of)),
            ).actions,
            id,
            as_of,
        ),
    decreases replicas.len(),
{
    let exports = dataflow.export_ids();
    let uppers = exports.map_values(|id: u64| (id, as_of));
    let front = replicas.drop_last();
    let before = state.update_on_replicas(storage_ids, front, uppers);
    let after = before.update_write_frontiers(storage_ids, replicas.last(), uppers);
    assert(after == state.update_on_replicas(storage_ids, replicas, uppers));
    if front.len() > 0 {
        lemma_outputs_tell_storage(state, storage_ids, front, dataflow, as_of, id);
        let i = choose|i: int|
            state.actions.len() <= i < before.actions.len() && reports_frontier(
                #[trigger] before.actions[i],
                id,
                as_of,
            );
        assert(only_adds(before, after));
        assert(after.actions[i] == before.actions[i]);
    } else {
        assert(before == state);
        let picked = |upper: (u64, Frontier)| state.collections.contains_key(upper.0);
        lemma_exports_differ(dataflow, as_of);
        assert forall|i: int| 0 <= i < uppers.len() implies picked(#[trigger] uppers[i]) by {
            assert(state.collections.contains_key(exports[i]));
        }
        lemma_filter_all(uppers, picked);
        assert(state.tracked_uppers(uppers) == uppers);
        law_storage_learns_of_write_frontiers(state, storage_ids, replicas.last(), uppers);
        let i = choose|i: int| 0 <= i < exports.len() && exports[i] == id;
        assert(uppers[i] == (id, as_of));
        assert(concerns_storage(state.collections, storage_ids, uppers[i]));
        assert(reports_frontier(after.actions[after.actions.len() - 1], id, as_of));
    }
}

/// Where there is a replica, tracking a dataflow tells storage where those outputs start that
/// storage knows, if that is beyond the first time.
pub proof fn law_outputs_tell_storage<P, L: FrontierLogic>(
    state: InstanceModel<P, L>,
    storage_ids: Set<u64>,
    dataflow: DataflowModel<P, ()>,
    as_of: Frontier,
    id: u64,
)
    requires
        state.replicas.dom().finite(),
        !state.replicas.is_empty(),
        dataflow.index_exports.dom().finite(),
        dataflow.sink_exports.dom().finite(),
        dataflow.index_exports.dom().disjoint(dataflow.sink_exports.dom()),
        dataflow.index_exports.contains_key(id) || dataflow.sink_exports.contains_key(id),
        dataflow.as_of == Some(as_of),
        frontier_lt(seq![0u64], as_of),
        storage_ids.contains(id),
    ensures
        tells_storage(state.actions, state.install(storage_ids, dataflow).actions, id, as_of),
{
    let exported = state.with_exports(storage_ids, dataflow);
    let exports = dataflow.export_ids();
    let replicas = sorted_ids(state.replicas.dom());
    lemma_exports_keep(state, storage_ids, dataflow);
    lemma_exports_listed(dataflow, id);
    lemma_sorted_ids(state.replicas.dom());
    assert(replicas.len() > 0) by {
        let some = choose|some: u64| state.replicas.contains_key(some);
        assert(replicas.contains(some));
    }
    assert(has_fresh(exported, exports, as_of)) by {
        assert forall|i: int| 0 <= i < exports.len() implies exported.collections.contains_key(
            #[trigger] exports[i],
        ) && is_fresh(exported.collections[exports[i]], as_of) by {
            assert(exports.contains(exports[i]));
        }
    }
    lemma_outputs_tell_storage(exported, storage_ids, replicas, dataflow, as_of, id);
    assert(only_adds(state, exported));
}

/// Where there is no time at which the outputs of a dataflow are of use, they are tracked as long
/// as there is no replica, and gone once a replica was said to be done with them.
pub proof fn law_useless_outputs_go<P, L: FrontierLogic>(
    state: InstanceModel<P, L>,
    storage_ids: Set<u64>,
    dataflow: DataflowModel<P, ()>,
    as_of: Frontier,
    id: u64,
)
    requires
        state.replicas.dom().finite(),
        state.replicas.dom().len() <= 1,
        dataflow.source_imports.dom().finite(),
        dataflow.index_imports.dom().finite(),
        dataflow.index_exports.dom().finite(),
        dataflow.sink_exports.dom().finite(),
        dataflow.index_exports.dom().disjoint(dataflow.sink_exports.dom()),
        dataflow.index_exports.contains_key(id) || dataflow.sink_exports.contains_key(id),
        dataflow.as_of == Some(as_of),
        as_of.len() == 0,
    ensures
        ({
            let after = state.install(storage_ids, dataflow);
            if state.replicas.is_empty() {
                after.collections.contains_key(id) && is_output(
                    after.collections[id],
                    dataflow,
                    as_of,
                    Set::empty(),
                )
            } else {
                !after.collections.contains_key(id)
            }
        }),
{
    let exported = state.with_exports(storage_ids, dataflow);
    let exports = dataflow.export_ids();
    let uppers = exports.map_values(|id: u64| (id, as_of));
    let replicas = sorted_ids(state.replicas.dom());
    let after = exported.update_on_replicas(storage_ids, replicas, uppers);
    lemma_exports_keep(state, storage_ids, dataflow);
    lemma_exports_listed(dataflow, id);
    lemma_sorted_ids(state.replicas.dom());
    lemma_sorted_ids(dataflow.source_imports.dom());
    lemma_sorted_ids(dataflow.index_imports.dom());
    let was = exported.collections[id];
    assert(exports.contains(id));
    if state.replicas.is_empty() {
        assert(replicas.len() == 0) by {
            if replicas.len() > 0 {
                assert(replicas.contains(replicas[0]));
                assert(state.replicas.contains_key(replicas[0]));
            }
        }
        assert(after == exported);
    } else {
        let replica = replicas[0];
        assert(replicas.len() == 1) by {
            let some = choose|some: u64| state.replicas.contains_key(some);
            assert(replicas.contains(some));
        }
        assert(replicas.drop_last() =~= Seq::empty());
        assert(exported.update_on_replicas(storage_ids, replicas.drop_last(), uppers) == exported);
        assert(after == exported.update_write_frontiers(storage_ids, replica, uppers));
        assert(has_fresh(exported, exports, as_of)) by {
            assert forall|i: int| 0 <= i < exports.len() implies exported.collections.contains_key(
                #[trigger] exports[i],
            ) && is_fresh(exported.collections[exports[i]], as_of) by {
                assert(exports.contains(exports[i]));
            }
        }
        lemma_fresh_uppers(exported, storage_ids, replica, exports, as_of);
        lemma_exports_differ(dataflow, as_of);
        let start = exported.absorbed(replica, Seq::empty());
        let update = exported.absorbed(replica, uppers);
        assert(update == start.absorb_all(replica, uppers));
        let picked = |upper: (u64, Frontier)| true;
        lemma_filter_all(uppers, picked);
        lemma_absorbs(start, replica, uppers, picked, id);
        let i = choose|i: int| 0 <= i < exports.len() && exports[i] == id;
        assert(names_once(uppers, id, i)) by {
            assert forall|j: int| 0 <= j < uppers.len() && j != i implies (#[trigger] uppers[j]).0
                != id by {
                if j < i {
                    assert(uppers[j].0 != uppers[i].0);
                } else {
                    assert(uppers[i].0 != uppers[j].0);
                }
            }
        }
        let now = update.collections[id];
        assert(report_taken_in(was, now, replica, as_of));
        super::growth::lemma_lower_of_antichain(as_of);
        assert(now.read_frontier().len() == 0);
        assert(now.is_droppable());
        assert(update.finished.to_set().contains(id));
    }
}

/// Starting with replicas of tracked collections adds none.
proof fn lemma_updating_adds_none<P, L: FrontierLogic>(
    state: InstanceModel<P, L>,
    storage_ids: Set<u64>,
    replicas: Seq<u64>,
    uppers: Seq<(u64, Frontier)>,
    id: u64,
)
    requires
        !names(uppers, id),
        state.update_on_replicas(storage_ids, replicas, uppers).collections.contains_key(id),
    ensures
        state.collections.contains_key(id),
    decreases replicas.len(),
{
    if replicas.len() > 0 {
        let before = state.update_on_replicas(storage_ids, replicas.drop_last(), uppers);
        let replica = replicas.last();
        let update = before.absorbed(replica, uppers);
        let absorbed = InstanceModel {
            collections: update.collections,
            spent: update.spent,
            ..before
        };
        law_capabilities_change_alone(absorbed, storage_ids, update.capabilities);
        assert(before.with_uppers(storage_ids, replica, uppers).collections.contains_key(id));
        assert(update.collections.contains_key(id));
        lemma_absorbing_adds_none(before.absorbed(replica, Seq::empty()), replica, uppers, id);
        lemma_updating_adds_none(state, storage_ids, replicas.drop_last(), uppers, id);
    }
}

/// Taking reports in adds no collection that they do not name.
proof fn lemma_absorbing_adds_none<L: FrontierLogic>(
    start: crate::model::UpperUpdate<L>,
    replica: u64,
    uppers: Seq<(u64, Frontier)>,
    id: u64,
)
    requires
        !names(uppers, id),
        start.absorb_all(replica, uppers).collections.contains_key(id),
    ensures
        start.collections.contains_key(id),
    decreases uppers.len(),
{
    if uppers.len() > 0 {
        let front = uppers.drop_last();
        assert(!names(front, id)) by {
            if names(front, id) {
                let i = choose|i: int| 0 <= i < front.len() && (#[trigger] front[i]).0 == id;
                assert(uppers[i].0 == id);
            }
        }
        assert(uppers[uppers.len() - 1].0 != id);
        lemma_absorbing_adds_none(start, replica, front, id);
    }
}

} // verus!
