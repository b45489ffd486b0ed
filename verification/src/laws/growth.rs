//! The accounts of the read capabilities stay balanced when collections and replicas come and go.
use std::sync::Arc;
use vstd::prelude::*;

use super::accounts::{
    accounted, accounted_when_settled, capabilities_at, held_by, held_by_peeks, held_by_readers,
    held_directly, law_capabilities_change_alone, reads_at,
};
use super::balance::{
    advances, balanced, law_balanced_is_readable, law_forgetting_uppers_balances,
    law_removing_peeks_balances, law_uppers_balance, lemma_advances_twice, lemma_direct_readable,
    lemma_settling_balances, unclaimed,
};
use super::readable::{lemma_peeks_hold, readable_directly};
use crate::changes::{
    frontier_counts, is_least, lemma_occurrences, lower, occurrences, recorded, Counts,
};
use crate::collection::CollectionModel;
use crate::command::{ComputeReplicaLocation, DataflowModel, LoggingModel};
use crate::fresh::{has_fresh, is_fresh, lemma_fresh_on_replicas, lemma_fresh_uppers};
use crate::frontier::{frontier_le, is_antichain, lemma_le_reflexive, reaches, Frontier};
use crate::model::{
    distinct, index_error, lemma_acyclic_with_logs, lemma_initial_uppers, lemma_no_first_error,
    same_for_all, with_each, InstanceModel, UpperUpdate,
};
use crate::ordered::{increasing, lemma_sorted_ids, sorted_ids};
use crate::policy::FrontierLogic;
use crate::propagation::{acyclic, dependencies, ranked};
use crate::sums::{
    lemma_sum_bounds, lemma_sum_of_equals, lemma_sum_part, lemma_sum_same, lemma_sum_union,
    sum_over,
};

verus! {

/// What nobody holds is held by none.
pub proof fn lemma_nothing_held<P, L>(state: InstanceModel<P, L>, id: u64, time: u64)
    requires
        state.collections.dom().finite(),
        state.peeks.dom().finite(),
        unclaimed(state, id),
    ensures
        held_by_peeks(state.peeks, id, time) == 0,
        held_by_readers(state.collections, id, time) == 0,
{
    let readers = held_by(state.collections, id, time);
    assert forall|reader: u64| #[trigger] state.collections.dom().contains(reader) implies readers(
        reader,
    ) == 0 by {
        assert(state.collections.contains_key(reader));
        lemma_occurrences(state.collections[reader].compute_dependencies, id);
        let m = occurrences(state.collections[reader].compute_dependencies, id);
        let n = occurrences(state.collections[reader].read_frontier(), time);
        assert(0 * n == 0 && m * 0 == 0) by (nonlinear_arith);
    }
    lemma_sum_of_equals(state.collections.dom(), readers, 0);
    let peeks = reads_at(state.peeks, id, time);
    assert forall|uuid: u128| #[trigger] state.peeks.dom().contains(uuid) implies peeks(uuid)
        == 0 by {
        assert(state.peeks.contains_key(uuid));
    }
    lemma_sum_of_equals(state.peeks.dom(), peeks, 0);
    assert(state.collections.dom().len() * 0 == 0) by (nonlinear_arith);
    assert(state.peeks.dom().len() * 0 == 0) by (nonlinear_arith);
}

/// Where the accounts are balanced, nobody holds a read capability on what does not exist.
pub proof fn lemma_gone_is_unclaimed<P, L>(state: InstanceModel<P, L>, id: u64)
    requires
        balanced(state),
        !state.collections.contains_key(id),
    ensures
        unclaimed(state, id),
{
    assert forall|reader: u64| #[trigger]
        state.collections.contains_key(reader) && state.collections[reader].read_frontier().len()
            > 0 implies !state.collections[reader].compute_dependencies.contains(id) by {
        let list = state.collections[reader].compute_dependencies;
        if list.contains(id) {
            let i = choose|i: int| 0 <= i < list.len() && list[i] == id;
            assert(state.collections.contains_key(
                state.collections[reader].compute_dependencies[i],
            ));
        }
    }
}

/// Whether the collections with the given identifiers can be set to `added`: nobody holds a read
/// capability on them, and those that are replaced hold none on others.
pub open spec fn can_add<P, L>(
    state: InstanceModel<P, L>,
    ids: Set<u64>,
    added: CollectionModel<L>,
) -> bool {
    &&& ids.finite()
    &&& forall|id: u64| #[trigger]
        ids.contains(id) ==> unclaimed(state, id) && !added.compute_dependencies.contains(id)
    &&& forall|id: u64| #[trigger]
        ids.contains(id) && state.collections.contains_key(id)
            ==> state.collections[id].compute_dependencies.len() == 0
    &&& added.read_capabilities == frontier_counts(added.implied_capability)
}

/// Further collections hold what they hold, each for itself.
proof fn lemma_readers_added<P, L>(
    state: InstanceModel<P, L>,
    ids: Set<u64>,
    added: CollectionModel<L>,
    id: u64,
    time: u64,
)
    requires
        state.collections.dom().finite(),
        can_add(state, ids, added),
    ensures
        with_each(state.collections, ids, added).dom().finite(),
        held_by_readers(with_each(state.collections, ids, added), id, time)
            == held_by_readers(state.collections, id, time) + ids.len() * (
        occurrences(added.compute_dependencies, id) * occurrences(added.read_frontier(), time)),
{
    let more = with_each(state.collections, ids, added);
    let kept = state.collections.dom().difference(ids);
    let before = held_by(state.collections, id, time);
    let after = held_by(more, id, time);
    let each = occurrences(added.compute_dependencies, id) * occurrences(
        added.read_frontier(),
        time,
    );
    assert(more.dom() =~= kept.union(ids));
    assert forall|other: u64| #[trigger]
        state.collections.dom().contains(other) && !kept.contains(other) implies before(other)
        == 0 by {
        assert(ids.contains(other) && state.collections.contains_key(other));
        let n = occurrences(state.collections[other].read_frontier(), time);
        assert(0 * n == 0) by (nonlinear_arith);
    }
    lemma_sum_part(state.collections.dom(), kept, before);
    lemma_sum_union(kept, ids, after);
    lemma_sum_same(kept, before, after);
    lemma_sum_of_equals(ids, after, each);
}

/// Further collections balance the accounts in which what they hold was provided for.
proof fn lemma_adding_balances<P, L: FrontierLogic>(
    state: InstanceModel<P, L>,
    ids: Set<u64>,
    added: CollectionModel<L>,
)
    requires
        state.collections.dom().finite(),
        state.peeks.dom().finite(),
        can_add(state, ids, added),
        accounted_when_settled(
            state.collections,
            Map::empty(),
            |id: u64, time: u64|
                held_directly(state.collections, state.peeks)(id, time) + ids.len() * (occurrences(
                    added.compute_dependencies,
                    id,
                ) * occurrences(added.read_frontier(), time)),
        ),
    ensures
        with_each(state.collections, ids, added).dom().finite(),
        accounted(with_each(state.collections, ids, added), state.peeks),
{
    let more = with_each(state.collections, ids, added);
    let provided = |id: u64, time: u64|
        held_directly(state.collections, state.peeks)(id, time) + ids.len() * (occurrences(
            added.compute_dependencies,
            id,
        ) * occurrences(added.read_frontier(), time));
    lemma_readers_added(state, ids, added, 0, 0);
    assert forall|id: u64, time: u64|
        more.contains_key(id) implies #[trigger] capabilities_at(more, id, time) == held_directly(
        more,
        state.peeks,
    )(id, time) + held_by_readers(more, id, time) by {
        lemma_readers_added(state, ids, added, id, time);
        if ids.contains(id) {
            lemma_nothing_held(state, id, time);
            lemma_occurrences(added.compute_dependencies, id);
            let n = occurrences(added.read_frontier(), time);
            let m = ids.len() as int;
            assert(m * (0 * n) == 0) by (nonlinear_arith);
        } else {
            assert(capabilities_at(state.collections, id, time) + recorded(
                Map::<u64, Counts>::empty(),
                id,
            )(time) == provided(id, time) + held_by_readers(
                state.collections,
                id,
                time,
            ));
        }
    }
}

/// What is readable was readable before, where read frontiers do not move back.
pub proof fn lemma_still_readable<L>(
    before: Map<u64, CollectionModel<L>>,
    after: Map<u64, CollectionModel<L>>,
    id: u64,
)
    requires
        before.contains_key(id),
        after.contains_key(id),
        frontier_le(before[id].read_frontier(), after[id].read_frontier()),
        after[id].read_frontier().len() > 0,
    ensures
        before[id].read_frontier().len() > 0,
{
    assert(reaches(before[id].read_frontier(), after[id].read_frontier()[0]));
}

/// Collections that depend on nothing and that nobody reads keep the accounts balanced.
pub proof fn lemma_logs_balance<P, L: FrontierLogic>(
    state: InstanceModel<P, L>,
    ids: Set<u64>,
)
    requires
        balanced(state),
        can_add(state, ids, CollectionModel::created_log()),
    ensures
        balanced(
            InstanceModel {
                collections: with_each(state.collections, ids, CollectionModel::created_log()),
                ..state
            },
        ),
        advances(
            state.collections,
            with_each(state.collections, ids, CollectionModel::created_log()),
            ids,
        ),
{
    let log = CollectionModel::<L>::created_log();
    let provided = |id: u64, time: u64|
        held_directly(state.collections, state.peeks)(id, time) + ids.len() * (occurrences(
            log.compute_dependencies,
            id,
        ) * occurrences(log.read_frontier(), time));
    assert forall|id: u64, time: u64|
        state.collections.contains_key(id) implies #[trigger] capabilities_at(
        state.collections,
        id,
        time,
    ) + recorded(Map::<u64, Counts>::empty(), id)(time) == provided(id, time) + held_by_readers(
        state.collections,
        id,
        time,
    ) by {
        let n = occurrences(log.read_frontier(), time);
        let m = ids.len() as int;
        assert(m * (0 * n) == 0) by (nonlinear_arith);
    }
    lemma_adding_balances(state, ids, log);
    lemma_acyclic_with_logs(state.collections, ids, log);
    let more = with_each(state.collections, ids, log);
    assert forall|reader: u64, i: int|
        more.contains_key(reader) && more[reader].read_frontier().len() > 0 && 0 <= i < more[
            reader
        ].compute_dependencies.len() implies more.contains_key(
        #[trigger] more[reader].compute_dependencies[i],
    ) by {
        assert(state.collections.contains_key(reader));
        assert(state.collections.contains_key(
            state.collections[reader].compute_dependencies[i],
        ));
    }
    assert forall|id: u64| #[trigger]
        more.contains_key(id) && state.collections.contains_key(id) && !ids.contains(
            id,
        ) implies frontier_le(
        state.collections[id].read_frontier(),
        more[id].read_frontier(),
    ) by {
        lemma_le_reflexive(more[id].read_frontier());
    }
}

/// A new instance has balanced accounts.
pub proof fn law_created_balanced<P, L: FrontierLogic>(
    instance_id: u64,
    arranged_logs: Map<u64, u64>,
    max_result_size: u32,
    envd_epoch: i64,
)
    requires
        arranged_logs.dom().finite(),
    ensures
        balanced(
            InstanceModel::<P, L>::created(
                instance_id,
                arranged_logs,
                max_result_size,
                envd_epoch,
            ),
        ),
{
    let created = InstanceModel::<P, L>::created(
        instance_id,
        arranged_logs,
        max_result_size,
        envd_epoch,
    );
    let empty = InstanceModel::<P, L> { collections: Map::empty(), ..created };
    assert(ranked(dependencies(empty.collections), |id: u64| 0nat));
    assert(balanced(empty));
    let ids = arranged_logs.dom().map(|variant: u64| arranged_logs[variant]);
    arranged_logs.dom().lemma_map_finite(|variant: u64| arranged_logs[variant]);
    assert forall|id: u64| #[trigger] ids.contains(id) <==> exists|variant: u64| #[trigger]
        arranged_logs.contains_key(variant) && arranged_logs[variant] == id by {}
    lemma_logs_balance(empty, ids);
    assert(with_each(empty.collections, ids, CollectionModel::created_log())
        =~= created.collections);
}

/// Reports that are taken in leave the collections, their dependencies and their read
/// capabilities as they were.
pub proof fn lemma_absorbing_keeps<L: FrontierLogic>(
    start: UpperUpdate<L>,
    replica: u64,
    uppers: Seq<(u64, Frontier)>,
)
    requires
        forall|i: int|
            0 <= i < uppers.len() ==> start.collections.contains_key((#[trigger] uppers[i]).0),
    ensures
        start.absorb_all(replica, uppers).collections.dom() == start.collections.dom(),
        forall|id: u64| #[trigger]
            start.collections.contains_key(id) ==> {
                let after = start.absorb_all(replica, uppers).collections[id];
                &&& after.compute_dependencies == start.collections[id].compute_dependencies
                &&& after.storage_dependencies == start.collections[id].storage_dependencies
                &&& after.log_collection == start.collections[id].log_collection
                &&& after.read_capabilities == start.collections[id].read_capabilities
            },
    decreases uppers.len(),
{
    if uppers.len() > 0 {
        let front = uppers.drop_last();
        assert forall|i: int| 0 <= i < front.len() implies start.collections.contains_key(
            (#[trigger] front[i]).0,
        ) by {
            assert(front[i] == uppers[i]);
        }
        lemma_absorbing_keeps(start, replica, front);
        let last = uppers[uppers.len() - 1];
        assert(start.collections.contains_key(last.0));
        assert(start.absorb_all(replica, uppers).collections.dom() =~= start.collections.dom());
    }
}

/// Taking in write frontiers adds no collection, and changes neither what a collection depends
/// on, nor the pending peeks, nor the replicas.
pub proof fn law_uppers_add_nothing<P, L: FrontierLogic>(
    state: InstanceModel<P, L>,
    storage_ids: Set<u64>,
    replica: u64,
    uppers: Seq<(u64, Frontier)>,
)
    requires
        state.tracks(uppers),
    ensures
        ({
            let after = state.update_write_frontiers(storage_ids, replica, uppers);
            &&& forall|id: u64| #[trigger]
                after.collections.contains_key(id) ==> {
                    &&& state.collections.contains_key(id)
                    &&& after.collections[id].compute_dependencies
                        == state.collections[id].compute_dependencies
                    &&& after.collections[id].storage_dependencies
                        == state.collections[id].storage_dependencies
                    &&& after.collections[id].log_collection == state.collections[id].log_collection
                }
            &&& after.peeks == state.peeks
            &&& after.replicas == state.replicas
            &&& after.replica_epochs == state.replica_epochs
            &&& after.failed_replicas == state.failed_replicas
            &&& after.ready_responses == state.ready_responses
            &&& after.subscribes == state.subscribes
        }),
{
    let start = state.absorbed(replica, Seq::empty());
    lemma_absorbing_keeps(start, replica, uppers);
    let update = state.absorbed(replica, uppers);
    let absorbed = InstanceModel { collections: update.collections, spent: update.spent, ..state };
    law_capabilities_change_alone(absorbed, storage_ids, update.capabilities);
}

/// Whether nobody holds a read capability on the logs that a replica writes to storage but their
/// own policies, and these logs depend on nothing.
pub open spec fn logs_unclaimed<P, L>(
    state: InstanceModel<P, L>,
    logging_config: LoggingModel<P>,
) -> bool {
    &&& logging_config.sink_logs.dom().finite()
    &&& forall|id: u64| #[trigger]
        logging_config.sink_log_ids().contains(id) ==> {
            &&& unclaimed(state, id)
            &&& state.collections.contains_key(id)
                ==> state.collections[id].compute_dependencies.len() == 0
        }
}

/// Finitely many logs are written to finitely many collections.
pub proof fn lemma_logs_finite<P>(logging_config: LoggingModel<P>)
    requires
        logging_config.sink_logs.dom().finite(),
    ensures
        logging_config.sink_log_ids().finite(),
{
    let ids = logging_config.sink_log_ids();
    let to_id = |variant: u64| logging_config.sink_logs[variant].0;
    logging_config.sink_logs.dom().lemma_map_finite(to_id);
    assert forall|id: u64| #[trigger] ids.contains(id) implies logging_config.sink_logs.dom().map(
        to_id,
    ).contains(id) by {
        let variant = choose|variant: u64| #[trigger]
            logging_config.sink_logs.contains_key(variant)
                && logging_config.sink_logs[variant].0 == id;
        assert(logging_config.sink_logs.dom().contains(variant) && to_id(variant) == id);
    }
    vstd::set_lib::lemma_set_subset_finite(logging_config.sink_logs.dom().map(to_id), ids);
}

/// Finitely many collections are tracked when the logs of a replica were added.
pub proof fn lemma_logged_finite<P, L: FrontierLogic>(
    state: InstanceModel<P, L>,
    logging_config: LoggingModel<P>,
)
    requires
        state.collections.dom().finite(),
        logging_config.sink_logs.dom().finite(),
    ensures
        state.with_logs(logging_config).collections.dom().finite(),
{
    lemma_logs_finite(logging_config);
    assert(state.with_logs(logging_config).collections.dom() =~= state.collections.dom().union(
        logging_config.sink_log_ids(),
    ));
}

/// Adding a replica whose logs nobody reads yet keeps the accounts balanced.
pub proof fn law_adding_replica_balances<P, L: FrontierLogic>(
    state: InstanceModel<P, L>,
    storage_ids: Set<u64>,
    id: u64,
    location: Arc<ComputeReplicaLocation<P>>,
    logging_config: LoggingModel<P>,
)
    requires
        balanced(state),
        logs_unclaimed(state, logging_config),
    ensures
        balanced(state.add_replica(storage_ids, id, location, logging_config)),
        advances(
            state.collections,
            state.add_replica(storage_ids, id, location, logging_config).collections,
            logging_config.sink_log_ids(),
        ),
{
    let ids = logging_config.sink_log_ids();
    lemma_logs_finite(logging_config);
    lemma_logs_balance(state, ids);
    let logged = state.with_logs(logging_config);
    let uppers = logged.initial_uppers(logged.complete_logging(logging_config));
    lemma_initial_uppers(logged, logged.complete_logging(logging_config));
    law_uppers_balance(logged, storage_ids, id, uppers);
    let after = state.add_replica(storage_ids, id, location, logging_config);
    assert(advances(logged.collections, after.collections, ids));
    lemma_advances_twice(state.collections, logged.collections, after.collections, ids);
}

/// Removing all that is tracked of a replica keeps the accounts balanced.
pub proof fn law_removing_replica_state_balances<P, L: FrontierLogic>(
    state: InstanceModel<P, L>,
    id: u64,
)
    requires
        balanced(state),
    ensures
        balanced(state.remove_replica_state(id)),
        advances(
            state.collections,
            state.remove_replica_state(id).collections,
            Set::empty(),
        ),
{
    law_forgetting_uppers_balances(state, id);
}

/// Removing a replica keeps the accounts balanced.
pub proof fn law_removing_replica_balances<P, L: FrontierLogic>(
    state: InstanceModel<P, L>,
    storage_ids: Set<u64>,
    id: u64,
)
    requires
        balanced(state),
    ensures
        balanced(state.remove_replica(storage_ids, id)),
        advances(
            state.collections,
            state.remove_replica(storage_ids, id).collections,
            Set::empty(),
        ),
{
    let unanswered = state.peeks_targeting(id);
    vstd::set_lib::lemma_set_subset_finite(state.peeks.dom(), unanswered);
    let answered = state.give_replica_up(id);
    law_removing_peeks_balances(answered, storage_ids, unanswered);
    let removed = answered.remove_peeks(storage_ids, unanswered);
    law_removing_replica_state_balances(removed, id);
    lemma_advances_twice(
        state.collections,
        removed.collections,
        removed.remove_replica_state(id).collections,
        Set::empty(),
    );
}

/// The least time of an antichain's counts is the antichain itself.
pub proof fn lemma_lower_of_antichain(frontier: Frontier)
    requires
        is_antichain(frontier),
    ensures
        frontier.len() <= 1,
        lower(frontier_counts(frontier)) == frontier,
{
    if frontier.len() >= 2 {
        assert(!(frontier[0] <= frontier[1]));
        assert(!(frontier[1] <= frontier[0]));
    }
    let counts = frontier_counts(frontier);
    if frontier.len() == 0 {
        assert forall|time: u64| !is_least(counts, time) by {
            assert(counts(time) == 0);
        }
        assert(lower(counts) =~= frontier);
    } else {
        let first = frontier[0];
        reveal_with_fuel(occurrences, 2);
        assert(is_least(counts, first));
        let least = choose|time: u64| is_least(counts, time);
        assert(counts(least) > 0);
        assert(lower(counts) =~= frontier);
    }
}

/// An increasing list holds nothing twice.
pub proof fn lemma_occurs_once(list: Seq<u64>, id: u64)
    requires
        increasing(list),
    ensures
        occurrences(list, id) == if list.contains(id) {
            1int
        } else {
            0int
        },
    decreases list.len(),
{
    lemma_occurrences(list, id);
    if list.len() > 0 {
        let front = list.drop_last();
        assert(increasing(front));
        lemma_occurs_once(front, id);
        if list.last() == id {
            assert(!front.contains(id)) by {
                if front.contains(id) {
                    let i = choose|i: int| 0 <= i < front.len() && front[i] == id;
                    assert(list[i] < list[list.len() - 1]);
                }
            }
        }
    }
}

/// Whether no two outputs of a dataflow share a name.
pub open spec fn outputs_differ<P>(dataflow: DataflowModel<P, ()>) -> bool {
    &&& dataflow.index_exports.dom().finite()
    &&& dataflow.sink_exports.dom().finite()
    &&& dataflow.index_exports.dom().disjoint(dataflow.sink_exports.dom())
}

/// Whether what a dataflow maintains is new: no collection has one of the names, and no two
/// outputs share a name.
pub open spec fn exports_are_new<P, L>(
    state: InstanceModel<P, L>,
    dataflow: DataflowModel<P, ()>,
) -> bool {
    &&& outputs_differ(dataflow)
    &&& forall|id: u64| #[trigger]
        dataflow.export_ids().contains(id) ==> !state.collections.contains_key(id)
}

/// Whether no collection depends on what a dataflow maintains.
pub open spec fn exports_are_unread<P, L>(
    state: InstanceModel<P, L>,
    dataflow: DataflowModel<P, ()>,
) -> bool {
    forall|reader: u64, i: int|
        state.collections.contains_key(reader) && 0 <= i
            < state.collections[reader].compute_dependencies.len()
            ==> !dataflow.export_ids().contains(
            #[trigger] state.collections[reader].compute_dependencies[i],
        )
}

/// The outputs of a dataflow have different names, as many as there are outputs.
pub proof fn lemma_exports_differ<P>(dataflow: DataflowModel<P, ()>, as_of: Frontier)
    requires
        outputs_differ(dataflow),
    ensures
        dataflow.export_ids().len() == dataflow.outputs(),
        dataflow.export_ids().to_set().finite(),
        dataflow.export_ids().to_set().len() == dataflow.outputs(),
        distinct(dataflow.export_ids().map_values(|id: u64| (id, as_of))),
{
    let indexes = sorted_ids(dataflow.index_exports.dom());
    let sinks = sorted_ids(dataflow.sink_exports.dom());
    let exports = dataflow.export_ids();
    lemma_sorted_ids(dataflow.index_exports.dom());
    lemma_sorted_ids(dataflow.sink_exports.dom());
    assert forall|i: int, j: int| 0 <= i < j < exports.len() implies #[trigger] exports[i]
        != #[trigger] exports[j] by {
        if j < indexes.len() {
            assert(indexes[i] < indexes[j]);
        } else if i >= indexes.len() {
            assert(sinks[i - indexes.len()] < sinks[j - indexes.len()]);
        } else {
            assert(indexes.contains(indexes[i]));
            assert(sinks.contains(sinks[j - indexes.len()]));
        }
    }
    assert(exports.no_duplicates());
    exports.unique_seq_to_set();
    let uppers = exports.map_values(|id: u64| (id, as_of));
    assert forall|i: int, j: int| 0 <= i < j < uppers.len() implies (#[trigger] uppers[i]).0
        != (#[trigger] uppers[j]).0 by {
        assert(exports[i] != exports[j]);
    }
}

/// Outputs that no collection depends on bring no cycle about.
pub proof fn law_new_exports_stay_acyclic<P, L: FrontierLogic>(
    state: InstanceModel<P, L>,
    storage: Map<u64, crate::storage::StorageCollectionModel<P>>,
    dataflow: DataflowModel<P, ()>,
)
    requires
        acyclic(dependencies(state.collections)),
        dataflow.index_imports.dom().finite(),
        state.import_error(storage, dataflow) is None,
        exports_are_new(state, dataflow),
        exports_are_unread(state, dataflow),
    ensures
        acyclic(
            dependencies(state.with_exports(storage.dom(), dataflow).collections),
        ),
{
    let rank = choose|rank: spec_fn(u64) -> nat| ranked(dependencies(state.collections), rank);
    let imports = dataflow.index_imports.dom();
    let exports = dataflow.export_ids();
    let term = |id: u64| rank(id) as int;
    lemma_sum_bounds(imports, term);
    let top = (1 + sum_over(imports, term)) as nat;
    let above = |id: u64|
        if exports.contains(id) {
            top
        } else {
            rank(id)
        };
    lemma_imports_exist(state, storage, dataflow);
    lemma_sorted_ids(imports);
    lemma_exports_keep(state, storage.dom(), dataflow);
    let after = dependencies(state.with_exports(storage.dom(), dataflow).collections);
    assert forall|id: u64, i: int|
        after.contains_key(id) && 0 <= i < after[id].len() implies above(#[trigger] after[id][i])
        < above(id) by {
        if exports.contains(id) {
            let list = sorted_ids(imports);
            assert(after[id] == list);
            assert(list.contains(list[i]));
            assert(imports.contains(list[i]));
            assert(sum_over(imports, term) >= term(list[i]));
            assert(!exports.contains(list[i]));
        } else {
            assert(state.collections.contains_key(id));
            assert(dependencies(state.collections)[id][i] == after[id][i]);
            assert(!exports.contains(state.collections[id].compute_dependencies[i]));
        }
    }
    assert(ranked(after, above));
}

/// Where the accounts are balanced, new outputs that are of use at some time bring no cycle
/// about, though a collection that is no longer readable may still name one of them.
pub proof fn law_useful_exports_stay_acyclic<P, L: FrontierLogic>(
    state: InstanceModel<P, L>,
    storage: Map<u64, crate::storage::StorageCollectionModel<P>>,
    dataflow: DataflowModel<P, ()>,
)
    requires
        balanced(state),
        dataflow.index_imports.dom().finite(),
        state.import_error(storage, dataflow) is None,
        dataflow.as_of->0.len() > 0,
        exports_are_new(state, dataflow),
    ensures
        acyclic(
            dependencies(state.with_exports(storage.dom(), dataflow).collections),
        ),
{
    let collections = state.collections;
    let rank = choose|rank: spec_fn(u64) -> nat| ranked(dependencies(collections), rank);
    let imports = dataflow.index_imports.dom();
    let exports = dataflow.export_ids();
    let list = sorted_ids(imports);
    let as_of = dataflow.as_of->0;
    let term = |id: u64| rank(id) as int;
    lemma_sum_bounds(imports, term);
    let top = (1 + sum_over(imports, term)) as nat;
    // The outputs rank above what they read, and what is no longer readable above the outputs.
    let above = |id: u64|
        if exports.contains(id) {
            top
        } else if collections.contains_key(id) && collections[id].read_frontier().len() == 0 {
            rank(id) + top + 1
        } else {
            rank(id)
        };
    law_balanced_is_readable(state);
    lemma_imports_exist(state, storage, dataflow);
    lemma_sorted_ids(imports);
    lemma_no_first_error(list, index_error(collections, as_of));
    lemma_exports_keep(state, storage.dom(), dataflow);
    let after = dependencies(state.with_exports(storage.dom(), dataflow).collections);
    assert forall|id: u64, i: int|
        after.contains_key(id) && 0 <= i < after[id].len() implies above(#[trigger] after[id][i])
        < above(id) by {
        if exports.contains(id) {
            assert(after[id] == list);
            assert(list.contains(list[i]));
            assert(imports.contains(list[i]));
            assert(dataflow.index_imports.contains_key(list[i]));
            assert(sum_over(imports, term) >= term(list[i]));
            assert(index_error(collections, as_of)(list[i]) is None);
            assert(reaches(collections[list[i]].read_frontier(), as_of[0]));
        } else {
            let below = collections[id].compute_dependencies[i];
            assert(collections.contains_key(id));
            assert(dependencies(collections)[id][i] == after[id][i]);
            assert(rank(below) < rank(id));
            if collections[id].read_frontier().len() > 0 {
                assert(collections.contains_key(collections[id].compute_dependencies[i]));
                assert(collections[id].compute_dependencies.contains(below));
                let upper = collections[id].read_frontier();
                assert(collections.contains_key(id) && collections.contains_key(below));
                assert(frontier_le(collections[below].read_frontier(), upper));
                assert(reaches(collections[below].read_frontier(), upper[0]));
            }
        }
    }
    assert(ranked(after, above));
}

/// The indexes that a dataflow reads exist.
pub proof fn lemma_imports_exist<P, L: FrontierLogic>(
    state: InstanceModel<P, L>,
    storage: Map<u64, crate::storage::StorageCollectionModel<P>>,
    dataflow: DataflowModel<P, ()>,
)
    requires
        dataflow.index_imports.dom().finite(),
        state.import_error(storage, dataflow) is None,
    ensures
        forall|id: u64| #[trigger]
            dataflow.index_imports.contains_key(id) ==> state.collections.contains_key(id),
{
    let list = sorted_ids(dataflow.index_imports.dom());
    lemma_sorted_ids(dataflow.index_imports.dom());
    lemma_no_first_error(list, index_error(state.collections, dataflow.as_of->0));
    assert forall|id: u64| #[trigger]
        dataflow.index_imports.contains_key(id) implies state.collections.contains_key(id) by {
        assert(list.contains(id));
        let i = choose|i: int| 0 <= i < list.len() && list[i] == id;
        assert(index_error(state.collections, dataflow.as_of->0)(list[i]) is None);
    }
}

/// A dataflow that is tracked adds its outputs, and changes nothing of the other collections but
/// their read capabilities.
pub proof fn lemma_exports_keep<P, L: FrontierLogic>(
    state: InstanceModel<P, L>,
    storage_ids: Set<u64>,
    dataflow: DataflowModel<P, ()>,
)
    ensures
        ({
            let after = state.with_exports(storage_ids, dataflow);
            &&& after.peeks == state.peeks
            &&& after.replicas == state.replicas
            &&& forall|id: u64| #[trigger]
                after.collections.contains_key(id) ==> if dataflow.export_ids().contains(id) {
                    after.collections[id] == CollectionModel::<L>::created(
                        dataflow.as_of->0,
                        sorted_ids(dataflow.source_imports.dom()),
                        sorted_ids(dataflow.index_imports.dom()),
                    )
                } else {
                    state.collections.contains_key(id)
                        && after.collections[id].compute_dependencies
                        == state.collections[id].compute_dependencies
                }
            &&& forall|id: u64| #[trigger]
                dataflow.export_ids().contains(id) ==> after.collections.contains_key(id)
        }),
{
    let start = state.with_sources_held(dataflow);
    let updates = same_for_all(dataflow.index_imports.dom(), dataflow.hold());
    law_capabilities_change_alone(start, storage_ids, updates);
    assert forall|id: u64| #[trigger] dataflow.export_ids().contains(id) implies state.with_exports(
        storage_ids,
        dataflow,
    ).collections.contains_key(id) by {
        assert(dataflow.export_ids().to_set().contains(id));
    }
}

/// What is held other than by readers once the outputs of a dataflow are provided for: they hold
/// their `as_of` on each index that the dataflow reads.
pub open spec fn held_with_exports<P, L>(
    state: InstanceModel<P, L>,
    dataflow: DataflowModel<P, ()>,
) -> spec_fn(u64, u64) -> int {
    |id: u64, time: u64|
        held_directly(state.collections, state.peeks)(id, time)
            + dataflow.export_ids().to_set().len() * (occurrences(
            sorted_ids(dataflow.index_imports.dom()),
            id,
        ) * occurrences(dataflow.as_of->0, time))
}

/// The changes that go with a dataflow make up for what its outputs hold.
pub proof fn lemma_exports_make_up<P, L: FrontierLogic>(
    state: InstanceModel<P, L>,
    storage: Map<u64, crate::storage::StorageCollectionModel<P>>,
    dataflow: DataflowModel<P, ()>,
)
    requires
        balanced(state),
        dataflow.index_imports.dom().finite(),
        state.import_error(storage, dataflow) is None,
        exports_are_new(state, dataflow),
    ensures
        ({
            let updates = same_for_all(dataflow.index_imports.dom(), dataflow.hold());
            let provided = held_with_exports(state, dataflow);
            &&& updates.dom().finite()
            &&& updates.dom().subset_of(state.collections.dom())
            &&& accounted_when_settled(state.collections, updates, provided)
            &&& forall|id: u64, time: u64| #[trigger] provided(id, time) >= 0
            &&& readable_directly(state.collections, provided)
        }),
{
    law_balanced_is_readable(state);
    lemma_direct_readable(state.collections, state.peeks);
    let as_of = dataflow.as_of->0;
    let indexes = sorted_ids(dataflow.index_imports.dom());
    let ids = dataflow.export_ids().to_set();
    let updates = same_for_all(dataflow.index_imports.dom(), dataflow.hold());
    let provided = held_with_exports(state, dataflow);
    lemma_exports_differ(dataflow, as_of);
    lemma_sorted_ids(dataflow.index_imports.dom());
    lemma_imports_exist(state, storage, dataflow);
    assert(updates.dom() =~= dataflow.index_imports.dom());
    assert forall|id: u64, time: u64|
        state.collections.contains_key(id) implies #[trigger] capabilities_at(
        state.collections,
        id,
        time,
    ) + recorded(updates, id)(time) == provided(id, time) + held_by_readers(
        state.collections,
        id,
        time,
    ) by {
        lemma_occurs_once(indexes, id);
        let n = ids.len() as int;
        let x = occurrences(as_of, time);
        assert(n * (1 * x) == n * x && n * (0 * x) == 0) by (nonlinear_arith);
        assert(capabilities_at(state.collections, id, time) == held_directly(
            state.collections,
            state.peeks,
        )(id, time) + held_by_readers(state.collections, id, time));
        assert(indexes.contains(id) <==> dataflow.index_imports.contains_key(id));
    }
    assert forall|id: u64, time: u64| #[trigger] provided(id, time) >= 0 by {
        lemma_occurs_once(indexes, id);
        lemma_occurrences(as_of, time);
        let n = ids.len() as int;
        let x = occurrences(as_of, time);
        assert(n * (1 * x) >= 0 && n * (0 * x) == 0) by (nonlinear_arith)
            requires
                n >= 0,
                x >= 0,
        ;
        assert(held_directly(state.collections, state.peeks)(id, time) >= 0);
    }
    assert forall|id: u64, time: u64|
        state.collections.contains_key(id) && #[trigger] provided(id, time) > 0 implies reaches(
        state.collections[id].read_frontier(),
        time,
    ) by {
        if held_directly(state.collections, state.peeks)(id, time) <= 0 {
            lemma_occurs_once(indexes, id);
            lemma_occurrences(as_of, time);
            let n = ids.len() as int;
            let x = occurrences(as_of, time);
            assert(n * (0 * x) == 0 && (x == 0 ==> n * (1 * x) == 0)) by (nonlinear_arith);
            assert(indexes.contains(id) && as_of.contains(time));
            let i = choose|i: int| 0 <= i < indexes.len() && indexes[i] == id;
            lemma_no_first_error(indexes, index_error(state.collections, as_of));
            assert(index_error(state.collections, as_of)(indexes[i]) is None);
            let j = choose|j: int| 0 <= j < as_of.len() && as_of[j] == time;
            assert(reaches(state.collections[id].read_frontier(), as_of[j]));
        }
    }
    assert forall|id: u64| updates.dom().contains(id) implies state.collections.dom().contains(
        id,
    ) by {
        assert(dataflow.index_imports.contains_key(id));
    }
}

/// The outputs of a dataflow hold what was provided for them.
pub proof fn lemma_exports_balance<P, L: FrontierLogic>(
    state: InstanceModel<P, L>,
    storage: Map<u64, crate::storage::StorageCollectionModel<P>>,
    dataflow: DataflowModel<P, ()>,
)
    requires
        balanced(state),
        dataflow.index_imports.dom().finite(),
        state.import_error(storage, dataflow) is None,
        is_antichain(dataflow.as_of->0),
        exports_are_new(state, dataflow),
        acyclic(dependencies(state.with_exports(storage.dom(), dataflow).collections)),
    ensures
        balanced(state.with_exports(storage.dom(), dataflow)),
        advances(
            state.collections,
            state.with_exports(storage.dom(), dataflow).collections,
            Set::empty(),
        ),
{
    law_balanced_is_readable(state);
    lemma_direct_readable(state.collections, state.peeks);
    let as_of = dataflow.as_of->0;
    let sources = sorted_ids(dataflow.source_imports.dom());
    let indexes = sorted_ids(dataflow.index_imports.dom());
    let created = CollectionModel::<L>::created(as_of, sources, indexes);
    let ids = dataflow.export_ids().to_set();
    let updates = same_for_all(dataflow.index_imports.dom(), dataflow.hold());
    let start = state.with_sources_held(dataflow);
    let provided = held_with_exports(state, dataflow);
    lemma_exports_differ(dataflow, as_of);
    lemma_lower_of_antichain(as_of);
    lemma_sorted_ids(dataflow.index_imports.dom());
    lemma_imports_exist(state, storage, dataflow);
    lemma_exports_make_up(state, storage, dataflow);
    lemma_settling_balances(start, storage.dom(), updates, provided);
    law_capabilities_change_alone(start, storage.dom(), updates);
    let held = start.update_read_capabilities(storage.dom(), updates);
    let provided_then = |id: u64, time: u64|
        held_directly(held.collections, held.peeks)(id, time) + ids.len() * (occurrences(
            created.compute_dependencies,
            id,
        ) * occurrences(created.read_frontier(), time));
    assert forall|id: u64, time: u64|
        held.collections.contains_key(id) implies #[trigger] capabilities_at(
        held.collections,
        id,
        time,
    ) + recorded(Map::<u64, Counts>::empty(), id)(time) == provided_then(id, time)
        + held_by_readers(held.collections, id, time) by {
        assert(capabilities_at(held.collections, id, time) + recorded(
            Map::<u64, Counts>::empty(),
            id,
        )(time) == provided(id, time) + held_by_readers(
            held.collections,
            id,
            time,
        ));
        assert(state.collections.contains_key(id));
    }
    assert(can_add(held, ids, created)) by {
        assert forall|id: u64| #[trigger] ids.contains(id) implies unclaimed(held, id)
            && !created.compute_dependencies.contains(id) by {
            assert(dataflow.export_ids().contains(id));
            lemma_gone_is_unclaimed(state, id);
            assert forall|reader: u64| #[trigger]
                held.collections.contains_key(reader) && held.collections[
                    reader
                ].read_frontier().len() > 0 implies !held.collections[
                reader
            ].compute_dependencies.contains(id) by {
                assert(state.collections.contains_key(reader));
                lemma_still_readable(start.collections, held.collections, reader);
            }
            assert(!indexes.contains(id)) by {
                if indexes.contains(id) {
                    assert(dataflow.index_imports.contains_key(id));
                }
            }
        }
        assert forall|id: u64| #[trigger]
            ids.contains(id) && held.collections.contains_key(id) implies held.collections[
            id
        ].compute_dependencies.len() == 0 by {
            assert(dataflow.export_ids().contains(id));
        }
    }
    lemma_adding_balances(held, ids, created);
    let exported = state.with_exports(storage.dom(), dataflow).collections;
    assert forall|uuid: u128| #[trigger]
        state.peeks.contains_key(uuid) implies exported.contains_key(state.peeks[uuid].target) by {
        let id = state.peeks[uuid].target;
        let time = state.peeks[uuid].time;
        lemma_occurrences(state.collections[id].implied_capability, time);
        lemma_peeks_hold(state.peeks, id, time);
        lemma_occurs_once(indexes, id);
        lemma_occurrences(as_of, time);
        let n = ids.len() as int;
        let x = occurrences(as_of, time);
        assert(n * (1 * x) >= 0 && n * (0 * x) == 0) by (nonlinear_arith)
            requires
                n >= 0,
                x >= 0,
        ;
        assert(provided(id, time) > 0);
    }
    assert forall|reader: u64, i: int|
        exported.contains_key(reader) && exported[reader].read_frontier().len() > 0 && 0 <= i
            < exported[reader].compute_dependencies.len() implies exported.contains_key(
        #[trigger] exported[reader].compute_dependencies[i],
    ) by {
        if ids.contains(reader) {
            let id = indexes[i];
            let time = as_of[0];
            assert(indexes.contains(id));
            assert(dataflow.index_imports.contains_key(id));
            lemma_occurs_once(indexes, id);
            lemma_occurrences(as_of, time);
            assert(as_of.contains(time));
            assert(held_directly(state.collections, state.peeks)(id, time) >= 0);
            assert(ids.len() > 0) by {
                if ids.len() == 0 {
                    assert(ids =~= Set::empty());
                }
            }
            let n = ids.len() as int;
            let x = occurrences(as_of, time);
            assert(n * (1 * x) > 0) by (nonlinear_arith)
                requires
                    n > 0,
                    x > 0,
            ;
            assert(provided(id, time) > 0);
            assert(state.collections.contains_key(id));
        } else {
            assert(held.collections.contains_key(reader));
            assert(held.collections.contains_key(held.collections[reader].compute_dependencies[i]));
        }
    }
    assert forall|id: u64| #[trigger]
        exported.contains_key(id) && state.collections.contains_key(id) implies frontier_le(
        state.collections[id].read_frontier(),
        exported[id].read_frontier(),
    ) by {
        assert(!ids.contains(id)) by {
            if ids.contains(id) {
                assert(dataflow.export_ids().contains(id));
            }
        }
        assert(held.collections.contains_key(id));
    }
}

/// Starting with replicas keeps the accounts balanced.
pub proof fn lemma_replicas_balance<P, L: FrontierLogic>(
    state: InstanceModel<P, L>,
    storage_ids: Set<u64>,
    replicas: Seq<u64>,
    ids: Seq<u64>,
    as_of: Frontier,
)
    requires
        balanced(state),
        has_fresh(state, ids, as_of),
        distinct(ids.map_values(|id: u64| (id, as_of))),
        as_of.len() > 0 || ids.len() == 0 || replicas.len() <= 1,
    ensures
        balanced(
            state.update_on_replicas(
                storage_ids,
                replicas,
                ids.map_values(|id: u64| (id, as_of)),
            ),
        ),
        advances(
            state.collections,
            state.update_on_replicas(
                storage_ids,
                replicas,
                ids.map_values(|id: u64| (id, as_of)),
            ).collections,
            Set::empty(),
        ),
        state.update_on_replicas(
            storage_ids,
            replicas,
            ids.map_values(|id: u64| (id, as_of)),
        ).collections.dom().subset_of(state.collections.dom()),
    decreases replicas.len(),
{
    if replicas.len() > 0 {
        let uppers = ids.map_values(|id: u64| (id, as_of));
        let before = state.update_on_replicas(storage_ids, replicas.drop_last(), uppers);
        lemma_replicas_balance(state, storage_ids, replicas.drop_last(), ids, as_of);
        lemma_fresh_on_replicas(state, storage_ids, replicas.drop_last(), ids, as_of);
        lemma_fresh_uppers(before, storage_ids, replicas.last(), ids, as_of);
        law_uppers_balance(before, storage_ids, replicas.last(), uppers);
        law_uppers_add_nothing(before, storage_ids, replicas.last(), uppers);
        lemma_advances_twice(
            state.collections,
            before.collections,
            state.update_on_replicas(storage_ids, replicas, uppers).collections,
            Set::empty(),
        );
    } else {
        assert forall|id: u64| #[trigger] state.collections.contains_key(id) implies frontier_le(
            state.collections[id].read_frontier(),
            state.collections[id].read_frontier(),
        ) by {
            lemma_le_reflexive(state.collections[id].read_frontier());
        }
    }
}

/// Tracking a dataflow with new outputs keeps the accounts balanced.
pub proof fn law_installing_balances<P, L: FrontierLogic>(
    state: InstanceModel<P, L>,
    storage: Map<u64, crate::storage::StorageCollectionModel<P>>,
    dataflow: DataflowModel<P, ()>,
)
    requires
        balanced(state),
        state.replicas.dom().finite(),
        dataflow.index_imports.dom().finite(),
        state.import_error(storage, dataflow) is None,
        state.takes_dataflow(storage.dom(), dataflow),
        is_antichain(dataflow.as_of->0),
        exports_are_new(state, dataflow),
    ensures
        balanced(state.install(storage.dom(), dataflow)),
        advances(
            state.collections,
            state.install(storage.dom(), dataflow).collections,
            Set::empty(),
        ),
{
    let as_of = dataflow.as_of->0;
    let exported = state.with_exports(storage.dom(), dataflow);
    let exports = dataflow.export_ids();
    lemma_exports_balance(state, storage, dataflow);
    lemma_exports_keep(state, storage.dom(), dataflow);
    lemma_exports_differ(dataflow, as_of);
    lemma_sorted_ids(state.replicas.dom());
    assert(has_fresh(exported, exports, as_of)) by {
        assert forall|i: int| 0 <= i < exports.len() implies exported.collections.contains_key(
            #[trigger] exports[i],
        ) && is_fresh(exported.collections[exports[i]], as_of) by {
            assert(exports.contains(exports[i]));
        }
    }
    lemma_replicas_balance(
        exported,
        storage.dom(),
        sorted_ids(exported.replicas.dom()),
        exports,
        as_of,
    );
    lemma_advances_twice(
        state.collections,
        exported.collections,
        state.install(storage.dom(), dataflow).collections,
        Set::empty(),
    );
}

} // verus!
