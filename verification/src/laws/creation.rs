//! Creating dataflows goes in turn and moves no read frontier.
use vstd::prelude::*;

use super::balance::{balanced, law_balanced_is_readable};
use super::growth::{
    exports_are_new, lemma_absorbing_keeps, lemma_exports_keep, lemma_imports_exist,
};
use super::quiet::{
    closed_below, lemma_lower_kept, lemma_quiet, lemma_without_compaction_twice, moves_none,
    without_compaction,
};
use super::readable::readable_for_readers;
use super::requests::{each_is_new, lemma_installing_all_balances};
use crate::changes::{lemma_occurrences, occurrences};
use crate::collection::CollectionModel;
use crate::command::DataflowModel;
use crate::error::DataflowCreationError;
use crate::fresh::{has_fresh, is_fresh, lemma_fresh_on_replicas, lemma_fresh_uppers};
use crate::frontier::{frontier_le, reaches, Frontier};
use crate::model::{index_error, lemma_no_first_error, same_for_all, without_dropped, InstanceModel};
use crate::ordered::{lemma_sorted_ids, sorted_ids};
use crate::policy::FrontierLogic;
use crate::storage::StorageCollectionModel;

verus! {

/// Whether every collection is still there and readable from the same times on, and no replica
/// was allowed to forget anything.
pub open spec fn leaves_readable<P, L>(
    before: InstanceModel<P, L>,
    after: InstanceModel<P, L>,
) -> bool {
    &&& forall|id: u64| #[trigger]
        before.collections.contains_key(id) ==> after.collections.contains_key(id)
            && after.collections[id].read_frontier() == before.collections[id].read_frontier()
    &&& without_compaction(before.actions, after.actions)
}

/// What is left readable twice is left readable.
proof fn lemma_leaves_readable_twice<P, L>(
    first: InstanceModel<P, L>,
    second: InstanceModel<P, L>,
    third: InstanceModel<P, L>,
)
    requires
        leaves_readable(first, second),
        leaves_readable(second, third),
    ensures
        leaves_readable(first, third),
{
    lemma_without_compaction_twice(first.actions, second.actions, third.actions);
    assert forall|id: u64| #[trigger]
        first.collections.contains_key(id) implies third.collections.contains_key(id)
        && third.collections[id].read_frontier() == first.collections[id].read_frontier() by {
        assert(second.collections.contains_key(id));
    }
}

/// The identifiers of no collection that is not readable.
pub open spec fn live_ids<L>(collections: Map<u64, CollectionModel<L>>) -> Set<u64> {
    Set::new(
        |id: u64| collections.contains_key(id) ==> collections[id].read_frontier().len() > 0,
    )
}

/// What a readable collection depends on is readable.
pub proof fn lemma_live_closed<L>(collections: Map<u64, CollectionModel<L>>)
    requires
        readable_for_readers(collections),
    ensures
        closed_below(collections, live_ids(collections)),
{
    let live = live_ids(collections);
    assert forall|id: u64, i: int|
        live.contains(id) && collections.contains_key(id) && 0 <= i
            < collections[id].compute_dependencies.len() implies live.contains(
        #[trigger] collections[id].compute_dependencies[i],
    ) by {
        let list = collections[id].compute_dependencies;
        let below = list[i];
        if collections.contains_key(below) {
            assert(list.contains(below));
            let upper = collections[id].read_frontier();
            assert(collections.contains_key(id) && collections.contains_key(below));
            assert(frontier_le(collections[below].read_frontier(), upper));
            assert(reaches(collections[below].read_frontier(), upper[0]));
        }
    }
}

/// What the outputs of a dataflow hold on the indexes that it reads moves no read frontier.
pub proof fn lemma_holds_move_none<P, L: FrontierLogic>(
    state: InstanceModel<P, L>,
    storage: Map<u64, StorageCollectionModel<P>>,
    dataflow: DataflowModel<P, ()>,
)
    requires
        dataflow.index_imports.dom().finite(),
        state.import_error(storage, dataflow) is None,
    ensures
        ({
            let updates = same_for_all(dataflow.index_imports.dom(), dataflow.hold());
            &&& updates.dom() == dataflow.index_imports.dom()
            &&& moves_none(state.collections, updates)
            &&& dataflow.as_of->0.len() > 0 ==> updates.dom().subset_of(
                live_ids(state.collections),
            )
        }),
{
    let as_of = dataflow.as_of->0;
    let hold = dataflow.hold();
    let updates = same_for_all(dataflow.index_imports.dom(), hold);
    let list = sorted_ids(dataflow.index_imports.dom());
    assert(updates.dom() =~= dataflow.index_imports.dom());
    lemma_imports_exist(state, storage, dataflow);
    lemma_sorted_ids(dataflow.index_imports.dom());
    lemma_no_first_error(list, index_error(state.collections, as_of));
    assert forall|id: u64| #[trigger]
        updates.contains_key(id) implies state.collections.contains_key(id)
        && state.collections[id].with_changes(updates[id]).read_frontier()
        == state.collections[id].read_frontier() && (as_of.len() > 0
        ==> state.collections[id].read_frontier().len() > 0) by {
        assert(dataflow.index_imports.contains_key(id));
        assert(list.contains(id));
        let i = choose|i: int| 0 <= i < list.len() && list[i] == id;
        assert(index_error(state.collections, as_of)(list[i]) is None);
        let lower_bound = state.collections[id].read_frontier();
        let n = dataflow.outputs() as int;
        assert forall|time: u64| #[trigger] hold(time) >= 0 && (hold(time) > 0 ==> reaches(
            lower_bound,
            time,
        )) by {
            let x = occurrences(as_of, time);
            lemma_occurrences(as_of, time);
            assert(n * x >= 0 && (x == 0 ==> n * x == 0)) by (nonlinear_arith)
                requires
                    n >= 0,
                    x >= 0,
            ;
            if hold(time) > 0 {
                assert(as_of.contains(time));
                let j = choose|j: int| 0 <= j < as_of.len() && as_of[j] == time;
                assert(reaches(lower_bound, as_of[j]));
            }
        }
        lemma_lower_kept(state.collections[id].read_capabilities, hold);
        if as_of.len() > 0 {
            assert(reaches(lower_bound, as_of[0]));
        }
    }
}

/// Tracking the outputs of a dataflow leaves what is readable.
pub proof fn lemma_exports_leave_readable<P, L: FrontierLogic>(
    state: InstanceModel<P, L>,
    storage: Map<u64, StorageCollectionModel<P>>,
    dataflow: DataflowModel<P, ()>,
)
    requires
        balanced(state),
        dataflow.index_imports.dom().finite(),
        state.import_error(storage, dataflow) is None,
        dataflow.as_of->0.len() > 0,
        exports_are_new(state, dataflow),
    ensures
        leaves_readable(state, state.with_exports(storage.dom(), dataflow)),
{
    let updates = same_for_all(dataflow.index_imports.dom(), dataflow.hold());
    let start = state.with_sources_held(dataflow);
    let live = live_ids(state.collections);
    law_balanced_is_readable(state);
    lemma_live_closed(state.collections);
    lemma_holds_move_none(state, storage, dataflow);
    lemma_quiet(start, storage.dom(), updates, live);
    let held = start.update_read_capabilities(storage.dom(), updates);
    let after = state.with_exports(storage.dom(), dataflow);
    assert(without_compaction(state.actions, start.actions));
    lemma_without_compaction_twice(state.actions, start.actions, held.actions);
    assert forall|id: u64| #[trigger]
        state.collections.contains_key(id) implies after.collections.contains_key(id)
        && after.collections[id].read_frontier() == state.collections[id].read_frontier() by {
        assert(!dataflow.export_ids().contains(id));
        assert(held.collections.contains_key(id)) by {
            if !held.collections.contains_key(id) {
                assert(start.collections.contains_key(id));
                assert(live.contains(id));
            }
        }
        if updates.contains_key(id) {
            assert(held.collections[id] == state.collections[id].with_changes(updates[id]));
        }
    }
}

/// What a replica reports of new collections leaves what is readable.
proof fn lemma_fresh_reports_leave_readable<P, L: FrontierLogic>(
    state: InstanceModel<P, L>,
    storage_ids: Set<u64>,
    replica: u64,
    ids: Seq<u64>,
    as_of: Frontier,
)
    requires
        has_fresh(state, ids, as_of),
        as_of.len() > 0,
    ensures
        leaves_readable(
            state,
            state.update_write_frontiers(
                storage_ids,
                replica,
                ids.map_values(|id: u64| (id, as_of)),
            ),
        ),
{
    let uppers = ids.map_values(|id: u64| (id, as_of));
    let start = state.absorbed(replica, Seq::empty());
    let update = state.absorbed(replica, uppers);
    let after = state.update_write_frontiers(storage_ids, replica, uppers);
    assert(update == start.absorb_all(replica, uppers));
    lemma_fresh_uppers(state, storage_ids, replica, ids, as_of);
    lemma_absorbing_keeps(start, replica, uppers);
    assert(update.finished =~= Seq::empty());
    assert(without_dropped(update.collections, update.finished.to_set()) =~= update.collections);
    assert forall|id: u64| #[trigger]
        state.collections.contains_key(id) implies after.collections.contains_key(id)
        && after.collections[id].read_frontier() == state.collections[id].read_frontier() by {
        assert(start.collections.contains_key(id));
    }
}

/// What replicas report of new collections leaves what is readable.
proof fn lemma_replicas_leave_readable<P, L: FrontierLogic>(
    state: InstanceModel<P, L>,
    storage_ids: Set<u64>,
    replicas: Seq<u64>,
    ids: Seq<u64>,
    as_of: Frontier,
)
    requires
        has_fresh(state, ids, as_of),
        as_of.len() > 0,
    ensures
        leaves_readable(
            state,
            state.update_on_replicas(
                storage_ids,
                replicas,
                ids.map_values(|id: u64| (id, as_of)),
            ),
        ),
    decreases replicas.len(),
{
    if replicas.len() > 0 {
        let uppers = ids.map_values(|id: u64| (id, as_of));
        let before = state.update_on_replicas(storage_ids, replicas.drop_last(), uppers);
        lemma_replicas_leave_readable(state, storage_ids, replicas.drop_last(), ids, as_of);
        lemma_fresh_on_replicas(state, storage_ids, replicas.drop_last(), ids, as_of);
        lemma_fresh_reports_leave_readable(before, storage_ids, replicas.last(), ids, as_of);
        lemma_leaves_readable_twice(
            state,
            before,
            state.update_on_replicas(storage_ids, replicas, uppers),
        );
    }
}

/// Tracking a dataflow with new outputs, of use at some time, leaves every collection where it
/// is and readable from the same times on, and lets no replica forget anything.
pub proof fn law_installing_moves_nothing<P, L: FrontierLogic>(
    state: InstanceModel<P, L>,
    storage: Map<u64, StorageCollectionModel<P>>,
    dataflow: DataflowModel<P, ()>,
)
    requires
        balanced(state),
        dataflow.index_imports.dom().finite(),
        state.import_error(storage, dataflow) is None,
        dataflow.as_of->0.len() > 0,
        exports_are_new(state, dataflow),
    ensures
        leaves_readable(state, state.install(storage.dom(), dataflow)),
{
    let as_of = dataflow.as_of->0;
    let exports = dataflow.export_ids();
    let exported = state.with_exports(storage.dom(), dataflow);
    lemma_exports_leave_readable(state, storage, dataflow);
    lemma_exports_keep(state, storage.dom(), dataflow);
    assert(has_fresh(exported, exports, as_of)) by {
        assert forall|i: int| 0 <= i < exports.len() implies exported.collections.contains_key(
            #[trigger] exports[i],
        ) && is_fresh(exported.collections[exports[i]], as_of) by {
            assert(exports.contains(exports[i]));
        }
    }
    lemma_replicas_leave_readable(
        exported,
        storage.dom(),
        sorted_ids(exported.replicas.dom()),
        exports,
        as_of,
    );
    lemma_leaves_readable_twice(state, exported, state.install(storage.dom(), dataflow));
}

/// Tracking dataflows until one cannot be created leaves what is readable.
proof fn lemma_installing_all_moves_nothing<P, L: FrontierLogic>(
    state: InstanceModel<P, L>,
    storage: Seq<Map<u64, StorageCollectionModel<P>>>,
    dataflows: Seq<DataflowModel<P, ()>>,
)
    requires
        balanced(state),
        state.replicas.dom().finite(),
        state.takes_dataflows(storage, dataflows),
        each_is_new(state, storage, dataflows),
        forall|i: int|
            0 <= i < dataflows.len() && (#[trigger] dataflows[i]).as_of is Some
                ==> dataflows[i].as_of->0.len() > 0,
    ensures
        leaves_readable(state, state.install_all(storage, dataflows).0),
    decreases dataflows.len(),
{
    if dataflows.len() > 0 {
        let front = dataflows.drop_last();
        assert forall|i: int|
            0 <= i < front.len() && (#[trigger] front[i]).as_of is Some implies front[
            i
        ].as_of->0.len() > 0 by {
            assert(front[i] == dataflows[i]);
        }
        lemma_installing_all_moves_nothing(state, storage, front);
        lemma_installing_all_balances(state, storage, front);
        let (before, error) = state.install_all(storage, front);
        let last = dataflows[dataflows.len() - 1];
        let known = storage[dataflows.len() - 1];
        if error is None && before.import_error(known, last) is None {
            law_installing_moves_nothing(before, known, last);
            lemma_leaves_readable_twice(state, before, before.install(known.dom(), last));
        }
    }
}

/// Creating dataflows with new outputs, each of use at some time, leaves every collection where
/// it is and readable from the same times on, and lets no replica forget anything, whether all
/// of the dataflows can be created or not.
pub proof fn law_creating_dataflows_moves_nothing<P, L: FrontierLogic>(
    state: InstanceModel<P, L>,
    storage: Seq<Map<u64, StorageCollectionModel<P>>>,
    dataflows: Seq<DataflowModel<P, ()>>,
)
    requires
        balanced(state),
        state.replicas.dom().finite(),
        state.takes_dataflows(storage, dataflows),
        each_is_new(state, storage, dataflows),
        forall|i: int|
            0 <= i < dataflows.len() && (#[trigger] dataflows[i]).as_of is Some
                ==> dataflows[i].as_of->0.len() > 0,
    ensures
        leaves_readable(state, state.create_dataflows(storage, dataflows).0),
{
    lemma_installing_all_moves_nothing(state, storage, dataflows);
    let installed = state.install_all(storage, dataflows).0;
    let after = state.create_dataflows(storage, dataflows).0;
    if after != installed {
        assert(without_compaction(installed.actions, after.actions));
        lemma_leaves_readable_twice(state, installed, after);
    }
}

/// What becomes of an instance that tracks dataflows in turn, and why it stops where it does:
/// the first dataflow is refused or tracked by what storage knows now, then come the others, by
/// what storage knows later.
pub open spec fn tracked_in_turn<P, L: FrontierLogic>(
    state: InstanceModel<P, L>,
    storage: Seq<Map<u64, StorageCollectionModel<P>>>,
    dataflows: Seq<DataflowModel<P, ()>>,
) -> (InstanceModel<P, L>, Option<DataflowCreationError>)
    decreases dataflows.len(),
{
    if dataflows.len() == 0 {
        (state, None)
    } else {
        match state.import_error(storage[0], dataflows[0]) {
            Some(error) => (state, Some(error)),
            None => tracked_in_turn(
                state.install(storage[0].dom(), dataflows[0]),
                storage.drop_first(),
                dataflows.drop_first(),
            ),
        }
    }
}

/// Tracking dataflows until one cannot be created is tracking the first, and then the others.
proof fn lemma_tracked_in_turn<P, L: FrontierLogic>(
    state: InstanceModel<P, L>,
    storage: Seq<Map<u64, StorageCollectionModel<P>>>,
    dataflows: Seq<DataflowModel<P, ()>>,
)
    requires
        storage.len() > dataflows.len(),
    ensures
        state.install_all(storage, dataflows) == tracked_in_turn(state, storage, dataflows),
    decreases dataflows.len(),
{
    if dataflows.len() > 0 {
        let first = dataflows[0];
        match state.import_error(storage[0], first) {
            Some(error) => {
                lemma_first_is_refused(state, storage, dataflows);
            },
            None => {
                let next = state.install(storage[0].dom(), first);
                lemma_first_is_tracked(state, storage, dataflows);
                lemma_tracked_in_turn(next, storage.drop_first(), dataflows.drop_first());
            },
        }
    }
}

/// Where the first dataflow cannot be created, nothing is tracked.
proof fn lemma_first_is_refused<P, L: FrontierLogic>(
    state: InstanceModel<P, L>,
    storage: Seq<Map<u64, StorageCollectionModel<P>>>,
    dataflows: Seq<DataflowModel<P, ()>>,
)
    requires
        dataflows.len() > 0,
        state.import_error(storage[0], dataflows[0]) is Some,
    ensures
        state.install_all(storage, dataflows) == (
            state,
            state.import_error(storage[0], dataflows[0]),
        ),
    decreases dataflows.len(),
{
    if dataflows.len() > 1 {
        assert(dataflows.drop_last()[0] == dataflows[0]);
        lemma_first_is_refused(state, storage, dataflows.drop_last());
    } else {
        assert(state.install_all(storage, dataflows.drop_last()) == (
            state,
            None::<DataflowCreationError>,
        ));
    }
}

/// Where the first dataflow can be created, the others follow it.
proof fn lemma_first_is_tracked<P, L: FrontierLogic>(
    state: InstanceModel<P, L>,
    storage: Seq<Map<u64, StorageCollectionModel<P>>>,
    dataflows: Seq<DataflowModel<P, ()>>,
)
    requires
        dataflows.len() > 0,
        storage.len() > dataflows.len(),
        state.import_error(storage[0], dataflows[0]) is None,
    ensures
        state.install_all(storage, dataflows) == state.install(
            storage[0].dom(),
            dataflows[0],
        ).install_all(storage.drop_first(), dataflows.drop_first()),
    decreases dataflows.len(),
{
    let next = state.install(storage[0].dom(), dataflows[0]);
    let rest = dataflows.drop_first();
    if dataflows.len() > 1 {
        let front = dataflows.drop_last();
        assert(front[0] == dataflows[0]);
        lemma_first_is_tracked(state, storage, front);
        assert(front.drop_first() =~= rest.drop_last());
        assert(rest.last() == dataflows.last());
        assert(storage.drop_first()[rest.len() - 1] == storage[dataflows.len() - 1]);
    } else {
        assert(state.install_all(storage, dataflows.drop_last()) == (
            state,
            None::<DataflowCreationError>,
        ));
        assert(next.install_all(storage.drop_first(), rest) == (
            next,
            None::<DataflowCreationError>,
        ));
    }
}

/// Creating dataflows is tracking them in turn, as is done with one at a time, and then sending
/// them all, with what storage knows at the end. Where one is refused, the error is its own, those
/// before it are tracked, and neither it nor any after it; nothing is sent.
pub proof fn law_dataflows_are_created_in_turn<P, L: FrontierLogic>(
    state: InstanceModel<P, L>,
    storage: Seq<Map<u64, StorageCollectionModel<P>>>,
    dataflows: Seq<DataflowModel<P, ()>>,
)
    requires
        storage.len() == dataflows.len() + 1,
    ensures
        ({
            let (last, error) = tracked_in_turn(state, storage, dataflows);
            match error {
                Some(error) => state.create_dataflows(storage, dataflows) == (
                    last,
                    Err::<(), DataflowCreationError>(error),
                ),
                None => state.create_dataflows(storage, dataflows) == last.send_dataflows(
                    storage[storage.len() - 1],
                    dataflows,
                ),
            }
        }),
{
    lemma_tracked_in_turn(state, storage, dataflows);
}

} // verus!
