//! Which requests are refused, and why.
use vstd::prelude::*;

use super::commands::all_finite;
use super::policies::{last_policy, lemma_assigned};
use crate::command::DataflowModel;
use crate::error::{DataflowCreationError, PeekError};
use crate::frontier::{frontier_le, reaches, Frontier};
use crate::ids::CollectionMissing;
use crate::model::{
    first_error, index_error, lemma_all_assigned, lookup_errors, missing_sink, missing_source,
    source_error, InstanceModel, PolicyUpdate,
};
use crate::ordered::{lemma_sorted_ids, sorted_ids};
use crate::policy::{FrontierLogic, PolicyModel};
use crate::storage::StorageCollectionModel;

verus! {

/// A peek is refused exactly if its target does not exist, or is no longer readable at its time.
pub proof fn law_refused_peeks<P, L: FrontierLogic>(
    state: InstanceModel<P, L>,
    id: u64,
    timestamp: u64,
)
    ensures
        !state.collections.contains_key(id) <==> state.peek_error(id, timestamp) == Some(
            PeekError::CollectionMissing(id),
        ),
        state.collections.contains_key(id) && !reaches(
            state.collections[id].read_frontier(),
            timestamp,
        ) <==> state.peek_error(id, timestamp) == Some(PeekError::SinceViolation(id)),
        state.collections.contains_key(id) && reaches(
            state.collections[id].read_frontier(),
            timestamp,
        ) <==> state.peek_error(id, timestamp) is None,
{
}

/// The first error of a list is that of the first member that has one.
proof fn lemma_first_error<E>(ids: Seq<u64>, error: spec_fn(u64) -> Option<E>)
    ensures
        first_error(ids, error) is None <==> forall|i: int|
            0 <= i < ids.len() ==> error(#[trigger] ids[i]) is None,
        first_error(ids, error) is Some ==> exists|i: int|
            #![trigger ids[i]]
            0 <= i < ids.len() && error(ids[i]) == first_error(ids, error) && forall|j: int|
                0 <= j < i ==> error(#[trigger] ids[j]) is None,
    decreases ids.len(),
{
    if ids.len() > 0 {
        let front = ids.drop_last();
        lemma_first_error(front, error);
        let last = ids.len() - 1;
        assert(forall|i: int| 0 <= i < front.len() ==> front[i] == #[trigger] ids[i]);
        if first_error(front, error) is Some {
            let i = choose|i: int|
                #![trigger front[i]]
                0 <= i < front.len() && error(front[i]) == first_error(front, error) && forall|
                    j: int,
                |
                    0 <= j < i ==> error(#[trigger] front[j]) is None;
            assert(ids[i] == front[i]);
            assert forall|j: int| 0 <= j < i implies error(#[trigger] ids[j]) is None by {
                assert(front[j] == ids[j]);
            }
        } else {
            assert forall|j: int| 0 <= j < last implies error(#[trigger] ids[j]) is None by {
                assert(front[j] == ids[j]);
            }
            if error(ids[last]) is Some {
                assert(error(ids[last]) == first_error(ids, error));
            }
        }
    }
}

/// Over the ascending list of a set, the first error is that of the least member that has one.
proof fn lemma_least_error<E>(ids: Set<u64>, error: spec_fn(u64) -> Option<E>)
    requires
        ids.finite(),
    ensures
        first_error(sorted_ids(ids), error) is None <==> forall|id: u64| #[trigger]
            ids.contains(id) ==> error(id) is None,
        first_error(sorted_ids(ids), error) is Some ==> exists|id: u64|
            #![trigger ids.contains(id)]
            ids.contains(id) && error(id) == first_error(sorted_ids(ids), error) && forall|
                other: u64,
            | #[trigger]
                ids.contains(other) && other < id ==> error(other) is None,
{
    let list = sorted_ids(ids);
    lemma_sorted_ids(ids);
    lemma_first_error(list, error);
    assert forall|id: u64| #[trigger] ids.contains(id) implies exists|i: int|
        0 <= i < list.len() && #[trigger] list[i] == id by {
        assert(list.contains(id));
    }
    if first_error(list, error) is None {
        assert forall|id: u64| #[trigger] ids.contains(id) implies error(id) is None by {
            let i = choose|i: int| 0 <= i < list.len() && #[trigger] list[i] == id;
            assert(error(list[i]) is None);
        }
    } else {
        let i = choose|i: int|
            #![trigger list[i]]
            0 <= i < list.len() && error(list[i]) == first_error(list, error) && forall|j: int|
                0 <= j < i ==> error(#[trigger] list[j]) is None;
        let id = list[i];
        assert(list.contains(id));
        assert(ids.contains(id));
        assert forall|other: u64| #[trigger] ids.contains(other) && other < id implies error(
            other,
        ) is None by {
            let j = choose|j: int| 0 <= j < list.len() && #[trigger] list[j] == other;
            assert(j < i) by {
                if i < j {
                    assert(list[i] < list[j]);
                }
            }
            assert(error(list[j]) is None);
        }
    }
}

/// Whether storage has the collection, readable from `as_of` on.
pub open spec fn storage_serves<P>(
    storage: Map<u64, StorageCollectionModel<P>>,
    id: u64,
    as_of: Frontier,
) -> bool {
    storage.contains_key(id) && frontier_le(storage[id].read_frontier, as_of)
}

/// Whether the instance has the collection, readable from `as_of` on.
pub open spec fn instance_serves<P, L>(
    state: InstanceModel<P, L>,
    id: u64,
    as_of: Frontier,
) -> bool {
    state.collections.contains_key(id) && frontier_le(
        state.collections[id].read_frontier(),
        as_of,
    )
}

/// A dataflow can be created exactly if it says from which times on it computes, and storage and
/// the instance have what it reads, readable from there on. Otherwise the error names the least
/// source that is not to be had, or else the least index, and says whether it does not exist or
/// is no longer readable.
pub proof fn law_refused_dataflows<P, L: FrontierLogic>(
    state: InstanceModel<P, L>,
    storage: Map<u64, StorageCollectionModel<P>>,
    dataflow: DataflowModel<P, ()>,
)
    requires
        dataflow.source_imports.dom().finite(),
        dataflow.index_imports.dom().finite(),
    ensures
        ({
            let error = state.import_error(storage, dataflow);
            &&& dataflow.as_of is None <==> error == Some(DataflowCreationError::MissingAsOf)
            &&& dataflow.as_of matches Some(as_of) ==> {
                let sources_fine = forall|id: u64| #[trigger]
                    dataflow.source_imports.contains_key(id) ==> storage_serves(
                        storage,
                        id,
                        as_of,
                    );
                let indexes_fine = forall|id: u64| #[trigger]
                    dataflow.index_imports.contains_key(id) ==> instance_serves(state, id, as_of);
                &&& error is None <==> sources_fine && indexes_fine
                &&& !sources_fine ==> exists|id: u64|
                    #![trigger dataflow.source_imports.contains_key(id)]
                    dataflow.source_imports.contains_key(id) && !storage_serves(
                        storage,
                        id,
                        as_of,
                    ) && error == Some(
                        if storage.contains_key(id) {
                            DataflowCreationError::SinceViolation(id)
                        } else {
                            DataflowCreationError::CollectionMissing(id)
                        },
                    ) && forall|other: u64| #[trigger]
                        dataflow.source_imports.contains_key(other) && other < id
                            ==> storage_serves(storage, other, as_of)
                &&& sources_fine && !indexes_fine ==> exists|id: u64|
                    #![trigger dataflow.index_imports.contains_key(id)]
                    dataflow.index_imports.contains_key(id) && !instance_serves(state, id, as_of)
                        && error == Some(
                        if state.collections.contains_key(id) {
                            DataflowCreationError::SinceViolation(id)
                        } else {
                            DataflowCreationError::CollectionMissing(id)
                        },
                    ) && forall|other: u64| #[trigger]
                        dataflow.index_imports.contains_key(other) && other < id
                            ==> instance_serves(state, other, as_of)
            }
        }),
{
    if dataflow.as_of is Some {
        let as_of = dataflow.as_of->0;
        let sources = dataflow.source_imports.dom();
        let indexes = dataflow.index_imports.dom();
        let by_source = source_error(storage, as_of);
        let by_index = index_error(state.collections, as_of);
        lemma_least_error(sources, by_source);
        lemma_least_error(indexes, by_index);
        assert forall|id: u64| #[trigger] dataflow.source_imports.contains_key(id) implies (
        by_source(id) is None <==> storage_serves(storage, id, as_of)) by {
            assert(sources.contains(id));
        }
        assert forall|id: u64| #[trigger] dataflow.index_imports.contains_key(id) implies (
        by_index(id) is None <==> instance_serves(state, id, as_of)) by {
            assert(indexes.contains(id));
        }
        let source_found = first_error(sorted_ids(sources), by_source);
        let index_found = first_error(sorted_ids(indexes), by_index);
        if source_found is Some {
            let id = choose|id: u64|
                #![trigger sources.contains(id)]
                sources.contains(id) && by_source(id) == source_found && forall|other: u64|
                    #[trigger]
                    sources.contains(other) && other < id ==> by_source(other) is None;
            assert(dataflow.source_imports.contains_key(id));
            assert forall|other: u64| #[trigger]
                dataflow.source_imports.contains_key(other) && other < id implies storage_serves(
                storage,
                other,
                as_of,
            ) by {
                assert(sources.contains(other));
            }
        } else if index_found is Some {
            let id = choose|id: u64|
                #![trigger indexes.contains(id)]
                indexes.contains(id) && by_index(id) == index_found && forall|other: u64|
                    #[trigger]
                    indexes.contains(other) && other < id ==> by_index(other) is None;
            assert(dataflow.index_imports.contains_key(id));
            assert forall|other: u64| #[trigger]
                dataflow.index_imports.contains_key(other) && other < id implies instance_serves(
                state,
                other,
                as_of,
            ) by {
                assert(indexes.contains(other));
            }
            assert forall|other: u64| #[trigger]
                dataflow.source_imports.contains_key(other) implies storage_serves(
                storage,
                other,
                as_of,
            ) by {
                assert(sources.contains(other));
            }
        } else {
            assert forall|other: u64| #[trigger]
                dataflow.source_imports.contains_key(other) implies storage_serves(
                storage,
                other,
                as_of,
            ) by {
                assert(sources.contains(other));
            }
            assert forall|other: u64| #[trigger]
                dataflow.index_imports.contains_key(other) implies instance_serves(
                state,
                other,
                as_of,
            ) by {
                assert(indexes.contains(other));
            }
        }
    }
}

/// Whether the dataflow reads or writes the storage collection.
pub open spec fn touches_storage<P>(dataflow: DataflowModel<P, ()>, id: u64) -> bool {
    dataflow.source_imports.contains_key(id) || (dataflow.sink_exports.contains_key(id)
        && dataflow.sink_exports[id].connection is Persist)
}

/// Whether storage has all collections that the dataflow reads and writes.
pub open spec fn storage_has_all<P>(
    dataflow: DataflowModel<P, ()>,
    storage: Map<u64, StorageCollectionModel<P>>,
) -> bool {
    forall|id: u64| #[trigger] touches_storage(dataflow, id) ==> storage.contains_key(id)
}

/// Whether `id` is the first storage collection that the dataflow needs and that is not there:
/// sources come before sinks, and both ascend.
pub open spec fn first_not_found<P>(
    dataflow: DataflowModel<P, ()>,
    storage: Map<u64, StorageCollectionModel<P>>,
    id: u64,
) -> bool {
    &&& !storage.contains_key(id)
    &&& if dataflow.source_imports.contains_key(id) {
        forall|other: u64| #[trigger]
            dataflow.source_imports.contains_key(other) && other < id ==> storage.contains_key(
                other,
            )
    } else {
        &&& dataflow.sink_exports.contains_key(id)
        &&& dataflow.sink_exports[id].connection is Persist
        &&& forall|other: u64| #[trigger]
            dataflow.source_imports.contains_key(other) ==> storage.contains_key(other)
        &&& forall|other: u64| #[trigger]
            dataflow.sink_exports.contains_key(other) && other < id
                && dataflow.sink_exports[other].connection is Persist ==> storage.contains_key(
                other,
            )
    }
}

/// A dataflow can be looked up exactly if storage has what it reads and writes.
proof fn lemma_lookup<P>(
    dataflow: DataflowModel<P, ()>,
    storage: Map<u64, StorageCollectionModel<P>>,
)
    requires
        dataflow.source_imports.dom().finite(),
        dataflow.sink_exports.dom().finite(),
    ensures
        dataflow.lookup_error(storage) is None <==> storage_has_all(dataflow, storage),
        dataflow.lookup_error(storage) matches Some(error) ==> exists|id: u64| #[trigger]
            first_not_found(dataflow, storage, id) && error
                == DataflowCreationError::CollectionMissing(id),
{
    let sources = dataflow.source_imports.dom();
    let sinks = dataflow.sink_exports.dom();
    let by_source = missing_source(storage);
    let by_sink = missing_sink(storage, dataflow.sink_exports);
    lemma_least_error(sources, by_source);
    lemma_least_error(sinks, by_sink);
    let source_found = first_error(sorted_ids(sources), by_source);
    let sink_found = first_error(sorted_ids(sinks), by_sink);
    if source_found is Some {
        let id = choose|id: u64|
            #![trigger sources.contains(id)]
            sources.contains(id) && by_source(id) == source_found && forall|other: u64|
                #[trigger]
                sources.contains(other) && other < id ==> by_source(other) is None;
        assert(touches_storage(dataflow, id));
        assert forall|other: u64| #[trigger]
            dataflow.source_imports.contains_key(other)
                && other < id implies storage.contains_key(other) by {
            assert(sources.contains(other));
            assert(by_source(other) is None);
        }
        assert(first_not_found(dataflow, storage, id));
    } else if sink_found is Some {
        let id = choose|id: u64|
            #![trigger sinks.contains(id)]
            sinks.contains(id) && by_sink(id) == sink_found && forall|other: u64| #[trigger]
                sinks.contains(other) && other < id ==> by_sink(other) is None;
        assert(touches_storage(dataflow, id));
        assert forall|other: u64| #[trigger]
            dataflow.source_imports.contains_key(other) implies storage.contains_key(other) by {
            assert(sources.contains(other));
            assert(by_source(other) is None);
        }
        assert forall|other: u64| #[trigger]
            dataflow.sink_exports.contains_key(other) && other < id
                && dataflow.sink_exports[other].connection is Persist implies storage.contains_key(
            other,
        ) by {
            assert(sinks.contains(other));
            assert(by_sink(other) is None);
        }
        assert(first_not_found(dataflow, storage, id));
    } else {
        assert forall|id: u64| #[trigger] touches_storage(
            dataflow,
            id,
        ) implies storage.contains_key(id) by {
            if dataflow.source_imports.contains_key(id) {
                assert(sources.contains(id));
                assert(by_source(id) is None);
            } else {
                assert(sinks.contains(id));
                assert(by_sink(id) is None);
            }
        }
    }
}

/// Dataflows that were tracked are sent exactly if storage has what they read and write;
/// otherwise the error names the first collection that storage does not have, of the first
/// dataflow that needs one.
pub proof fn law_refused_lookups<P, L: FrontierLogic>(
    state: InstanceModel<P, L>,
    storage: Map<u64, StorageCollectionModel<P>>,
    dataflows: Seq<DataflowModel<P, ()>>,
)
    requires
        all_finite(dataflows),
    ensures
        ({
            let (after, result) = state.send_dataflows(storage, dataflows);
            &&& result is Err ==> after == state
            &&& result is Ok <==> forall|i: int|
                0 <= i < dataflows.len() ==> storage_has_all(#[trigger] dataflows[i], storage)
            &&& result matches Err(error) ==> exists|i: int, id: u64|
                #![trigger first_not_found(dataflows[i], storage, id)]
                0 <= i < dataflows.len() && first_not_found(dataflows[i], storage, id) && error
                    == DataflowCreationError::CollectionMissing(id) && forall|j: int|
                    0 <= j < i ==> storage_has_all(#[trigger] dataflows[j], storage)
        }),
{
    lemma_lookups(storage, dataflows);
}

/// The same of the first error of a list.
proof fn lemma_lookups<P>(
    storage: Map<u64, StorageCollectionModel<P>>,
    dataflows: Seq<DataflowModel<P, ()>>,
)
    requires
        all_finite(dataflows),
    ensures
        lookup_errors(dataflows, storage) is None <==> forall|i: int|
            0 <= i < dataflows.len() ==> storage_has_all(#[trigger] dataflows[i], storage),
        lookup_errors(dataflows, storage) matches Some(error) ==> exists|i: int, id: u64|
            #![trigger first_not_found(dataflows[i], storage, id)]
            0 <= i < dataflows.len() && first_not_found(dataflows[i], storage, id) && error
                == DataflowCreationError::CollectionMissing(id) && forall|j: int|
                0 <= j < i ==> storage_has_all(#[trigger] dataflows[j], storage),
    decreases dataflows.len(),
{
    if dataflows.len() > 0 {
        let front = dataflows.drop_last();
        let last = dataflows.len() - 1;
        assert(forall|i: int| 0 <= i < front.len() ==> front[i] == #[trigger] dataflows[i]);
        assert(all_finite(front)) by {
            assert forall|i: int| 0 <= i < front.len() implies (
            #[trigger] front[i]).source_imports.dom().finite()
                && front[i].sink_exports.dom().finite() by {
                assert(dataflows[i] == front[i]);
            }
        }
        lemma_lookups(storage, front);
        assert(dataflows[last].source_imports.dom().finite());
        lemma_lookup(dataflows[last], storage);
        if lookup_errors(front, storage) is Some {
            let error = lookup_errors(front, storage)->0;
            let (i, id) = choose|i: int, id: u64|
                #![trigger first_not_found(front[i], storage, id)]
                0 <= i < front.len() && first_not_found(front[i], storage, id) && error
                    == DataflowCreationError::CollectionMissing(id) && forall|j: int|
                    0 <= j < i ==> storage_has_all(#[trigger] front[j], storage);
            assert(first_not_found(dataflows[i], storage, id));
            assert(touches_storage(dataflows[i], id));
            assert forall|j: int| 0 <= j < i implies storage_has_all(
                #[trigger] dataflows[j],
                storage,
            ) by {
                assert(front[j] == dataflows[j]);
            }
        } else {
            assert forall|j: int| 0 <= j < last implies storage_has_all(
                #[trigger] dataflows[j],
                storage,
            ) by {
                assert(front[j] == dataflows[j]);
            }
            if dataflows[last].lookup_error(storage) is Some {
                let error = dataflows[last].lookup_error(storage)->0;
                let id = choose|id: u64| #[trigger]
                    first_not_found(dataflows[last], storage, id) && error
                        == DataflowCreationError::CollectionMissing(id);
                assert(touches_storage(dataflows[last], id));
                assert(!storage_has_all(dataflows[last], storage));
            }
        }
    }
}

/// Dropping collections is refused exactly if one of them does not exist; the error names the
/// first of these.
pub proof fn law_refused_drops<P, L: FrontierLogic>(state: InstanceModel<P, L>, ids: Seq<u64>)
    ensures
        state.first_missing(ids) is None <==> forall|i: int|
            0 <= i < ids.len() ==> state.collections.contains_key(#[trigger] ids[i]),
        state.first_missing(ids) matches Some(missing) ==> exists|i: int|
            #![trigger ids[i]]
            0 <= i < ids.len() && missing == CollectionMissing(ids[i])
                && !state.collections.contains_key(ids[i]) && forall|j: int|
                0 <= j < i ==> state.collections.contains_key(#[trigger] ids[j]),
{
    let error = |id: u64|
        if state.collections.contains_key(id) {
            None
        } else {
            Some(CollectionMissing(id))
        };
    lemma_first_error(ids, error);
    if state.first_missing(ids) is Some {
        let i = choose|i: int|
            #![trigger ids[i]]
            0 <= i < ids.len() && error(ids[i]) == first_error(ids, error) && forall|j: int|
                0 <= j < i ==> error(#[trigger] ids[j]) is None;
        assert forall|j: int| 0 <= j < i implies state.collections.contains_key(
            #[trigger] ids[j],
        ) by {
            assert(error(ids[j]) is None);
        }
    } else {
        assert forall|j: int| 0 <= j < ids.len() implies state.collections.contains_key(
            #[trigger] ids[j],
        ) by {
            assert(error(ids[j]) is None);
        }
    }
}

/// Assigning policies fails exactly if a collection does not exist; the error names the first of
/// these. Then nobody is told anything, and no read capability changes.
pub proof fn law_refused_policies<P, L: FrontierLogic>(
    state: InstanceModel<P, L>,
    storage_ids: Set<u64>,
    policies: Seq<(u64, PolicyModel<L>)>,
)
    ensures
        state.assigned(policies).missing is None <==> forall|i: int|
            0 <= i < policies.len() ==> state.collections.contains_key((#[trigger] policies[i]).0),
        state.assigned(policies).missing matches Some(missing) ==> {
            let after = state.set_read_policy(storage_ids, policies);
            &&& exists|i: int|
                #![trigger policies[i]]
                0 <= i < policies.len() && missing == policies[i].0
                    && !state.collections.contains_key(missing) && forall|j: int|
                    0 <= j < i ==> state.collections.contains_key((#[trigger] policies[j]).0)
            &&& after.actions == state.actions
            &&& after.history == state.history
            &&& after.collections.dom() == state.collections.dom()
            &&& forall|id: u64| #[trigger]
                state.collections.contains_key(id) ==> after.collections[id].read_capabilities
                    == state.collections[id].read_capabilities
        },
{
    let start = state.assigned(Seq::empty());
    assert(state.assigned(policies) == start.assign_all(policies));
    lemma_assigning(start, policies);
}

/// The same of policies that are assigned until a collection does not exist.
proof fn lemma_assigning<L: FrontierLogic>(
    start: PolicyUpdate<L>,
    policies: Seq<(u64, PolicyModel<L>)>,
)
    requires
        start.missing is None,
    ensures
        ({
            let end = start.assign_all(policies);
            &&& end.collections.dom() == start.collections.dom()
            &&& forall|id: u64| #[trigger]
                start.collections.contains_key(id) ==> end.collections[id].read_capabilities
                    == start.collections[id].read_capabilities
            &&& end.missing is None <==> forall|i: int|
                0 <= i < policies.len() ==> start.collections.contains_key(
                    (#[trigger] policies[i]).0,
                )
            &&& end.missing matches Some(missing) ==> exists|i: int|
                #![trigger policies[i]]
                0 <= i < policies.len() && missing == policies[i].0
                    && !start.collections.contains_key(missing) && forall|j: int|
                    0 <= j < i ==> start.collections.contains_key((#[trigger] policies[j]).0)
        }),
    decreases policies.len(),
{
    if policies.len() > 0 {
        let front = policies.drop_last();
        let last = policies.len() - 1;
        lemma_assigning(start, front);
        let before = start.assign_all(front);
        let end = start.assign_all(policies);
        assert(end.collections.dom() =~= start.collections.dom());
        assert(forall|i: int| 0 <= i < front.len() ==> front[i] == #[trigger] policies[i]);
        if before.missing is Some {
            let missing = before.missing->0;
            let i = choose|i: int|
                #![trigger front[i]]
                0 <= i < front.len() && missing == front[i].0 && !start.collections.contains_key(
                    missing,
                ) && forall|j: int|
                    0 <= j < i ==> start.collections.contains_key((#[trigger] front[j]).0);
            assert(policies[i] == front[i]);
            assert forall|j: int| 0 <= j < i implies start.collections.contains_key(
                (#[trigger] policies[j]).0,
            ) by {
                assert(front[j] == policies[j]);
            }
        } else {
            assert forall|j: int| 0 <= j < last implies start.collections.contains_key(
                (#[trigger] policies[j]).0,
            ) by {
                assert(front[j] == policies[j]);
            }
            assert(policies[last] == policies.last());
        }
    }
}

/// Nothing is assigned from the first collection on that does not exist.
proof fn lemma_nothing_after_missing<L: FrontierLogic>(
    start: PolicyUpdate<L>,
    policies: Seq<(u64, PolicyModel<L>)>,
    i: int,
)
    requires
        start.missing is None,
        0 <= i < policies.len(),
        forall|j: int|
            0 <= j < i ==> start.collections.contains_key((#[trigger] policies[j]).0),
        !start.collections.contains_key(policies[i].0),
    ensures
        start.assign_all(policies) == (PolicyUpdate {
            missing: Some(policies[i].0),
            ..start.assign_all(policies.take(i))
        }),
        start.assign_all(policies.take(i)).missing is None,
    decreases policies.len(),
{
    let front = policies.drop_last();
    assert forall|j: int| 0 <= j < policies.take(i).len() implies start.collections.contains_key(
        (#[trigger] policies.take(i)[j]).0,
    ) by {
        assert(policies.take(i)[j] == policies[j]);
    }
    lemma_all_assigned(start, policies.take(i));
    if i == policies.len() - 1 {
        assert(front =~= policies.take(i));
    } else {
        assert(front.take(i) =~= policies.take(i));
        assert forall|j: int| 0 <= j < i implies start.collections.contains_key(
            (#[trigger] front[j]).0,
        ) by {
            assert(front[j] == policies[j]);
        }
        assert(front[i] == policies[i]);
        lemma_nothing_after_missing(start, front, i);
    }
}

/// Where a collection of the list does not exist, each that is named before it has the last
/// policy that is named for it there, and each that is not keeps all that it has; nothing else
/// of the instance changes.
pub proof fn law_policies_before_a_missing_one<P, L: FrontierLogic>(
    state: InstanceModel<P, L>,
    storage_ids: Set<u64>,
    policies: Seq<(u64, PolicyModel<L>)>,
    i: int,
    id: u64,
)
    requires
        0 <= i < policies.len(),
        forall|j: int|
            0 <= j < i ==> state.collections.contains_key((#[trigger] policies[j]).0),
        !state.collections.contains_key(policies[i].0),
        state.collections.contains_key(id),
    ensures
        ({
            let after = state.set_read_policy(storage_ids, policies);
            let before = state.collections[id];
            let now = after.collections[id];
            &&& after == (InstanceModel {
                collections: after.collections,
                spent: after.spent,
                ..state
            })
            &&& after.collections.contains_key(id)
            &&& now.read_policy == last_policy(policies.take(i), id, before.read_policy)
            &&& frontier_le(before.implied_capability, now.implied_capability)
            &&& (forall|j: int| 0 <= j < i ==> (#[trigger] policies[j]).0 != id) ==> now == before
        }),
{
    let start = state.assigned(Seq::empty());
    assert(state.assigned(policies) == start.assign_all(policies));
    lemma_nothing_after_missing(start, policies, i);
    lemma_assigned(start, policies.take(i), id);
    if forall|j: int| 0 <= j < i ==> (#[trigger] policies[j]).0 != id {
        assert forall|j: int| 0 <= j < policies.take(i).len() implies (
        #[trigger] policies.take(i)[j]).0 != id by {
            assert(policies.take(i)[j] == policies[j]);
        }
    }
}

} // verus!
