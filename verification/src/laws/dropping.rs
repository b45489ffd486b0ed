//! Dropping a dataflow undoes what creating it did.
use vstd::prelude::*;

use super::accounts::{
    accounted_when_settled, capabilities_at, held_by, held_by_readers,
    law_capabilities_change_alone, lemma_recorded_finite, lemma_settled_accounts,
    same_but_capabilities,
};
use super::creation::lemma_holds_move_none;
use super::growth::{
    lemma_exports_differ, lemma_lower_of_antichain, lemma_occurs_once, outputs_differ,
};
use super::quiet::{closed_below, lemma_quiet};
use super::readable::lemma_accounts_determine;
use super::storage_claims::{
    asked_at, finitely_reported, lemma_asked_more, lemma_sending_asks_nothing, needed_at, needed_by,
    reported_at,
};
use super::storage_moves::{law_update_asks, strays};
use crate::action::ActionModel;
use crate::changes::{
    add_to_all, is_least, is_zero, lemma_occurrences, lower, moved, no_counts, occurrences,
    recorded, Counts,
};
use crate::collection::CollectionModel;
use crate::command::{CommandModel, DataflowModel};
use crate::frontier::{frontier_le, is_antichain, Frontier};
use crate::model::{dropping, same_for_all, visited, with_each, InstanceModel, PolicyUpdate};
use crate::ordered::{greatest, lemma_sorted_ids, sorted_ids};
use crate::policy::{FrontierLogic, PolicyModel};
use crate::propagation::{
    acyclic, dependencies, lemma_pending_greatest, lemma_settled, lemma_settles, Propagation,
};
use crate::storage::StorageCollectionModel;
use crate::sums::lemma_sum_shifted;

verus! {

/// Recording changes forgets none.
proof fn lemma_recorded_stays(changes: Map<u64, Counts>, ids: Seq<u64>, more: Counts)
    ensures
        changes.dom().subset_of(add_to_all(changes, ids, more).dom()),
    decreases ids.len(),
{
    if ids.len() > 0 {
        lemma_recorded_stays(changes, ids.drop_last(), more);
    }
}

/// A collection that changes are pending for is visited, or they are still pending.
pub proof fn lemma_visited_in_time<L>(state: Propagation<L>, storage_ids: Set<u64>, id: u64, n: nat)
    requires
        state.pending.dom().finite(),
        state.pending.contains_key(id),
        state.collections.contains_key(id),
    ensures
        ({
            let end = state.steps(storage_ids, n);
            &&& end.pending.dom().finite()
            &&& end.collections.contains_key(id)
            &&& end.pending.contains_key(id) || visited(end.net).contains(id)
        }),
    decreases n,
{
    if n > 0 {
        lemma_visited_in_time(state, storage_ids, id, (n - 1) as nat);
        let before = state.steps(storage_ids, (n - 1) as nat);
        let end = state.steps(storage_ids, n);
        if !before.pending.is_empty() {
            lemma_pending_greatest(before);
            let first = greatest(before.pending.dom());
            let rest = before.pending.remove(first);
            assert(rest.dom() =~= before.pending.dom().remove(first));
            if before.collections.contains_key(first) {
                let collection = before.collections[first];
                let after = collection.with_changes(before.pending[first]);
                let move_ = moved(collection.read_frontier(), after.read_frontier());
                lemma_recorded_finite(rest, collection.compute_dependencies, move_);
                lemma_recorded_stays(rest, collection.compute_dependencies, move_);
                if visited(before.net).contains(id) {
                    let i = choose|i: int|
                        0 <= i < before.net.len() && (#[trigger] before.net[i]).0 == id;
                    assert(end.net[i].0 == id);
                } else if id == first {
                    assert(end.net[before.net.len() as int].0 == id);
                } else {
                    assert(rest.dom().contains(id));
                }
            }
        }
    }
}

/// The collection once its policy makes it readable from no time on.
pub open spec fn given_up_policy<L>(collection: CollectionModel<L>) -> CollectionModel<L> {
    CollectionModel {
        implied_capability: Seq::empty(),
        read_policy: PolicyModel::ValidFrom(Seq::empty()),
        ..collection
    }
}

/// Dropping collections gives up the capabilities that their policies imply, each once.
proof fn lemma_policies_given_up<L: FrontierLogic>(
    start: PolicyUpdate<L>,
    ids: Seq<u64>,
    as_of: Frontier,
)
    requires
        start.missing is None,
        start.capabilities.is_empty(),
        as_of.len() > 0,
        forall|i: int|
            0 <= i < ids.len() ==> start.collections.contains_key(#[trigger] ids[i])
                && start.collections[ids[i]].implied_capability == as_of,
    ensures
        ({
            let end = start.assign_all(dropping(ids));
            &&& end.missing is None
            &&& end.collections.dom() == start.collections.dom()
            &&& end.capabilities.dom() == ids.to_set()
            &&& forall|id: u64| #[trigger]
                start.collections.contains_key(id) ==> end.collections[id] == if ids.contains(id) {
                    given_up_policy(start.collections[id])
                } else {
                    start.collections[id]
                }
            &&& forall|id: u64, time: u64|
                ids.contains(id) ==> #[trigger] recorded(end.capabilities, id)(time)
                    == -occurrences(as_of, time)
        }),
    decreases ids.len(),
{
    let policies = dropping::<L>(ids);
    if ids.len() == 0 {
        assert(start.capabilities.dom() =~= ids.to_set());
    } else {
        let front = ids.drop_last();
        let last = ids[ids.len() - 1];
        assert forall|i: int| 0 <= i < front.len() implies start.collections.contains_key(
            #[trigger] front[i],
        ) && start.collections[front[i]].implied_capability == as_of by {
            assert(front[i] == ids[i]);
        }
        lemma_policies_given_up(start, front, as_of);
        assert(policies.drop_last() =~= dropping::<L>(front));
        let before = start.assign_all(dropping(front));
        let end = start.assign_all(policies);
        assert(end == before.assign(last, PolicyModel::ValidFrom(Seq::empty())));
        assert(start.collections.contains_key(last));
        assert(before.collections.contains_key(last));
        crate::ordered::lemma_push_to_set(front, last);
        assert(front.push(last) =~= ids);
        assert forall|id: u64| ids.contains(id) <==> (front.contains(id) || id == last) by {
            assert(ids.to_set().contains(id) <==> front.to_set().insert(last).contains(id));
        }
        let collection = before.collections[last];
        let changes = collection.downgrade_changes(Seq::empty());
        assert(end.collections.dom() =~= start.collections.dom());
        if front.contains(last) {
            assert(collection.implied_capability.len() == 0);
            assert(frontier_le(collection.implied_capability, Seq::<u64>::empty()));
            assert(is_zero(changes));
            assert(end.capabilities.dom() =~= ids.to_set());
            assert(end.collections[last] == given_up_policy(start.collections[last]));
        } else {
            assert(collection == start.collections[last]);
            assert(frontier_le(as_of, Seq::<u64>::empty()));
            assert(changes == moved(as_of, Seq::<u64>::empty()));
            lemma_occurrences(as_of, as_of[0]);
            assert(as_of.contains(as_of[0]));
            assert(changes(as_of[0]) != 0);
            assert(end.capabilities.dom() =~= ids.to_set());
        }
        assert forall|id: u64, time: u64|
            ids.contains(id) implies #[trigger] recorded(end.capabilities, id)(time)
            == -occurrences(as_of, time) by {
            if front.contains(id) {
                assert(recorded(before.capabilities, id)(time) == -occurrences(as_of, time));
            } else {
                assert(!before.capabilities.dom().contains(last));
            }
        }
    }
}

/// Whether the collections of `outputs` lost their read frontier `as_of`, and nothing else about
/// what is read changed.
spec fn outputs_lost<L>(
    before: Map<u64, CollectionModel<L>>,
    after: Map<u64, CollectionModel<L>>,
    outputs: Set<u64>,
    as_of: Frontier,
    sources: Seq<u64>,
    indexes: Seq<u64>,
) -> bool {
    &&& before.dom().finite()
    &&& after.dom() == before.dom()
    &&& outputs.subset_of(before.dom())
    &&& forall|id: u64| #[trigger]
        before.contains_key(id) ==> {
            &&& after[id].compute_dependencies == before[id].compute_dependencies
            &&& after[id].storage_dependencies == before[id].storage_dependencies
            &&& after[id].replica_write_frontiers == before[id].replica_write_frontiers
            &&& if outputs.contains(id) {
                &&& before[id].compute_dependencies == indexes
                &&& before[id].storage_dependencies == sources
                &&& before[id].read_frontier() == as_of
                &&& after[id].read_frontier().len() == 0
            } else {
                after[id].read_frontier() == before[id].read_frontier()
            }
        }
}

/// What readers hold shrinks by what the outputs held.
proof fn lemma_lost_holds<L>(
    before: Map<u64, CollectionModel<L>>,
    after: Map<u64, CollectionModel<L>>,
    outputs: Set<u64>,
    as_of: Frontier,
    sources: Seq<u64>,
    indexes: Seq<u64>,
    id: u64,
    time: u64,
)
    requires
        outputs_lost(before, after, outputs, as_of, sources, indexes),
    ensures
        held_by_readers(after, id, time) == held_by_readers(before, id, time) - outputs.len() * (
        occurrences(indexes, id) * occurrences(as_of, time)),
{
    let from = held_by(before, id, time);
    let to = held_by(after, id, time);
    let n = occurrences(indexes, id);
    let x = occurrences(as_of, time);
    let value = -(n * x);
    assert forall|reader: u64| #[trigger] before.dom().contains(reader) implies to(reader) == from(
        reader,
    ) + if outputs.contains(reader) {
        value
    } else {
        0int
    } by {
        assert(before.contains_key(reader));
        if outputs.contains(reader) {
            assert(occurrences(after[reader].read_frontier(), time) == 0);
            assert(n * 0 == 0) by (nonlinear_arith);
        }
    }
    lemma_sum_shifted(before.dom(), outputs, from, to, value);
    let k = outputs.len() as int;
    assert(k * (-(n * x)) == -(k * (n * x))) by (nonlinear_arith);
}

/// What is needed of storage shrinks by what the outputs needed.
proof fn lemma_lost_needs<L>(
    before: Map<u64, CollectionModel<L>>,
    after: Map<u64, CollectionModel<L>>,
    outputs: Set<u64>,
    as_of: Frontier,
    sources: Seq<u64>,
    indexes: Seq<u64>,
    source: u64,
    time: u64,
)
    requires
        outputs_lost(before, after, outputs, as_of, sources, indexes),
    ensures
        needed_at(after, source, time) == needed_at(before, source, time) - outputs.len() * (
        occurrences(sources, source) * occurrences(as_of, time)),
{
    let from = needed_by(before, source, time);
    let to = needed_by(after, source, time);
    let n = occurrences(sources, source);
    let x = occurrences(as_of, time);
    let value = -(n * x);
    assert forall|reader: u64| #[trigger] before.dom().contains(reader) implies to(reader) == from(
        reader,
    ) + if outputs.contains(reader) {
        value
    } else {
        0int
    } by {
        assert(before.contains_key(reader));
        assert(reported_at(after[reader], time) == reported_at(before[reader], time));
        if outputs.contains(reader) {
            assert(occurrences(after[reader].read_frontier(), time) == 0);
            let y = reported_at(before[reader], time);
            assert(n * (0 + y) == n * (x + y) + -(n * x)) by (nonlinear_arith);
        }
    }
    lemma_sum_shifted(before.dom(), outputs, from, to, value);
    let k = outputs.len() as int;
    assert(k * (-(n * x)) == -(k * (n * x))) by (nonlinear_arith);
}

/// Counts of nothing have no frontier.
proof fn lemma_lower_of_nothing()
    ensures
        lower(no_counts()).len() == 0,
{
    assert forall|time: u64| !is_least(no_counts(), time) by {
        assert(no_counts()(time) == 0);
    }
}

/// Whether the collections are those of `old`, but for some that are gone, and new outputs that
/// are readable from `as_of` on, and that hold it on the collections that they read.
pub open spec fn grown_by<L>(
    old_collections: Map<u64, CollectionModel<L>>,
    collections: Map<u64, CollectionModel<L>>,
    outputs: Set<u64>,
    as_of: Frontier,
    sources: Seq<u64>,
    indexes: Seq<u64>,
) -> bool {
    &&& outputs.subset_of(collections.dom())
    &&& forall|id: u64| #[trigger]
        outputs.contains(id) ==> collections[id] == CollectionModel::<L>::created(
            as_of,
            sources,
            indexes,
        )
    &&& forall|id: u64| #[trigger]
        collections.contains_key(id) && !outputs.contains(id) ==> {
            &&& old_collections.contains_key(id)
            &&& same_but_capabilities(collections[id], old_collections[id])
            &&& collections[id].read_frontier() == old_collections[id].read_frontier()
            &&& forall|time: u64| #[trigger]
                (collections[id].read_capabilities)(time) == (
                old_collections[id].read_capabilities)(time) + outputs.len() * (occurrences(
                    indexes,
                    id,
                ) * occurrences(as_of, time))
        }
    &&& forall|i: int|
        0 <= i < indexes.len() ==> collections.contains_key(#[trigger] indexes[i])
            && !outputs.contains(indexes[i]) && old_collections[indexes[i]].read_frontier().len()
            > 0
}

/// What is there when the outputs are given up: they hold nothing, and the other collections
/// hold what they held before.
spec fn shrunk<L>(
    old_collections: Map<u64, CollectionModel<L>>,
    collections: Map<u64, CollectionModel<L>>,
    outputs: Set<u64>,
) -> Map<u64, CollectionModel<L>> {
    collections.map_entries(
        |id: u64, collection: CollectionModel<L>|
            CollectionModel {
                read_capabilities: if outputs.contains(id) {
                    no_counts()
                } else {
                    old_collections[id].read_capabilities
                },
                ..collection
            },
    )
}

/// The changes that give the outputs up settle with what was held before.
proof fn lemma_settles_shrunk<P, L: FrontierLogic>(
    state: InstanceModel<P, L>,
    storage_ids: Set<u64>,
    updates: Map<u64, Counts>,
    old_collections: Map<u64, CollectionModel<L>>,
    grown: Map<u64, CollectionModel<L>>,
    outputs: Set<u64>,
    as_of: Frontier,
    sources: Seq<u64>,
    indexes: Seq<u64>,
)
    requires
        state.collections.dom().finite(),
        acyclic(dependencies(state.collections)),
        is_antichain(as_of),
        grown_by(old_collections, grown, outputs, as_of, sources, indexes),
        state.collections.dom() == grown.dom(),
        forall|id: u64| #[trigger]
            grown.contains_key(id) ==> state.collections[id] == if outputs.contains(id) {
                given_up_policy(grown[id])
            } else {
                grown[id]
            },
        updates.dom() == outputs,
        forall|id: u64, time: u64|
            outputs.contains(id) ==> #[trigger] recorded(updates, id)(time) == -occurrences(
                as_of,
                time,
            ),
    ensures
        ({
            let settled = state.propagation(updates).settled(storage_ids).collections;
            &&& outputs_lost(state.collections, settled, outputs, as_of, sources, indexes)
            &&& forall|id: u64| #[trigger]
                settled.contains_key(id) ==> settled[id].read_capabilities == if outputs.contains(
                    id,
                ) {
                    no_counts()
                } else {
                    old_collections[id].read_capabilities
                }
        }),
{
    let collections = state.collections;
    let target = shrunk(old_collections, collections, outputs);
    let direct = |id: u64, time: u64|
        capabilities_at(collections, id, time) + recorded(updates, id)(time) - held_by_readers(
            collections,
            id,
            time,
        );
    let settled = state.propagation(updates).settled(storage_ids).collections;
    lemma_lower_of_antichain(as_of);
    lemma_lower_of_nothing();
    assert(updates.dom().finite()) by {
        vstd::set_lib::lemma_set_subset_finite(collections.dom(), outputs);
    }
    assert(outputs_lost(collections, target, outputs, as_of, sources, indexes)) by {
        assert(target.dom() =~= collections.dom());
        assert forall|id: u64| #[trigger] collections.contains_key(id) implies {
            &&& target[id].compute_dependencies == collections[id].compute_dependencies
            &&& target[id].storage_dependencies == collections[id].storage_dependencies
            &&& target[id].replica_write_frontiers == collections[id].replica_write_frontiers
            &&& if outputs.contains(id) {
                &&& collections[id].compute_dependencies == indexes
                &&& collections[id].storage_dependencies == sources
                &&& collections[id].read_frontier() == as_of
                &&& target[id].read_frontier().len() == 0
            } else {
                target[id].read_frontier() == collections[id].read_frontier()
            }
        } by {
            assert(grown.contains_key(id));
        }
    }
    assert(accounted_when_settled(collections, updates, direct));
    lemma_settled_accounts(state, storage_ids, updates, direct);
    law_capabilities_change_alone(state, storage_ids, updates);
    assert forall|id: u64, time: u64|
        target.contains_key(id) implies #[trigger] capabilities_at(target, id, time) + recorded(
        Map::<u64, Counts>::empty(),
        id,
    )(time) == direct(id, time) + held_by_readers(target, id, time) by {
        assert(grown.contains_key(id));
        lemma_lost_holds(collections, target, outputs, as_of, sources, indexes, id, time);
        let x = occurrences(as_of, time);
        let k = outputs.len() as int;
        if outputs.contains(id) {
            assert(recorded(updates, id)(time) == -occurrences(as_of, time));
            lemma_occurrences(indexes, id);
            assert(!indexes.contains(id)) by {
                if indexes.contains(id) {
                    let i = choose|i: int| 0 <= i < indexes.len() && indexes[i] == id;
                    assert(!outputs.contains(indexes[i]));
                }
            }
            assert(k * (0 * x) == 0) by (nonlinear_arith);
        } else {
            assert(!updates.dom().contains(id));
            assert((grown[id].read_capabilities)(time) == (old_collections[id].read_capabilities)(
                time,
            ) + outputs.len() * (occurrences(indexes, id) * occurrences(as_of, time)));
        }
    }
    assert(dependencies(target) =~= dependencies(collections));
    assert(dependencies(settled) =~= dependencies(target)) by {
        assert forall|id: u64| #[trigger] settled.contains_key(
            id,
        ) implies settled[id].compute_dependencies == target[id].compute_dependencies by {
            assert(collections.contains_key(id));
        }
    }
    lemma_accounts_determine(settled, target, direct);
    assert forall|id: u64| #[trigger] collections.contains_key(id) implies
        settled[id].read_frontier() == target[id].read_frontier() && same_but_capabilities(
        settled[id],
        collections[id],
    ) by {
        assert(settled.contains_key(id));
    }
}

/// Dropping the outputs of a dataflow, where no replica maintains them, leaves nothing of them,
/// and gives up what they held.
proof fn lemma_dropping_shrinks<P, L: FrontierLogic>(
    state: InstanceModel<P, L>,
    storage_ids: Set<u64>,
    ids: Seq<u64>,
    old_collections: Map<u64, CollectionModel<L>>,
    as_of: Frontier,
    sources: Seq<u64>,
    indexes: Seq<u64>,
)
    requires
        finitely_reported(state.collections),
        acyclic(dependencies(state.collections)),
        is_antichain(as_of),
        as_of.len() > 0,
        grown_by(old_collections, state.collections, ids.to_set(), as_of, sources, indexes),
    ensures
        ({
            let after = state.drop_collections(storage_ids, ids);
            &&& state.first_missing(ids) is None
            &&& forall|id: u64| #[trigger]
                ids.contains(id) ==> !after.collections.contains_key(id)
            &&& forall|id: u64| #[trigger]
                after.collections.contains_key(id) ==> old_collections.contains_key(id)
                    && after.collections[id] == old_collections[id]
            &&& forall|i: int|
                0 <= i < indexes.len() ==> after.collections.contains_key(#[trigger] indexes[i])
            &&& forall|source: u64, time: u64| #[trigger]
                asked_at(after.actions, source, time) == asked_at(state.actions, source, time)
                    - ids.to_set().len() * (occurrences(sources, source) * occurrences(
                    as_of,
                    time,
                ))
        }),
{
    let outputs = ids.to_set();
    let start = state.assigned(Seq::empty());
    let update = state.assigned(dropping(ids));
    assert(update == start.assign_all(dropping(ids)));
    assert(start.capabilities =~= Map::empty());
    assert forall|i: int| 0 <= i < ids.len() implies start.collections.contains_key(
        #[trigger] ids[i],
    ) && start.collections[ids[i]].implied_capability == as_of by {
        assert(outputs.contains(ids[i]));
        assert(state.collections.dom().contains(ids[i]));
    }
    lemma_policies_given_up(start, ids, as_of);
    lemma_none_missing(state, ids);
    let given = InstanceModel { collections: update.collections, spent: update.spent, ..state };
    assert forall|id: u64| #[trigger] state.collections.contains_key(
        id,
    ) implies given.collections[id] == if outputs.contains(id) {
        given_up_policy(state.collections[id])
    } else {
        state.collections[id]
    } by {
        assert(start.collections.contains_key(id));
    }
    assert(dependencies(given.collections) =~= dependencies(state.collections)) by {
        assert forall|id: u64| #[trigger] state.collections.contains_key(
            id,
        ) implies given.collections[id].compute_dependencies
            == state.collections[id].compute_dependencies by {}
    }
    assert(finitely_reported(given.collections)) by {
        assert forall|id: u64| #[trigger] given.collections.contains_key(
            id,
        ) implies given.collections[id].replica_write_frontiers.dom().finite() by {
            assert(state.collections.contains_key(id));
        }
    }
    let updates = update.capabilities;
    assert forall|id: u64, time: u64|
        outputs.contains(id) implies #[trigger] recorded(updates, id)(time) == -occurrences(
        as_of,
        time,
    ) by {
        assert(ids.contains(id));
    }
    lemma_settles_shrunk(
        given,
        storage_ids,
        updates,
        old_collections,
        state.collections,
        outputs,
        as_of,
        sources,
        indexes,
    );
    law_capabilities_change_alone(given, storage_ids, updates);
    let propagation = given.propagation(updates);
    let settled = propagation.settled(storage_ids).collections;
    let after = state.drop_collections(storage_ids, ids);
    assert(after == given.update_read_capabilities(storage_ids, updates));
    assert(updates.dom().finite()) by {
        vstd::set_lib::lemma_set_subset_finite(given.collections.dom(), outputs);
    }
    lemma_settles(propagation, storage_ids);
    lemma_settled(propagation, storage_ids, propagation.steps_to_settle(storage_ids));
    lemma_lower_of_nothing();
    assert forall|id: u64| #[trigger] ids.contains(id) implies !after.collections.contains_key(
        id,
    ) by {
        assert(outputs.contains(id));
        assert(state.collections.dom().contains(id));
        assert(given.collections.contains_key(id));
        assert(updates.dom().contains(id));
        lemma_visited_in_time(
            propagation,
            storage_ids,
            id,
            propagation.steps_to_settle(storage_ids),
        );
        assert(settled.contains_key(id));
        assert(settled[id].replica_write_frontiers =~= Map::empty());
        assert(settled[id].is_droppable());
    }
    assert forall|id: u64| #[trigger] after.collections.contains_key(
        id,
    ) implies old_collections.contains_key(id) && after.collections[id]
        == old_collections[id] by {
        assert(given.collections.contains_key(id));
        assert(state.collections.contains_key(id));
        assert(settled.contains_key(id));
        if outputs.contains(id) {
            assert(ids.contains(id));
        }
        assert(same_but_capabilities(settled[id], given.collections[id]));
        assert(same_but_capabilities(state.collections[id], old_collections[id]));
    }
    assert forall|i: int| 0 <= i < indexes.len() implies after.collections.contains_key(
        #[trigger] indexes[i],
    ) by {
        let id = indexes[i];
        assert(state.collections.contains_key(id) && !outputs.contains(id));
        assert(given.collections.contains_key(id));
        if !after.collections.contains_key(id) {
            assert(settled[id].is_droppable());
            assert(settled.contains_key(id));
        }
    }
    assert forall|source: u64, time: u64| #[trigger]
        asked_at(after.actions, source, time) == asked_at(state.actions, source, time)
        - outputs.len() * (occurrences(sources, source) * occurrences(as_of, time)) by {
        law_update_asks(given, storage_ids, updates, source, time);
        lemma_lost_needs(
            given.collections,
            settled,
            outputs,
            as_of,
            sources,
            indexes,
            source,
            time,
        );
        if strays(given.collections, storage_ids, source) {
            assert(!updates.dom().contains(source));
            lemma_lost_holds(
                given.collections,
                settled,
                outputs,
                as_of,
                sources,
                indexes,
                source,
                time,
            );
            lemma_occurrences(indexes, source);
            assert(!indexes.contains(source)) by {
                if indexes.contains(source) {
                    let i = choose|i: int| 0 <= i < indexes.len() && indexes[i] == source;
                    assert(state.collections.contains_key(indexes[i]));
                    assert(given.collections.dom().contains(source));
                }
            }
            let k = outputs.len() as int;
            let x = occurrences(as_of, time);
            assert(k * (0 * x) == 0) by (nonlinear_arith);
        }
    }
}

/// Where all collections of a list exist, none is missing.
proof fn lemma_none_missing<P, L: FrontierLogic>(state: InstanceModel<P, L>, ids: Seq<u64>)
    requires
        forall|i: int| 0 <= i < ids.len() ==> state.collections.contains_key(#[trigger] ids[i]),
    ensures
        state.first_missing(ids) is None,
    decreases ids.len(),
{
    if ids.len() > 0 {
        let front = ids.drop_last();
        assert forall|i: int| 0 <= i < front.len() implies state.collections.contains_key(
            #[trigger] front[i],
        ) by {
            assert(front[i] == ids[i]);
        }
        lemma_none_missing(state, front);
        assert(state.collections.contains_key(ids[ids.len() - 1]));
    }
}

/// Whether a dataflow can be created without replicas: its outputs are new, have different names
/// and are of use at some time.
pub open spec fn can_come_and_go<P, L: FrontierLogic>(
    state: InstanceModel<P, L>,
    storage: Seq<Map<u64, StorageCollectionModel<P>>>,
    dataflow: DataflowModel<P, ()>,
) -> bool {
    &&& state.replicas.is_empty()
    &&& state.takes_dataflows(storage, seq![dataflow])
    &&& state.create_dataflows(storage, seq![dataflow]).1 is Ok
    &&& is_antichain(dataflow.as_of->0)
    &&& dataflow.as_of->0.len() > 0
    &&& dataflow.source_imports.dom().finite()
    &&& dataflow.index_imports.dom().finite()
    &&& outputs_differ(dataflow)
    &&& forall|id: u64| #[trigger]
        dataflow.export_ids().contains(id) ==> !state.collections.contains_key(id)
}

/// Creating a dataflow without replicas is to hold what it reads and to track its outputs.
proof fn lemma_creating_alone<P, L: FrontierLogic>(
    state: InstanceModel<P, L>,
    storage: Seq<Map<u64, StorageCollectionModel<P>>>,
    dataflow: DataflowModel<P, ()>,
)
    requires
        can_come_and_go(state, storage, dataflow),
    ensures
        ({
            let exported = state.with_exports(storage[0].dom(), dataflow);
            let made = state.create_dataflows(storage, seq![dataflow]).0;
            &&& state.import_error(storage[0], dataflow) is None
            &&& state.takes_dataflow(storage[0].dom(), dataflow)
            &&& made.collections == exported.collections
            &&& forall|source: u64, time: u64| #[trigger]
                asked_at(made.actions, source, time) == asked_at(exported.actions, source, time)
        }),
{
    let known = storage[0];
    let dataflows = seq![dataflow];
    reveal_with_fuel(InstanceModel::install_all, 2);
    reveal_with_fuel(InstanceModel::takes_dataflows, 2);
    assert(dataflows.drop_last() =~= Seq::empty());
    assert(dataflows.last() == dataflow);
    let exported = state.with_exports(known.dom(), dataflow);
    let installed = state.install(known.dom(), dataflow);
    let made = state.create_dataflows(storage, dataflows).0;
    assert(state.import_error(known, dataflow) is None);
    assert(exported.replicas == state.replicas);
    assert(sorted_ids(exported.replicas.dom()) =~= Seq::empty()) by {
        assert(exported.replicas.dom() =~= Set::empty());
    }
    assert(installed.collections == exported.collections);
    assert(installed.actions == exported.actions);
    let then = storage[1];
    lemma_sending_asks_nothing(
        installed,
        CommandModel::CreateDataflows(
            dataflows.map_values(|dataflow: DataflowModel<P, ()>| dataflow.looked_up(then)),
        ),
    );
}

/// Creating a dataflow without replicas adds its outputs and what they hold.
proof fn lemma_creating_grows<P, L: FrontierLogic>(
    state: InstanceModel<P, L>,
    storage: Seq<Map<u64, StorageCollectionModel<P>>>,
    dataflow: DataflowModel<P, ()>,
)
    requires
        finitely_reported(state.collections),
        acyclic(dependencies(state.collections)),
        can_come_and_go(state, storage, dataflow),
    ensures
        ({
            let made = state.create_dataflows(storage, seq![dataflow]).0;
            let as_of = dataflow.as_of->0;
            let sources = sorted_ids(dataflow.source_imports.dom());
            let indexes = sorted_ids(dataflow.index_imports.dom());
            let outputs = dataflow.export_ids().to_set();
            &&& finitely_reported(made.collections)
            &&& acyclic(dependencies(made.collections))
            &&& grown_by(state.collections, made.collections, outputs, as_of, sources, indexes)
            &&& forall|source: u64, time: u64| #[trigger]
                asked_at(made.actions, source, time) == asked_at(state.actions, source, time)
                    + outputs.len() * (occurrences(sources, source) * occurrences(as_of, time))
        }),
{
    let known = storage[0];
    let as_of = dataflow.as_of->0;
    let sources = sorted_ids(dataflow.source_imports.dom());
    let indexes = sorted_ids(dataflow.index_imports.dom());
    let outputs = dataflow.export_ids().to_set();
    let hold = dataflow.hold();
    let start = state.with_sources_held(dataflow);
    let updates = same_for_all(dataflow.index_imports.dom(), hold);
    let held = start.update_read_capabilities(known.dom(), updates);
    let made = state.create_dataflows(storage, seq![dataflow]).0;
    let all = Set::<u64>::full();
    lemma_creating_alone(state, storage, dataflow);
    lemma_exports_differ(dataflow, as_of);
    lemma_sorted_ids(dataflow.source_imports.dom());
    lemma_sorted_ids(dataflow.index_imports.dom());
    lemma_holds_move_none(state, known, dataflow);
    assert(closed_below(state.collections, all));
    lemma_quiet(start, known.dom(), updates, all);
    let created = CollectionModel::<L>::created(as_of, sources, indexes);
    assert(made.collections == with_each(held.collections, outputs, created));
    assert forall|id: u64| #[trigger] held.collections.contains_key(id) implies
        !outputs.contains(id) by {
        assert(state.collections.contains_key(id));
        if outputs.contains(id) {
            assert(dataflow.export_ids().contains(id));
        }
    }
    assert forall|id: u64| #[trigger]
        made.collections.contains_key(id) && !outputs.contains(id) implies {
        &&& state.collections.contains_key(id)
        &&& same_but_capabilities(made.collections[id], state.collections[id])
        &&& made.collections[id].read_frontier() == state.collections[id].read_frontier()
        &&& forall|time: u64| #[trigger]
            (made.collections[id].read_capabilities)(time) == (
            state.collections[id].read_capabilities)(time) + outputs.len() * (occurrences(
                indexes,
                id,
            ) * occurrences(as_of, time))
    } by {
        assert(held.collections.contains_key(id));
        lemma_occurs_once(indexes, id);
        assert(indexes.contains(id) <==> dataflow.index_imports.contains_key(id));
        assert forall|time: u64| #[trigger] (made.collections[id].read_capabilities)(time) == (
        state.collections[id].read_capabilities)(time) + outputs.len() * (occurrences(indexes, id)
            * occurrences(as_of, time)) by {
            let k = outputs.len() as int;
            let x = occurrences(as_of, time);
            assert(k * (1 * x) == k * x && k * (0 * x) == 0) by (nonlinear_arith);
        }
    }
    assert forall|i: int| 0 <= i < indexes.len() implies made.collections.contains_key(
        #[trigger] indexes[i],
    ) && !outputs.contains(indexes[i]) && state.collections[indexes[i]].read_frontier().len()
        > 0 by {
        let id = indexes[i];
        assert(indexes.contains(id));
        assert(updates.dom().contains(id));
        assert(updates.contains_key(id));
        assert(state.collections.contains_key(id));
        assert(held.collections.contains_key(id)) by {
            if !held.collections.contains_key(id) {
                assert(start.collections.contains_key(id));
                assert(state.collections[id].is_droppable());
            }
        }
    }
    assert(outputs.subset_of(made.collections.dom()));
    assert(finitely_reported(made.collections)) by {
        assert(held.collections.dom().finite()) by {
            assert forall|id: u64| held.collections.dom().contains(
                id,
            ) implies state.collections.dom().contains(id) by {
                assert(held.collections.contains_key(id));
            }
            vstd::set_lib::lemma_set_subset_finite(
                state.collections.dom(),
                held.collections.dom(),
            );
        }
        assert(made.collections.dom() =~= held.collections.dom().union(outputs));
        assert forall|id: u64| #[trigger] made.collections.contains_key(
            id,
        ) implies made.collections[id].replica_write_frontiers.dom().finite() by {
            if !outputs.contains(id) {
                assert(state.collections.contains_key(id));
            } else {
                assert(made.collections[id].replica_write_frontiers.dom() =~= Set::empty());
            }
        }
    }
    assert forall|source: u64, time: u64| #[trigger]
        asked_at(made.actions, source, time) == asked_at(state.actions, source, time)
        + outputs.len() * (occurrences(sources, source) * occurrences(as_of, time)) by {
        let changes = same_for_all(dataflow.source_imports.dom(), hold);
        lemma_asked_more(
            state.actions,
            ActionModel::UpdateStorageReadCapabilities(changes),
            source,
            time,
        );
        assert(asked_at(held.actions, source, time) == asked_at(start.actions, source, time));
        lemma_occurs_once(sources, source);
        assert(sources.contains(source) <==> dataflow.source_imports.contains_key(source));
        let k = outputs.len() as int;
        let x = occurrences(as_of, time);
        assert(k * (1 * x) == k * x && k * (0 * x) == 0) by (nonlinear_arith);
    }
}

/// Without replicas, creating a dataflow whose outputs are new, have different names and are of
/// use at some time, and dropping these outputs then, leaves nothing: the drop succeeds, no
/// output is tracked any more, what the dataflow reads is there, every collection that is there
/// is as it was, read capabilities included, and all in all storage is asked for nothing.
pub proof fn law_dropped_dataflow_leaves_nothing<P, L: FrontierLogic>(
    state: InstanceModel<P, L>,
    storage: Seq<Map<u64, StorageCollectionModel<P>>>,
    dataflow: DataflowModel<P, ()>,
    storage_ids: Set<u64>,
    ids: Seq<u64>,
)
    requires
        finitely_reported(state.collections),
        acyclic(dependencies(state.collections)),
        can_come_and_go(state, storage, dataflow),
        ids.to_set() == dataflow.export_ids().to_set(),
    ensures
        ({
            let made = state.create_dataflows(storage, seq![dataflow]).0;
            let after = made.drop_collections(storage_ids, ids);
            &&& made.first_missing(ids) is None
            &&& forall|id: u64| #[trigger]
                dataflow.export_ids().contains(id) ==> !after.collections.contains_key(id)
            &&& forall|id: u64| #[trigger]
                dataflow.index_imports.contains_key(id) ==> after.collections.contains_key(id)
            &&& forall|id: u64| #[trigger]
                after.collections.contains_key(id) ==> state.collections.contains_key(id)
                    && after.collections[id] == state.collections[id]
            &&& forall|source: u64, time: u64| #[trigger]
                asked_at(after.actions, source, time) == asked_at(state.actions, source, time)
        }),
{
    let made = state.create_dataflows(storage, seq![dataflow]).0;
    let as_of = dataflow.as_of->0;
    let sources = sorted_ids(dataflow.source_imports.dom());
    let indexes = sorted_ids(dataflow.index_imports.dom());
    lemma_creating_grows(state, storage, dataflow);
    lemma_dropping_shrinks(made, storage_ids, ids, state.collections, as_of, sources, indexes);
    lemma_sorted_ids(dataflow.index_imports.dom());
    let after = made.drop_collections(storage_ids, ids);
    assert forall|id: u64| #[trigger] dataflow.export_ids().contains(
        id,
    ) implies !after.collections.contains_key(id) by {
        assert(ids.to_set().contains(id));
        assert(ids.contains(id));
    }
    assert forall|id: u64| #[trigger] dataflow.index_imports.contains_key(
        id,
    ) implies after.collections.contains_key(id) by {
        assert(indexes.contains(id));
        let i = choose|i: int| 0 <= i < indexes.len() && indexes[i] == id;
        assert(after.collections.contains_key(indexes[i]));
    }
    assert forall|source: u64, time: u64| #[trigger]
        asked_at(after.actions, source, time) == asked_at(state.actions, source, time) by {
        assert(asked_at(made.actions, source, time) == asked_at(state.actions, source, time)
            + ids.to_set().len() * (occurrences(sources, source) * occurrences(as_of, time)));
    }
}

} // verus!
