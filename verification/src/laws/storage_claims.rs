//! What an instance asks the storage controller to hold is what its collections need there.
use vstd::prelude::*;

use super::accounts::{
    accounted_when_settled, capabilities_at, held_by_readers, held_directly,
    law_capabilities_change_alone, lemma_recorded_finite, lemma_recorded_for_all,
    same_but_capabilities,
};
use super::balance::{
    balanced, inputs_exist, lemma_direct_readable, lemma_forgotten_peeks_make_up,
    lemma_peek_makes_up, lemma_policies_make_up, lemma_uppers_make_up, makes_up, pending_peek,
    unreadable_hold_nothing,
};
use super::readable::{lemma_readers_hold, readable_directly, readable_for_readers};
use crate::action::ActionModel;
use crate::changes::{
    count_at, is_least, is_zero, lemma_occurrences, lower, moved, occurrences, recorded, Counts,
};
use crate::collection::CollectionModel;
use crate::command::PeekModel;
use crate::frontier::{frontier_le, reaches, Frontier};
use crate::model::{distinct, given_up, released, reports, InstanceModel, PolicyUpdate, UpperUpdate};
use crate::ordered::{greatest, increasing, lemma_sorted_ids, sorted_ids};
use crate::pending::PendingPeek;
use crate::policy::{FrontierLogic, PolicyModel};
use crate::propagation::{acyclic, dependencies, lemma_pending_greatest, lemma_settles, Propagation};
use crate::sums::{
    lemma_sum_insert, lemma_sum_of_equals, lemma_sum_part, lemma_sum_plus, lemma_sum_remove,
    lemma_sum_same, sum_over,
};

verus! {

/// How many of the frontiers that replicas have reported for a collection hold `time`.
pub open spec fn reported_at<L>(collection: CollectionModel<L>, time: u64) -> int {
    sum_over(
        collection.replica_write_frontiers.dom(),
        |replica: u64| occurrences(collection.replica_write_frontiers[replica], time),
    )
}

/// How many read capabilities each collection needs on the storage collection `source` at `time`:
/// one at its read frontier, and one at what each replica has reported.
pub open spec fn needed_by<L>(
    collections: Map<u64, CollectionModel<L>>,
    source: u64,
    time: u64,
) -> spec_fn(u64) -> int {
    |reader: u64|
        occurrences(collections[reader].storage_dependencies, source) * (occurrences(
            collections[reader].read_frontier(),
            time,
        ) + reported_at(collections[reader], time))
}

/// How many read capabilities all collections together need on `source` at `time`.
pub open spec fn needed_at<L>(
    collections: Map<u64, CollectionModel<L>>,
    source: u64,
    time: u64,
) -> int {
    sum_over(collections.dom(), needed_by(collections, source, time))
}

/// How many read capabilities on `source` at `time` the storage controller is asked to add,
/// those that it is asked to remove subtracted.
pub open spec fn asked_at<P>(actions: Seq<ActionModel<P>>, source: u64, time: u64) -> int
    decreases actions.len(),
{
    if actions.len() == 0 {
        0
    } else {
        asked_at(actions.drop_last(), source, time) + match actions.last() {
            ActionModel::UpdateStorageReadCapabilities(changes) => recorded(changes, source)(time),
            _ => 0,
        }
    }
}

/// Whether storage was asked for exactly the difference that `after` makes to what is needed.
pub open spec fn asks_for_needs<P, L>(
    before: InstanceModel<P, L>,
    after: InstanceModel<P, L>,
) -> bool {
    forall|source: u64, time: u64| #[trigger]
        asked_at(after.actions, source, time) - asked_at(before.actions, source, time)
            == needed_at(after.collections, source, time) - needed_at(
            before.collections,
            source,
            time,
        )
}

/// Whether finitely many replicas have reported on each of finitely many collections.
pub open spec fn finitely_reported<L>(collections: Map<u64, CollectionModel<L>>) -> bool {
    &&& collections.dom().finite()
    &&& forall|id: u64| #[trigger]
        collections.contains_key(id) ==> collections[id].replica_write_frontiers.dom().finite()
}

/// When one collection changes, what is needed changes by what it needs.
pub proof fn lemma_needs_change<L>(
    collections: Map<u64, CollectionModel<L>>,
    reader: u64,
    after: CollectionModel<L>,
    source: u64,
    time: u64,
)
    requires
        collections.dom().finite(),
        collections.contains_key(reader),
        after.storage_dependencies == collections[reader].storage_dependencies,
    ensures
        needed_at(collections.insert(reader, after), source, time) == needed_at(
            collections,
            source,
            time,
        ) + occurrences(after.storage_dependencies, source) * (moved(
            collections[reader].read_frontier(),
            after.read_frontier(),
        )(time) + reported_at(after, time) - reported_at(collections[reader], time)),
{
    let changed = collections.insert(reader, after);
    let before = needed_by(collections, source, time);
    let then = needed_by(changed, source, time);
    assert(changed.dom() =~= collections.dom());
    lemma_sum_remove(collections.dom(), before, reader);
    lemma_sum_remove(collections.dom(), then, reader);
    lemma_sum_same(collections.dom().remove(reader), before, then);
    let n = occurrences(after.storage_dependencies, source);
    let to = occurrences(after.read_frontier(), time) + reported_at(after, time);
    let from = occurrences(collections[reader].read_frontier(), time) + reported_at(
        collections[reader],
        time,
    );
    assert(n * to == n * from + n * (to - from)) by (nonlinear_arith);
}

/// Whether changes on their way ask storage for what the collections need beyond `start`, and
/// touch nothing that was not readable then: collections without a read frontier hold no
/// capability, and neither for them nor for collections that do not exist is a change pending.
spec fn asking<L>(
    state: Propagation<L>,
    start: Map<u64, CollectionModel<L>>,
) -> bool {
    &&& state.collections.dom() == start.dom()
    &&& state.pending.dom().finite()
    &&& forall|id: u64| #[trigger]
        start.contains_key(id) ==> same_but_capabilities(state.collections[id], start[id])
    &&& forall|source: u64, time: u64|
        recorded(state.storage, source)(time) == #[trigger] needed_at(
            state.collections,
            source,
            time,
        ) - needed_at(start, source, time)
    &&& forall|id: u64| #[trigger]
        start.contains_key(id) && start[id].read_frontier().len() == 0 ==> is_zero(
            state.collections[id].read_capabilities,
        )
    &&& forall|id: u64|
        (!start.contains_key(id) || start[id].read_frontier().len() == 0) ==> is_zero(
            #[trigger] recorded(state.pending, id),
        )
}

/// Counts without a positive one have no frontier.
proof fn lemma_no_frontier(counts: Counts)
    requires
        is_zero(counts),
    ensures
        lower(counts).len() == 0,
{
    assert forall|time: u64| !is_least(counts, time) by {
        assert(counts(time) == 0);
    }
}

/// A step keeps asking storage for what is needed.
#[verifier::spinoff_prover]
proof fn lemma_step_asks<L>(
    state: Propagation<L>,
    storage_ids: Set<u64>,
    start: Map<u64, CollectionModel<L>>,
)
    requires
        start.dom().finite(),
        readable_for_readers(start),
        inputs_exist(start),
        asking(state, start),
        !state.pending.is_empty(),
    ensures
        asking(state.step(storage_ids), start),
{
    lemma_pending_greatest(state);
    let first = greatest(state.pending.dom());
    let rest = state.pending.remove(first);
    let next = state.step(storage_ids);
    assert(rest.dom() =~= state.pending.dom().remove(first));
    assert(next.collections.dom() =~= start.dom());
    if state.collections.contains_key(first) {
        let before = state.collections[first];
        let after = before.with_changes(state.pending[first]);
        let move_ = moved(before.read_frontier(), after.read_frontier());
        lemma_recorded_finite(rest, before.compute_dependencies, move_);
        assert forall|source: u64, time: u64|
            recorded(next.storage, source)(time) == #[trigger] needed_at(
                next.collections,
                source,
                time,
            ) - needed_at(start, source, time) by {
            assert(recorded(state.storage, source)(time) == needed_at(
                state.collections,
                source,
                time,
            ) - needed_at(start, source, time));
            lemma_recorded_for_all(
                state.storage,
                before.storage_dependencies,
                move_,
                source,
                time,
            );
            lemma_needs_change(state.collections, first, after, source, time);
        }
        let dead = start[first].read_frontier().len() == 0;
        if dead {
            assert(is_zero(recorded(state.pending, first)));
            assert forall|time: u64| #[trigger] (after.read_capabilities)(time) == 0 by {
                assert((before.read_capabilities)(time) == 0);
                assert(recorded(state.pending, first)(time) == 0);
            }
            lemma_no_frontier(before.read_capabilities);
            lemma_no_frontier(after.read_capabilities);
            assert(before.read_frontier() =~= after.read_frontier());
            assert(is_zero(move_));
        }
        assert forall|id: u64|
            (!start.contains_key(id) || start[id].read_frontier().len() == 0) implies is_zero(
            #[trigger] recorded(next.pending, id),
        ) by {
            assert(is_zero(recorded(state.pending, id)));
            assert forall|time: u64| #[trigger] recorded(next.pending, id)(time) == 0 by {
                lemma_recorded_for_all(rest, before.compute_dependencies, move_, id, time);
                assert(recorded(state.pending, id)(time) == 0);
                lemma_occurrences(before.compute_dependencies, id);
                let n = occurrences(before.compute_dependencies, id);
                if dead {
                    assert(move_(time) == 0);
                    assert(n * 0 == 0) by (nonlinear_arith);
                } else {
                    assert(!before.compute_dependencies.contains(id)) by {
                        if before.compute_dependencies.contains(id) {
                            let list = start[first].compute_dependencies;
                            let i = choose|i: int| 0 <= i < list.len() && list[i] == id;
                            assert(start.contains_key(start[first].compute_dependencies[i]));
                            let upper = start[first].read_frontier();
                            assert(start.contains_key(first) && start.contains_key(id));
                            assert(frontier_le(start[id].read_frontier(), upper));
                            assert(reaches(start[id].read_frontier(), upper[0]));
                        }
                    }
                    let m = move_(time);
                    assert(0 * m == 0) by (nonlinear_arith);
                }
            }
        }
        assert forall|id: u64| #[trigger]
            start.contains_key(id) && start[id].read_frontier().len() == 0 implies is_zero(
            next.collections[id].read_capabilities,
        ) by {
            assert(is_zero(state.collections[id].read_capabilities));
        }
    } else {
        assert(is_zero(recorded(state.pending, first)));
        assert forall|source: u64, time: u64|
            recorded(next.storage, source)(time) == #[trigger] needed_at(
                next.collections,
                source,
                time,
            ) - needed_at(start, source, time) by {
            assert(recorded(state.storage, source)(time) == needed_at(
                state.collections,
                source,
                time,
            ) - needed_at(start, source, time));
            assert(recorded(state.pending, first)(time) == 0);
        }
        assert forall|id: u64|
            (!start.contains_key(id) || start[id].read_frontier().len() == 0) implies is_zero(
            #[trigger] recorded(next.pending, id),
        ) by {
            assert(is_zero(recorded(state.pending, id)));
        }
    }
}

/// Any number of steps keeps asking storage for what is needed.
proof fn lemma_steps_ask<L>(
    state: Propagation<L>,
    storage_ids: Set<u64>,
    start: Map<u64, CollectionModel<L>>,
    n: nat,
)
    requires
        start.dom().finite(),
        readable_for_readers(start),
        inputs_exist(start),
        asking(state, start),
    ensures
        asking(state.steps(storage_ids, n), start),
    decreases n,
{
    if n > 0 {
        lemma_steps_ask(state, storage_ids, start, (n - 1) as nat);
        let before = state.steps(storage_ids, (n - 1) as nat);
        if !before.pending.is_empty() {
            lemma_step_asks(before, storage_ids, start);
        }
    }
}

/// Another action adds what it asks for.
pub proof fn lemma_asked_more<P>(
    actions: Seq<ActionModel<P>>,
    action: ActionModel<P>,
    source: u64,
    time: u64,
)
    ensures
        asked_at(actions.push(action), source, time) == asked_at(actions, source, time)
            + match action {
            ActionModel::UpdateStorageReadCapabilities(changes) => recorded(changes, source)(time),
            _ => 0,
        },
{
    assert(actions.push(action).drop_last() =~= actions);
}

/// Nothing is needed by collections that can be dropped.
pub proof fn lemma_dropping_needs_nothing<L>(
    collections: Map<u64, CollectionModel<L>>,
    fewer: Map<u64, CollectionModel<L>>,
    source: u64,
    time: u64,
)
    requires
        finitely_reported(collections),
        fewer.dom().subset_of(collections.dom()),
        forall|id: u64| #[trigger]
            fewer.contains_key(id) ==> fewer[id] == collections[id],
        forall|id: u64| #[trigger]
            collections.contains_key(id) && !fewer.contains_key(id)
                ==> collections[id].is_droppable(),
    ensures
        finitely_reported(fewer),
        needed_at(fewer, source, time) == needed_at(collections, source, time),
{
    let whole = needed_by(collections, source, time);
    let part = needed_by(fewer, source, time);
    vstd::set_lib::lemma_set_subset_finite(collections.dom(), fewer.dom());
    assert forall|id: u64| #[trigger]
        collections.dom().contains(id) && !fewer.dom().contains(id) implies whole(id) == 0 by {
        assert(collections.contains_key(id) && !fewer.contains_key(id));
        let frontiers = collections[id].replica_write_frontiers;
        let term = |replica: u64| occurrences(frontiers[replica], time);
        assert forall|replica: u64| #[trigger] frontiers.dom().contains(replica) implies term(
            replica,
        ) == 0 by {
            assert(frontiers.contains_key(replica));
        }
        lemma_sum_of_equals(frontiers.dom(), term, 0);
        assert(frontiers.dom().len() * 0 == 0) by (nonlinear_arith);
        let n = occurrences(collections[id].storage_dependencies, source);
        assert(n * 0 == 0) by (nonlinear_arith);
    }
    lemma_sum_part(collections.dom(), fewer.dom(), whole);
    assert forall|id: u64| #[trigger] fewer.dom().contains(id) implies whole(id) == part(id) by {
        assert(fewer.contains_key(id));
    }
    lemma_sum_same(fewer.dom(), whole, part);
}

/// Changes to read capabilities ask storage for what was recorded for it.
pub proof fn lemma_asked_by_update<P, L: FrontierLogic>(
    state: InstanceModel<P, L>,
    storage_ids: Set<u64>,
    updates: Map<u64, Counts>,
    source: u64,
    time: u64,
)
    ensures
        asked_at(
            state.update_read_capabilities(storage_ids, updates).actions,
            source,
            time,
        ) == asked_at(state.actions, source, time) + recorded(
            state.propagation(updates).settled(storage_ids).storage,
            source,
        )(time),
{
    let end = state.propagation(updates).settled(storage_ids);
    let compactions = crate::model::compactions(end.collections, end.net);
    let applied = InstanceModel { collections: end.collections, spent: end.spent, ..state };
    let command = crate::command::CommandModel::AllowCompaction(compactions);
    let sent = if compactions.len() == 0 {
        state.actions
    } else {
        applied.send(command).actions
    };
    if compactions.len() > 0 {
        lemma_asked_more(
            state.actions,
            ActionModel::Send {
                command,
                replicas: state.replicas.map_values(
                    |replica: crate::model::ReplicaModel<P>| replica.starts,
                ),
            },
            source,
            time,
        );
    }
    assert(asked_at(sent, source, time) == asked_at(state.actions, source, time));
    if end.storage.is_empty() {
        assert(!end.storage.contains_key(source));
    } else {
        lemma_asked_more(
            sent,
            ActionModel::UpdateStorageReadCapabilities(end.storage),
            source,
            time,
        );
    }
}

/// Changes that settle the accounts ask storage for what is then needed, where `direct` says what
/// is held other than by readers.
pub proof fn lemma_settling_asks<P, L: FrontierLogic>(
    state: InstanceModel<P, L>,
    storage_ids: Set<u64>,
    updates: Map<u64, Counts>,
    direct: spec_fn(u64, u64) -> int,
)
    requires
        finitely_reported(state.collections),
        updates.dom().finite(),
        updates.dom().subset_of(state.collections.dom()),
        acyclic(dependencies(state.collections)),
        accounted_when_settled(state.collections, updates, direct),
        forall|id: u64, time: u64| #[trigger] direct(id, time) >= 0,
        readable_for_readers(state.collections),
        readable_directly(state.collections, direct),
        inputs_exist(state.collections),
        unreadable_hold_nothing(state.collections),
    ensures
        asks_for_needs(state, state.update_read_capabilities(storage_ids, updates)),
        finitely_reported(state.update_read_capabilities(storage_ids, updates).collections),
{
    let start = state.propagation(updates);
    let collections = state.collections;
    assert(asking(start, collections)) by {
        assert forall|id: u64|
            (!collections.contains_key(id) || collections[id].read_frontier().len()
                == 0) implies is_zero(#[trigger] recorded(updates, id)) by {
            if collections.contains_key(id) {
                assert forall|time: u64| #[trigger] recorded(updates, id)(time) == 0 by {
                    assert(capabilities_at(collections, id, time) + recorded(updates, id)(time)
                        == direct(id, time) + held_by_readers(
                        collections,
                        id,
                        time,
                    ));
                    assert((collections[id].read_capabilities)(time) == 0);
                    assert(direct(id, time) >= 0);
                    lemma_readers_hold(collections, id, time);
                    if held_by_readers(collections, id, time) > 0 {
                        let reader = choose|reader: u64| #[trigger]
                            collections.contains_key(reader)
                                && collections[reader].compute_dependencies.contains(id)
                                && collections[reader].read_frontier().contains(time);
                        let upper = collections[reader].read_frontier();
                        assert(collections.contains_key(reader) && collections.contains_key(id));
                        assert(frontier_le(collections[id].read_frontier(), upper));
                        let i = choose|i: int| 0 <= i < upper.len() && upper[i] == time;
                        assert(reaches(collections[id].read_frontier(), upper[i]));
                    }
                }
            }
        }
    }
    lemma_settles(start, storage_ids);
    let n = start.steps_to_settle(storage_ids);
    lemma_steps_ask(start, storage_ids, collections, n);
    law_capabilities_change_alone(state, storage_ids, updates);
    let end = start.settled(storage_ids);
    let after = state.update_read_capabilities(storage_ids, updates);
    assert(finitely_reported(end.collections)) by {
        assert forall|id: u64| #[trigger]
            end.collections.contains_key(id) implies end.collections[
            id
        ].replica_write_frontiers.dom().finite() by {
            assert(collections.contains_key(id));
        }
    }
    assert(after.collections.dom().subset_of(end.collections.dom())) by {
        assert forall|id: u64| after.collections.dom().contains(
            id,
        ) implies end.collections.dom().contains(id) by {
            assert(after.collections.contains_key(id));
        }
    }
    assert forall|id: u64| #[trigger]
        end.collections.contains_key(id) && !after.collections.contains_key(
            id,
        ) implies end.collections[id].is_droppable() by {
        assert(collections.contains_key(id) && !after.collections.contains_key(id));
    }
    lemma_dropping_needs_nothing(end.collections, after.collections, 0, 0);
    assert forall|source: u64, time: u64| #[trigger]
        asked_at(after.actions, source, time) - asked_at(state.actions, source, time)
            == needed_at(after.collections, source, time) - needed_at(
            collections,
            source,
            time,
        ) by {
        lemma_dropping_needs_nothing(end.collections, after.collections, source, time);
        assert(recorded(end.storage, source)(time) == needed_at(end.collections, source, time)
            - needed_at(collections, source, time));
        lemma_asked_by_update(state, storage_ids, updates, source, time);
    }
}

/// Changes that make up for what is missing ask storage for what is then needed.
proof fn lemma_update_asks<P, L: FrontierLogic>(
    state: InstanceModel<P, L>,
    storage_ids: Set<u64>,
    updates: Map<u64, Counts>,
    peeks: Map<u128, PendingPeek<P>>,
)
    requires
        finitely_reported(state.collections),
        makes_up(state, updates, peeks),
    ensures
        asks_for_needs(state, state.update_read_capabilities(storage_ids, updates)),
        finitely_reported(state.update_read_capabilities(storage_ids, updates).collections),
{
    lemma_direct_readable(state.collections, peeks);
    lemma_settling_asks(
        state,
        storage_ids,
        updates,
        held_directly(state.collections, peeks),
    );
}

/// A peek asks storage for nothing but what the collections need.
pub proof fn law_peek_asks<P, L: FrontierLogic>(
    state: InstanceModel<P, L>,
    storage_ids: Set<u64>,
    peek: PeekModel<P>,
    target_replica: Option<u64>,
)
    requires
        balanced(state),
        finitely_reported(state.collections),
        state.peek_error(peek.id, peek.timestamp) is None,
        !state.peeks.contains_key(peek.uuid),
    ensures
        asks_for_needs(state, state.peek(storage_ids, peek, target_replica)),
        finitely_reported(state.peek(storage_ids, peek, target_replica).collections),
{
    let start = InstanceModel { spent: state.spent + 1, ..state };
    let updates = Map::<u64, Counts>::empty().insert(peek.id, count_at(peek.timestamp, 1));
    let peeks = state.peeks.insert(peek.uuid, pending_peek(peek, target_replica));
    lemma_peek_makes_up(state, peek, target_replica);
    lemma_update_asks(start, storage_ids, updates, peeks);
    let held = start.update_read_capabilities(storage_ids, updates);
    lemma_sending_asks_nothing(
        InstanceModel { peeks, ..held },
        crate::command::CommandModel::Peek(peek),
    );
    let after = state.peek(storage_ids, peek, target_replica);
    assert forall|source: u64, time: u64| #[trigger]
        asked_at(after.actions, source, time) - asked_at(state.actions, source, time)
            == needed_at(after.collections, source, time) - needed_at(
            state.collections,
            source,
            time,
        ) by {
        assert(asked_at(held.actions, source, time) - asked_at(start.actions, source, time)
            == needed_at(held.collections, source, time) - needed_at(
            start.collections,
            source,
            time,
        ));
        assert(asked_at(after.actions, source, time) == asked_at(held.actions, source, time));
    }
}

/// Sending a command asks storage for nothing.
pub proof fn lemma_sending_asks_nothing<P, L: FrontierLogic>(
    state: InstanceModel<P, L>,
    command: crate::command::CommandModel<P>,
)
    ensures
        forall|source: u64, time: u64| #[trigger]
            asked_at(state.send(command).actions, source, time) == asked_at(
                state.actions,
                source,
                time,
            ),
{
    assert forall|source: u64, time: u64| #[trigger]
        asked_at(state.send(command).actions, source, time) == asked_at(
            state.actions,
            source,
            time,
        ) by {
        lemma_asked_more(
            state.actions,
            ActionModel::Send {
                command,
                replicas: state.replicas.map_values(
                    |replica: crate::model::ReplicaModel<P>| replica.starts,
                ),
            },
            source,
            time,
        );
    }
}

/// Forgetting peeks asks storage for what is then needed.
pub proof fn law_removing_peeks_asks<P, L: FrontierLogic>(
    state: InstanceModel<P, L>,
    storage_ids: Set<u64>,
    uuids: Set<u128>,
)
    requires
        balanced(state),
        finitely_reported(state.collections),
        uuids.finite(),
    ensures
        asks_for_needs(state, state.remove_peeks(storage_ids, uuids)),
        finitely_reported(state.remove_peeks(storage_ids, uuids).collections),
{
    let peeks = state.peeks.remove_keys(uuids);
    let start = InstanceModel { peeks, spent: state.spent + uuids.len(), ..state };
    lemma_forgotten_peeks_make_up(state, uuids);
    lemma_update_asks(
        start,
        storage_ids,
        given_up(state.peeks, sorted_ids(uuids)),
        peeks,
    );
}

/// Policies that are assigned leave what the replicas have reported and what is read.
proof fn lemma_assigning_needs_nothing<L: FrontierLogic>(
    start: PolicyUpdate<L>,
    policies: Seq<(u64, PolicyModel<L>)>,
)
    requires
        finitely_reported(start.collections),
    ensures
        finitely_reported(start.assign_all(policies).collections),
        forall|source: u64, time: u64| #[trigger]
            needed_at(start.assign_all(policies).collections, source, time) == needed_at(
                start.collections,
                source,
                time,
            ),
    decreases policies.len(),
{
    if policies.len() > 0 {
        lemma_assigning_needs_nothing(start, policies.drop_last());
        let before = start.assign_all(policies.drop_last());
        let end = start.assign_all(policies);
        let id = policies.last().0;
        if before.missing is None && before.collections.contains_key(id) {
            let after = end.collections[id];
            assert(end.collections =~= before.collections.insert(id, after));
            assert(end.collections.dom() =~= before.collections.dom());
            assert forall|source: u64, time: u64| #[trigger]
                needed_at(end.collections, source, time) == needed_at(
                    start.collections,
                    source,
                    time,
                ) by {
                lemma_needs_change(before.collections, id, after, source, time);
                assert(needed_at(before.collections, source, time) == needed_at(
                    start.collections,
                    source,
                    time,
                ));
                let n = occurrences(after.storage_dependencies, source);
                assert(n * 0 == 0) by (nonlinear_arith);
            }
            assert forall|other: u64| #[trigger]
                end.collections.contains_key(other) implies end.collections[
                other
            ].replica_write_frontiers.dom().finite() by {
                assert(before.collections.contains_key(other));
            }
        }
    }
}

/// Assigning read policies to collections that exist asks storage for what is then needed.
pub proof fn law_policies_ask<P, L: FrontierLogic>(
    state: InstanceModel<P, L>,
    storage_ids: Set<u64>,
    policies: Seq<(u64, PolicyModel<L>)>,
)
    requires
        balanced(state),
        finitely_reported(state.collections),
        state.assigned(policies).missing is None,
    ensures
        asks_for_needs(state, state.set_read_policy(storage_ids, policies)),
        finitely_reported(state.set_read_policy(storage_ids, policies).collections),
{
    let start = state.assigned(Seq::empty());
    let update = state.assigned(policies);
    assert(update == start.assign_all(policies));
    let assigned = InstanceModel { collections: update.collections, spent: update.spent, ..state };
    lemma_assigning_needs_nothing(start, policies);
    lemma_policies_make_up(state, policies);
    lemma_update_asks(assigned, storage_ids, update.capabilities, state.peeks);
    let after = state.set_read_policy(storage_ids, policies);
    assert forall|source: u64, time: u64| #[trigger]
        asked_at(after.actions, source, time) - asked_at(state.actions, source, time)
            == needed_at(after.collections, source, time) - needed_at(
            state.collections,
            source,
            time,
        ) by {
        assert(asked_at(after.actions, source, time) - asked_at(assigned.actions, source, time)
            == needed_at(after.collections, source, time) - needed_at(
            assigned.collections,
            source,
            time,
        ));
        assert(needed_at(update.collections, source, time) == needed_at(
            start.collections,
            source,
            time,
        ));
    }
}

/// What is asked for twice adds up.
pub proof fn lemma_asks_twice<P, L>(
    first: InstanceModel<P, L>,
    second: InstanceModel<P, L>,
    third: InstanceModel<P, L>,
)
    requires
        asks_for_needs(first, second),
        asks_for_needs(second, third),
    ensures
        asks_for_needs(first, third),
{
    assert forall|source: u64, time: u64| #[trigger]
        asked_at(third.actions, source, time) - asked_at(first.actions, source, time)
            == needed_at(third.collections, source, time) - needed_at(
            first.collections,
            source,
            time,
        ) by {
        assert(asked_at(third.actions, source, time) - asked_at(second.actions, source, time)
            == needed_at(third.collections, source, time) - needed_at(
            second.collections,
            source,
            time,
        ));
        assert(asked_at(second.actions, source, time) - asked_at(first.actions, source, time)
            == needed_at(second.collections, source, time) - needed_at(
            first.collections,
            source,
            time,
        ));
    }
}

/// Reports that are taken in ask storage for what replicas then need.
pub proof fn lemma_absorbing_asks<L: FrontierLogic>(
    start: UpperUpdate<L>,
    replica: u64,
    uppers: Seq<(u64, Frontier)>,
)
    requires
        finitely_reported(start.collections),
        start.storage.is_empty(),
        forall|i: int|
            0 <= i < uppers.len() ==> start.collections.contains_key((#[trigger] uppers[i]).0),
    ensures
        ({
            let end = start.absorb_all(replica, uppers);
            &&& finitely_reported(end.collections)
            &&& end.collections.dom() == start.collections.dom()
            &&& forall|source: u64, time: u64|
                recorded(end.storage, source)(time) == #[trigger] needed_at(
                    end.collections,
                    source,
                    time,
                ) - needed_at(start.collections, source, time)
        }),
    decreases uppers.len(),
{
    if uppers.len() > 0 {
        let front = uppers.drop_last();
        assert forall|i: int| 0 <= i < front.len() implies start.collections.contains_key(
            (#[trigger] front[i]).0,
        ) by {
            assert(front[i] == uppers[i]);
        }
        lemma_absorbing_asks(start, replica, front);
        let before = start.absorb_all(replica, front);
        let end = start.absorb_all(replica, uppers);
        let (id, upper) = uppers[uppers.len() - 1];
        assert(start.collections.contains_key(id));
        let collection = before.collections[id];
        let after = end.collections[id];
        let move_ = moved(collection.reported(replica), upper);
        assert(end.collections =~= before.collections.insert(id, after));
        assert(end.collections.dom() =~= before.collections.dom());
        assert forall|other: u64| #[trigger]
            end.collections.contains_key(other) implies end.collections[
            other
        ].replica_write_frontiers.dom().finite() by {
            assert(before.collections.contains_key(other));
        }
        assert forall|source: u64, time: u64|
            recorded(end.storage, source)(time) == #[trigger] needed_at(
                end.collections,
                source,
                time,
            ) - needed_at(start.collections, source, time) by {
            assert(recorded(before.storage, source)(time) == needed_at(
                before.collections,
                source,
                time,
            ) - needed_at(start.collections, source, time));
            lemma_recorded_for_all(
                before.storage,
                collection.storage_dependencies,
                move_,
                source,
                time,
            );
            lemma_needs_change(before.collections, id, after, source, time);
            lemma_report_changes(collection, after, replica, upper, time);
        }
    }
}

/// A report replaces the one before it.
proof fn lemma_report_changes<L>(
    before: CollectionModel<L>,
    after: CollectionModel<L>,
    replica: u64,
    upper: Frontier,
    time: u64,
)
    requires
        before.replica_write_frontiers.dom().finite(),
        after.replica_write_frontiers == before.replica_write_frontiers.insert(replica, upper),
    ensures
        reported_at(after, time) == reported_at(before, time) + moved(
            before.reported(replica),
            upper,
        )(time),
{
    let old_frontiers = before.replica_write_frontiers;
    let new_frontiers = after.replica_write_frontiers;
    let old_term = |replica: u64| occurrences(old_frontiers[replica], time);
    let new_term = |replica: u64| occurrences(new_frontiers[replica], time);
    let rest = old_frontiers.dom().remove(replica);
    assert(new_frontiers.dom() =~= rest.insert(replica));
    lemma_sum_insert(rest, new_term, replica);
    lemma_sum_same(rest, old_term, new_term);
    if old_frontiers.contains_key(replica) {
        lemma_sum_remove(old_frontiers.dom(), old_term, replica);
    } else {
        assert(rest =~= old_frontiers.dom());
    }
}

/// Beyond the changes that follow from them, reports ask storage for the difference that they
/// make to what the replica needs there.
pub proof fn lemma_reports_ask<P, L: FrontierLogic>(
    state: InstanceModel<P, L>,
    storage_ids: Set<u64>,
    replica: u64,
    uppers: Seq<(u64, Frontier)>,
)
    requires
        finitely_reported(state.collections),
        state.tracks(uppers),
        finitely_reported(state.with_uppers(storage_ids, replica, uppers).collections),
    ensures
        ({
            let update = state.absorbed(replica, uppers);
            let applied = state.with_uppers(storage_ids, replica, uppers);
            let after = state.update_write_frontiers(storage_ids, replica, uppers);
            &&& finitely_reported(after.collections)
            &&& forall|source: u64, time: u64| #[trigger]
                asked_at(after.actions, source, time) - asked_at(applied.actions, source, time)
                    == needed_at(update.collections, source, time) - needed_at(
                    state.collections,
                    source,
                    time,
                ) && needed_at(after.collections, source, time) == needed_at(
                    applied.collections,
                    source,
                    time,
                )
        }),
{
    let start = state.absorbed(replica, Seq::empty());
    let update = state.absorbed(replica, uppers);
    assert(update == start.absorb_all(replica, uppers));
    assert(start.storage =~= Map::empty());
    lemma_absorbing_asks(start, replica, uppers);
    let applied = state.with_uppers(storage_ids, replica, uppers);
    let after = state.update_write_frontiers(storage_ids, replica, uppers);
    lemma_dropping_needs_nothing(applied.collections, after.collections, 0, 0);
    assert forall|source: u64, time: u64| #[trigger]
        asked_at(after.actions, source, time) - asked_at(applied.actions, source, time)
            == needed_at(update.collections, source, time) - needed_at(
            state.collections,
            source,
            time,
        ) && needed_at(after.collections, source, time) == needed_at(
            applied.collections,
            source,
            time,
        ) by {
        assert(recorded(update.storage, source)(time) == needed_at(
            update.collections,
            source,
            time,
        ) - needed_at(start.collections, source, time));
        lemma_dropping_needs_nothing(applied.collections, after.collections, source, time);
        let held = if update.storage.is_empty() {
            applied
        } else {
            applied.ask(ActionModel::UpdateStorageReadCapabilities(update.storage))
        };
        if update.storage.is_empty() {
            assert(!update.storage.contains_key(source));
        } else {
            lemma_asked_more(
                applied.actions,
                ActionModel::UpdateStorageReadCapabilities(update.storage),
                source,
                time,
            );
        }
        lemma_asked_more(
            held.actions,
            ActionModel::UpdateStorageWriteFrontiers(
                reports(update.collections, update.advanced, storage_ids),
            ),
            source,
            time,
        );
    }
}

/// Taking in write frontiers, at most one for each collection, asks storage for what is then
/// needed.
pub proof fn law_uppers_ask<P, L: FrontierLogic>(
    state: InstanceModel<P, L>,
    storage_ids: Set<u64>,
    replica: u64,
    uppers: Seq<(u64, Frontier)>,
)
    requires
        balanced(state),
        finitely_reported(state.collections),
        state.tracks(uppers),
        distinct(uppers),
    ensures
        asks_for_needs(state, state.update_write_frontiers(storage_ids, replica, uppers)),
        finitely_reported(
            state.update_write_frontiers(storage_ids, replica, uppers).collections,
        ),
{
    let start = state.absorbed(replica, Seq::empty());
    let update = state.absorbed(replica, uppers);
    assert(update == start.absorb_all(replica, uppers));
    assert(start.storage =~= Map::empty());
    lemma_absorbing_asks(start, replica, uppers);
    let absorbed = InstanceModel { collections: update.collections, spent: update.spent, ..state };
    lemma_uppers_make_up(state, replica, uppers);
    lemma_update_asks(absorbed, storage_ids, update.capabilities, state.peeks);
    lemma_reports_ask(state, storage_ids, replica, uppers);
    let applied = state.with_uppers(storage_ids, replica, uppers);
    let after = state.update_write_frontiers(storage_ids, replica, uppers);
    assert forall|source: u64, time: u64| #[trigger]
        asked_at(after.actions, source, time) - asked_at(state.actions, source, time)
            == needed_at(after.collections, source, time) - needed_at(
            state.collections,
            source,
            time,
        ) by {
        assert(asked_at(applied.actions, source, time) - asked_at(absorbed.actions, source, time)
            == needed_at(applied.collections, source, time) - needed_at(
            absorbed.collections,
            source,
            time,
        ));
        assert(asked_at(after.actions, source, time) - asked_at(applied.actions, source, time)
            == needed_at(update.collections, source, time) - needed_at(
            state.collections,
            source,
            time,
        ));
    }
}

/// What a collection no longer needs when a replica is forgotten, as a number that is not
/// positive.
spec fn given_back<L>(
    collections: Map<u64, CollectionModel<L>>,
    replica: u64,
    source: u64,
    time: u64,
) -> spec_fn(u64) -> int {
    |id: u64|
        occurrences(collections[id].storage_dependencies, source) * moved(
            collections[id].reported(replica),
            Seq::empty(),
        )(time)
}

/// What is released for the collections of a list is what they no longer need.
proof fn lemma_released<L>(
    collections: Map<u64, CollectionModel<L>>,
    replica: u64,
    ids: Seq<u64>,
    source: u64,
    time: u64,
)
    requires
        increasing(ids),
    ensures
        recorded(released(collections, replica, ids), source)(time) == sum_over(
            ids.to_set(),
            given_back(collections, replica, source, time),
        ),
    decreases ids.len(),
{
    broadcast use vstd::seq_lib::seq_to_set_is_finite;

    let term = given_back(collections, replica, source, time);
    if ids.len() == 0 {
        assert(ids.to_set() =~= Set::empty());
    } else {
        let front = ids.drop_last();
        let last = ids.last();
        assert(increasing(front));
        lemma_released(collections, replica, front, source, time);
        assert(!front.contains(last)) by {
            if front.contains(last) {
                let i = choose|i: int| 0 <= i < front.len() && front[i] == last;
                assert(ids[i] < ids[ids.len() - 1]);
            }
        }
        assert(ids.to_set() =~= front.to_set().insert(last)) by {
            assert forall|id: u64| ids.to_set().contains(id) <==> front.to_set().insert(
                last,
            ).contains(id) by {
                if front.contains(id) {
                    let i = choose|i: int| 0 <= i < front.len() && front[i] == id;
                    assert(ids[i] == id);
                }
                if id == last {
                    assert(ids[ids.len() - 1] == id);
                }
                if ids.contains(id) && id != last {
                    let i = choose|i: int| 0 <= i < ids.len() && ids[i] == id;
                    assert(front[i] == id);
                }
            }
        }
        lemma_sum_insert(front.to_set(), term, last);
        let collection = collections[last];
        if collection.replica_write_frontiers.contains_key(replica) {
            lemma_recorded_for_all(
                released(collections, replica, front),
                collection.storage_dependencies,
                moved(collection.reported(replica), Seq::empty()),
                source,
                time,
            );
        } else {
            let n = occurrences(collection.storage_dependencies, source);
            assert(n * 0 == 0) by (nonlinear_arith);
        }
    }
}

/// Forgetting what a replica has reported asks storage for what is then needed.
pub proof fn law_forgetting_uppers_asks<P, L: FrontierLogic>(
    state: InstanceModel<P, L>,
    replica: u64,
)
    requires
        finitely_reported(state.collections),
    ensures
        asks_for_needs(state, state.remove_write_frontiers(replica)),
        finitely_reported(state.remove_write_frontiers(replica).collections),
{
    let ids = sorted_ids(state.collections.dom());
    let storage = released(state.collections, replica, ids);
    let forgotten = state.collections.map_values(
        |collection: CollectionModel<L>| collection.without_replica(replica),
    );
    let after = state.remove_write_frontiers(replica);
    lemma_sorted_ids(state.collections.dom());
    assert(ids.to_set() =~= state.collections.dom());
    assert(forgotten.dom() =~= state.collections.dom());
    assert(finitely_reported(forgotten)) by {
        assert forall|id: u64| #[trigger] forgotten.contains_key(id) implies forgotten[
            id
        ].replica_write_frontiers.dom().finite() by {
            assert(state.collections.contains_key(id));
            assert(forgotten[id].replica_write_frontiers.dom()
                =~= state.collections[id].replica_write_frontiers.dom().remove(replica));
        }
    }
    lemma_dropping_needs_nothing(forgotten, after.collections, 0, 0);
    assert forall|source: u64, time: u64| #[trigger]
        asked_at(after.actions, source, time) - asked_at(state.actions, source, time)
            == needed_at(after.collections, source, time) - needed_at(
            state.collections,
            source,
            time,
        ) by {
        lemma_dropping_needs_nothing(forgotten, after.collections, source, time);
        lemma_released(state.collections, replica, ids, source, time);
        let term = given_back(state.collections, replica, source, time);
        assert forall|id: u64| #[trigger] state.collections.dom().contains(id) implies needed_by(
            forgotten,
            source,
            time,
        )(id) == needed_by(state.collections, source, time)(id) + term(id) by {
            let before = state.collections[id];
            lemma_report_forgotten(before, replica, time);
            let n = occurrences(before.storage_dependencies, source);
            let a = occurrences(before.read_frontier(), time) + reported_at(before, time);
            let b = moved(before.reported(replica), Seq::empty())(time);
            assert(n * (a + b) == n * a + n * b) by (nonlinear_arith);
        }
        lemma_sum_plus(
            state.collections.dom(),
            needed_by(state.collections, source, time),
            term,
            needed_by(forgotten, source, time),
        );
        if storage.is_empty() {
            assert(!storage.contains_key(source));
        } else {
            lemma_asked_more(
                state.actions,
                ActionModel::UpdateStorageReadCapabilities(storage),
                source,
                time,
            );
        }
    }
}

/// A report that is forgotten no longer counts.
proof fn lemma_report_forgotten<L>(before: CollectionModel<L>, replica: u64, time: u64)
    requires
        before.replica_write_frontiers.dom().finite(),
    ensures
        reported_at(before.without_replica(replica), time) == reported_at(before, time) + moved(
            before.reported(replica),
            Seq::empty(),
        )(time),
{
    let old_frontiers = before.replica_write_frontiers;
    let new_frontiers = before.without_replica(replica).replica_write_frontiers;
    let old_term = |replica: u64| occurrences(old_frontiers[replica], time);
    let new_term = |replica: u64| occurrences(new_frontiers[replica], time);
    assert(new_frontiers.dom() =~= old_frontiers.dom().remove(replica));
    lemma_sum_same(new_frontiers.dom(), old_term, new_term);
    if old_frontiers.contains_key(replica) {
        lemma_sum_remove(old_frontiers.dom(), old_term, replica);
    } else {
        assert(new_frontiers.dom() =~= old_frontiers.dom());
    }
}

} // verus!
