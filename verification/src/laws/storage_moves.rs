//! What storage is asked for when changes travel, whatever is held and whoever holds it.
use vstd::prelude::*;

use super::accounts::{
    held_by, held_by_readers, law_capabilities_change_alone, lemma_dropping_accounts,
    lemma_reader_moves, lemma_recorded_finite, lemma_recorded_for_all,
};
use super::growth::{law_uppers_add_nothing, lemma_absorbing_keeps};
use super::storage_claims::{
    asked_at, asks_for_needs, finitely_reported, lemma_absorbing_asks, lemma_asked_by_update,
    lemma_dropping_needs_nothing, lemma_needs_change, lemma_reports_ask, needed_at,
};
use crate::changes::{lemma_occurrences, moved, occurrences, recorded, Counts};
use crate::collection::CollectionModel;
use crate::frontier::Frontier;
use crate::model::{InstanceModel, UpperUpdate};
use crate::ordered::greatest;
use crate::policy::FrontierLogic;
use crate::propagation::{
    acyclic, dependencies, lemma_pending_greatest, lemma_settled, lemma_settles, Propagation,
};
use crate::sums::{lemma_sum_of_equals, lemma_sum_same};

verus! {

/// Whether `id` is no compute collection but a storage collection, so that storage gets the
/// changes that are meant for a compute collection of that name.
pub open spec fn strays<L>(
    collections: Map<u64, CollectionModel<L>>,
    storage_ids: Set<u64>,
    id: u64,
) -> bool {
    storage_ids.contains(id) && !collections.contains_key(id)
}

/// How many read capabilities the readers of `id` hold at `time`, where storage gets the changes
/// to these.
pub open spec fn stray_holds<L>(
    collections: Map<u64, CollectionModel<L>>,
    storage_ids: Set<u64>,
    id: u64,
    time: u64,
) -> int {
    if strays(collections, storage_ids, id) {
        held_by_readers(collections, id, time)
    } else {
        0
    }
}

/// The changes that are recorded for `id` at `time`, where storage gets these.
pub open spec fn stray_changes<L>(
    collections: Map<u64, CollectionModel<L>>,
    storage_ids: Set<u64>,
    changes: Map<u64, Counts>,
    id: u64,
    time: u64,
) -> int {
    if strays(collections, storage_ids, id) {
        recorded(changes, id)(time)
    } else {
        0
    }
}

/// Whether what is recorded for storage, and what will be, is what the collections need beyond
/// `start`, and what strays.
spec fn passing_on<L>(
    state: Propagation<L>,
    storage_ids: Set<u64>,
    start: Map<u64, CollectionModel<L>>,
    updates: Map<u64, Counts>,
) -> bool {
    &&& state.collections.dom() == start.dom()
    &&& state.pending.dom().finite()
    &&& forall|source: u64, time: u64|
        recorded(state.storage, source)(time) + stray_changes(
            start,
            storage_ids,
            state.pending,
            source,
            time,
        ) == #[trigger] needed_at(state.collections, source, time) - needed_at(start, source, time)
            + stray_holds(state.collections, storage_ids, source, time) - stray_holds(
            start,
            storage_ids,
            source,
            time,
        ) + stray_changes(start, storage_ids, updates, source, time)
}

/// A step passes on what is needed, and what strays.
#[verifier::spinoff_prover]
proof fn lemma_step_passes_on<L>(
    state: Propagation<L>,
    storage_ids: Set<u64>,
    start: Map<u64, CollectionModel<L>>,
    updates: Map<u64, Counts>,
)
    requires
        start.dom().finite(),
        passing_on(state, storage_ids, start, updates),
        !state.pending.is_empty(),
    ensures
        passing_on(state.step(storage_ids), storage_ids, start, updates),
{
    lemma_pending_greatest(state);
    let first = greatest(state.pending.dom());
    let rest = state.pending.remove(first);
    let next = state.step(storage_ids);
    assert(rest.dom() =~= state.pending.dom().remove(first));
    assert(next.collections.dom() =~= start.dom());
    if state.collections.contains_key(first) {
        let before = state.collections[first];
        let after = before.with_changes(state.pending[first]);
        let move_ = moved(before.read_frontier(), after.read_frontier());
        lemma_recorded_finite(rest, before.compute_dependencies, move_);
        assert forall|source: u64, time: u64|
            recorded(next.storage, source)(time) + stray_changes(
                start,
                storage_ids,
                next.pending,
                source,
                time,
            ) == #[trigger] needed_at(next.collections, source, time) - needed_at(
                start,
                source,
                time,
            ) + stray_holds(next.collections, storage_ids, source, time) - stray_holds(
                start,
                storage_ids,
                source,
                time,
            ) + stray_changes(start, storage_ids, updates, source, time) by {
            let known = needed_at(state.collections, source, time);
            lemma_recorded_for_all(
                state.storage,
                before.storage_dependencies,
                move_,
                source,
                time,
            );
            lemma_needs_change(state.collections, first, after, source, time);
            if strays(start, storage_ids, source) {
                lemma_recorded_for_all(rest, before.compute_dependencies, move_, source, time);
                lemma_reader_moves(state.collections, first, after, source, time);
            }
        }
    } else {
        assert forall|source: u64, time: u64|
            recorded(next.storage, source)(time) + stray_changes(
                start,
                storage_ids,
                next.pending,
                source,
                time,
            ) == #[trigger] needed_at(next.collections, source, time) - needed_at(
                start,
                source,
                time,
            ) + stray_holds(next.collections, storage_ids, source, time) - stray_holds(
                start,
                storage_ids,
                source,
                time,
            ) + stray_changes(start, storage_ids, updates, source, time) by {
            let known = needed_at(state.collections, source, time);
        }
    }
}

/// Any number of steps passes on what is needed, and what strays.
proof fn lemma_steps_pass_on<L>(
    state: Propagation<L>,
    storage_ids: Set<u64>,
    start: Map<u64, CollectionModel<L>>,
    updates: Map<u64, Counts>,
    n: nat,
)
    requires
        start.dom().finite(),
        passing_on(state, storage_ids, start, updates),
    ensures
        passing_on(state.steps(storage_ids, n), storage_ids, start, updates),
    decreases n,
{
    if n > 0 {
        lemma_steps_pass_on(state, storage_ids, start, updates, (n - 1) as nat);
        let before = state.steps(storage_ids, (n - 1) as nat);
        if !before.pending.is_empty() {
            lemma_step_passes_on(before, storage_ids, start, updates);
        }
    }
}

/// Changes to read capabilities ask storage for exactly the difference that they make to what
/// the collections need there, and for what is meant for compute collections that do not exist
/// but have the name of a storage collection.
pub proof fn law_update_asks<P, L: FrontierLogic>(
    state: InstanceModel<P, L>,
    storage_ids: Set<u64>,
    updates: Map<u64, Counts>,
    source: u64,
    time: u64,
)
    requires
        finitely_reported(state.collections),
        updates.dom().finite(),
        acyclic(dependencies(state.collections)),
    ensures
        ({
            let after = state.update_read_capabilities(storage_ids, updates);
            let settled = state.propagation(updates).settled(storage_ids).collections;
            &&& asked_at(after.actions, source, time) - asked_at(state.actions, source, time)
                == needed_at(after.collections, source, time) - needed_at(
                state.collections,
                source,
                time,
            ) + stray_holds(settled, storage_ids, source, time) - stray_holds(
                state.collections,
                storage_ids,
                source,
                time,
            ) + stray_changes(state.collections, storage_ids, updates, source, time)
            &&& needed_at(after.collections, source, time) == needed_at(settled, source, time)
            &&& finitely_reported(after.collections)
        }),
{
    let start = state.propagation(updates);
    let collections = state.collections;
    lemma_settles(start, storage_ids);
    let n = start.steps_to_settle(storage_ids);
    lemma_settled(start, storage_ids, n);
    lemma_steps_pass_on(start, storage_ids, collections, updates, n);
    law_capabilities_change_alone(state, storage_ids, updates);
    lemma_asked_by_update(state, storage_ids, updates, source, time);
    let end = start.settled(storage_ids);
    let after = state.update_read_capabilities(storage_ids, updates);
    let known = needed_at(end.collections, source, time);
    assert(stray_changes(collections, storage_ids, end.pending, source, time) == 0) by {
        assert(!end.pending.contains_key(source));
    }
    assert(finitely_reported(end.collections)) by {
        assert forall|id: u64| #[trigger]
            end.collections.contains_key(id) implies end.collections[
            id
        ].replica_write_frontiers.dom().finite() by {
            assert(collections.contains_key(id));
        }
    }
    assert(after.collections.dom().subset_of(end.collections.dom())) by {
        assert forall|id: u64| after.collections.dom().contains(
            id,
        ) implies end.collections.dom().contains(id) by {
            assert(after.collections.contains_key(id));
        }
    }
    assert forall|id: u64| #[trigger]
        end.collections.contains_key(id) && !after.collections.contains_key(
            id,
        ) implies end.collections[id].is_droppable() by {
        assert(collections.contains_key(id) && !after.collections.contains_key(id));
    }
    lemma_dropping_needs_nothing(end.collections, after.collections, source, time);
}

/// Whether no compute collection depends on a name that only storage has a collection of.
pub open spec fn none_strays<L>(
    collections: Map<u64, CollectionModel<L>>,
    storage_ids: Set<u64>,
) -> bool {
    forall|reader: u64, i: int|
        collections.contains_key(reader) && 0 <= i < collections[reader].compute_dependencies.len()
            ==> !strays(
            collections,
            storage_ids,
            #[trigger] collections[reader].compute_dependencies[i],
        )
}

/// Nothing is held on what no collection depends on.
proof fn lemma_unnamed_is_unheld<L>(
    collections: Map<u64, CollectionModel<L>>,
    id: u64,
    time: u64,
)
    requires
        collections.dom().finite(),
        forall|reader: u64, i: int|
            collections.contains_key(reader) && 0 <= i
                < collections[reader].compute_dependencies.len() ==> #[trigger] collections[
                reader
            ].compute_dependencies[i] != id,
    ensures
        held_by_readers(collections, id, time) == 0,
{
    let term = held_by(collections, id, time);
    assert forall|reader: u64| #[trigger] collections.dom().contains(reader) implies term(reader)
        == 0 by {
        let list = collections[reader].compute_dependencies;
        lemma_occurrences(list, id);
        if list.contains(id) {
            let i = choose|i: int| 0 <= i < list.len() && list[i] == id;
            assert(collections[reader].compute_dependencies[i] != id);
        }
        let x = occurrences(collections[reader].read_frontier(), time);
        assert(0 * x == 0) by (nonlinear_arith);
    }
    lemma_sum_of_equals(collections.dom(), term, 0);
    assert(collections.dom().len() * 0 == 0) by (nonlinear_arith);
}

/// Reports leave the collections and what they depend on, and change capabilities of collections
/// that exist.
proof fn lemma_absorbing_stays<L: FrontierLogic>(
    start: UpperUpdate<L>,
    replica: u64,
    uppers: Seq<(u64, Frontier)>,
)
    requires
        start.capabilities.dom().finite(),
        start.capabilities.dom().subset_of(start.collections.dom()),
        forall|i: int|
            0 <= i < uppers.len() ==> start.collections.contains_key((#[trigger] uppers[i]).0),
    ensures
        ({
            let end = start.absorb_all(replica, uppers);
            &&& dependencies(end.collections) == dependencies(start.collections)
            &&& end.capabilities.dom().finite()
            &&& end.capabilities.dom().subset_of(start.collections.dom())
        }),
    decreases uppers.len(),
{
    if uppers.len() > 0 {
        let front = uppers.drop_last();
        assert forall|i: int| 0 <= i < front.len() implies start.collections.contains_key(
            (#[trigger] front[i]).0,
        ) by {
            assert(front[i] == uppers[i]);
        }
        lemma_absorbing_stays(start, replica, front);
        let before = start.absorb_all(replica, front);
        let end = start.absorb_all(replica, uppers);
        let id = uppers[uppers.len() - 1].0;
        assert(start.collections.contains_key(id));
        assert(dependencies(before.collections).dom() =~= before.collections.dom());
        assert(dependencies(start.collections).dom() =~= start.collections.dom());
        assert(before.collections.contains_key(id));
        assert(dependencies(end.collections) =~= dependencies(before.collections));
    }
}

/// Taking in any list of write frontiers asks storage for exactly the difference that it makes
/// to what the collections need there: the moves of their read frontiers, and of what the
/// replica has reported. For a name that is no compute collection but a storage collection, the
/// difference comes to it that the list makes to what readers of that name hold. No accounts
/// have to be balanced, and a collection may be named more than once.
pub proof fn law_uppers_ask_for_moves<P, L: FrontierLogic>(
    state: InstanceModel<P, L>,
    storage_ids: Set<u64>,
    replica: u64,
    uppers: Seq<(u64, Frontier)>,
    source: u64,
    time: u64,
)
    requires
        finitely_reported(state.collections),
        acyclic(dependencies(state.collections)),
        state.tracks(uppers),
    ensures
        ({
            let after = state.update_write_frontiers(storage_ids, replica, uppers);
            &&& asked_at(after.actions, source, time) - asked_at(state.actions, source, time)
                == needed_at(after.collections, source, time) - needed_at(
                state.collections,
                source,
                time,
            ) + if strays(state.collections, storage_ids, source) {
                held_by_readers(after.collections, source, time) - held_by_readers(
                    state.collections,
                    source,
                    time,
                )
            } else {
                0
            }
            &&& finitely_reported(after.collections)
        }),
{
    let start = state.absorbed(replica, Seq::empty());
    let update = state.absorbed(replica, uppers);
    assert(update == start.absorb_all(replica, uppers));
    assert(start.storage =~= Map::empty());
    assert(start.capabilities.dom() =~= Set::empty());
    lemma_absorbing_asks(start, replica, uppers);
    lemma_absorbing_stays(start, replica, uppers);
    lemma_absorbing_keeps(start, replica, uppers);
    let absorbed = InstanceModel { collections: update.collections, spent: update.spent, ..state };
    let applied = state.with_uppers(storage_ids, replica, uppers);
    let settled = absorbed.propagation(update.capabilities).settled(storage_ids).collections;
    let after = state.update_write_frontiers(storage_ids, replica, uppers);
    law_capabilities_change_alone(absorbed, storage_ids, update.capabilities);
    law_update_asks(absorbed, storage_ids, update.capabilities, source, time);
    lemma_reports_ask(state, storage_ids, replica, uppers);
    assert(asked_at(after.actions, source, time) - asked_at(applied.actions, source, time)
        == needed_at(update.collections, source, time) - needed_at(
        state.collections,
        source,
        time,
    ));
    if strays(state.collections, storage_ids, source) {
        assert(!update.capabilities.dom().contains(source));
        lemma_sum_same(
            state.collections.dom(),
            held_by(state.collections, source, time),
            held_by(update.collections, source, time),
        );
        assert forall|id: u64| #[trigger]
            settled.contains_key(id) && !after.collections.contains_key(
                id,
            ) implies settled[id].read_frontier().len() == 0 by {
            assert(absorbed.collections.contains_key(id));
            if applied.collections.contains_key(id) {
                assert(applied.collections[id] == settled[id]);
            }
        }
        assert forall|id: u64| #[trigger] after.collections.contains_key(
            id,
        ) implies settled.contains_key(id) && after.collections[id] == settled[id] by {
            assert(applied.collections.contains_key(id));
            assert(absorbed.collections.contains_key(id));
        }
        assert(after.collections.dom().subset_of(settled.dom())) by {
            assert forall|id: u64| after.collections.dom().contains(
                id,
            ) implies settled.dom().contains(id) by {
                assert(after.collections.contains_key(id));
            }
        }
        lemma_dropping_accounts(settled, after.collections, source, time);
    }
}

/// Where no name strays, taking in any list of write frontiers asks storage for exactly the
/// difference that it makes to what the collections need there.
pub proof fn law_uppers_ask_for_needs<P, L: FrontierLogic>(
    state: InstanceModel<P, L>,
    storage_ids: Set<u64>,
    replica: u64,
    uppers: Seq<(u64, Frontier)>,
)
    requires
        finitely_reported(state.collections),
        acyclic(dependencies(state.collections)),
        none_strays(state.collections, storage_ids),
        state.tracks(uppers),
    ensures
        asks_for_needs(state, state.update_write_frontiers(storage_ids, replica, uppers)),
{
    let after = state.update_write_frontiers(storage_ids, replica, uppers);
    law_uppers_add_nothing(state, storage_ids, replica, uppers);
    assert forall|source: u64, time: u64| #[trigger]
        asked_at(after.actions, source, time) - asked_at(state.actions, source, time)
            == needed_at(after.collections, source, time) - needed_at(
            state.collections,
            source,
            time,
        ) by {
        law_uppers_ask_for_moves(state, storage_ids, replica, uppers, source, time);
        if strays(state.collections, storage_ids, source) {
            lemma_unnamed_is_unheld(state.collections, source, time);
            assert forall|reader: u64, i: int|
                after.collections.contains_key(reader) && 0 <= i < after.collections[
                    reader
                ].compute_dependencies.len() implies #[trigger] after.collections[
                reader
            ].compute_dependencies[i] != source by {
                assert(state.collections.contains_key(reader));
                assert(!strays(
                    state.collections,
                    storage_ids,
                    state.collections[reader].compute_dependencies[i],
                ));
            }
            lemma_unnamed_is_unheld(after.collections, source, time);
        }
    }
}

} // verus!
