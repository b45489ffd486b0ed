//! Every read capability that is held on a collection is held by someone: by the policy of the
//! collection, by a collection that reads it, or by a pending peek.
use vstd::prelude::*;

use crate::changes::{add_to_all, moved, occurrences, plus, recorded, Counts};
use crate::collection::CollectionModel;
use crate::model::InstanceModel;
use crate::ordered::greatest;
use crate::pending::PendingPeek;
use crate::policy::FrontierLogic;
use crate::propagation::{
    acyclic, dependencies, lemma_pending_greatest, lemma_settled, lemma_settles, Propagation,
};
use crate::sums::{lemma_sum_part, lemma_sum_remove, lemma_sum_same, sum_over};

verus! {

/// How many read capabilities each collection holds on `id` at `time`: as many as its read
/// frontier has there, each time that it depends on `id`.
pub open spec fn held_by<L>(
    collections: Map<u64, CollectionModel<L>>,
    id: u64,
    time: u64,
) -> spec_fn(u64) -> int {
    |reader: u64|
        occurrences(collections[reader].compute_dependencies, id) * occurrences(
            collections[reader].read_frontier(),
            time,
        )
}

/// How many read capabilities all collections together hold on `id` at `time`.
pub open spec fn held_by_readers<L>(
    collections: Map<u64, CollectionModel<L>>,
    id: u64,
    time: u64,
) -> int {
    sum_over(collections.dom(), held_by(collections, id, time))
}

/// Whether each peek reads `id` at `time`, as a number.
pub open spec fn reads_at<P>(peeks: Map<u128, PendingPeek<P>>, id: u64, time: u64) -> spec_fn(
    u128,
) -> int {
    |uuid: u128|
        if peeks[uuid].target == id && peeks[uuid].time == time {
            1int
        } else {
            0int
        }
}

/// How many pending peeks read `id` at `time`.
pub open spec fn held_by_peeks<P>(peeks: Map<u128, PendingPeek<P>>, id: u64, time: u64) -> int {
    sum_over(peeks.dom(), reads_at(peeks, id, time))
}

/// How many read capabilities are accumulated for `id` at `time`.
pub open spec fn capabilities_at<L>(
    collections: Map<u64, CollectionModel<L>>,
    id: u64,
    time: u64,
) -> int {
    (collections[id].read_capabilities)(time)
}

/// How many read capabilities the policy of `id` and the pending peeks hold on it at `time`.
pub open spec fn held_directly<P, L>(
    collections: Map<u64, CollectionModel<L>>,
    peeks: Map<u128, PendingPeek<P>>,
) -> spec_fn(u64, u64) -> int {
    |id: u64, time: u64|
        occurrences(collections[id].implied_capability, time) + held_by_peeks(peeks, id, time)
}

/// Whether the read capabilities that are accumulated for each collection are those that its
/// policy, the collections that read it and the pending peeks hold.
pub open spec fn accounted<P, L>(
    collections: Map<u64, CollectionModel<L>>,
    peeks: Map<u128, PendingPeek<P>>,
) -> bool {
    forall|id: u64, time: u64|
        collections.contains_key(id) ==> #[trigger] capabilities_at(collections, id, time)
            == held_directly(collections, peeks)(id, time) + held_by_readers(
            collections,
            id,
            time,
        )
}

/// Whether the same holds once the pending changes are applied, where `direct` says what is held
/// other than by readers.
pub open spec fn accounted_when_settled<L>(
    collections: Map<u64, CollectionModel<L>>,
    pending: Map<u64, Counts>,
    direct: spec_fn(u64, u64) -> int,
) -> bool {
    forall|id: u64, time: u64|
        collections.contains_key(id) ==> #[trigger] capabilities_at(collections, id, time)
            + recorded(pending, id)(time) == direct(id, time) + held_by_readers(
            collections,
            id,
            time,
        )
}

/// Recording changes for each of the identifiers records them as often as each occurs.
pub proof fn lemma_recorded_for_all(
    changes: Map<u64, Counts>,
    ids: Seq<u64>,
    more: Counts,
    id: u64,
    time: u64,
)
    ensures
        recorded(add_to_all(changes, ids, more), id)(time) == recorded(changes, id)(time)
            + occurrences(ids, id) * more(time),
    decreases ids.len(),
{
    if ids.len() == 0 {
        assert(0 * more(time) == 0) by (nonlinear_arith);
    } else {
        lemma_recorded_for_all(changes, ids.drop_last(), more, id, time);
        let n = occurrences(ids.drop_last(), id);
        let m = more(time);
        assert((n + 1) * m == n * m + m) by (nonlinear_arith);
        let before = add_to_all(changes, ids.drop_last(), more);
        if ids.last() == id {
            assert(recorded(add_to_all(changes, ids, more), id) == plus(
                recorded(before, id),
                more,
            ));
        } else {
            assert(recorded(add_to_all(changes, ids, more), id) == recorded(before, id));
        }
    }
}

/// When one collection changes, what its readers hold changes by what it holds.
pub proof fn lemma_reader_moves<L>(
    collections: Map<u64, CollectionModel<L>>,
    reader: u64,
    after: CollectionModel<L>,
    id: u64,
    time: u64,
)
    requires
        collections.dom().finite(),
        collections.contains_key(reader),
        after.compute_dependencies == collections[reader].compute_dependencies,
    ensures
        held_by_readers(collections.insert(reader, after), id, time) == held_by_readers(
            collections, id, time) + occurrences(after.compute_dependencies, id) * moved(
            collections[reader].read_frontier(),
            after.read_frontier(),
        )(time),
{
    let changed = collections.insert(reader, after);
    let before = held_by(collections, id, time);
    let then = held_by(changed, id, time);
    assert(changed.dom() =~= collections.dom());
    lemma_sum_remove(collections.dom(), before, reader);
    lemma_sum_remove(collections.dom(), then, reader);
    lemma_sum_same(collections.dom().remove(reader), before, then);
    let n = occurrences(after.compute_dependencies, id);
    let to = occurrences(after.read_frontier(), time);
    let from = occurrences(collections[reader].read_frontier(), time);
    assert(n * to == n * from + n * (to - from)) by (nonlinear_arith);
}

/// A step keeps the accounts of what is to be settled.
proof fn lemma_step_accounts<L>(
    state: Propagation<L>,
    storage_ids: Set<u64>,
    direct: spec_fn(u64, u64) -> int,
)
    requires
        state.collections.dom().finite(),
        state.pending.dom().finite(),
        !state.pending.is_empty(),
        accounted_when_settled(state.collections, state.pending, direct),
    ensures
        accounted_when_settled(
            state.step(storage_ids).collections,
            state.step(storage_ids).pending,
            direct,
        ),
        state.step(storage_ids).collections.dom() == state.collections.dom(),
        state.step(storage_ids).pending.dom().finite(),
{
    lemma_pending_greatest(state);
    let first = greatest(state.pending.dom());
    let rest = state.pending.remove(first);
    let next = state.step(storage_ids);
    assert(rest.dom() =~= state.pending.dom().remove(first));
    assert(next.collections.dom() =~= state.collections.dom());
    if state.collections.contains_key(first) {
        let before = state.collections[first];
        let after = before.with_changes(state.pending[first]);
        let move_ = moved(before.read_frontier(), after.read_frontier());
        lemma_recorded_finite(rest, before.compute_dependencies, move_);
        assert forall|id: u64, time: u64|
            next.collections.contains_key(id) implies #[trigger] capabilities_at(
            next.collections,
            id,
            time,
        ) + recorded(next.pending, id)(time) == direct(id, time) + held_by_readers(
            next.collections,
            id,
            time,
        ) by {
            assert(capabilities_at(state.collections, id, time) + recorded(state.pending, id)(time)
                == direct(id, time) + held_by_readers(
                state.collections,
                id,
                time,
            ));
            lemma_recorded_for_all(rest, before.compute_dependencies, move_, id, time);
            lemma_reader_moves(state.collections, first, after, id, time);
        }
    } else {
        assert forall|id: u64, time: u64|
            next.collections.contains_key(id) implies #[trigger] capabilities_at(
            next.collections,
            id,
            time,
        ) + recorded(next.pending, id)(time) == direct(id, time) + held_by_readers(
            next.collections,
            id,
            time,
        ) by {
            assert(capabilities_at(state.collections, id, time) + recorded(state.pending, id)(time)
                == direct(id, time) + held_by_readers(
                state.collections,
                id,
                time,
            ));
        }
    }
}

/// Recording changes for finitely many identifiers leaves finitely many records.
pub proof fn lemma_recorded_finite(changes: Map<u64, Counts>, ids: Seq<u64>, more: Counts)
    requires
        changes.dom().finite(),
    ensures
        add_to_all(changes, ids, more).dom().finite(),
    decreases ids.len(),
{
    if ids.len() > 0 {
        lemma_recorded_finite(changes, ids.drop_last(), more);
        let before = add_to_all(changes, ids.drop_last(), more);
        assert(add_to_all(changes, ids, more).dom() =~= before.dom().insert(ids.last()));
    }
}

/// What changes in a collection while changes travel: its read capabilities alone.
pub open spec fn same_but_capabilities<L>(
    left: CollectionModel<L>,
    right: CollectionModel<L>,
) -> bool {
    left == (CollectionModel { read_capabilities: left.read_capabilities, ..right })
}

/// Any number of steps keeps the accounts of what is to be settled, and changes nothing but read
/// capabilities.
proof fn lemma_steps_account<L>(
    state: Propagation<L>,
    storage_ids: Set<u64>,
    direct: spec_fn(u64, u64) -> int,
    n: nat,
)
    requires
        state.collections.dom().finite(),
        state.pending.dom().finite(),
        accounted_when_settled(state.collections, state.pending, direct),
    ensures
        accounted_when_settled(
            state.steps(storage_ids, n).collections,
            state.steps(storage_ids, n).pending,
            direct,
        ),
        state.steps(storage_ids, n).collections.dom() == state.collections.dom(),
        state.steps(storage_ids, n).pending.dom().finite(),
    decreases n,
{
    if n > 0 {
        lemma_steps_account(state, storage_ids, direct, (n - 1) as nat);
        let before = state.steps(storage_ids, (n - 1) as nat);
        if !before.pending.is_empty() {
            lemma_step_accounts(before, storage_ids, direct);
        }
    }
}

/// Any number of steps keeps the collections, and changes nothing but their read capabilities.
pub proof fn lemma_steps_keep<L>(state: Propagation<L>, storage_ids: Set<u64>, n: nat)
    ensures
        state.steps(storage_ids, n).collections.dom() == state.collections.dom(),
        forall|id: u64| #[trigger]
            state.collections.contains_key(id) ==> same_but_capabilities(
                state.steps(storage_ids, n).collections[id],
                state.collections[id],
            ),
    decreases n,
{
    if n > 0 {
        lemma_steps_keep(state, storage_ids, (n - 1) as nat);
        let before = state.steps(storage_ids, (n - 1) as nat);
        if !before.pending.is_empty() {
            let next = before.step(storage_ids);
            assert(next.collections.dom() =~= before.collections.dom());
        }
    }
}

/// Changes to read capabilities change nothing of a collection but these, and add none; a
/// collection that is gone could be dropped.
pub proof fn law_capabilities_change_alone<P, L: FrontierLogic>(
    state: InstanceModel<P, L>,
    storage_ids: Set<u64>,
    updates: Map<u64, Counts>,
)
    ensures
        ({
            let after = state.update_read_capabilities(storage_ids, updates);
            let settled = state.propagation(updates).settled(storage_ids).collections;
            &&& settled.dom() == state.collections.dom()
            &&& forall|id: u64| #[trigger]
                state.collections.contains_key(id) ==> same_but_capabilities(
                    settled[id],
                    state.collections[id],
                )
            &&& forall|id: u64| #[trigger]
                after.collections.contains_key(id) ==> state.collections.contains_key(id)
                    && after.collections[id] == settled[id]
            &&& forall|id: u64| #[trigger]
                state.collections.contains_key(id) && !after.collections.contains_key(id)
                    ==> settled[id].is_droppable()
            &&& after.peeks == state.peeks
            &&& after.replicas == state.replicas
            &&& after.subscribes == state.subscribes
            &&& after.failed_replicas == state.failed_replicas
            &&& after.ready_responses == state.ready_responses
        }),
{
    let start = state.propagation(updates);
    lemma_steps_keep(start, storage_ids, start.steps_to_settle(storage_ids));
}

/// Dropping collections that nobody holds a read capability on keeps the accounts.
pub proof fn lemma_dropping_accounts<L>(
    collections: Map<u64, CollectionModel<L>>,
    fewer: Map<u64, CollectionModel<L>>,
    id: u64,
    time: u64,
)
    requires
        collections.dom().finite(),
        fewer.dom().subset_of(collections.dom()),
        forall|other: u64| #[trigger]
            fewer.contains_key(other) ==> fewer[other] == collections[other],
        forall|other: u64| #[trigger]
            collections.contains_key(other) && !fewer.contains_key(other)
                ==> collections[other].read_frontier().len() == 0,
    ensures
        fewer.dom().finite(),
        held_by_readers(fewer, id, time) == held_by_readers(collections, id, time),
{
    let whole = held_by(collections, id, time);
    let part = held_by(fewer, id, time);
    vstd::set_lib::lemma_set_subset_finite(collections.dom(), fewer.dom());
    assert forall|other: u64| #[trigger]
        collections.dom().contains(other) && !fewer.dom().contains(other) implies whole(other)
        == 0 by {
        assert(collections.contains_key(other) && !fewer.contains_key(other));
        let n = occurrences(collections[other].compute_dependencies, id);
        assert(occurrences(collections[other].read_frontier(), time) == 0);
        assert(n * 0 == 0) by (nonlinear_arith);
    }
    lemma_sum_part(collections.dom(), fewer.dom(), whole);
    assert forall|other: u64| #[trigger] fewer.dom().contains(other) implies whole(other) == part(
        other,
    ) by {
        assert(fewer.contains_key(other));
    }
    lemma_sum_same(fewer.dom(), whole, part);
}

/// Changes that make up for what is missing in the accounts settle them, where `direct` says
/// what is held other than by readers.
pub proof fn lemma_settled_accounts<P, L: FrontierLogic>(
    state: InstanceModel<P, L>,
    storage_ids: Set<u64>,
    updates: Map<u64, Counts>,
    direct: spec_fn(u64, u64) -> int,
)
    requires
        state.collections.dom().finite(),
        updates.dom().finite(),
        acyclic(dependencies(state.collections)),
        accounted_when_settled(state.collections, updates, direct),
    ensures
        accounted_when_settled(
            state.propagation(updates).settled(storage_ids).collections,
            Map::empty(),
            direct,
        ),
{
    let start = state.propagation(updates);
    lemma_settles(start, storage_ids);
    let n = start.steps_to_settle(storage_ids);
    lemma_settled(start, storage_ids, n);
    lemma_steps_account(start, storage_ids, direct, n);
    let settled = start.settled(storage_ids);
    assert(settled.pending =~= Map::empty());
}

} // verus!
