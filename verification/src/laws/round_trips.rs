//! Requests that undo what another request did.
use vstd::prelude::*;

use super::balance::{balanced, law_balanced_is_readable, pending_peek};
use super::creation::{lemma_live_closed, live_ids};
use super::quiet::{
    closed_below, lemma_lower_kept, lemma_quiet, lemma_without_compaction_twice, moves_none,
    without_compaction,
};
use crate::changes::{count_at, no_counts, plus, Counts};
use crate::collection::CollectionModel;
use crate::command::{OpenTelemetryContext, PeekModel};
use crate::model::{given_up, InstanceModel};
use crate::ordered::{lemma_sorted_ids, sorted_ids};
use crate::policy::FrontierLogic;
use crate::propagation::{acyclic, dependencies, lemma_acyclic_less};
use crate::response::{ComputeResponseModel, ControllerResponseModel, PeekResponseModel};

verus! {

/// Whether `from` depends on `to` through `n` steps.
pub open spec fn leads_to<L>(
    collections: Map<u64, CollectionModel<L>>,
    from: u64,
    to: u64,
    n: nat,
) -> bool
    decreases n,
{
    if n == 0 {
        from == to
    } else {
        exists|between: u64| #[trigger]
            collections.contains_key(between) && collections[between].compute_dependencies.contains(
                to,
            ) && leads_to(collections, from, between, (n - 1) as nat)
    }
}

/// `from`, and all that it depends on, directly or through others.
pub open spec fn below<L>(collections: Map<u64, CollectionModel<L>>, from: u64) -> Set<u64> {
    Set::new(|to: u64| exists|n: nat| leads_to(collections, from, to, n))
}

/// Whether no collection can be dropped among `from` and those that it depends on, directly or
/// through others.
pub open spec fn none_lingers<L>(collections: Map<u64, CollectionModel<L>>, from: u64) -> bool {
    forall|id: u64| #[trigger]
        below(collections, from).contains(id) && collections.contains_key(id)
            ==> !collections[id].is_droppable()
}

/// What is below a collection holds, with each collection, those that it depends on.
proof fn lemma_below_closed<L>(collections: Map<u64, CollectionModel<L>>, from: u64)
    ensures
        closed_below(collections, below(collections, from)),
        below(collections, from).contains(from),
{
    let ids = below(collections, from);
    assert forall|id: u64, i: int|
        ids.contains(id) && collections.contains_key(id) && 0 <= i
            < collections[id].compute_dependencies.len() implies ids.contains(
        #[trigger] collections[id].compute_dependencies[i],
    ) by {
        let n = choose|n: nat| leads_to(collections, from, id, n);
        let to = collections[id].compute_dependencies[i];
        assert(collections[id].compute_dependencies.contains(to));
        assert(n == ((n + 1) - 1) as nat);
        assert(leads_to(collections, from, to, n + 1));
    }
    assert(leads_to(collections, from, from, 0));
}

/// Where the accounts are balanced, nothing can be dropped that a readable collection depends
/// on.
pub proof fn law_none_lingers_below_readable<P, L>(state: InstanceModel<P, L>, id: u64)
    requires
        balanced(state),
        state.collections.contains_key(id),
        state.collections[id].read_frontier().len() > 0,
    ensures
        none_lingers(state.collections, id),
{
    let collections = state.collections;
    law_balanced_is_readable(state);
    lemma_live_closed(collections);
    assert forall|other: u64| #[trigger]
        below(collections, id).contains(other) && collections.contains_key(other)
        implies !collections[other].is_droppable() by {
        let n = choose|n: nat| leads_to(collections, id, other, n);
        lemma_live_below(collections, id, other, n);
    }
}

/// What a readable collection depends on, through any number of steps, is readable.
proof fn lemma_live_below<L>(
    collections: Map<u64, CollectionModel<L>>,
    from: u64,
    to: u64,
    n: nat,
)
    requires
        closed_below(collections, live_ids(collections)),
        live_ids(collections).contains(from),
        leads_to(collections, from, to, n),
    ensures
        live_ids(collections).contains(to),
    decreases n,
{
    if n > 0 {
        let between = choose|between: u64| #[trigger]
            collections.contains_key(between) && collections[between].compute_dependencies.contains(
                to,
            ) && leads_to(collections, from, between, (n - 1) as nat);
        lemma_live_below(collections, from, between, (n - 1) as nat);
        let list = collections[between].compute_dependencies;
        let i = choose|i: int| 0 <= i < list.len() && list[i] == to;
        assert(live_ids(collections).contains(collections[between].compute_dependencies[i]));
    }
}

/// A list of one.
proof fn lemma_sorted_one(uuid: u128)
    ensures
        sorted_ids(Set::<u128>::empty().insert(uuid)) == seq![uuid],
{
    let one = Set::<u128>::empty().insert(uuid);
    lemma_sorted_ids(one);
    let list = sorted_ids(one);
    assert(list.len() == 1);
    assert(list.contains(list[0]));
    assert(list =~= seq![uuid]);
}

/// Whether the collections are those of `before`, but for some that could be dropped among those
/// that `from` depends on, directly or through others.
pub open spec fn only_lingering_gone<L>(
    before: Map<u64, CollectionModel<L>>,
    after: Map<u64, CollectionModel<L>>,
    from: u64,
) -> bool {
    &&& forall|id: u64| #[trigger]
        after.contains_key(id) ==> before.contains_key(id) && after[id] == before[id]
    &&& forall|id: u64| #[trigger]
        before.contains_key(id) && !after.contains_key(id) ==> below(before, from).contains(id)
            && before[id].is_droppable()
}

/// A peek holds a read capability on its target and changes nothing else of any collection; those
/// that go could be dropped before.
proof fn lemma_peek_holds_one<P, L: FrontierLogic>(
    state: InstanceModel<P, L>,
    storage_ids: Set<u64>,
    peek: PeekModel<P>,
    target_replica: Option<u64>,
)
    requires
        acyclic(dependencies(state.collections)),
        state.peek_error(peek.id, peek.timestamp) is None,
    ensures
        ({
            let after = state.peek(storage_ids, peek, target_replica);
            let target = state.collections[peek.id];
            &&& after.collections.contains_key(peek.id)
            &&& after.collections[peek.id] == target.with_changes(count_at(peek.timestamp, 1))
            &&& after.collections[peek.id].read_frontier() == target.read_frontier()
            &&& only_lingering_gone(
                state.collections,
                after.collections.insert(peek.id, target),
                peek.id,
            )
            &&& after.peeks == state.peeks.insert(peek.uuid, pending_peek(peek, target_replica))
            &&& without_compaction(state.actions, after.actions)
        }),
{
    let start = InstanceModel { spent: state.spent + 1, ..state };
    let one = count_at(peek.timestamp, 1);
    let updates = Map::<u64, Counts>::empty().insert(peek.id, one);
    let within = below(state.collections, peek.id);
    let target = state.collections[peek.id];
    lemma_below_closed(state.collections, peek.id);
    lemma_lower_kept(target.read_capabilities, one);
    assert(moves_none(state.collections, updates));
    lemma_quiet(start, storage_ids, updates, within);
    let held = start.update_read_capabilities(storage_ids, updates);
    let after = state.peek(storage_ids, peek, target_replica);
    assert(held.collections.contains_key(peek.id)) by {
        if !held.collections.contains_key(peek.id) {
            assert(start.collections.contains_key(peek.id));
        }
    }
    assert forall|id: u64| #[trigger]
        state.collections.contains_key(id) && !after.collections.insert(
            peek.id,
            target,
        ).contains_key(id) implies within.contains(id)
        && state.collections[id].is_droppable() by {
        assert(start.collections.contains_key(id) && !held.collections.contains_key(id));
    }
    assert(without_compaction(held.actions, after.actions));
    lemma_without_compaction_twice(state.actions, held.actions, after.actions);
}

/// A peek and the answer to it that is passed on leave the collections, with all read
/// capabilities, and the pending peeks as they were, and let no replica forget anything; the only
/// collections that go are those that could be dropped before, among those that the target
/// depends on.
pub proof fn law_answered_peek_leaves_nothing<P, L: FrontierLogic>(
    state: InstanceModel<P, L>,
    storage_ids: Set<u64>,
    peek: PeekModel<P>,
    target_replica: Option<u64>,
    storage_ids_then: Set<u64>,
    response: PeekResponseModel<P>,
    otel_ctx: OpenTelemetryContext<P>,
    replica: u64,
)
    requires
        acyclic(dependencies(state.collections)),
        state.peek_error(peek.id, peek.timestamp) is None,
        !state.peeks.contains_key(peek.uuid),
        target_replica is None || target_replica == Some(replica),
    ensures
        ({
            let asked = state.peek(storage_ids, peek, target_replica);
            let (after, answer) = asked.handle_response(
                storage_ids_then,
                ComputeResponseModel::PeekResponse(peek.uuid, response, otel_ctx),
                replica,
            );
            &&& answer == Some(
                ControllerResponseModel::PeekResponse(peek.uuid, response, otel_ctx),
            )
            &&& only_lingering_gone(state.collections, after.collections, peek.id)
            &&& none_lingers(state.collections, peek.id) ==> after.collections
                == state.collections
            &&& after.peeks == state.peeks
            &&& without_compaction(state.actions, asked.actions)
            &&& without_compaction(asked.actions, after.actions)
        }),
{
    lemma_peek_holds_one(state, storage_ids, peek, target_replica);
    let asked = state.peek(storage_ids, peek, target_replica);
    let uuids = Set::<u128>::empty().insert(peek.uuid);
    let peeks = asked.peeks.remove_keys(uuids);
    let start = InstanceModel { peeks, spent: asked.spent + uuids.len(), ..asked };
    let minus_one = plus(no_counts(), count_at(peek.timestamp, -1));
    let updates = given_up(asked.peeks, sorted_ids(uuids));
    lemma_sorted_one(peek.uuid);
    reveal_with_fuel(given_up, 2);
    assert(seq![peek.uuid].drop_last() =~= Seq::empty());
    assert(asked.peeks.contains_key(peek.uuid));
    assert(updates =~= Map::<u64, Counts>::empty().insert(peek.id, minus_one));
    let within = below(state.collections, peek.id);
    let before = state.collections[peek.id];
    let target = asked.collections[peek.id];
    let between = asked.collections.insert(peek.id, before);
    lemma_below_closed(state.collections, peek.id);
    assert forall|id: u64| #[trigger]
        asked.collections.contains_key(id) implies state.collections.contains_key(id)
        && asked.collections[id].compute_dependencies
        == state.collections[id].compute_dependencies && (id != peek.id ==> asked.collections[id]
        == state.collections[id]) by {
        assert(between.contains_key(id));
    }
    assert(closed_below(asked.collections, within)) by {
        assert forall|id: u64, i: int|
            within.contains(id) && asked.collections.contains_key(id) && 0 <= i
                < asked.collections[id].compute_dependencies.len() implies within.contains(
            #[trigger] asked.collections[id].compute_dependencies[i],
        ) by {
            assert(within.contains(state.collections[id].compute_dependencies[i]));
        }
    }
    assert(target.with_changes(minus_one).read_capabilities =~= before.read_capabilities);
    assert(target.with_changes(minus_one) == before);
    assert(moves_none(asked.collections, updates));
    lemma_acyclic_less(state.collections, asked.collections);
    lemma_quiet(start, storage_ids_then, updates, within);
    let after = start.update_read_capabilities(storage_ids_then, updates);
    assert forall|id: u64| #[trigger]
        state.collections.contains_key(id) && !after.collections.contains_key(id)
        implies within.contains(id) && state.collections[id].is_droppable() by {
        if start.collections.contains_key(id) {
            assert(start.collections[id].is_droppable());
        } else {
            assert(!between.contains_key(id));
        }
    }
    assert forall|id: u64| #[trigger]
        after.collections.contains_key(id) implies state.collections.contains_key(id)
        && after.collections[id] == state.collections[id] by {
        assert(asked.collections.contains_key(id));
    }
    if none_lingers(state.collections, peek.id) {
        assert forall|id: u64|
            after.collections.contains_key(id) <==> state.collections.contains_key(id) by {
            if state.collections.contains_key(id) && !after.collections.contains_key(id) {
                assert(within.contains(id));
            }
        }
        assert(after.collections =~= state.collections);
    }
    assert(peeks =~= state.peeks);
}

} // verus!
