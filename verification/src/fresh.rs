//! Collections that have just been installed.
use vstd::prelude::*;

use crate::changes::{frontier_counts, is_zero, moved};
use crate::collection::CollectionModel;
use crate::frontier::{lemma_le_reflexive, Frontier};
use crate::model::{compactions, visited, without_dropped, InstanceModel, UpperUpdate};
use crate::policy::{FrontierLogic, PolicyModel};
use crate::propagation::lemma_settled;

verus! {

/// Where no capability changes, nothing follows.
pub proof fn lemma_no_updates<P, L: FrontierLogic>(
    state: InstanceModel<P, L>,
    storage_ids: Set<u64>,
)
    ensures
        state.update_read_capabilities(storage_ids, Map::empty()) == state,
{
    let start = state.propagation(Map::empty());
    assert(start.steps(storage_ids, 0) == start);
    assert(start.steps(storage_ids, 0).pending.is_empty());
    lemma_settled(start, storage_ids, 0);
    reveal(Seq::filter);
    assert(without_dropped(state.collections, visited(Seq::empty())) =~= state.collections);
    assert(compactions(state.collections, Seq::empty()) =~= Seq::empty());
    assert(state.update_read_capabilities(storage_ids, Map::empty()) =~= state);
}

/// Whether the collection is new: readable from `as_of` on, as its policy says.
pub open spec fn is_fresh<L>(collection: CollectionModel<L>, as_of: Frontier) -> bool {
    &&& collection.implied_capability == as_of
    &&& collection.read_policy == PolicyModel::<L>::ValidFrom(as_of)
    &&& collection.read_capabilities == frontier_counts(as_of)
}

/// Reports of `as_of` for new collections change no capability.
proof fn lemma_absorb_fresh<L: FrontierLogic>(
    start: UpperUpdate<L>,
    replica: u64,
    uppers: Seq<(u64, Frontier)>,
    as_of: Frontier,
)
    requires
        start.capabilities.is_empty(),
        forall|i: int|
            0 <= i < uppers.len() ==> start.collections.contains_key((#[trigger] uppers[i]).0)
                && is_fresh(start.collections[uppers[i].0], as_of) && uppers[i].1 == as_of,
        start.finished.len() == 0,
    ensures
        ({
            let end = start.absorb_all(replica, uppers);
            &&& end.capabilities == start.capabilities
            &&& end.collections.dom() == start.collections.dom()
            &&& as_of.len() > 0 ==> end.finished.len() == 0
            &&& forall|id: u64| #[trigger]
                start.collections.contains_key(id) && is_fresh(start.collections[id], as_of)
                    ==> is_fresh(end.collections[id], as_of)
        }),
        start.advanced.len() == 0 ==> forall|i: int|
            0 <= i < start.absorb_all(replica, uppers).advanced.len()
                ==> start.collections.contains_key(
                #[trigger] start.absorb_all(replica, uppers).advanced[i],
            ),
    decreases uppers.len(),
{
    if uppers.len() > 0 {
        let front = uppers.drop_last();
        assert forall|i: int| 0 <= i < front.len() implies start.collections.contains_key(
            (#[trigger] front[i]).0,
        ) && is_fresh(start.collections[front[i].0], as_of) && front[i].1 == as_of by {
            assert(front[i] == uppers[i]);
        }
        lemma_absorb_fresh(start, replica, front, as_of);
        let before = start.absorb_all(replica, front);
        let last = uppers[uppers.len() - 1];
        assert(start.collections.contains_key(last.0));
        assert(is_fresh(before.collections[last.0], as_of));
        let collection = before.collections[last.0];
        lemma_le_reflexive(as_of);
        assert(is_zero(moved(as_of, as_of)));
        let end = start.absorb_all(replica, uppers);
        assert(end == before.absorb(replica, last.0, as_of));
        assert(end.collections.dom() =~= start.collections.dom());
    }
}

/// Whether new collections are all there.
pub open spec fn has_fresh<P, L>(
    state: InstanceModel<P, L>,
    ids: Seq<u64>,
    as_of: Frontier,
) -> bool {
    forall|i: int|
        0 <= i < ids.len() ==> state.collections.contains_key(#[trigger] ids[i]) && is_fresh(
            state.collections[ids[i]],
            as_of,
        )
}

/// The reports that a replica starts with can be taken in, and leave new collections there if
/// there is a time at which they are of use.
pub proof fn lemma_fresh_uppers<P, L: FrontierLogic>(
    state: InstanceModel<P, L>,
    storage_ids: Set<u64>,
    replica: u64,
    ids: Seq<u64>,
    as_of: Frontier,
)
    requires
        has_fresh(state, ids, as_of),
    ensures
        state.tracks(ids.map_values(|id: u64| (id, as_of))),
        ({
            let uppers = ids.map_values(|id: u64| (id, as_of));
            let update = state.absorbed(replica, uppers);
            &&& state.with_uppers(storage_ids, replica, uppers) == (InstanceModel {
                collections: update.collections,
                spent: update.spent,
                ..state
            })
            &&& as_of.len() > 0 ==> update.finished.len() == 0
        }),
        as_of.len() > 0 ==> has_fresh(
            state.update_write_frontiers(
                storage_ids,
                replica,
                ids.map_values(|id: u64| (id, as_of)),
            ),
            ids,
            as_of,
        ),
        state.update_write_frontiers(
            storage_ids,
            replica,
            ids.map_values(|id: u64| (id, as_of)),
        ).replicas == state.replicas,
{
    let uppers = ids.map_values(|id: u64| (id, as_of));
    let start = state.absorbed(replica, Seq::empty());
    let update = state.absorbed(replica, uppers);
    assert forall|i: int| 0 <= i < uppers.len() implies start.collections.contains_key(
        (#[trigger] uppers[i]).0,
    ) && is_fresh(start.collections[uppers[i].0], as_of) && uppers[i].1 == as_of by {
        assert(uppers[i].0 == ids[i]);
    }
    lemma_absorb_fresh(start, replica, uppers, as_of);
    let absorbed = InstanceModel {
        collections: update.collections,
        spent: update.spent,
        ..state
    };
    lemma_no_updates(absorbed, storage_ids);
    assert(update.capabilities =~= Map::empty());
    assert(state.with_uppers(storage_ids, replica, uppers) == absorbed);
    let after = state.update_write_frontiers(storage_ids, replica, uppers);
    if as_of.len() > 0 {
        assert(update.finished =~= Seq::empty());
        assert(update.finished.to_set() =~= Set::empty());
        assert(after.collections =~= update.collections);
        assert forall|i: int| 0 <= i < ids.len() implies after.collections.contains_key(
            #[trigger] ids[i],
        ) && is_fresh(after.collections[ids[i]], as_of) by {
            assert(start.collections.contains_key(ids[i]));
        }
    }
}

/// Starting with the first `n` replicas leaves new collections there.
pub proof fn lemma_fresh_on_replicas<P, L: FrontierLogic>(
    state: InstanceModel<P, L>,
    storage_ids: Set<u64>,
    replicas: Seq<u64>,
    ids: Seq<u64>,
    as_of: Frontier,
)
    requires
        has_fresh(state, ids, as_of),
        as_of.len() > 0 || ids.len() == 0 || replicas.len() == 0,
    ensures
        has_fresh(
            state.update_on_replicas(
                storage_ids,
                replicas,
                ids.map_values(|id: u64| (id, as_of)),
            ),
            ids,
            as_of,
        ),
    decreases replicas.len(),
{
    if replicas.len() > 0 {
        lemma_fresh_on_replicas(state, storage_ids, replicas.drop_last(), ids, as_of);
        let uppers = ids.map_values(|id: u64| (id, as_of));
        lemma_fresh_uppers(
            state.update_on_replicas(storage_ids, replicas.drop_last(), uppers),
            storage_ids,
            replicas.last(),
            ids,
            as_of,
        );
    }
}

} // verus!
