//! How read policies and reports move the capabilities of collections.
use vstd::prelude::*;

use super::accounts::law_capabilities_change_alone;
use super::commands::{only_adds, same_identity};
use super::refusals::law_refused_drops;
use super::reports::asked_by_policy;
use crate::action::ActionModel;
use crate::changes::Counts;
use crate::collection::CollectionModel;
use crate::frontier::{frontier_le, lemma_le_reflexive, lemma_le_transitive, Frontier};
use crate::model::{
    dropping, lemma_all_assigned, lemma_all_dropped, InstanceModel, PolicyUpdate, UpperUpdate,
};
use crate::policy::{FrontierLogic, PolicyModel};

verus! {

/// The last policy that a list assigns to `id`; `before` if there is none.
pub open spec fn last_policy<L>(
    policies: Seq<(u64, PolicyModel<L>)>,
    id: u64,
    before: PolicyModel<L>,
) -> PolicyModel<L>
    decreases policies.len(),
{
    if policies.len() == 0 {
        before
    } else if policies.last().0 == id {
        policies.last().1
    } else {
        last_policy(policies.drop_last(), id, before)
    }
}

/// Assigning policies concludes with the last one for each collection, and moves no implied
/// capability back.
pub proof fn lemma_assigned<L: FrontierLogic>(
    start: PolicyUpdate<L>,
    policies: Seq<(u64, PolicyModel<L>)>,
    id: u64,
)
    requires
        start.assign_all(policies).missing is None,
        start.collections.contains_key(id),
    ensures
        ({
            let after = start.assign_all(policies).collections[id];
            let before = start.collections[id];
            &&& start.assign_all(policies).collections.contains_key(id)
            &&& after.read_policy == last_policy(policies, id, before.read_policy)
            &&& frontier_le(before.implied_capability, after.implied_capability)
            &&& after.write_frontier == before.write_frontier
            &&& (forall|i: int| 0 <= i < policies.len() ==> (#[trigger] policies[i]).0 != id)
                ==> after == before
        }),
    decreases policies.len(),
{
    if policies.len() == 0 {
        lemma_le_reflexive(start.collections[id].implied_capability);
    } else {
        let front = policies.drop_last();
        lemma_assigned(start, front, id);
        let before = start.assign_all(front);
        let end = start.assign_all(policies);
        assert(before.missing is None);
        if policies.last().0 == id {
            lemma_le_reflexive(before.collections[id].implied_capability);
            lemma_le_transitive(
                start.collections[id].implied_capability,
                before.collections[id].implied_capability,
                end.collections[id].implied_capability,
            );
            assert(policies[policies.len() - 1].0 == id);
        }
        if forall|i: int| 0 <= i < policies.len() ==> (#[trigger] policies[i]).0 != id {
            assert forall|i: int| 0 <= i < front.len() implies (#[trigger] front[i]).0 != id by {
                assert(front[i] == policies[i]);
            }
        }
    }
}

/// Repeated identifiers conclude with the last policy, identifiers that are not mentioned retain
/// theirs, and the capability that a policy implies is never recovered: it stays or moves ahead.
pub proof fn law_last_policy_counts<P, L: FrontierLogic>(
    state: InstanceModel<P, L>,
    storage_ids: Set<u64>,
    policies: Seq<(u64, PolicyModel<L>)>,
    id: u64,
)
    requires
        state.assigned(policies).missing is None,
        state.set_read_policy(storage_ids, policies).collections.contains_key(id),
    ensures
        ({
            let after = state.set_read_policy(storage_ids, policies).collections[id];
            let before = state.collections[id];
            &&& state.collections.contains_key(id)
            &&& after.read_policy == last_policy(policies, id, before.read_policy)
            &&& frontier_le(before.implied_capability, after.implied_capability)
            &&& after.write_frontier == before.write_frontier
        }),
{
    let start = state.assigned(Seq::empty());
    let update = state.assigned(policies);
    assert(update == start.assign_all(policies));
    let assigned = InstanceModel { collections: update.collections, spent: update.spent, ..state };
    law_capabilities_change_alone(assigned, storage_ids, update.capabilities);
    assert(update.collections.contains_key(id));
    lemma_assigned_exist(start, policies);
    lemma_assigned(start, policies, id);
}

/// Assigning policies neither adds nor removes collections.
proof fn lemma_assigned_exist<L: FrontierLogic>(
    start: PolicyUpdate<L>,
    policies: Seq<(u64, PolicyModel<L>)>,
)
    ensures
        start.assign_all(policies).collections.dom() == start.collections.dom(),
    decreases policies.len(),
{
    if policies.len() > 0 {
        lemma_assigned_exist(start, policies.drop_last());
        assert(start.assign_all(policies).collections.dom() =~= start.collections.dom());
    }
}

/// A policy takes effect at once: the capability that it implies is reached, unless that would
/// be a step back.
pub proof fn law_policy_takes_effect<P, L: FrontierLogic>(
    state: InstanceModel<P, L>,
    storage_ids: Set<u64>,
    id: u64,
    policy: PolicyModel<L>,
)
    requires
        state.collections.contains_key(id),
        state.set_read_policy(storage_ids, seq![(id, policy)]).collections.contains_key(id),
    ensures
        ({
            let after = state.set_read_policy(storage_ids, seq![(id, policy)]).collections[id];
            let before = state.collections[id];
            let capability = policy.answer(before.write_frontier);
            &&& after.read_policy == policy
            &&& after.implied_capability == if frontier_le(before.implied_capability, capability) {
                capability
            } else {
                before.implied_capability
            }
        }),
{
    let policies = seq![(id, policy)];
    let update = state.assigned(policies);
    reveal_with_fuel(PolicyUpdate::assign_all, 2);
    assert(policies.drop_last() =~= Seq::empty());
    let assigned = InstanceModel { collections: update.collections, spent: update.spent, ..state };
    law_capabilities_change_alone(assigned, storage_ids, update.capabilities);
    assert(update.collections.contains_key(id));
}

/// A collection that is dropped, as long as it is still there, holds no capability of its own,
/// and its policy never implies one again.
pub proof fn law_dropped_collections_hold_nothing<P, L: FrontierLogic>(
    state: InstanceModel<P, L>,
    storage_ids: Set<u64>,
    ids: Seq<u64>,
    id: u64,
)
    requires
        state.first_missing(ids) is None,
        ids.contains(id),
        state.drop_collections(storage_ids, ids).collections.contains_key(id),
    ensures
        ({
            let after = state.drop_collections(storage_ids, ids).collections[id];
            &&& after.implied_capability.len() == 0
            &&& after.read_policy == PolicyModel::<L>::ValidFrom(Seq::empty())
        }),
{
    let policies = dropping::<L>(ids);
    lemma_all_dropped(state, ids);
    let start = state.assigned(Seq::empty());
    let update = state.assigned(policies);
    assert(update == start.assign_all(policies));
    let assigned = InstanceModel { collections: update.collections, spent: update.spent, ..state };
    law_capabilities_change_alone(assigned, storage_ids, update.capabilities);
    lemma_dropping(start, ids, id);
}

/// Giving the read capabilities of collections up leaves them without an implied capability.
proof fn lemma_dropping<L: FrontierLogic>(start: PolicyUpdate<L>, ids: Seq<u64>, id: u64)
    requires
        start.assign_all(dropping(ids)).missing is None,
        ids.contains(id),
    ensures
        ({
            let after = start.assign_all(dropping(ids)).collections[id];
            &&& after.implied_capability.len() == 0
            &&& after.read_policy == PolicyModel::<L>::ValidFrom(Seq::empty())
        }),
    decreases ids.len(),
{
    let policies = dropping::<L>(ids);
    let front = ids.drop_last();
    assert(policies.drop_last() =~= dropping::<L>(front));
    let before = start.assign_all(dropping(front));
    assert(before.missing is None);
    if ids.last() == id {
        assert(policies.last().1 == PolicyModel::<L>::ValidFrom(Seq::empty()));
    } else {
        let i = choose|i: int| 0 <= i < ids.len() && ids[i] == id;
        assert(front[i] == id);
        lemma_dropping(start, front, id);
    }
}

/// Reports move neither write frontiers nor implied capabilities back.
proof fn lemma_absorbed<L: FrontierLogic>(
    start: UpperUpdate<L>,
    replica: u64,
    uppers: Seq<(u64, Frontier)>,
    id: u64,
)
    requires
        start.collections.contains_key(id),
    ensures
        ({
            let after = start.absorb_all(replica, uppers).collections[id];
            let before = start.collections[id];
            &&& start.absorb_all(replica, uppers).collections.contains_key(id)
            &&& frontier_le(before.write_frontier, after.write_frontier)
            &&& frontier_le(before.implied_capability, after.implied_capability)
            &&& after.read_policy == before.read_policy
        }),
    decreases uppers.len(),
{
    if uppers.len() == 0 {
        lemma_le_reflexive(start.collections[id].write_frontier);
        lemma_le_reflexive(start.collections[id].implied_capability);
    } else {
        lemma_absorbed(start, replica, uppers.drop_last(), id);
        let before = start.absorb_all(replica, uppers.drop_last()).collections[id];
        let after = start.absorb_all(replica, uppers).collections[id];
        lemma_le_reflexive(before.write_frontier);
        lemma_le_reflexive(before.implied_capability);
        lemma_le_transitive(
            start.collections[id].write_frontier,
            before.write_frontier,
            after.write_frontier,
        );
        lemma_le_transitive(
            start.collections[id].implied_capability,
            before.implied_capability,
            after.implied_capability,
        );
    }
}

/// Reports of replicas move neither write frontiers nor implied capabilities back, and leave
/// policies as they are.
pub proof fn law_reports_move_ahead<P, L: FrontierLogic>(
    state: InstanceModel<P, L>,
    storage_ids: Set<u64>,
    replica: u64,
    uppers: Seq<(u64, Frontier)>,
    id: u64,
)
    requires
        state.collections.contains_key(id),
        state.update_write_frontiers(storage_ids, replica, uppers).collections.contains_key(id),
    ensures
        ({
            let after = state.update_write_frontiers(storage_ids, replica, uppers).collections[id];
            let before = state.collections[id];
            &&& frontier_le(before.write_frontier, after.write_frontier)
            &&& frontier_le(before.implied_capability, after.implied_capability)
            &&& after.read_policy == before.read_policy
        }),
{
    let start = state.absorbed(replica, Seq::empty());
    let update = state.absorbed(replica, uppers);
    assert(update == start.absorb_all(replica, uppers));
    let absorbed = InstanceModel { collections: update.collections, spent: update.spent, ..state };
    law_capabilities_change_alone(absorbed, storage_ids, update.capabilities);
    lemma_absorbed(start, replica, uppers, id);
}

/// Assigning read policies adds no collection, and changes neither what a collection depends on,
/// nor the pending peeks, nor what replicas have reported.
pub proof fn lemma_policies_keep<P, L: FrontierLogic>(
    state: InstanceModel<P, L>,
    storage_ids: Set<u64>,
    policies: Seq<(u64, PolicyModel<L>)>,
)
    ensures
        ({
            let after = state.set_read_policy(storage_ids, policies);
            &&& after.peeks == state.peeks
            &&& forall|id: u64| #[trigger]
                after.collections.contains_key(id) ==> {
                    &&& state.collections.contains_key(id)
                    &&& after.collections[id].compute_dependencies
                        == state.collections[id].compute_dependencies
                    &&& after.collections[id].storage_dependencies
                        == state.collections[id].storage_dependencies
                    &&& after.collections[id].write_frontier
                        == state.collections[id].write_frontier
                    &&& after.collections[id].replica_write_frontiers
                        == state.collections[id].replica_write_frontiers
                    &&& after.collections[id].log_collection == state.collections[id].log_collection
                }
        }),
{
    let start = state.assigned(Seq::empty());
    let update = state.assigned(policies);
    assert(update == start.assign_all(policies));
    lemma_assigned_exist(start, policies);
    lemma_assigned_keep(start, policies);
    let assigned = InstanceModel { collections: update.collections, spent: update.spent, ..state };
    law_capabilities_change_alone(assigned, storage_ids, update.capabilities);
    let after = state.set_read_policy(storage_ids, policies);
    assert forall|id: u64| #[trigger]
        after.collections.contains_key(id) implies start.collections.contains_key(id) by {
        assert(update.collections.contains_key(id));
    }
}

/// Assigning policies changes nothing of a collection but its policy and what that implies.
pub proof fn lemma_assigned_keep<L: FrontierLogic>(
    start: PolicyUpdate<L>,
    policies: Seq<(u64, PolicyModel<L>)>,
)
    ensures
        forall|id: u64| #[trigger]
            start.collections.contains_key(id) ==> {
                let before = start.collections[id];
                let after = start.assign_all(policies).collections[id];
                &&& after.compute_dependencies == before.compute_dependencies
                &&& after.storage_dependencies == before.storage_dependencies
                &&& after.write_frontier == before.write_frontier
                &&& after.replica_write_frontiers == before.replica_write_frontiers
                &&& after.log_collection == before.log_collection
            },
    decreases policies.len(),
{
    if policies.len() > 0 {
        lemma_assigned_keep(start, policies.drop_last());
        lemma_assigned_exist(start, policies.drop_last());
    }
}

/// Assigning policies that name a collection once changes it as that policy says.
proof fn lemma_named_once<L: FrontierLogic>(
    start: PolicyUpdate<L>,
    policies: Seq<(u64, PolicyModel<L>)>,
    i: int,
)
    requires
        start.missing is None,
        forall|j: int|
            0 <= j < policies.len() ==> start.collections.contains_key((#[trigger] policies[j]).0),
        0 <= i < policies.len(),
        forall|j: int|
            0 <= j < policies.len() && j != i ==> (#[trigger] policies[j]).0 != policies[i].0,
    ensures
        ({
            let id = policies[i].0;
            let before = start.collections[id];
            let asked = asked_by_policy(policies[i].1, before.write_frontier);
            let after = start.assign_all(policies).collections[id];
            &&& after.read_policy == policies[i].1
            &&& after.implied_capability == if frontier_le(before.implied_capability, asked) {
                asked
            } else {
                before.implied_capability
            }
        }),
    decreases policies.len(),
{
    let front = policies.drop_last();
    let last = policies.len() - 1;
    assert forall|j: int| 0 <= j < front.len() implies start.collections.contains_key(
        (#[trigger] front[j]).0,
    ) by {
        assert(front[j] == policies[j]);
    }
    lemma_all_assigned(start, front);
    assert(start.collections.contains_key(policies[last].0));
    if i < last {
        assert forall|j: int| 0 <= j < front.len() && j != i implies (#[trigger] front[j]).0
            != front[i].0 by {
            assert(front[j] == policies[j]);
        }
        lemma_named_once(start, front, i);
        assert(policies[last].0 != policies[i].0);
    } else {
        assert forall|j: int| 0 <= j < front.len() implies (#[trigger] front[j]).0
            != policies[i].0 by {
            assert(front[j] == policies[j]);
        }
        lemma_assigned(start, front, policies[i].0);
    }
}

/// Where a list of policies for collections that exist names one of them once, that collection
/// follows the policy from now on, and the capability that it implies is what the policy asks for
/// where the write frontier is, unless that would be a step back. A collection that the list does
/// not name keeps both.
pub proof fn law_named_policies_take_effect<P, L: FrontierLogic>(
    state: InstanceModel<P, L>,
    storage_ids: Set<u64>,
    policies: Seq<(u64, PolicyModel<L>)>,
    id: u64,
)
    requires
        forall|j: int|
            0 <= j < policies.len() ==> state.collections.contains_key((#[trigger] policies[j]).0),
    ensures
        ({
            let after = state.set_read_policy(storage_ids, policies);
            let before = state.collections[id];
            let now = after.collections[id];
            &&& after.collections.contains_key(id) ==> state.collections.contains_key(id)
            &&& after.collections.contains_key(id) && (forall|j: int|
                0 <= j < policies.len() ==> (#[trigger] policies[j]).0 != id) ==> now.read_policy
                == before.read_policy && now.implied_capability == before.implied_capability
            &&& forall|i: int|
                #![trigger policies[i]]
                0 <= i < policies.len() && policies[i].0 == id && after.collections.contains_key(id)
                    && (forall|j: int|
                    0 <= j < policies.len() && j != i ==> (#[trigger] policies[j]).0 != id) ==> {
                    let asked = asked_by_policy(policies[i].1, before.write_frontier);
                    &&& now.read_policy == policies[i].1
                    &&& now.implied_capability == if frontier_le(
                        before.implied_capability,
                        asked,
                    ) {
                        asked
                    } else {
                        before.implied_capability
                    }
                }
        }),
{
    let start = state.assigned(Seq::empty());
    let update = state.assigned(policies);
    assert(update == start.assign_all(policies));
    let assigned = InstanceModel { collections: update.collections, spent: update.spent, ..state };
    let after = state.set_read_policy(storage_ids, policies);
    lemma_all_assigned(start, policies);
    law_capabilities_change_alone(assigned, storage_ids, update.capabilities);
    if after.collections.contains_key(id) {
        assert(update.collections.contains_key(id));
        lemma_assigned(start, policies, id);
        assert forall|i: int|
            #![trigger policies[i]]
            0 <= i < policies.len() && policies[i].0 == id && (forall|j: int|
                0 <= j < policies.len() && j != i ==> (#[trigger] policies[j]).0 != id) implies {
            let before = state.collections[id];
            let now = after.collections[id];
            let asked = asked_by_policy(policies[i].1, before.write_frontier);
            &&& now.read_policy == policies[i].1
            &&& now.implied_capability == if frontier_le(before.implied_capability, asked) {
                asked
            } else {
                before.implied_capability
            }
        } by {
            lemma_named_once(start, policies, i);
        }
    }
}

/// Whether nothing changed but the collections, what the replicas are told of them and what is
/// asked of storage for them.
pub open spec fn changes_collections_alone<P, L>(
    before: InstanceModel<P, L>,
    after: InstanceModel<P, L>,
) -> bool {
    &&& same_identity(before, after)
    &&& after.replicas == before.replicas
    &&& after.replica_epochs == before.replica_epochs
    &&& after.failed_replicas == before.failed_replicas
    &&& after.subscribes == before.subscribes
    &&& after.ready_responses == before.ready_responses
    &&& only_adds(before, after)
    &&& forall|i: int|
        before.history.len() <= i < after.history.len() ==> (
        #[trigger] after.history[i]) is AllowCompaction
    &&& forall|i: int|
        before.actions.len() <= i < after.actions.len() ==> match #[trigger] after.actions[i] {
            ActionModel::Send { command, .. } => command is AllowCompaction,
            ActionModel::UpdateStorageReadCapabilities(_) => true,
            _ => false,
        }
}

/// Changes to read capabilities, policies that are assigned and collections that are dropped,
/// whether that succeeds or not, change nothing but collections, and of these neither what they
/// depend on nor what was reported.
pub proof fn law_policies_leave_the_rest<P, L: FrontierLogic>(
    state: InstanceModel<P, L>,
    storage_ids: Set<u64>,
    updates: Map<u64, Counts>,
    policies: Seq<(u64, PolicyModel<L>)>,
    ids: Seq<u64>,
)
    ensures
        ({
            let changed = state.update_read_capabilities(storage_ids, updates);
            let assigned = state.set_read_policy(storage_ids, policies);
            let dropped = state.drop_collections(storage_ids, ids);
            &&& changes_collections_alone(state, changed) && changed.peeks == state.peeks
            &&& changes_collections_alone(state, assigned) && assigned.peeks == state.peeks
            &&& changes_collections_alone(state, dropped) && dropped.peeks == state.peeks
            &&& keeps_reports(state.collections, changed.collections)
            &&& keeps_reports(state.collections, assigned.collections)
            &&& keeps_reports(state.collections, dropped.collections)
        }),
{
    law_capabilities_change_alone(state, storage_ids, updates);
    lemma_policies_keep(state, storage_ids, policies);
    lemma_policies_keep(state, storage_ids, dropping(ids));
}

/// Whether no collection was added, and those that are left depend on what they did and stand
/// where they did.
pub open spec fn keeps_reports<L>(
    before: Map<u64, CollectionModel<L>>,
    after: Map<u64, CollectionModel<L>>,
) -> bool {
    forall|id: u64| #[trigger]
        after.contains_key(id) ==> {
            &&& before.contains_key(id)
            &&& after[id].log_collection == before[id].log_collection
            &&& after[id].storage_dependencies == before[id].storage_dependencies
            &&& after[id].compute_dependencies == before[id].compute_dependencies
            &&& after[id].write_frontier == before[id].write_frontier
            &&& after[id].replica_write_frontiers == before[id].replica_write_frontiers
        }
}

/// When collections that exist are dropped, each of them that is still there implies no
/// capability any more, and never will again by its policy; the others keep both.
pub proof fn law_drops_take_effect<P, L: FrontierLogic>(
    state: InstanceModel<P, L>,
    storage_ids: Set<u64>,
    ids: Seq<u64>,
    id: u64,
)
    requires
        forall|i: int| 0 <= i < ids.len() ==> state.collections.contains_key(#[trigger] ids[i]),
        state.drop_collections(storage_ids, ids).collections.contains_key(id),
    ensures
        ({
            let before = state.collections[id];
            let now = state.drop_collections(storage_ids, ids).collections[id];
            &&& state.collections.contains_key(id)
            &&& ids.contains(id) ==> now.implied_capability.len() == 0 && now.read_policy
                == PolicyModel::<L>::ValidFrom(Seq::empty())
            &&& !ids.contains(id) ==> now.implied_capability == before.implied_capability
                && now.read_policy == before.read_policy
        }),
{
    let policies = dropping::<L>(ids);
    law_refused_drops(state, ids);
    assert forall|j: int| 0 <= j < policies.len() implies state.collections.contains_key(
        (#[trigger] policies[j]).0,
    ) by {
        assert(policies[j].0 == ids[j]);
    }
    law_named_policies_take_effect(state, storage_ids, policies, id);
    if ids.contains(id) {
        law_dropped_collections_hold_nothing(state, storage_ids, ids, id);
    } else {
        assert forall|j: int| 0 <= j < policies.len() implies (#[trigger] policies[j]).0
            != id by {
            assert(policies[j].0 == ids[j]);
        }
    }
}

} // verus!
