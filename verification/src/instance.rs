//! A compute instance: its replicas, its collections, and the requests in progress.
mod active;
mod dataflows;
mod lifecycle;
mod replicas;
mod responses;

pub use active::{policies_model, ActiveInstance};
pub use lifecycle::lemma_valid;

use std::collections::{BTreeMap, BTreeSet, VecDeque};
use std::sync::Arc;
use timely::progress::{Antichain, ChangeBatch};
use vstd::prelude::*;

use crate::action::Action;
use crate::changes::{
    batch_changes, batch_counts, batch_is_empty, batch_mass, batch_updates, batches_counts,
    drain_batch, empty_batch, extend_batch, is_zero, lemma_totals_of_few, mass, no_zero, record,
    record_all, Counts,
};
use crate::collection::{CollectionModel, CollectionState};
use crate::command::{
    commands_model, share, uppers_model, ComputeCommand, ComputeReplicaLocation, LoggingConfig,
};
use crate::frontier::{antichain_elements, Frontier};
use crate::ids::{CollectionMissing, ComputeInstanceId, GlobalId, LogVariant, ReplicaId, Uuid};
use crate::model::{
    compactions, given_up, release_cost, released, reports, visited, without_dropped, InstanceModel,
    ReplicaModel, UpperUpdate,
};
use crate::ordered::{
    greatest, increasing, lemma_push_to_set, lemma_sorted_ids, sorted_keys, sorted_uuid_set,
};
use crate::pending::PendingPeek;
use crate::policy::FrontierLogic;
use crate::propagation::{
    acyclic, dependencies, lemma_acyclic_less, lemma_pending_greatest, lemma_settled, lemma_settles,
    lemma_steps_stable, Propagation,
};
use crate::response::{ComputeControllerResponse, ControllerResponseModel};
use crate::storage::StorageController;

verus! {

/// A replica of an instance.
#[derive(Debug)]
struct Replica<P> {
    /// Where the replica runs.
    location: Arc<ComputeReplicaLocation<P>>,
    /// The logs that the replica maintains.
    logging_config: Arc<LoggingConfig<P>>,
    /// The number of starts of the replica, this one counted.
    starts: u64,
}

impl<P> View for Replica<P> {
    type V = ReplicaModel<P>;

    closed spec fn view(&self) -> ReplicaModel<P> {
        ReplicaModel {
            location: self.location,
            logging_config: (*self.logging_config)@,
            starts: self.starts,
        }
    }
}

/// The state that is kept for a compute instance.
pub struct Instance<P, L> {
    /// The identifier of the instance.
    instance_id: ComputeInstanceId,
    /// The replicas of the instance.
    replicas: BTreeMap<ReplicaId, Replica<P>>,
    /// The collections of the instance, with their read and write frontiers.
    collections: BTreeMap<GlobalId, CollectionState<L>>,
    /// The collections of the logs that the instance keeps as indexes.
    arranged_logs: BTreeMap<LogVariant, GlobalId>,
    /// The peeks that have not been answered.
    peeks: BTreeMap<Uuid, PendingPeek<P>>,
    /// The frontiers of the subscriptions in progress.
    subscribes: BTreeMap<GlobalId, Antichain<u64>>,
    /// The commands that bring a new replica up to date.
    history: Vec<Arc<ComputeCommand<P>>>,
    /// The replicas that have failed and have to be started again.
    failed_replicas: BTreeSet<ReplicaId>,
    /// The responses that are ready to be delivered.
    ready_responses: VecDeque<ComputeControllerResponse<P>>,
    /// A number that increases with each restart of the environment.
    envd_epoch: i64,
    /// Numbers that increase with each start of a replica.
    replica_epochs: BTreeMap<ReplicaId, u64>,
    /// The work that is left to the surroundings.
    actions: Vec<Action<P>>,
    /// The magnitudes of all the changes that were ever recorded, added up.
    spent: Ghost<nat>,
}

/// The collections of a map.
spec fn collections_model<L>(collections: Map<u64, CollectionState<L>>) -> Map<
    u64,
    CollectionModel<L>,
> {
    collections.map_values(|collection: CollectionState<L>| collection@)
}

/// The replicas of a map.
spec fn replicas_model<P>(replicas: Map<u64, Replica<P>>) -> Map<u64, ReplicaModel<P>> {
    replicas.map_values(|replica: Replica<P>| replica@)
}

/// The work of a list.
pub open spec fn actions_model<P>(actions: Seq<Action<P>>) -> Seq<crate::action::ActionModel<P>> {
    actions.map_values(|action: Action<P>| action@)
}

/// The responses of a list.
pub open spec fn responses_model<P>(responses: Seq<ComputeControllerResponse<P>>) -> Seq<
    ControllerResponseModel<P>,
> {
    responses.map_values(|response: ComputeControllerResponse<P>| response@)
}

/// The visits of a list.
spec fn net_model(net: Seq<(u64, ChangeBatch<u64>)>) -> Seq<(u64, Counts)> {
    net.map_values(|visit: (u64, ChangeBatch<u64>)| (visit.0, batch_counts(visit.1)))
}

/// The magnitudes of the changes that the read capabilities of `id` accumulate, added up.
spec fn capability_mass<L>(collections: Map<u64, CollectionState<L>>, id: u64) -> nat {
    if collections.contains_key(id) {
        collections[id].capability_mass()
    } else {
        0
    }
}

impl<P, L> View for Instance<P, L> {
    type V = InstanceModel<P, L>;

    closed spec fn view(&self) -> InstanceModel<P, L> {
        InstanceModel {
            instance_id: self.instance_id,
            replicas: replicas_model(self.replicas@),
            collections: collections_model(self.collections@),
            arranged_logs: self.arranged_logs@,
            peeks: self.peeks@,
            subscribes: crate::collection::frontiers_model(self.subscribes@),
            history: commands_model(self.history@),
            failed_replicas: self.failed_replicas@,
            ready_responses: responses_model(self.ready_responses@),
            envd_epoch: self.envd_epoch,
            replica_epochs: self.replica_epochs@,
            actions: actions_model(self.actions@),
            spent: self.spent@,
        }
    }
}

/// An instance is shown as what it keeps: each replica, collection, peek and subscription under
/// its own name, and all lists in order.
proof fn law_instance_is_shown<P, L>(instance: Instance<P, L>)
    ensures
        instance@.instance_id == instance.instance_id,
        instance@.envd_epoch == instance.envd_epoch,
        instance@.replicas.dom() == instance.replicas@.dom(),
        forall|id: u64| #[trigger]
            instance.replicas@.contains_key(id) ==> {
                let replica = instance.replicas@[id];
                &&& instance@.replicas[id].location == replica.location
                &&& instance@.replicas[id].logging_config == (*replica.logging_config)@
                &&& instance@.replicas[id].starts == replica.starts
            },
        instance@.collections.dom() == instance.collections@.dom(),
        forall|id: u64| #[trigger]
            instance.collections@.contains_key(id) ==> instance@.collections[id]
                == instance.collections@[id]@,
        instance@.arranged_logs == instance.arranged_logs@,
        instance@.peeks == instance.peeks@,
        instance@.subscribes.dom() == instance.subscribes@.dom(),
        forall|id: u64| #[trigger]
            instance.subscribes@.contains_key(id) ==> instance@.subscribes[id]
                == antichain_elements(instance.subscribes@[id]),
        instance@.history.len() == instance.history@.len(),
        forall|i: int|
            0 <= i < instance.history@.len() ==> #[trigger] instance@.history[i] == (
            *instance.history@[i])@,
        instance@.failed_replicas == instance.failed_replicas@,
        instance@.ready_responses.len() == instance.ready_responses@.len(),
        forall|i: int|
            0 <= i < instance.ready_responses@.len() ==> #[trigger] instance@.ready_responses[i]
                == instance.ready_responses@[i]@,
        instance@.replica_epochs == instance.replica_epochs@,
        instance@.actions.len() == instance.actions@.len(),
        forall|i: int|
            0 <= i < instance.actions@.len() ==> #[trigger] instance@.actions[i]
                == instance.actions@[i]@,
{
    assert(instance@.replicas.dom() =~= instance.replicas@.dom());
    assert(instance@.collections.dom() =~= instance.collections@.dom());
    assert(instance@.subscribes.dom() =~= instance.subscribes@.dom());
}

/// Once more steps can only have recorded more changes.
proof fn lemma_spent_grows<L>(start: Propagation<L>, storage_ids: Set<u64>, n: nat, m: nat)
    requires
        n <= m,
    ensures
        start.steps(storage_ids, n).spent <= start.steps(storage_ids, m).spent,
    decreases m,
{
    if n < m {
        lemma_spent_grows(start, storage_ids, n, (m - 1) as nat);
    }
}

/// Settling changes records at least what was recorded before.
proof fn lemma_settling_spends<P, L: FrontierLogic>(
    state: InstanceModel<P, L>,
    storage_ids: Set<u64>,
    updates: Map<u64, Counts>,
)
    ensures
        state.spent <= state.update_read_capabilities(storage_ids, updates).spent,
{
    let start = state.propagation(updates);
    lemma_spent_grows(start, storage_ids, 0, start.steps_to_settle(storage_ids));
    assert(start.steps(storage_ids, 0) == start);
}

/// Taking all reports in records at least what taking the first `n` in records.
proof fn lemma_absorbing_spends<L: FrontierLogic>(
    start: UpperUpdate<L>,
    replica: u64,
    uppers: Seq<(u64, Frontier)>,
    n: nat,
)
    requires
        n <= uppers.len(),
    ensures
        start.absorb_all(replica, uppers.take(n as int)).spent <= start.absorb_all(
            replica,
            uppers,
        ).spent,
    decreases uppers.len() - n,
{
    if n == uppers.len() {
        assert(uppers.take(n as int) =~= uppers);
    } else {
        lemma_absorbing_spends(start, replica, uppers, n + 1);
        assert(uppers.take((n + 1) as int).drop_last() =~= uppers.take(n as int));
    }
}

/// The collections whose write frontier advances are tracked.
proof fn lemma_advanced_tracked<L: FrontierLogic>(
    start: UpperUpdate<L>,
    replica: u64,
    uppers: Seq<(u64, Frontier)>,
)
    requires
        start.advanced.len() == 0,
        forall|i: int|
            0 <= i < uppers.len() ==> start.collections.contains_key((#[trigger] uppers[i]).0),
    ensures
        start.absorb_all(replica, uppers).collections.dom() == start.collections.dom(),
        forall|i: int|
            0 <= i < start.absorb_all(replica, uppers).advanced.len()
                ==> start.collections.contains_key(
                #[trigger] start.absorb_all(replica, uppers).advanced[i],
            ),
    decreases uppers.len(),
{
    if uppers.len() > 0 {
        let front = uppers.drop_last();
        assert forall|i: int| 0 <= i < front.len() implies start.collections.contains_key(
            (#[trigger] front[i]).0,
        ) by {
            assert(front[i] == uppers[i]);
        }
        lemma_advanced_tracked(start, replica, front);
        let last = uppers[uppers.len() - 1];
        assert(start.collections.contains_key(last.0));
        assert(start.absorb_all(replica, uppers).collections.dom() =~= start.collections.dom());
    }
}

impl<P, L: FrontierLogic> Instance<P, L> {
    /// Whether the state is valid: the changes that the collections accumulate are among those
    /// that were recorded, no collection depends on itself, and the replicas that have failed
    /// exist.
    pub closed spec fn wf(self) -> bool {
        &&& forall|id: u64| #[trigger] capability_mass(self.collections@, id) <= self.spent@
        &&& acyclic(dependencies(self@.collections))
        &&& self.failed_replicas@.subset_of(self.replicas@.dom())
    }

    /// Acquires a handle to the collection state associated with `id`.
    pub fn collection(&self, id: GlobalId) -> (result: Result<
        &CollectionState<L>,
        CollectionMissing,
    >)
        ensures
            match result {
                Ok(state) => self@.collections.contains_key(id) && state@ == self@.collections[id],
                Err(missing) => !self@.collections.contains_key(id) && missing == CollectionMissing(
                    id,
                ),
            },
    {
        match self.collections.get(&id) {
            Some(state) => Ok(state),
            None => Err(CollectionMissing(id)),
        }
    }

    /// Leaves a piece of work to the surroundings.
    fn ask(&mut self, action: Action<P>)
        requires
            old(self).wf(),
        ensures
            final(self).wf(),
            final(self)@ == old(self)@.ask(action@),
            final(self).collections == old(self).collections,
    {
        self.actions.push(action);
        proof {
            assert(actions_model(self.actions@) =~= actions_model(old(self).actions@).push(
                action@,
            ));
        }
    }

    /// Sends a command to all replicas of this instance.
    pub fn send(&mut self, cmd: ComputeCommand<P>)
        requires
            old(self).wf(),
        ensures
            final(self).wf(),
            final(self)@ == old(self)@.send(cmd@),
    {
        let command = Arc::new(cmd);
        // Record the command so that new replicas can be brought up to speed.
        self.history.push(share(&command));
        proof {
            assert(commands_model(self.history@) =~= commands_model(old(self).history@).push(
                cmd@,
            ));
        }
        let ids = sorted_keys(&self.replicas);
        let mut replicas: BTreeMap<ReplicaId, u64> = BTreeMap::new();
        let mut i: usize = 0;
        proof {
            lemma_sorted_ids(self.replicas@.dom());
        }
        while i < ids.len()
            invariant
                i <= ids.len(),
                forall|id: u64| #[trigger]
                    ids@.contains(id) <==> self.replicas@.contains_key(id),
                forall|id: u64| #[trigger]
                    replicas@.contains_key(id) <==> ids@.take(i as int).contains(id),
                forall|id: u64| #[trigger]
                    replicas@.contains_key(id) ==> self.replicas@.contains_key(id) && replicas@[id]
                        == self.replicas@[id].starts,
            decreases ids.len() - i,
        {
            let id = ids[i];
            proof {
                assert(ids@.contains(id));
                assert(ids@.take(i + 1) =~= ids@.take(i as int).push(id));
                assert forall|other: u64|
                    ids@.take(i + 1).contains(other) <==> (ids@.take(i as int).contains(other)
                        || other == id) by {
                    if ids@.take(i as int).contains(other) {
                        let j = choose|j: int|
                            0 <= j < i && ids@.take(i as int)[j] == other;
                        assert(ids@.take(i + 1)[j] == other);
                    }
                    if other == id {
                        assert(ids@.take(i + 1)[i as int] == other);
                    }
                }
            }
            if let Some(replica) = self.replicas.get(&id) {
                replicas.insert(id, replica.starts);
            }
            i = i + 1;
        }
        proof {
            assert(ids@.take(i as int) =~= ids@);
            assert(replicas@ =~= replicas_model(self.replicas@).map_values(
                |replica: ReplicaModel<P>| replica.starts,
            ));
        }
        self.ask(Action::Send { command, replicas });
    }

    /// Drops those of the given collections that nobody reads or writes any more.
    fn update_dropped_collections(&mut self, ids: &Vec<GlobalId>)
        requires
            old(self).wf(),
        ensures
            final(self).wf(),
            final(self)@ == (InstanceModel {
                collections: without_dropped(old(self)@.collections, ids@.to_set()),
                ..old(self)@
            }),
    {
        let mut i: usize = 0;
        proof {
            assert(ids@.take(0).to_set() =~= Set::<u64>::empty());
            assert(self@.collections =~= without_dropped(
                old(self)@.collections,
                ids@.take(0).to_set(),
            ));
        }
        while i < ids.len()
            invariant
                i <= ids.len(),
                self.wf(),
                self@ == (InstanceModel {
                    collections: without_dropped(
                        old(self)@.collections,
                        ids@.take(i as int).to_set(),
                    ),
                    ..old(self)@
                }),
            decreases ids.len() - i,
        {
            let id = ids[i];
            let ghost before = *self;
            let droppable = match self.collections.get(&id) {
                Some(collection) => collection.is_droppable(),
                None => false,
            };
            if droppable {
                self.collections.remove(&id);
            }
            proof {
                assert(ids@.take(i + 1) =~= ids@.take(i as int).push(id));
                assert(ids@.take(i + 1).to_set() =~= ids@.take(i as int).to_set().insert(id)) by {
                    lemma_push_to_set(ids@.take(i as int), id);
                }
                if droppable {
                    assert(self@.collections =~= before@.collections.remove(id));
                    lemma_acyclic_less(before@.collections, self@.collections);
                    assert forall|other: u64| #[trigger]
                        capability_mass(self.collections@, other) <= self.spent@ by {
                        assert(capability_mass(before.collections@, other) <= self.spent@);
                    }
                }
                lemma_one_more_candidate(
                    old(self)@.collections,
                    ids@.take(i as int).to_set(),
                    id,
                );
                assert(before@.collections.contains_key(id) <==> before.collections@.contains_key(
                    id,
                ));
                if before@.collections.contains_key(id) {
                    assert(before@.collections[id] == old(self)@.collections[id]);
                    assert(droppable == before@.collections[id].is_droppable());
                }
                assert(self@.collections == without_dropped(
                    old(self)@.collections,
                    ids@.take(i + 1).to_set(),
                ));
            }
            i = i + 1;
        }
        proof {
            assert(ids@.take(i as int) =~= ids@);
        }
    }

    /// Applies changes to read capabilities, and passes the moves of read frontiers on to the
    /// collections that are depended on. Returns the changes that concern storage, and the
    /// collections that were visited with the moves of their read frontiers.
    fn propagate(
        &mut self,
        storage: &StorageController<P>,
        updates: BTreeMap<GlobalId, ChangeBatch<u64>>,
    ) -> (result: (BTreeMap<GlobalId, ChangeBatch<u64>>, Vec<(GlobalId, ChangeBatch<u64>)>))
        requires
            old(self).wf(),
            forall|id: u64| #[trigger]
                capability_mass(old(self).collections@, id) + batch_mass(updates@, id)
                    <= old(self).spent@,
            old(self)@.propagation(batches_counts(updates@)).settled(storage@.dom()).spent
                <= i64::MAX,
        ensures
            final(self).wf(),
            ({
                let end = old(self)@.propagation(batches_counts(updates@)).settled(storage@.dom());
                &&& final(self)@ == (InstanceModel {
                    collections: end.collections,
                    spent: end.spent,
                    ..old(self)@
                })
                &&& end.storage == batches_counts(result.0@)
                &&& end.net == net_model(result.1@)
            }),
            forall|i: int|
                0 <= i < result.1@.len() ==> final(self)@.collections.contains_key(
                    (#[trigger] result.1@[i]).0,
                ) && no_zero(batch_updates(result.1@[i].1)) && mass(batch_updates(result.1@[i].1))
                    <= 2,
    {
        let ghost ids = storage@.dom();
        let ghost start = self@.propagation(batches_counts(updates@));
        let ghost limit = start.steps_to_settle(ids);
        let ghost mut n: nat = 0;
        let mut updates = updates;
        let mut storage_todo: BTreeMap<GlobalId, ChangeBatch<u64>> = BTreeMap::new();
        let mut compute_net: Vec<(GlobalId, ChangeBatch<u64>)> = Vec::new();
        proof {
            assert(batches_counts(updates@).dom() =~= updates@.dom());
            lemma_settles(start, ids);
            lemma_settled(start, ids, limit);
            assert(batches_counts(storage_todo@) =~= Map::<u64, Counts>::empty());
            assert(net_model(compute_net@) =~= Seq::<(u64, Counts)>::empty());
            assert(start.steps(ids, 0) == start);
        }
        while !updates.is_empty()
            invariant
                ids == storage@.dom(),
                start == old(self)@.propagation(start.pending),
                limit == start.steps_to_settle(ids),
                start.steps(ids, limit).pending.is_empty(),
                start.steps(ids, limit).spent <= i64::MAX,
                self.wf(),
                self@ == (InstanceModel {
                    collections: self@.collections,
                    spent: self@.spent,
                    ..old(self)@
                }),
                ({
                    let now = start.steps(ids, n);
                    &&& now.collections == self@.collections
                    &&& now.pending == batches_counts(updates@)
                    &&& now.storage == batches_counts(storage_todo@)
                    &&& now.net == net_model(compute_net@)
                    &&& now.spent == self.spent@
                }),
                forall|id: u64| #[trigger]
                    capability_mass(self.collections@, id) + batch_mass(updates@, id) + batch_mass(
                        storage_todo@,
                        id,
                    ) <= self.spent@,
                forall|i: int|
                    0 <= i < compute_net@.len() ==> self@.collections.contains_key(
                        (#[trigger] compute_net@[i]).0,
                    ) && no_zero(batch_updates(compute_net@[i].1)) && mass(
                        batch_updates(compute_net@[i].1),
                    ) <= 2,
            decreases limit - n,
        {
            let ghost now = start.steps(ids, n);
            let ghost before = *self;
            let ghost before_updates = updates@;
            let ghost before_storage = storage_todo@;
            let ghost before_net = compute_net@;
            proof {
                assert(now.pending.dom() =~= updates@.dom());
                assert(!now.pending.is_empty());
                if n >= limit {
                    lemma_steps_stable(start, ids, limit, n);
                }
                assert(start.steps(ids, n + 1) == now.step(ids));
                lemma_spent_grows(start, ids, n + 1, limit);
                lemma_pending_greatest(now);
            }
            let key = greatest_key(&updates);
            let mut update = match updates.remove(&key) {
                Some(update) => update,
                None => empty_batch(),
            };
            proof {
                assert(batch_mass(before_updates, key) == mass(batch_updates(update)));
                assert(capability_mass(before.collections@, key) + batch_mass(before_updates, key)
                    + batch_mass(before_storage, key) <= before.spent@);
                assert(batches_counts(updates@) =~= now.pending.remove(key));
            }
            match self.collections.remove(&key) {
                Some(collection) => {
                    let mut collection = collection;
                    let ghost before_collection = collection;
                    let changes = drain_batch(&mut update);
                    let moves = collection.change_capabilities(changes);
                    proof {
                        assert(Seq::<(u64, i64)>::empty() + moves@ =~= moves@);
                        assert(capability_mass(before.collections@, key)
                            == before_collection.capability_mass());
                    }
                    extend_batch(&mut update, moves);
                    let moves = batch_changes(&mut update);
                    let ghost count = before_collection.compute_dependencies@.len()
                        + before_collection.storage_dependencies@.len();
                    proof {
                        assert(now.step(ids).spent == before.spent@ + 2 * count);
                        lemma_twice(collection.storage_dependencies@.len(), mass(moves@));
                        lemma_twice(collection.compute_dependencies@.len(), mass(moves@));
                        assert forall|id: u64| #[trigger]
                            batch_mass(storage_todo@, id) + collection.storage_dependencies@.len()
                                * mass(moves@) <= i64::MAX by {
                            assert(capability_mass(before.collections@, id) + batch_mass(
                                before_updates,
                                id,
                            ) + batch_mass(before_storage, id) <= before.spent@);
                        }
                        assert forall|id: u64| #[trigger]
                            batch_mass(updates@, id) + collection.compute_dependencies@.len()
                                * mass(moves@) <= i64::MAX by {
                            assert(capability_mass(before.collections@, id) + batch_mass(
                                before_updates,
                                id,
                            ) + batch_mass(before_storage, id) <= before.spent@);
                        }
                    }
                    let ghost left_updates = updates@;
                    record_all(&mut storage_todo, &collection.storage_dependencies, &moves);
                    record_all(&mut updates, &collection.compute_dependencies, &moves);
                    self.collections.insert(key, collection);
                    compute_net.push((key, update));
                    self.spent = Ghost(self.spent@ + 2 * count);
                    proof {
                        assert(self@.collections =~= before@.collections.insert(key, collection@));
                        assert(net_model(compute_net@) =~= net_model(before_net).push(
                            (key, batch_counts(update)),
                        ));
                        assert(now.step(ids).collections == self@.collections);
                        assert(now.step(ids).pending == batches_counts(updates@));
                        assert(now.step(ids).storage == batches_counts(storage_todo@));
                        assert(now.step(ids).net == net_model(compute_net@));
                        assert forall|id: u64| #[trigger]
                            capability_mass(self.collections@, id) + batch_mass(updates@, id)
                                + batch_mass(storage_todo@, id) <= self.spent@ by {
                            assert(capability_mass(before.collections@, id) + batch_mass(
                                before_updates,
                                id,
                            ) + batch_mass(before_storage, id) <= before.spent@);
                            assert(batch_mass(updates@, id) <= batch_mass(left_updates, id)
                                + collection.compute_dependencies@.len() * mass(moves@));
                            assert(batch_mass(storage_todo@, id) <= batch_mass(before_storage, id)
                                + collection.storage_dependencies@.len() * mass(moves@));
                        }
                        lemma_acyclic_less(before@.collections, self@.collections);
                    }
                },
                None => {
                    if storage.collection(key).is_ok() {
                        let changes = drain_batch(&mut update);
                        record(&mut storage_todo, key, changes);
                    }
                    proof {
                        assert(self.collections@ =~= before.collections@);
                    }
                },
            }
            proof {
                n = n + 1;
            }
        }
        proof {
            assert(batches_counts(updates@).dom() =~= updates@.dom());
            lemma_settled(start, ids, n);
        }
        (storage_todo, compute_net)
    }

    /// Applies `updates`, propagates consequences through other read capabilities, and sends an
    /// appropriate compaction command.
    fn update_read_capabilities(
        &mut self,
        storage: &StorageController<P>,
        updates: BTreeMap<GlobalId, ChangeBatch<u64>>,
    )
        requires
            old(self).wf(),
            forall|id: u64| #[trigger]
                capability_mass(old(self).collections@, id) + batch_mass(updates@, id)
                    <= old(self).spent@,
            old(self)@.update_read_capabilities(
                storage@.dom(),
                batches_counts(updates@),
            ).spent <= i64::MAX,
        ensures
            final(self).wf(),
            final(self)@ == old(self)@.update_read_capabilities(
                storage@.dom(),
                batches_counts(updates@),
            ),
    {
        let ghost end = self@.propagation(batches_counts(updates@)).settled(storage@.dom());
        let (storage_todo, compute_net) = self.propagate(storage, updates);
        let ghost applied = *self;
        let mut compute_net = compute_net;

        // Translate our net compute actions into `AllowCompaction` commands
        // and a list of collections that are potentially ready to be dropped.
        let mut compaction_commands: Vec<(GlobalId, Antichain<u64>)> = Vec::new();
        let mut dropped_collection_ids: Vec<GlobalId> = Vec::new();
        let ghost moved_visit = |visit: (u64, Counts)| !is_zero(visit.1);
        let ghost compaction = |visit: (u64, Counts)|
            (visit.0, end.collections[visit.0].read_frontier());
        let mut i: usize = 0;
        proof {
            reveal(Seq::filter);
            assert(uppers_model(compaction_commands@) =~= end.net.take(0).filter(
                moved_visit,
            ).map_values(compaction));
        }
        while i < compute_net.len()
            invariant
                i <= compute_net.len(),
                compute_net@.len() == end.net.len(),
                self@.collections == end.collections,
                moved_visit == (|visit: (u64, Counts)| !is_zero(visit.1)),
                compaction == (|visit: (u64, Counts)|
                    (visit.0, end.collections[visit.0].read_frontier())),
                forall|j: int|
                    0 <= j < compute_net@.len() ==> self@.collections.contains_key(
                        (#[trigger] compute_net@[j]).0,
                    ) && no_zero(batch_updates(compute_net@[j].1)) && mass(
                        batch_updates(compute_net@[j].1),
                    ) <= 2 && end.net[j] == (compute_net@[j].0, batch_counts(compute_net@[j].1)),
                uppers_model(compaction_commands@) == end.net.take(i as int).filter(
                    moved_visit,
                ).map_values(compaction),
                forall|id: u64| #[trigger]
                    dropped_collection_ids@.contains(id) ==> visited(end.net).contains(id),
                forall|j: int|
                    0 <= j < i && end.collections[(#[trigger] end.net[j]).0].read_frontier().len()
                        == 0 ==> dropped_collection_ids@.contains(end.net[j].0),
            decreases compute_net.len() - i,
        {
            let id = compute_net[i].0;
            let ghost before_net = compute_net@;
            let ghost before_commands = compaction_commands@;
            let ghost before_dropped = dropped_collection_ids@;
            proof {
                assert(compute_net@[i as int].0 == id);
                assert(self.collections@.contains_key(id));
                assert(end.net[i as int].0 == id);
            }
            let frontier = match self.collections.get(&id) {
                Some(collection) => collection.read_frontier(),
                None => crate::frontier::empty_antichain(),
            };
            proof {
                assert(antichain_elements(frontier) == end.collections[id].read_frontier());
            }
            if crate::frontier::is_empty(&frontier) {
                dropped_collection_ids.push(id);
                proof {
                    assert(dropped_collection_ids@[before_dropped.len() as int] == id);
                    assert forall|other: u64| #[trigger]
                        dropped_collection_ids@.contains(other) implies visited(
                        end.net,
                    ).contains(other) by {
                        if other != id {
                            let j = choose|j: int|
                                0 <= j < dropped_collection_ids@.len()
                                    && dropped_collection_ids@[j] == other;
                            assert(before_dropped[j] == other);
                            assert(before_dropped.contains(other));
                        } else {
                            assert(end.net[i as int].0 == other);
                        }
                    }
                    assert forall|other: u64| before_dropped.contains(other) implies #[trigger]
                        dropped_collection_ids@.contains(other) by {
                        let j = choose|j: int|
                            0 <= j < before_dropped.len() && before_dropped[j] == other;
                        assert(dropped_collection_ids@[j] == other);
                    }
                }
            }
            let unchanged = batch_is_empty(&mut compute_net[i].1);
            if !unchanged {
                compaction_commands.push((id, frontier));
            }
            proof {
                assert(end.net.take(i + 1).drop_last() =~= end.net.take(i as int));
                assert(end.net.take(i + 1).last() == end.net[i as int]);
                reveal(Seq::filter);
                let front = end.net.take(i as int).filter(moved_visit);
                let all = end.net.take(i + 1).filter(moved_visit);
                if !unchanged {
                    assert(all == front.push(end.net[i as int]));
                    assert(uppers_model(compaction_commands@) =~= uppers_model(
                        before_commands,
                    ).push((id, antichain_elements(frontier))));
                    assert(all.map_values(compaction) =~= front.map_values(compaction).push(
                        compaction(end.net[i as int]),
                    ));
                }
            }
            i = i + 1;
        }
        proof {
            assert(end.net.take(i as int) =~= end.net);
            assert(uppers_model(compaction_commands@) == compactions(end.collections, end.net));
        }
        if compaction_commands.len() > 0 {
            self.send(ComputeCommand::AllowCompaction(compaction_commands));
        }
        self.update_dropped_collections(&dropped_collection_ids);
        proof {
            assert(without_dropped(end.collections, dropped_collection_ids@.to_set())
                =~= without_dropped(end.collections, visited(end.net)));
        }

        // We may have storage consequences to process.
        if !storage_todo.is_empty() {
            self.ask(Action::UpdateStorageReadCapabilities(storage_todo));
        }
        proof {
            assert(batches_counts(storage_todo@).dom() =~= storage_todo@.dom());
        }
    }

    /// Accepts write frontiers that a replica reports.
    fn update_write_frontiers(
        &mut self,
        storage: &StorageController<P>,
        replica_id: ReplicaId,
        updates: &Vec<(GlobalId, Antichain<u64>)>,
    )
        requires
            old(self).wf(),
            old(self)@.tracks(uppers_model(updates@)),
            old(self)@.update_write_frontiers(
                storage@.dom(),
                replica_id,
                uppers_model(updates@),
            ).spent <= i64::MAX,
        ensures
            final(self).wf(),
            final(self)@ == old(self)@.update_write_frontiers(
                storage@.dom(),
                replica_id,
                uppers_model(updates@),
            ),
    {
        let ghost ids = storage@.dom();
        let ghost uppers = uppers_model(updates@);
        let ghost start = self@.absorbed(replica_id, Seq::empty());
        let ghost end = self@.absorbed(replica_id, uppers);
        let mut advanced_collections: Vec<GlobalId> = Vec::new();
        let mut compute_read_capability_changes: BTreeMap<GlobalId, ChangeBatch<u64>> =
            BTreeMap::new();
        let mut storage_read_capability_changes: BTreeMap<GlobalId, ChangeBatch<u64>> =
            BTreeMap::new();
        let mut dropped_collection_ids: Vec<GlobalId> = Vec::new();
        let mut i: usize = 0;
        proof {
            assert(uppers.take(0) =~= Seq::empty());
            assert(batches_counts(compute_read_capability_changes@) =~= Map::empty());
            assert(batches_counts(storage_read_capability_changes@) =~= Map::empty());
            lemma_settling_spends(
                (InstanceModel { collections: end.collections, spent: end.spent, ..self@ }),
                ids,
                end.capabilities,
            );
        }
        while i < updates.len()
            invariant
                i <= updates.len(),
                uppers == uppers_model(updates@),
                start == old(self)@.absorbed(replica_id, Seq::empty()),
                end == start.absorb_all(replica_id, uppers),
                end.spent <= i64::MAX,
                forall|j: int|
                    0 <= j < uppers.len() ==> old(self)@.collections.contains_key(
                        (#[trigger] uppers[j]).0,
                    ),
                self.wf(),
                self@ == (InstanceModel {
                    collections: self@.collections,
                    spent: self@.spent,
                    ..old(self)@
                }),
                self@.collections.dom() == old(self)@.collections.dom(),
                ({
                    let now = start.absorb_all(replica_id, uppers.take(i as int));
                    &&& now.collections == self@.collections
                    &&& now.advanced == advanced_collections@
                    &&& now.capabilities == batches_counts(compute_read_capability_changes@)
                    &&& now.storage == batches_counts(storage_read_capability_changes@)
                    &&& now.finished == dropped_collection_ids@
                    &&& now.spent == self.spent@
                }),
                forall|id: u64| #[trigger]
                    capability_mass(self.collections@, id) + batch_mass(
                        compute_read_capability_changes@,
                        id,
                    ) <= self.spent@,
                forall|id: u64| #[trigger]
                    batch_mass(storage_read_capability_changes@, id) <= self.spent@,
            decreases updates.len() - i,
        {
            let id = updates[i].0;
            let new_upper = &updates[i].1;
            let ghost upper = antichain_elements(*new_upper);
            let ghost now = start.absorb_all(replica_id, uppers.take(i as int));
            let ghost next = start.absorb_all(replica_id, uppers.take(i + 1));
            let ghost before = *self;
            let ghost before_changes = compute_read_capability_changes@;
            let ghost before_storage = storage_read_capability_changes@;
            proof {
                assert(uppers[i as int] == (id, upper));
                assert(uppers.take(i + 1).drop_last() =~= uppers.take(i as int));
                assert(uppers.take(i + 1).last() == uppers[i as int]);
                assert(next == now.absorb(replica_id, id, upper));
                lemma_absorbing_spends(start, replica_id, uppers, (i + 1) as nat);
                assert(self@.collections.contains_key(id));
            }
            if let Some(collection) = self.collections.remove(&id) {
                let mut collection = collection;
                let ghost model = collection@;
                proof {
                    assert(model == now.collections[id]);
                    assert(capability_mass(before.collections@, id)
                        == collection.capability_mass());
                }
                let (advanced, moves) = collection.report(replica_id, new_upper);
                if advanced {
                    advanced_collections.push(id);
                }
                if crate::frontier::is_empty(new_upper) {
                    dropped_collection_ids.push(id);
                }
                let new_read_capability = collection.read_policy.frontier(
                    &collection.write_frontier,
                );
                let ghost capability = antichain_elements(new_read_capability);
                let mut update = collection.downgrade(new_read_capability);
                let ghost changes = batch_counts(update);
                proof {
                    assert(capability == model.read_policy.answer(
                        model.with_upper(replica_id, upper).write_frontier,
                    ));
                    assert(changes == model.downgrade_changes(capability));
                    assert(next.spent == now.spent + model.downgrade_cost(capability)
                        + model.storage_dependencies.len() * mass(moves@));
                    assert forall|other: u64| #[trigger]
                        batch_mass(storage_read_capability_changes@, other)
                            + model.storage_dependencies.len() * mass(moves@) <= i64::MAX by {}
                }
                if !batch_is_empty(&mut update) {
                    compute_read_capability_changes.insert(id, update);
                }
                // Update read holds on storage dependencies.
                record_all(
                    &mut storage_read_capability_changes,
                    &collection.storage_dependencies,
                    &moves,
                );
                self.collections.insert(id, collection);
                self.spent = Ghost(next.spent);
                proof {
                    assert(self@.collections =~= before@.collections.insert(id, collection@));
                    assert(self@.collections =~= next.collections);
                    if !is_zero(changes) {
                        assert(batches_counts(compute_read_capability_changes@)
                            =~= batches_counts(before_changes).insert(id, changes));
                    }
                    assert forall|other: u64| #[trigger]
                        capability_mass(self.collections@, other) + batch_mass(
                            compute_read_capability_changes@,
                            other,
                        ) <= self.spent@ by {
                        assert(capability_mass(before.collections@, other) + batch_mass(
                            before_changes,
                            other,
                        ) <= before.spent@);
                    }
                    assert forall|other: u64| #[trigger]
                        batch_mass(storage_read_capability_changes@, other) <= self.spent@ by {
                        assert(batch_mass(before_storage, other) <= before.spent@);
                    }
                    lemma_acyclic_less(before@.collections, self@.collections);
                }
            }
            i = i + 1;
        }
        proof {
            assert(uppers.take(i as int) =~= uppers);
            lemma_advanced_tracked(start, replica_id, uppers);
        }
        // The write frontiers do not change any more.
        let storage_updates = self.storage_reports(storage, &advanced_collections);
        self.update_read_capabilities(storage, compute_read_capability_changes);
        let ghost applied = self@;
        if !storage_read_capability_changes.is_empty() {
            self.ask(Action::UpdateStorageReadCapabilities(storage_read_capability_changes));
        }
        proof {
            assert(batches_counts(storage_read_capability_changes@).dom()
                =~= storage_read_capability_changes@.dom());
        }

        // Tell the storage controller about new write frontiers for storage
        // collections that are advanced by compute sinks.
        self.ask(Action::UpdateStorageWriteFrontiers(storage_updates));
        self.update_dropped_collections(&dropped_collection_ids);
    }

    /// The write frontiers of those of the given collections that storage knows.
    fn storage_reports(&self, storage: &StorageController<P>, ids: &Vec<GlobalId>) -> (result: Vec<
        (GlobalId, Antichain<u64>),
    >)
        requires
            forall|i: int|
                0 <= i < ids@.len() && storage@.contains_key(#[trigger] ids@[i])
                    ==> self@.collections.contains_key(ids@[i]),
        ensures
            uppers_model(result@) == reports(self@.collections, ids@, storage@.dom()),
    {
        let mut result: Vec<(GlobalId, Antichain<u64>)> = Vec::new();
        let ghost known = |id: u64| storage@.dom().contains(id);
        let ghost report = |id: u64| (id, self@.collections[id].write_frontier);
        let mut i: usize = 0;
        proof {
            reveal(Seq::filter);
            assert(uppers_model(result@) =~= ids@.take(0).filter(known).map_values(report));
        }
        while i < ids.len()
            invariant
                i <= ids.len(),
                known == (|id: u64| storage@.dom().contains(id)),
                report == (|id: u64| (id, self@.collections[id].write_frontier)),
                forall|j: int|
                    0 <= j < ids@.len() && storage@.contains_key(#[trigger] ids@[j])
                        ==> self@.collections.contains_key(ids@[j]),
                uppers_model(result@) == ids@.take(i as int).filter(known).map_values(report),
            decreases ids.len() - i,
        {
            let id = ids[i];
            let ghost before = result@;
            proof {
                assert(ids@.take(i + 1).drop_last() =~= ids@.take(i as int));
                assert(ids@.take(i + 1).last() == id);
                reveal(Seq::filter);
            }
            if storage.collection(id).is_ok() {
                proof {
                    assert(storage@.contains_key(ids@[i as int]));
                }
                if let Some(collection) = self.collections.get(&id) {
                    result.push((id, crate::frontier::copy_antichain(&collection.write_frontier)));
                }
                proof {
                    let front = ids@.take(i as int).filter(known);
                    assert(uppers_model(result@) =~= uppers_model(before).push(report(id)));
                    assert(front.push(id).map_values(report) =~= front.map_values(report).push(
                        report(id),
                    ));
                }
            }
            i = i + 1;
        }
        proof {
            assert(ids@.take(i as int) =~= ids@);
        }
        result
    }

    /// Removes what a replica has reported.
    fn remove_write_frontiers(&mut self, replica_id: ReplicaId)
        requires
            old(self).wf(),
            old(self)@.remove_write_frontiers(replica_id).spent <= i64::MAX,
        ensures
            final(self).wf(),
            final(self)@ == old(self)@.remove_write_frontiers(replica_id),
    {
        let ids = sorted_keys(&self.collections);
        let ghost collections = self@.collections;
        let mut storage_read_capability_changes: BTreeMap<GlobalId, ChangeBatch<u64>> =
            BTreeMap::new();
        let mut dropped_collection_ids: Vec<GlobalId> = Vec::new();
        let mut i: usize = 0;
        proof {
            assert(collections.dom() =~= self.collections@.dom());
            lemma_sorted_ids(self.collections@.dom());
            assert(batches_counts(storage_read_capability_changes@) =~= Map::empty());
            assert(self@.collections =~= partly_forgotten(collections, replica_id, ids@.take(0)));
        }
        while i < ids.len()
            invariant
                i <= ids.len(),
                collections == old(self)@.collections,
                increasing(ids@),
                forall|id: u64| #[trigger] ids@.contains(id) <==> collections.contains_key(id),
                old(self).spent@ + release_cost(collections, replica_id, ids@) <= i64::MAX,
                self.wf(),
                self@ == (InstanceModel {
                    collections: partly_forgotten(collections, replica_id, ids@.take(i as int)),
                    spent: old(self).spent@ + release_cost(
                        collections,
                        replica_id,
                        ids@.take(i as int),
                    ),
                    ..old(self)@
                }),
                batches_counts(storage_read_capability_changes@) == released(
                    collections,
                    replica_id,
                    ids@.take(i as int),
                ),
                forall|id: u64| #[trigger]
                    batch_mass(storage_read_capability_changes@, id) <= self.spent@,
                forall|id: u64| #[trigger]
                    dropped_collection_ids@.contains(id) <==> ids@.take(i as int).contains(id)
                        && collections[id].replica_write_frontiers.contains_key(replica_id),
            decreases ids.len() - i,
        {
            let id = ids[i];
            let ghost front = ids@.take(i as int);
            let ghost before = *self;
            let ghost before_dropped = dropped_collection_ids@;
            proof {
                assert(ids@.take(i + 1) =~= front.push(id));
                assert(ids@.take(i + 1).drop_last() =~= front);
                assert(ids@.contains(id));
                assert(!front.contains(id)) by {
                    if front.contains(id) {
                        let j = choose|j: int| 0 <= j < front.len() && front[j] == id;
                        assert(ids@[j] < ids@[i as int]);
                    }
                }
                lemma_push_to_set(front, id);
                assert forall|other: u64|
                    ids@.take(i + 1).contains(other) <==> front.contains(other) || other == id by {
                    assert(ids@.take(i + 1).to_set().contains(other)
                        <==> front.to_set().insert(id).contains(other));
                }
                lemma_release_cost_grows(collections, replica_id, ids@, (i + 1) as nat);
                assert(self@.collections.contains_key(id));
            }
            if let Some(collection) = self.collections.remove(&id) {
                let mut collection = collection;
                let ghost model = collection@;
                proof {
                    assert(model == before@.collections[id]);
                    assert(model == collections[id]);
                    assert(capability_mass(before.collections@, id)
                        == collection.capability_mass());
                }
                let last_upper = collection.forget(replica_id);
                if let Some(moves) = last_upper {
                    dropped_collection_ids.push(id);
                    proof {
                        lemma_push_to_set(before_dropped, id);
                        assert forall|other: u64| #[trigger]
                            dropped_collection_ids@.contains(other) <==> before_dropped.contains(
                                other,
                            ) || other == id by {
                            assert(dropped_collection_ids@.to_set().contains(other)
                                <==> before_dropped.to_set().insert(id).contains(other));
                        }
                    }
                    // Update read holds on storage dependencies.
                    record_all(
                        &mut storage_read_capability_changes,
                        &collection.storage_dependencies,
                        &moves,
                    );
                }
                self.collections.insert(id, collection);
                self.spent = Ghost(
                    old(self).spent@ + release_cost(collections, replica_id, ids@.take(i + 1)),
                );
                proof {
                    assert(self@.collections =~= before@.collections.insert(id, collection@));
                    assert(self@.collections =~= partly_forgotten(
                        collections,
                        replica_id,
                        ids@.take(i + 1),
                    ));
                    assert forall|other: u64| #[trigger]
                        capability_mass(self.collections@, other) <= self.spent@ by {
                        assert(capability_mass(before.collections@, other) <= before.spent@);
                    }
                    lemma_acyclic_less(before@.collections, self@.collections);
                }
            }
            i = i + 1;
        }
        proof {
            assert(ids@.take(i as int) =~= ids@);
            assert(self@.collections =~= collections.map_values(
                |collection: CollectionModel<L>| collection.without_replica(replica_id),
            ));
            assert(batches_counts(storage_read_capability_changes@).dom()
                =~= storage_read_capability_changes@.dom());
            assert(dropped_collection_ids@.to_set() =~= Set::new(
                |id: u64|
                    collections.contains_key(id)
                        && collections[id].replica_write_frontiers.contains_key(replica_id),
            )) by {
                assert forall|id: u64|
                    dropped_collection_ids@.to_set().contains(id) <==> collections.contains_key(id)
                        && collections[id].replica_write_frontiers.contains_key(replica_id) by {
                    assert(dropped_collection_ids@.contains(id)
                        == dropped_collection_ids@.to_set().contains(id));
                    assert(ids@.contains(id) <==> collections.contains_key(id));
                }
            }
        }
        if !storage_read_capability_changes.is_empty() {
            self.ask(Action::UpdateStorageReadCapabilities(storage_read_capability_changes));
        }
        self.update_dropped_collections(&dropped_collection_ids);
    }

    /// Removes registered peeks, unblocking compaction that might have waited on them.
    fn remove_peeks(&mut self, storage: &StorageController<P>, peek_ids: &BTreeSet<Uuid>)
        requires
            old(self).wf(),
            old(self)@.remove_peeks(storage@.dom(), peek_ids@).spent <= i64::MAX,
        ensures
            final(self).wf(),
            final(self)@ == old(self)@.remove_peeks(storage@.dom(), peek_ids@),
    {
        let uuids = sorted_uuid_set(peek_ids);
        let ghost peeks = self.peeks@;
        let mut updates: BTreeMap<GlobalId, ChangeBatch<u64>> = BTreeMap::new();
        let mut i: usize = 0;
        let ghost removed = InstanceModel {
            peeks: peeks.remove_keys(peek_ids@),
            spent: self.spent@ + peek_ids@.len(),
            ..self@
        };
        proof {
            lemma_sorted_ids(peek_ids@);
            lemma_settling_spends(removed, storage@.dom(), given_up(peeks, uuids@));
            assert(batches_counts(updates@) =~= Map::empty());
            assert(self.peeks@ =~= peeks.remove_keys(uuids@.take(0).to_set()));
        }
        while i < uuids.len()
            invariant
                i <= uuids.len(),
                uuids@.len() == peek_ids@.len(),
                peeks == old(self).peeks@,
                increasing(uuids@),
                old(self).spent@ + peek_ids@.len() <= i64::MAX,
                self.wf(),
                self@ == (InstanceModel {
                    peeks: peeks.remove_keys(uuids@.take(i as int).to_set()),
                    spent: old(self).spent@ + i as nat,
                    ..old(self)@
                }),
                batches_counts(updates@) == given_up(peeks, uuids@.take(i as int)),
                forall|id: u64| #[trigger]
                    capability_mass(self.collections@, id) + batch_mass(updates@, id)
                        <= self.spent@,
            decreases uuids.len() - i,
        {
            let uuid = uuids[i];
            let ghost front = uuids@.take(i as int);
            let ghost before = *self;
            let ghost before_updates = updates@;
            proof {
                assert(uuids@.take(i + 1) =~= front.push(uuid));
                assert(uuids@.take(i + 1).drop_last() =~= front);
                lemma_push_to_set(front, uuid);
                assert(!front.contains(uuid)) by {
                    if front.contains(uuid) {
                        let j = choose|j: int| 0 <= j < front.len() && front[j] == uuid;
                        assert(uuids@[j] < uuids@[i as int]);
                    }
                }
                assert(self.peeks@.contains_key(uuid) <==> peeks.contains_key(uuid));
            }
            if let Some(peek) = self.peeks.remove(&uuid) {
                let mut changes: Vec<(u64, i64)> = Vec::new();
                changes.push((peek.time, -1));
                proof {
                    assert(changes@ =~= seq![(peek.time, -1i64)]);
                    lemma_totals_of_few(peek.time, -1i64);
                    assert(capability_mass(before.collections@, peek.target) + batch_mass(
                        before_updates,
                        peek.target,
                    ) <= before.spent@);
                }
                record(&mut updates, peek.target, changes);
            }
            self.spent = Ghost(self.spent@ + 1);
            proof {
                assert(self.peeks@ =~= peeks.remove_keys(uuids@.take(i + 1).to_set()));
                assert forall|id: u64| #[trigger]
                    capability_mass(self.collections@, id) + batch_mass(updates@, id)
                        <= self.spent@ by {
                    assert(capability_mass(before.collections@, id) + batch_mass(
                        before_updates,
                        id,
                    ) <= before.spent@);
                }
                assert forall|id: u64| #[trigger]
                    capability_mass(self.collections@, id) <= self.spent@ by {
                    assert(capability_mass(before.collections@, id) <= before.spent@);
                }
            }
            i = i + 1;
        }
        proof {
            assert(uuids@.take(i as int) =~= uuids@);
            assert(uuids@.to_set() =~= peek_ids@) by {
                assert forall|uuid: u128|
                    uuids@.to_set().contains(uuid) <==> peek_ids@.contains(uuid) by {
                    assert(uuids@.contains(uuid) == uuids@.to_set().contains(uuid));
                }
            }
            assert(self@ == removed);
        }
        self.update_read_capabilities(storage, updates);
    }
}

/// What one more candidate for dropping does to the collections that remain.
proof fn lemma_one_more_candidate<L>(
    collections: Map<u64, CollectionModel<L>>,
    candidates: Set<u64>,
    id: u64,
)
    ensures
        without_dropped(collections, candidates.insert(id)) == (if without_dropped(
            collections,
            candidates,
        ).contains_key(id) && collections[id].is_droppable() {
            without_dropped(collections, candidates).remove(id)
        } else {
            without_dropped(collections, candidates)
        }),
{
    let before = without_dropped(collections, candidates);
    let after = without_dropped(collections, candidates.insert(id));
    if before.contains_key(id) && collections[id].is_droppable() {
        assert(after =~= before.remove(id));
    } else {
        assert(after =~= before);
    }
}

/// A multiple by at most two.
proof fn lemma_twice(count: nat, times: nat)
    requires
        times <= 2,
    ensures
        count * times <= 2 * count,
{
    assert(count * times <= 2 * count) by (nonlinear_arith)
        requires
            times <= 2,
    ;
}

/// The greatest key of a map that is not empty.
fn greatest_key<V>(map: &BTreeMap<u64, V>) -> (result: u64)
    requires
        !map@.is_empty(),
    ensures
        result == greatest(map@.dom()),
{
    let keys = sorted_keys(map);
    proof {
        lemma_sorted_ids(map@.dom());
        if map@.dom().len() == 0 {
            map@.dom().lemma_len0_is_empty();
        }
    }
    keys[keys.len() - 1]
}

/// The collections when what `replica` has reported is forgotten for some of them.
spec fn partly_forgotten<L>(
    collections: Map<u64, CollectionModel<L>>,
    replica: u64,
    ids: Seq<u64>,
) -> Map<u64, CollectionModel<L>> {
    collections.map_entries(
        |id: u64, collection: CollectionModel<L>|
            if ids.contains(id) {
                collection.without_replica(replica)
            } else {
                collection
            },
    )
}

/// Releasing for all collections costs at least what releasing for the first `n` costs.
proof fn lemma_release_cost_grows<L>(
    collections: Map<u64, CollectionModel<L>>,
    replica: u64,
    ids: Seq<u64>,
    n: nat,
)
    requires
        n <= ids.len(),
    ensures
        release_cost(collections, replica, ids.take(n as int)) <= release_cost(
            collections,
            replica,
            ids,
        ),
    decreases ids.len() - n,
{
    if n == ids.len() {
        assert(ids.take(n as int) =~= ids);
    } else {
        lemma_release_cost_grows(collections, replica, ids, n + 1);
        assert(ids.take((n + 1) as int).drop_last() =~= ids.take(n as int));
    }
}

} // verus!
