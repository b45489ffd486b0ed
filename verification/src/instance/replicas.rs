//! Replicas that join, leave and fail.
use std::collections::{BTreeMap, BTreeSet};
use std::sync::Arc;
use timely::progress::Antichain;
use vstd::prelude::*;

use super::{
    capability_mass, lemma_absorbing_spends, lemma_settling_spends, replicas_model, responses_model,
    ActiveInstance, Instance, Replica,
};
use crate::action::Action;
use crate::collection::{CollectionModel, CollectionState};
use crate::command::{
    commands_model, share, share_context, uppers_model, ComputeCommand, ComputeReplicaLocation,
    ComputeStartupEpoch, LoggingConfig, LoggingModel,
};
use crate::error::{ReplicaExists, ReplicaMissing};
use crate::frontier::Frontier;
use crate::ids::{GlobalId, LogVariant, ReplicaId, Uuid};
use crate::model::{
    is_wanted, lemma_acyclic_with_logs, lemma_initial_uppers, retained, with_each, InstanceModel,
    ReplicaModel,
};
use crate::ordered::{
    increasing, lemma_push_to_set, lemma_sorted_ids, lemma_sorted_ids_unique, sorted_ids,
    sorted_keys, sorted_set, sorted_uuid_keys,
};
use crate::policy::FrontierLogic;
use crate::response::{ComputeControllerResponse, PeekResponse};
use crate::storage::StorageController;

verus! {

/// The collections that a map leads to, one for each key.
pub(super) fn log_ids(logs: &BTreeMap<LogVariant, GlobalId>) -> (result: Vec<GlobalId>)
    ensures
        result@.len() == logs@.dom().len(),
        forall|id: u64| #[trigger]
            result@.contains(id) <==> exists|variant: u64| #[trigger]
                logs@.contains_key(variant) && logs@[variant] == id,
{
    let variants = sorted_keys(logs);
    let mut result: Vec<GlobalId> = Vec::new();
    let mut i: usize = 0;
    proof {
        lemma_sorted_ids(logs@.dom());
    }
    while i < variants.len()
        invariant
            i <= variants.len(),
            forall|variant: u64| #[trigger]
                variants@.contains(variant) <==> logs@.contains_key(variant),
            result@.len() == i,
            forall|j: int| 0 <= j < i ==> #[trigger] result@[j] == logs@[variants@[j]],
        decreases variants.len() - i,
    {
        proof {
            assert(variants@.contains(variants@[i as int]));
        }
        if let Some(id) = logs.get(&variants[i]) {
            result.push(*id);
        }
        i = i + 1;
    }
    proof {
        assert forall|id: u64| #[trigger]
            result@.contains(id) <==> exists|variant: u64| #[trigger]
                logs@.contains_key(variant) && logs@[variant] == id by {
            if result@.contains(id) {
                let j = choose|j: int| 0 <= j < result@.len() && result@[j] == id;
                assert(variants@.contains(variants@[j]));
                assert(logs@.contains_key(variants@[j]));
            }
            if exists|variant: u64| #[trigger]
                logs@.contains_key(variant) && logs@[variant] == id {
                let variant = choose|variant: u64| #[trigger]
                    logs@.contains_key(variant) && logs@[variant] == id;
                assert(variants@.contains(variant));
                let j = choose|j: int| 0 <= j < variants@.len() && variants@[j] == variant;
                assert(result@[j] == id);
            }
        }
    }
    result
}

impl<P> LoggingConfig<P> {
    /// The collections that are written to storage, one for each kind of log.
    fn sink_log_ids(&self) -> (result: Vec<GlobalId>)
        ensures
            result@.len() == self@.sink_logs.dom().len(),
            result@.to_set() == self@.sink_log_ids(),
    {
        let variants = sorted_keys(&self.sink_logs);
        let mut result: Vec<GlobalId> = Vec::new();
        let mut i: usize = 0;
        proof {
            lemma_sorted_ids(self.sink_logs@.dom());
        }
        while i < variants.len()
            invariant
                i <= variants.len(),
                forall|variant: u64| #[trigger]
                    variants@.contains(variant) <==> self.sink_logs@.contains_key(variant),
                result@.len() == i,
                forall|j: int|
                    0 <= j < i ==> #[trigger] result@[j] == self.sink_logs@[variants@[j]].0,
            decreases variants.len() - i,
        {
            proof {
                assert(variants@.contains(variants@[i as int]));
            }
            if let Some((id, _)) = self.sink_logs.get(&variants[i]) {
                result.push(*id);
            }
            i = i + 1;
        }
        proof {
            assert forall|id: u64|
                result@.to_set().contains(id) <==> self@.sink_log_ids().contains(id) by {
                if result@.contains(id) {
                    let j = choose|j: int| 0 <= j < result@.len() && result@[j] == id;
                    assert(variants@.contains(variants@[j]));
                    assert(self@.sink_logs.contains_key(variants@[j]));
                }
                if self@.sink_log_ids().contains(id) {
                    let variant = choose|variant: u64| #[trigger]
                        self@.sink_logs.contains_key(variant) && self@.sink_logs[variant].0 == id;
                    assert(variants@.contains(variant));
                    let j = choose|j: int| 0 <= j < variants@.len() && variants@[j] == variant;
                    assert(result@[j] == id);
                }
            }
            assert(result@.to_set() =~= self@.sink_log_ids());
        }
        result
    }

    /// The collections of all logs.
    fn log_identifiers(&self) -> (result: BTreeSet<GlobalId>)
        ensures
            result@ == self@.log_identifiers(),
    {
        let mut result: BTreeSet<GlobalId> = BTreeSet::new();
        let sinks = self.sink_log_ids();
        let indexes = log_ids(&self.index_logs);
        insert_all(&mut result, &sinks);
        insert_all(&mut result, &indexes);
        proof {
            assert forall|id: u64|
                result@.contains(id) <==> self@.log_identifiers().contains(id) by {
                assert(indexes@.to_set().contains(id) == indexes@.contains(id));
            }
            assert(result@ =~= self@.log_identifiers());
        }
        result
    }

    /// A copy of the configuration.
    fn copy(&self) -> (result: Self)
        ensures
            result@ == self@,
    {
        LoggingConfig {
            settings: share(&self.settings),
            index_logs: self.index_logs.clone(),
            sink_logs: self.sink_logs.clone(),
        }
    }
}

/// Adds the members of a list to a set.
fn insert_all(set: &mut BTreeSet<GlobalId>, ids: &Vec<GlobalId>)
    ensures
        final(set)@ == old(set)@.union(ids@.to_set()),
{
    let mut i: usize = 0;
    proof {
        assert(set@ =~= old(set)@.union(ids@.take(0).to_set()));
    }
    while i < ids.len()
        invariant
            i <= ids.len(),
            set@ == old(set)@.union(ids@.take(i as int).to_set()),
        decreases ids.len() - i,
    {
        set.insert(ids[i]);
        proof {
            lemma_push_to_set(ids@.take(i as int), ids@[i as int]);
            assert(ids@.take(i + 1) =~= ids@.take(i as int).push(ids@[i as int]));
            assert(set@ =~= old(set)@.union(ids@.take(i + 1).to_set()));
        }
        i = i + 1;
    }
    proof {
        assert(ids@.take(i as int) =~= ids@);
    }
}

impl<P, L: FrontierLogic> Instance<P, L> {
    /// Initializes state for log collections.
    pub(super) fn insert_logs(&mut self, ids: &Vec<GlobalId>)
        requires
            old(self).wf(),
        ensures
            final(self).wf(),
            final(self)@ == (InstanceModel {
                collections: with_each(
                    old(self)@.collections,
                    ids@.to_set(),
                    CollectionModel::created_log(),
                ),
                spent: old(self)@.spent + ids@.len(),
                ..old(self)@
            }),
    {
        let ghost log = CollectionModel::<L>::created_log();
        let mut i: usize = 0;
        proof {
            assert(self@.collections =~= with_each(
                old(self)@.collections,
                ids@.take(0).to_set(),
                log,
            ));
        }
        while i < ids.len()
            invariant
                i <= ids.len(),
                log == CollectionModel::<L>::created_log(),
                self.wf(),
                self@ == (InstanceModel {
                    collections: with_each(
                        old(self)@.collections,
                        ids@.take(i as int).to_set(),
                        log,
                    ),
                    spent: old(self)@.spent + i as nat,
                    ..old(self)@
                }),
            decreases ids.len() - i,
        {
            let id = ids[i];
            let ghost before = *self;
            let state = CollectionState::new_log_collection();
            self.collections.insert(id, state);
            self.spent = Ghost(self.spent@ + 1);
            proof {
                lemma_push_to_set(ids@.take(i as int), id);
                assert(ids@.take(i + 1) =~= ids@.take(i as int).push(id));
                assert(self@.collections =~= before@.collections.insert(id, log));
                assert(self@.collections =~= with_each(
                    old(self)@.collections,
                    ids@.take(i + 1).to_set(),
                    log,
                ));
                lemma_acyclic_with_logs(before@.collections, Set::empty().insert(id), log);
                assert(with_each(before@.collections, Set::empty().insert(id), log)
                    =~= self@.collections);
                assert forall|other: u64| #[trigger]
                    capability_mass(self.collections@, other) <= self.spent@ by {
                    assert(capability_mass(before.collections@, other) <= before.spent@);
                }
            }
            i = i + 1;
        }
        proof {
            assert(ids@.take(i as int) =~= ids@);
        }
    }

    /// The collections that a replica with these logs maintains, each with its read frontier.
    fn initial_uppers(
        &self,
        maintained_logs: &BTreeSet<GlobalId>,
        Ghost(logging_config): Ghost<crate::command::LoggingModel<P>>,
    ) -> (result: Vec<(GlobalId, Antichain<u64>)>)
        requires
            maintained_logs@ == logging_config.log_identifiers(),
        ensures
            uppers_model(result@) == self@.initial_uppers(logging_config),
    {
        let ids = sorted_keys(&self.collections);
        let ghost wanted = |id: u64|
            !self@.collections[id].log_collection || logging_config.log_identifiers().contains(id);
        let ghost upper = |id: u64| (id, self@.collections[id].read_frontier());
        let mut result: Vec<(GlobalId, Antichain<u64>)> = Vec::new();
        let mut i: usize = 0;
        proof {
            assert(self@.collections.dom() =~= self.collections@.dom());
            lemma_sorted_ids(self.collections@.dom());
            reveal(Seq::filter);
            assert(uppers_model(result@) =~= ids@.take(0).filter(wanted).map_values(upper));
        }
        while i < ids.len()
            invariant
                i <= ids.len(),
                maintained_logs@ == logging_config.log_identifiers(),
                wanted == (|id: u64|
                    !self@.collections[id].log_collection
                        || logging_config.log_identifiers().contains(id)),
                upper == (|id: u64| (id, self@.collections[id].read_frontier())),
                forall|id: u64| #[trigger]
                    ids@.contains(id) <==> self@.collections.contains_key(id),
                uppers_model(result@) == ids@.take(i as int).filter(wanted).map_values(upper),
            decreases ids.len() - i,
        {
            let id = ids[i];
            let ghost before = result@;
            proof {
                assert(ids@.contains(id));
                assert(ids@.take(i + 1).drop_last() =~= ids@.take(i as int));
                assert(ids@.take(i + 1).last() == id);
                reveal(Seq::filter);
            }
            if let Some(collection) = self.collections.get(&id) {
                // Skip log collections not maintained by this replica.
                if !collection.log_collection || maintained_logs.contains(&id) {
                    result.push((id, collection.read_frontier()));
                    proof {
                        let front = ids@.take(i as int).filter(wanted);
                        assert(uppers_model(result@) =~= uppers_model(before).push(upper(id)));
                        assert(front.push(id).map_values(upper) =~= front.map_values(upper).push(
                            upper(id),
                        ));
                    }
                }
            }
            i = i + 1;
        }
        proof {
            assert(ids@.take(i as int) =~= ids@);
        }
        result
    }

    /// Removes the peeks from the history that are no longer pending.
    fn retain_peeks(&mut self)
        requires
            old(self).wf(),
        ensures
            final(self).wf(),
            final(self)@ == (InstanceModel {
                history: retained(old(self)@.history, old(self)@.peeks),
                ..old(self)@
            }),
    {
        let ghost all = commands_model(self.history@);
        let ghost wanted = |command: crate::command::CommandModel<P>|
            is_wanted(command, self.peeks@);
        let mut history: Vec<Arc<ComputeCommand<P>>> = Vec::new();
        let mut i: usize = 0;
        proof {
            reveal(Seq::filter);
            assert(commands_model(history@) =~= all.take(0).filter(wanted));
        }
        while i < self.history.len()
            invariant
                i <= self.history.len(),
                *self == *old(self),
                all == commands_model(self.history@),
                wanted == (|command: crate::command::CommandModel<P>|
                    is_wanted(command, self.peeks@)),
                commands_model(history@) == all.take(i as int).filter(wanted),
            decreases self.history.len() - i,
        {
            let ghost before = history@;
            let keep = match &*self.history[i] {
                ComputeCommand::Peek(peek) => self.peeks.contains_key(&peek.uuid),
                _ => true,
            };
            proof {
                reveal(Seq::filter);
                assert(all.take(i + 1).drop_last() =~= all.take(i as int));
                assert(all.take(i + 1).last() == (*self.history@[i as int])@);
                assert(keep == wanted(all[i as int]));
            }
            if keep {
                history.push(share(&self.history[i]));
                proof {
                    assert(commands_model(history@) =~= commands_model(before).push(
                        all[i as int],
                    ));
                }
            }
            i = i + 1;
        }
        proof {
            assert(all.take(i as int) =~= all);
        }
        self.history = history;
    }

    /// The commands of the history.
    fn replay(&self) -> (result: Vec<Arc<ComputeCommand<P>>>)
        ensures
            commands_model(result@) == self@.history,
    {
        let mut result: Vec<Arc<ComputeCommand<P>>> = Vec::new();
        let mut i: usize = 0;
        while i < self.history.len()
            invariant
                i <= self.history.len(),
                result@ == self.history@.take(i as int),
            decreases self.history.len() - i,
        {
            result.push(share(&self.history[i]));
            i = i + 1;
        }
        proof {
            assert(self.history@.take(i as int) =~= self.history@);
        }
        result
    }

    /// Returns the IDs of pending peeks targeting the specified replica.
    fn peeks_targeting(&self, replica_id: ReplicaId) -> (result: Vec<Uuid>)
        ensures
            result@ == sorted_ids(self@.peeks_targeting(replica_id)),
            result@.to_set() == self@.peeks_targeting(replica_id),
            self@.peeks_targeting(replica_id).finite(),
    {
        let uuids = sorted_uuid_keys(&self.peeks);
        let ghost targeting = self@.peeks_targeting(replica_id);
        let mut result: Vec<Uuid> = Vec::new();
        let mut i: usize = 0;
        proof {
            lemma_sorted_ids(self.peeks@.dom());
        }
        while i < uuids.len()
            invariant
                i <= uuids.len(),
                targeting == self@.peeks_targeting(replica_id),
                increasing(uuids@),
                forall|uuid: u128| #[trigger]
                    uuids@.contains(uuid) <==> self.peeks@.contains_key(uuid),
                increasing(result@),
                forall|j: int|
                    0 <= j < result@.len() ==> targeting.contains(#[trigger] result@[j]) && (i
                        < uuids@.len() ==> result@[j] < uuids@[i as int]),
                forall|j: int|
                    0 <= j < i && targeting.contains(#[trigger] uuids@[j]) ==> result@.contains(
                        uuids@[j],
                    ),
            decreases uuids.len() - i,
        {
            let uuid = uuids[i];
            let ghost before = result@;
            proof {
                assert(uuids@.contains(uuid));
            }
            let targets = match self.peeks.get(&uuid) {
                Some(peek) => match peek.target_replica {
                    Some(target) => target == replica_id,
                    None => false,
                },
                None => false,
            };
            if targets {
                result.push(uuid);
            }
            proof {
                assert(targets == targeting.contains(uuid));
                assert forall|j: int|
                    0 <= j < i + 1 && targeting.contains(
                        #[trigger] uuids@[j],
                    ) implies result@.contains(uuids@[j]) by {
                    if j < i {
                        assert(before.contains(uuids@[j]));
                        let k = choose|k: int| 0 <= k < before.len() && before[k] == uuids@[j];
                        assert(result@[k] == uuids@[j]);
                    } else {
                        assert(result@[before.len() as int] == uuids@[j]);
                    }
                }
            }
            i = i + 1;
        }
        proof {
            assert forall|uuid: u128|
                result@.to_set().contains(uuid) <==> targeting.contains(uuid) by {
                if targeting.contains(uuid) {
                    assert(uuids@.contains(uuid));
                    let j = choose|j: int| 0 <= j < uuids@.len() && uuids@[j] == uuid;
                    assert(result@.contains(uuids@[j]));
                }
            }
            assert(result@.to_set() =~= targeting);
            lemma_sorted_ids_unique(result@, targeting);
        }
        result
    }
}

impl<P, L: FrontierLogic> Instance<P, L> {
    /// Starts a replica that does not exist.
    fn start_replica(
        &mut self,
        storage: &StorageController<P>,
        id: ReplicaId,
        location: Arc<ComputeReplicaLocation<P>>,
        logging_config: LoggingConfig<P>,
    )
        requires
            old(self).wf(),
            old(self)@.can_start(id),
            old(self)@.add_replica(storage@.dom(), id, location, logging_config@).spent
                <= i64::MAX,
        ensures
            final(self).wf(),
            final(self)@ == old(self)@.add_replica(
                storage@.dom(),
                id,
                location,
                logging_config@,
            ),
    {
        let mut logging_config = logging_config;
        // Initialize state for per-replica log collections.
        let sink_logs = logging_config.sink_log_ids();
        self.insert_logs(&sink_logs);
        let ghost logged = self@;
        proof {
            assert(logged == old(self)@.with_logs(logging_config@));
        }
        logging_config.index_logs = self.arranged_logs.clone();
        let maintained_logs = logging_config.log_identifiers();

        // Initialize frontier tracking for the new replica
        // and clean up any dropped collections that we can.
        let updates = self.initial_uppers(&maintained_logs, Ghost(logging_config@));
        proof {
            assert(logged.collections.dom() =~= self.collections@.dom());
            lemma_initial_uppers(logged, logging_config@);
        }
        self.update_write_frontiers(storage, id, &updates);
        let ghost joined = self@;
        proof {
            assert(joined.replica_epochs == old(self)@.replica_epochs);
        }
        let starts = match self.replica_epochs.get(&id) {
            Some(starts) => *starts + 1,
            None => 1,
        };
        self.replica_epochs.insert(id, starts);

        // Take this opportunity to clean up the history we should present.
        self.retain_peeks();

        // Replay the commands at the client, creating new dataflow identifiers.
        let commands = self.replay();
        let logging_config = Arc::new(logging_config);
        let action = Action::SpawnReplica {
            id,
            instance_id: self.instance_id,
            location: share(&location),
            logging_config: share(&logging_config),
            epoch: ComputeStartupEpoch { envd: self.envd_epoch, replica: starts },
            commands,
        };
        let ghost before = self.replicas@;
        // Add replica to the state.
        self.replicas.insert(id, Replica { location, logging_config, starts });
        proof {
            assert(replicas_model(self.replicas@) =~= replicas_model(before).insert(
                id,
                ReplicaModel { location, logging_config: (*logging_config)@, starts },
            ));
        }
        self.ask(action);
    }

    /// Removes all state related to a replica.
    ///
    /// This method does not cause an orchestrator removal of the replica, so it is suitable for
    /// removing the replica temporarily, e.g., during rehydration.
    fn remove_replica_state(&mut self, id: ReplicaId)
        requires
            old(self).wf(),
            old(self)@.replicas.contains_key(id),
            old(self)@.remove_replica_state(id).spent <= i64::MAX,
        ensures
            final(self).wf(),
            final(self)@ == old(self)@.remove_replica_state(id),
    {
        // Remove frontier tracking for this replica.
        self.remove_write_frontiers(id);
        let ghost before = *self;
        self.replicas.remove(&id);

        // In case the replica crashes and we receive a drop replica request
        // at the same time, the cleanup request will race with the rehydration.
        // Hence we also have to stop a pending rehydration request.
        self.failed_replicas.remove(&id);
        proof {
            assert(replicas_model(self.replicas@) =~= replicas_model(before.replicas@).remove(id));
        }
        self.ask(Action::Disconnect { id });
    }

    /// Starts a replica again.
    fn rehydrate_replica(&mut self, storage: &StorageController<P>, id: ReplicaId)
        requires
            old(self).wf(),
            old(self)@.replicas.contains_key(id),
            old(self)@.can_start(id),
            old(self)@.rehydrate_replica(storage@.dom(), id).spent <= i64::MAX,
        ensures
            final(self).wf(),
            final(self)@ == old(self)@.rehydrate_replica(storage@.dom(), id),
    {
        if let Some(replica) = self.replicas.get(&id) {
            let location = share(&replica.location);
            let logging_config = replica.logging_config.copy();
            proof {
                lemma_adding_spends(
                    self@.remove_replica_state(id),
                    storage@.dom(),
                    id,
                    location,
                    logging_config@,
                );
            }
            self.remove_replica_state(id);
            self.start_replica(storage, id, location, logging_config);
        }
    }
}

/// Taking write frontiers in records at least what was recorded before.
pub(super) proof fn lemma_uppers_spend<P, L: FrontierLogic>(
    state: InstanceModel<P, L>,
    storage_ids: Set<u64>,
    replica: u64,
    uppers: Seq<(u64, Frontier)>,
)
    ensures
        state.spent <= state.update_write_frontiers(storage_ids, replica, uppers).spent,
{
    let start = state.absorbed(replica, Seq::empty());
    let end = state.absorbed(replica, uppers);
    lemma_absorbing_spends(start, replica, uppers, 0);
    assert(uppers.take(0) =~= Seq::empty());
    lemma_settling_spends(
        (InstanceModel { collections: end.collections, spent: end.spent, ..state }),
        storage_ids,
        end.capabilities,
    );
}

/// Adding a replica records at least what was recorded before.
proof fn lemma_adding_spends<P, L: FrontierLogic>(
    state: InstanceModel<P, L>,
    storage_ids: Set<u64>,
    id: u64,
    location: Arc<ComputeReplicaLocation<P>>,
    logging_config: LoggingModel<P>,
)
    ensures
        state.spent <= state.add_replica(storage_ids, id, location, logging_config).spent,
{
    let logged = state.with_logs(logging_config);
    lemma_uppers_spend(
        logged,
        storage_ids,
        id,
        logged.initial_uppers(logged.complete_logging(logging_config)),
    );
}

/// Starting all replicas again records at least what starting the first `n` records, and does
/// not change which replicas there are.
proof fn lemma_rehydrating<P, L: FrontierLogic>(
    state: InstanceModel<P, L>,
    storage_ids: Set<u64>,
    ids: Seq<u64>,
    n: nat,
)
    requires
        n <= ids.len(),
        forall|i: int| 0 <= i < ids.len() ==> state.replicas.contains_key(#[trigger] ids[i]),
    ensures
        state.rehydrate_replicas(storage_ids, ids.take(n as int)).spent
            <= state.rehydrate_replicas(storage_ids, ids).spent,
        state.rehydrate_replicas(storage_ids, ids.take(n as int)).replicas.dom()
            == state.replicas.dom(),
    decreases ids.len(),
{
    let front = ids.drop_last();
    if n < ids.len() {
        assert forall|i: int| 0 <= i < front.len() implies state.replicas.contains_key(
            #[trigger] front[i],
        ) by {
            assert(front[i] == ids[i]);
        }
        assert(front.take(n as int) =~= ids.take(n as int));
        lemma_rehydrating(state, storage_ids, front, n);
        let before = state.rehydrate_replicas(storage_ids, front);
        let last = ids.last();
        lemma_adding_spends(
            before.remove_replica_state(last),
            storage_ids,
            last,
            before.replicas[last].location,
            before.replicas[last].logging_config,
        );
    } else {
        assert(ids.take(n as int) =~= ids);
        if ids.len() > 0 {
            assert forall|i: int| 0 <= i < front.len() implies state.replicas.contains_key(
                #[trigger] front[i],
            ) by {
                assert(front[i] == ids[i]);
            }
            lemma_rehydrating(state, storage_ids, front, front.len());
            assert(front.take(front.len() as int) =~= front);
            assert(state.replicas.contains_key(ids[ids.len() - 1]));
            let before = state.rehydrate_replicas(storage_ids, front);
            assert(state.rehydrate_replicas(storage_ids, ids).replicas.dom()
                =~= state.replicas.dom());
        }
    }
}

/// Starting replicas again does not count as a start of any other.
proof fn lemma_starts_stay<P, L: FrontierLogic>(
    state: InstanceModel<P, L>,
    storage_ids: Set<u64>,
    ids: Seq<u64>,
    other: u64,
)
    requires
        !ids.contains(other),
    ensures
        state.rehydrate_replicas(storage_ids, ids).starts(other) == state.starts(other),
    decreases ids.len(),
{
    if ids.len() > 0 {
        let front = ids.drop_last();
        assert(!front.contains(other)) by {
            if front.contains(other) {
                let i = choose|i: int| 0 <= i < front.len() && front[i] == other;
                assert(ids[i] == other);
            }
        }
        lemma_starts_stay(state, storage_ids, front, other);
        assert(ids[ids.len() - 1] != other);
    }
}

impl<'a, P, L: FrontierLogic> ActiveInstance<'a, P, L> {
    /// Adds a new instance replica, by ID.
    pub fn add_replica(
        &mut self,
        id: ReplicaId,
        location: ComputeReplicaLocation<P>,
        logging_config: LoggingConfig<P>,
    ) -> (result: Result<(), ReplicaExists>)
        requires
            old(self).compute.wf(),
            !old(self).compute@.replicas.contains_key(id) ==> {
                &&& old(self).compute@.can_start(id)
                &&& old(self).compute@.add_replica(
                    old(self).storage@.dom(),
                    id,
                    Arc::new(location),
                    logging_config@,
                ).spent <= i64::MAX
            },
        ensures
            final(self).compute.wf(),
            final(self).storage == old(self).storage,
            *final(final(self).compute) == *final(old(self).compute),
            if old(self).compute@.replicas.contains_key(id) {
                &&& result == Err::<(), ReplicaExists>(ReplicaExists(id))
                &&& final(self).compute@ == old(self).compute@
            } else {
                &&& result == Ok::<(), ReplicaExists>(())
                &&& final(self).compute@ == old(self).compute@.add_replica(
                    old(self).storage@.dom(),
                    id,
                    Arc::new(location),
                    logging_config@,
                )
            },
    {
        if self.compute.replicas.contains_key(&id) {
            return Err(ReplicaExists(id));
        }
        self.compute.start_replica(self.storage, id, Arc::new(location), logging_config);
        Ok(())
    }

    /// Removes an existing instance replica, by ID.
    ///
    /// This method removes the replica from the orchestrator and should only be called if the
    /// replica should be permanently removed.
    pub fn remove_replica(&mut self, id: ReplicaId) -> (result: Result<(), ReplicaMissing>)
        requires
            old(self).compute.wf(),
            old(self).compute@.replicas.contains_key(id) ==> old(self).compute@.remove_replica(
                old(self).storage@.dom(),
                id,
            ).spent <= i64::MAX,
        ensures
            final(self).compute.wf(),
            final(self).storage == old(self).storage,
            *final(final(self).compute) == *final(old(self).compute),
            if old(self).compute@.replicas.contains_key(id) {
                &&& result == Ok::<(), ReplicaMissing>(())
                &&& final(self).compute@ == old(self).compute@.remove_replica(
                    old(self).storage@.dom(),
                    id,
                )
            } else {
                &&& result == Err::<(), ReplicaMissing>(ReplicaMissing(id))
                &&& final(self).compute@ == old(self).compute@
            },
    {
        let ghost before = self.compute@;
        let managed = match self.compute.replicas.get(&id) {
            Some(replica) => match &*replica.location {
                ComputeReplicaLocation::Managed(_) => true,
                ComputeReplicaLocation::Unmanaged(_) => false,
            },
            None => {
                return Err(ReplicaMissing(id));
            },
        };

        // If the replica is managed we have to remove it from the orchestrator.
        if managed {
            let instance_id = self.compute.instance_id;
            self.compute.ask(Action::DropReplica { instance_id, id });
        }

        // Peeks targeting this replica won't be served anymore now. We return an error for them to
        // avoid leaving them pending forever.
        let uuids = self.compute.peeks_targeting(id);
        let ghost dropped = self.compute@;
        let ghost response = |uuid: u128|
            crate::response::ControllerResponseModel::PeekResponse(
                uuid,
                crate::response::PeekResponseModel::Error("target replica was dropped"@),
                before.peeks[uuid].otel_ctx,
            );
        let mut peek_ids: BTreeSet<Uuid> = BTreeSet::new();
        let mut i: usize = 0;
        proof {
            assert(uuids@.take(0).to_set() =~= Set::empty());
            assert(dropped.ready_responses =~= dropped.ready_responses + uuids@.take(
                0,
            ).map_values(response));
        }
        while i < uuids.len()
            invariant
                i <= uuids.len(),
                dropped.peeks == before.peeks,
                uuids@.to_set() == before.peeks_targeting(id),
                response == (|uuid: u128|
                    crate::response::ControllerResponseModel::PeekResponse(
                        uuid,
                        crate::response::PeekResponseModel::Error("target replica was dropped"@),
                        before.peeks[uuid].otel_ctx,
                    )),
                peek_ids@ == uuids@.take(i as int).to_set(),
                self.compute.wf(),
                self.storage == old(self).storage,
                *final(self.compute) == *final(old(self).compute),
                self.compute@ == (InstanceModel {
                    ready_responses: dropped.ready_responses + uuids@.take(i as int).map_values(
                        response,
                    ),
                    ..dropped
                }),
            decreases uuids.len() - i,
        {
            let uuid = uuids[i];
            let ghost queued = self.compute.ready_responses@;
            proof {
                assert(uuids@.contains(uuid));
                assert(uuids@.to_set().contains(uuid));
                assert(before.peeks_targeting(id).contains(uuid));
                assert(self.compute.peeks@.contains_key(uuid));
            }
            if let Some(peek) = self.compute.peeks.get(&uuid) {
                let otel_ctx = share_context(&peek.otel_ctx);
                let answer = ComputeControllerResponse::PeekResponse(
                    uuid,
                    PeekResponse::Error("target replica was dropped".to_string()),
                    otel_ctx,
                );
                self.compute.ready_responses.push_back(answer);
            }
            peek_ids.insert(uuid);
            proof {
                assert(responses_model(self.compute.ready_responses@) =~= responses_model(
                    queued,
                ).push(response(uuid)));
                assert(uuids@.take(i + 1) =~= uuids@.take(i as int).push(uuid));
                lemma_push_to_set(uuids@.take(i as int), uuid);
                assert(uuids@.take(i + 1).map_values(response) =~= uuids@.take(
                    i as int,
                ).map_values(response).push(response(uuid)));
                assert(self.compute@.ready_responses =~= dropped.ready_responses + uuids@.take(
                    i + 1,
                ).map_values(response));
            }
            i = i + 1;
        }
        proof {
            assert(uuids@.take(i as int) =~= uuids@);
            lemma_release_spends(self.compute@.remove_peeks(self.storage@.dom(), peek_ids@), id);
        }
        self.compute.remove_peeks(self.storage, &peek_ids);
        self.compute.remove_replica_state(id);
        Ok(())
    }

    /// Rehydrates any failed replicas of this instance.
    pub fn rehydrate_failed_replicas(&mut self)
        requires
            old(self).compute.wf(),
            forall|id: u64| #[trigger]
                old(self).compute@.failed_replicas.contains(id) ==> old(self).compute@.can_start(
                    id,
                ),
            old(self).compute@.rehydrate_replicas(
                old(self).storage@.dom(),
                sorted_ids(old(self).compute@.failed_replicas),
            ).spent <= i64::MAX,
        ensures
            final(self).compute.wf(),
            final(self).storage == old(self).storage,
            *final(final(self).compute) == *final(old(self).compute),
            final(self).compute@ == old(self).compute@.rehydrate_replicas(
                old(self).storage@.dom(),
                sorted_ids(old(self).compute@.failed_replicas),
            ),
    {
        let ghost before = self.compute@;
        let ghost storage_ids = self.storage@.dom();
        let failed_replicas = sorted_set(&self.compute.failed_replicas);
        let mut i: usize = 0;
        proof {
            lemma_sorted_ids(self.compute.failed_replicas@);
            assert(failed_replicas@.take(0) =~= Seq::empty());
            assert forall|j: int|
                0 <= j < failed_replicas@.len() implies before.replicas.contains_key(
                #[trigger] failed_replicas@[j],
            ) by {
                assert(failed_replicas@.contains(failed_replicas@[j]));
            }
            assert forall|j: int| 0 <= j < failed_replicas@.len() implies before.can_start(
                #[trigger] failed_replicas@[j],
            ) by {
                assert(failed_replicas@.contains(failed_replicas@[j]));
            }
        }
        while i < failed_replicas.len()
            invariant
                i <= failed_replicas.len(),
                storage_ids == self.storage@.dom(),
                forall|j: int|
                    0 <= j < failed_replicas@.len() ==> before.replicas.contains_key(
                        #[trigger] failed_replicas@[j],
                    ),
                increasing(failed_replicas@),
                forall|j: int|
                    0 <= j < failed_replicas@.len() ==> before.can_start(
                        #[trigger] failed_replicas@[j],
                    ),
                before.rehydrate_replicas(storage_ids, failed_replicas@).spent <= i64::MAX,
                self.compute.wf(),
                self.storage == old(self).storage,
                *final(self.compute) == *final(old(self).compute),
                self.compute@ == before.rehydrate_replicas(
                    storage_ids,
                    failed_replicas@.take(i as int),
                ),
            decreases failed_replicas.len() - i,
        {
            let replica_id = failed_replicas[i];
            proof {
                lemma_rehydrating(before, storage_ids, failed_replicas@, i as nat);
                lemma_rehydrating(before, storage_ids, failed_replicas@, (i + 1) as nat);
                assert(!failed_replicas@.take(i as int).contains(replica_id)) by {
                    let done = failed_replicas@.take(i as int);
                    if done.contains(replica_id) {
                        let j = choose|j: int| 0 <= j < done.len() && done[j] == replica_id;
                        assert(failed_replicas@[j] < failed_replicas@[i as int]);
                    }
                }
                lemma_starts_stay(
                    before,
                    storage_ids,
                    failed_replicas@.take(i as int),
                    replica_id,
                );
                assert(failed_replicas@.take(i + 1).drop_last() =~= failed_replicas@.take(
                    i as int,
                ));
            }
            self.compute.rehydrate_replica(self.storage, replica_id);
            i = i + 1;
        }
        proof {
            assert(failed_replicas@.take(i as int) =~= failed_replicas@);
        }
    }
}

/// Removing a replica's state records at least what was recorded before.
proof fn lemma_release_spends<P, L: FrontierLogic>(state: InstanceModel<P, L>, id: u64)
    ensures
        state.spent <= state.remove_replica_state(id).spent,
{
}

} // verus!
