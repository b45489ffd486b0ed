//! The life of an instance, and what passes between it and its surroundings.
use std::collections::{BTreeMap, BTreeSet, VecDeque};
use std::sync::Arc;
use vstd::prelude::*;

use super::replicas::log_ids;
use super::{
    actions_model, capability_mass, collections_model, replicas_model, responses_model,
    ActiveInstance, Instance,
};
use crate::action::Action;
use crate::collection::{frontiers_model, CollectionModel};
use crate::command::{commands_model, ComputeCommand, ComputeStartupEpoch, InstanceConfig};
use crate::ids::{ComputeInstanceId, GlobalId, LogVariant, ReplicaId};
use crate::model::{with_each, InstanceModel};
use crate::ordered::{sorted_ids, sorted_keys};
use crate::policy::FrontierLogic;
use crate::propagation::{acyclic, dependencies, ranked};
use crate::response::{response_option, ComputeControllerResponse, ComputeResponse};
use crate::storage::StorageController;

verus! {

/// A valid instance has no collection that depends on itself, the replicas that have failed
/// exist, and all that it holds is finite.
pub proof fn lemma_valid<P, L: FrontierLogic>(instance: Instance<P, L>)
    requires
        instance.wf(),
    ensures
        acyclic(dependencies(instance@.collections)),
        instance@.failed_replicas.subset_of(instance@.replicas.dom()),
        instance@.replicas.dom().finite(),
        instance@.failed_replicas.finite(),
        instance@.peeks.dom().finite(),
        instance@.collections.dom().finite(),
        forall|id: u64| #[trigger]
            instance@.collections.contains_key(id) ==> instance@.collections[
                id
            ].replica_write_frontiers.dom().finite(),
        forall|id: u64| #[trigger]
            instance@.replicas.contains_key(id) ==> instance@.replicas[
                id
            ].logging_config.sink_logs.dom().finite(),
{
    assert(instance@.replicas.dom() =~= instance.replicas@.dom());
    assert(instance@.collections.dom() =~= instance.collections@.dom());
    vstd::set_lib::lemma_set_subset_finite(
        instance@.replicas.dom(),
        instance@.failed_replicas,
    );
    assert forall|id: u64| #[trigger]
        instance@.collections.contains_key(id) implies instance@.collections[
        id
    ].replica_write_frontiers.dom().finite() by {
        let frontiers = instance.collections@[id].replica_write_frontiers@;
        assert(frontiers_model(frontiers).dom() =~= frontiers.dom());
    }
    assert forall|id: u64| #[trigger]
        instance@.replicas.contains_key(id) implies instance@.replicas[
        id
    ].logging_config.sink_logs.dom().finite() by {
        assert((*instance.replicas@[id].logging_config).sink_logs@.dom().finite());
    }
}

impl<P, L: FrontierLogic> Instance<P, L> {
    /// An instance without replicas that keeps the given logs as indexes.
    pub fn new(
        instance_id: ComputeInstanceId,
        arranged_logs: BTreeMap<LogVariant, GlobalId>,
        max_result_size: u32,
        envd_epoch: i64,
    ) -> (result: Self)
        requires
            envd_epoch != 0,
        ensures
            result.wf(),
            result@ == InstanceModel::<P, L>::created(
                instance_id,
                arranged_logs@,
                max_result_size,
                envd_epoch,
            ),
    {
        let logs = log_ids(&arranged_logs);
        let mut instance = Instance {
            instance_id,
            replicas: BTreeMap::new(),
            collections: BTreeMap::new(),
            arranged_logs,
            peeks: BTreeMap::new(),
            subscribes: BTreeMap::new(),
            history: Vec::new(),
            failed_replicas: BTreeSet::new(),
            ready_responses: VecDeque::new(),
            envd_epoch,
            replica_epochs: BTreeMap::new(),
            actions: Vec::new(),
            spent: Ghost(0),
        };
        proof {
            assert forall|id: u64| #[trigger]
                capability_mass(instance.collections@, id) <= instance.spent@ by {}
            assert(ranked(dependencies(instance@.collections), |id: u64| 0nat));
        }
        instance.insert_logs(&logs);
        proof {
            let empty = Map::<u64, CollectionModel<L>>::empty();
            assert(collections_model::<L>(Map::empty()) =~= empty);
            assert(with_each(empty, logs@.to_set(), CollectionModel::created_log()) =~= Map::new(
                |id: u64|
                    exists|variant: u64| #[trigger]
                        arranged_logs@.contains_key(variant) && arranged_logs@[variant] == id,
                |id: u64| CollectionModel::created_log(),
            ));
            assert(replicas_model::<P>(Map::empty()) =~= Map::empty());
            assert(frontiers_model(Map::empty()) =~= Map::empty());
            assert(commands_model::<P>(Seq::empty()) =~= Seq::empty());
            assert(responses_model::<P>(Seq::empty()) =~= Seq::empty());
            assert(actions_model::<P>(Seq::empty()) =~= Seq::empty());
        }
        instance.send(
            ComputeCommand::CreateTimely {
                comm_config: None,
                epoch: ComputeStartupEpoch { envd: envd_epoch, replica: 0 },
            },
        );
        instance.send(
            ComputeCommand::CreateInstance(InstanceConfig { logging: None, max_result_size }),
        );
        instance
    }

    /// Acquires an [`ActiveInstance`] by providing what the storage controller knows.
    pub fn activate<'a>(&'a mut self, storage: &'a StorageController<P>) -> (result: ActiveInstance<
        'a,
        P,
        L,
    >)
        ensures
            *result.compute == *old(self),
            *result.storage == *storage,
            *final(self) == *final(result.compute),
    {
        ActiveInstance { compute: self, storage }
    }

    /// Returns whether this instance has any processing work scheduled.
    pub fn wants_processing(&self) -> (result: bool)
        ensures
            result == (!self@.failed_replicas.is_empty() || self@.ready_responses.len() > 0),
    {
        // Do we need to rehydrate failed replicas?
        !self.failed_replicas.is_empty()
        // Do we have responses ready to deliver?
         || self.ready_responses.len() > 0
    }

    /// Returns the ids of all replicas of this instance, in ascending order.
    pub fn replica_ids(&self) -> (result: Vec<ReplicaId>)
        ensures
            result@ == sorted_ids(self@.replicas.dom()),
    {
        proof {
            assert(self@.replicas.dom() =~= self.replicas@.dom());
        }
        sorted_keys(&self.replicas)
    }

    /// Returns how often a replica was started.
    pub fn starts(&self, id: ReplicaId) -> (result: u64)
        ensures
            result == self@.starts(id),
    {
        match self.replica_epochs.get(&id) {
            Some(starts) => *starts,
            None => 0,
        }
    }

    /// Marks the end of any initialization commands.
    pub fn initialization_complete(&mut self)
        requires
            old(self).wf(),
        ensures
            final(self).wf(),
            final(self)@ == old(self)@.send(crate::command::CommandModel::InitializationComplete),
    {
        self.send(ComputeCommand::InitializationComplete);
    }

    /// Drops this compute instance, which must not have any replicas left.
    pub fn drop(self)
        requires
            self@.replicas.is_empty(),
    {
    }

    /// Takes in what was received from one of the replicas: a response, or that receiving from
    /// it has failed. `None` says that there was no replica to receive from; then there is
    /// nothing to return either.
    ///
    /// Returns `Err` if receiving from a replica has failed, to signal that it is in need of
    /// rehydration.
    pub fn recv(&mut self, received: Option<(ReplicaId, Option<ComputeResponse<P>>)>) -> (result:
        Option<Result<(ReplicaId, ComputeResponse<P>), ReplicaId>>)
        requires
            old(self).wf(),
            received matches Some((id, _)) ==> old(self)@.replicas.contains_key(id),
        ensures
            final(self).wf(),
            match received {
                None => {
                    &&& result is None
                    &&& final(self)@ == old(self)@
                },
                Some((id, None)) => {
                    &&& result == Some(Err::<(ReplicaId, ComputeResponse<P>), ReplicaId>(id))
                    &&& final(self)@ == old(self)@.with_failed(id)
                },
                Some((id, Some(response))) => {
                    &&& result == Some(
                        Ok::<(ReplicaId, ComputeResponse<P>), ReplicaId>((id, response)),
                    )
                    &&& final(self)@ == old(self)@
                },
            },
    {
        match received {
            None => None,
            Some((replica_id, None)) => {
                // A replica has failed and requires rehydration.
                self.failed_replicas.insert(replica_id);
                Some(Err(replica_id))
            },
            Some((replica_id, Some(response))) => {
                // A replica has produced a response. Return it.
                Some(Ok((replica_id, response)))
            },
        }
    }

    /// Takes in that sending a command to a replica has failed, which therefore requires
    /// rehydration. What is said of an earlier start of the replica, or of one that was removed,
    /// is of no concern.
    pub fn send_failed(&mut self, id: ReplicaId, starts: u64)
        requires
            old(self).wf(),
        ensures
            final(self).wf(),
            final(self)@ == old(self)@.send_failed(id, starts),
    {
        if let Some(replica) = self.replicas.get(&id) {
            if replica.starts == starts {
                self.failed_replicas.insert(id);
            }
        }
    }

    /// Takes the work that is left to the surroundings.
    pub fn take_actions(&mut self) -> (result: Vec<Action<P>>)
        requires
            old(self).wf(),
        ensures
            final(self).wf(),
            actions_model(result@) == old(self)@.actions,
            final(self)@ == (InstanceModel { actions: Seq::empty(), ..old(self)@ }),
    {
        let mut actions: Vec<Action<P>> = Vec::new();
        std::mem::swap(&mut actions, &mut self.actions);
        proof {
            assert(actions_model(self.actions@) =~= Seq::empty());
        }
        actions
    }

    /// Takes the next response that is ready to be delivered.
    pub fn next_response(&mut self) -> (result: Option<ComputeControllerResponse<P>>)
        requires
            old(self).wf(),
        ensures
            final(self).wf(),
            (final(self)@, response_option(result)) == old(self)@.next_response(),
    {
        let result = self.ready_responses.pop_front();
        proof {
            let before = old(self).ready_responses@;
            assert(responses_model(self.ready_responses@) =~= if before.len() > 0 {
                responses_model(before).drop_first()
            } else {
                responses_model(before)
            });
        }
        result
    }

    /// Replaces the commands that bring a new replica up to date by others that do so too.
    pub fn reduce_history(&mut self, commands: Vec<Arc<ComputeCommand<P>>>)
        requires
            old(self).wf(),
        ensures
            final(self).wf(),
            final(self)@ == (InstanceModel { history: commands_model(commands@), ..old(self)@ }),
    {
        self.history = commands;
    }
}

} // verus!
