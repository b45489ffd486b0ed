//! The work that an instance leaves to its surroundings.
use std::collections::BTreeMap;
use std::sync::Arc;
use timely::progress::{Antichain, ChangeBatch};
use vstd::prelude::*;

use crate::changes::{batches_counts, Counts};
use crate::command::{
    commands_model, uppers_model, CommandModel, ComputeCommand, ComputeReplicaLocation,
    ComputeStartupEpoch, LoggingConfig, LoggingModel,
};
use crate::frontier::Frontier;
use crate::ids::{ComputeInstanceId, GlobalId, ReplicaId};

verus! {

/// A piece of work for the surroundings, to be done in the order in which they were asked for.
#[derive(Debug)]
pub enum Action<P> {
    /// Send the command to each of the replicas. Where that fails, tell the instance so, with
    /// the replica's number of starts.
    Send {
        /// The command.
        command: Arc<ComputeCommand<P>>,
        /// The replicas, each with its number of starts.
        replicas: BTreeMap<ReplicaId, u64>,
    },
    /// Start a replica, then send it the reduced form of the commands until sending fails.
    SpawnReplica {
        /// The replica.
        id: ReplicaId,
        /// The instance that the replica belongs to.
        instance_id: ComputeInstanceId,
        /// Where the replica runs.
        location: Arc<ComputeReplicaLocation<P>>,
        /// The logs that the replica maintains.
        logging_config: Arc<LoggingConfig<P>>,
        /// The start that this is.
        epoch: ComputeStartupEpoch,
        /// The commands that bring the replica up to date.
        commands: Vec<Arc<ComputeCommand<P>>>,
    },
    /// Close the connection to a replica.
    Disconnect {
        /// The replica.
        id: ReplicaId,
    },
    /// Wait for the connection to a replica to end, then have the orchestrator remove it.
    DropReplica {
        /// The instance that the replica belongs to.
        instance_id: ComputeInstanceId,
        /// The replica.
        id: ReplicaId,
    },
    /// Change read capabilities in the storage controller.
    UpdateStorageReadCapabilities(BTreeMap<GlobalId, ChangeBatch<u64>>),
    /// Report write frontiers to the storage controller.
    UpdateStorageWriteFrontiers(Vec<(GlobalId, Antichain<u64>)>),
}

/// A piece of work for the surroundings, with sums and elements in place of batches and
/// frontiers.
#[verifier::ext_equal]
pub enum ActionModel<P> {
    /// Send the command to each of the replicas.
    Send {
        /// The command.
        command: CommandModel<P>,
        /// The replicas, each with its number of starts.
        replicas: Map<u64, u64>,
    },
    /// Start a replica, then send it the reduced form of the commands until sending fails.
    SpawnReplica {
        /// The replica.
        id: u64,
        /// The instance that the replica belongs to.
        instance_id: u64,
        /// Where the replica runs.
        location: Arc<ComputeReplicaLocation<P>>,
        /// The logs that the replica maintains.
        logging_config: LoggingModel<P>,
        /// The start that this is.
        epoch: ComputeStartupEpoch,
        /// The commands that bring the replica up to date.
        commands: Seq<CommandModel<P>>,
    },
    /// Close the connection to a replica.
    Disconnect {
        /// The replica.
        id: u64,
    },
    /// Wait for the connection to a replica to end, then have the orchestrator remove it.
    DropReplica {
        /// The instance that the replica belongs to.
        instance_id: u64,
        /// The replica.
        id: u64,
    },
    /// Change read capabilities in the storage controller.
    UpdateStorageReadCapabilities(Map<u64, Counts>),
    /// Report write frontiers to the storage controller.
    UpdateStorageWriteFrontiers(Seq<(u64, Frontier)>),
}

impl<P> View for Action<P> {
    type V = ActionModel<P>;

    open spec fn view(&self) -> ActionModel<P> {
        match self {
            Action::Send { command, replicas } => ActionModel::Send {
                command: (**command)@,
                replicas: replicas@,
            },
            Action::SpawnReplica {
                id,
                instance_id,
                location,
                logging_config,
                epoch,
                commands,
            } => ActionModel::SpawnReplica {
                id: *id,
                instance_id: *instance_id,
                location: *location,
                logging_config: (**logging_config)@,
                epoch: *epoch,
                commands: commands_model(commands@),
            },
            Action::Disconnect { id } => ActionModel::Disconnect { id: *id },
            Action::DropReplica { instance_id, id } => ActionModel::DropReplica {
                instance_id: *instance_id,
                id: *id,
            },
            Action::UpdateStorageReadCapabilities(
                changes,
            ) => ActionModel::UpdateStorageReadCapabilities(batches_counts(changes@)),
            Action::UpdateStorageWriteFrontiers(
                uppers,
            ) => ActionModel::UpdateStorageWriteFrontiers(uppers_model(uppers@)),
        }
    }
}

} // verus!
