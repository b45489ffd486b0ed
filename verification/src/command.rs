//! The commands that an instance sends to its replicas.
use std::collections::{BTreeMap, BTreeSet};
use std::sync::Arc;
use timely::progress::Antichain;
use vstd::prelude::*;

use crate::frontier::{antichain_elements, Frontier};
use crate::ids::{GlobalId, LogVariant, Uuid};

verus! {

/// A tracing context that travels with a peek; `None` is the empty context.
pub type OpenTelemetryContext<P> = Option<Arc<P>>;

/// Calls `Arc::clone`: the new handle refers to the same value.
#[verifier::external_body]
pub(crate) fn share<T>(handle: &Arc<T>) -> (result: Arc<T>)
    ensures
        result == *handle,
{
    handle.clone()
}

/// A second handle to a tracing context.
pub(crate) fn share_context<P>(context: &OpenTelemetryContext<P>) -> (result: OpenTelemetryContext<
    P,
>)
    ensures
        result == *context,
{
    match context {
        Some(context) => Some(share(context)),
        None => None,
    }
}

/// Orders the starts of a replica: by the restarts of the environment, then by its own.
#[derive(Clone, Copy, Debug, PartialEq, Eq, Structural)]
pub struct ComputeStartupEpoch {
    /// A number that increases with each restart of the environment; never zero.
    pub envd: i64,
    /// A number that increases with each restart of the replica.
    pub replica: u64,
}

/// Where a replica runs.
#[derive(Debug)]
pub enum ComputeReplicaLocation<P> {
    /// The orchestrator runs the replica.
    Managed(P),
    /// The replica runs elsewhere.
    Unmanaged(P),
}

/// Which logs a replica maintains.
#[derive(Debug)]
pub struct LoggingConfig<P> {
    /// How logging is set up.
    pub settings: Arc<P>,
    /// The logs that are kept as indexes.
    pub index_logs: BTreeMap<LogVariant, GlobalId>,
    /// The logs that are written to storage collections, and how.
    pub sink_logs: BTreeMap<LogVariant, (GlobalId, Arc<P>)>,
}

/// Which logs a replica maintains.
#[verifier::ext_equal]
pub struct LoggingModel<P> {
    /// How logging is set up.
    pub settings: Arc<P>,
    /// The logs that are kept as indexes.
    pub index_logs: Map<u64, u64>,
    /// The logs that are written to storage collections, and how.
    pub sink_logs: Map<u64, (u64, Arc<P>)>,
}

impl<P> LoggingModel<P> {
    /// The collections that are written to storage.
    pub open spec fn sink_log_ids(self) -> Set<u64> {
        Set::new(
            |id: u64|
                exists|variant: u64| #[trigger]
                    self.sink_logs.contains_key(variant) && self.sink_logs[variant].0 == id,
        )
    }

    /// The collections of all logs.
    pub open spec fn log_identifiers(self) -> Set<u64> {
        Set::new(
            |id: u64|
                self.sink_log_ids().contains(id) || exists|variant: u64| #[trigger]
                    self.index_logs.contains_key(variant) && self.index_logs[variant] == id,
        )
    }
}

impl<P> View for LoggingConfig<P> {
    type V = LoggingModel<P>;

    open spec fn view(&self) -> LoggingModel<P> {
        LoggingModel {
            settings: self.settings,
            index_logs: self.index_logs@,
            sink_logs: self.sink_logs@,
        }
    }
}

/// How a dataflow reads a storage collection.
#[derive(Debug)]
pub struct SourceInstanceDesc<P, S> {
    /// How to reach the collection's data.
    pub storage_metadata: S,
    /// What to apply to the data on the way in.
    pub arguments: P,
    /// The type of the collection's rows.
    pub typ: Arc<P>,
}

/// How a dataflow writes to a storage collection.
#[derive(Debug)]
pub struct PersistSinkConnection<P, S> {
    /// What the rows look like.
    pub value_desc: P,
    /// How to reach the collection's data.
    pub storage_metadata: S,
}

/// Where a sink puts its data.
#[derive(Debug)]
pub enum ComputeSinkConnection<P, S> {
    /// The data goes to a subscribing client.
    Subscribe(P),
    /// The data goes to a storage collection.
    Persist(PersistSinkConnection<P, S>),
}

/// A sink of a dataflow.
#[derive(Debug)]
pub struct ComputeSinkDesc<P, S> {
    /// The collection whose data the sink takes.
    pub from: GlobalId,
    /// What that data looks like.
    pub from_desc: P,
    /// Where the data goes.
    pub connection: ComputeSinkConnection<P, S>,
    /// From which times on.
    pub as_of: P,
}

/// A dataflow. `S` is what is known of the storage collections: `()` until they are looked up.
#[derive(Debug)]
pub struct DataflowDescription<P, S> {
    /// The storage collections that the dataflow reads, and whether each only grows.
    pub source_imports: BTreeMap<GlobalId, (SourceInstanceDesc<P, S>, bool)>,
    /// The indexes that the dataflow reads.
    pub index_imports: BTreeMap<GlobalId, P>,
    /// What the dataflow computes.
    pub objects_to_build: Vec<P>,
    /// The indexes that the dataflow maintains.
    pub index_exports: BTreeMap<GlobalId, P>,
    /// The sinks that the dataflow feeds.
    pub sink_exports: BTreeMap<GlobalId, ComputeSinkDesc<P, S>>,
    /// The times from which on the dataflow computes its outputs.
    pub as_of: Option<Antichain<u64>>,
    /// The times at which the dataflow may stop.
    pub until: Antichain<u64>,
    /// A name for people to read.
    pub debug_name: String,
}

/// A dataflow, with the elements of its frontiers.
#[verifier::ext_equal]
pub struct DataflowModel<P, S> {
    /// The storage collections that the dataflow reads, and whether each only grows.
    pub source_imports: Map<u64, (SourceInstanceDesc<P, S>, bool)>,
    /// The indexes that the dataflow reads.
    pub index_imports: Map<u64, P>,
    /// What the dataflow computes.
    pub objects_to_build: Seq<P>,
    /// The indexes that the dataflow maintains.
    pub index_exports: Map<u64, P>,
    /// The sinks that the dataflow feeds.
    pub sink_exports: Map<u64, ComputeSinkDesc<P, S>>,
    /// The times from which on the dataflow computes its outputs.
    pub as_of: Option<Frontier>,
    /// The times at which the dataflow may stop.
    pub until: Frontier,
    /// A name for people to read.
    pub debug_name: Seq<char>,
}

/// The elements of a frontier that may be absent.
pub open spec fn frontier_option(frontier: Option<Antichain<u64>>) -> Option<Frontier> {
    match frontier {
        Some(frontier) => Some(antichain_elements(frontier)),
        None => None,
    }
}

impl<P, S> View for DataflowDescription<P, S> {
    type V = DataflowModel<P, S>;

    open spec fn view(&self) -> DataflowModel<P, S> {
        DataflowModel {
            source_imports: self.source_imports@,
            index_imports: self.index_imports@,
            objects_to_build: self.objects_to_build@,
            index_exports: self.index_exports@,
            sink_exports: self.sink_exports@,
            as_of: frontier_option(self.as_of),
            until: antichain_elements(self.until),
            debug_name: self.debug_name@,
        }
    }
}

/// A request to read a collection at one time.
#[derive(Debug)]
pub struct Peek<P> {
    /// The collection to read.
    pub id: GlobalId,
    /// The rows to look up, if not all are wanted.
    pub literal_constraints: Option<Vec<P>>,
    /// The name of the request.
    pub uuid: Uuid,
    /// The time to read at.
    pub timestamp: u64,
    /// What to do with the rows at the end.
    pub finishing: P,
    /// What to do with each row.
    pub map_filter_project: P,
    /// The tracing context of the request.
    pub otel_ctx: OpenTelemetryContext<P>,
}

/// A request to read a collection at one time.
#[verifier::ext_equal]
pub struct PeekModel<P> {
    /// The collection to read.
    pub id: u64,
    /// The rows to look up, if not all are wanted.
    pub literal_constraints: Option<Seq<P>>,
    /// The name of the request.
    pub uuid: u128,
    /// The time to read at.
    pub timestamp: u64,
    /// What to do with the rows at the end.
    pub finishing: P,
    /// What to do with each row.
    pub map_filter_project: P,
    /// The tracing context of the request.
    pub otel_ctx: OpenTelemetryContext<P>,
}

/// The rows of a list that may be absent.
pub open spec fn rows_option<P>(rows: Option<Vec<P>>) -> Option<Seq<P>> {
    match rows {
        Some(rows) => Some(rows@),
        None => None,
    }
}

impl<P> View for Peek<P> {
    type V = PeekModel<P>;

    open spec fn view(&self) -> PeekModel<P> {
        PeekModel {
            id: self.id,
            literal_constraints: rows_option(self.literal_constraints),
            uuid: self.uuid,
            timestamp: self.timestamp,
            finishing: self.finishing,
            map_filter_project: self.map_filter_project,
            otel_ctx: self.otel_ctx,
        }
    }
}

/// How an instance is set up on a replica.
#[derive(Debug)]
pub struct InstanceConfig<P> {
    /// The logging to set up; `None` is the default.
    pub logging: Option<Arc<P>>,
    /// The largest result that a peek may return, in bytes.
    pub max_result_size: u32,
}

/// A command to a replica.
#[derive(Debug)]
pub enum ComputeCommand<P> {
    /// Starts the timely runtime.
    CreateTimely {
        /// How the processes of the replica communicate; `None` is the default.
        comm_config: Option<Arc<P>>,
        /// The start that this is.
        epoch: ComputeStartupEpoch,
    },
    /// Sets the instance up.
    CreateInstance(InstanceConfig<P>),
    /// Ends the initialization.
    InitializationComplete,
    /// Changes the largest result that a peek may return.
    UpdateMaxResultSize(u32),
    /// Creates dataflows.
    CreateDataflows(Vec<DataflowDescription<P, Arc<P>>>),
    /// Allows collections to forget the times before a frontier.
    AllowCompaction(Vec<(GlobalId, Antichain<u64>)>),
    /// Reads a collection.
    Peek(Peek<P>),
    /// Gives up reads.
    CancelPeeks {
        /// The reads to give up.
        uuids: BTreeSet<Uuid>,
    },
}

/// A command to a replica, with the elements of its frontiers.
#[verifier::ext_equal]
pub enum CommandModel<P> {
    /// Starts the timely runtime.
    CreateTimely {
        /// How the processes of the replica communicate; `None` is the default.
        comm_config: Option<Arc<P>>,
        /// The start that this is.
        epoch: ComputeStartupEpoch,
    },
    /// Sets the instance up.
    CreateInstance(InstanceConfig<P>),
    /// Ends the initialization.
    InitializationComplete,
    /// Changes the largest result that a peek may return.
    UpdateMaxResultSize(u32),
    /// Creates dataflows.
    CreateDataflows(Seq<DataflowModel<P, Arc<P>>>),
    /// Allows collections to forget the times before a frontier.
    AllowCompaction(Seq<(u64, Frontier)>),
    /// Reads a collection.
    Peek(PeekModel<P>),
    /// Gives up reads.
    CancelPeeks {
        /// The reads to give up.
        uuids: Set<u128>,
    },
}

/// The dataflows of a list.
pub open spec fn dataflows_model<P, S>(dataflows: Seq<DataflowDescription<P, S>>) -> Seq<
    DataflowModel<P, S>,
> {
    dataflows.map_values(|dataflow: DataflowDescription<P, S>| dataflow@)
}

/// The elements of the frontiers of a list.
pub open spec fn uppers_model(uppers: Seq<(u64, Antichain<u64>)>) -> Seq<(u64, Frontier)> {
    uppers.map_values(|upper: (u64, Antichain<u64>)| (upper.0, antichain_elements(upper.1)))
}

impl<P> View for ComputeCommand<P> {
    type V = CommandModel<P>;

    open spec fn view(&self) -> CommandModel<P> {
        match self {
            ComputeCommand::CreateTimely { comm_config, epoch } => CommandModel::CreateTimely {
                comm_config: *comm_config,
                epoch: *epoch,
            },
            ComputeCommand::CreateInstance(config) => CommandModel::CreateInstance(*config),
            ComputeCommand::InitializationComplete => CommandModel::InitializationComplete,
            ComputeCommand::UpdateMaxResultSize(size) => CommandModel::UpdateMaxResultSize(*size),
            ComputeCommand::CreateDataflows(dataflows) => CommandModel::CreateDataflows(
                dataflows_model(dataflows@),
            ),
            ComputeCommand::AllowCompaction(uppers) => CommandModel::AllowCompaction(
                uppers_model(uppers@),
            ),
            ComputeCommand::Peek(peek) => CommandModel::Peek(peek@),
            ComputeCommand::CancelPeeks { uuids } => CommandModel::CancelPeeks { uuids: uuids@ },
        }
    }
}

/// The commands of a list.
pub open spec fn commands_model<P>(commands: Seq<Arc<ComputeCommand<P>>>) -> Seq<
    CommandModel<P>,
> {
    commands.map_values(|command: Arc<ComputeCommand<P>>| (*command)@)
}

} // verus!
