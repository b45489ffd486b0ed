//! What an instance is, and what each request turns it into.
use std::sync::Arc;
use vstd::prelude::*;

use crate::action::ActionModel;
use crate::changes::{add_to, add_to_all, count_at, frontier_counts, is_zero, moved, Counts};
use crate::collection::CollectionModel;
use crate::command::{
    CommandModel, ComputeReplicaLocation, ComputeSinkConnection, ComputeSinkDesc,
    ComputeStartupEpoch, DataflowModel, InstanceConfig, LoggingModel, PeekModel,
    PersistSinkConnection, SourceInstanceDesc,
};
use crate::error::{DataflowCreationError, PeekError};
use crate::frontier::{frontier_le, frontier_lt, reaches, Frontier};
use crate::ids::CollectionMissing;
use crate::ordered::{lemma_picked_increasing, lemma_sorted_ids, sorted_ids};
use crate::pending::PendingPeek;
use crate::policy::{FrontierLogic, PolicyModel};
use crate::propagation::{acyclic, dependencies, ranked, Propagation};
use crate::response::{
    ComputeResponseModel, ControllerResponseModel, PeekResponseModel, SubscribeBatchModel,
    SubscribeResponseModel,
};
use crate::storage::StorageCollectionModel;

verus! {

/// A replica of an instance.
#[verifier::ext_equal]
pub struct ReplicaModel<P> {
    /// Where the replica runs.
    pub location: Arc<ComputeReplicaLocation<P>>,
    /// The logs that the replica maintains.
    pub logging_config: LoggingModel<P>,
    /// The number of starts of the replica, this one counted.
    pub starts: u64,
}

/// The state of an instance.
#[verifier::ext_equal]
pub struct InstanceModel<P, L> {
    /// The identifier of the instance.
    pub instance_id: u64,
    /// The replicas.
    pub replicas: Map<u64, ReplicaModel<P>>,
    /// The collections.
    pub collections: Map<u64, CollectionModel<L>>,
    /// The collections of the logs that are kept as indexes.
    pub arranged_logs: Map<u64, u64>,
    /// The peeks that have not been answered.
    pub peeks: Map<u128, PendingPeek<P>>,
    /// The frontiers of the subscriptions in progress.
    pub subscribes: Map<u64, Frontier>,
    /// The commands that bring a new replica up to date.
    pub history: Seq<CommandModel<P>>,
    /// The replicas that have failed.
    pub failed_replicas: Set<u64>,
    /// The responses that are ready to be delivered.
    pub ready_responses: Seq<ControllerResponseModel<P>>,
    /// A number that increases with each restart of the environment.
    pub envd_epoch: i64,
    /// The number of starts of each replica.
    pub replica_epochs: Map<u64, u64>,
    /// The work that is left to the surroundings.
    pub actions: Seq<ActionModel<P>>,
    /// The magnitudes of all the changes that were ever recorded, added up.
    pub spent: nat,
}

/// The collections that remain when those of `candidates` that can be dropped are.
pub open spec fn without_dropped<L>(
    collections: Map<u64, CollectionModel<L>>,
    candidates: Set<u64>,
) -> Map<u64, CollectionModel<L>> {
    collections.remove_keys(
        Set::new(
            |id: u64|
                candidates.contains(id) && collections.contains_key(id)
                    && collections[id].is_droppable(),
        ),
    )
}

/// The collections that a propagation has visited.
pub open spec fn visited(net: Seq<(u64, Counts)>) -> Set<u64> {
    Set::new(|id: u64| exists|i: int| 0 <= i < net.len() && (#[trigger] net[i]).0 == id)
}

/// The read frontiers of the visited collections whose read frontier moved, in the order of the
/// visits.
pub open spec fn compactions<L>(
    collections: Map<u64, CollectionModel<L>>,
    net: Seq<(u64, Counts)>,
) -> Seq<(u64, Frontier)> {
    net.filter(|visit: (u64, Counts)| !is_zero(visit.1)).map_values(
        |visit: (u64, Counts)| (visit.0, collections[visit.0].read_frontier()),
    )
}

/// The write frontiers of those of the given collections that storage knows.
pub open spec fn reports<L>(
    collections: Map<u64, CollectionModel<L>>,
    ids: Seq<u64>,
    storage_ids: Set<u64>,
) -> Seq<(u64, Frontier)> {
    ids.filter(|id: u64| storage_ids.contains(id)).map_values(
        |id: u64| (id, collections[id].write_frontier),
    )
}

/// What comes of write frontiers that a replica reports.
#[verifier::ext_equal]
pub struct UpperUpdate<L> {
    /// The collections.
    pub collections: Map<u64, CollectionModel<L>>,
    /// The collections whose write frontier advanced.
    pub advanced: Seq<u64>,
    /// The changes to the read capabilities of compute collections.
    pub capabilities: Map<u64, Counts>,
    /// The changes to the read capabilities of storage collections.
    pub storage: Map<u64, Counts>,
    /// The collections that the replica is done with.
    pub finished: Seq<u64>,
    /// The magnitudes of all the changes that were ever recorded, added up.
    pub spent: nat,
}

impl<L: FrontierLogic> UpperUpdate<L> {
    /// Takes one report in.
    pub open spec fn absorb(self, replica: u64, id: u64, upper: Frontier) -> Self {
        let before = self.collections[id];
        let with_upper = before.with_upper(replica, upper);
        let capability = before.read_policy.answer(with_upper.write_frontier);
        let changes = before.downgrade_changes(capability);
        UpperUpdate {
            collections: self.collections.insert(id, with_upper.downgraded(capability)),
            advanced: if frontier_lt(before.write_frontier, upper) {
                self.advanced.push(id)
            } else {
                self.advanced
            },
            capabilities: if is_zero(changes) {
                self.capabilities
            } else {
                self.capabilities.insert(id, changes)
            },
            storage: add_to_all(
                self.storage,
                before.storage_dependencies,
                moved(before.reported(replica), upper),
            ),
            finished: if upper.len() == 0 {
                self.finished.push(id)
            } else {
                self.finished
            },
            spent: self.spent + before.downgrade_cost(capability)
                + before.storage_dependencies.len() * (upper.len() + before.reported(
                replica,
            ).len()),
        }
    }

    /// Takes reports in, one after the other.
    pub open spec fn absorb_all(self, replica: u64, uppers: Seq<(u64, Frontier)>) -> Self
        decreases uppers.len(),
    {
        if uppers.len() == 0 {
            self
        } else {
            self.absorb_all(replica, uppers.drop_last()).absorb(
                replica,
                uppers.last().0,
                uppers.last().1,
            )
        }
    }
}

/// The policies that make collections readable from no time on.
pub open spec fn dropping<L>(ids: Seq<u64>) -> Seq<(u64, PolicyModel<L>)> {
    ids.map_values(|id: u64| (id, PolicyModel::ValidFrom(Seq::empty())))
}

/// What comes of read policies that are assigned.
#[verifier::ext_equal]
pub struct PolicyUpdate<L> {
    /// The collections.
    pub collections: Map<u64, CollectionModel<L>>,
    /// The changes to the read capabilities of the collections.
    pub capabilities: Map<u64, Counts>,
    /// The first collection that does not exist, if there is one; nothing is assigned after it.
    pub missing: Option<u64>,
    /// The magnitudes of all the changes that were ever recorded, added up.
    pub spent: nat,
}

impl<L: FrontierLogic> PolicyUpdate<L> {
    /// Assigns one policy.
    pub open spec fn assign(self, id: u64, policy: PolicyModel<L>) -> Self {
        if self.missing is Some {
            self
        } else if !self.collections.contains_key(id) {
            PolicyUpdate { missing: Some(id), ..self }
        } else {
            let before = self.collections[id];
            let capability = policy.answer(before.write_frontier);
            let changes = before.downgrade_changes(capability);
            PolicyUpdate {
                collections: self.collections.insert(
                    id,
                    CollectionModel { read_policy: policy, ..before.downgraded(capability) },
                ),
                capabilities: if is_zero(changes) {
                    self.capabilities
                } else {
                    add_to(self.capabilities, id, changes)
                },
                missing: None,
                spent: self.spent + before.downgrade_cost(capability),
            }
        }
    }

    /// Assigns policies, one after the other.
    pub open spec fn assign_all(self, policies: Seq<(u64, PolicyModel<L>)>) -> Self
        decreases policies.len(),
    {
        if policies.len() == 0 {
            self
        } else {
            self.assign_all(policies.drop_last()).assign(policies.last().0, policies.last().1)
        }
    }
}

/// Policies for collections that exist are all assigned.
pub proof fn lemma_all_assigned<L: FrontierLogic>(
    start: PolicyUpdate<L>,
    policies: Seq<(u64, PolicyModel<L>)>,
)
    requires
        start.missing is None,
        forall|i: int|
            0 <= i < policies.len() ==> start.collections.contains_key((#[trigger] policies[i]).0),
    ensures
        start.assign_all(policies).missing is None,
        start.assign_all(policies).collections.dom() == start.collections.dom(),
    decreases policies.len(),
{
    if policies.len() > 0 {
        let front = policies.drop_last();
        assert forall|i: int| 0 <= i < front.len() implies start.collections.contains_key(
            (#[trigger] front[i]).0,
        ) by {
            assert(front[i] == policies[i]);
        }
        lemma_all_assigned(start, front);
        let last = policies[policies.len() - 1];
        assert(start.collections.contains_key(last.0));
        assert(start.assign_all(policies).collections.dom() =~= start.collections.dom());
    }
}

/// The changes to storage read capabilities that undo what `replica` holds there for the given
/// collections.
pub open spec fn released<L>(
    collections: Map<u64, CollectionModel<L>>,
    replica: u64,
    ids: Seq<u64>,
) -> Map<u64, Counts>
    decreases ids.len(),
{
    if ids.len() == 0 {
        Map::empty()
    } else {
        let before = released(collections, replica, ids.drop_last());
        let collection = collections[ids.last()];
        if collection.replica_write_frontiers.contains_key(replica) {
            add_to_all(
                before,
                collection.storage_dependencies,
                moved(collection.reported(replica), Seq::empty()),
            )
        } else {
            before
        }
    }
}

/// The magnitudes of these changes, added up.
pub open spec fn release_cost<L>(
    collections: Map<u64, CollectionModel<L>>,
    replica: u64,
    ids: Seq<u64>,
) -> nat
    decreases ids.len(),
{
    if ids.len() == 0 {
        0
    } else {
        let collection = collections[ids.last()];
        release_cost(collections, replica, ids.drop_last())
            + collection.storage_dependencies.len() * collection.reported(replica).len()
    }
}

/// The changes to read capabilities that give up what the given peeks hold.
pub open spec fn given_up<P>(peeks: Map<u128, PendingPeek<P>>, uuids: Seq<u128>) -> Map<u64, Counts>
    decreases uuids.len(),
{
    if uuids.len() == 0 {
        Map::empty()
    } else {
        let before = given_up(peeks, uuids.drop_last());
        let uuid = uuids.last();
        if peeks.contains_key(uuid) {
            add_to(before, peeks[uuid].target, count_at(peeks[uuid].time, -1))
        } else {
            before
        }
    }
}

/// The response to a peek that is given up.
pub open spec fn cancel_response<P>(
    peeks: Map<u128, PendingPeek<P>>,
    uuid: u128,
) -> ControllerResponseModel<P> {
    ControllerResponseModel::PeekResponse(
        uuid,
        PeekResponseModel::Canceled,
        if peeks.contains_key(uuid) {
            peeks[uuid].otel_ctx
        } else {
            None
        },
    )
}

/// The commands without the peeks that are no longer pending.
pub open spec fn retained<P>(
    history: Seq<CommandModel<P>>,
    peeks: Map<u128, PendingPeek<P>>,
) -> Seq<CommandModel<P>> {
    history.filter(|command: CommandModel<P>| is_wanted(command, peeks))
}

/// Whether a command is not a peek, or a peek that is still pending.
pub open spec fn is_wanted<P>(
    command: CommandModel<P>,
    peeks: Map<u128, PendingPeek<P>>,
) -> bool {
    command matches CommandModel::Peek(peek) ==> peeks.contains_key(peek.uuid)
}

/// The collections after those with the given identifiers were set to `collection`.
pub open spec fn with_each<L>(
    collections: Map<u64, CollectionModel<L>>,
    ids: Set<u64>,
    collection: CollectionModel<L>,
) -> Map<u64, CollectionModel<L>> {
    Map::new(
        |id: u64| collections.contains_key(id) || ids.contains(id),
        |id: u64|
            if ids.contains(id) {
                collection
            } else {
                collections[id]
            },
    )
}

/// Collections that depend on nothing bring no cycle about.
pub proof fn lemma_acyclic_with_logs<L>(
    collections: Map<u64, CollectionModel<L>>,
    ids: Set<u64>,
    log: CollectionModel<L>,
)
    requires
        acyclic(dependencies(collections)),
        log.compute_dependencies.len() == 0,
    ensures
        acyclic(dependencies(with_each(collections, ids, log))),
{
    let rank = choose|rank: spec_fn(u64) -> nat| ranked(dependencies(collections), rank);
    let after = dependencies(with_each(collections, ids, log));
    assert(ranked(after, rank)) by {
        assert forall|id: u64, i: int|
            after.contains_key(id) && 0 <= i < after[id].len() implies rank(
            #[trigger] after[id][i],
        ) < rank(id) by {
            assert(dependencies(collections)[id][i] == after[id][i]);
        }
    }
}

/// `counts` for each of the identifiers.
pub open spec fn same_for_all(ids: Set<u64>, counts: Counts) -> Map<u64, Counts> {
    Map::new(|id: u64| ids.contains(id), |id: u64| counts)
}

/// `times` as many counts.
pub open spec fn scaled(counts: Counts, times: nat) -> Counts {
    |time: u64| times * counts(time)
}

/// Whether no collection is reported on twice.
pub open spec fn distinct(uppers: Seq<(u64, Frontier)>) -> bool {
    forall|i: int, j: int|
        0 <= i < j < uppers.len() ==> (#[trigger] uppers[i]).0 != (#[trigger] uppers[j]).0
}

impl<P, S> DataflowModel<P, S> {
    /// The collections that the dataflow maintains: indexes, then sinks.
    pub open spec fn export_ids(self) -> Seq<u64> {
        sorted_ids(self.index_exports.dom()) + sorted_ids(self.sink_exports.dom())
    }

    /// The number of outputs of the dataflow.
    pub open spec fn outputs(self) -> nat {
        self.sink_exports.dom().len() + self.index_exports.dom().len()
    }

    /// The sinks whose data goes to a subscribing client.
    pub open spec fn subscribe_ids(self) -> Set<u64> {
        Set::new(
            |id: u64|
                self.sink_exports.contains_key(id) && (
                self.sink_exports[id].connection is Subscribe),
        )
    }

    /// The read capabilities that the outputs hold on each collection that the dataflow reads.
    pub open spec fn hold(self) -> Counts {
        scaled(frontier_counts(self.as_of->0), self.outputs())
    }
}

/// The first error among those of the given identifiers.
pub open spec fn first_error<E>(ids: Seq<u64>, error: spec_fn(u64) -> Option<E>) -> Option<E>
    decreases ids.len(),
{
    if ids.len() == 0 {
        None
    } else {
        match first_error(ids.drop_last(), error) {
            Some(found) => Some(found),
            None => error(ids.last()),
        }
    }
}

/// Where there is no first error, there is none at all.
pub proof fn lemma_no_first_error<E>(ids: Seq<u64>, error: spec_fn(u64) -> Option<E>)
    requires
        first_error(ids, error) is None,
    ensures
        forall|i: int| 0 <= i < ids.len() ==> error(#[trigger] ids[i]) is None,
    decreases ids.len(),
{
    if ids.len() > 0 {
        lemma_no_first_error(ids.drop_last(), error);
        assert forall|i: int| 0 <= i < ids.len() implies error(#[trigger] ids[i]) is None by {
            if i < ids.len() - 1 {
                assert(ids.drop_last()[i] == ids[i]);
            }
        }
    }
}

/// Why a dataflow cannot read the storage collection `id` from `as_of` on, if it cannot.
pub open spec fn source_error<P>(
    storage: Map<u64, StorageCollectionModel<P>>,
    as_of: Frontier,
) -> spec_fn(u64) -> Option<DataflowCreationError> {
    |id: u64|
        if !storage.contains_key(id) {
            Some(DataflowCreationError::CollectionMissing(id))
        } else if !frontier_le(storage[id].read_frontier, as_of) {
            Some(DataflowCreationError::SinceViolation(id))
        } else {
            None
        }
}

/// Why a dataflow cannot read the index `id` from `as_of` on, if it cannot.
pub open spec fn index_error<L>(
    collections: Map<u64, CollectionModel<L>>,
    as_of: Frontier,
) -> spec_fn(u64) -> Option<DataflowCreationError> {
    |id: u64|
        if !collections.contains_key(id) {
            Some(DataflowCreationError::CollectionMissing(id))
        } else if !frontier_le(collections[id].read_frontier(), as_of) {
            Some(DataflowCreationError::SinceViolation(id))
        } else {
            None
        }
}

/// A source with what storage knows of it.
pub open spec fn looked_up_source<P>(
    source: SourceInstanceDesc<P, ()>,
    state: StorageCollectionModel<P>,
) -> SourceInstanceDesc<P, Arc<P>> {
    SourceInstanceDesc {
        storage_metadata: state.collection_metadata,
        arguments: source.arguments,
        typ: state.typ,
    }
}

/// A sink with what storage knows of it.
pub open spec fn looked_up_sink<P>(
    sink: ComputeSinkDesc<P, ()>,
    state: StorageCollectionModel<P>,
) -> ComputeSinkDesc<P, Arc<P>> {
    ComputeSinkDesc {
        from: sink.from,
        from_desc: sink.from_desc,
        connection: match sink.connection {
            ComputeSinkConnection::Subscribe(connection) => ComputeSinkConnection::Subscribe(
                connection,
            ),
            ComputeSinkConnection::Persist(connection) => ComputeSinkConnection::Persist(
                PersistSinkConnection {
                    value_desc: connection.value_desc,
                    storage_metadata: state.collection_metadata,
                },
            ),
        },
        as_of: sink.as_of,
    }
}

/// Why a storage collection cannot be looked up, if it cannot.
pub open spec fn missing_source<P>(
    storage: Map<u64, StorageCollectionModel<P>>,
) -> spec_fn(u64) -> Option<DataflowCreationError> {
    |id: u64|
        if !storage.contains_key(id) {
            Some(DataflowCreationError::CollectionMissing(id))
        } else {
            None
        }
}

/// Why the storage collection of a sink cannot be looked up, if it cannot.
pub open spec fn missing_sink<P>(
    storage: Map<u64, StorageCollectionModel<P>>,
    sinks: Map<u64, ComputeSinkDesc<P, ()>>,
) -> spec_fn(u64) -> Option<DataflowCreationError> {
    |id: u64|
        if sinks[id].connection is Persist && !storage.contains_key(id) {
            Some(DataflowCreationError::CollectionMissing(id))
        } else {
            None
        }
}

impl<P> DataflowModel<P, ()> {
    /// The first storage collection that the dataflow reads or writes and that does not exist:
    /// sources, then sinks.
    pub open spec fn lookup_error(
        self,
        storage: Map<u64, StorageCollectionModel<P>>,
    ) -> Option<DataflowCreationError> {
        match first_error(sorted_ids(self.source_imports.dom()), missing_source(storage)) {
            Some(error) => Some(error),
            None => first_error(
                sorted_ids(self.sink_exports.dom()),
                missing_sink(storage, self.sink_exports),
            ),
        }
    }

    /// The dataflow with what storage knows of the collections that it reads and writes.
    pub open spec fn looked_up(
        self,
        storage: Map<u64, StorageCollectionModel<P>>,
    ) -> DataflowModel<P, Arc<P>> {
        DataflowModel {
            source_imports: self.source_imports.map_entries(
                |id: u64, source: (SourceInstanceDesc<P, ()>, bool)|
                    (looked_up_source(source.0, storage[id]), source.1),
            ),
            index_imports: self.index_imports,
            objects_to_build: self.objects_to_build,
            index_exports: self.index_exports,
            sink_exports: self.sink_exports.map_entries(
                |id: u64, sink: ComputeSinkDesc<P, ()>| looked_up_sink(sink, storage[id]),
            ),
            as_of: self.as_of,
            until: self.until,
            debug_name: self.debug_name,
        }
    }
}

/// The first error among those of the given dataflows.
pub open spec fn lookup_errors<P>(
    dataflows: Seq<DataflowModel<P, ()>>,
    storage: Map<u64, StorageCollectionModel<P>>,
) -> Option<DataflowCreationError>
    decreases dataflows.len(),
{
    if dataflows.len() == 0 {
        None
    } else {
        match lookup_errors(dataflows.drop_last(), storage) {
            Some(error) => Some(error),
            None => dataflows.last().lookup_error(storage),
        }
    }
}

impl<P, L: FrontierLogic> InstanceModel<P, L> {
    /// An instance that keeps the given logs as indexes.
    pub open spec fn created(
        instance_id: u64,
        arranged_logs: Map<u64, u64>,
        max_result_size: u32,
        envd_epoch: i64,
    ) -> Self {
        InstanceModel {
            instance_id,
            replicas: Map::empty(),
            collections: Map::new(
                |id: u64|
                    exists|variant: u64| #[trigger]
                        arranged_logs.contains_key(variant) && arranged_logs[variant] == id,
                |id: u64| CollectionModel::created_log(),
            ),
            arranged_logs,
            peeks: Map::empty(),
            subscribes: Map::empty(),
            history: Seq::empty(),
            failed_replicas: Set::empty(),
            ready_responses: Seq::empty(),
            envd_epoch,
            replica_epochs: Map::empty(),
            actions: Seq::empty(),
            spent: arranged_logs.dom().len(),
        }.send(
            CommandModel::CreateTimely {
                comm_config: None,
                epoch: ComputeStartupEpoch { envd: envd_epoch, replica: 0 },
            },
        ).send(CommandModel::CreateInstance(InstanceConfig { logging: None, max_result_size }))
    }

    /// Leaves a piece of work to the surroundings.
    pub open spec fn ask(self, action: ActionModel<P>) -> Self {
        InstanceModel { actions: self.actions.push(action), ..self }
    }

    /// Records a command, and has it sent to the replicas.
    pub open spec fn send(self, command: CommandModel<P>) -> Self {
        InstanceModel { history: self.history.push(command), ..self }.ask(
            ActionModel::Send {
                command,
                replicas: self.replicas.map_values(|replica: ReplicaModel<P>| replica.starts),
            },
        )
    }

    /// Notes that a replica has to be started again.
    pub open spec fn with_failed(self, replica: u64) -> Self {
        InstanceModel { failed_replicas: self.failed_replicas.insert(replica), ..self }
    }

    /// Notes that a command could not be sent to a replica, unless that was an earlier start of
    /// it.
    pub open spec fn send_failed(self, replica: u64, starts: u64) -> Self {
        if self.replicas.contains_key(replica) && self.replicas[replica].starts == starts {
            self.with_failed(replica)
        } else {
            self
        }
    }

    /// Delivers the response that has been ready for longest.
    pub open spec fn next_response(self) -> (Self, Option<ControllerResponseModel<P>>) {
        if self.ready_responses.len() > 0 {
            (
                InstanceModel { ready_responses: self.ready_responses.drop_first(), ..self },
                Some(self.ready_responses[0]),
            )
        } else {
            (self, None)
        }
    }

    /// Changes on their way through the collections of the instance.
    pub open spec fn propagation(self, updates: Map<u64, Counts>) -> Propagation<L> {
        Propagation {
            collections: self.collections,
            pending: updates,
            storage: Map::empty(),
            net: Seq::empty(),
            spent: self.spent,
        }
    }

    /// Applies changes to read capabilities and what follows from them: the collections whose
    /// read frontier moved may forget the times before it, those that nobody reads or writes any
    /// more are dropped, and storage is told of the changes that concern it.
    pub open spec fn update_read_capabilities(
        self,
        storage_ids: Set<u64>,
        updates: Map<u64, Counts>,
    ) -> Self {
        let end = self.propagation(updates).settled(storage_ids);
        let applied = InstanceModel { collections: end.collections, spent: end.spent, ..self };
        let compactions = compactions(end.collections, end.net);
        let compacted = if compactions.len() == 0 {
            applied
        } else {
            applied.send(CommandModel::AllowCompaction(compactions))
        };
        let cleaned = InstanceModel {
            collections: without_dropped(end.collections, visited(end.net)),
            ..compacted
        };
        if end.storage.is_empty() {
            cleaned
        } else {
            cleaned.ask(ActionModel::UpdateStorageReadCapabilities(end.storage))
        }
    }

    /// What comes of write frontiers that `replica` reports, before any of it is passed on.
    pub open spec fn absorbed(self, replica: u64, uppers: Seq<(u64, Frontier)>) -> UpperUpdate<L> {
        UpperUpdate {
            collections: self.collections,
            advanced: Seq::empty(),
            capabilities: Map::empty(),
            storage: Map::empty(),
            finished: Seq::empty(),
            spent: self.spent,
        }.absorb_all(replica, uppers)
    }

    /// The state when the write frontiers that `replica` reports were taken in, and the changes
    /// to read capabilities that follow were applied.
    pub open spec fn with_uppers(
        self,
        storage_ids: Set<u64>,
        replica: u64,
        uppers: Seq<(u64, Frontier)>,
    ) -> Self {
        let update = self.absorbed(replica, uppers);
        InstanceModel { collections: update.collections, spent: update.spent, ..self }
            .update_read_capabilities(storage_ids, update.capabilities)
    }

    /// Whether the instance tracks all collections that the write frontiers are for.
    pub open spec fn tracks(self, uppers: Seq<(u64, Frontier)>) -> bool {
        forall|i: int|
            0 <= i < uppers.len() ==> self.collections.contains_key((#[trigger] uppers[i]).0)
    }

    /// Takes write frontiers in that `replica` reports.
    pub open spec fn update_write_frontiers(
        self,
        storage_ids: Set<u64>,
        replica: u64,
        uppers: Seq<(u64, Frontier)>,
    ) -> Self {
        let update = self.absorbed(replica, uppers);
        let applied = self.with_uppers(storage_ids, replica, uppers);
        let held = if update.storage.is_empty() {
            applied
        } else {
            applied.ask(ActionModel::UpdateStorageReadCapabilities(update.storage))
        };
        let told = held.ask(
            ActionModel::UpdateStorageWriteFrontiers(
                reports(update.collections, update.advanced, storage_ids),
            ),
        );
        InstanceModel {
            collections: without_dropped(told.collections, update.finished.to_set()),
            ..told
        }
    }

    /// Forgets what `replica` has reported.
    pub open spec fn remove_write_frontiers(self, replica: u64) -> Self {
        let ids = sorted_ids(self.collections.dom());
        let storage = released(self.collections, replica, ids);
        let forgotten = InstanceModel {
            collections: self.collections.map_values(
                |collection: CollectionModel<L>| collection.without_replica(replica),
            ),
            spent: self.spent + release_cost(self.collections, replica, ids),
            ..self
        };
        let told = if storage.is_empty() {
            forgotten
        } else {
            forgotten.ask(ActionModel::UpdateStorageReadCapabilities(storage))
        };
        let left = Set::new(
            |id: u64|
                self.collections.contains_key(id)
                    && self.collections[id].replica_write_frontiers.contains_key(replica),
        );
        InstanceModel { collections: without_dropped(told.collections, left), ..told }
    }

    /// Forgets peeks, and gives up what they hold.
    pub open spec fn remove_peeks(self, storage_ids: Set<u64>, uuids: Set<u128>) -> Self {
        InstanceModel {
            peeks: self.peeks.remove_keys(uuids),
            spent: self.spent + uuids.len(),
            ..self
        }.update_read_capabilities(storage_ids, given_up(self.peeks, sorted_ids(uuids)))
    }

    /// Why a peek is refused, if it is.
    pub open spec fn peek_error(self, id: u64, timestamp: u64) -> Option<PeekError> {
        if !self.collections.contains_key(id) {
            Some(PeekError::CollectionMissing(id))
        } else if !reaches(self.collections[id].read_frontier(), timestamp) {
            Some(PeekError::SinceViolation(id))
        } else {
            None
        }
    }

    /// Starts a peek that is not refused.
    pub open spec fn peek(
        self,
        storage_ids: Set<u64>,
        peek: PeekModel<P>,
        target_replica: Option<u64>,
    ) -> Self {
        let held = InstanceModel { spent: self.spent + 1, ..self }.update_read_capabilities(
            storage_ids,
            Map::<u64, Counts>::empty().insert(peek.id, count_at(peek.timestamp, 1)),
        );
        InstanceModel {
            peeks: held.peeks.insert(
                peek.uuid,
                PendingPeek {
                    target: peek.id,
                    time: peek.timestamp,
                    target_replica,
                    otel_ctx: peek.otel_ctx,
                },
            ),
            ..held
        }.send(CommandModel::Peek(peek))
    }

    /// Gives up peeks.
    pub open spec fn cancel_peeks(self, storage_ids: Set<u64>, uuids: Set<u128>) -> Self {
        InstanceModel {
            ready_responses: self.ready_responses + sorted_ids(uuids).map_values(
                |uuid: u128| cancel_response(self.peeks, uuid),
            ),
            ..self
        }.remove_peeks(storage_ids, uuids).send(CommandModel::CancelPeeks { uuids })
    }

    /// What comes of read policies that are assigned, before any of it is passed on.
    pub open spec fn assigned(self, policies: Seq<(u64, PolicyModel<L>)>) -> PolicyUpdate<L> {
        PolicyUpdate {
            collections: self.collections,
            capabilities: Map::empty(),
            missing: None,
            spent: self.spent,
        }.assign_all(policies)
    }

    /// Assigns read policies; if a collection does not exist, those before it in the list are
    /// assigned without any consequence.
    pub open spec fn set_read_policy(
        self,
        storage_ids: Set<u64>,
        policies: Seq<(u64, PolicyModel<L>)>,
    ) -> Self {
        let update = self.assigned(policies);
        let assigned = InstanceModel {
            collections: update.collections,
            spent: update.spent,
            ..self
        };
        if update.missing is Some {
            assigned
        } else {
            assigned.update_read_capabilities(storage_ids, update.capabilities)
        }
    }

    /// Gives the read capabilities of collections up, all of which exist.
    pub open spec fn drop_collections(self, storage_ids: Set<u64>, ids: Seq<u64>) -> Self {
        self.set_read_policy(storage_ids, dropping(ids))
    }

    /// The first of the given collections that does not exist.
    pub open spec fn first_missing(self, ids: Seq<u64>) -> Option<CollectionMissing> {
        first_error(
            ids,
            |id: u64|
                if self.collections.contains_key(id) {
                    None
                } else {
                    Some(CollectionMissing(id))
                },
        )
    }

    /// Why a dataflow cannot be created, if it cannot.
    pub open spec fn import_error(
        self,
        storage: Map<u64, StorageCollectionModel<P>>,
        dataflow: DataflowModel<P, ()>,
    ) -> Option<DataflowCreationError> {
        match dataflow.as_of {
            None => Some(DataflowCreationError::MissingAsOf),
            Some(as_of) => match first_error(
                sorted_ids(dataflow.source_imports.dom()),
                source_error(storage, as_of),
            ) {
                Some(error) => Some(error),
                None => first_error(
                    sorted_ids(dataflow.index_imports.dom()),
                    index_error(self.collections, as_of),
                ),
            },
        }
    }

    /// The state when storage was asked to hold what a dataflow needs there.
    pub open spec fn with_sources_held(self, dataflow: DataflowModel<P, ()>) -> Self {
        let as_of = dataflow.as_of->0;
        InstanceModel {
            spent: self.spent + dataflow.outputs() * as_of.len() * (1 + sorted_ids(
                dataflow.source_imports.dom(),
            ).len() + sorted_ids(dataflow.index_imports.dom()).len()),
            ..self
        }.ask(
            ActionModel::UpdateStorageReadCapabilities(
                same_for_all(dataflow.source_imports.dom(), dataflow.hold()),
            ),
        )
    }

    /// The state when the read capabilities that a dataflow needs are held, and its outputs are
    /// tracked.
    pub open spec fn with_exports(
        self,
        storage_ids: Set<u64>,
        dataflow: DataflowModel<P, ()>,
    ) -> Self {
        let as_of = dataflow.as_of->0;
        let sources = sorted_ids(dataflow.source_imports.dom());
        let indexes = sorted_ids(dataflow.index_imports.dom());
        let exports = dataflow.export_ids();
        let held = self.with_sources_held(dataflow).update_read_capabilities(
            storage_ids,
            same_for_all(dataflow.index_imports.dom(), dataflow.hold()),
        );
        InstanceModel {
            collections: with_each(
                held.collections,
                exports.to_set(),
                CollectionModel::created(as_of, sources, indexes),
            ),
            spent: held.spent + exports.len() * as_of.len(),
            ..held
        }
    }

    /// Takes the same write frontiers in for each of the replicas.
    pub open spec fn update_on_replicas(
        self,
        storage_ids: Set<u64>,
        replicas: Seq<u64>,
        uppers: Seq<(u64, Frontier)>,
    ) -> Self
        decreases replicas.len(),
    {
        if replicas.len() == 0 {
            self
        } else {
            self.update_on_replicas(
                storage_ids,
                replicas.drop_last(),
                uppers,
            ).update_write_frontiers(storage_ids, replicas.last(), uppers)
        }
    }

    /// Tracks a dataflow that can be created.
    pub open spec fn install(self, storage_ids: Set<u64>, dataflow: DataflowModel<P, ()>) -> Self {
        let as_of = dataflow.as_of->0;
        let exported = self.with_exports(storage_ids, dataflow);
        let started = exported.update_on_replicas(
            storage_ids,
            sorted_ids(exported.replicas.dom()),
            dataflow.export_ids().map_values(|id: u64| (id, as_of)),
        );
        InstanceModel {
            subscribes: Map::new(
                |id: u64|
                    started.subscribes.contains_key(id) || dataflow.subscribe_ids().contains(id),
                |id: u64|
                    if dataflow.subscribe_ids().contains(id) {
                        seq![0u64]
                    } else {
                        started.subscribes[id]
                    },
            ),
            ..started
        }
    }

    /// Whether a dataflow can be tracked: its outputs can be counted in 64 bits, no collection
    /// comes to depend on itself, and where there is no time at which the outputs are of use, not
    /// more than one replica has to report that it is done with them.
    pub open spec fn takes_dataflow(
        self,
        storage_ids: Set<u64>,
        dataflow: DataflowModel<P, ()>,
    ) -> bool {
        &&& dataflow.outputs() <= i64::MAX
        &&& acyclic(dependencies(self.with_exports(storage_ids, dataflow).collections))
        &&& dataflow.as_of->0.len() > 0 || dataflow.export_ids().len() == 0
            || self.replicas.dom().len() <= 1
    }

    /// Whether those of the dataflows that can be created can be tracked, where `storage[i]` is
    /// what storage knows when the turn of `dataflows[i]` comes.
    pub open spec fn takes_dataflows(
        self,
        storage: Seq<Map<u64, StorageCollectionModel<P>>>,
        dataflows: Seq<DataflowModel<P, ()>>,
    ) -> bool
        decreases dataflows.len(),
    {
        dataflows.len() > 0 ==> {
            let (before, error) = self.install_all(storage, dataflows.drop_last());
            let known = storage[dataflows.len() - 1];
            &&& self.takes_dataflows(storage, dataflows.drop_last())
            &&& error is None && before.import_error(known, dataflows.last()) is None
                ==> before.takes_dataflow(known.dom(), dataflows.last())
        }
    }

    /// Tracks dataflows until one cannot be created, where `storage[i]` is what storage knows
    /// when the turn of `dataflows[i]` comes.
    pub open spec fn install_all(
        self,
        storage: Seq<Map<u64, StorageCollectionModel<P>>>,
        dataflows: Seq<DataflowModel<P, ()>>,
    ) -> (Self, Option<DataflowCreationError>)
        decreases dataflows.len(),
    {
        if dataflows.len() == 0 {
            (self, None)
        } else {
            let (before, error) = self.install_all(storage, dataflows.drop_last());
            let known = storage[dataflows.len() - 1];
            if error is Some {
                (before, error)
            } else {
                match before.import_error(known, dataflows.last()) {
                    Some(error) => (before, Some(error)),
                    None => (before.install(known.dom(), dataflows.last()), None),
                }
            }
        }
    }

    /// Has the replicas create dataflows, unless storage does not know a collection that one of
    /// them reads or writes.
    pub open spec fn send_dataflows(
        self,
        storage: Map<u64, StorageCollectionModel<P>>,
        dataflows: Seq<DataflowModel<P, ()>>,
    ) -> (Self, Result<(), DataflowCreationError>) {
        match lookup_errors(dataflows, storage) {
            Some(error) => (self, Err(error)),
            None => (
                self.send(
                    CommandModel::CreateDataflows(
                        dataflows.map_values(
                            |dataflow: DataflowModel<P, ()>| dataflow.looked_up(storage),
                        ),
                    ),
                ),
                Ok(()),
            ),
        }
    }

    /// Creates dataflows, and has the replicas create them, where `storage[i]` is what storage
    /// knows when the turn of `dataflows[i]` comes, and the entry after these what it knows when
    /// all are tracked.
    pub open spec fn create_dataflows(
        self,
        storage: Seq<Map<u64, StorageCollectionModel<P>>>,
        dataflows: Seq<DataflowModel<P, ()>>,
    ) -> (Self, Result<(), DataflowCreationError>) {
        let (installed, error) = self.install_all(storage, dataflows);
        match error {
            Some(error) => (installed, Err(error)),
            None => installed.send_dataflows(storage[dataflows.len() as int], dataflows),
        }
    }

    /// The number of times that `replica` was started.
    pub open spec fn starts(self, replica: u64) -> u64 {
        if self.replica_epochs.contains_key(replica) {
            self.replica_epochs[replica]
        } else {
            0
        }
    }

    /// The state when the logs that a replica writes to storage are tracked.
    pub open spec fn with_logs(self, logging_config: LoggingModel<P>) -> Self {
        InstanceModel {
            collections: with_each(
                self.collections,
                logging_config.sink_log_ids(),
                CollectionModel::created_log(),
            ),
            spent: self.spent + logging_config.sink_logs.dom().len(),
            ..self
        }
    }

    /// The logging of a replica: the instance's own logs are kept as indexes.
    pub open spec fn complete_logging(self, logging_config: LoggingModel<P>) -> LoggingModel<P> {
        LoggingModel { index_logs: self.arranged_logs, ..logging_config }
    }

    /// The collections that a replica with this logging maintains, each with its read frontier.
    pub open spec fn initial_uppers(self, logging_config: LoggingModel<P>) -> Seq<
        (u64, Frontier),
    > {
        sorted_ids(self.collections.dom()).filter(
            |id: u64|
                !self.collections[id].log_collection || logging_config.log_identifiers().contains(
                    id,
                ),
        ).map_values(|id: u64| (id, self.collections[id].read_frontier()))
    }

    /// Whether the number of starts of a replica can still be counted after one more.
    pub open spec fn can_start(self, replica: u64) -> bool {
        self.starts(replica) < u64::MAX
    }

    /// Adds a replica that does not exist.
    pub open spec fn add_replica(
        self,
        storage_ids: Set<u64>,
        id: u64,
        location: Arc<ComputeReplicaLocation<P>>,
        logging_config: LoggingModel<P>,
    ) -> Self {
        let logged = self.with_logs(logging_config);
        let logging_config = logged.complete_logging(logging_config);
        let joined = logged.update_write_frontiers(
            storage_ids,
            id,
            logged.initial_uppers(logging_config),
        );
        let starts = (joined.starts(id) + 1) as u64;
        let history = retained(joined.history, joined.peeks);
        InstanceModel {
            replicas: joined.replicas.insert(id, ReplicaModel { location, logging_config, starts }),
            replica_epochs: joined.replica_epochs.insert(id, starts),
            history,
            ..joined
        }.ask(
            ActionModel::SpawnReplica {
                id,
                instance_id: joined.instance_id,
                location,
                logging_config,
                epoch: ComputeStartupEpoch { envd: joined.envd_epoch, replica: starts },
                commands: history,
            },
        )
    }

    /// Removes all that is tracked of a replica.
    pub open spec fn remove_replica_state(self, id: u64) -> Self {
        let forgotten = self.remove_write_frontiers(id);
        InstanceModel {
            replicas: forgotten.replicas.remove(id),
            failed_replicas: forgotten.failed_replicas.remove(id),
            ..forgotten
        }.ask(ActionModel::Disconnect { id })
    }

    /// The peeks that only `replica` may answer.
    pub open spec fn peeks_targeting(self, replica: u64) -> Set<u128> {
        Set::new(
            |uuid: u128|
                self.peeks.contains_key(uuid) && self.peeks[uuid].target_replica == Some(replica),
        )
    }

    /// The state when the orchestrator was asked to remove a replica, and the peeks that only it
    /// could have answered were answered with an error.
    pub open spec fn give_replica_up(self, id: u64) -> Self {
        let dropped = if *self.replicas[id].location is Managed {
            self.ask(ActionModel::DropReplica { instance_id: self.instance_id, id })
        } else {
            self
        };
        InstanceModel {
            ready_responses: dropped.ready_responses + sorted_ids(
                self.peeks_targeting(id),
            ).map_values(
                |uuid: u128|
                    ControllerResponseModel::PeekResponse(
                        uuid,
                        PeekResponseModel::Error("target replica was dropped"@),
                        self.peeks[uuid].otel_ctx,
                    ),
            ),
            ..dropped
        }
    }

    /// Removes a replica for good.
    pub open spec fn remove_replica(self, storage_ids: Set<u64>, id: u64) -> Self {
        self.give_replica_up(id).remove_peeks(
            storage_ids,
            self.peeks_targeting(id),
        ).remove_replica_state(id)
    }

    /// Starts a replica again.
    pub open spec fn rehydrate_replica(self, storage_ids: Set<u64>, id: u64) -> Self {
        self.remove_replica_state(id).add_replica(
            storage_ids,
            id,
            self.replicas[id].location,
            self.replicas[id].logging_config,
        )
    }

    /// Starts replicas again, one after the other.
    pub open spec fn rehydrate_replicas(self, storage_ids: Set<u64>, ids: Seq<u64>) -> Self
        decreases ids.len(),
    {
        if ids.len() == 0 {
            self
        } else {
            self.rehydrate_replicas(storage_ids, ids.drop_last()).rehydrate_replica(
                storage_ids,
                ids.last(),
            )
        }
    }

    /// The write frontiers of collections that are tracked.
    pub open spec fn tracked_uppers(self, uppers: Seq<(u64, Frontier)>) -> Seq<(u64, Frontier)> {
        uppers.filter(|upper: (u64, Frontier)| self.collections.contains_key(upper.0))
    }

    /// Whether the answer of `replica` to a peek is passed on.
    pub open spec fn awaits_peek(self, uuid: u128, replica: u64) -> bool {
        &&& self.peeks.contains_key(uuid)
        &&& self.peeks[uuid].target_replica matches Some(target) ==> target == replica
    }

    /// The frontier that a subscription has reached, empty if it is not in progress.
    pub open spec fn subscribe_frontier(self, id: u64) -> Frontier {
        if self.subscribes.contains_key(id) {
            self.subscribes[id]
        } else {
            Seq::empty()
        }
    }

    /// The state when a subscription has reached `frontier`; it ends where that is empty.
    pub open spec fn with_subscribe(self, id: u64, frontier: Frontier) -> Self {
        InstanceModel {
            subscribes: if frontier.len() == 0 {
                self.subscribes.remove(id)
            } else {
                self.subscribes.insert(id, frontier)
            },
            ..self
        }
    }

    /// The state before the write frontier that comes with the answer to a subscription is taken
    /// in, that write frontier, and what is passed on.
    pub open spec fn subscribe_response(
        self,
        id: u64,
        response: SubscribeResponseModel<P>,
    ) -> (Self, Frontier, Option<ControllerResponseModel<P>>) {
        let reached = self.subscribe_frontier(id);
        match response {
            SubscribeResponseModel::Batch(batch) => if frontier_lt(reached, batch.upper) {
                (
                    self.with_subscribe(id, batch.upper),
                    batch.upper,
                    Some(
                        ControllerResponseModel::SubscribeResponse(
                            id,
                            SubscribeResponseModel::Batch(
                                SubscribeBatchModel {
                                    lower: reached,
                                    upper: batch.upper,
                                    updates: match batch.updates {
                                        Ok(updates) => Ok(
                                            updates.filter(
                                                |update: (u64, P, i64)| reaches(reached, update.0),
                                            ),
                                        ),
                                        Err(text) => Err(text),
                                    },
                                },
                            ),
                        ),
                    ),
                )
            } else {
                (self.with_subscribe(id, reached), batch.upper, None)
            },
            SubscribeResponseModel::DroppedAt(_) => (
                self.with_subscribe(id, Seq::empty()),
                Seq::empty(),
                if self.subscribes.contains_key(id) {
                    Some(
                        ControllerResponseModel::SubscribeResponse(
                            id,
                            SubscribeResponseModel::DroppedAt(reached),
                        ),
                    )
                } else {
                    None
                },
            ),
        }
    }

    /// Whether the instance tracks the collection that a response is about, where it has to.
    pub open spec fn tracks_response(self, response: ComputeResponseModel<P>) -> bool {
        response matches ComputeResponseModel::SubscribeResponse(id, _)
            ==> self.collections.contains_key(id)
    }

    /// The state after a response of `replica`, and what is passed on.
    pub open spec fn handle_response(
        self,
        storage_ids: Set<u64>,
        response: ComputeResponseModel<P>,
        replica: u64,
    ) -> (Self, Option<ControllerResponseModel<P>>) {
        match response {
            ComputeResponseModel::FrontierUppers(uppers) => (
                self.update_write_frontiers(storage_ids, replica, self.tracked_uppers(uppers)),
                None,
            ),
            ComputeResponseModel::PeekResponse(uuid, response, context) => if self.awaits_peek(
                uuid,
                replica,
            ) {
                (
                    self.remove_peeks(storage_ids, Set::empty().insert(uuid)),
                    Some(ControllerResponseModel::PeekResponse(uuid, response, context)),
                )
            } else {
                (self, None)
            },
            ComputeResponseModel::SubscribeResponse(id, response) => {
                let (after, upper, answer) = self.subscribe_response(id, response);
                (after.update_write_frontiers(storage_ids, replica, seq![(id, upper)]), answer)
            },
        }
    }
}

/// A replica starts with one write frontier for each collection that it maintains, all of which
/// are tracked.
pub proof fn lemma_initial_uppers<P, L: FrontierLogic>(
    state: InstanceModel<P, L>,
    logging_config: LoggingModel<P>,
)
    requires
        state.collections.dom().finite(),
    ensures
        distinct(state.initial_uppers(logging_config)),
        state.tracks(state.initial_uppers(logging_config)),
{
    let uppers = state.initial_uppers(logging_config);
    let all = sorted_ids(state.collections.dom());
    let pick = |id: u64|
        !state.collections[id].log_collection || logging_config.log_identifiers().contains(id);
    lemma_sorted_ids(state.collections.dom());
    lemma_picked_increasing(all, pick);
    assert forall|i: int, j: int| 0 <= i < j < uppers.len() implies (#[trigger] uppers[i]).0
        != (#[trigger] uppers[j]).0 by {
        assert(all.filter(pick)[i] < all.filter(pick)[j]);
    }
    assert forall|i: int| 0 <= i < uppers.len() implies state.collections.contains_key(
        (#[trigger] uppers[i]).0,
    ) by {
        assert(all.contains(all.filter(pick)[i]));
    }
}

/// Collections that exist can all be dropped.
pub proof fn lemma_all_dropped<P, L: FrontierLogic>(state: InstanceModel<P, L>, ids: Seq<u64>)
    requires
        state.first_missing(ids) is None,
    ensures
        state.assigned(dropping(ids)).missing is None,
{
    let policies = dropping::<L>(ids);
    lemma_no_first_error(
        ids,
        |id: u64|
            if state.collections.contains_key(id) {
                None
            } else {
                Some(CollectionMissing(id))
            },
    );
    let start = state.assigned(Seq::empty());
    assert forall|i: int| 0 <= i < policies.len() implies start.collections.contains_key(
        (#[trigger] policies[i]).0,
    ) by {
        assert(policies[i].0 == ids[i]);
    }
    lemma_all_assigned(start, policies);
}

} // verus!
