//! Dataflows that are created.
use std::collections::BTreeMap;
use std::sync::Arc;
use timely::progress::{Antichain, ChangeBatch};
use vstd::prelude::*;

use super::active::lemma_first_error_stays;
use super::replicas::lemma_uppers_spend;
use super::{capability_mass, lemma_settling_spends, ActiveInstance, Instance};
use crate::action::Action;
use crate::changes::{
    batch_counts, batch_mass, batch_updates, batches_counts, copy_batch, empty_batch,
    frontier_counts, lemma_totals_of_both, lemma_totals_of_few, mass, no_counts, occurrences,
    totals, update_batch,
};
use crate::collection::{CollectionModel, CollectionState};
use crate::command::{
    dataflows_model, share, uppers_model, ComputeCommand, ComputeSinkConnection, ComputeSinkDesc,
    DataflowDescription, DataflowModel, PersistSinkConnection, SourceInstanceDesc,
};
use crate::error::DataflowCreationError;
use crate::fresh::{has_fresh, is_fresh, lemma_fresh_on_replicas, lemma_fresh_uppers};
use crate::frontier::{
    antichain_elements, antichain_le, antichain_of, copy_antichain, elements, Frontier,
};
use crate::ids::GlobalId;
use crate::model::{
    first_error, index_error, looked_up_sink, looked_up_source, lookup_errors, missing_sink,
    missing_source, same_for_all, scaled, source_error, with_each, InstanceModel,
};
use crate::ordered::{increasing, lemma_push_to_set, lemma_sorted_ids, sorted_ids, sorted_keys};
use crate::policy::FrontierLogic;
use crate::propagation::{acyclic, dependencies};
use crate::storage::{storage_models, StorageCollectionModel, StorageController};

verus! {

/// Starting with all replicas records at least what starting with the first `n` records.
proof fn lemma_replicas_spend<P, L: FrontierLogic>(
    state: InstanceModel<P, L>,
    storage_ids: Set<u64>,
    replicas: Seq<u64>,
    uppers: Seq<(u64, Frontier)>,
    n: nat,
)
    requires
        n <= replicas.len(),
    ensures
        state.update_on_replicas(storage_ids, replicas.take(n as int), uppers).spent
            <= state.update_on_replicas(storage_ids, replicas, uppers).spent,
    decreases replicas.len(),
{
    if n == replicas.len() {
        assert(replicas.take(n as int) =~= replicas);
    } else {
        assert(replicas.drop_last().take(n as int) =~= replicas.take(n as int));
        lemma_replicas_spend(state, storage_ids, replicas.drop_last(), uppers, n);
        lemma_uppers_spend(
            state.update_on_replicas(storage_ids, replicas.drop_last(), uppers),
            storage_ids,
            replicas.last(),
            uppers,
        );
    }
}

/// Tracking a dataflow records at least what was recorded before.
proof fn lemma_install_spends<P, L: FrontierLogic>(
    state: InstanceModel<P, L>,
    storage_ids: Set<u64>,
    dataflow: DataflowModel<P, ()>,
)
    ensures
        state.spent <= state.with_exports(storage_ids, dataflow).spent,
        state.with_exports(storage_ids, dataflow).spent <= state.install(
            storage_ids,
            dataflow,
        ).spent,
{
    let as_of = dataflow.as_of->0;
    let sources = sorted_ids(dataflow.source_imports.dom());
    let indexes = sorted_ids(dataflow.index_imports.dom());
    let cost = dataflow.outputs() * as_of.len() * (1 + sources.len() + indexes.len());
    assert(cost >= 0) by (nonlinear_arith)
        requires
            cost == dataflow.outputs() * as_of.len() * (1 + sources.len() + indexes.len()),
    ;
    let asked = state.with_sources_held(dataflow);
    lemma_settling_spends(
        asked,
        storage_ids,
        same_for_all(dataflow.index_imports.dom(), dataflow.hold()),
    );
    let exported = state.with_exports(storage_ids, dataflow);
    let replicas = sorted_ids(exported.replicas.dom());
    lemma_replicas_spend(
        exported,
        storage_ids,
        replicas,
        dataflow.export_ids().map_values(|id: u64| (id, as_of)),
        0,
    );
    assert(replicas.take(0) =~= Seq::empty());
}

/// Tracking all dataflows records at least what tracking the first `n` records, and fails if
/// that fails.
proof fn lemma_install_all_spends<P, L: FrontierLogic>(
    state: InstanceModel<P, L>,
    storage: Seq<Map<u64, StorageCollectionModel<P>>>,
    dataflows: Seq<DataflowModel<P, ()>>,
    n: nat,
)
    requires
        n <= dataflows.len(),
    ensures
        state.install_all(storage, dataflows.take(n as int)).0.spent <= state.install_all(
            storage,
            dataflows,
        ).0.spent,
        state.install_all(storage, dataflows.take(n as int)).1 is Some ==> state.install_all(
            storage,
            dataflows,
        ) == state.install_all(storage, dataflows.take(n as int)),
        state.takes_dataflows(storage, dataflows) ==> state.takes_dataflows(
            storage,
            dataflows.take(n as int),
        ),
    decreases dataflows.len(),
{
    if n == dataflows.len() {
        assert(dataflows.take(n as int) =~= dataflows);
    } else {
        let front = dataflows.drop_last();
        assert(front.take(n as int) =~= dataflows.take(n as int));
        lemma_install_all_spends(state, storage, front, n);
        lemma_install_spends(
            state.install_all(storage, front).0,
            storage[front.len() as int].dom(),
            dataflows.last(),
        );
    }
}

/// One list of identifiers after the other.
fn join(front: Vec<GlobalId>, back: Vec<GlobalId>) -> (result: Vec<GlobalId>)
    ensures
        result@ == front@ + back@,
{
    let mut result = front;
    let mut i: usize = 0;
    while i < back.len()
        invariant
            i <= back.len(),
            result@ == front@ + back@.take(i as int),
        decreases back.len() - i,
    {
        result.push(back[i]);
        i = i + 1;
    }
    proof {
        assert(back@.take(i as int) =~= back@);
    }
    result
}

/// A copy of a list of identifiers.
fn copy_ids(ids: &Vec<GlobalId>) -> (result: Vec<GlobalId>)
    ensures
        result@ == ids@,
{
    let mut result: Vec<GlobalId> = Vec::new();
    let mut i: usize = 0;
    while i < ids.len()
        invariant
            i <= ids.len(),
            result@ == ids@.take(i as int),
        decreases ids.len() - i,
    {
        result.push(ids[i]);
        i = i + 1;
    }
    result
}

/// The changes that the outputs of a dataflow make to the read capabilities of what it reads.
fn hold_changes(as_of: &Antichain<u64>, outputs: i64) -> (result: ChangeBatch<u64>)
    requires
        0 <= outputs,
        outputs * antichain_elements(*as_of).len() <= i64::MAX,
    ensures
        batch_counts(result) == scaled(
            frontier_counts(antichain_elements(*as_of)),
            outputs as nat,
        ),
        mass(batch_updates(result)) <= outputs * antichain_elements(*as_of).len(),
{
    let times = elements(as_of);
    let mut result = empty_batch();
    let mut i: usize = 0;
    proof {
        lemma_totals_of_few(0, 0);
        assert(scaled(frontier_counts(times@.take(0)), outputs as nat) =~= no_counts()) by {
            assert forall|time: u64|
                outputs * #[trigger] occurrences(times@.take(0), time) == 0 by {
                assert(occurrences(times@.take(0), time) == 0);
            }
        }
    }
    while i < times.len()
        invariant
            i <= times.len(),
            0 <= outputs,
            outputs * times@.len() <= i64::MAX,
            batch_counts(result) == scaled(
                frontier_counts(times@.take(i as int)),
                outputs as nat,
            ),
            mass(batch_updates(result)) <= outputs * i,
        decreases times.len() - i,
    {
        let ghost before = batch_updates(result);
        let time = times[i];
        proof {
            assert(outputs * i + outputs == outputs * (i + 1)) by (nonlinear_arith);
            assert(outputs * (i + 1) <= outputs * times@.len()) by (nonlinear_arith)
                requires
                    i + 1 <= times@.len(),
                    0 <= outputs,
            ;
        }
        update_batch(&mut result, time, outputs);
        proof {
            assert(before.push((time, outputs)) =~= before + seq![(time, outputs)]);
            lemma_totals_of_both(before, seq![(time, outputs)]);
            lemma_totals_of_few(time, outputs);
            assert(times@.take(i + 1).drop_last() =~= times@.take(i as int));
            let after = scaled(frontier_counts(times@.take(i + 1)), outputs as nat);
            assert forall|other: u64| #[trigger] batch_counts(result)(other) == after(other) by {
                let count = occurrences(times@.take(i as int), other);
                assert(totals(before)(other) == outputs * count);
                assert(outputs * (count + 1) == outputs * count + outputs) by (nonlinear_arith);
            }
            assert(batch_counts(result) =~= after);
        }
        i = i + 1;
    }
    proof {
        assert(times@.take(i as int) =~= times@);
    }
    result
}

/// The same changes for each of the identifiers.
fn hold_all(ids: &Vec<GlobalId>, changes: &ChangeBatch<u64>) -> (result: BTreeMap<
    GlobalId,
    ChangeBatch<u64>,
>)
    ensures
        batches_counts(result@) == same_for_all(ids@.to_set(), batch_counts(*changes)),
        forall|id: u64| #[trigger]
            batch_mass(result@, id) <= mass(batch_updates(*changes)),
{
    let mut result: BTreeMap<GlobalId, ChangeBatch<u64>> = BTreeMap::new();
    let mut i: usize = 0;
    proof {
        assert(batches_counts(result@) =~= same_for_all(
            ids@.take(0).to_set(),
            batch_counts(*changes),
        ));
    }
    while i < ids.len()
        invariant
            i <= ids.len(),
            batches_counts(result@) == same_for_all(
                ids@.take(i as int).to_set(),
                batch_counts(*changes),
            ),
            forall|id: u64| #[trigger]
                batch_mass(result@, id) <= mass(batch_updates(*changes)),
        decreases ids.len() - i,
    {
        let id = ids[i];
        let ghost before = result@;
        result.insert(id, copy_batch(changes));
        proof {
            lemma_push_to_set(ids@.take(i as int), id);
            assert(ids@.take(i + 1) =~= ids@.take(i as int).push(id));
            assert(batches_counts(result@) =~= batches_counts(before).insert(
                id,
                batch_counts(*changes),
            ));
            assert(batches_counts(result@) =~= same_for_all(
                ids@.take(i + 1).to_set(),
                batch_counts(*changes),
            ));
            assert forall|other: u64| #[trigger]
                batch_mass(result@, other) <= mass(batch_updates(*changes)) by {
                assert(batch_mass(before, other) <= mass(batch_updates(*changes)));
            }
        }
        i = i + 1;
    }
    proof {
        assert(ids@.take(i as int) =~= ids@);
    }
    result
}

impl<P, L: FrontierLogic> Instance<P, L> {
    /// Validates that a dataflow can read its sources and indexes from its `as_of` on.
    pub fn validate_imports(
        &self,
        storage: &StorageController<P>,
        dataflow: &DataflowDescription<P, ()>,
    ) -> (result: Option<DataflowCreationError>)
        ensures
            result == self@.import_error(storage@, dataflow@),
    {
        let as_of = match &dataflow.as_of {
            Some(as_of) => as_of,
            None => {
                return Some(DataflowCreationError::MissingAsOf);
            },
        };
        let ghost from = antichain_elements(*as_of);

        // Validate sources have `since.less_equal(as_of)`.
        let sources = sorted_keys(&dataflow.source_imports);
        let ghost source_fails = source_error(storage@, from);
        let mut i: usize = 0;
        while i < sources.len()
            invariant
                i <= sources.len(),
                from == antichain_elements(*as_of),
                dataflow@.as_of == Some(from),
                sources@ == sorted_ids(dataflow@.source_imports.dom()),
                source_fails == source_error(storage@, from),
                first_error(sources@.take(i as int), source_fails) is None,
            decreases sources.len() - i,
        {
            let id = sources[i];
            proof {
                assert(sources@.take(i + 1).drop_last() =~= sources@.take(i as int));
            }
            let error = match storage.collection(id) {
                Ok(state) => if antichain_le(&state.read_frontier, as_of) {
                    None
                } else {
                    Some(DataflowCreationError::SinceViolation(id))
                },
                Err(missing) => Some(DataflowCreationError::from(missing)),
            };
            if error.is_some() {
                proof {
                    lemma_first_error_stays(sources@, source_fails, (i + 1) as nat);
                }
                return error;
            }
            i = i + 1;
        }
        proof {
            assert(sources@.take(i as int) =~= sources@);
        }

        // Validate indexes have `since.less_equal(as_of)`.
        let indexes = sorted_keys(&dataflow.index_imports);
        let ghost index_fails = index_error(self@.collections, from);
        let mut i: usize = 0;
        while i < indexes.len()
            invariant
                i <= indexes.len(),
                from == antichain_elements(*as_of),
                dataflow@.as_of == Some(from),
                indexes@ == sorted_ids(dataflow@.index_imports.dom()),
                first_error(
                    sorted_ids(dataflow@.source_imports.dom()),
                    source_error(storage@, from),
                ) is None,
                index_fails == index_error(self@.collections, from),
                first_error(indexes@.take(i as int), index_fails) is None,
            decreases indexes.len() - i,
        {
            let id = indexes[i];
            proof {
                assert(indexes@.take(i + 1).drop_last() =~= indexes@.take(i as int));
            }
            let error = match self.collection(id) {
                Ok(collection) => if antichain_le(&collection.read_frontier(), as_of) {
                    None
                } else {
                    Some(DataflowCreationError::SinceViolation(id))
                },
                Err(missing) => Some(DataflowCreationError::from(missing)),
            };
            if error.is_some() {
                proof {
                    lemma_first_error_stays(indexes@, index_fails, (i + 1) as nat);
                }
                return error;
            }
            i = i + 1;
        }
        proof {
            assert(indexes@.take(i as int) =~= indexes@);
        }
        None
    }

    /// Holds the read capabilities that a dataflow needs, and installs collection state for each
    /// of its exports.
    fn install_exports(
        &mut self,
        storage: &StorageController<P>,
        dataflow: &DataflowDescription<P, ()>,
        as_of: &Antichain<u64>,
        exports: &Vec<GlobalId>,
    )
        requires
            old(self).wf(),
            dataflow@.as_of == Some(antichain_elements(*as_of)),
            dataflow@.outputs() <= i64::MAX,
            exports@ == dataflow@.export_ids(),
            acyclic(
                dependencies(old(self)@.with_exports(storage@.dom(), dataflow@).collections),
            ),
            old(self)@.with_exports(storage@.dom(), dataflow@).spent <= i64::MAX,
        ensures
            final(self).wf(),
            final(self)@ == old(self)@.with_exports(storage@.dom(), dataflow@),
    {
        let ghost from = antichain_elements(*as_of);
        let ghost end = self@.with_exports(storage@.dom(), dataflow@);
        let storage_dependencies = sorted_keys(&dataflow.source_imports);
        let compute_dependencies = sorted_keys(&dataflow.index_imports);

        // We will bump the internals of each input by the number of dependents (outputs).
        let outputs: u64 = dataflow.sink_exports.len() as u64 + dataflow.index_exports.len() as u64;
        let ghost cost = dataflow@.outputs() * from.len() * (1 + storage_dependencies@.len()
            + compute_dependencies@.len());
        let ghost one = dataflow@.outputs() * from.len();
        let ghost asked = self@.with_sources_held(dataflow@);
        let ghost held = asked.update_read_capabilities(
            storage@.dom(),
            same_for_all(dataflow@.index_imports.dom(), dataflow@.hold()),
        );
        proof {
            lemma_settling_spends(
                asked,
                storage@.dom(),
                same_for_all(dataflow@.index_imports.dom(), dataflow@.hold()),
            );
            assert(one <= cost) by (nonlinear_arith)
                requires
                    one == dataflow@.outputs() * from.len(),
                    cost == one * (1 + storage_dependencies@.len() + compute_dependencies@.len()),
            ;
        }
        let changes = hold_changes(as_of, outputs as i64);
        let storage_read_updates = hold_all(&storage_dependencies, &changes);
        let compute_read_updates = hold_all(&compute_dependencies, &changes);
        let ghost before = *self;
        proof {
            lemma_sorted_ids(dataflow.source_imports@.dom());
            lemma_sorted_ids(dataflow.index_imports@.dom());
            assert(storage_dependencies@.to_set() =~= dataflow.source_imports@.dom());
            assert(compute_dependencies@.to_set() =~= dataflow.index_imports@.dom());
        }
        self.spent = Ghost(self.spent@ + cost);
        proof {
            assert forall|id: u64| #[trigger]
                capability_mass(self.collections@, id) <= self.spent@ by {
                assert(capability_mass(before.collections@, id) <= before.spent@);
            }
        }
        // Update storage read capabilities for inputs.
        self.ask(Action::UpdateStorageReadCapabilities(storage_read_updates));
        proof {
            assert(self@ == asked);
            assert forall|id: u64| #[trigger]
                capability_mass(self.collections@, id) + batch_mass(compute_read_updates@, id)
                    <= self.spent@ by {
                assert(capability_mass(before.collections@, id) <= before.spent@);
            }
        }
        // Update compute read capabilities for inputs.
        self.update_read_capabilities(storage, compute_read_updates);
        proof {
            assert(self@ == held);
            assert(0 * from.len() == 0) by (nonlinear_arith);
        }

        // Install collection state for each of the exports.
        let ghost created = CollectionModel::<L>::created(
            from,
            storage_dependencies@,
            compute_dependencies@,
        );
        let ghost length = from.len();
        let mut i: usize = 0;
        proof {
            assert(self@.collections =~= with_each(
                held.collections,
                exports@.take(0).to_set(),
                created,
            ));
        }
        while i < exports.len()
            invariant
                i <= exports.len(),
                from == antichain_elements(*as_of),
                length == from.len(),
                created == CollectionModel::<L>::created(
                    from,
                    storage_dependencies@,
                    compute_dependencies@,
                ),
                held.spent + exports@.len() * length <= i64::MAX,
                self.failed_replicas@.subset_of(self.replicas@.dom()),
                forall|id: u64| #[trigger]
                    capability_mass(self.collections@, id) <= self.spent@,
                self@ == (InstanceModel {
                    collections: with_each(
                        held.collections,
                        exports@.take(i as int).to_set(),
                        created,
                    ),
                    spent: (held.spent + i * length) as nat,
                    ..held
                }),
            decreases exports.len() - i,
        {
            let id = exports[i];
            let ghost before = *self;
            proof {
                assert(i * length + length == (i + 1) * length) by (nonlinear_arith);
                assert((i + 1) * length <= exports@.len() * length) by (nonlinear_arith)
                    requires
                        i + 1 <= exports@.len(),
                        0 <= length,
                ;
                assert(0 <= i * length) by (nonlinear_arith)
                    requires
                        0 <= i,
                        0 <= length,
                ;
            }
            let state = CollectionState::new(
                copy_antichain(as_of),
                copy_ids(&storage_dependencies),
                copy_ids(&compute_dependencies),
            );
            self.collections.insert(id, state);
            self.spent = Ghost((held.spent + (i + 1) * length) as nat);
            proof {
                lemma_push_to_set(exports@.take(i as int), id);
                assert(exports@.take(i + 1) =~= exports@.take(i as int).push(id));
                assert(self@.collections =~= before@.collections.insert(id, created));
                assert(self@.collections =~= with_each(
                    held.collections,
                    exports@.take(i + 1).to_set(),
                    created,
                ));
                assert forall|other: u64| #[trigger]
                    capability_mass(self.collections@, other) <= self.spent@ by {
                    assert(capability_mass(before.collections@, other) <= before.spent@);
                }
            }
            i = i + 1;
        }
        proof {
            assert(exports@.take(i as int) =~= exports@);
            assert(self@ == end);
        }
    }

    /// Initializes tracking of subscribes.
    fn install_subscribes(&mut self, dataflow: &DataflowDescription<P, ()>)
        requires
            old(self).wf(),
        ensures
            final(self).wf(),
            final(self)@ == (InstanceModel {
                subscribes: Map::new(
                    |id: u64|
                        old(self)@.subscribes.contains_key(id)
                            || dataflow@.subscribe_ids().contains(id),
                    |id: u64|
                        if dataflow@.subscribe_ids().contains(id) {
                            seq![0u64]
                        } else {
                            old(self)@.subscribes[id]
                        },
                ),
                ..old(self)@
            }),
    {
        let sinks = sorted_keys(&dataflow.sink_exports);
        let ghost wanted = dataflow@.subscribe_ids();
        let mut i: usize = 0;
        proof {
            lemma_sorted_ids(dataflow.sink_exports@.dom());
        }
        while i < sinks.len()
            invariant
                i <= sinks.len(),
                wanted == dataflow@.subscribe_ids(),
                forall|id: u64| #[trigger]
                    sinks@.contains(id) <==> dataflow.sink_exports@.contains_key(id),
                self.wf(),
                self@ == (InstanceModel { subscribes: self@.subscribes, ..old(self)@ }),
                forall|id: u64| #[trigger]
                    self@.subscribes.contains_key(id) <==> old(self)@.subscribes.contains_key(id)
                        || (wanted.contains(id) && sinks@.take(i as int).contains(id)),
                forall|id: u64| #[trigger]
                    self@.subscribes.contains_key(id) ==> self@.subscribes[id] == if sinks@.take(
                        i as int,
                    ).contains(id) && wanted.contains(id) {
                        seq![0u64]
                    } else {
                        old(self)@.subscribes[id]
                    },
            decreases sinks.len() - i,
        {
            let id = sinks[i];
            let ghost before = self@.subscribes;
            proof {
                assert(sinks@.contains(id));
                lemma_push_to_set(sinks@.take(i as int), id);
                assert(sinks@.take(i + 1) =~= sinks@.take(i as int).push(id));
                assert forall|other: u64| #[trigger]
                    sinks@.take(i + 1).contains(other) <==> sinks@.take(i as int).contains(other)
                        || other == id by {
                    assert(sinks@.take(i + 1).to_set().contains(other) <==> sinks@.take(
                        i as int,
                    ).to_set().insert(id).contains(other));
                }
                assert(dataflow.sink_exports@.contains_key(id));
                assert(wanted.contains(id) <==> dataflow.sink_exports@[id].connection is Subscribe);
            }
            let subscribe = match dataflow.sink_exports.get(&id) {
                Some(sink) => match &sink.connection {
                    ComputeSinkConnection::Subscribe(_) => true,
                    ComputeSinkConnection::Persist(_) => false,
                },
                None => false,
            };
            if subscribe {
                self.subscribes.insert(id, antichain_of(0));
                proof {
                    assert(self@.subscribes =~= before.insert(id, seq![0u64]));
                }
            }
            i = i + 1;
        }
        proof {
            assert(sinks@.take(i as int) =~= sinks@);
            assert(self@.subscribes =~= Map::new(
                |id: u64| old(self)@.subscribes.contains_key(id) || wanted.contains(id),
                |id: u64|
                    if wanted.contains(id) {
                        seq![0u64]
                    } else {
                        old(self)@.subscribes[id]
                    },
            ));
        }
    }
}

/// One more element of an increasing list is not among those before it.
proof fn lemma_next_of_list(list: Seq<u64>, i: int)
    requires
        increasing(list),
        0 <= i < list.len(),
    ensures
        !list.take(i).contains(list[i]),
        forall|id: u64| #[trigger]
            list.take(i + 1).contains(id) <==> list.take(i).contains(id) || id == list[i],
{
    lemma_push_to_set(list.take(i), list[i]);
    assert(list.take(i + 1) =~= list.take(i).push(list[i]));
    assert forall|id: u64| #[trigger]
        list.take(i + 1).contains(id) <==> list.take(i).contains(id) || id == list[i] by {
        assert(list.take(i + 1).to_set().contains(id) <==> list.take(i).to_set().insert(
            list[i],
        ).contains(id));
    }
    if list.take(i).contains(list[i]) {
        let j = choose|j: int| 0 <= j < i && list.take(i)[j] == list[i];
        assert(list[j] < list[i]);
    }
}

/// The sources of a dataflow with what storage knows of them.
fn look_up_sources<P>(
    storage: &StorageController<P>,
    imports: BTreeMap<GlobalId, (SourceInstanceDesc<P, ()>, bool)>,
) -> (result: Result<
    BTreeMap<GlobalId, (SourceInstanceDesc<P, Arc<P>>, bool)>,
    DataflowCreationError,
>)
    ensures
        match first_error(sorted_ids(imports@.dom()), missing_source(storage@)) {
            Some(error) => result == Err::<
                BTreeMap<GlobalId, (SourceInstanceDesc<P, Arc<P>>, bool)>,
                DataflowCreationError,
            >(error),
            None => result is Ok && (result->Ok_0)@ == imports@.map_entries(
                |id: u64, source: (SourceInstanceDesc<P, ()>, bool)|
                    (looked_up_source(source.0, storage@[id]), source.1),
            ),
        },
{
    let ghost before = imports@;
    let ids = sorted_keys(&imports);
    let mut rest = imports;
    let mut sources: BTreeMap<GlobalId, (SourceInstanceDesc<P, Arc<P>>, bool)> = BTreeMap::new();
    proof {
        lemma_sorted_ids(before.dom());
    }
    let mut i: usize = 0;
    while i < ids.len()
        invariant
            i <= ids.len(),
            before == imports@,
            before.dom().finite(),
            ids@ == sorted_ids(before.dom()),
            increasing(ids@),
            forall|id: u64| #[trigger] ids@.contains(id) <==> before.contains_key(id),
            forall|id: u64| #[trigger]
                rest@.contains_key(id) <==> before.contains_key(id) && !ids@.take(
                    i as int,
                ).contains(id),
            forall|id: u64| #[trigger]
                rest@.contains_key(id) ==> rest@[id] == before[id],
            forall|id: u64| #[trigger]
                sources@.contains_key(id) <==> ids@.take(i as int).contains(id),
            forall|id: u64| #[trigger]
                sources@.contains_key(id) ==> sources@[id] == (
                    looked_up_source(before[id].0, storage@[id]),
                    before[id].1,
                ),
            first_error(ids@.take(i as int), missing_source(storage@)) is None,
        decreases ids.len() - i,
    {
        let id = ids[i];
        proof {
            assert(ids@.contains(id));
            lemma_next_of_list(ids@, i as int);
            assert(ids@.take(i + 1).drop_last() =~= ids@.take(i as int));
        }
        let collection = match storage.collection(id) {
            Ok(collection) => collection,
            Err(missing) => {
                proof {
                    lemma_first_error_stays(ids@, missing_source(storage@), (i + 1) as nat);
                }
                return Err(DataflowCreationError::from(missing));
            },
        };
        if let Some((source, monotonic)) = rest.remove(&id) {
            let desc = SourceInstanceDesc {
                storage_metadata: share(&collection.collection_metadata),
                arguments: source.arguments,
                typ: share(&collection.typ),
            };
            sources.insert(id, (desc, monotonic));
        }
        i = i + 1;
    }
    proof {
        assert(ids@.take(i as int) =~= ids@);
        assert(sources@ =~= before.map_entries(
            |id: u64, source: (SourceInstanceDesc<P, ()>, bool)|
                (looked_up_source(source.0, storage@[id]), source.1),
        ));
    }
    Ok(sources)
}

/// The sinks of a dataflow with what storage knows of them.
fn look_up_sinks<P>(
    storage: &StorageController<P>,
    exports: BTreeMap<GlobalId, ComputeSinkDesc<P, ()>>,
) -> (result: Result<BTreeMap<GlobalId, ComputeSinkDesc<P, Arc<P>>>, DataflowCreationError>)
    ensures
        match first_error(sorted_ids(exports@.dom()), missing_sink(storage@, exports@)) {
            Some(error) => result == Err::<
                BTreeMap<GlobalId, ComputeSinkDesc<P, Arc<P>>>,
                DataflowCreationError,
            >(error),
            None => result is Ok && (result->Ok_0)@ == exports@.map_entries(
                |id: u64, sink: ComputeSinkDesc<P, ()>| looked_up_sink(sink, storage@[id]),
            ),
        },
{
    let ghost before = exports@;
    let ids = sorted_keys(&exports);
    let mut rest = exports;
    let mut sinks: BTreeMap<GlobalId, ComputeSinkDesc<P, Arc<P>>> = BTreeMap::new();
    proof {
        lemma_sorted_ids(before.dom());
    }
    let mut i: usize = 0;
    while i < ids.len()
        invariant
            i <= ids.len(),
            before == exports@,
            before.dom().finite(),
            ids@ == sorted_ids(before.dom()),
            increasing(ids@),
            forall|id: u64| #[trigger] ids@.contains(id) <==> before.contains_key(id),
            forall|id: u64| #[trigger]
                rest@.contains_key(id) <==> before.contains_key(id) && !ids@.take(
                    i as int,
                ).contains(id),
            forall|id: u64| #[trigger]
                rest@.contains_key(id) ==> rest@[id] == before[id],
            forall|id: u64| #[trigger]
                sinks@.contains_key(id) <==> ids@.take(i as int).contains(id),
            forall|id: u64| #[trigger]
                sinks@.contains_key(id) ==> sinks@[id] == looked_up_sink(before[id], storage@[id]),
            first_error(ids@.take(i as int), missing_sink(storage@, before)) is None,
        decreases ids.len() - i,
    {
        let id = ids[i];
        proof {
            assert(ids@.contains(id));
            lemma_next_of_list(ids@, i as int);
            assert(ids@.take(i + 1).drop_last() =~= ids@.take(i as int));
            assert(rest@.contains_key(id));
        }
        if let Some(sink) = rest.remove(&id) {
            let connection = match sink.connection {
                ComputeSinkConnection::Persist(connection) => {
                    let metadata = match storage.collection(id) {
                        Ok(collection) => share(&collection.collection_metadata),
                        Err(missing) => {
                            proof {
                                lemma_first_error_stays(
                                    ids@,
                                    missing_sink(storage@, before),
                                    (i + 1) as nat,
                                );
                            }
                            return Err(DataflowCreationError::from(missing));
                        },
                    };
                    ComputeSinkConnection::Persist(
                        PersistSinkConnection {
                            value_desc: connection.value_desc,
                            storage_metadata: metadata,
                        },
                    )
                },
                ComputeSinkConnection::Subscribe(connection) => ComputeSinkConnection::Subscribe(
                    connection,
                ),
            };
            let desc = ComputeSinkDesc {
                from: sink.from,
                from_desc: sink.from_desc,
                connection,
                as_of: sink.as_of,
            };
            sinks.insert(id, desc);
        }
        i = i + 1;
    }
    proof {
        assert(ids@.take(i as int) =~= ids@);
        assert(sinks@ =~= before.map_entries(
            |id: u64, sink: ComputeSinkDesc<P, ()>| looked_up_sink(sink, storage@[id]),
        ));
    }
    Ok(sinks)
}

/// A dataflow with what storage knows of the collections that it reads and writes.
fn look_up<P>(storage: &StorageController<P>, dataflow: DataflowDescription<P, ()>) -> (result:
    Result<DataflowDescription<P, Arc<P>>, DataflowCreationError>)
    ensures
        match dataflow@.lookup_error(storage@) {
            Some(error) => result == Err::<
                DataflowDescription<P, Arc<P>>,
                DataflowCreationError,
            >(error),
            None => result is Ok && (result->Ok_0)@ == dataflow@.looked_up(storage@),
        },
{
    let DataflowDescription {
        source_imports,
        index_imports,
        objects_to_build,
        index_exports,
        sink_exports,
        as_of,
        until,
        debug_name,
    } = dataflow;
    let source_imports = match look_up_sources(storage, source_imports) {
        Ok(source_imports) => source_imports,
        Err(error) => {
            return Err(error);
        },
    };
    let sink_exports = match look_up_sinks(storage, sink_exports) {
        Ok(sink_exports) => sink_exports,
        Err(error) => {
            return Err(error);
        },
    };
    Ok(
        DataflowDescription {
            source_imports,
            sink_exports,
            // The rest of the fields are identical.
            index_imports,
            objects_to_build,
            index_exports,
            as_of,
            until,
            debug_name,
        },
    )
}

/// A dataflow that cannot be looked up stands, with those after it, for the same error.
proof fn lemma_lookup_error_stays<P>(
    dataflows: Seq<DataflowModel<P, ()>>,
    storage: Map<u64, StorageCollectionModel<P>>,
    n: nat,
)
    requires
        n <= dataflows.len(),
        lookup_errors(dataflows.take(n as int), storage) is Some,
    ensures
        lookup_errors(dataflows, storage) == lookup_errors(dataflows.take(n as int), storage),
    decreases dataflows.len(),
{
    if n == dataflows.len() {
        assert(dataflows.take(n as int) =~= dataflows);
    } else {
        assert(dataflows.drop_last().take(n as int) =~= dataflows.take(n as int));
        lemma_lookup_error_stays(dataflows.drop_last(), storage, n);
    }
}

impl<P, L: FrontierLogic> Instance<P, L> {
    /// Takes `as_of` in as what each replica has reported of new exports.
    fn start_on_replicas(
        &mut self,
        storage: &StorageController<P>,
        exports: &Vec<GlobalId>,
        as_of: &Antichain<u64>,
    )
        requires
            old(self).wf(),
            has_fresh(old(self)@, exports@, antichain_elements(*as_of)),
            antichain_elements(*as_of).len() > 0 || exports@.len() == 0
                || old(self)@.replicas.dom().len() <= 1,
            old(self)@.update_on_replicas(
                storage@.dom(),
                sorted_ids(old(self)@.replicas.dom()),
                exports@.map_values(|id: u64| (id, antichain_elements(*as_of))),
            ).spent <= i64::MAX,
        ensures
            final(self).wf(),
            final(self)@ == old(self)@.update_on_replicas(
                storage@.dom(),
                sorted_ids(old(self)@.replicas.dom()),
                exports@.map_values(|id: u64| (id, antichain_elements(*as_of))),
            ),
    {
        let ghost from = antichain_elements(*as_of);
        let ghost uppers = exports@.map_values(|id: u64| (id, from));
        let ghost start = self@;
        let mut updates: Vec<(GlobalId, Antichain<u64>)> = Vec::new();
        let mut i: usize = 0;
        while i < exports.len()
            invariant
                i <= exports.len(),
                from == antichain_elements(*as_of),
                uppers == exports@.map_values(|id: u64| (id, from)),
                uppers_model(updates@) == uppers.take(i as int),
            decreases exports.len() - i,
        {
            let ghost before = updates@;
            updates.push((exports[i], copy_antichain(as_of)));
            proof {
                assert(uppers_model(updates@) =~= uppers_model(before).push(uppers[i as int]));
                assert(uppers.take(i + 1) =~= uppers.take(i as int).push(uppers[i as int]));
            }
            i = i + 1;
        }
        proof {
            assert(uppers.take(i as int) =~= uppers);
        }
        let replica_ids = sorted_keys(&self.replicas);
        proof {
            assert(self.replicas@.dom() =~= self@.replicas.dom());
            lemma_sorted_ids(self@.replicas.dom());
        }
        let mut i: usize = 0;
        while i < replica_ids.len()
            invariant
                i <= replica_ids.len(),
                self.wf(),
                has_fresh(start, exports@, from),
                from.len() > 0 || exports@.len() == 0 || replica_ids@.len() <= 1,
                uppers == exports@.map_values(|id: u64| (id, from)),
                uppers_model(updates@) == uppers,
                start.update_on_replicas(storage@.dom(), replica_ids@, uppers).spent <= i64::MAX,
                self@ == start.update_on_replicas(
                    storage@.dom(),
                    replica_ids@.take(i as int),
                    uppers,
                ),
            decreases replica_ids.len() - i,
        {
            let ghost done = replica_ids@.take(i as int);
            proof {
                assert(replica_ids@.take(i + 1).drop_last() =~= done);
                lemma_fresh_on_replicas(start, storage@.dom(), done, exports@, from);
                lemma_fresh_uppers(
                    self@,
                    storage@.dom(),
                    replica_ids[i as int],
                    exports@,
                    from,
                );
                lemma_replicas_spend(start, storage@.dom(), replica_ids@, uppers, (i + 1) as nat);
            }
            self.update_write_frontiers(storage, replica_ids[i], &updates);
            i = i + 1;
        }
        proof {
            assert(replica_ids@.take(i as int) =~= replica_ids@);
        }
    }

    /// Validates a dataflow, and starts tracking it.
    fn install(
        &mut self,
        storage: &StorageController<P>,
        dataflow: &DataflowDescription<P, ()>,
    ) -> (result: Result<(), DataflowCreationError>)
        requires
            old(self).wf(),
            old(self)@.import_error(storage@, dataflow@) is None ==> {
                &&& old(self)@.takes_dataflow(storage@.dom(), dataflow@)
                &&& old(self)@.install(storage@.dom(), dataflow@).spent <= i64::MAX
            },
        ensures
            final(self).wf(),
            match old(self)@.import_error(storage@, dataflow@) {
                Some(error) => {
                    &&& result == Err::<(), DataflowCreationError>(error)
                    &&& final(self)@ == old(self)@
                },
                None => {
                    &&& result == Ok::<(), DataflowCreationError>(())
                    &&& final(self)@ == old(self)@.install(storage@.dom(), dataflow@)
                },
            },
    {
        if let Some(error) = self.validate_imports(storage, dataflow) {
            return Err(error);
        }
        if let Some(as_of) = &dataflow.as_of {
            let ghost before = self@;
            let ghost from = antichain_elements(*as_of);
            let exports = join(
                sorted_keys(&dataflow.index_exports),
                sorted_keys(&dataflow.sink_exports),
            );
            proof {
                lemma_install_spends(before, storage@.dom(), dataflow@);
                lemma_sorted_ids(dataflow.index_exports@.dom());
                lemma_sorted_ids(dataflow.sink_exports@.dom());
            }
            self.install_exports(storage, dataflow, as_of, &exports);
            proof {
                assert forall|i: int|
                    0 <= i < exports@.len() implies self@.collections.contains_key(
                    #[trigger] exports@[i],
                ) && is_fresh(self@.collections[exports@[i]], from) by {
                    assert(exports@.to_set().contains(exports@[i]));
                }
            }
            self.start_on_replicas(storage, &exports, as_of);
            self.install_subscribes(dataflow);
        }
        Ok(())
    }

    /// Augments all imported sources and all exported sinks with what storage knows of them, and
    /// has the replicas create the dataflows.
    fn send_dataflows(
        &mut self,
        storage: &StorageController<P>,
        dataflows: Vec<DataflowDescription<P, ()>>,
    ) -> (result: Result<(), DataflowCreationError>)
        requires
            old(self).wf(),
        ensures
            final(self).wf(),
            (final(self)@, result) == old(self)@.send_dataflows(
                storage@,
                dataflows_model(dataflows@),
            ),
    {
        let ghost wanted = dataflows_model(dataflows@);
        let ghost known = storage@;
        let ghost look = |dataflow: DataflowModel<P, ()>| dataflow.looked_up(known);
        let mut augmented: Vec<DataflowDescription<P, Arc<P>>> = Vec::new();
        for dataflow in it: dataflows
            invariant
                wanted == dataflows_model(it.seq()),
                known == storage@,
                look == (|dataflow: DataflowModel<P, ()>| dataflow.looked_up(known)),
                *self == *old(self),
                self.wf(),
                lookup_errors(wanted.take(it.index() as int), known) is None,
                dataflows_model(augmented@) == wanted.take(it.index() as int).map_values(look),
        {
            let ghost i = it.index() as int;
            let ghost before = augmented@;
            proof {
                assert(wanted[i] == dataflow@);
                assert(wanted.take(i + 1).drop_last() =~= wanted.take(i));
                assert(wanted.take(i + 1).last() == wanted[i]);
            }
            match look_up(storage, dataflow) {
                Ok(dataflow) => {
                    augmented.push(dataflow);
                    proof {
                        assert(dataflows_model(augmented@) =~= dataflows_model(before).push(
                            look(wanted[i]),
                        ));
                        assert(wanted.take(i + 1).map_values(look) =~= wanted.take(i).map_values(
                            look,
                        ).push(look(wanted[i])));
                    }
                },
                Err(error) => {
                    proof {
                        lemma_lookup_error_stays(wanted, known, (i + 1) as nat);
                    }
                    return Err(error);
                },
            }
        }
        proof {
            assert(wanted.take(wanted.len() as int) =~= wanted);
        }
        self.send(ComputeCommand::CreateDataflows(augmented));
        Ok(())
    }
}

impl<'a, P, L: FrontierLogic> ActiveInstance<'a, P, L> {
    /// Validates that the inputs of a dataflow can be read from its `as_of` on, holds the read
    /// capabilities that it needs, and initializes state for its outputs. The replicas learn of
    /// the dataflow by [`ActiveInstance::send_dataflows`].
    pub fn install_dataflow(&mut self, dataflow: &DataflowDescription<P, ()>) -> (result: Result<
        (),
        DataflowCreationError,
    >)
        requires
            old(self).compute.wf(),
            old(self).compute@.import_error(old(self).storage@, dataflow@) is None ==> {
                &&& old(self).compute@.takes_dataflow(old(self).storage@.dom(), dataflow@)
                &&& old(self).compute@.install(old(self).storage@.dom(), dataflow@).spent
                    <= i64::MAX
            },
        ensures
            final(self).compute.wf(),
            final(self).storage == old(self).storage,
            *final(final(self).compute) == *final(old(self).compute),
            match old(self).compute@.import_error(old(self).storage@, dataflow@) {
                Some(error) => {
                    &&& result == Err::<(), DataflowCreationError>(error)
                    &&& final(self).compute@ == old(self).compute@
                },
                None => {
                    &&& result == Ok::<(), DataflowCreationError>(())
                    &&& final(self).compute@ == old(self).compute@.install(
                        old(self).storage@.dom(),
                        dataflow@,
                    )
                },
            },
    {
        self.compute.install(self.storage, dataflow)
    }

    /// Augments all imported sources and all exported sinks with what storage knows of them, and
    /// has the replicas create the dataflows.
    pub fn send_dataflows(&mut self, dataflows: Vec<DataflowDescription<P, ()>>) -> (result: Result<
        (),
        DataflowCreationError,
    >)
        requires
            old(self).compute.wf(),
        ensures
            final(self).compute.wf(),
            final(self).storage == old(self).storage,
            *final(final(self).compute) == *final(old(self).compute),
            (final(self).compute@, result) == old(self).compute@.send_dataflows(
                old(self).storage@,
                dataflows_model(dataflows@),
            ),
    {
        self.compute.send_dataflows(self.storage, dataflows)
    }

    /// Creates the described dataflows and initializes state for their output.
    ///
    /// Storage may change with what the dataflows ask of it. The first dataflow is validated
    /// against storage as it is now, and `later[i]` is storage as it is once the actions for the
    /// first `i + 1` dataflows were performed: the dataflow after these is validated against it,
    /// and the metadata of all come from the last entry. Where only performing the actions tells
    /// what storage is then, [`ActiveInstance::install_dataflow`] takes up one dataflow at a time,
    /// and [`ActiveInstance::send_dataflows`] concludes.
    pub fn create_dataflows(
        &mut self,
        dataflows: Vec<DataflowDescription<P, ()>>,
        later: &Vec<&StorageController<P>>,
    ) -> (result: Result<(), DataflowCreationError>)
        requires
            old(self).compute.wf(),
            later@.len() == dataflows@.len(),
            old(self).compute@.takes_dataflows(
                storage_models(*old(self).storage, later@),
                dataflows_model(dataflows@),
            ),
            old(self).compute@.install_all(
                storage_models(*old(self).storage, later@),
                dataflows_model(dataflows@),
            ).0.spent <= i64::MAX,
        ensures
            final(self).compute.wf(),
            final(self).storage == old(self).storage,
            *final(final(self).compute) == *final(old(self).compute),
            (final(self).compute@, result) == old(self).compute@.create_dataflows(
                storage_models(*old(self).storage, later@),
                dataflows_model(dataflows@),
            ),
    {
        let ghost wanted = dataflows_model(dataflows@);
        let ghost known = storage_models(*self.storage, later@);
        let ghost start = self.compute@;
        // Validate dataflows as having inputs whose `since` is less or equal to the dataflow's
        // `as_of`. Start tracking frontiers for each dataflow, using its `as_of` for each index
        // and sink.
        let mut storage: &StorageController<P> = self.storage;
        let mut i: usize = 0;
        proof {
            assert(wanted.take(0) =~= Seq::empty());
        }
        while i < dataflows.len()
            invariant
                i <= dataflows.len(),
                later@.len() == dataflows@.len(),
                wanted == dataflows_model(dataflows@),
                known == storage_models(*old(self).storage, later@),
                storage@ == known[i as int],
                start == old(self).compute@,
                self.storage == old(self).storage,
                *final(self.compute) == *final(old(self).compute),
                self.compute.wf(),
                start.takes_dataflows(known, wanted),
                start.install_all(known, wanted).0.spent <= i64::MAX,
                start.install_all(known, wanted.take(i as int)) == (
                    self.compute@,
                    None::<DataflowCreationError>,
                ),
            decreases dataflows.len() - i,
        {
            proof {
                lemma_install_all_spends(start, known, wanted, (i + 1) as nat);
                assert(wanted.take(i + 1).drop_last() =~= wanted.take(i as int));
                assert(wanted.take(i + 1).last() == dataflows@[i as int]@);
            }
            match self.compute.install(storage, &dataflows[i]) {
                Ok(()) => {},
                Err(error) => {
                    return Err(error);
                },
            }
            storage = later[i];
            i = i + 1;
        }
        proof {
            assert(wanted.take(i as int) =~= wanted);
        }
        // Here we augment all imported sources and all exported sinks with the appropriate
        // storage metadata needed by the compute instance.
        self.compute.send_dataflows(storage, dataflows)
    }
}

} // verus!
