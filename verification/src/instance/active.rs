//! Requests to an instance that touch the storage controller.
use std::collections::{BTreeMap, BTreeSet};
use timely::progress::ChangeBatch;
use vstd::prelude::*;

use super::{capability_mass, lemma_settling_spends, responses_model, Instance};
use crate::changes::{
    batch_is_empty, batch_mass, batch_of, batches_counts, count_at, drain_batch,
    lemma_totals_of_few, record, Counts,
};
use crate::command::{
    rows_option, share_context, ComputeCommand, OpenTelemetryContext, Peek, PeekModel,
};
use crate::error::PeekError;
use crate::frontier::{antichain_reaches, empty_antichain};
use crate::ids::{CollectionMissing, GlobalId, ReplicaId, Uuid};
use crate::model::{
    cancel_response, dropping, first_error, lemma_all_dropped, InstanceModel, PolicyUpdate,
};
use crate::ordered::sorted_uuid_set;
use crate::pending::PendingPeek;
use crate::policy::{FrontierLogic, PolicyModel, ReadPolicy};
use crate::propagation::lemma_acyclic_less;
use crate::response::{ComputeControllerResponse, PeekResponse};
use crate::storage::StorageController;

verus! {

/// An [`Instance`] together with what the storage controller knows.
pub struct ActiveInstance<'a, P, L> {
    /// The instance.
    pub compute: &'a mut Instance<P, L>,
    /// What the storage controller knows.
    pub storage: &'a StorageController<P>,
}

/// The policies of a list.
pub open spec fn policies_model<L>(policies: Seq<(u64, ReadPolicy<L>)>) -> Seq<
    (u64, PolicyModel<L>),
> {
    policies.map_values(|policy: (u64, ReadPolicy<L>)| (policy.0, policy.1@))
}

/// Assigning all policies records at least what assigning the first `n` records.
proof fn lemma_assigning_spends<L: FrontierLogic>(
    start: PolicyUpdate<L>,
    policies: Seq<(u64, PolicyModel<L>)>,
    n: nat,
)
    requires
        n <= policies.len(),
    ensures
        start.assign_all(policies.take(n as int)).spent <= start.assign_all(policies).spent,
        start.assign_all(policies.take(n as int)).missing is Some ==> start.assign_all(policies)
            == start.assign_all(policies.take(n as int)),
    decreases policies.len() - n,
{
    if n == policies.len() {
        assert(policies.take(n as int) =~= policies);
    } else {
        lemma_assigning_spends(start, policies, n + 1);
        assert(policies.take((n + 1) as int).drop_last() =~= policies.take(n as int));
    }
}

/// An error among the first `n` identifiers is the first error of all.
pub(super) proof fn lemma_first_error_stays<E>(
    ids: Seq<u64>,
    error: spec_fn(u64) -> Option<E>,
    n: nat,
)
    requires
        n <= ids.len(),
        first_error(ids.take(n as int), error) is Some,
    ensures
        first_error(ids, error) == first_error(ids.take(n as int), error),
    decreases ids.len(),
{
    if n == ids.len() {
        assert(ids.take(n as int) =~= ids);
    } else {
        assert(ids.drop_last().take(n as int) =~= ids.take(n as int));
        lemma_first_error_stays(ids.drop_last(), error, n);
    }
}

impl<P, L: FrontierLogic> Instance<P, L> {
    /// Validates that a collection exists for all identifiers, and errors if any do not.
    fn validate_ids(&self, ids: &Vec<GlobalId>) -> (result: Result<(), CollectionMissing>)
        ensures
            result == match self@.first_missing(ids@) {
                Some(missing) => Err::<(), CollectionMissing>(missing),
                None => Ok::<(), CollectionMissing>(()),
            },
    {
        let mut i: usize = 0;
        while i < ids.len()
            invariant
                i <= ids.len(),
                self@.first_missing(ids@.take(i as int)) is None,
            decreases ids.len() - i,
        {
            proof {
                assert(ids@.take(i + 1).drop_last() =~= ids@.take(i as int));
            }
            if let Err(missing) = self.collection(ids[i]) {
                proof {
                    lemma_first_error_stays(
                        ids@,
                        |id: u64|
                            if self@.collections.contains_key(id) {
                                None
                            } else {
                                Some(CollectionMissing(id))
                            },
                        (i + 1) as nat,
                    );
                }
                return Err(missing);
            }
            i = i + 1;
        }
        proof {
            assert(ids@.take(i as int) =~= ids@);
        }
        Ok(())
    }
}

impl<'a, P, L: FrontierLogic> ActiveInstance<'a, P, L> {
    /// Initiates a peek request for the contents of `id` at `timestamp`.
    pub fn peek(
        &mut self,
        id: GlobalId,
        literal_constraints: Option<Vec<P>>,
        uuid: Uuid,
        timestamp: u64,
        finishing: P,
        map_filter_project: P,
        target_replica: Option<ReplicaId>,
        otel_ctx: OpenTelemetryContext<P>,
    ) -> (result: Result<(), PeekError>)
        requires
            old(self).compute.wf(),
            old(self).compute@.peek_error(id, timestamp) is None ==> old(self).compute@.peek(
                old(self).storage@.dom(),
                PeekModel {
                    id,
                    literal_constraints: rows_option(literal_constraints),
                    uuid,
                    timestamp,
                    finishing,
                    map_filter_project,
                    otel_ctx,
                },
                target_replica,
            ).spent <= i64::MAX,
        ensures
            final(self).compute.wf(),
            final(self).storage == old(self).storage,
            *final(final(self).compute) == *final(old(self).compute),
            match old(self).compute@.peek_error(id, timestamp) {
                Some(error) => {
                    &&& result == Err::<(), PeekError>(error)
                    &&& final(self).compute@ == old(self).compute@
                },
                None => {
                    &&& result == Ok::<(), PeekError>(())
                    &&& final(self).compute@ == old(self).compute@.peek(
                        old(self).storage@.dom(),
                        PeekModel {
                            id,
                            literal_constraints: rows_option(literal_constraints),
                            uuid,
                            timestamp,
                            finishing,
                            map_filter_project,
                            otel_ctx,
                        },
                        target_replica,
                    )
                },
            },
    {
        let since = match self.compute.collection(id) {
            Ok(collection) => collection.read_frontier(),
            Err(missing) => {
                return Err(PeekError::from(missing));
            },
        };
        if !antichain_reaches(&since, timestamp) {
            return Err(PeekError::SinceViolation(id));
        }
        let ghost before = *self.compute;

        // Install a compaction hold on `id` at `timestamp`.
        let mut updates: BTreeMap<GlobalId, ChangeBatch<u64>> = BTreeMap::new();
        updates.insert(id, batch_of(timestamp, 1));
        self.compute.spent = Ghost(self.compute.spent@ + 1);
        let ghost held = InstanceModel { spent: before@.spent + 1, ..before@ };
        proof {
            lemma_totals_of_few(timestamp, 1);
            assert(batches_counts(updates@) =~= Map::<u64, Counts>::empty().insert(
                id,
                count_at(timestamp, 1),
            ));
            assert forall|other: u64| #[trigger]
                capability_mass(self.compute.collections@, other) + batch_mass(updates@, other)
                    <= self.compute.spent@ by {
                assert(capability_mass(before.collections@, other) <= before.spent@);
            }
            assert(self.compute@ == held);
        }
        self.compute.update_read_capabilities(self.storage, updates);
        self.compute.peeks.insert(
            uuid,
            PendingPeek {
                target: id,
                time: timestamp,
                target_replica,
                otel_ctx: share_context(&otel_ctx),
            },
        );
        self.compute.send(
            ComputeCommand::Peek(
                Peek {
                    id,
                    literal_constraints,
                    uuid,
                    timestamp,
                    finishing,
                    map_filter_project,
                    otel_ctx,
                },
            ),
        );
        Ok(())
    }

    /// Cancels existing peek requests.
    pub fn cancel_peeks(&mut self, uuids: BTreeSet<Uuid>)
        requires
            old(self).compute.wf(),
            old(self).compute@.cancel_peeks(old(self).storage@.dom(), uuids@).spent <= i64::MAX,
        ensures
            final(self).compute.wf(),
            final(self).storage == old(self).storage,
            *final(final(self).compute) == *final(old(self).compute),
            final(self).compute@ == old(self).compute@.cancel_peeks(
                old(self).storage@.dom(),
                uuids@,
            ),
    {
        // Enqueue the response to the cancelation.
        let list = sorted_uuid_set(&uuids);
        let ghost peeks = self.compute.peeks@;
        let ghost before = self.compute@;
        let ghost response = |uuid: u128| cancel_response(peeks, uuid);
        let mut i: usize = 0;
        proof {
            assert(before.ready_responses =~= before.ready_responses + list@.take(0).map_values(
                response,
            ));
        }
        while i < list.len()
            invariant
                i <= list.len(),
                peeks == before.peeks,
                response == (|uuid: u128| cancel_response(peeks, uuid)),
                self.compute.wf(),
                self.storage == old(self).storage,
                *final(self.compute) == *final(old(self).compute),
                self.compute@ == (InstanceModel {
                    ready_responses: before.ready_responses + list@.take(i as int).map_values(
                        response,
                    ),
                    ..before
                }),
            decreases list.len() - i,
        {
            let uuid = list[i];
            let ghost queued = self.compute.ready_responses@;
            let otel_ctx = match self.compute.peeks.get(&uuid) {
                Some(pending) => share_context(&pending.otel_ctx),
                None => None,
            };
            let answer = ComputeControllerResponse::PeekResponse(
                uuid,
                PeekResponse::Canceled,
                otel_ctx,
            );
            self.compute.ready_responses.push_back(answer);
            proof {
                assert(responses_model(self.compute.ready_responses@) =~= responses_model(
                    queued,
                ).push(response(uuid)));
                assert(list@.take(i + 1).map_values(response) =~= list@.take(
                    i as int,
                ).map_values(response).push(response(uuid)));
                assert(self.compute@.ready_responses =~= before.ready_responses + list@.take(
                    i + 1,
                ).map_values(response));
            }
            i = i + 1;
        }
        proof {
            assert(list@.take(i as int) =~= list@);
        }

        // Canceled peeks should not be further responded to.
        self.compute.remove_peeks(self.storage, &uuids);
        self.compute.send(ComputeCommand::CancelPeeks { uuids });
    }

    /// Assigns a read policy to specific identifiers.
    ///
    /// The policies are assigned in the order presented, and repeated identifiers conclude with
    /// the last policy. Changing a policy immediately downgrades the read capability if
    /// appropriate, but it does not "recover" the read capability if the prior capability is
    /// already ahead of it.
    ///
    /// Identifiers not present in `policies` retain their existing read policies.
    pub fn set_read_policy(&mut self, policies: Vec<(GlobalId, ReadPolicy<L>)>) -> (result: Result<
        (),
        CollectionMissing,
    >)
        requires
            old(self).compute.wf(),
            old(self).compute@.set_read_policy(
                old(self).storage@.dom(),
                policies_model(policies@),
            ).spent <= i64::MAX,
        ensures
            final(self).compute.wf(),
            final(self).storage == old(self).storage,
            *final(final(self).compute) == *final(old(self).compute),
            final(self).compute@ == old(self).compute@.set_read_policy(
                old(self).storage@.dom(),
                policies_model(policies@),
            ),
            result == match old(self).compute@.assigned(policies_model(policies@)).missing {
                Some(id) => Err::<(), CollectionMissing>(CollectionMissing(id)),
                None => Ok::<(), CollectionMissing>(()),
            },
    {
        let ghost model = policies_model(policies@);
        let ghost before = self.compute@;
        let ghost start = before.assigned(Seq::empty());
        let ghost end = before.assigned(model);
        let mut read_capability_changes: BTreeMap<GlobalId, ChangeBatch<u64>> = BTreeMap::new();
        proof {
            assert(batches_counts(read_capability_changes@) =~= Map::empty());
            assert(model.take(0) =~= Seq::empty());
            lemma_settling_spends(
                (InstanceModel { collections: end.collections, spent: end.spent, ..before }),
                self.storage@.dom(),
                end.capabilities,
            );
        }
        for entry in entries: policies
            invariant
                model == policies_model(entries.seq()),
                start == before.assigned(Seq::empty()),
                end == start.assign_all(model),
                end.spent <= i64::MAX,
                before == old(self).compute@,
                self.compute.wf(),
                self.storage == old(self).storage,
                *final(self.compute) == *final(old(self).compute),
                self.compute@ == (InstanceModel {
                    collections: self.compute@.collections,
                    spent: self.compute@.spent,
                    ..before
                }),
                ({
                    let now = start.assign_all(model.take(entries.index()));
                    &&& now.collections == self.compute@.collections
                    &&& now.capabilities == batches_counts(read_capability_changes@)
                    &&& now.missing is None
                    &&& now.spent == self.compute.spent@
                }),
                forall|id: u64| #[trigger]
                    capability_mass(self.compute.collections@, id) + batch_mass(
                        read_capability_changes@,
                        id,
                    ) <= self.compute.spent@,
        {
            let (id, policy) = entry;
            let ghost i = entries.index();
            let ghost now = start.assign_all(model.take(i));
            let ghost next = start.assign_all(model.take(i + 1));
            let ghost compute = *self.compute;
            let ghost before_changes = read_capability_changes@;
            proof {
                assert(model[i] == (id, policy@));
                assert(model.take(i + 1).drop_last() =~= model.take(i));
                assert(next == now.assign(id, policy@));
                lemma_assigning_spends(start, model, (i + 1) as nat);
            }
            match self.compute.collections.remove(&id) {
                None => {
                    proof {
                        assert(self.compute.collections@ =~= compute.collections@);
                    }
                    return Err(CollectionMissing(id));
                },
                Some(collection) => {
                    let mut collection = collection;
                    let ghost known = collection@;
                    proof {
                        assert(known == now.collections[id]);
                        assert(capability_mass(compute.collections@, id)
                            == collection.capability_mass());
                        assert(capability_mass(compute.collections@, id) + batch_mass(
                            before_changes,
                            id,
                        ) <= compute.spent@);
                    }
                    let capability = policy.frontier(&collection.write_frontier);
                    let mut update = collection.downgrade(capability);
                    if !batch_is_empty(&mut update) {
                        let changes = drain_batch(&mut update);
                        record(&mut read_capability_changes, id, changes);
                    }
                    collection.read_policy = policy;
                    self.compute.collections.insert(id, collection);
                    self.compute.spent = Ghost(next.spent);
                    proof {
                        assert(self.compute@.collections =~= compute@.collections.insert(
                            id,
                            collection@,
                        ));
                        assert(self.compute@.collections =~= next.collections);
                        assert forall|other: u64| #[trigger]
                            capability_mass(self.compute.collections@, other) + batch_mass(
                                read_capability_changes@,
                                other,
                            ) <= self.compute.spent@ by {
                            assert(capability_mass(compute.collections@, other) + batch_mass(
                                before_changes,
                                other,
                            ) <= compute.spent@);
                        }
                        lemma_acyclic_less(compute@.collections, self.compute@.collections);
                    }
                },
            }
        }
        proof {
            assert(model.take(model.len() as int) =~= model);
        }
        self.compute.update_read_capabilities(self.storage, read_capability_changes);
        Ok(())
    }

    /// Drops the read capability for the given collections and allows their resources to be
    /// reclaimed.
    pub fn drop_collections(&mut self, ids: Vec<GlobalId>) -> (result: Result<
        (),
        CollectionMissing,
    >)
        requires
            old(self).compute.wf(),
            old(self).compute@.first_missing(ids@) is None ==> old(self).compute@.drop_collections(
                old(self).storage@.dom(),
                ids@,
            ).spent <= i64::MAX,
        ensures
            final(self).compute.wf(),
            final(self).storage == old(self).storage,
            *final(final(self).compute) == *final(old(self).compute),
            match old(self).compute@.first_missing(ids@) {
                Some(missing) => {
                    &&& result == Err::<(), CollectionMissing>(missing)
                    &&& final(self).compute@ == old(self).compute@
                },
                None => {
                    &&& result == Ok::<(), CollectionMissing>(())
                    &&& final(self).compute@ == old(self).compute@.drop_collections(
                        old(self).storage@.dom(),
                        ids@,
                    )
                },
            },
    {
        // Validate that the ids exist.
        self.compute.validate_ids(&ids)?;

        let mut policies: Vec<(GlobalId, ReadPolicy<L>)> = Vec::new();
        let mut i: usize = 0;
        while i < ids.len()
            invariant
                i <= ids.len(),
                policies_model(policies@) == dropping::<L>(ids@.take(i as int)),
            decreases ids.len() - i,
        {
            let ghost before = policies@;
            policies.push((ids[i], ReadPolicy::ValidFrom(empty_antichain())));
            proof {
                assert(policies_model(policies@) =~= policies_model(before).push(
                    (ids@[i as int], PolicyModel::ValidFrom(Seq::empty())),
                ));
                assert(dropping::<L>(ids@.take(i + 1)) =~= dropping::<L>(
                    ids@.take(i as int),
                ).push((ids@[i as int], PolicyModel::ValidFrom(Seq::empty()))));
            }
            i = i + 1;
        }
        proof {
            assert(ids@.take(i as int) =~= ids@);
            lemma_all_dropped(self.compute@, ids@);
        }
        self.set_read_policy(policies)
    }

    /// Updates the max size in bytes of any result.
    pub fn update_max_result_size(&mut self, max_result_size: u32)
        requires
            old(self).compute.wf(),
        ensures
            final(self).compute.wf(),
            final(self).storage == old(self).storage,
            *final(final(self).compute) == *final(old(self).compute),
            final(self).compute@ == old(self).compute@.send(
                crate::command::CommandModel::UpdateMaxResultSize(max_result_size),
            ),
    {
        self.compute.send(ComputeCommand::UpdateMaxResultSize(max_result_size));
    }
}

} // verus!
