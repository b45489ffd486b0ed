//! Responses of replicas.
use std::collections::BTreeSet;
use timely::progress::Antichain;
use vstd::prelude::*;

use super::{ActiveInstance, Instance};
use crate::command::{uppers_model, OpenTelemetryContext};
use crate::frontier::{
    antichain_elements, antichain_lt, antichain_reaches, copy_antichain, empty_antichain, is_empty,
    reaches, Frontier,
};
use crate::ids::{GlobalId, ReplicaId, Uuid};
use crate::policy::FrontierLogic;
use crate::response::{
    response_option, ComputeControllerResponse, ComputeResponse, ComputeResponseModel, PeekResponse,
    SubscribeBatch, SubscribeResponse,
};

verus! {

/// The updates at times that the frontier reaches.
fn retain_updates<P>(updates: Vec<(u64, P, i64)>, frontier: &Antichain<u64>) -> (result: Vec<
    (u64, P, i64),
>)
    ensures
        result@ == updates@.filter(
            |update: (u64, P, i64)| reaches(antichain_elements(*frontier), update.0),
        ),
{
    let ghost wanted = |update: (u64, P, i64)| reaches(antichain_elements(*frontier), update.0);
    let ghost all = updates@;
    let mut result: Vec<(u64, P, i64)> = Vec::new();
    proof {
        reveal(Seq::filter);
        assert(all.take(0) =~= Seq::empty());
    }
    for update in walk: updates
        invariant
            all == walk.seq(),
            wanted == (|update: (u64, P, i64)|
                reaches(antichain_elements(*frontier), update.0)),
            result@ == all.take(walk.index()).filter(wanted),
    {
        let ghost i = walk.index();
        proof {
            reveal(Seq::filter);
            assert(all.take(i + 1).drop_last() =~= all.take(i));
            assert(all.take(i + 1).last() == update);
        }
        if antichain_reaches(frontier, update.0) {
            result.push(update);
        }
    }
    proof {
        assert(all.take(all.len() as int) =~= all);
    }
    result
}

impl<P, L: FrontierLogic> Instance<P, L> {
    /// The write frontiers of collections that are tracked.
    fn retain_known(&self, list: Vec<(GlobalId, Antichain<u64>)>) -> (result: Vec<
        (GlobalId, Antichain<u64>),
    >)
        ensures
            uppers_model(result@) == self@.tracked_uppers(uppers_model(list@)),
    {
        let ghost all = uppers_model(list@);
        let ghost wanted = |upper: (u64, Frontier)| self@.collections.contains_key(upper.0);
        let mut result: Vec<(GlobalId, Antichain<u64>)> = Vec::new();
        proof {
            reveal(Seq::filter);
            assert(all.take(0) =~= Seq::empty());
            assert(uppers_model(result@) =~= all.take(0).filter(wanted));
        }
        for upper in walk: list
            invariant
                all == uppers_model(walk.seq()),
                wanted == (|upper: (u64, Frontier)| self@.collections.contains_key(upper.0)),
                uppers_model(result@) == all.take(walk.index()).filter(wanted),
        {
            let ghost i = walk.index();
            let ghost before = result@;
            proof {
                reveal(Seq::filter);
                assert(all.take(i + 1).drop_last() =~= all.take(i));
                assert(all.take(i + 1).last() == (upper.0, antichain_elements(upper.1)));
            }
            if self.collections.contains_key(&upper.0) {
                result.push(upper);
                proof {
                    assert(uppers_model(result@) =~= uppers_model(before).push(
                        (upper.0, antichain_elements(upper.1)),
                    ));
                }
            }
        }
        proof {
            assert(all.take(all.len() as int) =~= all);
        }
        result
    }

    /// Takes the frontier that a subscription has reached out.
    fn take_subscribe(&mut self, id: GlobalId) -> (result: Antichain<u64>)
        requires
            old(self).wf(),
        ensures
            final(self).wf(),
            final(self)@ == old(self)@.with_subscribe(id, Seq::empty()),
            antichain_elements(result) == old(self)@.subscribe_frontier(id),
    {
        let frontier = match self.subscribes.remove(&id) {
            Some(frontier) => frontier,
            None => empty_antichain(),
        };
        proof {
            assert(self@.subscribes =~= old(self)@.subscribes.remove(id));
        }
        frontier
    }

    /// Keeps the frontier that a subscription has reached, unless the subscription is complete.
    fn keep_subscribe(&mut self, id: GlobalId, frontier: &Antichain<u64>)
        requires
            old(self).wf(),
            !old(self)@.subscribes.contains_key(id),
        ensures
            final(self).wf(),
            final(self)@ == old(self)@.with_subscribe(id, antichain_elements(*frontier)),
    {
        if !is_empty(frontier) {
            // This subscribe can produce more data. Keep tracking it.
            self.subscribes.insert(id, copy_antichain(frontier));
            proof {
                assert(self@.subscribes =~= old(self)@.subscribes.insert(
                    id,
                    antichain_elements(*frontier),
                ));
            }
        } else {
            proof {
                assert(self@.subscribes =~= old(self)@.subscribes.remove(id));
            }
        }
    }
}

impl<'a, P, L: FrontierLogic> ActiveInstance<'a, P, L> {
    /// Handles a response of a replica. Returns what is to be passed on.
    pub fn handle_response(
        &mut self,
        response: ComputeResponse<P>,
        replica_id: ReplicaId,
    ) -> (result: Option<ComputeControllerResponse<P>>)
        requires
            old(self).compute.wf(),
            old(self).compute@.tracks_response(response@),
            old(self).compute@.handle_response(
                old(self).storage@.dom(),
                response@,
                replica_id,
            ).0.spent <= i64::MAX,
        ensures
            final(self).compute.wf(),
            final(self).storage == old(self).storage,
            *final(final(self).compute) == *final(old(self).compute),
            (final(self).compute@, response_option(result)) == old(self).compute@.handle_response(
                old(self).storage@.dom(),
                response@,
                replica_id,
            ),
    {
        match response {
            ComputeResponse::FrontierUppers(list) => {
                self.handle_frontier_uppers(list, replica_id);
                None
            },
            ComputeResponse::PeekResponse(uuid, peek_response, otel_ctx) => {
                self.handle_peek_response(uuid, peek_response, otel_ctx, replica_id)
            },
            ComputeResponse::SubscribeResponse(id, response) => {
                self.handle_subscribe_response(id, response, replica_id)
            },
        }
    }

    /// Takes write frontiers in; those of collections that are not tracked are ignored.
    fn handle_frontier_uppers(
        &mut self,
        list: Vec<(GlobalId, Antichain<u64>)>,
        replica_id: ReplicaId,
    )
        requires
            old(self).compute.wf(),
            old(self).compute@.update_write_frontiers(
                old(self).storage@.dom(),
                replica_id,
                old(self).compute@.tracked_uppers(uppers_model(list@)),
            ).spent <= i64::MAX,
        ensures
            final(self).compute.wf(),
            final(self).storage == old(self).storage,
            *final(final(self).compute) == *final(old(self).compute),
            final(self).compute@ == old(self).compute@.update_write_frontiers(
                old(self).storage@.dom(),
                replica_id,
                old(self).compute@.tracked_uppers(uppers_model(list@)),
            ),
    {
        let updates = self.compute.retain_known(list);
        self.compute.update_write_frontiers(self.storage, replica_id, &updates);
    }

    /// Forwards the peek response, if no response to this peek was forwarded previously. If the
    /// peek is targeting a replica, only the response from that replica is forwarded.
    fn handle_peek_response(
        &mut self,
        uuid: Uuid,
        response: PeekResponse<P>,
        otel_ctx: OpenTelemetryContext<P>,
        replica_id: ReplicaId,
    ) -> (result: Option<ComputeControllerResponse<P>>)
        requires
            old(self).compute.wf(),
            old(self).compute@.handle_response(
                old(self).storage@.dom(),
                ComputeResponseModel::PeekResponse(uuid, response@, otel_ctx),
                replica_id,
            ).0.spent <= i64::MAX,
        ensures
            final(self).compute.wf(),
            final(self).storage == old(self).storage,
            *final(final(self).compute) == *final(old(self).compute),
            (final(self).compute@, response_option(result)) == old(self).compute@.handle_response(
                old(self).storage@.dom(),
                ComputeResponseModel::PeekResponse(uuid, response@, otel_ctx),
                replica_id,
            ),
    {
        let target_replica = match self.compute.peeks.get(&uuid) {
            Some(peek) => match peek.target_replica {
                Some(target) => target,
                None => replica_id,
            },
            None => {
                return None;
            },
        };
        if target_replica != replica_id {
            return None;
        }
        let mut uuids: BTreeSet<Uuid> = BTreeSet::new();
        uuids.insert(uuid);
        self.compute.remove_peeks(self.storage, &uuids);

        // NOTE: we use the `otel_ctx` from the response, not the
        // pending peek, because we currently want the parent
        // to be whatever the compute worker did with this peek.
        Some(ComputeControllerResponse::PeekResponse(uuid, response, otel_ctx))
    }

    /// Takes the write frontier in that comes with the answer to a subscription, and forwards
    /// what the subscription has not seen yet.
    fn handle_subscribe_response(
        &mut self,
        subscribe_id: GlobalId,
        response: SubscribeResponse<P>,
        replica_id: ReplicaId,
    ) -> (result: Option<ComputeControllerResponse<P>>)
        requires
            old(self).compute.wf(),
            old(self).compute@.collections.contains_key(subscribe_id),
            old(self).compute@.handle_response(
                old(self).storage@.dom(),
                ComputeResponseModel::SubscribeResponse(subscribe_id, response@),
                replica_id,
            ).0.spent <= i64::MAX,
        ensures
            final(self).compute.wf(),
            final(self).storage == old(self).storage,
            *final(final(self).compute) == *final(old(self).compute),
            (final(self).compute@, response_option(result)) == old(self).compute@.handle_response(
                old(self).storage@.dom(),
                ComputeResponseModel::SubscribeResponse(subscribe_id, response@),
                replica_id,
            ),
    {
        let ghost before = self.compute@;
        let ghost (after, reported, answer) = before.subscribe_response(subscribe_id, response@);
        let mut frontier_updates: Vec<(GlobalId, Antichain<u64>)> = Vec::new();
        let in_progress = self.compute.subscribes.contains_key(&subscribe_id);
        let prev_frontier = self.compute.take_subscribe(subscribe_id);
        let controller_response = match response {
            SubscribeResponse::Batch(SubscribeBatch { lower: _, upper, updates }) => {
                frontier_updates.push((subscribe_id, copy_antichain(&upper)));

                // If this batch advances the subscribe's frontier, we emit all updates at times
                // greater or equal to the last frontier (to avoid emitting duplicate updates).
                if antichain_lt(&prev_frontier, &upper) {
                    self.compute.keep_subscribe(subscribe_id, &upper);
                    proof {
                        assert(self.compute@ == after);
                    }
                    let updates = match updates {
                        Ok(updates) => Ok(retain_updates(updates, &prev_frontier)),
                        Err(text) => Err(text),
                    };
                    Some(
                        ComputeControllerResponse::SubscribeResponse(
                            subscribe_id,
                            SubscribeResponse::Batch(
                                SubscribeBatch { lower: prev_frontier, upper, updates },
                            ),
                        ),
                    )
                } else {
                    self.compute.keep_subscribe(subscribe_id, &prev_frontier);
                    proof {
                        assert(self.compute@ == after);
                    }
                    None
                }
            },
            SubscribeResponse::DroppedAt(_) => {
                frontier_updates.push((subscribe_id, empty_antichain()));

                // If this subscribe is still in progress, forward the `DroppedAt` response.
                // Otherwise ignore it.
                if in_progress {
                    Some(
                        ComputeControllerResponse::SubscribeResponse(
                            subscribe_id,
                            SubscribeResponse::DroppedAt(prev_frontier),
                        ),
                    )
                } else {
                    None
                }
            },
        };
        proof {
            assert(self.compute@ == after);
            assert(uppers_model(frontier_updates@) =~= seq![(subscribe_id, reported)]);
            assert(response_option(controller_response) == answer);
        }
        self.compute.update_write_frontiers(self.storage, replica_id, &frontier_updates);
        controller_response
    }
}

} // verus!
