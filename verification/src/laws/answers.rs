//! Which answers are passed on, and how often.
use vstd::prelude::*;

use super::accounts::law_capabilities_change_alone;
use crate::command::{OpenTelemetryContext, PeekModel};
use crate::frontier::{frontier_lt, reaches};
use crate::model::{cancel_response, given_up, InstanceModel};
use crate::ordered::{lemma_picked, lemma_sorted_ids, sorted_ids};
use crate::policy::FrontierLogic;
use crate::response::{
    ComputeResponseModel, ControllerResponseModel, PeekResponseModel, SubscribeBatchModel,
    SubscribeResponseModel,
};

verus! {

/// Forgetting peeks leaves the other peeks pending.
proof fn lemma_removed_peeks<P, L: FrontierLogic>(
    state: InstanceModel<P, L>,
    storage_ids: Set<u64>,
    uuids: Set<u128>,
)
    ensures
        state.remove_peeks(storage_ids, uuids).peeks == state.peeks.remove_keys(uuids),
{
    law_capabilities_change_alone(
        InstanceModel {
            peeks: state.peeks.remove_keys(uuids),
            spent: state.spent + uuids.len(),
            ..state
        },
        storage_ids,
        given_up(state.peeks, sorted_ids(uuids)),
    );
}

/// Once an answer to a peek was passed on, no other one is, whichever replica it comes from.
pub proof fn law_peek_answered_once<P, L: FrontierLogic>(
    state: InstanceModel<P, L>,
    storage_ids: Set<u64>,
    uuid: u128,
    first: PeekResponseModel<P>,
    first_context: OpenTelemetryContext<P>,
    first_replica: u64,
    second: PeekResponseModel<P>,
    second_context: OpenTelemetryContext<P>,
    second_replica: u64,
)
    requires
        state.handle_response(
            storage_ids,
            ComputeResponseModel::PeekResponse(uuid, first, first_context),
            first_replica,
        ).1 is Some,
    ensures
        ({
            let after = state.handle_response(
                storage_ids,
                ComputeResponseModel::PeekResponse(uuid, first, first_context),
                first_replica,
            ).0;
            after.handle_response(
                storage_ids,
                ComputeResponseModel::PeekResponse(uuid, second, second_context),
                second_replica,
            ) == (after, None::<ControllerResponseModel<P>>)
        }),
{
    lemma_removed_peeks(state, storage_ids, Set::empty().insert(uuid));
}

/// The answer to a peek is passed on as it is, with its own context, if it comes from the replica
/// that the peek targets, and from any replica if it targets none. Otherwise nothing changes.
pub proof fn law_peek_is_answered<P, L: FrontierLogic>(
    state: InstanceModel<P, L>,
    storage_ids: Set<u64>,
    peek: PeekModel<P>,
    target_replica: Option<u64>,
    response: PeekResponseModel<P>,
    context: OpenTelemetryContext<P>,
    replica: u64,
)
    ensures
        ({
            let pending = state.peek(storage_ids, peek, target_replica);
            let (after, answer) = pending.handle_response(
                storage_ids,
                ComputeResponseModel::PeekResponse(peek.uuid, response, context),
                replica,
            );
            if target_replica is None || target_replica == Some(replica) {
                &&& answer == Some(
                    ControllerResponseModel::PeekResponse(peek.uuid, response, context),
                )
                &&& !after.peeks.contains_key(peek.uuid)
            } else {
                &&& answer is None
                &&& after == pending
            }
        }),
{
    let pending = state.peek(storage_ids, peek, target_replica);
    lemma_removed_peeks(pending, storage_ids, Set::empty().insert(peek.uuid));
}

/// Peeks that were canceled are not answered any more; each of them gets one response that says
/// so, with the context of the peek if it was pending. All other peeks stay pending.
pub proof fn law_canceled_peeks_unanswered<P, L: FrontierLogic>(
    state: InstanceModel<P, L>,
    storage_ids: Set<u64>,
    uuids: Set<u128>,
    response: PeekResponseModel<P>,
    context: OpenTelemetryContext<P>,
    replica: u64,
)
    requires
        uuids.finite(),
    ensures
        ({
            let after = state.cancel_peeks(storage_ids, uuids);
            &&& after.peeks == state.peeks.remove_keys(uuids)
            &&& after.ready_responses.len() == state.ready_responses.len() + uuids.len()
            &&& forall|uuid: u128| #[trigger]
                uuids.contains(uuid) ==> after.ready_responses.contains(
                    cancel_response(state.peeks, uuid),
                )
            &&& forall|uuid: u128| #[trigger]
                uuids.contains(uuid) ==> after.handle_response(
                    storage_ids,
                    ComputeResponseModel::PeekResponse(uuid, response, context),
                    replica,
                ) == (after, None::<ControllerResponseModel<P>>)
        }),
{
    let after = state.cancel_peeks(storage_ids, uuids);
    let list = sorted_ids(uuids);
    let answers = list.map_values(|uuid: u128| cancel_response(state.peeks, uuid));
    let answered = InstanceModel { ready_responses: state.ready_responses + answers, ..state };
    lemma_removed_peeks(answered, storage_ids, uuids);
    lemma_sorted_ids(uuids);
    law_capabilities_change_alone(
        InstanceModel {
            peeks: answered.peeks.remove_keys(uuids),
            spent: answered.spent + uuids.len(),
            ..answered
        },
        storage_ids,
        given_up(answered.peeks, list),
    );
    assert forall|uuid: u128| #[trigger]
        uuids.contains(uuid) implies after.ready_responses.contains(
        cancel_response(state.peeks, uuid),
    ) by {
        assert(list.contains(uuid));
        let i = choose|i: int| 0 <= i < list.len() && list[i] == uuid;
        assert(after.ready_responses[state.ready_responses.len() + i] == answers[i]);
    }
}

/// The batch that is passed on for a batch of a subscription, if one is.
pub open spec fn passed_on<P, L: FrontierLogic>(
    state: InstanceModel<P, L>,
    storage_ids: Set<u64>,
    id: u64,
    batch: SubscribeBatchModel<P>,
    replica: u64,
) -> Option<SubscribeBatchModel<P>> {
    match state.handle_response(
        storage_ids,
        ComputeResponseModel::SubscribeResponse(id, SubscribeResponseModel::Batch(batch)),
        replica,
    ).1 {
        Some(
            ControllerResponseModel::SubscribeResponse(_, SubscribeResponseModel::Batch(batch)),
        ) => Some(batch),
        _ => None,
    }
}

/// A batch of a subscription is passed on exactly if it advances what the subscription has
/// reached. It then starts where the subscription stood, ends where it stands afterwards, and
/// holds exactly those updates that do not lie before its start.
pub proof fn law_subscribe_batches_follow<P, L: FrontierLogic>(
    state: InstanceModel<P, L>,
    storage_ids: Set<u64>,
    id: u64,
    batch: SubscribeBatchModel<P>,
    replica: u64,
)
    ensures
        ({
            let reached = state.subscribe_frontier(id);
            let after = state.handle_response(
                storage_ids,
                ComputeResponseModel::SubscribeResponse(id, SubscribeResponseModel::Batch(batch)),
                replica,
            ).0;
            match passed_on(state, storage_ids, id, batch, replica) {
                Some(passed) => {
                    &&& frontier_lt(reached, batch.upper)
                    &&& passed.lower == reached
                    &&& passed.upper == batch.upper
                    &&& after.subscribe_frontier(id) == batch.upper
                    &&& match batch.updates {
                        Ok(updates) => passed.updates == Ok::<Seq<(u64, P, i64)>, Seq<char>>(
                            updates.filter(|update: (u64, P, i64)| reaches(reached, update.0)),
                        ),
                        Err(text) => passed.updates == Err::<Seq<(u64, P, i64)>, Seq<char>>(text),
                    }
                },
                None => {
                    &&& !frontier_lt(reached, batch.upper)
                    &&& after.subscribe_frontier(id) == reached
                },
            }
        }),
{
    let reached = state.subscribe_frontier(id);
    if reached.len() == 0 {
        assert(reached =~= Seq::empty());
    }
    if batch.upper.len() == 0 {
        assert(batch.upper =~= Seq::empty());
    }
}

/// No time is passed on twice: where a batch holds no update at or after its end, the updates of
/// the batch that is passed on next lie at other times, whichever replica it comes from.
pub proof fn law_subscribe_updates_once<P, L: FrontierLogic>(
    state: InstanceModel<P, L>,
    storage_ids: Set<u64>,
    id: u64,
    first: SubscribeBatchModel<P>,
    first_replica: u64,
    second: SubscribeBatchModel<P>,
    second_replica: u64,
)
    requires
        passed_on(state, storage_ids, id, first, first_replica) is Some,
        first.updates matches Ok(updates) ==> forall|i: int|
            0 <= i < updates.len() ==> !reaches(first.upper, (#[trigger] updates[i]).0),
    ensures
        ({
            let after = state.handle_response(
                storage_ids,
                ComputeResponseModel::SubscribeResponse(id, SubscribeResponseModel::Batch(first)),
                first_replica,
            ).0;
            match (
                passed_on(state, storage_ids, id, first, first_replica),
                passed_on(after, storage_ids, id, second, second_replica),
            ) {
                (Some(one), Some(two)) => {
                    &&& two.lower == one.upper
                    &&& one.updates matches Ok(ones) ==> two.updates matches Ok(twos)
                        ==> forall|i: int, j: int|
                        0 <= i < ones.len() && 0 <= j < twos.len() ==> (#[trigger] ones[i]).0 != (
                        #[trigger] twos[j]).0
                },
                _ => true,
            }
        }),
{
    let after = state.handle_response(
        storage_ids,
        ComputeResponseModel::SubscribeResponse(id, SubscribeResponseModel::Batch(first)),
        first_replica,
    ).0;
    law_subscribe_batches_follow(state, storage_ids, id, first, first_replica);
    law_subscribe_batches_follow(after, storage_ids, id, second, second_replica);
    let reached = state.subscribe_frontier(id);
    let then = after.subscribe_frontier(id);
    if first.updates is Ok && second.updates is Ok {
        lemma_picked(first.updates->Ok_0, |update: (u64, P, i64)| reaches(reached, update.0));
        lemma_picked(second.updates->Ok_0, |update: (u64, P, i64)| reaches(then, update.0));
        let ones = first.updates->Ok_0.filter(
            |update: (u64, P, i64)| reaches(reached, update.0),
        );
        assert forall|i: int| 0 <= i < ones.len() implies !reaches(
            first.upper,
            (#[trigger] ones[i]).0,
        ) by {
            let updates = first.updates->Ok_0;
            assert(updates.contains(ones[i]));
            let k = choose|k: int| 0 <= k < updates.len() && updates[k] == ones[i];
            assert(!reaches(first.upper, updates[k].0));
        }
    }
}

/// Once a subscription is complete or dropped, nothing of it is passed on any more.
pub proof fn law_ended_subscribe_is_silent<P, L: FrontierLogic>(
    state: InstanceModel<P, L>,
    storage_ids: Set<u64>,
    id: u64,
    response: SubscribeResponseModel<P>,
    replica: u64,
)
    requires
        !state.subscribes.contains_key(id),
    ensures
        ({
            let (after, answer) = state.handle_response(
                storage_ids,
                ComputeResponseModel::SubscribeResponse(id, response),
                replica,
            );
            &&& answer is None
            &&& !after.subscribes.contains_key(id)
        }),
{
    match response {
        SubscribeResponseModel::Batch(batch) => {
            let reached = state.subscribe_frontier(id);
            if frontier_lt(reached, batch.upper) {
                if batch.upper.len() > 0 {
                    assert(reaches(reached, batch.upper[0]));
                }
            }
        },
        SubscribeResponseModel::DroppedAt(_) => {},
    }
}

/// A subscription ends when it reaches the empty frontier, and when it is dropped; a drop is
/// passed on with the frontier that the subscription has reached.
pub proof fn law_subscribe_ends<P, L: FrontierLogic>(
    state: InstanceModel<P, L>,
    storage_ids: Set<u64>,
    id: u64,
    response: SubscribeResponseModel<P>,
    replica: u64,
)
    requires
        state.subscribes.contains_key(id),
    ensures
        ({
            let (after, answer) = state.handle_response(
                storage_ids,
                ComputeResponseModel::SubscribeResponse(id, response),
                replica,
            );
            match response {
                SubscribeResponseModel::Batch(batch) => frontier_lt(
                    state.subscribes[id],
                    batch.upper,
                ) && batch.upper.len() == 0 ==> !after.subscribes.contains_key(id),
                SubscribeResponseModel::DroppedAt(_) => {
                    &&& answer == Some(
                        ControllerResponseModel::<P>::SubscribeResponse(
                            id,
                            SubscribeResponseModel::DroppedAt(state.subscribes[id]),
                        ),
                    )
                    &&& !after.subscribes.contains_key(id)
                },
            }
        }),
{
}

} // verus!
